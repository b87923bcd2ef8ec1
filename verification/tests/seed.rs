use webrank::seed::{schedule, seed_list, URL};

fn seeds(list: &[&str]) -> Vec<String> {
    list.iter().map(|s| s.to_string()).collect()
}

#[test]
fn url_new_keeps_what_it_is_given() {
    let entry = URL::new("http://a.example", 7, true);
    assert_eq!(entry.url, "http://a.example");
    assert_eq!(entry.id, 7);
    assert!(entry.crawled);
    let other = URL::new("", 0, false);
    assert_eq!(other.url, "");
    assert_eq!(other.id, 0);
    assert!(!other.crawled);
}

#[test]
fn seed_list_has_one_entry_per_line() {
    assert_eq!(seed_list("http://a.example\nhttp://b.example\n"), seeds(&["http://a.example", "http://b.example"]));
    assert_eq!(seed_list("http://a.example\nhttp://b.example"), seeds(&["http://a.example", "http://b.example"]));
}

#[test]
fn seed_list_of_empty_text_is_empty() {
    assert_eq!(seed_list(""), Vec::<String>::new());
}

#[test]
fn seed_list_keeps_empty_lines() {
    assert_eq!(seed_list("\n"), seeds(&[""]));
    assert_eq!(seed_list("a\n\nb\n"), seeds(&["a", "", "b"]));
    assert_eq!(seed_list("a\n\n"), seeds(&["a", ""]));
}

#[test]
fn seed_list_drops_carriage_return_before_line_feed() {
    assert_eq!(seed_list("a\r\nb\r\n"), seeds(&["a", "b"]));
    assert_eq!(seed_list("a\r\r\nb"), seeds(&["a\r", "b"]));
    assert_eq!(seed_list("a\rb\n"), seeds(&["a\rb"]));
}

#[test]
fn seed_list_keeps_carriage_return_at_the_very_end() {
    assert_eq!(seed_list("a\nb\r"), seeds(&["a", "b\r"]));
    assert_eq!(seed_list("\r"), seeds(&["\r"]));
}

#[test]
fn schedule_takes_the_absent_documents_in_seed_order() {
    let list = seeds(&["http://a.example", "http://b.example", "http://c.example", "http://d.example"]);
    let queue = schedule(&list, &vec![true, false, true, false]);
    assert_eq!(queue.len(), 2);
    assert_eq!(queue[0].id, 1);
    assert_eq!(queue[0].url, "http://b.example");
    assert!(queue[0].crawled);
    assert_eq!(queue[1].id, 3);
    assert_eq!(queue[1].url, "http://d.example");
    assert!(queue[1].crawled);
}

#[test]
fn schedule_of_an_empty_store_takes_every_seed() {
    let list = seeds(&["http://a.example", "http://b.example"]);
    let queue = schedule(&list, &vec![]);
    assert_eq!(queue.len(), 2);
    assert_eq!(queue[0].id, 0);
    assert_eq!(queue[1].id, 1);
    let queue = schedule(&list, &vec![false, false]);
    assert_eq!(queue.len(), 2);
}

#[test]
fn schedule_treats_what_lies_beyond_the_store_as_absent() {
    let list = seeds(&["http://a.example", "http://b.example", "http://c.example"]);
    let queue = schedule(&list, &vec![true]);
    assert_eq!(queue.len(), 2);
    assert_eq!(queue[0].id, 1);
    assert_eq!(queue[1].id, 2);
}

#[test]
fn schedule_of_a_complete_store_is_empty() {
    let list = seeds(&["http://a.example", "http://b.example"]);
    assert!(schedule(&list, &vec![true, true]).is_empty());
    assert!(schedule(&list, &vec![true, true, false]).is_empty());
    assert!(schedule(&vec![], &vec![]).is_empty());
}

#[test]
fn seed_list_agrees_with_the_lines_of_the_standard_library() {
    let texts = [
        "",
        "\n",
        "\r",
        "\r\n",
        "\n\n",
        "\n\r\n",
        "a",
        "a\n",
        "a\r\n",
        "a\r",
        "a\nb",
        "a\r\nb\r\n",
        "a\r\r\n\rb\r",
        "http://a.example/\nhttp://b.example/x y\n\nhttp://c.example",
        "http://ä.example/ö\r\nhttp://例え.example/テスト\n🦀\r\n\u{85}\u{2028}end",
        "\u{7f}\n\u{80}\r\n\u{7ff}\n\u{800}\r\n\u{ffff}\n\u{10000}\r\n\u{10ffff}",
    ];
    for text in texts {
        let expected: Vec<String> = text.lines().map(|line| line.to_string()).collect();
        assert_eq!(seed_list(text), expected);
    }
}

#[test]
fn seed_list_keeps_characters_of_every_width() {
    assert_eq!(seed_list("é\r\n€\n𝄞\r"), seeds(&["é", "€", "𝄞\r"]));
}
