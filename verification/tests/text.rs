use webrank::text::{split_lines, CARRIAGE_RETURN, LINE_FEED};

fn lines(list: &[&str]) -> Vec<String> {
    list.iter().map(|s| s.to_string()).collect()
}

#[test]
fn split_lines_cuts_at_line_feeds() {
    assert_eq!(split_lines("one\ntwo\nthree"), lines(&["one", "two", "three"]));
    assert_eq!(split_lines("one\ntwo\nthree\n"), lines(&["one", "two", "three"]));
    assert_eq!(split_lines("\none"), lines(&["", "one"]));
}

#[test]
fn split_lines_takes_a_carriage_return_with_the_line_feed() {
    assert_eq!(split_lines("one\r\ntwo\r\n"), lines(&["one", "two"]));
    assert_eq!(split_lines("one\r\n\r\n"), lines(&["one", ""]));
    assert_eq!(split_lines("one\rtwo"), lines(&["one\rtwo"]));
    assert_eq!(split_lines("one\r"), lines(&["one\r"]));
}

#[test]
fn split_lines_of_nothing_is_nothing() {
    assert_eq!(split_lines(""), Vec::<String>::new());
}

#[test]
fn split_lines_handles_long_texts() {
    let mut text = String::new();
    let mut expected = Vec::new();
    for id in 0..50_000 {
        let line = format!("http://host{}.example/päge/{}", id % 97, id);
        text.push_str(&line);
        text.push_str(if id % 2 == 0 { "\n" } else { "\r\n" });
        expected.push(line);
    }
    assert_eq!(split_lines(&text), expected);
}

#[test]
fn line_end_bytes() {
    assert_eq!(LINE_FEED, b'\n');
    assert_eq!(CARRIAGE_RETURN, b'\r');
}
