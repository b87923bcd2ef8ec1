use webrank::graph::Graph;
use webrank::rank::{RankVector, UNIT};
use webrank::report::{format_decimal, format_line, format_report, format_score, ranked, report, sort_ranked, RankedNode};

fn node(id: usize, score: u64) -> RankedNode {
    RankedNode { id, score }
}

#[test]
fn decimal_text_of_numbers() {
    assert_eq!(format_decimal(0), "0");
    assert_eq!(format_decimal(7), "7");
    assert_eq!(format_decimal(10), "10");
    assert_eq!(format_decimal(1234567890), "1234567890");
    assert_eq!(format_decimal(u64::MAX), "18446744073709551615");
}

#[test]
fn score_text_has_nine_decimal_places() {
    assert_eq!(format_score(0), "0.000000000");
    assert_eq!(format_score(1), "0.000000001");
    assert_eq!(format_score(UNIT), "1.000000000");
    assert_eq!(format_score(1_450_000_000), "1.450000000");
    assert_eq!(format_score(550_000_000), "0.550000000");
    assert_eq!(format_score(12 * UNIT + 34_005), "12.000034005");
}

#[test]
fn report_line_has_number_score_and_address() {
    assert_eq!(format_line(3, 550_000_000, "http://d.example"), "[3] 0.550000000: http://d.example");
    assert_eq!(format_line(0, 2 * UNIT, ""), "[0] 2.000000000: ");
    assert_eq!(format_line(120, 1, "http://x.example/ä"), "[120] 0.000000001: http://x.example/ä");
}

#[test]
fn sort_is_by_falling_score_then_rising_number() {
    let list = vec![node(0, 5), node(1, 9), node(2, 5), node(3, 1), node(4, 9), node(5, 0)];
    let sorted = sort_ranked(&list);
    assert_eq!(sorted, vec![node(1, 9), node(4, 9), node(0, 5), node(2, 5), node(3, 1), node(5, 0)]);
    let list = vec![node(4, 9), node(2, 5), node(1, 9), node(0, 5)];
    assert_eq!(sort_ranked(&list), vec![node(1, 9), node(4, 9), node(0, 5), node(2, 5)]);
    assert_eq!(sort_ranked(&vec![]), vec![]);
    assert_eq!(sort_ranked(&vec![node(3, 3)]), vec![node(3, 3)]);
}

#[test]
fn sort_handles_long_lists() {
    let mut list = Vec::new();
    for id in 0..1000usize {
        list.push(node(id, ((id * 7919) % 101) as u64));
    }
    let sorted = sort_ranked(&list);
    assert_eq!(sorted.len(), 1000);
    for pair in sorted.windows(2) {
        assert!(pair[0].score > pair[1].score || (pair[0].score == pair[1].score && pair[0].id < pair[1].id));
    }
    let mut expected = list.clone();
    expected.sort_by(|a, b| b.score.cmp(&a.score).then(a.id.cmp(&b.id)));
    assert_eq!(sorted, expected);
}

#[test]
fn ranked_lists_every_node_in_report_order() {
    let mut graph = Graph::new(2);
    assert!(graph.add_edge(0, 1));
    let scores = RankVector::uniform(2).unwrap().step(&graph, UNIT / 10).unwrap();
    assert_eq!(ranked(&scores), vec![node(1, 1_450_000_000), node(0, 550_000_000)]);
    let uniform = RankVector::uniform(3).unwrap();
    assert_eq!(ranked(&uniform), vec![node(0, UNIT), node(1, UNIT), node(2, UNIT)]);
}

#[test]
fn report_has_one_line_per_node() {
    let mut graph = Graph::new(2);
    assert!(graph.add_edge(0, 1));
    let scores = RankVector::uniform(2).unwrap().step(&graph, UNIT / 10).unwrap();
    let urls = vec!["http://a.example".to_string(), "http://b.example".to_string()];
    assert_eq!(
        report(&scores, &urls),
        Some(vec![
            "[1] 1.450000000: http://b.example".to_string(),
            "[0] 0.550000000: http://a.example".to_string(),
        ])
    );
}

#[test]
fn report_needs_one_address_per_node() {
    let scores = RankVector::uniform(2).unwrap();
    assert_eq!(report(&scores, &vec!["http://a.example".to_string()]), None);
    assert_eq!(report(&scores, &vec![]), None);
    let empty = RankVector::uniform(0).unwrap();
    assert_eq!(report(&empty, &vec![]), Some(vec![]));
}

#[test]
fn format_report_refuses_a_node_without_address() {
    let urls = vec!["http://a.example".to_string()];
    assert_eq!(format_report(&vec![node(1, 5)], &urls), None);
    assert_eq!(format_report(&vec![node(0, 5)], &urls), Some(vec!["[0] 0.000000005: http://a.example".to_string()]));
}
