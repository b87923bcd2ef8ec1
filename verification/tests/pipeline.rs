use webrank::links::build_graph;
use webrank::rank::{rank, RankParams, Termination, UNIT};
use webrank::report::{ranked, report};
use webrank::seed::{schedule, seed_list};

fn page(links: &[&str]) -> Option<String> {
    let mut text = String::new();
    for link in links {
        text.push_str(&format!("<p><a href=\"{}\">link</a></p>\n", link));
    }
    Some(text)
}

#[test]
fn end_to_end_scenario() {
    let seeds = seed_list("http://a.example\nhttp://b.example\nhttp://c.example\nhttp://d.example\n");
    assert_eq!(seeds.len(), 4);
    // A and C link to B; D links to B and C; the fetch of B failed.
    let documents = vec![
        page(&["http://b.example"]),
        None,
        page(&["http://b.example/"]),
        page(&["http://b.example", "http://c.example"]),
    ];
    let graph = build_graph(&seeds, &documents).unwrap();
    assert_eq!(graph.node_count(), 4);
    assert_eq!(graph.edges(), &vec![(0, 1), (2, 1), (3, 1), (3, 2)]);
    assert!(graph.is_dangling(1));
    assert_eq!(graph.in_degree(1), 3);

    let ranking = rank(&graph, &RankParams::default()).unwrap();
    assert_eq!(ranking.termination, Termination::Converged);
    assert_eq!(ranking.scores.scores().iter().sum::<u64>(), 4 * UNIT);
    let order = ranked(&ranking.scores);
    assert_eq!(order[0].id, 1);
    assert_eq!(order[1].id, 2);
    assert!(order[0].score > order[1].score);
    assert!(order[1].score > order[2].score);
    // A and D have no inbound edge: they hold what the pool deals out, which
    // differs by the one part that the first nodes get of a remainder.
    assert_eq!(order[2].id, 0);
    assert_eq!(order[3].id, 3);
    assert!(order[2].score - order[3].score <= 1);

    let lines = report(&ranking.scores, &seeds).unwrap();
    assert_eq!(lines.len(), 4);
    assert!(lines[0].starts_with("[1] "));
    assert!(lines[0].ends_with(": http://b.example"));
    assert!(lines[1].starts_with("[2] "));
    assert!(lines[1].ends_with(": http://c.example"));
}

#[test]
fn second_crawl_after_a_complete_one_has_nothing_to_do() {
    let seeds = seed_list("http://a.example\nhttp://b.example\nhttp://c.example\n");
    let mut present = vec![false, true, false];
    let queue = schedule(&seeds, &present);
    assert_eq!(queue.len(), 2);
    for entry in &queue {
        present[entry.id] = true;
    }
    assert!(schedule(&seeds, &present).is_empty());
}
