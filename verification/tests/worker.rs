use webrank::seed::URL;
use webrank::worker::{
    start, step, summarize, CrawlParams, CrawlSummary, FetchReport, WorkerAction, WorkerEvent,
    WorkerState,
};

fn item() -> URL {
    URL::new("http://a.example", 3, true)
}

#[test]
fn worker_starts_by_asking_the_queue() {
    let first = start();
    assert!(matches!(first.state, WorkerState::Idle));
    assert!(matches!(first.action, WorkerAction::Dequeue));
    assert!(first.report.is_none());
}

#[test]
fn item_goes_from_queue_to_request_to_store() {
    let next = step(WorkerState::Idle, WorkerEvent::Dequeued { item: item() });
    assert!(matches!(&next.action, WorkerAction::Fetch { id: 3, url } if url == "http://a.example"));
    assert!(next.report.is_none());
    assert!(matches!(&next.state, WorkerState::Fetching { item } if item.id == 3));

    let next = step(next.state, WorkerEvent::Fetched { body: "<html></html>".to_string() });
    assert!(matches!(&next.action, WorkerAction::Store { id: 3, body } if body == "<html></html>"));
    assert!(next.report.is_none());
    assert!(matches!(&next.state, WorkerState::Storing { item } if item.id == 3));

    let next = step(next.state, WorkerEvent::Stored);
    assert!(matches!(next.action, WorkerAction::Dequeue));
    assert!(matches!(next.state, WorkerState::Idle));
    assert!(matches!(&next.report, Some(FetchReport::Success { id: 3, url }) if url == "http://a.example"));
}

#[test]
fn failed_request_is_reported_and_the_worker_goes_on() {
    let next = step(WorkerState::Fetching { item: item() }, WorkerEvent::FetchFailed { cause: "timed out".to_string() });
    assert!(matches!(next.state, WorkerState::Idle));
    assert!(matches!(next.action, WorkerAction::Dequeue));
    assert!(matches!(
        &next.report,
        Some(FetchReport::Failure { id: 3, url, cause }) if url == "http://a.example" && cause == "timed out"
    ));
}

#[test]
fn failed_store_is_reported_and_the_worker_goes_on() {
    let next = step(WorkerState::Storing { item: item() }, WorkerEvent::StoreFailed { cause: "disk full".to_string() });
    assert!(matches!(next.state, WorkerState::Idle));
    assert!(matches!(next.action, WorkerAction::Dequeue));
    assert!(matches!(
        &next.report,
        Some(FetchReport::Failure { id: 3, url, cause }) if url == "http://a.example" && cause == "disk full"
    ));
}

#[test]
fn drained_queue_stops_the_worker() {
    let next = step(WorkerState::Idle, WorkerEvent::Drained);
    assert!(matches!(next.state, WorkerState::Stopped));
    assert!(matches!(next.action, WorkerAction::Stop));
    assert!(next.report.is_none());
}

#[test]
fn cancellation_stops_the_worker_without_new_work() {
    let next = step(WorkerState::Idle, WorkerEvent::Cancelled);
    assert!(matches!(next.state, WorkerState::Stopped));
    assert!(matches!(next.action, WorkerAction::Stop));
    let next = step(WorkerState::Fetching { item: item() }, WorkerEvent::Cancelled);
    assert!(matches!(next.state, WorkerState::Stopped));
    assert!(matches!(next.action, WorkerAction::Stop));
    assert!(next.report.is_none());
}

#[test]
fn cancellation_during_a_store_takes_the_document_away() {
    let next = step(WorkerState::Storing { item: item() }, WorkerEvent::Cancelled);
    assert!(matches!(next.state, WorkerState::Stopped));
    assert!(matches!(next.action, WorkerAction::Abandon { id: 3 }));
    assert!(next.report.is_none());
}

#[test]
fn stopped_worker_stays_stopped() {
    let next = step(WorkerState::Stopped, WorkerEvent::Dequeued { item: item() });
    assert!(matches!(next.state, WorkerState::Stopped));
    assert!(matches!(next.action, WorkerAction::Stop));
    let next = step(WorkerState::Stopped, WorkerEvent::Stored);
    assert!(matches!(next.state, WorkerState::Stopped));
    assert!(matches!(next.action, WorkerAction::Stop));
}

#[test]
fn event_out_of_turn_stops_the_worker() {
    let next = step(WorkerState::Idle, WorkerEvent::Fetched { body: "x".to_string() });
    assert!(matches!(next.state, WorkerState::Stopped));
    assert!(matches!(next.action, WorkerAction::Stop));
    let next = step(WorkerState::Fetching { item: item() }, WorkerEvent::Stored);
    assert!(matches!(next.state, WorkerState::Stopped));
    assert!(matches!(next.action, WorkerAction::Stop));
    let next = step(WorkerState::Storing { item: item() }, WorkerEvent::Drained);
    assert!(matches!(next.state, WorkerState::Stopped));
    assert!(matches!(next.action, WorkerAction::Abandon { id: 3 }));
}

#[test]
fn default_crawl_parameters() {
    let params = CrawlParams::default();
    assert_eq!(params.concurrency, 50);
    assert_eq!(params.request_spacing_ms, 100);
}

#[test]
fn summary_counts_every_report_once() {
    let reports = vec![
        FetchReport::Success { id: 0, url: "http://a.example".to_string() },
        FetchReport::Failure { id: 1, url: "http://b.example".to_string(), cause: "refused".to_string() },
        FetchReport::Success { id: 2, url: "http://c.example".to_string() },
        FetchReport::Success { id: 5, url: "http://f.example".to_string() },
    ];
    assert_eq!(summarize(&reports), CrawlSummary { fetched: 3, failed: 1 });
    assert_eq!(summarize(&vec![]), CrawlSummary { fetched: 0, failed: 0 });
}

#[test]
fn run_of_a_worker_over_a_queue_reports_each_item() {
    // Three items: the first is stored, the request of the second fails,
    // the store of the third fails. Then the queue is drained.
    let mut queue = vec![
        URL::new("http://c.example", 2, true),
        URL::new("http://b.example", 1, true),
        URL::new("http://a.example", 0, true),
    ];
    let mut reports = Vec::new();
    let mut stored = Vec::new();
    let mut current = start();
    loop {
        if let Some(report) = current.report.take() {
            reports.push(report);
        }
        let event = match current.action {
            WorkerAction::Stop => break,
            WorkerAction::Abandon { .. } => panic!("nothing was cancelled"),
            WorkerAction::Dequeue => match queue.pop() {
                Some(item) => WorkerEvent::Dequeued { item },
                None => WorkerEvent::Drained,
            },
            WorkerAction::Fetch { id, url } => {
                if id == 1 {
                    WorkerEvent::FetchFailed { cause: format!("no route to {}", url) }
                } else {
                    WorkerEvent::Fetched { body: format!("body of {}", url) }
                }
            }
            WorkerAction::Store { id, body } => {
                if id == 2 {
                    WorkerEvent::StoreFailed { cause: "disk full".to_string() }
                } else {
                    stored.push((id, body));
                    WorkerEvent::Stored
                }
            }
        };
        current = step(current.state, event);
    }
    assert!(matches!(current.state, WorkerState::Stopped));
    assert_eq!(stored, vec![(0, "body of http://a.example".to_string())]);
    assert_eq!(reports.len(), 3);
    assert!(matches!(&reports[0], FetchReport::Success { id: 0, .. }));
    assert!(matches!(&reports[1], FetchReport::Failure { id: 1, cause, .. } if cause == "no route to http://b.example"));
    assert!(matches!(&reports[2], FetchReport::Failure { id: 2, cause, .. } if cause == "disk full"));
    assert_eq!(summarize(&reports), CrawlSummary { fetched: 1, failed: 2 });
}

#[test]
fn first_request_is_not_delayed() {
    let params = CrawlParams::default();
    assert_eq!(params.request_delay(None), 0);
}

#[test]
fn request_waits_for_what_is_missing_of_the_spacing() {
    let params = CrawlParams { concurrency: 4, request_spacing_ms: 100 };
    assert_eq!(params.request_delay(Some(0)), 100);
    assert_eq!(params.request_delay(Some(1)), 99);
    assert_eq!(params.request_delay(Some(99)), 1);
    assert_eq!(params.request_delay(Some(100)), 0);
    assert_eq!(params.request_delay(Some(5_000)), 0);
    assert_eq!(params.request_delay(Some(u64::MAX)), 0);
    let none = CrawlParams { concurrency: 4, request_spacing_ms: 0 };
    assert_eq!(none.request_delay(Some(0)), 0);
}
