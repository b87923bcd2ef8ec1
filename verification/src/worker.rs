//! The decisions of a fetch worker, as a function from its state and what
//! happened to its next state and what to do. The caller performs the
//! requests and the writes, and reports back.

use crate::seed::URL;
use vstd::prelude::*;

verus! {

/// What a fetch worker is waiting for.
#[derive(Debug)]
pub enum WorkerState {
    /// For the queue to hand out an item.
    Idle,
    /// For the body of `item` to arrive.
    Fetching { item: URL },
    /// For the body of `item` to be stored.
    Storing { item: URL },
    /// For nothing: the worker takes no more work.
    Stopped,
}

/// What happened since the worker's last action.
#[derive(Debug)]
pub enum WorkerEvent {
    /// The queue handed out `item`.
    Dequeued { item: URL },
    /// The queue is closed and empty.
    Drained,
    /// The request succeeded and the whole body has arrived.
    Fetched { body: String },
    /// The request failed, or its body could not be read to the end.
    FetchFailed { cause: String },
    /// The document is in the store, whole.
    Stored,
    /// The document could not be stored, and the store holds none of it.
    StoreFailed { cause: String },
    /// The crawl was cancelled.
    Cancelled,
}

/// What the worker asks to be done next.
#[derive(Debug)]
pub enum WorkerAction {
    /// Take the next item from the queue.
    Dequeue,
    /// Request `url` once, without retrying.
    Fetch { id: usize, url: String },
    /// Store `body` as the document `id`: all of it, or nothing.
    Store { id: usize, body: String },
    /// Make sure that the store holds nothing of the document `id`, then stop.
    Abandon { id: usize },
    /// Stop.
    Stop,
}

/// What the worker has to tell about an item that it is done with.
#[derive(Debug)]
pub enum FetchReport {
    /// The document `id` was fetched from `url` and stored.
    Success { id: usize, url: String },
    /// The document `id` was not stored, because of `cause`.
    Failure { id: usize, url: String, cause: String },
}

/// One step of a worker: its new state, what it asks for, and what it
/// reports.
#[derive(Debug)]
pub struct WorkerStep {
    pub state: WorkerState,
    pub action: WorkerAction,
    pub report: Option<FetchReport>,
}

/// The step with which a worker ends.
pub open spec fn halt() -> WorkerStep {
    WorkerStep { state: WorkerState::Stopped, action: WorkerAction::Stop, report: None }
}

/// The step with which a worker goes on to the next item, reporting on the
/// one that it is done with.
pub open spec fn proceed(report: FetchReport) -> WorkerStep {
    WorkerStep { state: WorkerState::Idle, action: WorkerAction::Dequeue, report: Some(report) }
}

/// The step of a worker in `state` to which `event` is reported.
///
/// An item goes from the queue to a request, from the request to the store,
/// and from there into a report of success. A request or a store that fails
/// ends in a report of failure, and the worker goes on to the next item.
/// The worker stops when the queue is drained and when the crawl is
/// cancelled; an event that the state does not wait for counts as a
/// cancellation. A worker that is stopped while it waits for the store asks
/// for what may have been written to be taken away.
pub open spec fn transition(state: WorkerState, event: WorkerEvent) -> WorkerStep {
    match state {
        WorkerState::Idle => match event {
            WorkerEvent::Dequeued { item } => WorkerStep {
                state: WorkerState::Fetching { item },
                action: WorkerAction::Fetch { id: item.id, url: item.url },
                report: None,
            },
            _ => halt(),
        },
        WorkerState::Fetching { item } => match event {
            WorkerEvent::Fetched { body } => WorkerStep {
                state: WorkerState::Storing { item },
                action: WorkerAction::Store { id: item.id, body },
                report: None,
            },
            WorkerEvent::FetchFailed { cause } => proceed(
                FetchReport::Failure { id: item.id, url: item.url, cause },
            ),
            _ => halt(),
        },
        WorkerState::Storing { item } => match event {
            WorkerEvent::Stored => proceed(FetchReport::Success { id: item.id, url: item.url }),
            WorkerEvent::StoreFailed { cause } => proceed(
                FetchReport::Failure { id: item.id, url: item.url, cause },
            ),
            _ => WorkerStep {
                state: WorkerState::Stopped,
                action: WorkerAction::Abandon { id: item.id },
                report: None,
            },
        },
        WorkerState::Stopped => halt(),
    }
}

/// The first step of a worker: it asks the queue for an item.
pub fn start() -> (first: WorkerStep)
    ensures
        first == (WorkerStep {
            state: WorkerState::Idle,
            action: WorkerAction::Dequeue,
            report: None,
        }),
{
    WorkerStep { state: WorkerState::Idle, action: WorkerAction::Dequeue, report: None }
}

/// The next step of a worker in `state` to which `event` is reported.
pub fn step(state: WorkerState, event: WorkerEvent) -> (next: WorkerStep)
    ensures
        next == transition(state, event),
{
    match state {
        WorkerState::Idle => match event {
            WorkerEvent::Dequeued { item } => {
                let id: usize = item.id;
                let url = item.url.clone();
                WorkerStep {
                    state: WorkerState::Fetching { item },
                    action: WorkerAction::Fetch { id, url },
                    report: None,
                }
            },
            _ => WorkerStep {
                state: WorkerState::Stopped,
                action: WorkerAction::Stop,
                report: None,
            },
        },
        WorkerState::Fetching { item } => match event {
            WorkerEvent::Fetched { body } => {
                let id: usize = item.id;
                WorkerStep {
                    state: WorkerState::Storing { item },
                    action: WorkerAction::Store { id, body },
                    report: None,
                }
            },
            WorkerEvent::FetchFailed { cause } => WorkerStep {
                state: WorkerState::Idle,
                action: WorkerAction::Dequeue,
                report: Some(FetchReport::Failure { id: item.id, url: item.url, cause }),
            },
            _ => WorkerStep {
                state: WorkerState::Stopped,
                action: WorkerAction::Stop,
                report: None,
            },
        },
        WorkerState::Storing { item } => match event {
            WorkerEvent::Stored => WorkerStep {
                state: WorkerState::Idle,
                action: WorkerAction::Dequeue,
                report: Some(FetchReport::Success { id: item.id, url: item.url }),
            },
            WorkerEvent::StoreFailed { cause } => WorkerStep {
                state: WorkerState::Idle,
                action: WorkerAction::Dequeue,
                report: Some(FetchReport::Failure { id: item.id, url: item.url, cause }),
            },
            _ => WorkerStep {
                state: WorkerState::Stopped,
                action: WorkerAction::Abandon { id: item.id },
                report: None,
            },
        },
        WorkerState::Stopped => WorkerStep {
            state: WorkerState::Stopped,
            action: WorkerAction::Stop,
            report: None,
        },
    }
}

/// One failed item never ends a worker: after a request or a store that
/// failed the worker reports the failure and asks for the next item.
pub proof fn lemma_failure_keeps_worker_running(item: URL, cause: String)
    ensures
        transition(WorkerState::Fetching { item }, WorkerEvent::FetchFailed { cause }) == proceed(
            FetchReport::Failure { id: item.id, url: item.url, cause },
        ),
        transition(WorkerState::Storing { item }, WorkerEvent::StoreFailed { cause }) == proceed(
            FetchReport::Failure { id: item.id, url: item.url, cause },
        ),
{
}

/// Nothing but a body that has arrived whole is ever handed to the store,
/// and only for the item that it was requested for: not after a failure,
/// not after a cancellation.
pub proof fn lemma_store_needs_whole_body(state: WorkerState, event: WorkerEvent)
    ensures
        transition(state, event).action matches WorkerAction::Store { id, body } ==> {
            &&& state matches WorkerState::Fetching { item }
            &&& item.id == id
            &&& event == (WorkerEvent::Fetched { body })
        },
{
}

/// A success is reported only once the store has said that it holds the
/// whole document.
pub proof fn lemma_success_needs_stored(state: WorkerState, event: WorkerEvent)
    ensures
        transition(state, event).report matches Some(FetchReport::Success { id, url }) ==> {
            &&& state matches WorkerState::Storing { item }
            &&& item.id == id
            &&& item.url == url
            &&& event is Stored
        },
{
}

/// A cancellation starts no new work: the worker stops, and where it was
/// waiting for the store it asks for the document to be taken away.
pub proof fn lemma_cancel_starts_nothing(state: WorkerState)
    ensures
        transition(state, WorkerEvent::Cancelled).state is Stopped,
        transition(state, WorkerEvent::Cancelled).report is None,
        state matches WorkerState::Storing { item } ==> transition(
            state,
            WorkerEvent::Cancelled,
        ).action == (WorkerAction::Abandon { id: item.id }),
        !(state is Storing) ==> transition(state, WorkerEvent::Cancelled).action is Stop,
{
}

/// A worker that has stopped stays stopped.
pub proof fn lemma_stopped_is_final(event: WorkerEvent)
    ensures
        transition(WorkerState::Stopped, event) == halt(),
{
}

/// A worker stops only when the queue is drained, when the crawl is
/// cancelled, or when an event arrives that its state does not wait for.
pub proof fn lemma_stops_only_when_told(state: WorkerState, event: WorkerEvent)
    requires
        transition(state, event).state is Stopped,
    ensures
        state is Stopped || event is Drained || event is Cancelled || !awaited(state, event),
{
}

/// Whether `state` waits for `event`.
pub open spec fn awaited(state: WorkerState, event: WorkerEvent) -> bool {
    match state {
        WorkerState::Idle => event is Dequeued || event is Drained,
        WorkerState::Fetching { .. } => event is Fetched || event is FetchFailed,
        WorkerState::Storing { .. } => event is Stored || event is StoreFailed,
        WorkerState::Stopped => false,
    }
}

/// A worker after a run of events: its state, and what it has reported.
pub ghost struct Trace {
    pub state: WorkerState,
    pub reports: Seq<FetchReport>,
}

/// The worker after `events` have been reported to it one by one, from its
/// start.
pub open spec fn run(events: Seq<WorkerEvent>) -> Trace
    decreases events.len(),
{
    if events.len() == 0 {
        Trace { state: WorkerState::Idle, reports: Seq::empty() }
    } else {
        let before = run(events.drop_last());
        let next = transition(before.state, events.last());
        Trace {
            state: next.state,
            reports: match next.report {
                Some(report) => before.reports.push(report),
                None => before.reports,
            },
        }
    }
}

/// The items that the queue handed out in the course of `events`, in order.
pub open spec fn handed_out(events: Seq<WorkerEvent>) -> Seq<URL>
    decreases events.len(),
{
    if events.len() == 0 {
        Seq::empty()
    } else {
        let before = handed_out(events.drop_last());
        match events.last() {
            WorkerEvent::Dequeued { item } => before.push(item),
            _ => before,
        }
    }
}

/// The item that a report is about.
pub open spec fn reported(report: FetchReport) -> (usize, String) {
    match report {
        FetchReport::Success { id, url } => (id, url),
        FetchReport::Failure { id, url, cause } => (id, url),
    }
}

/// A worker that has not stopped has reported once on every item that it
/// was handed, in the order in which it was handed them, but for the item
/// that it is working on.
pub proof fn lemma_every_item_is_reported(events: Seq<WorkerEvent>)
    requires
        !(run(events).state is Stopped),
    ensures
        forall|k: int|
            0 <= k < run(events).reports.len() ==> reported(#[trigger] run(events).reports[k]) == (
                handed_out(events)[k].id,
                handed_out(events)[k].url,
            ),
        match run(events).state {
            WorkerState::Idle => run(events).reports.len() == handed_out(events).len(),
            WorkerState::Fetching { item } => handed_out(events).len() == run(events).reports.len()
                + 1 && handed_out(events).last() == item,
            WorkerState::Storing { item } => handed_out(events).len() == run(events).reports.len()
                + 1 && handed_out(events).last() == item,
            WorkerState::Stopped => true,
        },
    decreases events.len(),
{
    if events.len() > 0 {
        lemma_stopped_is_final(events.last());
        lemma_every_item_is_reported(events.drop_last());
    }
}

/// The tuning of a crawl.
#[derive(Clone, Copy, Debug)]
pub struct CrawlParams {
    /// The number of workers, and so the largest number of requests in
    /// flight at a time.
    pub concurrency: usize,
    /// The least time, in milliseconds, that a worker lets pass between two
    /// of its requests.
    pub request_spacing_ms: u64,
}

/// How long a worker has to wait before its next request: nothing before
/// its first request, else what is missing of `spacing` since its last one.
pub open spec fn delay(spacing: u64, since_last: Option<u64>) -> u64 {
    match since_last {
        None => 0,
        Some(elapsed) => if elapsed >= spacing {
            0
        } else {
            (spacing - elapsed) as u64
        },
    }
}

impl CrawlParams {
    /// How long, in milliseconds, a worker has to wait before its next
    /// request, `since_last_ms` after its last one; `None` stands for a
    /// worker that has made no request yet.
    pub fn request_delay(&self, since_last_ms: Option<u64>) -> (wait_ms: u64)
        ensures
            wait_ms == delay(self.request_spacing_ms, since_last_ms),
    {
        match since_last_ms {
            None => 0,
            Some(elapsed) => if elapsed >= self.request_spacing_ms {
                0
            } else {
                self.request_spacing_ms - elapsed
            },
        }
    }
}

/// A worker that waits as long as it is told lets at least `spacing` pass
/// between two requests, and never waits longer than that.
pub proof fn lemma_delay_keeps_spacing(spacing: u64, elapsed: u64)
    ensures
        elapsed + delay(spacing, Some(elapsed)) >= spacing,
        delay(spacing, Some(elapsed)) <= spacing,
        elapsed >= spacing ==> delay(spacing, Some(elapsed)) == 0,
{
}

impl Default for CrawlParams {
    /// Fifty workers, a tenth of a second between the requests of each.
    fn default() -> (params: Self)
        ensures
            params.concurrency == 50,
            params.request_spacing_ms == 100,
    {
        CrawlParams { concurrency: 50, request_spacing_ms: 100 }
    }
}


/// The count of a crawl: how many documents were fetched and stored, and
/// how many were not.
#[derive(Clone, Copy, Debug, PartialEq, Eq, Structural)]
pub struct CrawlSummary {
    pub fetched: usize,
    pub failed: usize,
}

/// The number of successes among the first `upto` reports.
pub open spec fn successes(reports: Seq<FetchReport>, upto: nat) -> nat
    decreases upto,
{
    if upto == 0 {
        0
    } else {
        successes(reports, (upto - 1) as nat) + if reports[upto - 1] is Success {
            1nat
        } else {
            0nat
        }
    }
}

/// Counts the reports of a crawl. Every report is counted once, as a
/// success or as a failure.
pub fn summarize(reports: &Vec<FetchReport>) -> (summary: CrawlSummary)
    ensures
        summary.fetched == successes(reports@, reports.len() as nat),
        summary.fetched + summary.failed == reports.len(),
{
    let mut fetched: usize = 0;
    let mut failed: usize = 0;
    let mut k: usize = 0;
    while k < reports.len()
        invariant
            k <= reports.len(),
            fetched == successes(reports@, k as nat),
            fetched + failed == k,
        decreases reports.len() - k,
    {
        match &reports[k] {
            FetchReport::Success { .. } => {
                fetched = fetched + 1;
            },
            FetchReport::Failure { .. } => {
                failed = failed + 1;
            },
        }
        k = k + 1;
    }
    CrawlSummary { fetched, failed }
}

} // verus!
