//! The seed list and the work queue of a crawl: the documents of the list
//! that the store does not hold yet.

use crate::text::{lines_of, split_lines, texts};
use vstd::prelude::*;

verus! {

/// One entry of the seed list: an address and its position in the list,
/// which is its number everywhere else. `crawled` marks an entry that has
/// been handed to the crawl.
#[derive(Debug)]
pub struct URL {
    pub url: String,
    pub id: usize,
    pub crawled: bool,
}

/// What a `URL` stands for.
pub ghost struct UrlView {
    pub url: Seq<char>,
    pub id: nat,
    pub crawled: bool,
}

impl View for URL {
    type V = UrlView;

    open spec fn view(&self) -> UrlView {
        UrlView { url: self.url@, id: self.id as nat, crawled: self.crawled }
    }
}

impl URL {
    /// The entry for the address `url` at position `id` of the seed list.
    pub fn new(url: &str, id: usize, crawled: bool) -> (entry: Self)
        ensures
            entry@ == (UrlView { url: url@, id: id as nat, crawled }),
    {
        URL { url: url.to_owned(), id, crawled }
    }
}

/// What every entry of a queue stands for.
pub open spec fn entries(queue: Seq<URL>) -> Seq<UrlView> {
    Seq::new(queue.len(), |i: int| queue[i]@)
}

/// Reads a seed list: one address per line. The position of a line, from
/// zero, is the number of its document.
pub fn seed_list(content: &str) -> (seeds: Vec<String>)
    ensures
        texts(seeds@) == lines_of(content@),
{
    split_lines(content)
}

/// Whether the store holds the document `id`: `present` says so by
/// position, and a position that it does not have stands for a document
/// that is absent.
pub open spec fn is_present(present: Seq<bool>, id: int) -> bool {
    0 <= id < present.len() && present[id]
}

/// The work queue for the first `upto` seeds: an entry for each seed whose
/// document is absent, in the order of the seed list.
pub open spec fn pending(seeds: Seq<Seq<char>>, present: Seq<bool>, upto: nat) -> Seq<UrlView>
    decreases upto,
{
    if upto == 0 {
        Seq::empty()
    } else {
        let before = pending(seeds, present, (upto - 1) as nat);
        let id = (upto - 1) as nat;
        if is_present(present, id as int) {
            before
        } else {
            before.push(UrlView { url: seeds[id as int], id, crawled: true })
        }
    }
}

/// The work queue of a crawl: the seeds whose documents the store does not
/// hold yet, in the order of the seed list.
pub fn schedule(seeds: &Vec<String>, present: &Vec<bool>) -> (queue: Vec<URL>)
    ensures
        entries(queue@) == pending(texts(seeds@), present@, seeds.len() as nat),
{
    let mut queue: Vec<URL> = Vec::new();
    let mut id: usize = 0;
    while id < seeds.len()
        invariant
            id <= seeds.len(),
            entries(queue@) == pending(texts(seeds@), present@, id as nat),
        decreases seeds.len() - id,
    {
        let held: bool = id < present.len() && present[id];
        if !held {
            let entry = URL::new(seeds[id].as_str(), id, true);
            queue.push(entry);
        }
        id = id + 1;
    }
    queue
}

/// The queue holds only documents that are absent, each under its seed's
/// address and number, in rising order of the numbers.
pub proof fn lemma_pending_entries(seeds: Seq<Seq<char>>, present: Seq<bool>, upto: nat)
    ensures
        forall|k: int|
            0 <= k < pending(seeds, present, upto).len() ==> {
                let entry = #[trigger] pending(seeds, present, upto)[k];
                &&& entry.id < upto
                &&& !is_present(present, entry.id as int)
                &&& entry.url == seeds[entry.id as int]
                &&& entry.crawled
            },
        forall|k: int, m: int|
            0 <= k < m < pending(seeds, present, upto).len() ==> pending(seeds, present, upto)[k].id
                < pending(seeds, present, upto)[m].id,
        pending(seeds, present, upto).len() <= upto,
    decreases upto,
{
    if upto > 0 {
        lemma_pending_entries(seeds, present, (upto - 1) as nat);
    }
}

/// Every document that is absent is in the queue.
pub proof fn lemma_pending_is_complete(
    seeds: Seq<Seq<char>>,
    present: Seq<bool>,
    upto: nat,
    id: nat,
)
    requires
        id < upto,
        !is_present(present, id as int),
    ensures
        exists|k: int|
            0 <= k < pending(seeds, present, upto).len() && (#[trigger] pending(
                seeds,
                present,
                upto,
            )[k]).id == id,
    decreases upto,
{
    let queue = pending(seeds, present, upto);
    if id == upto - 1 {
        assert(queue[queue.len() - 1].id == id);
    } else {
        lemma_pending_is_complete(seeds, present, (upto - 1) as nat, id);
        let before = pending(seeds, present, (upto - 1) as nat);
        let k = choose|k: int| 0 <= k < before.len() && (#[trigger] before[k]).id == id;
        assert(queue[k] == before[k]);
    }
}

/// Resuming after a complete run finds nothing to do: where the store holds
/// the document of every seed, the queue is empty.
pub proof fn lemma_nothing_pending_when_complete(
    seeds: Seq<Seq<char>>,
    present: Seq<bool>,
    upto: nat,
)
    requires
        forall|id: int| 0 <= id < upto ==> is_present(present, id),
    ensures
        pending(seeds, present, upto) == Seq::<UrlView>::empty(),
    decreases upto,
{
    if upto > 0 {
        lemma_nothing_pending_when_complete(seeds, present, (upto - 1) as nat);
    }
}

/// The store after the documents of a queue have all been fetched.
pub open spec fn fetched(present: Seq<bool>, queue: Seq<UrlView>, upto: nat) -> Seq<bool> {
    Seq::new(
        upto,
        |id: int|
            is_present(present, id) || exists|k: int|
                0 <= k < queue.len() && (#[trigger] queue[k]).id == id,
    )
}

/// A second run has nothing to do: once every document of the queue has
/// been fetched, scheduling again gives an empty queue.
pub proof fn lemma_resume_is_idempotent(seeds: Seq<Seq<char>>, present: Seq<bool>)
    ensures
        pending(
            seeds,
            fetched(present, pending(seeds, present, seeds.len()), seeds.len()),
            seeds.len(),
        ) == Seq::<UrlView>::empty(),
{
    let queue = pending(seeds, present, seeds.len());
    let after = fetched(present, queue, seeds.len());
    assert forall|id: int| 0 <= id < seeds.len() implies is_present(after, id) by {
        if !is_present(present, id) {
            lemma_pending_is_complete(seeds, present, seeds.len(), id as nat);
        }
    }
    lemma_nothing_pending_when_complete(seeds, after, seeds.len());
}

} // verus!
