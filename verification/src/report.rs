//! The ranking report: the nodes by falling score, and by rising number
//! where scores are the same, one line each.

use crate::rank::{RankVector, UNIT};
use crate::text::texts;
use vstd::prelude::*;
use vstd::seq_lib::{group_to_multiset_ensures, lemma_multiset_commutative, to_multiset_build};
use vstd::string::*;

verus! {

/// A node with its score.
#[derive(Clone, Copy, Debug, PartialEq, Eq, Structural)]
pub struct RankedNode {
    pub id: usize,
    pub score: u64,
}

/// `a` comes before `b` in a report: it has the higher score, or the same
/// score and the smaller number.
pub open spec fn outranks(a: RankedNode, b: RankedNode) -> bool {
    a.score > b.score || (a.score == b.score && a.id < b.id)
}

/// `b` does not come before `a`.
pub open spec fn precedes(a: RankedNode, b: RankedNode) -> bool {
    a.score > b.score || (a.score == b.score && a.id <= b.id)
}

/// Each entry comes before all later ones.
pub open spec fn in_rank_order(list: Seq<RankedNode>) -> bool {
    forall|i: int, j: int| 0 <= i < j < list.len() ==> outranks(list[i], list[j])
}

/// No entry comes after a later one.
pub open spec fn ordered(list: Seq<RankedNode>) -> bool {
    forall|i: int, j: int| 0 <= i < j < list.len() ==> precedes(list[i], list[j])
}

/// The list has an entry for the node `id`.
pub open spec fn lists_node(list: Seq<RankedNode>, id: int) -> bool {
    exists|k: int| 0 <= k < list.len() && (#[trigger] list[k]).id == id
}

/// The list holds every node of the vector once, with its score.
pub open spec fn lists_scores(list: Seq<RankedNode>, scores: Seq<int>) -> bool {
    &&& list.len() == scores.len()
    &&& forall|k: int|
        0 <= k < list.len() ==> (#[trigger] list[k]).id < scores.len() && list[k].score
            == scores[list[k].id as int]
    &&& forall|id: int| 0 <= id < scores.len() ==> #[trigger] lists_node(list, id)
}

/// The nodes of a vector with their scores, by node.
pub open spec fn listed(scores: Seq<u64>) -> Seq<RankedNode> {
    Seq::new(scores.len(), |id: int| RankedNode { id: id as usize, score: scores[id] })
}

/// There is one report order only: two lists in rank order that hold the
/// nodes of the same vector are the same list.
pub proof fn lemma_rank_order_is_unique(a: Seq<RankedNode>, b: Seq<RankedNode>, scores: Seq<int>)
    requires
        in_rank_order(a),
        in_rank_order(b),
        lists_scores(a, scores),
        lists_scores(b, scores),
    ensures
        a == b,
{
    assert forall|k: int| 0 <= k < a.len() implies a[k] == b[k] by {
        lemma_same_place(a, b, scores, k);
    }
}

/// The entry at `k` is the same in both lists: by induction over `k`.
proof fn lemma_same_place(a: Seq<RankedNode>, b: Seq<RankedNode>, scores: Seq<int>, k: int)
    requires
        in_rank_order(a),
        in_rank_order(b),
        lists_scores(a, scores),
        lists_scores(b, scores),
        0 <= k < a.len(),
    ensures
        a[k] == b[k],
    decreases k,
{
    assert forall|j: int| 0 <= j < k implies a[j] == b[j] by {
        lemma_same_place(a, b, scores, j);
    }
    // where a[k] stands in b, and where b[k] stands in a
    assert(lists_node(b, a[k].id as int));
    assert(lists_node(a, b[k].id as int));
    let in_b = choose|m: int| 0 <= m < b.len() && (#[trigger] b[m]).id == a[k].id;
    let in_a = choose|m: int| 0 <= m < a.len() && (#[trigger] a[m]).id == b[k].id;
    assert(b[in_b] == a[k]);
    assert(a[in_a] == b[k]);
    if in_b < k {
        // then a[in_b] == b[in_b] == a[k], which the order of a forbids
        assert(outranks(a[in_b], a[k]));
    }
    if in_a < k {
        assert(outranks(b[in_a], b[k]));
    }
    if in_b > k && in_a > k {
        assert(outranks(b[k], b[in_b]));
        assert(outranks(a[k], a[in_a]));
    }
}

/// The nodes of a vector in report order: by falling score, and by rising
/// number where the scores are the same.
pub open spec fn rank_order(scores: Seq<int>) -> Seq<RankedNode> {
    choose|list: Seq<RankedNode>| in_rank_order(list) && lists_scores(list, scores)
}

/// Whether `a` may stand before `b`.
fn may_precede(a: &RankedNode, b: &RankedNode) -> (yes: bool)
    ensures
        yes == precedes(*a, *b),
{
    a.score > b.score || (a.score == b.score && a.id <= b.id)
}

/// Merges two ordered lists into one.
fn merge(left: &Vec<RankedNode>, right: &Vec<RankedNode>) -> (merged: Vec<RankedNode>)
    requires
        ordered(left@),
        ordered(right@),
        left.len() + right.len() <= usize::MAX,
    ensures
        ordered(merged@),
        merged@.to_multiset() == left@.to_multiset().add(right@.to_multiset()),
{
    broadcast use {group_to_multiset_ensures, vstd::multiset::group_multiset_axioms};

    let mut merged: Vec<RankedNode> = Vec::new();
    let mut i: usize = 0;
    let mut j: usize = 0;
    while i < left.len() || j < right.len()
        invariant
            i <= left.len(),
            j <= right.len(),
            ordered(left@),
            ordered(right@),
            ordered(merged@),
            merged@.to_multiset() == left@.take(i as int).to_multiset().add(
                right@.take(j as int).to_multiset(),
            ),
            forall|k: int, m: int|
                0 <= k < merged.len() && i <= m < left.len() ==> precedes(merged[k], left[m]),
            forall|k: int, m: int|
                0 <= k < merged.len() && j <= m < right.len() ==> precedes(merged[k], right[m]),
        decreases left.len() - i + right.len() - j,
    {
        let ghost before = merged@;
        let from_left: bool = if j >= right.len() {
            true
        } else if i >= left.len() {
            false
        } else {
            may_precede(&left[i], &right[j])
        };
        if from_left {
            let next: RankedNode = left[i];
            merged.push(next);
            proof {
                assert(left@.take(i + 1) =~= left@.take(i as int).push(next));
                to_multiset_build(before, next);
                to_multiset_build(left@.take(i as int), next);
                assert forall|k: int, m: int|
                    0 <= k < merged.len() && j <= m < right.len() implies precedes(
                    merged[k],
                    right[m],
                ) by {
                    if k == before.len() && m > j {
                        assert(precedes(right[j as int], right[m]));
                    }
                }
            }
            i = i + 1;
        } else {
            let next: RankedNode = right[j];
            merged.push(next);
            proof {
                assert(right@.take(j + 1) =~= right@.take(j as int).push(next));
                to_multiset_build(before, next);
                to_multiset_build(right@.take(j as int), next);
                assert forall|k: int, m: int|
                    0 <= k < merged.len() && i <= m < left.len() implies precedes(
                    merged[k],
                    left[m],
                ) by {
                    if k == before.len() && m > i {
                        assert(precedes(left[i as int], left[m]));
                    }
                }
            }
            j = j + 1;
        }
    }
    assert(left@.take(i as int) =~= left@);
    assert(right@.take(j as int) =~= right@);
    merged
}

/// Sorts the entries `from .. to` of a list by merging.
fn sort_range(list: &Vec<RankedNode>, from: usize, to: usize) -> (sorted: Vec<RankedNode>)
    requires
        from <= to <= list.len(),
    ensures
        ordered(sorted@),
        sorted@.to_multiset() == list@.subrange(from as int, to as int).to_multiset(),
        sorted.len() == to - from,
    decreases to - from,
{
    broadcast use group_to_multiset_ensures;

    let mut sorted: Vec<RankedNode> = Vec::new();
    if to - from == 0 {
        return sorted;
    }
    if to - from == 1 {
        sorted.push(list[from]);
        assert(list@.subrange(from as int, to as int) =~= sorted@);
        return sorted;
    }
    let middle: usize = from + (to - from) / 2;
    let left = sort_range(list, from, middle);
    let right = sort_range(list, middle, to);
    proof {
        let whole = list@.subrange(from as int, to as int);
        let first = list@.subrange(from as int, middle as int);
        let second = list@.subrange(middle as int, to as int);
        assert(whole =~= first + second);
        lemma_multiset_commutative(first, second);
    }
    let merged = merge(&left, &right);
    assert(merged@.to_multiset().len() == (to - from) as nat);
    merged
}

/// Sorts a list into report order: by falling score, and by rising number
/// where the scores are the same.
pub fn sort_ranked(list: &Vec<RankedNode>) -> (sorted: Vec<RankedNode>)
    ensures
        ordered(sorted@),
        sorted@.to_multiset() == list@.to_multiset(),
        sorted.len() == list.len(),
{
    assert(list@.subrange(0, list.len() as int) =~= list@);
    sort_range(list, 0, list.len())
}

/// The nodes of a vector in report order: by falling score, and by rising
/// number where the scores are the same.
pub fn ranked(scores: &RankVector) -> (list: Vec<RankedNode>)
    ensures
        in_rank_order(list@),
        lists_scores(list@, scores@),
        list@ == rank_order(scores@),
{
    broadcast use group_to_multiset_ensures;

    let all = scores.scores();
    let mut unsorted: Vec<RankedNode> = Vec::new();
    let mut id: usize = 0;
    while id < all.len()
        invariant
            id <= all.len(),
            unsorted.len() == id,
            forall|k: int|
                0 <= k < id ==> unsorted[k] == (RankedNode { id: k as usize, score: all[k] }),
        decreases all.len() - id,
    {
        unsorted.push(RankedNode { id, score: all[id] });
        id = id + 1;
    }
    let list = sort_ranked(&unsorted);
    proof {
        let given = unsorted@;
        let sorted = list@;
        assert(given =~= listed(all@));
        assert(given.no_duplicates());
        given.lemma_multiset_has_no_duplicates();
        sorted.lemma_multiset_has_no_duplicates_conv();
        assert forall|k: int| 0 <= k < sorted.len() implies (#[trigger] sorted[k]).id
            < scores@.len() && sorted[k].score == scores@[sorted[k].id as int] by {
            assert(sorted.contains(sorted[k]));
            assert(given.to_multiset().count(sorted[k]) > 0);
            assert(given.contains(sorted[k]));
            let m = given.index_of(sorted[k]);
            assert(given[m] == sorted[k]);
        }
        assert forall|node: int| 0 <= node < scores@.len() implies #[trigger] lists_node(
            sorted,
            node,
        ) by {
            assert(given.contains(given[node]));
            assert(sorted.to_multiset().count(given[node]) > 0);
            assert(sorted.contains(given[node]));
            let k = sorted.index_of(given[node]);
            assert(sorted[k].id == node);
        }
        assert forall|i: int, j: int| 0 <= i < j < sorted.len() implies outranks(
            sorted[i],
            sorted[j],
        ) by {
            assert(precedes(sorted[i], sorted[j]));
            assert(sorted[i] != sorted[j]);
        }
        assert(in_rank_order(sorted) && lists_scores(sorted, scores@));
        lemma_rank_order_is_unique(sorted, rank_order(scores@), scores@);
    }
    list
}

/// The character of a decimal digit.
pub open spec fn digit(d: int) -> char {
    if d == 0 {
        '0'
    } else if d == 1 {
        '1'
    } else if d == 2 {
        '2'
    } else if d == 3 {
        '3'
    } else if d == 4 {
        '4'
    } else if d == 5 {
        '5'
    } else if d == 6 {
        '6'
    } else if d == 7 {
        '7'
    } else if d == 8 {
        '8'
    } else {
        '9'
    }
}

/// A number in decimal digits, without leading zeros.
pub open spec fn decimal(n: nat) -> Seq<char>
    decreases n,
{
    if n < 10 {
        seq![digit(n as int)]
    } else {
        decimal(n / 10).push(digit((n % 10) as int))
    }
}

/// The last `width` decimal digits of a number, with leading zeros.
pub open spec fn padded(n: nat, width: nat) -> Seq<char>
    decreases width,
{
    if width == 0 {
        Seq::empty()
    } else {
        padded(n / 10, (width - 1) as nat).push(digit((n % 10) as int))
    }
}

/// A score as text: its whole units, a point, and nine decimal places.
pub open spec fn score_text(score: nat) -> Seq<char> {
    decimal(score / (UNIT as nat)) + seq!['.'] + padded(score % (UNIT as nat), 9)
}

/// One line of the report: `[id] score: url`.
pub open spec fn report_line(id: nat, score: nat, url: Seq<char>) -> Seq<char> {
    seq!['['] + decimal(id) + seq![']', ' '] + score_text(score) + seq![':', ' '] + url
}

/// The lines of a report: one for each entry of the list, in its order.
pub open spec fn report_lines(list: Seq<RankedNode>, urls: Seq<Seq<char>>) -> Seq<Seq<char>> {
    Seq::new(
        list.len(),
        |k: int| report_line(list[k].id as nat, list[k].score as nat, urls[list[k].id as int]),
    )
}

/// The text of one digit.
fn digit_text(d: u64) -> (text: &'static str)
    requires
        d < 10,
    ensures
        text@ == seq![digit(d as int)],
{
    proof {
        reveal_strlit("0");
        reveal_strlit("1");
        reveal_strlit("2");
        reveal_strlit("3");
        reveal_strlit("4");
        reveal_strlit("5");
        reveal_strlit("6");
        reveal_strlit("7");
        reveal_strlit("8");
        reveal_strlit("9");
    }
    let text = if d == 0 {
        "0"
    } else if d == 1 {
        "1"
    } else if d == 2 {
        "2"
    } else if d == 3 {
        "3"
    } else if d == 4 {
        "4"
    } else if d == 5 {
        "5"
    } else if d == 6 {
        "6"
    } else if d == 7 {
        "7"
    } else if d == 8 {
        "8"
    } else {
        "9"
    };
    text
}

/// Appends a number in decimal digits.
fn push_decimal(out: &mut String, n: u64)
    ensures
        final(out)@ == old(out)@ + decimal(n as nat),
    decreases n,
{
    if n >= 10 {
        push_decimal(out, n / 10);
    }
    out.append(digit_text(n % 10));
}

/// Appends the last `width` decimal digits of a number.
fn push_padded(out: &mut String, n: u64, width: usize)
    ensures
        final(out)@ == old(out)@ + padded(n as nat, width as nat),
    decreases width,
{
    if width > 0 {
        push_padded(out, n / 10, width - 1);
        out.append(digit_text(n % 10));
    }
}

/// A number in decimal digits.
pub fn format_decimal(n: u64) -> (text: String)
    ensures
        text@ == decimal(n as nat),
{
    let mut text = String::new();
    push_decimal(&mut text, n);
    text
}

/// A score as text, with nine decimal places.
pub fn format_score(score: u64) -> (text: String)
    ensures
        text@ == score_text(score as nat),
{
    proof {
        reveal_strlit(".");
    }
    let mut text = String::new();
    push_decimal(&mut text, score / UNIT);
    text.append(".");
    push_padded(&mut text, score % UNIT, 9);
    text
}

/// One line of the report, without a line end: `[id] score: url`.
pub fn format_line(id: usize, score: u64, url: &str) -> (line: String)
    ensures
        line@ == report_line(id as nat, score as nat, url@),
{
    proof {
        reveal_strlit("[");
        reveal_strlit("] ");
        reveal_strlit(": ");
    }
    let mut line = String::new();
    line.append("[");
    push_decimal(&mut line, id as u64);
    line.append("] ");
    let shown = format_score(score);
    line.append(shown.as_str());
    line.append(": ");
    line.append(url);
    line
}


/// The lines of a report for a list of nodes, in the order of the list;
/// none where a node of the list has no address.
pub fn format_report(list: &Vec<RankedNode>, urls: &Vec<String>) -> (lines: Option<Vec<String>>)
    ensures
        lines is Some <==> forall|k: int| 0 <= k < list.len() ==> (#[trigger] list[k]).id
            < urls.len(),
        lines matches Some(text) ==> texts(text@) == report_lines(list@, texts(urls@)),
{
    let mut lines: Vec<String> = Vec::new();
    let mut k: usize = 0;
    while k < list.len()
        invariant
            k <= list.len(),
            lines.len() == k,
            forall|m: int| 0 <= m < k ==> (#[trigger] list[m]).id < urls.len(),
            forall|m: int|
                0 <= m < k ==> (#[trigger] lines[m])@ == report_line(
                    list[m].id as nat,
                    list[m].score as nat,
                    urls[list[m].id as int]@,
                ),
        decreases list.len() - k,
    {
        let node: RankedNode = list[k];
        if node.id >= urls.len() {
            return None;
        }
        let line = format_line(node.id, node.score, urls[node.id].as_str());
        lines.push(line);
        k = k + 1;
    }
    Some(lines)
}

/// The report of a ranking: one line per node, `[id] score: url`, by
/// falling score, and by rising number where the scores are the same; none
/// where there is not one address for each node.
pub fn report(scores: &RankVector, urls: &Vec<String>) -> (lines: Option<Vec<String>>)
    ensures
        lines is Some <==> scores@.len() == urls.len(),
        lines matches Some(text) ==> texts(text@) == report_lines(
            rank_order(scores@),
            texts(urls@),
        ),
{
    if scores.len() != urls.len() {
        return None;
    }
    let list = ranked(scores);
    format_report(&list, urls)
}

} // verus!
