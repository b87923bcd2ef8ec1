//! From documents to edges: links are found in the text of a document by a
//! regular expression, stripped of the slashes at their end, and looked up
//! in the reverse index of the seed list. A link that leads to no seed is
//! dropped.

use crate::graph::{Edge, Graph};
use crate::text::{
    cut, lemma_boundaries_of_single, lemma_decode_between, lemma_encode_single,
    lemma_last_from_bytes, texts,
};
use vstd::hash_map::StringHashMap;
use vstd::prelude::*;
use vstd::string::*;
use vstd::utf8::*;

verus! {

/// The pattern by which links are found in a document: an absolute `http` or
/// `https` address between double quotes, running up to the last quote
/// before the next white space. Its first group is the address.
pub const LINK_PATTERN: &'static str = "\"(https?://\\S+)\"";

/// The byte that encodes a slash.
pub const SLASH: u8 = 0x2F;

/// An address without the slashes at its end.
pub open spec fn strip(link: Seq<char>) -> Seq<char>
    decreases link.len(),
{
    if link.len() > 0 && link.last() == '/' {
        strip(link.drop_last())
    } else {
        link
    }
}

/// The reverse index of a seed list: each address, stripped, leads to its
/// position in the list. Where two entries give the same stripped address
/// the later one holds it.
pub open spec fn index_of(seeds: Seq<Seq<char>>) -> Map<Seq<char>, usize>
    decreases seeds.len(),
{
    if seeds.len() == 0 {
        Map::empty()
    } else {
        index_of(seeds.drop_last()).insert(strip(seeds.last()), (seeds.len() - 1) as usize)
    }
}

/// The node that a link leads to, if its stripped address is in the index.
pub open spec fn lookup(index: Map<Seq<char>, usize>, link: Seq<char>) -> Option<usize> {
    if index.contains_key(strip(link)) {
        Some(index[strip(link)])
    } else {
        None
    }
}

/// What was captured in a document, as text: one entry per match of the
/// pattern, empty where the group took no part in the match.
pub open spec fn captured(captures: Seq<Option<String>>) -> Seq<Option<Seq<char>>> {
    Seq::new(
        captures.len(),
        |i: int|
            match captures[i] {
                Some(link) => Some(link@),
                None => None,
            },
    )
}

/// The nodes that the captured links lead to, in the order of the links.
/// A link that leads to no node of the index is left out.
pub open spec fn targets(captures: Seq<Option<Seq<char>>>, index: Map<Seq<char>, usize>) -> Seq<
    usize,
>
    decreases captures.len(),
{
    if captures.len() == 0 {
        Seq::empty()
    } else {
        let rest = targets(captures.drop_last(), index);
        match captures.last() {
            Some(link) => match lookup(index, link) {
                Some(id) => rest.push(id),
                None => rest,
            },
            None => rest,
        }
    }
}

/// One edge from `source` to each of `targets`.
pub open spec fn links_from(source: usize, targets: Seq<usize>) -> Seq<Edge> {
    Seq::new(targets.len(), |i: int| (source, targets[i]))
}

/// One edge from `source` to each of `targets` that is a node of a graph
/// with `nodes` nodes; none where `source` is not a node of it.
pub open spec fn links_within(nodes: nat, source: usize, targets: Seq<usize>) -> Seq<Edge>
    decreases targets.len(),
{
    if targets.len() == 0 {
        Seq::empty()
    } else {
        let rest = links_within(nodes, source, targets.drop_last());
        if source < nodes && targets.last() < nodes {
            rest.push((source, targets.last()))
        } else {
            rest
        }
    }
}

/// Where `source` and all of `targets` are nodes, no edge is left out.
pub proof fn lemma_links_within_range(nodes: nat, source: usize, targets: Seq<usize>)
    requires
        source < nodes,
        forall|i: int| 0 <= i < targets.len() ==> targets[i] < nodes,
    ensures
        links_within(nodes, source, targets) == links_from(source, targets),
    decreases targets.len(),
{
    if targets.len() > 0 {
        lemma_links_within_range(nodes, source, targets.drop_last());
    }
}

/// The first group of each successive match of `pattern` in `text`: one
/// entry per match, empty where the group took no part in it. This is a name
/// for what the `regex` crate finds; the library does not define it and
/// proves nothing of it.
pub uninterp spec fn first_groups(pattern: Seq<char>, text: Seq<char>) -> Seq<Option<Seq<char>>>;

/// The nodes that the links of a document lead to.
pub open spec fn document_targets(text: Seq<char>, index: Map<Seq<char>, usize>) -> Seq<usize> {
    targets(first_groups(LINK_PATTERN@, text), index)
}

/// The edges of the first `upto` documents: for each document that is
/// there, one edge to each node that one of its links leads to; nothing for
/// a document that is absent.
pub open spec fn corpus_edges(
    documents: Seq<Option<String>>,
    index: Map<Seq<char>, usize>,
    upto: nat,
) -> Seq<Edge>
    decreases upto,
{
    if upto == 0 {
        Seq::empty()
    } else {
        let rest = corpus_edges(documents, index, (upto - 1) as nat);
        let id = upto - 1;
        if id < documents.len() && documents[id] is Some {
            rest + links_from(id as usize, document_targets(documents[id]->0@, index))
        } else {
            rest
        }
    }
}

/// Stripping removes nothing but slashes at the end: a slash more at the
/// end of an address changes nothing.
pub proof fn lemma_strip_ignores_trailing_slash(link: Seq<char>)
    ensures
        strip(link.push('/')) == strip(link),
{
    assert(link.push('/').drop_last() =~= link);
}

/// A stripped address does not end in a slash, and stripping it again
/// changes nothing.
pub proof fn lemma_strip_is_final(link: Seq<char>)
    ensures
        strip(link).len() == 0 || strip(link).last() != '/',
        strip(strip(link)) == strip(link),
        strip(link).len() <= link.len(),
    decreases link.len(),
{
    if link.len() > 0 && link.last() == '/' {
        lemma_strip_is_final(link.drop_last());
    }
}

/// The index holds an address exactly where some seed, stripped, is that
/// address, and then leads to the last such seed.
pub proof fn lemma_index_holds_seeds(seeds: Seq<Seq<char>>, key: Seq<char>)
    requires
        seeds.len() <= usize::MAX,
    ensures
        index_of(seeds).contains_key(key) <==> exists|i: int|
            0 <= i < seeds.len() && strip(#[trigger] seeds[i]) == key,
        index_of(seeds).contains_key(key) ==> {
            let id = index_of(seeds)[key] as int;
            &&& 0 <= id < seeds.len()
            &&& strip(seeds[id]) == key
            &&& forall|j: int| id < j < seeds.len() ==> strip(#[trigger] seeds[j]) != key
        },
    decreases seeds.len(),
{
    if seeds.len() > 0 {
        let rest = seeds.drop_last();
        lemma_index_holds_seeds(rest, key);
        if strip(seeds.last()) == key {
            assert(strip(seeds[seeds.len() - 1]) == key);
        } else if index_of(rest).contains_key(key) {
            let i = choose|i: int| 0 <= i < rest.len() && strip(#[trigger] rest[i]) == key;
            assert(strip(seeds[i]) == key);
            let id = index_of(rest)[key] as int;
            assert(seeds[id] == rest[id]);
            assert forall|j: int| id < j < seeds.len() implies strip(#[trigger] seeds[j])
                != key by {
                if j < rest.len() {
                    assert(seeds[j] == rest[j]);
                }
            }
        } else {
            assert forall|i: int| 0 <= i < seeds.len() implies strip(#[trigger] seeds[i])
                != key by {
                if i < rest.len() {
                    assert(seeds[i] == rest[i]);
                }
            }
        }
    }
}

/// A link to an address that is not in the seed list leads nowhere.
pub proof fn lemma_unknown_link_leads_nowhere(seeds: Seq<Seq<char>>, link: Seq<char>)
    requires
        seeds.len() <= usize::MAX,
        forall|i: int| 0 <= i < seeds.len() ==> strip(#[trigger] seeds[i]) != strip(link),
    ensures
        lookup(index_of(seeds), link) is None,
{
    lemma_index_holds_seeds(seeds, strip(link));
}

/// A link leads to the same node with a slash at its end as without it.
pub proof fn lemma_trailing_slash_is_ignored(index: Map<Seq<char>, usize>, link: Seq<char>)
    ensures
        lookup(index, link.push('/')) == lookup(index, link),
{
    lemma_strip_ignores_trailing_slash(link);
}

/// A link that leads nowhere adds nothing to the targets of a document, and
/// one that leads to a node adds that node.
pub proof fn lemma_targets_push(
    captures: Seq<Option<Seq<char>>>,
    link: Seq<char>,
    index: Map<Seq<char>, usize>,
)
    ensures
        lookup(index, link) is None ==> targets(captures.push(Some(link)), index) == targets(
            captures,
            index,
        ),
        lookup(index, link) matches Some(id) ==> targets(captures.push(Some(link)), index)
            == targets(captures, index).push(id),
{
    assert(captures.push(Some(link)).drop_last() =~= captures);
}

/// Every target of a document is a value of the index.
pub proof fn lemma_targets_in_index(
    captures: Seq<Option<Seq<char>>>,
    index: Map<Seq<char>, usize>,
    nodes: int,
)
    requires
        forall|key: Seq<char>| index.contains_key(key) ==> #[trigger] index[key] < nodes,
    ensures
        forall|i: int|
            0 <= i < targets(captures, index).len() ==> #[trigger] targets(captures, index)[i]
                < nodes,
    decreases captures.len(),
{
    if captures.len() > 0 {
        let rest = targets(captures.drop_last(), index);
        let all = targets(captures, index);
        lemma_targets_in_index(captures.drop_last(), index, nodes);
        assert forall|i: int| 0 <= i < all.len() implies #[trigger] all[i] < nodes by {
            if i < rest.len() {
                assert(all[i] == rest[i]);
            } else {
                let link = captures.last()->0;
                assert(all[i] == index[strip(link)]);
            }
        }
    }
}

/// The address without the slashes at its end.
pub fn normalize(link: &str) -> (stripped: String)
    ensures
        stripped@ == strip(link@),
{
    let bytes = link.as_bytes();
    let ghost all = link.spec_bytes();
    let mut end: usize = bytes.len();
    proof {
        encode_utf8_valid_utf8(link@);
        encode_utf8_decode_utf8(link@);
        is_char_boundary_start_end_of_seq(all);
        assert(all.subrange(0, end as int) =~= all);
    }
    while end > 0 && bytes[end - 1] == SLASH
        invariant
            end <= all.len(),
            bytes@ == all,
            all == link.spec_bytes(),
            valid_utf8(all),
            is_char_boundary(all, end as int),
            strip(link@) == strip(decode_utf8(all.subrange(0, end as int))),
        decreases end,
    {
        proof {
            let upto = all.subrange(0, end as int);
            lemma_boundaries_of_single(all, end - 1);
            lemma_decode_between(all, end - 1, end as int);
            lemma_encode_single(SLASH, '/');
            assert(all.subrange(end - 1, end as int) =~= seq![SLASH]);
            let shorter = decode_utf8(all.subrange(0, end - 1));
            assert(decode_utf8(upto) =~= shorter.push('/'));
            lemma_strip_ignores_trailing_slash(shorter);
        }
        end = end - 1;
    }
    proof {
        lemma_decode_between(all, 0, end as int);
        lemma_last_from_bytes(all.subrange(0, end as int), SLASH, '/');
    }
    cut(link, 0, end).to_owned()
}

/// Why the links of a document could not be read.
#[derive(Clone, Copy, Debug, PartialEq, Eq, Structural)]
pub enum LinkError {
    /// The regular expression engine refused the link pattern.
    Pattern,
}

/// Makes `regex::Error` known as a type whose values are passed on unread.
#[verifier::external_type_specification]
#[verifier::external_body]
pub struct ExRegexError(regex::Error);

/// Calls `regex::Regex::new` on `pattern` and, where that compiles,
/// `Regex::captures_iter` on `text`, and copies what `Captures::get(1)`
/// gives for each match. Not verified: the contract claims that the result
/// depends on the pattern and the text alone, and calls it `first_groups`.
/// Whether the pattern compiles is left open, and has no name: the engine
/// refuses a pattern whose program is too large, and counts that size in
/// bytes as the machine lays them out, so one pattern need not fare the same
/// on every machine.
#[verifier::external_body]
fn capture_first_groups(pattern: &str, text: &str) -> (found: Result<
    Vec<Option<String>>,
    regex::Error,
>)
    ensures
        found matches Ok(groups) ==> captured(groups@) == first_groups(pattern@, text@),
{
    let re = regex::Regex::new(pattern)?;
    Ok(re.captures_iter(text).map(|c| c.get(1).map(|m| m.as_str().to_owned())).collect())
}

/// The reverse index of a seed list: from a stripped address to the node.
pub struct ReverseIndex {
    ids: StringHashMap<usize>,
    nodes: usize,
}

impl View for ReverseIndex {
    type V = Map<Seq<char>, usize>;

    closed spec fn view(&self) -> Map<Seq<char>, usize> {
        self.ids@
    }
}

impl ReverseIndex {
    /// The number of seeds that the index was built from.
    pub closed spec fn nodes(&self) -> nat {
        self.nodes as nat
    }

    /// Every address leads to one of the seeds.
    pub open spec fn wf(&self) -> bool {
        forall|key: Seq<char>| self@.contains_key(key) ==> #[trigger] self@[key] < self.nodes()
    }

    /// Builds the index of a seed list.
    pub fn build(seeds: &Vec<String>) -> (index: Self)
        ensures
            index.wf(),
            index.nodes() == seeds.len(),
            index@ == index_of(texts(seeds@)),
    {
        let mut ids: StringHashMap<usize> = StringHashMap::new();
        let mut i: usize = 0;
        while i < seeds.len()
            invariant
                i <= seeds.len(),
                ids@ == index_of(texts(seeds@).take(i as int)),
                forall|key: Seq<char>| ids@.contains_key(key) ==> #[trigger] ids@[key] < i,
            decreases seeds.len() - i,
        {
            let key = normalize(seeds[i].as_str());
            proof {
                let longer = texts(seeds@).take(i + 1);
                assert(longer.drop_last() =~= texts(seeds@).take(i as int));
            }
            ids.insert(key, i);
            i = i + 1;
        }
        assert(texts(seeds@).take(i as int) =~= texts(seeds@));
        ReverseIndex { ids, nodes: seeds.len() }
    }

    /// The number of seeds that the index was built from.
    pub fn node_count(&self) -> (count: usize)
        ensures
            count == self.nodes(),
    {
        self.nodes
    }

    /// The node that `link` leads to, if any: the link is stripped of the
    /// slashes at its end and looked up.
    pub fn resolve(&self, link: &str) -> (id: Option<usize>)
        ensures
            id == lookup(self@, link@),
    {
        let key = normalize(link);
        match self.ids.get(key.as_str()) {
            Some(id) => Some(*id),
            None => None,
        }
    }

    /// The nodes that the captured links lead to, in the order of the
    /// links; links that lead nowhere are dropped.
    pub fn resolve_captures(&self, captures: &Vec<Option<String>>) -> (found: Vec<usize>)
        ensures
            found@ == targets(captured(captures@), self@),
    {
        let mut found: Vec<usize> = Vec::new();
        let mut i: usize = 0;
        while i < captures.len()
            invariant
                i <= captures.len(),
                found@ == targets(captured(captures@).take(i as int), self@),
            decreases captures.len() - i,
        {
            proof {
                let longer = captured(captures@).take(i + 1);
                assert(longer.drop_last() =~= captured(captures@).take(i as int));
            }
            match &captures[i] {
                Some(link) => {
                    match self.resolve(link.as_str()) {
                        Some(id) => {
                            found.push(id);
                        },
                        None => {},
                    }
                },
                None => {},
            }
            i = i + 1;
        }
        assert(captured(captures@).take(i as int) =~= captured(captures@));
        found
    }

    /// The nodes that the links of a text lead to, a link being what the
    /// first group of `pattern` takes in a match. Fails only where the
    /// regular expression engine refuses the pattern.
    pub fn links_matching(&self, pattern: &str, text: &str) -> (found: Result<
        Vec<usize>,
        LinkError,
    >)
        ensures
            found matches Ok(ids) ==> ids@ == targets(first_groups(pattern@, text@), self@),
    {
        match capture_first_groups(pattern, text) {
            Ok(groups) => Ok(self.resolve_captures(&groups)),
            Err(_) => Err(LinkError::Pattern),
        }
    }

    /// The nodes that the links of a document lead to, its links being
    /// found by `LINK_PATTERN`.
    pub fn document_links(&self, text: &str) -> (found: Result<Vec<usize>, LinkError>)
        ensures
            found matches Ok(ids) ==> ids@ == document_targets(text@, self@),
    {
        self.links_matching(LINK_PATTERN, text)
    }
}

/// Adds one edge from `source` to each of `targets` that is a node of the
/// graph; none where `source` is not a node of it.
pub fn link_document(graph: &mut Graph, source: usize, targets: &Vec<usize>)
    requires
        old(graph).wf(),
    ensures
        final(graph).wf(),
        final(graph)@.nodes == old(graph)@.nodes,
        final(graph)@.edges == old(graph)@.edges + links_within(
            old(graph)@.nodes,
            source,
            targets@,
        ),
{
    let ghost nodes = graph@.nodes;
    let mut i: usize = 0;
    while i < targets.len()
        invariant
            i <= targets.len(),
            graph.wf(),
            graph@.nodes == nodes,
            nodes == old(graph)@.nodes,
            graph@.edges == old(graph)@.edges + links_within(
                nodes,
                source,
                targets@.take(i as int),
            ),
        decreases targets.len() - i,
    {
        proof {
            assert(targets@.take(i + 1).drop_last() =~= targets@.take(i as int));
        }
        graph.add_edge(source, targets[i]);
        i = i + 1;
    }
    assert(targets@.take(i as int) =~= targets@);
}

/// Builds the link graph of a corpus. `seeds` is the seed list, and
/// `documents` holds, by position, the text of each document that is there.
/// The graph has one node per seed, whether its document is there or not.
pub fn build_graph(seeds: &Vec<String>, documents: &Vec<Option<String>>) -> (built: Result<
    Graph,
    LinkError,
>)
    ensures
        built matches Ok(graph) ==> {
            &&& graph.wf()
            &&& graph@.nodes == seeds.len()
            &&& graph@.edges == corpus_edges(
                documents@,
                index_of(texts(seeds@)),
                seeds.len() as nat,
            )
        },
        (forall|id: int| 0 <= id < seeds.len() && id < documents.len() ==> documents[id] is None)
            ==> built is Ok,
{
    let index = ReverseIndex::build(seeds);
    let mut graph = Graph::new(seeds.len());
    let mut id: usize = 0;
    while id < seeds.len()
        invariant
            id <= seeds.len(),
            index.wf(),
            index.nodes() == seeds.len(),
            graph.wf(),
            graph@.nodes == seeds.len(),
            graph@.edges == corpus_edges(documents@, index@, id as nat),
        decreases seeds.len() - id,
    {
        if id < documents.len() {
            match &documents[id] {
                Some(text) => {
                    let found = match index.document_links(text.as_str()) {
                        Ok(found) => found,
                        Err(e) => {
                            return Err(e);
                        },
                    };
                    proof {
                        lemma_targets_in_index(
                            first_groups(LINK_PATTERN@, text@),
                            index@,
                            seeds.len() as int,
                        );
                        lemma_links_within_range(seeds.len() as nat, id, found@);
                    }
                    link_document(&mut graph, id, &found);
                },
                None => {},
            }
        }
        id = id + 1;
    }
    Ok(graph)
}

} // verus!
