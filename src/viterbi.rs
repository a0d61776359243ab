//! The word lattice over an input text and its shortest path.
use vstd::prelude::*;
use vstd::string::StringSliceAdditionalSpecFns;

use crate::char_scan::{
    category_by_name, char_at, char_count, code_point_at, kanji_span, named_from, span_chars, unknown_ends,
    unknown_spans,
};
use crate::character_definition::{CategoryId, CharacterDefinitions};
use crate::connection::ConnectionCostMatrix;
use crate::prefix_dict::{at_boundary, lemma_prefix_sound, prefix_matches, record_entry, run_of, PrefixDict};
use crate::unknown_dictionary::UnknownDictionary;
use crate::word_entry::{le_u16, signed16, WordEntry, WordId, SYNTHETIC_WORD_ID};
use crate::{Mode, MAX_LENGTH_PENALTY};

verus! {

/// Id of the start-of-text node.
pub const BOS_ID: u32 = 0;

/// Id of the end-of-text node.
pub const EOS_ID: u32 = 1;

/// What a node of the lattice stands for.
#[derive(Clone, Copy, Debug, PartialEq, Eq, Structural)]
pub enum NodeType {
    Known,
    Unknown,
    Bos,
    Eos,
}

/// Index of a node of the lattice.
#[derive(Clone, Copy, Debug, PartialEq, Eq, Structural)]
pub struct NodeId(pub u32);

/// One edge of the lattice: a candidate word over the bytes
/// `[start_index, stop_index)` of the text.
#[derive(Clone, Copy, Debug)]
pub struct Node {
    pub node_type: NodeType,
    pub word_entry: WordEntry,
    pub path_cost: i64,
    pub left_node: Option<NodeId>,
    pub start_index: u32,
    pub stop_index: u32,
    /// Number of characters in the span.
    pub num_chars: u32,
    /// True when every character of the span is a kanji.
    pub kanji_only: bool,
}

/// A lattice as sequences: its nodes, and for each byte position the ids of
/// the nodes that start and that stop there.
pub ghost struct LatticeView {
    pub nodes: Seq<Node>,
    pub starts_at: Seq<Seq<NodeId>>,
    pub ends_at: Seq<Seq<NodeId>>,
}

/// Bound on the magnitude of path costs, per byte of text covered.
pub open spec fn cost_unit() -> int {
    0x10000 + MAX_LENGTH_PENALTY
}

/// The two nodes agree except maybe in their path cost and predecessor.
pub open spec fn same_edge(a: Node, b: Node) -> bool {
    &&& a.node_type == b.node_type
    &&& a.word_entry == b.word_entry
    &&& a.start_index == b.start_index
    &&& a.stop_index == b.stop_index
    &&& a.num_chars == b.num_chars
    &&& a.kanji_only == b.kanji_only
}

impl LatticeView {
    /// Length in bytes of the text the lattice is built over.
    pub open spec fn text_len(&self) -> int {
        self.starts_at.len() - 1
    }

    pub open spec fn node(&self, id: NodeId) -> Node {
        self.nodes[id.0 as int]
    }

    pub open spec fn valid_id(&self, id: NodeId) -> bool {
        id.0 < self.nodes.len()
    }

    /// Structure of the lattice: positions, edge spans, id lists and links.
    pub open spec fn wf(&self) -> bool {
        &&& self.wf_shape()
        &&& self.wf_nodes()
        &&& self.wf_starts()
        &&& self.wf_ends()
    }

    pub open spec fn wf_shape(&self) -> bool {
        &&& self.starts_at.len() >= 1
        &&& self.ends_at.len() == self.starts_at.len()
        &&& self.text_len() < 0xFFFF_FFFF
        &&& 2 <= self.nodes.len() <= 0xFFFF_FFFF
        &&& self.nodes[0].start_index == 0 && self.nodes[0].stop_index == 0
        &&& self.nodes[0].left_node is None
        &&& self.nodes[1].start_index == self.text_len() && self.nodes[1].stop_index == self.text_len()
    }

    /// Node `id` spans a part of the text, links to a node that stops where it
    /// starts, and has a path cost within bounds.
    pub open spec fn wf_node(&self, id: int) -> bool {
        let n = self.nodes[id];
        &&& n.start_index <= n.stop_index <= self.text_len()
        &&& n.num_chars <= n.stop_index - n.start_index
        &&& (id >= 2 ==> n.start_index < n.stop_index)
        &&& (n.left_node matches Some(l) ==> {
            &&& self.valid_id(l)
            &&& l.0 != EOS_ID
            &&& self.node(l).stop_index == n.start_index
        })
        &&& (id != 1 ==> -(2 * n.stop_index + 1) * cost_unit() <= n.path_cost <= (2 * n.stop_index + 1) * cost_unit())
    }

    #[verifier::opaque]
    pub open spec fn wf_nodes(&self) -> bool {
        forall|id: int| 0 <= id < self.nodes.len() ==> #[trigger] self.wf_node(id)
    }

    pub open spec fn wf_start(&self, i: int, k: int) -> bool {
        let id = self.starts_at[i][k];
        &&& self.valid_id(id)
        &&& self.node(id).start_index == i
        &&& (id.0 == EOS_ID || self.node(id).stop_index > i)
    }

    #[verifier::opaque]
    pub open spec fn wf_starts(&self) -> bool {
        forall|i: int, k: int|
            0 <= i < self.starts_at.len() && 0 <= k < self.starts_at[i].len() ==> #[trigger] self.wf_start(i, k)
    }

    pub open spec fn wf_end(&self, j: int, k: int) -> bool {
        let id = self.ends_at[j][k];
        &&& self.valid_id(id)
        &&& self.node(id).stop_index == j
        &&& id.0 != EOS_ID
    }

    #[verifier::opaque]
    pub open spec fn wf_ends(&self) -> bool {
        forall|j: int, k: int|
            0 <= j < self.ends_at.len() && 0 <= k < self.ends_at[j].len() ==> #[trigger] self.wf_end(j, k)
    }

    /// Node `id` is a dictionary word over its span of `text`, or an unknown
    /// word with an entry of the unknown-word dictionary.
    pub open spec fn edge_from(&self, id: int, dict: &PrefixDict, unk: &UnknownDictionary, text: Seq<u8>) -> bool {
        let n = self.nodes[id];
        match n.node_type {
            NodeType::Known => {
                &&& dict.entries().contains_key(text.subrange(n.start_index as int, n.stop_index as int))
                &&& at_boundary(text, n.stop_index as int)
                &&& record_entry(n.word_entry, dict.vals(), n.word_entry.word_id.0 as int)
                &&& in_run(dict, text.subrange(n.start_index as int, n.stop_index as int), n.word_entry.word_id.0 as int)
            },
            NodeType::Unknown => unk.entries().contains(n.word_entry),
            _ => false,
        }
    }

    /// Node `id` is a dictionary word over `[start, stop)` with record `record`.
    pub open spec fn known_at(&self, id: int, start: int, stop: int, record: int) -> bool {
        let n = self.nodes[id];
        &&& n.node_type == NodeType::Known
        &&& n.start_index == start
        &&& n.stop_index == stop
        &&& n.word_entry.word_id.0 == record
    }

    pub open spec fn has_known_edge(&self, start: int, stop: int, record: int) -> bool {
        exists|id: int| 2 <= id < self.nodes.len() && #[trigger] self.known_at(id, start, stop, record)
    }

    /// The `k`-th dictionary match of the text from byte `j` is an edge.
    pub open spec fn known_match(&self, dict: &PrefixDict, text: Seq<u8>, j: int, k: int) -> bool {
        let m = prefix_matches(dict.entries(), dict.vals(), text.subrange(j, text.len() as int), (text.len() - j) as nat)[k];
        self.has_known_edge(j, j + m.0, m.1)
    }

    /// At every byte position before `upto` that some edge reaches, every
    /// dictionary match of the text from there is an edge.
    pub open spec fn known_complete(&self, dict: &PrefixDict, text: Seq<u8>, upto: int) -> bool {
        forall|j: int, k: int|
            0 <= j < upto && j < text.len() && self.ends_at[j].len() > 0 && 0 <= k < prefix_matches(
                dict.entries(),
                dict.vals(),
                text.subrange(j, text.len() as int),
                (text.len() - j) as nat,
            ).len() ==> #[trigger] self.known_match(dict, text, j, k)
    }

    /// Every edge records the number of characters of its span of `text`,
    /// and whether they are all kanji.
    pub open spec fn spans_measured(&self, defs: &CharacterDefinitions, text: Seq<u8>) -> bool {
        forall|id: int| 2 <= id < self.nodes.len() ==> {
            let n = #[trigger] self.nodes[id];
            &&& n.num_chars == char_count(text, n.start_index as int, n.stop_index as int)
            &&& n.kanji_only == kanji_span(defs, text, n.start_index as int, n.stop_index as int)
        }
    }

    /// The lattice of `text` after the shortest-path pass: its edges are the
    /// dictionary words and unknown words that start at reached positions,
    /// each measured, and each node is settled on its cheapest predecessor.
    pub open spec fn built_for(
        &self,
        dict: &PrefixDict,
        defs: &CharacterDefinitions,
        unk: &UnknownDictionary,
        m: ConnectionCostMatrix,
        mode: Mode,
        text: Seq<u8>,
    ) -> bool {
        &&& self.wf()
        &&& self.text_len() == text.len()
        &&& self.lists_exact()
        &&& self.ends_at[0].len() > 0
        &&& self.edges_from(dict, unk, text)
        &&& self.spans_measured(defs, text)
        &&& self.edges_reached()
        &&& self.unknown_sound(dict, defs, unk, text)
        &&& self.nodes.len() < 0xFFFF_FFFF ==> self.known_complete(dict, text, text.len() as int)
        &&& self.nodes.len() < 0xFFFF_FFFF ==> self.unknown_complete(dict, defs, unk, text, text.len() as int)
        &&& self.nodes.len() < 0xFFFF_FFFF ==> same_edges(self.nodes, nodes_from(dict, defs, unk, text, text.len() as nat))
        &&& self.shortest_paths(m, mode)
        &&& self.links_settled()
        &&& self.linked_by_costs(m, mode, self.text_len())
        &&& self.nodes[0].path_cost == 0
    }

    /// Each list holds exactly the nodes that start or stop at its position,
    /// each once, in the order they were added: every node but the start node
    /// in the list of its start, every node but the end node in the list of
    /// its stop.
    pub open spec fn lists_exact(&self) -> bool {
        &&& forall|i: int| 0 <= i < self.starts_at.len() ==> #[trigger] self.starts_at[i] == ids_starting(
            self.nodes,
            i,
            self.nodes.len() as nat,
        )
        &&& forall|j: int| 0 <= j < self.ends_at.len() ==> #[trigger] self.ends_at[j] == ids_stopping(
            self.nodes,
            j,
            self.nodes.len() as nat,
        )
    }

    /// Every edge starts at a byte position that some edge reaches.
    pub open spec fn edges_reached(&self) -> bool {
        forall|id: int| 2 <= id < self.nodes.len() ==> self.ends_at[(#[trigger] self.nodes[id]).start_index as int].len() > 0
    }

    /// Every unknown-word edge starts where unknown words are made, ends at
    /// one of the unknown-word ends from there, and carries an entry of the
    /// first category of the character there.
    pub open spec fn unknown_sound(
        &self,
        dict: &PrefixDict,
        defs: &CharacterDefinitions,
        unk: &UnknownDictionary,
        text: Seq<u8>,
    ) -> bool {
        forall|id: int| 2 <= id < self.nodes.len() && (#[trigger] self.nodes[id]).node_type == NodeType::Unknown ==> {
            let n = self.nodes[id];
            let j = n.start_index as int;
            let cats = categories_at(defs, text, j);
            &&& unknown_invoked(dict, defs, text, j)
            &&& unknown_ends(defs, text, j, cats, cats.len() as nat).contains(n.stop_index as usize)
            &&& unk.entries_for(cats[0].0 as int).contains(n.word_entry)
        }
    }

    /// Node `id` is an unknown word over `[start, stop)` with entry `e`.
    pub open spec fn unknown_at(&self, id: int, start: int, stop: int, e: WordEntry) -> bool {
        let n = self.nodes[id];
        &&& n.node_type == NodeType::Unknown
        &&& n.start_index == start
        &&& n.stop_index == stop
        &&& n.word_entry == e
    }

    pub open spec fn has_unknown_edge(&self, start: int, stop: int, e: WordEntry) -> bool {
        exists|id: int| 2 <= id < self.nodes.len() && #[trigger] self.unknown_at(id, start, stop, e)
    }

    /// The unknown word from byte `j` to the `a`-th unknown-word end, with
    /// the `b`-th entry of the first category of the character at `j`, is an
    /// edge.
    pub open spec fn unknown_match(
        &self,
        defs: &CharacterDefinitions,
        unk: &UnknownDictionary,
        text: Seq<u8>,
        j: int,
        a: int,
        b: int,
    ) -> bool {
        let cats = categories_at(defs, text, j);
        let ends = unknown_ends(defs, text, j, cats, cats.len() as nat);
        self.has_unknown_edge(j, ends[a] as int, unk.entries_for(cats[0].0 as int)[b])
    }

    /// At every byte position before `upto` that some edge reaches and where
    /// unknown words are made, every unknown word is an edge.
    pub open spec fn unknown_complete(
        &self,
        dict: &PrefixDict,
        defs: &CharacterDefinitions,
        unk: &UnknownDictionary,
        text: Seq<u8>,
        upto: int,
    ) -> bool {
        forall|j: int, a: int, b: int|
            0 <= j < upto && j < text.len() && self.ends_at[j].len() > 0 && unknown_invoked(dict, defs, text, j)
                && 0 <= a < unknown_ends(defs, text, j, categories_at(defs, text, j), categories_at(defs, text, j).len() as nat).len()
                && 0 <= b < unk.entries_for(categories_at(defs, text, j)[0].0 as int).len()
                ==> #[trigger] self.unknown_match(defs, unk, text, j, a, b)
    }

    /// The start and end nodes have context id `0`; every other node comes
    /// from the dictionaries.
    pub open spec fn edges_from(&self, dict: &PrefixDict, unk: &UnknownDictionary, text: Seq<u8>) -> bool {
        &&& self.nodes[0].node_type == NodeType::Bos && self.nodes[0].word_entry.cost_id == 0
        &&& self.nodes[1].node_type == NodeType::Eos && self.nodes[1].word_entry.cost_id == 0
        &&& forall|id: int| 2 <= id < self.nodes.len() ==> #[trigger] self.edge_from(id, dict, unk, text)
    }

    /// Every node's context id is below `bound`.
    pub open spec fn cost_ids_below(&self, bound: int) -> bool {
        forall|id: int| 0 <= id < self.nodes.len() ==> (#[trigger] self.nodes[id]).word_entry.cost_id < bound
    }

    /// Cost of reaching `r` through `l`: the path cost of `l`, the connection
    /// cost, the word cost of `r` and its length penalty.
    pub open spec fn candidate(&self, m: ConnectionCostMatrix, mode: Mode, l: NodeId, r: NodeId) -> int {
        self.node(l).path_cost as int + m.cost_spec(
            self.node(l).word_entry.cost_id as int,
            self.node(r).word_entry.cost_id as int,
        ) + self.node(r).word_entry.word_cost as int + mode.spec_penalty_cost(
            self.node(r).num_chars as int,
            self.node(r).kanji_only,
        )
    }

    /// The cheapest predecessor of `r` among `lefts` and its cost; of several
    /// equally cheap ones, the first.
    pub open spec fn best_left(&self, m: ConnectionCostMatrix, mode: Mode, r: NodeId, lefts: Seq<NodeId>) -> (int, NodeId)
        decreases lefts.len(),
    {
        if lefts.len() <= 1 {
            (self.candidate(m, mode, lefts[0], r), lefts[0])
        } else {
            let prev = self.best_left(m, mode, r, lefts.drop_last());
            let c = self.candidate(m, mode, lefts.last(), r);
            if c < prev.0 {
                (c, lefts.last())
            } else {
                prev
            }
        }
    }

    /// The `k`-th node starting at `i` has the cheapest of the nodes that
    /// stop at `i` as `left_node`, and the cost through it as `path_cost`.
    pub open spec fn settled(&self, m: ConnectionCostMatrix, mode: Mode, i: int, k: int) -> bool {
        let r = self.starts_at[i][k];
        let best = self.best_left(m, mode, r, self.ends_at[i]);
        &&& self.node(r).left_node == Some(best.1)
        &&& self.node(r).path_cost == best.0
    }

    /// Each node that has a predecessor starts at or before `bound` and costs
    /// what the path through that predecessor costs.
    pub open spec fn linked_by_costs(&self, m: ConnectionCostMatrix, mode: Mode, bound: int) -> bool {
        forall|id: int| 0 <= id < self.nodes.len() ==> ((#[trigger] self.nodes[id]).left_node matches Some(l) ==> {
            &&& self.nodes[id].start_index <= bound
            &&& self.nodes[id].path_cost == self.candidate(m, mode, l, NodeId(id as u32))
        })
    }

    /// Only nodes at positions that some node reaches have a predecessor.
    pub open spec fn links_settled(&self) -> bool {
        forall|id: int| 0 <= id < self.nodes.len() && (#[trigger] self.nodes[id]).left_node is Some
            ==> self.ends_at[self.nodes[id].start_index as int].len() > 0
    }

    /// No node has a predecessor yet.
    pub open spec fn unlinked(&self) -> bool {
        forall|id: int| 0 <= id < self.nodes.len() ==> (#[trigger] self.nodes[id]).left_node is None
    }

    /// Every node with a candidate predecessor is settled.
    pub open spec fn shortest_paths(&self, m: ConnectionCostMatrix, mode: Mode) -> bool {
        forall|i: int, k: int|
            0 <= i < self.starts_at.len() && 0 <= k < self.starts_at[i].len() && self.ends_at[i].len() > 0
                ==> #[trigger] self.settled(m, mode, i, k)
    }
}

/// The start offsets and word ids along the chain of predecessors that ends
/// at `id`, oldest first, followed for at most `fuel` links. A node is listed
/// when it has a predecessor.
pub open spec fn backtrace(nodes: Seq<Node>, id: int, fuel: nat) -> Seq<(usize, u32)>
    decreases fuel,
{
    if fuel == 0 || !(0 <= id < nodes.len()) {
        seq![]
    } else {
        match nodes[id].left_node {
            None => seq![],
            Some(l) => backtrace(nodes, l.0 as int, (fuel - 1) as nat).push(
                (nodes[id].start_index as usize, nodes[id].word_entry.word_id.0),
            ),
        }
    }
}

/// Token starts from the chain of predecessors of the end node: its own
/// start (the text's end) dropped, and `0` put in front where the chain does
/// not reach the start of a non-empty text.
pub open spec fn offsets_of(chain: Seq<(usize, u32)>, text_len: int) -> Seq<(usize, u32)> {
    let s = if chain.len() > 0 { chain.drop_last() } else { chain };
    if text_len > 0 && (s.len() == 0 || s[0].0 != 0) {
        seq![(0usize, SYNTHETIC_WORD_ID)] + s
    } else {
        s
    }
}

/// `offs` are the token starts that the best path through a lattice of
/// `text` gives; none for the empty text.
pub open spec fn best_path_offsets(
    dict: &PrefixDict,
    defs: &CharacterDefinitions,
    unk: &UnknownDictionary,
    m: ConnectionCostMatrix,
    mode: Mode,
    text: Seq<u8>,
    offs: Seq<(usize, u32)>,
) -> bool {
    if text.len() == 0 {
        offs.len() == 0
    } else {
        exists|v: LatticeView|
            #[trigger] v.built_for(dict, defs, unk, m, mode, text) && offs == offsets_of(
                backtrace(v.nodes, EOS_ID as int, v.nodes.len() as nat),
                v.text_len(),
            )
    }
}

/// Offsets that cut a text of `len` bytes into non-empty tokens: they begin
/// at `0`, rise strictly and stay below `len`.
pub open spec fn is_token_cut(offsets: Seq<(usize, u32)>, len: int) -> bool {
    &&& (len == 0 ==> offsets.len() == 0)
    &&& (len > 0 ==> offsets.len() > 0 && offsets[0].0 == 0)
    &&& forall|k: int| 0 <= k < offsets.len() ==> #[trigger] offsets[k].0 < len
    &&& forall|a: int, b: int| 0 <= a < b < offsets.len() ==> offsets[a].0 < offsets[b].0
}

/// Along a chain of predecessors the start offsets rise strictly and end
/// with the start of the last node.
proof fn lemma_backtrace_rises(v: LatticeView, id: int, fuel: nat)
    requires
        v.wf(),
        0 <= id < v.nodes.len(),
    ensures
        ({
            let c = backtrace(v.nodes, id, fuel);
            &&& c.len() > 0 ==> c.last().0 == v.nodes[id].start_index
            &&& forall|a: int, b: int| 0 <= a < b < c.len() ==> c[a].0 < c[b].0
            &&& forall|a: int| 0 <= a < c.len() ==> c[a].0 <= v.nodes[id].start_index
        }),
    decreases fuel,
{
    if fuel > 0 {
        let n = v.nodes[id];
        reveal(LatticeView::wf_nodes);
        assert(v.wf_node(id));
        if let Some(l) = n.left_node {
            let li = l.0 as int;
            lemma_backtrace_rises(v, li, (fuel - 1) as nat);
            let p = backtrace(v.nodes, li, (fuel - 1) as nat);
            let c = backtrace(v.nodes, id, fuel);
            assert(c == p.push((n.start_index as usize, n.word_entry.word_id.0)));
            assert(v.nodes[li].stop_index == n.start_index);
            if p.len() > 0 {
                // `l` has a predecessor, so it is not the start node and spans at least one byte.
                assert(v.wf_node(li));
                assert(li != 0);
                assert(v.nodes[li].start_index < v.nodes[li].stop_index);
            }
            assert forall|a: int, b: int| 0 <= a < b < c.len() implies c[a].0 < c[b].0 by {
                if b == c.len() - 1 {
                    assert(c[a] == p[a]);
                }
            }
        }
    }
}

/// The offsets read off the lattice always cut the text into tokens.
pub proof fn lemma_offsets_cut_text(v: LatticeView, fuel: nat)
    requires
        v.wf(),
    ensures
        is_token_cut(offsets_of(backtrace(v.nodes, 1, fuel), v.text_len()), v.text_len()),
{
    let c = backtrace(v.nodes, 1, fuel);
    lemma_backtrace_rises(v, 1, fuel);
    let s = if c.len() > 0 { c.drop_last() } else { c };
    assert forall|k: int| 0 <= k < s.len() implies s[k].0 < v.text_len() by {
        assert(c[k].0 < c[c.len() - 1].0);
    }
    let o = offsets_of(c, v.text_len());
    if v.text_len() == 0 {
        if s.len() > 0 {
            assert(s[0].0 < v.text_len());
        }
    }
    if v.text_len() > 0 && (s.len() == 0 || s[0].0 != 0) {
        assert(o == seq![(0usize, SYNTHETIC_WORD_ID)] + s);
        assert forall|a: int, b: int| 0 <= a < b < o.len() implies o[a].0 < o[b].0 by {
            if a == 0 {
                assert(o[b] == s[b - 1]);
                assert(s[b - 1].0 != 0 || b - 1 > 0);
                if b - 1 > 0 {
                    assert(s[0].0 < s[b - 1].0);
                }
            } else {
                assert(o[a] == s[a - 1] && o[b] == s[b - 1]);
            }
        }
        assert forall|k: int| 0 <= k < o.len() implies o[k].0 < v.text_len() by {
            if k > 0 {
                assert(o[k] == s[k - 1]);
            }
        }
    }
}

/// `best_left` depends only on the nodes of the candidates and on the edge of `r`.
proof fn lemma_best_left_frame(
    v1: LatticeView,
    v2: LatticeView,
    m: ConnectionCostMatrix,
    mode: Mode,
    r: NodeId,
    lefts: Seq<NodeId>,
)
    requires
        lefts.len() >= 1,
        same_edge(v1.node(r), v2.node(r)),
        forall|k: int| 0 <= k < lefts.len() ==> v1.node(#[trigger] lefts[k]) == v2.node(lefts[k]),
    ensures
        v1.best_left(m, mode, r, lefts) == v2.best_left(m, mode, r, lefts),
    decreases lefts.len(),
{
    if lefts.len() > 1 {
        let d = lefts.drop_last();
        assert forall|k: int| 0 <= k < d.len() implies v1.node(#[trigger] d[k]) == v2.node(d[k]) by {
            assert(d[k] == lefts[k]);
        }
        lemma_best_left_frame(v1, v2, m, mode, r, d);
        assert(lefts.last() == lefts[lefts.len() - 1]);
    }
}

/// The cheapest predecessor is one of the candidates, at its own cost.
proof fn lemma_best_left_member(v: LatticeView, m: ConnectionCostMatrix, mode: Mode, r: NodeId, lefts: Seq<NodeId>)
    requires
        lefts.len() >= 1,
    ensures
        ({
            let b = v.best_left(m, mode, r, lefts);
            &&& exists|k: int| 0 <= k < lefts.len() && lefts[k] == b.1
            &&& b.0 == v.candidate(m, mode, b.1, r)
        }),
    decreases lefts.len(),
{
    let b = v.best_left(m, mode, r, lefts);
    if lefts.len() > 1 {
        let d = lefts.drop_last();
        lemma_best_left_member(v, m, mode, r, d);
        let bd = v.best_left(m, mode, r, d);
        let k = choose|k: int| 0 <= k < d.len() && d[k] == bd.1;
        assert(lefts[k] == bd.1);
        assert(lefts[lefts.len() - 1] == lefts.last());
        if b.1 == lefts.last() {
            assert(lefts[lefts.len() - 1] == b.1);
        } else {
            assert(lefts[k] == b.1);
        }
    } else {
        assert(lefts[0] == b.1);
    }
}

/// Word costs plus connection costs along the chain of predecessors that
/// ends at `id`, followed for at most `fuel` links.
pub open spec fn path_sum(v: LatticeView, m: ConnectionCostMatrix, id: int, fuel: nat) -> int
    decreases fuel,
{
    if fuel == 0 || !(0 <= id < v.nodes.len()) {
        0
    } else {
        match v.nodes[id].left_node {
            None => 0,
            Some(l) => path_sum(v, m, l.0 as int, (fuel - 1) as nat) + m.cost_spec(
                v.node(l).word_entry.cost_id as int,
                v.nodes[id].word_entry.cost_id as int,
            ) + v.nodes[id].word_entry.word_cost as int,
        }
    }
}

/// The node where the chain of predecessors from `id` stops, within `fuel` links.
pub open spec fn chain_root(v: LatticeView, id: int, fuel: nat) -> int
    decreases fuel,
{
    if fuel == 0 || !(0 <= id < v.nodes.len()) {
        id
    } else {
        match v.nodes[id].left_node {
            None => id,
            Some(l) => chain_root(v, l.0 as int, (fuel - 1) as nat),
        }
    }
}

/// In normal mode the path cost of a node whose chain of predecessors goes
/// back to the start node is the sum of the word costs and connection costs
/// along that chain, with no penalty.
pub proof fn lemma_normal_path_cost(v: LatticeView, m: ConnectionCostMatrix, id: int, fuel: nat)
    requires
        v.wf(),
        v.linked_by_costs(m, Mode::Normal, v.text_len()),
        v.nodes[0].path_cost == 0,
        0 <= id < v.nodes.len(),
        chain_root(v, id, fuel) == 0,
    ensures
        v.nodes[id].path_cost == path_sum(v, m, id, fuel),
    decreases fuel,
{
    reveal(LatticeView::wf_nodes);
    assert(v.wf_node(id));
    if fuel > 0 {
        if let Some(l) = v.nodes[id].left_node {
            lemma_normal_path_cost(v, m, l.0 as int, (fuel - 1) as nat);
            assert(NodeId(id as u32) == NodeId(id as u32));
            assert(v.node(NodeId(id as u32)) == v.nodes[id]);
        }
    }
}

/// The two node sequences agree on everything but path costs and predecessors.
pub open spec fn same_edges(a: Seq<Node>, b: Seq<Node>) -> bool {
    a.len() == b.len() && forall|id: int| 0 <= id < a.len() ==> same_edge(#[trigger] a[id], b[id])
}

/// `best_left` depends only on the path costs and entries of the candidates
/// and on the edge of `r`.
proof fn lemma_best_left_same(
    v: LatticeView,
    w: LatticeView,
    m: ConnectionCostMatrix,
    mode: Mode,
    r: NodeId,
    lefts: Seq<NodeId>,
)
    requires
        lefts.len() >= 1,
        same_edge(v.node(r), w.node(r)),
        forall|k: int| 0 <= k < lefts.len() ==> v.node(#[trigger] lefts[k]).path_cost == w.node(lefts[k]).path_cost
            && v.node(lefts[k]).word_entry == w.node(lefts[k]).word_entry,
    ensures
        v.best_left(m, mode, r, lefts) == w.best_left(m, mode, r, lefts),
    decreases lefts.len(),
{
    if lefts.len() > 1 {
        let d = lefts.drop_last();
        assert forall|k: int| 0 <= k < d.len() implies v.node(#[trigger] d[k]).path_cost == w.node(d[k]).path_cost
            && v.node(d[k]).word_entry == w.node(d[k]).word_entry by {
            assert(d[k] == lefts[k]);
        }
        lemma_best_left_same(v, w, m, mode, r, d);
        assert(lefts.last() == lefts[lefts.len() - 1]);
    } else {
        assert(lefts[0] == lefts[0]);
    }
}

/// In two lattices built for the same text from the same model, a node at a
/// reached position, or the start node, has the same predecessor and path
/// cost.
proof fn lemma_settled_agree(
    v: LatticeView,
    w: LatticeView,
    dict: &PrefixDict,
    defs: &CharacterDefinitions,
    unk: &UnknownDictionary,
    m: ConnectionCostMatrix,
    mode: Mode,
    text: Seq<u8>,
    id: int,
)
    requires
        v.built_for(dict, defs, unk, m, mode, text),
        w.built_for(dict, defs, unk, m, mode, text),
        v.nodes.len() == w.nodes.len(),
        forall|x: int| 0 <= x < v.nodes.len() ==> same_edge(#[trigger] v.nodes[x], w.nodes[x]),
        v.starts_at == w.starts_at,
        v.ends_at == w.ends_at,
        0 <= id < v.nodes.len(),
        id == 0 || v.ends_at[v.nodes[id].start_index as int].len() > 0,
    ensures
        v.nodes[id].left_node == w.nodes[id].left_node,
        v.nodes[id].path_cost == w.nodes[id].path_cost,
    decreases v.nodes[id].start_index,
{
    reveal(LatticeView::wf_nodes);
    reveal(LatticeView::wf_ends);
    assert(same_edge(v.nodes[id], w.nodes[id]));
    if id != 0 {
        let i = v.nodes[id].start_index as int;
        assert(v.wf_node(id));
        // The node is listed where it starts, so both lattices settled it.
        let ls = ids_starting(v.nodes, i, v.nodes.len() as nat);
        lemma_ids_starting_has(v.nodes, i, v.nodes.len() as nat, id);
        assert(v.starts_at[i] == ls);
        let k = choose|k: int| 0 <= k < ls.len() && ls[k] == NodeId(id as u32);
        assert(v.settled(m, mode, i, k));
        assert(w.settled(m, mode, i, k));
        let lefts = v.ends_at[i];
        assert forall|q: int| 0 <= q < lefts.len() implies v.node(#[trigger] lefts[q]).path_cost == w.node(lefts[q]).path_cost
            && v.node(lefts[q]).word_entry == w.node(lefts[q]).word_entry by {
            let l = lefts[q];
            assert(v.wf_end(i, q));
            assert(same_edge(v.nodes[l.0 as int], w.nodes[l.0 as int]));
            if l.0 != 0 {
                assert(v.wf_node(l.0 as int));
                assert(v.nodes[l.0 as int].start_index < v.nodes[l.0 as int].stop_index);
                assert(v.ends_at[v.nodes[l.0 as int].start_index as int].len() > 0);
                lemma_settled_agree(v, w, dict, defs, unk, m, mode, text, l.0 as int);
            }
        }
        lemma_best_left_same(v, w, m, mode, NodeId(id as u32), lefts);
    }
}

/// The list of the nodes starting at a node's start holds it.
proof fn lemma_ids_starting_has(nodes: Seq<Node>, i: int, n: nat, id: int)
    requires
        0 < id < n <= nodes.len(),
        nodes[id].start_index == i,
    ensures
        exists|k: int| 0 <= k < ids_starting(nodes, i, n).len() && ids_starting(nodes, i, n)[k] == NodeId(id as u32),
    decreases n,
{
    let p = ids_starting(nodes, i, (n - 1) as nat);
    if id < n - 1 {
        lemma_ids_starting_has(nodes, i, (n - 1) as nat, id);
        let k = choose|k: int| 0 <= k < p.len() && p[k] == NodeId(id as u32);
        if n - 1 != BOS_ID && nodes[n - 1].start_index == i {
            assert(ids_starting(nodes, i, n)[k] == p[k]);
        }
    } else {
        assert(ids_starting(nodes, i, n)[p.len() as int] == NodeId(id as u32));
    }
}

/// Chains of predecessors that agree node for node read back the same.
proof fn lemma_backtrace_same(a: Seq<Node>, b: Seq<Node>, id: int, fuel: nat)
    requires
        a.len() == b.len(),
        forall|x: int| 0 <= x < a.len() ==> (#[trigger] a[x]).left_node == b[x].left_node && same_edge(a[x], b[x]),
    ensures
        backtrace(a, id, fuel) == backtrace(b, id, fuel),
    decreases fuel,
{
    if fuel > 0 && 0 <= id < a.len() {
        assert(a[id].left_node == b[id].left_node && same_edge(a[id], b[id]));
        if let Some(l) = a[id].left_node {
            lemma_backtrace_same(a, b, l.0 as int, (fuel - 1) as nat);
        }
    }
}

/// Two lattices built for the same text from the same model give the same
/// token offsets: the segmentation depends on the model and the text alone.
pub proof fn lemma_built_for_unique(
    v: LatticeView,
    w: LatticeView,
    dict: &PrefixDict,
    defs: &CharacterDefinitions,
    unk: &UnknownDictionary,
    m: ConnectionCostMatrix,
    mode: Mode,
    text: Seq<u8>,
)
    requires
        v.built_for(dict, defs, unk, m, mode, text),
        w.built_for(dict, defs, unk, m, mode, text),
        v.nodes.len() < 0xFFFF_FFFF,
        w.nodes.len() < 0xFFFF_FFFF,
    ensures
        offsets_of(backtrace(v.nodes, EOS_ID as int, v.nodes.len() as nat), v.text_len())
            == offsets_of(backtrace(w.nodes, EOS_ID as int, w.nodes.len() as nat), w.text_len()),
{
    let sn = nodes_from(dict, defs, unk, text, text.len() as nat);
    assert forall|x: int| 0 <= x < v.nodes.len() implies same_edge(#[trigger] v.nodes[x], w.nodes[x]) by {
        assert(same_edge(v.nodes[x], sn[x]));
        assert(same_edge(w.nodes[x], sn[x]));
    }
    assert forall|k: int| 0 <= k < v.nodes.len() implies (#[trigger] v.nodes[k]).start_index == w.nodes[k].start_index
        && v.nodes[k].stop_index == w.nodes[k].stop_index by {
        assert(same_edge(v.nodes[k], w.nodes[k]));
    }
    assert forall|i: int| 0 <= i < v.starts_at.len() implies #[trigger] v.starts_at[i] == w.starts_at[i] by {
        lemma_ids_frame(v.nodes, w.nodes, i, v.nodes.len() as nat);
    }
    assert forall|j: int| 0 <= j < v.ends_at.len() implies #[trigger] v.ends_at[j] == w.ends_at[j] by {
        lemma_ids_frame(v.nodes, w.nodes, j, v.nodes.len() as nat);
    }
    assert(v.starts_at =~= w.starts_at);
    assert(v.ends_at =~= w.ends_at);
    assert forall|x: int| 0 <= x < v.nodes.len() implies (#[trigger] v.nodes[x]).left_node == w.nodes[x].left_node
        && same_edge(v.nodes[x], w.nodes[x]) by {
        reveal(LatticeView::wf_nodes);
        assert(v.wf_node(x));
        if x == 0 || v.ends_at[v.nodes[x].start_index as int].len() > 0 {
            lemma_settled_agree(v, w, dict, defs, unk, m, mode, text, x);
        } else {
            assert(v.nodes[x].left_node is None);
            assert(w.nodes[x].left_node is None);
        }
    }
    lemma_backtrace_same(v.nodes, w.nodes, EOS_ID as int, v.nodes.len() as nat);
}

/// Bounds of a candidate cost: the predecessor's bound, two 16-bit costs and
/// a penalty of at most `MAX_LENGTH_PENALTY` per character.
proof fn lemma_candidate_bound(pc: int, conn: int, wc: int, pen: int, n: int, s: int, e: int)
    requires
        0 <= s <= e <= 0xFFFF_FFFF,
        -(2 * s + 1) * cost_unit() <= pc <= (2 * s + 1) * cost_unit(),
        -0x8000 <= conn < 0x8000,
        -0x8000 <= wc < 0x8000,
        0 <= n <= e - s,
        -(n * MAX_LENGTH_PENALTY) <= pen <= n * MAX_LENGTH_PENALTY,
    ensures
        -0x40_0000_0000_0000 <= pc <= 0x40_0000_0000_0000,
        -0x40_0000_0000_0000 <= pc + conn <= 0x40_0000_0000_0000,
        -0x40_0000_0000_0000 <= pc + conn + wc <= 0x40_0000_0000_0000,
        -0x80_0000_0000_0000 <= pc + conn + wc + pen <= 0x80_0000_0000_0000,
        s < e ==> -(2 * e + 1) * cost_unit() <= pc + conn + wc + pen <= (2 * e + 1) * cost_unit(),
{
    assert(-((e - s) * MAX_LENGTH_PENALTY) <= pen <= (e - s) * MAX_LENGTH_PENALTY) by (nonlinear_arith)
        requires -(n * MAX_LENGTH_PENALTY) <= pen <= n * MAX_LENGTH_PENALTY, 0 <= n <= e - s;
    assert((2 * s + 1) * cost_unit() <= (2 * 0xFFFF_FFFF + 1) * cost_unit()) by (nonlinear_arith)
        requires s <= 0xFFFF_FFFF;
    assert((e - s) * MAX_LENGTH_PENALTY <= 0xFFFF_FFFF * MAX_LENGTH_PENALTY) by (nonlinear_arith)
        requires 0 <= e - s <= 0xFFFF_FFFF;
    if s < e {
        assert((2 * s + 1) * cost_unit() + 0x10000 + (e - s) * MAX_LENGTH_PENALTY <= (2 * e + 1) * cost_unit())
            by (nonlinear_arith)
            requires s < e, cost_unit() == 0x10000 + MAX_LENGTH_PENALTY;
    }
}

/// Settling the `k`-th node starting at `i` keeps the lattice well formed and
/// keeps the nodes settled before it.
proof fn lemma_settle(
    v: LatticeView,
    w: LatticeView,
    m: ConnectionCostMatrix,
    mode: Mode,
    i: int,
    k: int,
    c: i64,
)
    requires
        v.wf(),
        0 <= i < v.starts_at.len(),
        0 <= k < v.starts_at[i].len(),
        v.ends_at[i].len() > 0,
        w.starts_at == v.starts_at,
        w.ends_at == v.ends_at,
        c as int == v.best_left(m, mode, v.starts_at[i][k], v.ends_at[i]).0,
        w.nodes == v.nodes.update(
            v.starts_at[i][k].0 as int,
            Node {
                left_node: Some(v.best_left(m, mode, v.starts_at[i][k], v.ends_at[i]).1),
                path_cost: c,
                ..v.node(v.starts_at[i][k])
            },
        ),
        v.starts_at[i][k].0 != EOS_ID ==> -(2 * v.node(v.starts_at[i][k]).stop_index + 1) * cost_unit() <= c
            <= (2 * v.node(v.starts_at[i][k]).stop_index + 1) * cost_unit(),
        forall|i2: int, k2: int|
            0 <= i2 <= i && 0 <= k2 < v.starts_at[i2].len() && v.ends_at[i2].len() > 0 && (i2 < i || k2 < k)
                ==> #[trigger] v.settled(m, mode, i2, k2),
        v.linked_by_costs(m, mode, i),
        v.links_settled(),
    ensures
        w.wf(),
        w.linked_by_costs(m, mode, i),
        w.links_settled(),
        w.nodes[0] == v.nodes[0],
        w.nodes.len() == v.nodes.len(),
        forall|id: int| 0 <= id < v.nodes.len() ==> same_edge(#[trigger] w.nodes[id], v.nodes[id]),
        forall|i2: int, k2: int|
            0 <= i2 <= i && 0 <= k2 < w.starts_at[i2].len() && w.ends_at[i2].len() > 0 && (i2 < i || k2 <= k)
                ==> #[trigger] w.settled(m, mode, i2, k2),
{
    let r = v.starts_at[i][k];
    reveal(LatticeView::wf_nodes);
    reveal(LatticeView::wf_starts);
    reveal(LatticeView::wf_ends);
    assert(v.wf_start(i, k));
    let b = v.best_left(m, mode, r, v.ends_at[i]);
    lemma_best_left_member(v, m, mode, r, v.ends_at[i]);
    let kb = choose|kb: int| 0 <= kb < v.ends_at[i].len() && v.ends_at[i][kb] == b.1;
    assert(v.wf_end(i, kb));
    assert forall|id: int| 0 <= id < v.nodes.len() implies same_edge(#[trigger] w.nodes[id], v.nodes[id]) by {}
    assert forall|id: int| 0 <= id < w.nodes.len() implies #[trigger] w.wf_node(id) by {
        assert(v.wf_node(id));
        if let Some(l) = w.nodes[id].left_node {
            assert(same_edge(w.nodes[l.0 as int], v.nodes[l.0 as int]));
        }
    }
    assert forall|i2: int, k2: int|
        0 <= i2 < w.starts_at.len() && 0 <= k2 < w.starts_at[i2].len() implies #[trigger] w.wf_start(i2, k2) by {
        assert(v.wf_start(i2, k2));
    }
    assert forall|j2: int, k2: int|
        0 <= j2 < w.ends_at.len() && 0 <= k2 < w.ends_at[j2].len() implies #[trigger] w.wf_end(j2, k2) by {
        assert(v.wf_end(j2, k2));
    }
    assert(w.wf_shape());
    assert forall|i2: int, k2: int|
        0 <= i2 <= i && 0 <= k2 < w.starts_at[i2].len() && w.ends_at[i2].len() > 0 && (i2 < i || k2 <= k)
            implies #[trigger] w.settled(m, mode, i2, k2) by {
        let r2 = w.starts_at[i2][k2];
        let ls = w.ends_at[i2];
        assert(v.wf_start(i2, k2));
        assert forall|q: int| 0 <= q < ls.len() implies v.node(#[trigger] ls[q]) == w.node(ls[q]) by {
            assert(v.wf_end(i2, q));
        }
        lemma_best_left_frame(v, w, m, mode, r2, ls);
        if r2 != r {
            assert(v.settled(m, mode, i2, k2));
        }
    }
    assert(v.wf_node(r.0 as int));
    assert(r.0 != 0);
    assert forall|id: int| 0 <= id < w.nodes.len() && (#[trigger] w.nodes[id]).left_node is Some
        implies w.ends_at[w.nodes[id].start_index as int].len() > 0 by {
        if id != r.0 {
            assert(w.nodes[id] == v.nodes[id]);
        }
    }
    assert forall|id: int| 0 <= id < w.nodes.len() implies ((#[trigger] w.nodes[id]).left_node matches Some(l) ==> {
        &&& w.nodes[id].start_index <= i
        &&& w.nodes[id].path_cost == w.candidate(m, mode, l, NodeId(id as u32))
    }) by {
        if let Some(l) = w.nodes[id].left_node {
            if id == r.0 {
                assert(NodeId(id as u32) == r);
                assert(w.node(b.1) == v.node(b.1));
            } else {
                assert(v.nodes[id] == w.nodes[id]);
                assert(v.wf_node(id));
                assert(l != r);
                assert(NodeId(id as u32).0 == id);
            }
        }
    }
}

/// The working memory of the segmentation: nodes and, for each byte
/// position, the nodes that start and stop there. Buffers are kept between
/// texts.
pub struct Lattice {
    capacity: usize,
    nodes: Vec<Node>,
    starts_at: Vec<Vec<NodeId>>,
    ends_at: Vec<Vec<NodeId>>,
}

impl View for Lattice {
    type V = LatticeView;

    closed spec fn view(&self) -> LatticeView {
        LatticeView {
            nodes: self.nodes@,
            starts_at: self.starts_at@.map_values(|v: Vec<NodeId>| v@),
            ends_at: self.ends_at@.map_values(|v: Vec<NodeId>| v@),
        }
    }
}

/// Adding a node that spans part of the text, with no predecessor and a zero
/// path cost, to its start and stop lists keeps the lattice well formed.
proof fn lemma_add_edge(v: LatticeView, w: LatticeView, node: Node)
    requires
        v.wf(),
        v.nodes.len() < 0xFFFF_FFFF,
        node.start_index < node.stop_index <= v.text_len(),
        node.num_chars <= node.stop_index - node.start_index,
        node.left_node is None,
        node.path_cost == 0,
        w.nodes == v.nodes.push(node),
        w.starts_at == v.starts_at.update(
            node.start_index as int,
            v.starts_at[node.start_index as int].push(NodeId(v.nodes.len() as u32)),
        ),
        w.ends_at == v.ends_at.update(
            node.stop_index as int,
            v.ends_at[node.stop_index as int].push(NodeId(v.nodes.len() as u32)),
        ),
    ensures
        w.wf(),
{
    reveal(LatticeView::wf_nodes);
    reveal(LatticeView::wf_starts);
    reveal(LatticeView::wf_ends);
    let id = v.nodes.len() as int;
    assert forall|x: int| 0 <= x < w.nodes.len() implies #[trigger] w.wf_node(x) by {
        if x < id {
            assert(v.wf_node(x));
            assert(w.nodes[x] == v.nodes[x]);
            if let Some(l) = w.nodes[x].left_node {
                assert(w.nodes[l.0 as int] == v.nodes[l.0 as int]);
            }
        }
    }
    assert forall|i: int, k: int| 0 <= i < w.starts_at.len() && 0 <= k < w.starts_at[i].len()
        implies #[trigger] w.wf_start(i, k) by {
        if i == node.start_index && k == v.starts_at[i].len() {
        } else {
            assert(v.wf_start(i, k));
            assert(w.starts_at[i][k] == v.starts_at[i][k]);
        }
    }
    assert forall|j: int, k: int| 0 <= j < w.ends_at.len() && 0 <= k < w.ends_at[j].len()
        implies #[trigger] w.wf_end(j, k) by {
        if j == node.stop_index && k == v.ends_at[j].len() {
        } else {
            assert(v.wf_end(j, k));
            assert(w.ends_at[j][k] == v.ends_at[j][k]);
        }
    }
}

/// The entry that record `idx` of the blob holds, its index as word id.
pub open spec fn record_at(vals: Seq<u8>, idx: int) -> WordEntry {
    WordEntry {
        word_id: WordId(idx as u32),
        word_cost: signed16(le_u16(vals[idx * 4], vals[idx * 4 + 1])) as i16,
        cost_id: le_u16(vals[idx * 4 + 2], vals[idx * 4 + 3]) as u16,
    }
}

/// A fresh edge of `text` over `[start, stop)`.
pub open spec fn edge_node(
    t: NodeType,
    e: WordEntry,
    start: int,
    stop: int,
    defs: &CharacterDefinitions,
    text: Seq<u8>,
) -> Node {
    Node {
        node_type: t,
        word_entry: e,
        path_cost: 0,
        left_node: None,
        start_index: start as u32,
        stop_index: stop as u32,
        num_chars: char_count(text, start, stop) as u32,
        kanji_only: kanji_span(defs, text, start, stop),
    }
}

/// The dictionary words that start at byte `start`, shortest first, each
/// group in record order.
pub open spec fn known_nodes(dict: &PrefixDict, defs: &CharacterDefinitions, text: Seq<u8>, start: int) -> Seq<Node> {
    prefix_matches(dict.entries(), dict.vals(), text.subrange(start, text.len() as int), (text.len() - start) as nat).map_values(
        |m: (usize, int)| edge_node(NodeType::Known, record_at(dict.vals(), m.1), start, start + m.0, defs, text),
    )
}

/// The unknown words from `start` to the first `a` unknown-word ends, each
/// end with every entry of the first category in turn.
pub open spec fn unknown_nodes_upto(
    defs: &CharacterDefinitions,
    unk: &UnknownDictionary,
    text: Seq<u8>,
    start: int,
    a: nat,
) -> Seq<Node>
    decreases a,
{
    if a == 0 {
        seq![]
    } else {
        let cats = categories_at(defs, text, start);
        let ends = unknown_ends(defs, text, start, cats, cats.len() as nat);
        unknown_nodes_upto(defs, unk, text, start, (a - 1) as nat) + unk.entries_for(cats[0].0 as int).map_values(
            |e: WordEntry| edge_node(NodeType::Unknown, e, start, ends[a - 1] as int, defs, text),
        )
    }
}

/// The unknown words that start at `start`: none unless they are made there.
pub open spec fn unknown_nodes(
    dict: &PrefixDict,
    defs: &CharacterDefinitions,
    unk: &UnknownDictionary,
    text: Seq<u8>,
    start: int,
) -> Seq<Node> {
    let cats = categories_at(defs, text, start);
    if unknown_invoked(dict, defs, text, start) {
        unknown_nodes_upto(defs, unk, text, start, unknown_ends(defs, text, start, cats, cats.len() as nat).len())
    } else {
        seq![]
    }
}

/// The start node and the end node of a text of `len` bytes.
pub open spec fn boundary_nodes(len: int) -> Seq<Node> {
    let e = WordEntry { word_id: WordId(SYNTHETIC_WORD_ID), word_cost: 0, cost_id: 0 };
    seq![
        Node { node_type: NodeType::Bos, word_entry: e, path_cost: 0, left_node: None, start_index: 0, stop_index: 0, num_chars: 0, kanji_only: false },
        Node { node_type: NodeType::Eos, word_entry: e, path_cost: 0, left_node: None, start_index: len as u32, stop_index: len as u32, num_chars: 0, kanji_only: false },
    ]
}

/// Some node other than the end node stops at byte `p`.
pub open spec fn reached(nodes: Seq<Node>, p: int) -> bool {
    exists|id: int| 0 <= id < nodes.len() && id != EOS_ID && (#[trigger] nodes[id]).stop_index == p
}

/// The nodes of the lattice of `text` once the byte positions before `start`
/// are done: the two boundary nodes, then, for each position that a node
/// reaches, its dictionary words and then its unknown words.
pub open spec fn nodes_from(
    dict: &PrefixDict,
    defs: &CharacterDefinitions,
    unk: &UnknownDictionary,
    text: Seq<u8>,
    start: nat,
) -> Seq<Node>
    decreases start,
{
    if start == 0 {
        boundary_nodes(text.len() as int)
    } else {
        let prev = nodes_from(dict, defs, unk, text, (start - 1) as nat);
        let p = start - 1;
        if reached(prev, p) {
            prev + known_nodes(dict, defs, text, p) + unknown_nodes(dict, defs, unk, text, p)
        } else {
            prev
        }
    }
}

/// A list of the nodes stopping at `j` is non-empty exactly when a node
/// other than the end node stops there.
proof fn lemma_reached_listed(nodes: Seq<Node>, j: int, n: nat)
    requires
        n <= nodes.len(),
    ensures
        ids_stopping(nodes, j, n).len() > 0 <==> exists|id: int| 0 <= id < n && id != EOS_ID && (#[trigger] nodes[id]).stop_index == j,
    decreases n,
{
    if n > 0 {
        lemma_reached_listed(nodes, j, (n - 1) as nat);
        if ids_stopping(nodes, j, (n - 1) as nat).len() > 0 {
            let id = choose|id: int| 0 <= id < n - 1 && id != EOS_ID && (#[trigger] nodes[id]).stop_index == j;
            assert(0 <= id < n);
        }
        if exists|id: int| 0 <= id < n && id != EOS_ID && (#[trigger] nodes[id]).stop_index == j {
            let id = choose|id: int| 0 <= id < n && id != EOS_ID && (#[trigger] nodes[id]).stop_index == j;
            if id < n - 1 {
                assert(exists|id2: int| 0 <= id2 < n - 1 && id2 != EOS_ID && (#[trigger] nodes[id2]).stop_index == j);
            }
        }
    }
}

/// A record that decodes to an entry is that entry.
proof fn lemma_record_at(e: WordEntry, vals: Seq<u8>, idx: int)
    requires
        record_entry(e, vals, idx),
    ensures
        e == record_at(vals, idx),
{
    let b = vals.subrange(idx * 4, idx * 4 + 4);
    assert(b[0] == vals[idx * 4] && b[1] == vals[idx * 4 + 1] && b[2] == vals[idx * 4 + 2] && b[3] == vals[idx * 4 + 3]);
}

/// Record `idx` is in the run of records that the value of `key` names.
pub open spec fn in_run(dict: &PrefixDict, key: Seq<u8>, idx: int) -> bool {
    let (offset, len) = run_of(dict.entries()[key], dict.vals());
    offset <= idx < offset + len
}

/// The categories of the character at byte `j`.
pub open spec fn categories_at(defs: &CharacterDefinitions, text: Seq<u8>, j: int) -> Seq<CategoryId> {
    defs.categories_of(code_point_at(text, j) as u32)
}

/// Unknown words start at byte `j`: its character's first category invokes
/// them, or no dictionary word starts there.
pub open spec fn unknown_invoked(dict: &PrefixDict, defs: &CharacterDefinitions, text: Seq<u8>, j: int) -> bool {
    defs.category_definitions@[categories_at(defs, text, j)[0].0 as int].invoke || prefix_matches(
        dict.entries(),
        dict.vals(),
        text.subrange(j, text.len() as int),
        (text.len() - j) as nat,
    ).len() == 0
}

/// Appending nodes keeps the unknown-word edges of a lattice.
proof fn lemma_unknown_complete_kept(
    v: LatticeView,
    w: LatticeView,
    dict: &PrefixDict,
    defs: &CharacterDefinitions,
    unk: &UnknownDictionary,
    text: Seq<u8>,
    upto: int,
)
    requires
        v.unknown_complete(dict, defs, unk, text, upto),
        w.nodes.len() >= v.nodes.len(),
        forall|id: int| 0 <= id < v.nodes.len() ==> #[trigger] w.nodes[id] == v.nodes[id],
        forall|j: int| 0 <= j < upto && j < text.len() ==> #[trigger] w.ends_at[j] == v.ends_at[j],
    ensures
        w.unknown_complete(dict, defs, unk, text, upto),
{
    assert forall|j: int, a: int, b: int|
        0 <= j < upto && j < text.len() && w.ends_at[j].len() > 0 && unknown_invoked(dict, defs, text, j)
            && 0 <= a < unknown_ends(defs, text, j, categories_at(defs, text, j), categories_at(defs, text, j).len() as nat).len()
            && 0 <= b < unk.entries_for(categories_at(defs, text, j)[0].0 as int).len()
            implies #[trigger] w.unknown_match(defs, unk, text, j, a, b) by {
        assert(w.ends_at[j] == v.ends_at[j]);
        assert(v.unknown_match(defs, unk, text, j, a, b));
        let cats = categories_at(defs, text, j);
        let ends = unknown_ends(defs, text, j, cats, cats.len() as nat);
        let e = unk.entries_for(cats[0].0 as int)[b];
        let id = choose|id: int| 2 <= id < v.nodes.len() && #[trigger] v.unknown_at(id, j, ends[a] as int, e);
        assert(w.unknown_at(id, j, ends[a] as int, e));
    }
}

/// Appending nodes keeps the edges of a lattice, and the lists that stop
/// before `upto`, hence its completeness before `upto`.
proof fn lemma_known_complete_kept(v: LatticeView, w: LatticeView, dict: &PrefixDict, text: Seq<u8>, upto: int)
    requires
        v.known_complete(dict, text, upto),
        w.nodes.len() >= v.nodes.len(),
        forall|id: int| 0 <= id < v.nodes.len() ==> #[trigger] w.nodes[id] == v.nodes[id],
        forall|j: int| 0 <= j < upto && j < text.len() ==> #[trigger] w.ends_at[j] == v.ends_at[j],
    ensures
        w.known_complete(dict, text, upto),
{
    assert forall|j: int, k: int|
        0 <= j < upto && j < text.len() && w.ends_at[j].len() > 0 && 0 <= k < prefix_matches(
            dict.entries(),
            dict.vals(),
            text.subrange(j, text.len() as int),
            (text.len() - j) as nat,
        ).len() implies #[trigger] w.known_match(dict, text, j, k) by {
        assert(w.ends_at[j] == v.ends_at[j]);
        assert(v.known_match(dict, text, j, k));
        let m = prefix_matches(dict.entries(), dict.vals(), text.subrange(j, text.len() as int), (text.len() - j) as nat)[k];
        let id = choose|id: int| 2 <= id < v.nodes.len() && #[trigger] v.known_at(id, j, j + m.0, m.1);
        assert(w.known_at(id, j, j + m.0, m.1));
    }
}

/// The ids below `n` of the nodes that start at byte `i`, in order; the
/// start node is in no such list.
pub open spec fn ids_starting(nodes: Seq<Node>, i: int, n: nat) -> Seq<NodeId>
    decreases n,
{
    if n == 0 {
        seq![]
    } else {
        let p = ids_starting(nodes, i, (n - 1) as nat);
        if n - 1 != BOS_ID && nodes[n - 1].start_index == i {
            p.push(NodeId((n - 1) as u32))
        } else {
            p
        }
    }
}

/// The ids below `n` of the nodes that stop at byte `j`, in order; the end
/// node is in no such list.
pub open spec fn ids_stopping(nodes: Seq<Node>, j: int, n: nat) -> Seq<NodeId>
    decreases n,
{
    if n == 0 {
        seq![]
    } else {
        let p = ids_stopping(nodes, j, (n - 1) as nat);
        if n - 1 != EOS_ID && nodes[n - 1].stop_index == j {
            p.push(NodeId((n - 1) as u32))
        } else {
            p
        }
    }
}

/// The lists depend on the spans of the first `n` nodes only.
proof fn lemma_ids_frame(a: Seq<Node>, b: Seq<Node>, i: int, n: nat)
    requires
        n <= a.len(),
        n <= b.len(),
        forall|k: int| 0 <= k < n ==> (#[trigger] a[k]).start_index == b[k].start_index && a[k].stop_index == b[k].stop_index,
    ensures
        ids_starting(a, i, n) == ids_starting(b, i, n),
        ids_stopping(a, i, n) == ids_stopping(b, i, n),
    decreases n,
{
    if n > 0 {
        lemma_ids_frame(a, b, i, (n - 1) as nat);
        assert(a[n - 1].start_index == b[n - 1].start_index);
    }
}

/// Appending a node to the lists of its start and stop keeps the lists exact.
proof fn lemma_lists_push(v: LatticeView, w: LatticeView, node: Node)
    requires
        v.lists_exact(),
        v.wf(),
        v.nodes.len() < 0xFFFF_FFFF,
        node.start_index < node.stop_index <= v.text_len(),
        w.nodes == v.nodes.push(node),
        w.starts_at == v.starts_at.update(
            node.start_index as int,
            v.starts_at[node.start_index as int].push(NodeId(v.nodes.len() as u32)),
        ),
        w.ends_at == v.ends_at.update(
            node.stop_index as int,
            v.ends_at[node.stop_index as int].push(NodeId(v.nodes.len() as u32)),
        ),
    ensures
        w.lists_exact(),
{
    let n = v.nodes.len() as nat;
    assert forall|k: int| 0 <= k < n implies (#[trigger] w.nodes[k]).start_index == v.nodes[k].start_index
        && w.nodes[k].stop_index == v.nodes[k].stop_index by {}
    assert forall|i: int| 0 <= i < w.starts_at.len() implies #[trigger] w.starts_at[i] == ids_starting(
        w.nodes,
        i,
        w.nodes.len() as nat,
    ) by {
        lemma_ids_frame(w.nodes, v.nodes, i, n);
        assert(v.starts_at[i] == ids_starting(v.nodes, i, n));
    }
    assert forall|j: int| 0 <= j < w.ends_at.len() implies #[trigger] w.ends_at[j] == ids_stopping(
        w.nodes,
        j,
        w.nodes.len() as nat,
    ) by {
        lemma_ids_frame(w.nodes, v.nodes, j, n);
        assert(v.ends_at[j] == ids_stopping(v.nodes, j, n));
    }
}

/// The start node is in the list of nodes stopping at `0`.
proof fn lemma_bos_listed(nodes: Seq<Node>, n: nat)
    requires
        1 <= n <= nodes.len(),
        nodes[0].stop_index == 0,
    ensures
        ids_stopping(nodes, 0, n).len() >= 1,
    decreases n,
{
    if n > 1 {
        lemma_bos_listed(nodes, (n - 1) as nat);
    } else {
        assert(ids_stopping(nodes, 0, 0) == Seq::<NodeId>::empty());
    }
}

/// A lattice whose edges and lists are those of another keeps what is said
/// of them: their origin, their measures, and completeness.
pub proof fn lemma_same_edges_keep(
    v: LatticeView,
    w: LatticeView,
    dict: &PrefixDict,
    defs: &CharacterDefinitions,
    unk: &UnknownDictionary,
    text: Seq<u8>,
)
    requires
        v.nodes.len() >= 2,
        w.nodes.len() == v.nodes.len(),
        w.ends_at == v.ends_at,
        forall|id: int| 0 <= id < v.nodes.len() ==> same_edge(#[trigger] w.nodes[id], v.nodes[id]),
    ensures
        v.edges_from(dict, unk, text) ==> w.edges_from(dict, unk, text),
        v.spans_measured(defs, text) ==> w.spans_measured(defs, text),
        v.known_complete(dict, text, text.len() as int) ==> w.known_complete(dict, text, text.len() as int),
        v.unknown_complete(dict, defs, unk, text, text.len() as int) ==> w.unknown_complete(
            dict,
            defs,
            unk,
            text,
            text.len() as int,
        ),
        v.edges_reached() ==> w.edges_reached(),
        v.unknown_sound(dict, defs, unk, text) ==> w.unknown_sound(dict, defs, unk, text),
        (v.lists_exact() && w.starts_at == v.starts_at) ==> w.lists_exact(),
{
    if v.lists_exact() && w.starts_at == v.starts_at {
        assert forall|i: int| 0 <= i < w.starts_at.len() implies #[trigger] w.starts_at[i] == ids_starting(
            w.nodes,
            i,
            w.nodes.len() as nat,
        ) by {
            assert forall|k: int| 0 <= k < v.nodes.len() implies (#[trigger] w.nodes[k]).start_index == v.nodes[k].start_index
                && w.nodes[k].stop_index == v.nodes[k].stop_index by {
                assert(same_edge(w.nodes[k], v.nodes[k]));
            }
            lemma_ids_frame(w.nodes, v.nodes, i, v.nodes.len() as nat);
        }
        assert forall|j: int| 0 <= j < w.ends_at.len() implies #[trigger] w.ends_at[j] == ids_stopping(
            w.nodes,
            j,
            w.nodes.len() as nat,
        ) by {
            assert forall|k: int| 0 <= k < v.nodes.len() implies (#[trigger] w.nodes[k]).start_index == v.nodes[k].start_index
                && w.nodes[k].stop_index == v.nodes[k].stop_index by {
                assert(same_edge(w.nodes[k], v.nodes[k]));
            }
            lemma_ids_frame(w.nodes, v.nodes, j, v.nodes.len() as nat);
        }
    }
    if v.edges_reached() {
        assert forall|id: int| 2 <= id < w.nodes.len() implies w.ends_at[(#[trigger] w.nodes[id]).start_index as int].len() > 0 by {
            assert(same_edge(w.nodes[id], v.nodes[id]));
            assert(v.ends_at[v.nodes[id].start_index as int].len() > 0);
        }
    }
    if v.unknown_sound(dict, defs, unk, text) {
        assert forall|id: int| 2 <= id < w.nodes.len() && (#[trigger] w.nodes[id]).node_type == NodeType::Unknown implies {
            let n = w.nodes[id];
            let j = n.start_index as int;
            let cats = categories_at(defs, text, j);
            &&& unknown_invoked(dict, defs, text, j)
            &&& unknown_ends(defs, text, j, cats, cats.len() as nat).contains(n.stop_index as usize)
            &&& unk.entries_for(cats[0].0 as int).contains(n.word_entry)
        } by {
            assert(same_edge(w.nodes[id], v.nodes[id]));
            assert(v.nodes[id].node_type == NodeType::Unknown);
        }
    }
    assert(same_edge(w.nodes[0], v.nodes[0]));
    assert(same_edge(w.nodes[1], v.nodes[1]));
    if v.edges_from(dict, unk, text) {
        assert forall|id: int| 2 <= id < w.nodes.len() implies #[trigger] w.edge_from(id, dict, unk, text) by {
            assert(v.edge_from(id, dict, unk, text));
            assert(same_edge(w.nodes[id], v.nodes[id]));
        }
    }
    if v.spans_measured(defs, text) {
        assert forall|id: int| 2 <= id < w.nodes.len() implies {
            let n = #[trigger] w.nodes[id];
            &&& n.num_chars == char_count(text, n.start_index as int, n.stop_index as int)
            &&& n.kanji_only == kanji_span(defs, text, n.start_index as int, n.stop_index as int)
        } by {
            assert(same_edge(w.nodes[id], v.nodes[id]));
        }
    }
    if v.known_complete(dict, text, text.len() as int) {
        assert forall|j: int, k: int|
            0 <= j < text.len() && j < text.len() && w.ends_at[j].len() > 0 && 0 <= k < prefix_matches(
                dict.entries(),
                dict.vals(),
                text.subrange(j, text.len() as int),
                (text.len() - j) as nat,
            ).len() implies #[trigger] w.known_match(dict, text, j, k) by {
            assert(v.known_match(dict, text, j, k));
            let m = prefix_matches(dict.entries(), dict.vals(), text.subrange(j, text.len() as int), (text.len() - j) as nat)[k];
            let id = choose|id: int| 2 <= id < v.nodes.len() && #[trigger] v.known_at(id, j, j + m.0, m.1);
            assert(same_edge(w.nodes[id], v.nodes[id]));
            assert(w.known_at(id, j, j + m.0, m.1));
        }
    }
    if v.unknown_complete(dict, defs, unk, text, text.len() as int) {
        assert forall|j: int, a: int, b: int|
            0 <= j < text.len() && j < text.len() && w.ends_at[j].len() > 0 && unknown_invoked(dict, defs, text, j)
                && 0 <= a < unknown_ends(defs, text, j, categories_at(defs, text, j), categories_at(defs, text, j).len() as nat).len()
                && 0 <= b < unk.entries_for(categories_at(defs, text, j)[0].0 as int).len()
                implies #[trigger] w.unknown_match(defs, unk, text, j, a, b) by {
            assert(v.unknown_match(defs, unk, text, j, a, b));
            let cats = categories_at(defs, text, j);
            let ends = unknown_ends(defs, text, j, cats, cats.len() as nat);
            let e = unk.entries_for(cats[0].0 as int)[b];
            let id = choose|id: int| 2 <= id < v.nodes.len() && #[trigger] v.unknown_at(id, j, ends[a] as int, e);
            assert(same_edge(w.nodes[id], v.nodes[id]));
            assert(w.unknown_at(id, j, ends[a] as int, e));
        }
    }
}

/// Where both dictionaries keep their context ids below `bound`, so does a
/// lattice built from them.
pub proof fn lemma_edges_cost_ids(v: LatticeView, dict: &PrefixDict, unk: &UnknownDictionary, text: Seq<u8>, bound: int)
    requires
        v.nodes.len() >= 2,
        v.edges_from(dict, unk, text),
        dict.cost_ids_below(bound),
        unk.cost_ids_below(bound),
        bound >= 1,
    ensures
        v.cost_ids_below(bound),
{
    assert forall|id: int| 0 <= id < v.nodes.len() implies (#[trigger] v.nodes[id]).word_entry.cost_id < bound by {
        if id >= 2 {
            assert(v.edge_from(id, dict, unk, text));
            let e = v.nodes[id].word_entry;
            if v.nodes[id].node_type == NodeType::Known {
                let idx = e.word_id.0 as int;
                let vals = dict.vals();
                assert(vals.subrange(idx * 4, idx * 4 + 4)[2] == vals[idx * 4 + 2]);
                assert(vals.subrange(idx * 4, idx * 4 + 4)[3] == vals[idx * 4 + 3]);
                assert(le_u16(vals[idx * 4 + 2], vals[idx * 4 + 3]) < bound);
            } else {
                let k = choose|k: int| 0 <= k < unk.entries().len() && unk.entries()[k] == e;
                assert(unk.entries()[k].cost_id < bound);
            }
        }
    }
}

impl Lattice {
    /// Builds the lattice of `text`: at each byte position that some edge
    /// reaches, an edge for every dictionary word that starts there, and
    /// unknown-word edges where the first character's category invokes them
    /// or no dictionary word starts there.
    pub fn set_text(
        &mut self,
        dict: &PrefixDict,
        char_definitions: &CharacterDefinitions,
        unknown_dictionary: &UnknownDictionary,
        text: &str,
    )
        requires
            text.spec_bytes().len() < 0xFFFF_FFFF,
            char_definitions.wf(),
            unknown_dictionary.wf(),
        ensures
            final(self)@.wf(),
            final(self)@.text_len() == text.spec_bytes().len(),
            final(self)@.unlinked(),
            final(self)@.nodes[0].path_cost == 0,
            final(self)@.edges_from(dict, unknown_dictionary, text.spec_bytes()),
            final(self)@.spans_measured(char_definitions, text.spec_bytes()),
            final(self)@.lists_exact(),
            final(self)@.ends_at[0].len() > 0,
            final(self)@.nodes.len() < 0xFFFF_FFFF ==> final(self)@.nodes == nodes_from(
                dict,
                char_definitions,
                unknown_dictionary,
                text.spec_bytes(),
                text.spec_bytes().len() as nat,
            ),
            final(self)@.edges_reached(),
            final(self)@.unknown_sound(dict, char_definitions, unknown_dictionary, text.spec_bytes()),
            final(self)@.nodes.len() < 0xFFFF_FFFF ==> final(self)@.known_complete(
                dict,
                text.spec_bytes(),
                text.spec_bytes().len() as int,
            ),
            final(self)@.nodes.len() < 0xFFFF_FFFF ==> final(self)@.unknown_complete(
                dict,
                char_definitions,
                unknown_dictionary,
                text.spec_bytes(),
                text.spec_bytes().len() as int,
            ),
    {
        let bytes = text.as_bytes();
        let len = bytes.len();
        self.reset(len);
        let kanji = category_by_name(char_definitions, "KANJI");
        proof {
            assert(self@.spans_measured(char_definitions, bytes@));
            assert(self@.edges_reached());
            assert(self@.unknown_sound(dict, char_definitions, unknown_dictionary, bytes@));
        }
        let mut cats: Vec<CategoryId> = Vec::new();
        let mut start: usize = 0;
        while start < len
            invariant
                bytes@ == text.spec_bytes(),
                len == bytes@.len(),
                len < 0xFFFF_FFFF,
                start <= len,
                char_definitions.wf(),
                unknown_dictionary.wf(),
                self@.wf(),
                self@.text_len() == len,
                self@.unlinked(),
                self@.nodes[0].path_cost == 0,
                self@.edges_from(dict, unknown_dictionary, bytes@),
                kanji == named_from(char_definitions, "KANJI".spec_bytes(), 0),
                self@.spans_measured(char_definitions, bytes@),
                self@.lists_exact(),
                self@.edges_reached(),
                self@.unknown_sound(dict, char_definitions, unknown_dictionary, bytes@),
                self@.ends_at.len() == len + 1,
                self@.nodes.len() < 0xFFFF_FFFF ==> self@.known_complete(dict, bytes@, start as int),
                self@.nodes.len() < 0xFFFF_FFFF ==> self@.unknown_complete(dict, char_definitions, unknown_dictionary, bytes@, start as int),
                self@.nodes.len() < 0xFFFF_FFFF ==> self@.nodes == nodes_from(dict, char_definitions, unknown_dictionary, bytes@, start as nat),
            decreases len - start,
        {
            proof {
                assert(self@.ends_at[start as int] == self.ends_at@[start as int]@);
            }
            let ghost e0 = self@.ends_at;
            let ghost base = nodes_from(dict, char_definitions, unknown_dictionary, bytes@, start as nat);
            let ghost kn = known_nodes(dict, char_definitions, bytes@, start as int);
            let ghost un = unknown_nodes(dict, char_definitions, unknown_dictionary, bytes@, start as int);
            proof {
                lemma_reached_listed(self@.nodes, start as int, self@.nodes.len() as nat);
                assert(self@.ends_at[start as int] == ids_stopping(self@.nodes, start as int, self@.nodes.len() as nat));
                assert((self@.ends_at[start as int].len() > 0) == reached(self@.nodes, start as int));
            }
            if self.ends_at[start].len() > 0 {
                let suffix = &bytes[start..len];
                let matches = dict.prefix(suffix);
                proof {
                    lemma_prefix_sound(dict.entries(), dict.vals(), suffix@, suffix@.len() as nat);
                    assert(suffix@ == bytes@.subrange(start as int, bytes@.len() as int));
                    assert(kn.subrange(0, 0) =~= Seq::<Node>::empty());
                    assert(base + kn.subrange(0, 0) =~= base);
                }
                let mut k: usize = 0;
                while k < matches.len()
                    invariant
                        bytes@ == text.spec_bytes(),
                        len == bytes@.len(),
                        len < 0xFFFF_FFFF,
                        start < len,
                        suffix@ == bytes@.subrange(start as int, len as int),
                        char_definitions.wf(),
                        unknown_dictionary.wf(),
                        self@.wf(),
                        self@.text_len() == len,
                        self@.unlinked(),
                        self@.nodes[0].path_cost == 0,
                        self@.edges_from(dict, unknown_dictionary, bytes@),
                kanji == named_from(char_definitions, "KANJI".spec_bytes(), 0),
                self@.spans_measured(char_definitions, bytes@),
                self@.lists_exact(),
                self@.edges_reached(),
                self@.unknown_sound(dict, char_definitions, unknown_dictionary, bytes@),
                        matches@.len() == prefix_matches(dict.entries(), dict.vals(), suffix@, suffix@.len() as nat).len(),
                        kn == known_nodes(dict, char_definitions, bytes@, start as int),
                        kn.len() == matches@.len(),
                        self@.nodes.len() < 0xFFFF_FFFF ==> self@.nodes == base + kn.subrange(0, k as int),
                        self@.nodes.len() < 0xFFFF_FFFF ==> (reached(base, start as int) <==> e0[start as int].len() > 0),
                        forall|q: int| 0 <= q < matches@.len() ==> {
                            let m = #[trigger] prefix_matches(dict.entries(), dict.vals(), suffix@, suffix@.len() as nat)[q];
                            &&& matches@[q].0 == m.0
                            &&& record_entry(matches@[q].1, dict.vals(), m.1)
                        },
                        forall|q: int| 0 <= q < matches@.len() ==> {
                            let m = #[trigger] prefix_matches(dict.entries(), dict.vals(), suffix@, suffix@.len() as nat)[q];
                            &&& 1 <= m.0 <= suffix@.len()
                            &&& at_boundary(suffix@, m.0 as int)
                            &&& dict.entries().contains_key(suffix@.subrange(0, m.0 as int))
                            &&& run_of(dict.entries()[suffix@.subrange(0, m.0 as int)], dict.vals()).0 <= m.1
                            &&& m.1 < run_of(dict.entries()[suffix@.subrange(0, m.0 as int)], dict.vals()).0
                                + run_of(dict.entries()[suffix@.subrange(0, m.0 as int)], dict.vals()).1
                        },
                        self@.ends_at.len() == len + 1,
                        e0.len() == len + 1,
                        e0[start as int].len() > 0,
                        forall|j: int| 0 <= j <= start ==> #[trigger] self@.ends_at[j] == e0[j],
                        k <= matches@.len(),
                        self@.nodes.len() < 0xFFFF_FFFF ==> self@.known_complete(dict, bytes@, start as int),
                        self@.nodes.len() < 0xFFFF_FFFF ==> self@.unknown_complete(dict, char_definitions, unknown_dictionary, bytes@, start as int),
                        self@.nodes.len() < 0xFFFF_FFFF ==> forall|q: int| 0 <= q < k ==> #[trigger] self@.known_match(dict, bytes@, start as int, q),
                    decreases matches@.len() - k,
                {
                    let (plen, entry) = matches[k];
                    let ghost m = prefix_matches(dict.entries(), dict.vals(), suffix@, suffix@.len() as nat)[k as int];
                    let stop = start + plen;
                    let (num_chars, kanji_only) = span_chars(bytes, start, stop, char_definitions, kanji);
                    let node = Node {
                        node_type: NodeType::Known,
                        word_entry: entry,
                        path_cost: 0,
                        left_node: None,
                        start_index: start as u32,
                        stop_index: stop as u32,
                        num_chars,
                        kanji_only,
                    };
                    let ghost v = self@;
                    self.add_node_in_lattice(node);
                    proof {
                        assert(suffix@.subrange(0, plen as int) =~= bytes@.subrange(start as int, stop as int));
                        if plen < suffix@.len() {
                            assert(suffix@[plen as int] == bytes@[stop as int]);
                        }
                        self.lemma_edges_kept(v, node, dict, unknown_dictionary, bytes@);
                        self.lemma_measured_kept(v, node, char_definitions, bytes@);
                        reveal(LatticeView::wf_nodes);
                        self.lemma_sound_kept(v, node, dict, char_definitions, unknown_dictionary, bytes@);
                        let w = self@;
                        if w.nodes.len() < 0xFFFF_FFFF {
                            lemma_record_at(entry, dict.vals(), m.1);
                            assert(suffix@ == bytes@.subrange(start as int, bytes@.len() as int));
                            assert(node == kn[k as int]);
                            assert(w.nodes =~= v.nodes.push(node));
                            assert(kn.subrange(0, k + 1) =~= kn.subrange(0, k as int).push(kn[k as int]));
                            assert(w.nodes =~= base + kn.subrange(0, k + 1));
                            assert forall|j: int| 0 <= j < start && j < bytes@.len() implies #[trigger] w.ends_at[j] == v.ends_at[j] by {}
                            lemma_known_complete_kept(v, w, dict, bytes@, start as int);
                            lemma_unknown_complete_kept(v, w, dict, char_definitions, unknown_dictionary, bytes@, start as int);
                            assert(suffix@ == bytes@.subrange(start as int, bytes@.len() as int));
                            let id = v.nodes.len() as int;
                            assert(w.known_at(id, start as int, start + m.0, m.1));
                            assert forall|q: int| 0 <= q < k + 1 implies #[trigger] w.known_match(dict, bytes@, start as int, q) by {
                                if q < k {
                                    assert(v.known_match(dict, bytes@, start as int, q));
                                    let mq = prefix_matches(dict.entries(), dict.vals(), suffix@, suffix@.len() as nat)[q];
                                    let idq = choose|idq: int| 2 <= idq < v.nodes.len() && #[trigger] v.known_at(idq, start as int, start + mq.0, mq.1);
                                    assert(w.known_at(idq, start as int, start + mq.0, mq.1));
                                } else {
                                    assert(w.known_at(id, start as int, start + m.0, m.1));
                                }
                            }
                        }
                    }
                    k = k + 1;
                }
                proof {
                    if self@.nodes.len() < 0xFFFF_FFFF {
                        let w = self@;
                        assert forall|j: int, q: int|
                            0 <= j < start + 1 && j < bytes@.len() && w.ends_at[j].len() > 0 && 0 <= q < prefix_matches(
                                dict.entries(),
                                dict.vals(),
                                bytes@.subrange(j, bytes@.len() as int),
                                (bytes@.len() - j) as nat,
                            ).len() implies #[trigger] w.known_match(dict, bytes@, j, q) by {
                            if j == start {
                                assert(suffix@ == bytes@.subrange(start as int, bytes@.len() as int));
                            }
                        }
                    }
                }
                proof {
                    assert(kn.subrange(0, kn.len() as int) =~= kn);
                }
                let (cp, _) = char_at(bytes, start);
                cats.clear();
                char_definitions.lookup_code_point(cp, &mut cats);
                let c0 = cats[0];
                let data0 = char_definitions.lookup_definition(c0);
                proof {
                    assert(cats@ == categories_at(char_definitions, bytes@, start as int));
                    assert(suffix@ == bytes@.subrange(start as int, bytes@.len() as int));
                    assert((data0.invoke || matches@.len() == 0) == unknown_invoked(dict, char_definitions, bytes@, start as int));
                }
                if data0.invoke || matches.len() == 0 {
                    let spans = unknown_spans(bytes, start, char_definitions, &cats);
                    let entries = unknown_dictionary.word_entries_for(c0);
                    proof {
                        assert(unknown_nodes_upto(char_definitions, unknown_dictionary, bytes@, start as int, 0) == Seq::<Node>::empty());
                        assert(base + kn + Seq::<Node>::empty() =~= base + kn);
                    }
                    let mut j: usize = 0;
                    while j < spans.len()
                        invariant
                            bytes@ == text.spec_bytes(),
                            len == bytes@.len(),
                            len < 0xFFFF_FFFF,
                            start < len,
                            char_definitions.wf(),
                            unknown_dictionary.wf(),
                            self@.wf(),
                            self@.text_len() == len,
                            self@.unlinked(),
                            self@.nodes[0].path_cost == 0,
                            self@.edges_from(dict, unknown_dictionary, bytes@),
                kanji == named_from(char_definitions, "KANJI".spec_bytes(), 0),
                self@.spans_measured(char_definitions, bytes@),
                self@.lists_exact(),
                self@.edges_reached(),
                self@.unknown_sound(dict, char_definitions, unknown_dictionary, bytes@),
                            forall|q: int| 0 <= q < spans@.len() ==> start < #[trigger] spans@[q] <= len,
                            entries@ == unknown_dictionary.entries_for(c0.0 as int),
                            self@.ends_at.len() == len + 1,
                            e0.len() == len + 1,
                            forall|j2: int| 0 <= j2 <= start ==> #[trigger] self@.ends_at[j2] == e0[j2],
                            self@.nodes.len() < 0xFFFF_FFFF ==> self@.known_complete(dict, bytes@, start + 1),
                            self@.nodes.len() < 0xFFFF_FFFF ==> self@.unknown_complete(dict, char_definitions, unknown_dictionary, bytes@, start as int),
                            spans@ == unknown_ends(char_definitions, bytes@, start as int, cats@, cats@.len() as nat),
                            cats@ == categories_at(char_definitions, bytes@, start as int),
                            c0 == cats@[0],
                            j <= spans@.len(),
                            e0[start as int].len() > 0,
                            unknown_invoked(dict, char_definitions, bytes@, start as int),
                            self@.nodes.len() < 0xFFFF_FFFF ==> self@.nodes == base + kn + unknown_nodes_upto(
                                char_definitions,
                                unknown_dictionary,
                                bytes@,
                                start as int,
                                j as nat,
                            ),
                            self@.nodes.len() < 0xFFFF_FFFF ==> (reached(base, start as int) <==> e0[start as int].len() > 0),
                            kn == known_nodes(dict, char_definitions, bytes@, start as int),
                            un == unknown_nodes(dict, char_definitions, unknown_dictionary, bytes@, start as int),
                            self@.nodes.len() < 0xFFFF_FFFF ==> forall|a: int, b: int| 0 <= a < j && 0 <= b < entries@.len()
                                ==> #[trigger] self@.unknown_match(char_definitions, unknown_dictionary, bytes@, start as int, a, b),
                        decreases spans@.len() - j,
                    {
                        let stop = spans[j];
                        let (num_chars, kanji_only) = span_chars(bytes, start, stop, char_definitions, kanji);
                        let ghost upto = unknown_nodes_upto(char_definitions, unknown_dictionary, bytes@, start as int, j as nat);
                        proof {
                            let row = entries@.map_values(
                                |e: WordEntry| edge_node(NodeType::Unknown, e, start as int, stop as int, char_definitions, bytes@),
                            );
                            assert(base + kn + upto + row.subrange(0, 0) =~= base + kn + upto);
                        }
                        let mut q: usize = 0;
                        while q < entries.len()
                            invariant
                                bytes@ == text.spec_bytes(),
                                len == bytes@.len(),
                                start < stop <= len,
                                len < 0xFFFF_FFFF,
                                1 <= num_chars <= stop - start,
                                num_chars == char_count(bytes@, start as int, stop as int),
                                kanji_only == kanji_span(char_definitions, bytes@, start as int, stop as int),
                                unknown_dictionary.wf(),
                                self@.wf(),
                                self@.text_len() == len,
                                self@.unlinked(),
                                self@.nodes[0].path_cost == 0,
                                self@.edges_from(dict, unknown_dictionary, bytes@),
                kanji == named_from(char_definitions, "KANJI".spec_bytes(), 0),
                self@.spans_measured(char_definitions, bytes@),
                self@.lists_exact(),
                self@.edges_reached(),
                self@.unknown_sound(dict, char_definitions, unknown_dictionary, bytes@),
                                entries@ == unknown_dictionary.entries_for(c0.0 as int),
                                self@.ends_at.len() == len + 1,
                                e0.len() == len + 1,
                                forall|j2: int| 0 <= j2 <= start ==> #[trigger] self@.ends_at[j2] == e0[j2],
                                self@.nodes.len() < 0xFFFF_FFFF ==> self@.known_complete(dict, bytes@, start + 1),
                                self@.nodes.len() < 0xFFFF_FFFF ==> self@.unknown_complete(dict, char_definitions, unknown_dictionary, bytes@, start as int),
                                spans@ == unknown_ends(char_definitions, bytes@, start as int, cats@, cats@.len() as nat),
                                cats@ == categories_at(char_definitions, bytes@, start as int),
                                c0 == cats@[0],
                                j < spans@.len(),
                                stop == spans@[j as int],
                                e0[start as int].len() > 0,
                                unknown_invoked(dict, char_definitions, bytes@, start as int),
                                self@.nodes.len() < 0xFFFF_FFFF ==> self@.nodes == base + kn + unknown_nodes_upto(
                                    char_definitions,
                                    unknown_dictionary,
                                    bytes@,
                                    start as int,
                                    j as nat,
                                ) + entries@.map_values(
                                    |e: WordEntry| edge_node(NodeType::Unknown, e, start as int, stop as int, char_definitions, bytes@),
                                ).subrange(0, q as int),
                                self@.nodes.len() < 0xFFFF_FFFF ==> (reached(base, start as int) <==> e0[start as int].len() > 0),
                                q <= entries@.len(),
                                self@.nodes.len() < 0xFFFF_FFFF ==> forall|a: int, b: int| 0 <= a < j && 0 <= b < entries@.len()
                                    ==> #[trigger] self@.unknown_match(char_definitions, unknown_dictionary, bytes@, start as int, a, b),
                                self@.nodes.len() < 0xFFFF_FFFF ==> forall|b: int| 0 <= b < q
                                    ==> #[trigger] self@.unknown_match(char_definitions, unknown_dictionary, bytes@, start as int, j as int, b),
                            decreases entries@.len() - q,
                        {
                            let node = Node {
                                node_type: NodeType::Unknown,
                                word_entry: entries[q],
                                path_cost: 0,
                                left_node: None,
                                start_index: start as u32,
                                stop_index: stop as u32,
                                num_chars,
                                kanji_only,
                            };
                            let ghost v = self@;
                            self.add_node_in_lattice(node);
                            proof {
                                let c = c0.0 as int;
                                let refs = unknown_dictionary.references()[c];
                                assert(0 <= c < unknown_dictionary.references().len());
                                assert(refs[q as int] < unknown_dictionary.entries().len());
                                assert(unknown_dictionary.entries()[refs[q as int] as int] == entries@[q as int]);
                                self.lemma_edges_kept(v, node, dict, unknown_dictionary, bytes@);
                                self.lemma_measured_kept(v, node, char_definitions, bytes@);
                                reveal(LatticeView::wf_nodes);
                                assert(spans@[j as int] == stop);
                                assert(entries@[q as int] == node.word_entry);
                                self.lemma_sound_kept(v, node, dict, char_definitions, unknown_dictionary, bytes@);
                                let w = self@;
                                if w.nodes.len() < 0xFFFF_FFFF {
                                    let row = entries@.map_values(
                                        |e: WordEntry| edge_node(NodeType::Unknown, e, start as int, stop as int, char_definitions, bytes@),
                                    );
                                    assert(node == row[q as int]);
                                    assert(w.nodes =~= v.nodes.push(node));
                                    assert(row.subrange(0, q + 1) =~= row.subrange(0, q as int).push(row[q as int]));
                                    assert(w.nodes =~= base + kn + unknown_nodes_upto(
                                        char_definitions,
                                        unknown_dictionary,
                                        bytes@,
                                        start as int,
                                        j as nat,
                                    ) + row.subrange(0, q + 1));
                                    assert forall|j2: int| 0 <= j2 < start + 1 && j2 < bytes@.len() implies #[trigger] w.ends_at[j2] == v.ends_at[j2] by {}
                                    lemma_known_complete_kept(v, w, dict, bytes@, start + 1);
                                    lemma_unknown_complete_kept(v, w, dict, char_definitions, unknown_dictionary, bytes@, start as int);
                                    let id = v.nodes.len() as int;
                                    let st = start as int;
                                    assert(w.unknown_at(id, st, stop as int, entries@[q as int]));
                                    assert forall|a: int, b: int| 0 <= a < j && 0 <= b < entries@.len()
                                        implies #[trigger] w.unknown_match(char_definitions, unknown_dictionary, bytes@, st, a, b) by {
                                        assert(v.unknown_match(char_definitions, unknown_dictionary, bytes@, st, a, b));
                                        let e = entries@[b];
                                        let idx = choose|idx: int| 2 <= idx < v.nodes.len() && #[trigger] v.unknown_at(idx, st, spans@[a] as int, e);
                                        assert(w.unknown_at(idx, st, spans@[a] as int, e));
                                    }
                                    assert forall|b: int| 0 <= b < q + 1
                                        implies #[trigger] w.unknown_match(char_definitions, unknown_dictionary, bytes@, st, j as int, b) by {
                                        if b < q {
                                            assert(v.unknown_match(char_definitions, unknown_dictionary, bytes@, st, j as int, b));
                                            let e = entries@[b];
                                            let idx = choose|idx: int| 2 <= idx < v.nodes.len() && #[trigger] v.unknown_at(idx, st, stop as int, e);
                                            assert(w.unknown_at(idx, st, stop as int, e));
                                        } else {
                                            assert(w.unknown_at(id, st, stop as int, entries@[q as int]));
                                        }
                                    }
                                }
                            }
                            q = q + 1;
                        }
                        proof {
                            let row = entries@.map_values(
                                |e: WordEntry| edge_node(NodeType::Unknown, e, start as int, stop as int, char_definitions, bytes@),
                            );
                            assert(row.subrange(0, row.len() as int) =~= row);
                            assert(unknown_nodes_upto(char_definitions, unknown_dictionary, bytes@, start as int, (j + 1) as nat)
                                == upto + row);
                            assert(base + kn + upto + row =~= base + kn + (upto + row));
                        }
                        j = j + 1;
                    }
                    proof {
                        if self@.nodes.len() < 0xFFFF_FFFF {
                            assert(self@.nodes == base + kn + un);
                            let w = self@;
                            assert forall|jj: int, a: int, b: int|
                                0 <= jj < start + 1 && jj < bytes@.len() && w.ends_at[jj].len() > 0 && unknown_invoked(
                                    dict,
                                    char_definitions,
                                    bytes@,
                                    jj,
                                ) && 0 <= a < unknown_ends(
                                    char_definitions,
                                    bytes@,
                                    jj,
                                    categories_at(char_definitions, bytes@, jj),
                                    categories_at(char_definitions, bytes@, jj).len() as nat,
                                ).len() && 0 <= b < unknown_dictionary.entries_for(
                                    categories_at(char_definitions, bytes@, jj)[0].0 as int,
                                ).len() implies #[trigger] w.unknown_match(char_definitions, unknown_dictionary, bytes@, jj, a, b) by {
                                if jj == start {
                                    assert(w.unknown_match(char_definitions, unknown_dictionary, bytes@, start as int, a, b));
                                }
                            }
                        }
                    }
                } else {
                    proof {
                        if self@.nodes.len() < 0xFFFF_FFFF {
                            assert(un == Seq::<Node>::empty());
                            assert(base + kn + un =~= base + kn);
                            let w = self@;
                            assert forall|jj: int, a: int, b: int|
                                0 <= jj < start + 1 && jj < bytes@.len() && w.ends_at[jj].len() > 0 && unknown_invoked(
                                    dict,
                                    char_definitions,
                                    bytes@,
                                    jj,
                                ) && 0 <= a < unknown_ends(
                                    char_definitions,
                                    bytes@,
                                    jj,
                                    categories_at(char_definitions, bytes@, jj),
                                    categories_at(char_definitions, bytes@, jj).len() as nat,
                                ).len() && 0 <= b < unknown_dictionary.entries_for(
                                    categories_at(char_definitions, bytes@, jj)[0].0 as int,
                                ).len() implies #[trigger] w.unknown_match(char_definitions, unknown_dictionary, bytes@, jj, a, b) by {
                                assert(jj != start);
                            }
                        }
                    }
                }
            }
            proof {
                if self@.nodes.len() < 0xFFFF_FFFF {
                    let w = self@;
                    assert forall|j: int, q: int|
                        0 <= j < start + 1 && j < bytes@.len() && w.ends_at[j].len() > 0 && 0 <= q < prefix_matches(
                            dict.entries(),
                            dict.vals(),
                            bytes@.subrange(j, bytes@.len() as int),
                            (bytes@.len() - j) as nat,
                        ).len() implies #[trigger] w.known_match(dict, bytes@, j, q) by {
                        if j == start {
                            assert(w.ends_at[j] == e0[j]);
                        }
                    }
                    if e0[start as int].len() > 0 {
                        assert(w.nodes == base + kn + un);
                    } else {
                        assert(w.nodes == base);
                    }
                    assert(w.nodes == nodes_from(dict, char_definitions, unknown_dictionary, bytes@, (start + 1) as nat));
                    assert forall|jj: int, a: int, b: int|
                        0 <= jj < start + 1 && jj < bytes@.len() && w.ends_at[jj].len() > 0 && unknown_invoked(
                            dict,
                            char_definitions,
                            bytes@,
                            jj,
                        ) && 0 <= a < unknown_ends(
                            char_definitions,
                            bytes@,
                            jj,
                            categories_at(char_definitions, bytes@, jj),
                            categories_at(char_definitions, bytes@, jj).len() as nat,
                        ).len() && 0 <= b < unknown_dictionary.entries_for(
                            categories_at(char_definitions, bytes@, jj)[0].0 as int,
                        ).len() implies #[trigger] w.unknown_match(char_definitions, unknown_dictionary, bytes@, jj, a, b) by {
                        if jj == start {
                            assert(w.ends_at[jj] == e0[jj]);
                        }
                    }
                }
            }
            start = start + 1;
        }
        proof {
            let v = self@;
            lemma_bos_listed(v.nodes, v.nodes.len() as nat);
            assert(v.ends_at[0] == ids_stopping(v.nodes, 0, v.nodes.len() as nat));
        }
    }

    /// Adding an edge from a reached position keeps every edge reached, and an
    /// unknown-word edge that is sound keeps every such edge sound.
    proof fn lemma_sound_kept(
        &self,
        v: LatticeView,
        node: Node,
        dict: &PrefixDict,
        defs: &CharacterDefinitions,
        unk: &UnknownDictionary,
        text: Seq<u8>,
    )
        requires
            v.edges_reached(),
            v.unknown_sound(dict, defs, unk, text),
            self@.nodes.len() >= v.nodes.len(),
            self@.ends_at.len() == v.ends_at.len(),
            forall|id: int| 0 <= id < v.nodes.len() ==> #[trigger] self@.nodes[id] == v.nodes[id],
            forall|id: int| v.nodes.len() <= id < self@.nodes.len() ==> #[trigger] self@.nodes[id] == node,
            forall|i: int| 0 <= i < v.ends_at.len() ==> (#[trigger] self@.ends_at[i]).len() >= v.ends_at[i].len(),
            v.wf(),
            0 <= node.start_index < v.ends_at.len(),
            self@.ends_at[node.start_index as int].len() > 0,
            node.node_type == NodeType::Unknown ==> {
                let j = node.start_index as int;
                let cats = categories_at(defs, text, j);
                &&& unknown_invoked(dict, defs, text, j)
                &&& unknown_ends(defs, text, j, cats, cats.len() as nat).contains(node.stop_index as usize)
                &&& unk.entries_for(cats[0].0 as int).contains(node.word_entry)
            },
        ensures
            self@.edges_reached(),
            self@.unknown_sound(dict, defs, unk, text),
    {
        reveal(LatticeView::wf_nodes);
        assert forall|id: int| 2 <= id < self@.nodes.len() implies self@.ends_at[(#[trigger] self@.nodes[id]).start_index as int].len() > 0 by {
            if id < v.nodes.len() {
                assert(v.wf_node(id));
                assert(self@.nodes[id] == v.nodes[id]);
                assert(v.ends_at[v.nodes[id].start_index as int].len() > 0);
            }
        }
        assert forall|id: int| 2 <= id < self@.nodes.len() && (#[trigger] self@.nodes[id]).node_type == NodeType::Unknown implies {
            let n = self@.nodes[id];
            let j = n.start_index as int;
            let cats = categories_at(defs, text, j);
            &&& unknown_invoked(dict, defs, text, j)
            &&& unknown_ends(defs, text, j, cats, cats.len() as nat).contains(n.stop_index as usize)
            &&& unk.entries_for(cats[0].0 as int).contains(n.word_entry)
        } by {
            if id < v.nodes.len() {
                assert(self@.nodes[id] == v.nodes[id]);
            }
        }
    }

    /// Adding an edge that records its span keeps every edge so.
    proof fn lemma_measured_kept(&self, v: LatticeView, node: Node, defs: &CharacterDefinitions, text: Seq<u8>)
        requires
            v.spans_measured(defs, text),
            self@.nodes.len() >= v.nodes.len(),
            forall|id: int| 0 <= id < v.nodes.len() ==> #[trigger] self@.nodes[id] == v.nodes[id],
            forall|id: int| v.nodes.len() <= id < self@.nodes.len() ==> #[trigger] self@.nodes[id] == node,
            node.num_chars == char_count(text, node.start_index as int, node.stop_index as int),
            node.kanji_only == kanji_span(defs, text, node.start_index as int, node.stop_index as int),
        ensures
            self@.spans_measured(defs, text),
    {
        assert forall|id: int| 2 <= id < self@.nodes.len() implies {
            let n = #[trigger] self@.nodes[id];
            &&& n.num_chars == char_count(text, n.start_index as int, n.stop_index as int)
            &&& n.kanji_only == kanji_span(defs, text, n.start_index as int, n.stop_index as int)
        } by {
            if id < v.nodes.len() {
                assert(self@.nodes[id] == v.nodes[id]);
            }
        }
    }

    /// Adding an edge that comes from the dictionaries keeps every edge so.
    proof fn lemma_edges_kept(&self, v: LatticeView, node: Node, dict: &PrefixDict, unk: &UnknownDictionary, text: Seq<u8>)
        requires
            v.nodes.len() >= 2,
            v.edges_from(dict, unk, text),
            self@.nodes.len() >= v.nodes.len(),
            forall|id: int| 0 <= id < v.nodes.len() ==> #[trigger] self@.nodes[id] == v.nodes[id],
            forall|id: int| v.nodes.len() <= id < self@.nodes.len() ==> #[trigger] self@.nodes[id] == node,
            match node.node_type {
                NodeType::Known => {
                    &&& dict.entries().contains_key(text.subrange(node.start_index as int, node.stop_index as int))
                    &&& at_boundary(text, node.stop_index as int)
                    &&& record_entry(node.word_entry, dict.vals(), node.word_entry.word_id.0 as int)
                    &&& in_run(dict, text.subrange(node.start_index as int, node.stop_index as int), node.word_entry.word_id.0 as int)
                },
                NodeType::Unknown => unk.entries().contains(node.word_entry),
                _ => false,
            },
        ensures
            self@.edges_from(dict, unk, text),
    {
        assert forall|id: int| 2 <= id < self@.nodes.len() implies #[trigger] self@.edge_from(id, dict, unk, text) by {
            if id < v.nodes.len() {
                assert(v.edge_from(id, dict, unk, text));
            }
        }
    }

    /// An empty lattice; `set_text` prepares it for a text.
    pub fn new() -> (r: Lattice)
        ensures
            r@.nodes.len() == 0,
            r@.starts_at.len() == 0,
            r@.ends_at.len() == 0,
    {
        Lattice { capacity: 0, nodes: Vec::new(), starts_at: Vec::new(), ends_at: Vec::new() }
    }

    /// Empties every list, keeping the buffers.
    pub fn clear(&mut self)
        ensures
            final(self)@.nodes.len() == 0,
            final(self)@.starts_at.len() == old(self)@.starts_at.len(),
            final(self)@.ends_at.len() == old(self)@.ends_at.len(),
            forall|i: int| 0 <= i < final(self)@.starts_at.len() ==> (#[trigger] final(self)@.starts_at[i]).len() == 0,
            forall|i: int| 0 <= i < final(self)@.ends_at.len() ==> (#[trigger] final(self)@.ends_at[i]).len() == 0,
    {
        let n = self.starts_at.len();
        let ghost n_ends = self.ends_at@.len();
        let mut i: usize = 0;
        while i < n
            invariant
                n == self.starts_at@.len(),
                n_ends == self.ends_at@.len(),
                i <= n,
                forall|j: int| 0 <= j < i ==> (#[trigger] self.starts_at@[j])@.len() == 0,
            decreases n - i,
        {
            self.starts_at[i].clear();
            i = i + 1;
        }
        let m = self.ends_at.len();
        let mut i: usize = 0;
        while i < m
            invariant
                n == self.starts_at@.len(),
                m == self.ends_at@.len(),
                i <= m,
                forall|j: int| 0 <= j < n ==> (#[trigger] self.starts_at@[j])@.len() == 0,
                forall|j: int| 0 <= j < i ==> (#[trigger] self.ends_at@[j])@.len() == 0,
            decreases m - i,
        {
            self.ends_at[i].clear();
            i = i + 1;
        }
        self.nodes.clear();
    }

    /// Empties the lattice and sizes it for a text of `len` bytes, with the
    /// start node stopping at `0` and the end node starting at `len`.
    fn reset(&mut self, len: usize)
        requires
            len < 0xFFFF_FFFF,
        ensures
            final(self)@.wf(),
            final(self)@.text_len() == len,
            final(self)@.nodes.len() == 2,
            final(self)@.unlinked(),
            final(self)@.nodes[0].path_cost == 0,
            final(self)@.cost_ids_below(1),
            final(self)@.nodes[0].node_type == NodeType::Bos && final(self)@.nodes[0].word_entry.cost_id == 0,
            final(self)@.nodes[1].node_type == NodeType::Eos && final(self)@.nodes[1].word_entry.cost_id == 0,
            final(self)@.lists_exact(),
            final(self)@.nodes == boundary_nodes(len as int),
    {
        self.clear();
        proof {
            assert forall|i: int| 0 <= i < self.starts_at@.len() implies (#[trigger] self.starts_at@[i])@.len() == 0 by {
                assert(self@.starts_at[i] == self.starts_at@[i]@);
            }
            assert forall|i: int| 0 <= i < self.ends_at@.len() implies (#[trigger] self.ends_at@[i])@.len() == 0 by {
                assert(self@.ends_at[i] == self.ends_at@[i]@);
            }
        }
        while self.starts_at.len() <= len
            invariant
                forall|i: int| 0 <= i < self.starts_at@.len() ==> (#[trigger] self.starts_at@[i])@.len() == 0,
                forall|i: int| 0 <= i < self.ends_at@.len() ==> (#[trigger] self.ends_at@[i])@.len() == 0,
                self.nodes@.len() == 0,
            decreases len + 1 - self.starts_at@.len(),
        {
            self.starts_at.push(Vec::new());
        }
        self.starts_at.truncate(len + 1);
        while self.ends_at.len() <= len
            invariant
                forall|i: int| 0 <= i < self.ends_at@.len() ==> (#[trigger] self.ends_at@[i])@.len() == 0,
                forall|i: int| 0 <= i < self.starts_at@.len() ==> (#[trigger] self.starts_at@[i])@.len() == 0,
                self.starts_at@.len() == len + 1,
                self.nodes@.len() == 0,
            decreases len + 1 - self.ends_at@.len(),
        {
            self.ends_at.push(Vec::new());
        }
        self.ends_at.truncate(len + 1);
        if self.capacity < len {
            self.capacity = len;
        }
        let boundary = WordEntry::synthetic(0, 0);
        self.nodes.push(Node {
            node_type: NodeType::Bos,
            word_entry: boundary,
            path_cost: 0,
            left_node: None,
            start_index: 0,
            stop_index: 0,
            num_chars: 0,
            kanji_only: false,
        });
        self.nodes.push(Node {
            node_type: NodeType::Eos,
            word_entry: boundary,
            path_cost: 0,
            left_node: None,
            start_index: len as u32,
            stop_index: len as u32,
            num_chars: 0,
            kanji_only: false,
        });
        self.ends_at[0].push(NodeId(BOS_ID));
        self.starts_at[len].push(NodeId(EOS_ID));
        proof {
            let v = self@;
            reveal(LatticeView::wf_nodes);
            reveal(LatticeView::wf_starts);
            reveal(LatticeView::wf_ends);
            assert(v.starts_at.len() == len + 1);
            assert forall|i: int| 0 <= i < v.starts_at.len() && i != len implies #[trigger] v.starts_at[i].len() == 0 by {
                assert(v.starts_at[i] == self.starts_at@[i]@);
            }
            assert forall|i: int| 0 <= i < v.ends_at.len() && i != 0 implies #[trigger] v.ends_at[i].len() == 0 by {
                assert(v.ends_at[i] == self.ends_at@[i]@);
            }
            assert(v.starts_at[len as int] == self.starts_at@[len as int]@);
            assert(v.ends_at[0] == self.ends_at@[0]@);
            assert forall|x: int| 0 <= x < v.nodes.len() implies #[trigger] v.wf_node(x) by {}
            assert forall|i: int, k: int| 0 <= i < v.starts_at.len() && 0 <= k < v.starts_at[i].len()
                implies #[trigger] v.wf_start(i, k) by {
                if i != len {
                    assert(v.starts_at[i].len() == 0);
                }
            }
            assert forall|j: int, k: int| 0 <= j < v.ends_at.len() && 0 <= k < v.ends_at[j].len()
                implies #[trigger] v.wf_end(j, k) by {
                if j != 0 {
                    assert(v.ends_at[j].len() == 0);
                }
            }
            assert(v.nodes =~= boundary_nodes(len as int));
            assert(v.starts_at[len as int] =~= seq![NodeId(EOS_ID)]);
            assert(v.ends_at[0] =~= seq![NodeId(BOS_ID)]);
            assert(ids_starting(v.nodes, 0, 0) == Seq::<NodeId>::empty());
            assert(ids_stopping(v.nodes, 0, 0) == Seq::<NodeId>::empty());
            assert forall|i: int| 0 <= i < v.starts_at.len() implies #[trigger] v.starts_at[i] == ids_starting(
                v.nodes,
                i,
                v.nodes.len() as nat,
            ) by {
                assert(ids_starting(v.nodes, i, 0) == Seq::<NodeId>::empty());
                assert(ids_starting(v.nodes, i, 1) == Seq::<NodeId>::empty());
                if i == len {
                    assert(ids_starting(v.nodes, i, 2) =~= seq![NodeId(EOS_ID)]);
                } else {
                    assert(ids_starting(v.nodes, i, 2) =~= Seq::<NodeId>::empty());
                    assert(v.starts_at[i] =~= Seq::<NodeId>::empty());
                }
            }
            assert forall|j: int| 0 <= j < v.ends_at.len() implies #[trigger] v.ends_at[j] == ids_stopping(
                v.nodes,
                j,
                v.nodes.len() as nat,
            ) by {
                assert(ids_stopping(v.nodes, j, 0) == Seq::<NodeId>::empty());
                if j == 0 {
                    assert(ids_stopping(v.nodes, j, 1) =~= seq![NodeId(BOS_ID)]);
                } else {
                    assert(ids_stopping(v.nodes, j, 1) =~= Seq::<NodeId>::empty());
                    assert(v.ends_at[j] =~= Seq::<NodeId>::empty());
                }
            }
        }
    }

    /// Appends `node` and returns its id.
    fn add_node(&mut self, node: Node) -> (r: NodeId)
        requires
            old(self)@.nodes.len() < 0xFFFF_FFFF,
        ensures
            r.0 == old(self)@.nodes.len(),
            final(self)@.nodes == old(self)@.nodes.push(node),
            final(self)@.starts_at == old(self)@.starts_at,
            final(self)@.ends_at == old(self)@.ends_at,
    {
        let node_id = NodeId(self.nodes.len() as u32);
        self.nodes.push(node);
        node_id
    }

    /// Adds `node` as an edge of the lattice, unless the node table is full.
    fn add_node_in_lattice(&mut self, node: Node)
        requires
            old(self)@.wf(),
            node.start_index < node.stop_index <= old(self)@.text_len(),
            node.num_chars <= node.stop_index - node.start_index,
            node.left_node is None,
            node.path_cost == 0,
        ensures
            final(self)@.wf(),
            final(self)@.text_len() == old(self)@.text_len(),
            final(self)@.nodes.len() >= old(self)@.nodes.len(),
            forall|id: int| 0 <= id < old(self)@.nodes.len() ==> #[trigger] final(self)@.nodes[id] == old(self)@.nodes[id],
            forall|id: int| old(self)@.nodes.len() <= id < final(self)@.nodes.len() ==> #[trigger] final(self)@.nodes[id] == node,
            forall|i: int| 0 <= i < old(self)@.ends_at.len() ==> (#[trigger] final(self)@.ends_at[i]).len() >= old(self)@.ends_at[i].len(),
            final(self)@.ends_at.len() == old(self)@.ends_at.len(),
            forall|i: int| 0 <= i < old(self)@.ends_at.len() && i != node.stop_index
                ==> #[trigger] final(self)@.ends_at[i] == old(self)@.ends_at[i],
            final(self)@.nodes.len() <= old(self)@.nodes.len() + 1,
            old(self)@.nodes.len() < 0xFFFF_FFFF ==> final(self)@.nodes.len() == old(self)@.nodes.len() + 1,
            old(self)@.lists_exact() ==> final(self)@.lists_exact(),
    {
        if self.nodes.len() >= 0xFFFF_FFFF {
            return;
        }
        let ghost v = self@;
        let start_index = node.start_index as usize;
        let stop_index = node.stop_index as usize;
        proof {
            assert(self.starts_at@.len() == v.starts_at.len());
            assert(self.ends_at@.len() == v.ends_at.len());
        }
        let node_id = self.add_node(node);
        self.starts_at[start_index].push(node_id);
        self.ends_at[stop_index].push(node_id);
        proof {
            let w = self@;
            assert(w.starts_at =~= v.starts_at.update(start_index as int, v.starts_at[start_index as int].push(node_id)));
            assert(w.ends_at =~= v.ends_at.update(stop_index as int, v.ends_at[stop_index as int].push(node_id)));
            lemma_add_edge(v, w, node);
            if v.lists_exact() {
                lemma_lists_push(v, w, node);
            }
        }
    }

    /// The node with id `node_id`, to change in place.
    pub fn node_mut(&mut self, node_id: NodeId) -> (r: &mut Node)
        requires
            old(self)@.valid_id(node_id),
        ensures
            *r == old(self)@.node(node_id),
            final(self)@.nodes == old(self)@.nodes.update(node_id.0 as int, *final(r)),
            final(self)@.starts_at == old(self)@.starts_at,
            final(self)@.ends_at == old(self)@.ends_at,
    {
        &mut self.nodes[node_id.0 as usize]
    }

    pub fn node(&self, node_id: NodeId) -> (r: &Node)
        requires
            self@.valid_id(node_id),
        ensures
            *r == self@.node(node_id),
    {
        &self.nodes[node_id.0 as usize]
    }

    /// Cost of reaching `r` through `l`, where `l` stops where `r` starts.
    fn candidate_cost(&self, cost_matrix: &ConnectionCostMatrix, mode: &Mode, l: NodeId, r: NodeId) -> (c: i64)
        requires
            self@.wf(),
            cost_matrix.wf(),
            mode.wf(),
            self@.cost_ids_below(cost_matrix.forward() as int),
            self@.cost_ids_below(cost_matrix.backward() as int),
            self@.valid_id(l),
            self@.valid_id(r),
            l.0 != EOS_ID,
            r.0 == EOS_ID || self@.node(r).start_index < self@.node(r).stop_index,
            self@.node(l).stop_index == self@.node(r).start_index,
        ensures
            c as int == self@.candidate(*cost_matrix, *mode, l, r),
            r.0 != EOS_ID ==> -(2 * self@.node(r).stop_index + 1) * cost_unit() <= c
                <= (2 * self@.node(r).stop_index + 1) * cost_unit(),
    {
        let ln = self.node(l);
        let rn = self.node(r);
        proof {
            reveal(LatticeView::wf_nodes);
            assert(self@.wf_node(l.0 as int));
            assert(self@.wf_node(r.0 as int));
            assert(self@.nodes[l.0 as int].word_entry.cost_id < cost_matrix.forward());
            assert(self@.nodes[r.0 as int].word_entry.cost_id < cost_matrix.backward());
        }
        let conn = cost_matrix.cost(ln.word_entry.right_id(), rn.word_entry.left_id());
        let pen = mode.penalty_cost(rn);
        proof {
            lemma_candidate_bound(
                ln.path_cost as int,
                conn as int,
                rn.word_entry.word_cost as int,
                pen as int,
                rn.num_chars as int,
                rn.start_index as int,
                rn.stop_index as int,
            );
        }
        ln.path_cost + conn as i64 + rn.word_entry.word_cost as i64 + pen
    }

    /// Gives the `k`-th node starting at `i` the cheapest of the nodes that
    /// stop at `i` as predecessor.
    fn settle_node(&mut self, cost_matrix: &ConnectionCostMatrix, mode: &Mode, i: usize, k: usize)
        requires
            old(self)@.wf(),
            cost_matrix.wf(),
            mode.wf(),
            old(self)@.cost_ids_below(cost_matrix.forward() as int),
            old(self)@.cost_ids_below(cost_matrix.backward() as int),
            i < old(self)@.starts_at.len(),
            k < old(self)@.starts_at[i as int].len(),
            old(self)@.ends_at[i as int].len() > 0,
            forall|i2: int, k2: int|
                0 <= i2 <= i && 0 <= k2 < old(self)@.starts_at[i2].len() && old(self)@.ends_at[i2].len() > 0
                && (i2 < i || k2 < k) ==> #[trigger] old(self)@.settled(*cost_matrix, *mode, i2, k2),
            old(self)@.linked_by_costs(*cost_matrix, *mode, i as int),
            old(self)@.links_settled(),
        ensures
            final(self)@.wf(),
            final(self)@.linked_by_costs(*cost_matrix, *mode, i as int),
            final(self)@.links_settled(),
            final(self)@.nodes[0] == old(self)@.nodes[0],
            final(self)@.starts_at == old(self)@.starts_at,
            final(self)@.ends_at == old(self)@.ends_at,
            final(self)@.nodes.len() == old(self)@.nodes.len(),
            forall|id: int| 0 <= id < old(self)@.nodes.len()
                ==> same_edge(#[trigger] final(self)@.nodes[id], old(self)@.nodes[id]),
            forall|i2: int, k2: int|
                0 <= i2 <= i && 0 <= k2 < final(self)@.starts_at[i2].len() && final(self)@.ends_at[i2].len() > 0
                && (i2 < i || k2 <= k) ==> #[trigger] final(self)@.settled(*cost_matrix, *mode, i2, k2),
    {
        let ghost v = self@;
        proof {
            assert(v.ends_at[i as int] == self.ends_at@[i as int]@);
            assert(v.starts_at[i as int] == self.starts_at@[i as int]@);
            reveal(LatticeView::wf_starts);
            reveal(LatticeView::wf_ends);
            assert(v.wf_start(i as int, k as int));
        }
        let r = self.starts_at[i][k];
        let lefts = &self.ends_at[i];
        let n_left = lefts.len();
        let l0 = lefts[0];
        proof {
            assert(v.wf_end(i as int, 0));
        }
        let mut best_cost = self.candidate_cost(cost_matrix, mode, l0, r);
        let mut best = l0;
        let mut j: usize = 1;
        proof {
            assert(lefts@.subrange(0, 1) =~= seq![l0]);
        }
        while j < n_left
            invariant
                self@ == v,
                v.wf(),
                cost_matrix.wf(),
                mode.wf(),
                v.cost_ids_below(cost_matrix.forward() as int),
                v.cost_ids_below(cost_matrix.backward() as int),
                i < v.starts_at.len(),
                k < v.starts_at[i as int].len(),
                r == v.starts_at[i as int][k as int],
                v.wf_start(i as int, k as int),
                lefts@ == v.ends_at[i as int],
                n_left == lefts@.len(),
                1 <= j <= n_left,
                (best_cost as int, best) == v.best_left(*cost_matrix, *mode, r, lefts@.subrange(0, j as int)),
            decreases n_left - j,
        {
            let l = lefts[j];
            proof {
                reveal(LatticeView::wf_ends);
                assert(v.wf_end(i as int, j as int));
            }
            let c = self.candidate_cost(cost_matrix, mode, l, r);
            proof {
                let s = lefts@.subrange(0, j as int + 1);
                assert(s.drop_last() =~= lefts@.subrange(0, j as int));
                assert(s.last() == l);
            }
            if c < best_cost {
                best_cost = c;
                best = l;
            }
            j = j + 1;
        }
        proof {
            assert(lefts@.subrange(0, n_left as int) =~= lefts@);
            lemma_best_left_member(v, *cost_matrix, *mode, r, lefts@);
            let kb = choose|kb: int| 0 <= kb < lefts@.len() && lefts@[kb] == best;
            reveal(LatticeView::wf_ends);
            assert(v.wf_end(i as int, kb));
        }
        // Evaluated again for the bound it carries.
        let c_best = self.candidate_cost(cost_matrix, mode, best, r);
        let mut updated = self.nodes[r.0 as usize];
        updated.left_node = Some(best);
        updated.path_cost = c_best;
        self.nodes[r.0 as usize] = updated;
        proof {
            lemma_settle(v, self@, *cost_matrix, *mode, i as int, k as int, c_best);
        }
    }

    /// The start offset and word id of each token on the best path, in text
    /// order: the chain of predecessors of the end node, read back from it.
    pub fn tokens_offset(&self) -> (r: Vec<(usize, u32)>)
        requires
            self@.wf(),
        ensures
            r@ == offsets_of(backtrace(self@.nodes, EOS_ID as int, self@.nodes.len() as nat), self@.text_len()),
            is_token_cut(r@, self@.text_len()),
    {
        let ghost full = backtrace(self@.nodes, EOS_ID as int, self@.nodes.len() as nat);
        let mut rev: Vec<(usize, u32)> = Vec::new();
        let mut id: usize = EOS_ID as usize;
        let mut fuel: usize = self.nodes.len();
        let mut done = false;
        while !done
            invariant
                self@.wf(),
                id < self@.nodes.len(),
                fuel <= self@.nodes.len(),
                rev@.len() + fuel <= self@.nodes.len(),
                !done ==> backtrace(self@.nodes, id as int, fuel as nat).len() + rev@.len() == full.len(),
                !done ==> backtrace(self@.nodes, id as int, fuel as nat) == full.subrange(0, full.len() - rev@.len()),
                done ==> rev@.len() == full.len(),
                forall|k: int| 0 <= k < rev@.len() ==> #[trigger] rev@[k] == full[full.len() - 1 - k],
            decreases self@.nodes.len() - rev@.len(), (if done { 0int } else { 1int }),
        {
            if fuel == 0 {
                done = true;
            } else {
                let node = &self.nodes[id];
                match node.left_node {
                    None => {
                        done = true;
                    },
                    Some(l) => {
                        proof {
                            reveal(LatticeView::wf_nodes);
                            assert(self@.wf_node(id as int));
                            let b = backtrace(self@.nodes, id as int, fuel as nat);
                            let bl = backtrace(self@.nodes, l.0 as int, (fuel - 1) as nat);
                            assert(b == bl.push((node.start_index as usize, node.word_entry.word_id.0)));
                            assert(full[full.len() - 1 - rev@.len()] == b.last());
                            assert(bl == full.subrange(0, full.len() - rev@.len() - 1));
                        }
                        rev.push((node.start_index as usize, node.word_entry.word_id.0));
                        id = l.0 as usize;
                        fuel = fuel - 1;
                    },
                }
            }
        }
        proof {
            lemma_offsets_cut_text(self@, self@.nodes.len() as nat);
        }
        let n = rev.len();
        let mut out: Vec<(usize, u32)> = Vec::new();
        let need_zero = self.starts_at.len() > 1 && (n <= 1 || rev[n - 1].0 != 0);
        let ghost s = if full.len() > 0 { full.drop_last() } else { full };
        proof {
            assert(self@.starts_at.len() == self.starts_at@.len());
            if n >= 2 {
                assert(s[0] == full[0]);
                assert(rev@[n - 1] == full[0]);
            }
        }
        if need_zero {
            out.push((0usize, SYNTHETIC_WORD_ID));
        }
        let ghost base: int = if need_zero { 1 } else { 0 };
        let mut k: usize = n;
        while k > 1
            invariant
                n == rev@.len(),
                n == full.len(),
                1 <= k <= n || (n == 0 && k == 0),
                s.len() == if n > 0 { n - 1 } else { 0 },
                s == (if full.len() > 0 { full.drop_last() } else { full }),
                forall|q: int| 0 <= q < rev@.len() ==> #[trigger] rev@[q] == full[full.len() - 1 - q],
                base == (if need_zero { 1int } else { 0int }),
                need_zero ==> out@[0] == (0usize, SYNTHETIC_WORD_ID),
                out@.len() == base + (if n > 0 { n - k } else { 0 }),
                forall|q: int| base <= q < out@.len() ==> #[trigger] out@[q] == s[q - base],
            decreases k,
        {
            k = k - 1;
            proof {
                assert(rev@[k as int] == full[n - 1 - k]);
                assert(s[n - 1 - k] == full[n - 1 - k]);
            }
            out.push(rev[k]);
        }
        proof {
            let o = offsets_of(full, self@.text_len());
            if need_zero {
                assert(out@ =~= seq![(0usize, SYNTHETIC_WORD_ID)] + s);
            } else {
                assert(out@ =~= s);
            }
        }
        out
    }

    /// Runs the shortest-path pass: each node that has nodes stopping where it
    /// starts gets the cheapest of them as predecessor, and the cost of the
    /// path through it.
    pub fn calculate_path_costs(&mut self, cost_matrix: &ConnectionCostMatrix, mode: &Mode)
        requires
            old(self)@.wf(),
            cost_matrix.wf(),
            mode.wf(),
            old(self)@.cost_ids_below(cost_matrix.forward() as int),
            old(self)@.cost_ids_below(cost_matrix.backward() as int),
            old(self)@.unlinked(),
        ensures
            final(self)@.wf(),
            final(self)@.starts_at == old(self)@.starts_at,
            final(self)@.ends_at == old(self)@.ends_at,
            final(self)@.nodes.len() == old(self)@.nodes.len(),
            forall|id: int| 0 <= id < old(self)@.nodes.len()
                ==> same_edge(#[trigger] final(self)@.nodes[id], old(self)@.nodes[id]),
            final(self)@.nodes[0] == old(self)@.nodes[0],
            final(self)@.shortest_paths(*cost_matrix, *mode),
            final(self)@.linked_by_costs(*cost_matrix, *mode, final(self)@.text_len()),
            final(self)@.links_settled(),
    {
        let ghost v0 = self@;
        let n_pos = self.starts_at.len();
        let mut i: usize = 0;
        assert(self@.linked_by_costs(*cost_matrix, *mode, 0));
        assert(self@.links_settled());
        while i < n_pos
            invariant
                n_pos == v0.starts_at.len(),
                i <= n_pos,
                self@.wf(),
                self@.starts_at == v0.starts_at,
                self@.ends_at == v0.ends_at,
                self@.nodes.len() == v0.nodes.len(),
                forall|id: int| 0 <= id < v0.nodes.len() ==> same_edge(#[trigger] self@.nodes[id], v0.nodes[id]),
                cost_matrix.wf(),
                mode.wf(),
                v0.cost_ids_below(cost_matrix.forward() as int),
                v0.cost_ids_below(cost_matrix.backward() as int),
                forall|i2: int, k2: int|
                    0 <= i2 < i && 0 <= k2 < self@.starts_at[i2].len() && self@.ends_at[i2].len() > 0
                    ==> #[trigger] self@.settled(*cost_matrix, *mode, i2, k2),
                self@.linked_by_costs(*cost_matrix, *mode, i as int),
                self@.links_settled(),
                self@.nodes[0] == v0.nodes[0],
            decreases n_pos - i,
        {
            let n_left = self.ends_at[i].len();
            let n_right = self.starts_at[i].len();
            proof {
                assert(self@.ends_at[i as int] == self.ends_at@[i as int]@);
                assert(self@.starts_at[i as int] == self.starts_at@[i as int]@);
            }
            if n_left > 0 {
                let mut k: usize = 0;
                while k < n_right
                    invariant
                        n_pos == v0.starts_at.len(),
                        i < n_pos,
                        k <= n_right,
                        n_left > 0,
                        n_left == self@.ends_at[i as int].len(),
                        n_right == self@.starts_at[i as int].len(),
                        self@.wf(),
                        self@.starts_at == v0.starts_at,
                        self@.ends_at == v0.ends_at,
                        self@.nodes.len() == v0.nodes.len(),
                        forall|id: int| 0 <= id < v0.nodes.len() ==> same_edge(#[trigger] self@.nodes[id], v0.nodes[id]),
                        cost_matrix.wf(),
                        mode.wf(),
                        v0.cost_ids_below(cost_matrix.forward() as int),
                        v0.cost_ids_below(cost_matrix.backward() as int),
                        forall|i2: int, k2: int|
                            0 <= i2 <= i && 0 <= k2 < self@.starts_at[i2].len() && self@.ends_at[i2].len() > 0
                            && (i2 < i || k2 < k) ==> #[trigger] self@.settled(*cost_matrix, *mode, i2, k2),
                        self@.linked_by_costs(*cost_matrix, *mode, i as int),
                        self@.links_settled(),
                        self@.nodes[0] == v0.nodes[0],
                    decreases n_right - k,
                {
                    proof {
                        assert forall|id: int| 0 <= id < self@.nodes.len() implies
                            (#[trigger] self@.nodes[id]).word_entry.cost_id < cost_matrix.forward()
                            && self@.nodes[id].word_entry.cost_id < cost_matrix.backward() by {
                            assert(same_edge(self@.nodes[id], v0.nodes[id]));
                        }
                    }
                    self.settle_node(cost_matrix, mode, i, k);
                    k = k + 1;
                }
            }
            i = i + 1;
        }
        proof {
            reveal(LatticeView::wf_nodes);
            let w = self@;
            assert forall|id: int| 0 <= id < w.nodes.len() implies ((#[trigger] w.nodes[id]).left_node matches Some(l) ==> {
                &&& w.nodes[id].start_index <= w.text_len()
                &&& w.nodes[id].path_cost == w.candidate(*cost_matrix, *mode, l, NodeId(id as u32))
            }) by {
                assert(w.wf_node(id));
            }
        }
    }
}

} // verus!
