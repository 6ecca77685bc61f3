//! The coverage graph.
//!
//! A node is a pair of the last board position used and the coverage state
//! so far. An edge is a word that leads from one node to a node of strictly
//! greater coverage. The graph owns its nodes in a growable array and finds
//! a node's slot through an index by last position, so no node refers to
//! another but by its identifier.
use crate::bound::{lemma_node_count, node_space, on_board};
use crate::coverage::{count_set, covered_by, single_bit, Coverage};
use crate::lexicon::{is_lower, letter_bucket, Lexicon};
use crate::words::{
    can_make_word, is_placement, lemma_trajectories_are_placements, trajectories, WordTrajectory,
};
use vstd::prelude::*;

verus! {

/// What a node identifier stands for: a last position and a coverage state.
pub type NodeView = (usize, Seq<bool>);

/// What an edge stands for: its two ends and its word.
pub type EdgeView = (NodeView, NodeView, Seq<char>);

/// The node reached from coverage `from` by placing a word along `t`: the
/// last position of `t`, and `from` with every position of `t` set.
pub open spec fn target(from: Seq<bool>, t: Seq<usize>) -> NodeView {
    (t.last(), covered_by(from, t))
}

/// The first trajectory of `ts` that covers more than `cov` does.
pub open spec fn first_improving(cov: Seq<bool>, ts: Seq<Seq<usize>>) -> Option<Seq<usize>>
    decreases ts.len(),
{
    if ts.len() == 0 {
        None
    } else if count_set(covered_by(cov, ts[0])) > count_set(cov) {
        Some(ts[0])
    } else {
        first_improving(cov, ts.drop_first())
    }
}

/// The edges that expanding `from` records for the first `k` of `words`:
/// for each word with an improving trajectory, one edge to the node that
/// its first improving trajectory reaches.
pub open spec fn expansion(
    from: NodeView,
    words: Seq<Seq<char>>,
    letters: Seq<char>,
    k: int,
) -> Seq<EdgeView>
    decreases k,
{
    if k <= 0 {
        seq![]
    } else {
        let prev = expansion(from, words, letters, k - 1);
        match first_improving(from.1, trajectories(words[k - 1], letters)) {
            Some(t) => prev.push((from, target(from.1, t), words[k - 1])),
            None => prev,
        }
    }
}

/// The dictionary words that may follow a word ending at `position`.
pub open spec fn candidates(lex: Seq<Seq<Seq<char>>>, letters: Seq<char>, position: int) -> Seq<
    Seq<char>,
> {
    if is_lower(letters[position]) {
        lex[letter_bucket(letters[position])]
    } else {
        seq![]
    }
}

/// All the edges that expanding the node `from` records.
pub open spec fn node_expansion(
    from: NodeView,
    lex: Seq<Seq<Seq<char>>>,
    letters: Seq<char>,
) -> Seq<EdgeView> {
    let words = candidates(lex, letters, from.0 as int);
    expansion(from, words, letters, words.len() as int)
}

/// `ids` with `id` appended unless already there.
pub open spec fn add_if_absent(ids: Seq<NodeView>, id: NodeView) -> Seq<NodeView> {
    if ids.contains(id) {
        ids
    } else {
        ids.push(id)
    }
}

/// `ids` with the target of each edge of `es` added in turn.
pub open spec fn with_targets(ids: Seq<NodeView>, es: Seq<EdgeView>) -> Seq<NodeView>
    decreases es.len(),
{
    if es.len() == 0 {
        ids
    } else {
        add_if_absent(with_targets(ids, es.drop_last()), es.last().1)
    }
}

proof fn lemma_add_if_absent(ids: Seq<NodeView>, id: NodeView)
    ensures
        add_if_absent(ids, id).contains(id),
        ids.len() <= add_if_absent(ids, id).len() <= ids.len() + 1,
        forall|i: int| 0 <= i < ids.len() ==> #[trigger] add_if_absent(ids, id)[i] == ids[i],
        forall|x: NodeView| ids.contains(x) ==> #[trigger] add_if_absent(ids, id).contains(x),
{
    let r = add_if_absent(ids, id);
    if !ids.contains(id) {
        assert(r[ids.len() as int] == id);
    }
    assert forall|x: NodeView| ids.contains(x) implies #[trigger] r.contains(x) by {
        let i = choose|i: int| 0 <= i < ids.len() && ids[i] == x;
        assert(r[i] == x);
    }
}

pub(crate) proof fn lemma_with_targets(ids: Seq<NodeView>, es: Seq<EdgeView>)
    ensures
        ids.len() <= with_targets(ids, es).len(),
        forall|i: int| 0 <= i < ids.len() ==> #[trigger] with_targets(ids, es)[i] == ids[i],
        forall|x: NodeView| ids.contains(x) ==> #[trigger] with_targets(ids, es).contains(x),
    decreases es.len(),
{
    if es.len() > 0 {
        lemma_with_targets(ids, es.drop_last());
        lemma_add_if_absent(with_targets(ids, es.drop_last()), es.last().1);
    }
}

/// Whether `b` holds every bit of `a`, at equal width.
pub open spec fn includes(b: Seq<bool>, a: Seq<bool>) -> bool {
    &&& b.len() == a.len()
    &&& forall|j: int| 0 <= j < a.len() && #[trigger] a[j] ==> b[j]
}

/// An edge leads to strictly greater coverage, keeping what was covered.
pub open spec fn edge_improves(e: EdgeView) -> bool {
    &&& count_set(e.1.1) > count_set(e.0.1)
    &&& includes(e.1.1, e.0.1)
}

/// The priority of a node of the given score in the search: ordered as the
/// score, except that a score of 1 ranks below every other, 0 included.
pub open spec fn priority(score: nat) -> nat {
    if score == 1 {
        0
    } else {
        score + 1
    }
}

proof fn lemma_first_improving(cov: Seq<bool>, ts: Seq<Seq<usize>>)
    ensures
        first_improving(cov, ts) matches Some(t) ==> ts.contains(t) && count_set(covered_by(cov, t))
            > count_set(cov),
    decreases ts.len(),
{
    if ts.len() > 0 && count_set(covered_by(cov, ts[0])) <= count_set(cov) {
        lemma_first_improving(cov, ts.drop_first());
        if first_improving(cov, ts.drop_first()) is Some {
            let t = first_improving(cov, ts.drop_first())->0;
            let i = choose|i: int| 0 <= i < ts.drop_first().len() && ts.drop_first()[i] == t;
            assert(ts[i + 1] == t);
        }
    } else if ts.len() > 0 {
        assert(ts[0] == ts[0]);
    }
}

/// Every edge that expanding `from` records leaves `from`, is labelled by
/// a word, and leads to the node that one placement of that word reaches
/// from `from`: its last position, and the coverage of `from` with every
/// position of the placement set. That coverage is strictly greater.
pub proof fn lemma_expansion_edges(
    from: NodeView,
    words: Seq<Seq<char>>,
    letters: Seq<char>,
    k: int,
)
    requires
        0 <= k <= words.len(),
        letters.len() <= usize::MAX,
    ensures
        forall|i: int|
            0 <= i < expansion(from, words, letters, k).len() ==> {
                let e = #[trigger] expansion(from, words, letters, k)[i];
                &&& e.0 == from
                &&& words.subrange(0, k).contains(e.2)
                &&& count_set(e.1.1) > count_set(from.1)
                &&& exists|t: Seq<usize>|
                    t.len() > 0 && is_placement(e.2, letters, t) && e.1 == target(from.1, t)
            },
    decreases k,
{
    if k > 0 {
        lemma_expansion_edges(from, words, letters, k - 1);
        let prev = expansion(from, words, letters, k - 1);
        let cur = expansion(from, words, letters, k);
        let ts = trajectories(words[k - 1], letters);
        lemma_first_improving(from.1, ts);
        lemma_trajectories_are_placements(words[k - 1], letters);
        assert forall|i: int| 0 <= i < cur.len() implies {
            let e = #[trigger] cur[i];
            &&& e.0 == from
            &&& words.subrange(0, k).contains(e.2)
            &&& count_set(e.1.1) > count_set(from.1)
            &&& exists|t: Seq<usize>|
                t.len() > 0 && is_placement(e.2, letters, t) && e.1 == target(from.1, t)
        } by {
            if i < prev.len() {
                assert(cur[i] == prev[i]);
                let w = cur[i].2;
                let j = choose|j: int| 0 <= j < k - 1 && #[trigger] words.subrange(0, k - 1)[j] == w;
                assert(words.subrange(0, k)[j] == w);
            } else {
                let t = first_improving(from.1, ts)->0;
                if t.len() == 0 {
                    assert(covered_by(from.1, t) =~= from.1);
                }
                let j = choose|j: int| 0 <= j < ts.len() && ts[j] == t;
                assert(is_placement(words[k - 1], letters, ts[j]));
                assert(words.subrange(0, k)[k - 1] == words[k - 1]);
            }
        }
    }
}

/// Every edge that expanding `from` records is labelled by a non-empty word
/// that starts with the letter at the position of `from`.
pub proof fn lemma_expansion_words(from: NodeView, lex: Seq<Seq<Seq<char>>>, letters: Seq<char>)
    requires
        crate::lexicon::valid_data(lex),
        (from.0 as int) < letters.len(),
        letters.len() <= usize::MAX,
    ensures
        forall|i: int|
            0 <= i < node_expansion(from, lex, letters).len() ==> {
                let w = (#[trigger] node_expansion(from, lex, letters)[i]).2;
                w.len() > 0 && w[0] == letters[from.0 as int]
            },
{
    let cands = candidates(lex, letters, from.0 as int);
    let k = cands.len() as int;
    lemma_expansion_edges(from, cands, letters, k);
    assert(cands.subrange(0, k) == cands);
    assert forall|i: int| 0 <= i < node_expansion(from, lex, letters).len() implies {
        let w = (#[trigger] node_expansion(from, lex, letters)[i]).2;
        w.len() > 0 && w[0] == letters[from.0 as int]
    } by {
        let w = node_expansion(from, lex, letters)[i].2;
        let j = choose|j: int| 0 <= j < cands.len() && cands[j] == w;
        let c = letters[from.0 as int];
        assert(is_lower(c));
        let b = letter_bucket(c);
        assert(crate::lexicon::fits_bucket(lex[b][j], b));
        assert(w[0] as u32 == c as u32);
        vstd::utf8::char_u32_cast(w[0], c as u32);
        vstd::utf8::char_u32_cast(c, c as u32);
    }
}

/// Whether every edge of `es` is one that expanding its source records.
pub open spec fn from_expansions(
    es: Seq<EdgeView>,
    lex: Seq<Seq<Seq<char>>>,
    letters: Seq<char>,
) -> bool {
    forall|i: int|
        0 <= i < es.len() ==> node_expansion(es[i].0, lex, letters).contains(#[trigger] es[i])
}

/// Every edge that comes from an expansion leads to strictly greater
/// coverage: that of its source with every position of a placement of its
/// word set, ending where the placement ends.
pub proof fn lemma_expansion_edges_cover(es: Seq<EdgeView>, lex: Seq<Seq<Seq<char>>>, letters: Seq<char>)
    requires
        from_expansions(es, lex, letters),
        letters.len() <= usize::MAX,
    ensures
        forall|i: int|
            0 <= i < es.len() ==> {
                let e = #[trigger] es[i];
                &&& count_set(e.1.1) > count_set(e.0.1)
                &&& exists|t: Seq<usize>|
                    t.len() > 0 && is_placement(e.2, letters, t) && e.1 == target(e.0.1, t)
            },
{
    assert forall|i: int| 0 <= i < es.len() implies {
        let e = #[trigger] es[i];
        &&& count_set(e.1.1) > count_set(e.0.1)
        &&& exists|t: Seq<usize>|
            t.len() > 0 && is_placement(e.2, letters, t) && e.1 == target(e.0.1, t)
    } by {
        let e = es[i];
        let cands = candidates(lex, letters, e.0.0 as int);
        lemma_expansion_edges(e.0, cands, letters, cands.len() as int);
        let exp = node_expansion(e.0, lex, letters);
        let m = choose|m: int| 0 <= m < exp.len() && exp[m] == e;
        assert(exp[m] == e);
    }
}

/// Whether `es` has an edge from `u` to `v`.
pub open spec fn has_edge(es: Seq<EdgeView>, u: NodeView, v: NodeView) -> bool {
    exists|j: int| 0 <= j < es.len() && (#[trigger] es[j]).0 == u && es[j].1 == v
}

pub(crate) proof fn lemma_with_targets_new(ids: Seq<NodeView>, es: Seq<EdgeView>)
    ensures
        forall|c: int|
            #![trigger with_targets(ids, es)[c]]
            ids.len() <= c < with_targets(ids, es).len() ==> exists|j: int|
                0 <= j < es.len() && (#[trigger] es[j]).1 == with_targets(ids, es)[c],
    decreases es.len(),
{
    if es.len() > 0 {
        let prev = with_targets(ids, es.drop_last());
        lemma_with_targets_new(ids, es.drop_last());
        lemma_add_if_absent(prev, es.last().1);
        assert forall|c: int|
            #![trigger with_targets(ids, es)[c]]
            ids.len() <= c < with_targets(ids, es).len() implies exists|j: int|
            0 <= j < es.len() && (#[trigger] es[j]).1 == with_targets(ids, es)[c] by {
            if c < prev.len() {
                let j = choose|j: int|
                    0 <= j < es.drop_last().len() && (#[trigger] es.drop_last()[j]).1 == prev[c];
                assert(es[j] == es.drop_last()[j]);
            } else {
                assert(es[es.len() - 1].1 == with_targets(ids, es)[c]);
            }
        }
    }
}

/// Identifies a node: the last board position used and the coverage state.
#[derive(Debug, Clone)]
pub struct NodeID {
    position: usize,
    coverage: Coverage,
}

impl View for NodeID {
    type V = NodeView;

    closed spec fn view(&self) -> NodeView {
        (self.position, self.coverage@)
    }
}

impl NodeID {
    /// The identifier of the node at `position` with coverage `coverage`.
    pub fn new(position: usize, coverage: Coverage) -> (r: NodeID)
        ensures
            r@ == (position, coverage@),
    {
        NodeID { position, coverage }
    }

    /// The last board position used.
    pub fn position(&self) -> (r: usize)
        ensures
            r == self@.0,
    {
        self.position
    }

    /// The coverage state.
    pub fn coverage(&self) -> (r: &Coverage)
        ensures
            r@ == self@.1,
    {
        &self.coverage
    }

    /// A copy of this identifier.
    pub fn copy(&self) -> (r: NodeID)
        ensures
            r@ == self@,
    {
        NodeID { position: self.position, coverage: self.coverage.copy() }
    }

    /// Whether the two identifiers are equal.
    pub fn same(&self, other: &NodeID) -> (r: bool)
        ensures
            r == (self@ == other@),
    {
        self.position == other.position && self.coverage.same(&other.coverage)
    }
}

/// A node of the graph.
#[derive(Debug, Clone)]
pub struct Node {
    id: NodeID,
}

impl View for Node {
    type V = NodeView;

    closed spec fn view(&self) -> NodeView {
        self.id@
    }
}

impl Node {
    /// The node at `index` with coverage `state`.
    pub fn new(index: usize, state: Coverage) -> (r: Node)
        ensures
            r@ == (index, state@),
    {
        Node { id: NodeID::new(index, state) }
    }

    /// The node with identifier `node_id`.
    pub fn from_id(node_id: NodeID) -> (r: Node)
        ensures
            r@ == node_id@,
    {
        Node { id: node_id }
    }

    /// The node's identifier.
    pub fn id(&self) -> (r: &NodeID)
        ensures
            r@ == self@,
    {
        &self.id
    }

    /// The coverage state.
    pub fn state(&self) -> (r: &Coverage)
        ensures
            r@ == self@.1,
    {
        &self.id.coverage
    }

    /// The last board position used.
    pub fn index(&self) -> (r: usize)
        ensures
            r == self@.0,
    {
        self.id.position
    }

    /// A copy of this node.
    pub fn copy(&self) -> (r: Node)
        ensures
            r@ == self@,
    {
        Node { id: self.id.copy() }
    }

    /// The node reached by placing a word along `traj`: its last position,
    /// and this coverage with every position of `traj` set.
    pub fn transition(&self, traj: WordTrajectory) -> (r: Node)
        requires
            traj@.len() > 0,
            forall|i: int| 0 <= i < traj@.len() ==> (#[trigger] traj@[i] as int) < self@.1.len(),
        ensures
            r@ == target(self@.1, traj@),
    {
        let mut new_state = self.id.coverage.copy();
        new_state.cover(&traj);
        let last = traj.indices()[traj.len() - 1];
        Node::new(last, new_state)
    }

    /// The number of board positions covered.
    pub fn score(&self) -> (r: usize)
        ensures
            r == count_set(self@.1),
    {
        self.id.coverage.count_ones()
    }

    /// Whether this node goes before `other` in the search.
    pub fn ranks_above(&self, other: &Node) -> (r: bool)
        ensures
            r == (priority(count_set(self@.1)) > priority(count_set(other@.1))),
    {
        let s = self.score();
        let o = other.score();
        s != 1 && (o == 1 || s > o)
    }
}

/// A directed edge: the word that leads from `prev` to `next`.
#[derive(Debug, Clone)]
pub struct Edge {
    prev: NodeID,
    next: NodeID,
    pub word: String,
}

impl View for Edge {
    type V = EdgeView;

    closed spec fn view(&self) -> EdgeView {
        (self.prev@, self.next@, self.word@)
    }
}

impl Edge {
    /// The node the edge leaves.
    pub fn prev(&self) -> (r: &NodeID)
        ensures
            r@ == self@.0,
    {
        &self.prev
    }

    /// The node the edge reaches.
    pub fn next(&self) -> (r: &NodeID)
        ensures
            r@ == self@.1,
    {
        &self.next
    }

    /// The word that labels the edge.
    pub fn word(&self) -> (r: &String)
        ensures
            r@ == self@.2,
    {
        &self.word
    }
}

/// The coverage graph: its nodes, its edges, and for each board position
/// the slots of the nodes that end there.
///
/// A node is found through the slots of its position, comparing coverage
/// states, rather than through a hash map keyed by identifier: vstd models
/// hash-map lookups only for keys such as integers, and an identifier holds
/// a bit vector of any width.
#[derive(Debug, Clone)]
pub struct Graph {
    nodes: Vec<Node>,
    edges: Vec<Edge>,
    node_indices: Vec<Vec<usize>>,
}

impl Graph {
    /// The identifiers of the nodes, in order of creation.
    pub closed spec fn node_ids(&self) -> Seq<NodeView> {
        self.nodes@.map_values(|n: Node| n@)
    }

    /// The edges, in order of creation.
    pub closed spec fn edge_list(&self) -> Seq<EdgeView> {
        self.edges@.map_values(|e: Edge| e@)
    }

    /// The graph is consistent: node identifiers are distinct, the index
    /// finds each node, every edge joins two nodes of the graph and improves
    /// coverage.
    pub closed spec fn wf(&self) -> bool {
        &&& forall|k: int|
            0 <= k < self.nodes@.len() ==> {
                let p = #[trigger] self.nodes@[k]@.0 as int;
                &&& p < self.node_indices@.len()
                &&& self.node_indices@[p]@.contains(k as usize)
            }
        &&& forall|p: int, j: int|
            0 <= p < self.node_indices@.len() && 0 <= j < self.node_indices@[p]@.len() ==> {
                let k = #[trigger] self.node_indices@[p]@[j] as int;
                &&& k < self.nodes@.len()
                &&& self.nodes@[k]@.0 == p
            }
        &&& forall|a: int, b: int|
            0 <= a < b < self.nodes@.len() ==> #[trigger] self.nodes@[a]@ != #[trigger] self.nodes@[b]@
        &&& forall|i: int|
            0 <= i < self.edges@.len() ==> {
                let e = #[trigger] self.edges@[i]@;
                &&& self.node_ids().contains(e.0)
                &&& self.node_ids().contains(e.1)
                &&& edge_improves(e)
            }
    }

    /// Every edge of a graph leads to strictly greater coverage and keeps
    /// every position already covered.
    pub proof fn lemma_edges_improve(&self)
        requires
            self.wf(),
        ensures
            forall|i: int|
                0 <= i < self.edge_list().len() ==> edge_improves(#[trigger] self.edge_list()[i]),
    {
        assert forall|i: int| 0 <= i < self.edge_list().len() implies edge_improves(
            #[trigger] self.edge_list()[i],
        ) by {
            assert(self.edge_list()[i] == self.edges@[i]@);
        }
    }

    /// The nodes of a graph have distinct identifiers.
    pub proof fn lemma_distinct(&self)
        requires
            self.wf(),
        ensures
            forall|a: int, b: int|
                0 <= a < b < self.node_ids().len() ==> self.node_ids()[a] != self.node_ids()[b],
    {
        assert forall|a: int, b: int| 0 <= a < b < self.node_ids().len() implies self.node_ids()[a]
            != self.node_ids()[b] by {
            assert(self.node_ids()[a] == self.nodes@[a]@);
            assert(self.node_ids()[b] == self.nodes@[b]@);
        }
    }

    /// Both ends of every edge are nodes of the graph.
    pub proof fn lemma_edge_ends(&self)
        requires
            self.wf(),
        ensures
            forall|i: int|
                0 <= i < self.edge_list().len() ==> self.node_ids().contains(
                    (#[trigger] self.edge_list()[i]).0,
                ) && self.node_ids().contains(self.edge_list()[i].1),
    {
        assert forall|i: int| 0 <= i < self.edge_list().len() implies self.node_ids().contains(
            (#[trigger] self.edge_list()[i]).0,
        ) && self.node_ids().contains(self.edge_list()[i].1) by {
            assert(self.edge_list()[i] == self.edges@[i]@);
        }
    }

    /// Creates an empty graph.
    pub fn new() -> (r: Graph)
        ensures
            r.wf(),
            r.node_ids() == Seq::<NodeView>::empty(),
            r.edge_list() == Seq::<EdgeView>::empty(),
    {
        let r = Graph { nodes: Vec::new(), edges: Vec::new(), node_indices: Vec::new() };
        assert(r.node_ids() =~= Seq::<NodeView>::empty());
        assert(r.edge_list() =~= Seq::<EdgeView>::empty());
        r
    }

    /// The nodes, in order of creation.
    pub fn nodes(&self) -> (r: &Vec<Node>)
        ensures
            r@.len() == self.node_ids().len(),
            forall|i: int| 0 <= i < r@.len() ==> #[trigger] r@[i]@ == self.node_ids()[i],
    {
        &self.nodes
    }

    /// The edges, in order of creation.
    pub fn edges(&self) -> (r: &Vec<Edge>)
        ensures
            r@.len() == self.edge_list().len(),
            forall|i: int| 0 <= i < r@.len() ==> #[trigger] r@[i]@ == self.edge_list()[i],
    {
        &self.edges
    }

    /// The graph of a board: one node per position, covering that position
    /// alone, and no edge.
    pub fn from_letters(letters: &str) -> (r: Graph)
        ensures
            r.wf(),
            r.node_ids() == Seq::new(
                letters@.len(),
                |i: int| (i as usize, single_bit(letters@.len(), i)),
            ),
            r.edge_list() == Seq::<EdgeView>::empty(),
    {
        let n = letters.unicode_len();
        let mut g = Graph::new();
        let mut i: usize = 0;
        while i < n
            invariant
                n == letters@.len(),
                i <= n,
                g.wf(),
                g.node_ids() == Seq::new(i as nat, |k: int| (k as usize, single_bit(n as nat, k))),
                g.edge_list() == Seq::<EdgeView>::empty(),
            decreases n - i,
        {
            let mut state = Coverage::new(n);
            state.set_bit(i);
            assert(state@ =~= single_bit(n as nat, i as int));
            let id = NodeID::new(i, state);
            proof {
                if g.node_ids().contains(id@) {
                    let k = choose|k: int| 0 <= k < g.node_ids().len() && g.node_ids()[k] == id@;
                    assert(g.node_ids()[k].0 == k as usize);
                }
            }
            g.add_node(&id);
            assert(g.node_ids() =~= Seq::new(
                (i + 1) as nat,
                |k: int| (k as usize, single_bit(n as nat, k)),
            ));
            i = i + 1;
        }
        g
    }

    /// The slot of the node with identifier `id`, if the graph has one.
    fn find(&self, id: &NodeID) -> (r: Option<usize>)
        requires
            self.wf(),
        ensures
            r is Some ==> r->0 < self.node_ids().len(),
            r is Some ==> self.node_ids()[r->0 as int] == id@,
            r is None ==> !self.node_ids().contains(id@),
    {
        let p = id.position;
        if p >= self.node_indices.len() {
            proof {
                if self.node_ids().contains(id@) {
                    let k = choose|k: int| 0 <= k < self.node_ids().len() && self.node_ids()[k] == id@;
                    assert(self.nodes@[k]@.0 == p);
                }
            }
            return None;
        }
        let slots = &self.node_indices[p];
        let mut j: usize = 0;
        while j < slots.len()
            invariant
                self.wf(),
                p == id@.0,
                p < self.node_indices@.len(),
                slots == self.node_indices@[p as int],
                j <= slots@.len(),
                forall|i: int| 0 <= i < j ==> self.nodes@[#[trigger] slots@[i] as int]@ != id@,
            decreases slots@.len() - j,
        {
            let s = slots[j];
            assert(self.nodes@[slots@[j as int] as int]@.0 == p);
            if self.nodes[s].id.coverage.same(&id.coverage) {
                assert(self.node_ids()[s as int] == self.nodes@[s as int]@);
                return Some(s);
            }
            j = j + 1;
        }
        let total = self.nodes.len();
        proof {
            if self.node_ids().contains(id@) {
                let k = choose|k: int| 0 <= k < self.node_ids().len() && self.node_ids()[k] == id@;
                assert(self.node_ids()[k] == self.nodes@[k]@);
                assert(self.nodes@[k]@.0 == p);
                assert(k < total);
                assert(slots@.contains(k as usize));
                let i = choose|i: int| 0 <= i < slots@.len() && slots@[i] == k as usize;
                assert(self.nodes@[slots@[i] as int]@ != id@);
            }
        }
        None
    }

    /// The node with identifier `id`, if the graph has one.
    pub fn get_node(&self, id: &NodeID) -> (r: Option<&Node>)
        requires
            self.wf(),
        ensures
            match r {
                Some(n) => n@ == id@ && self.node_ids().contains(id@),
                None => !self.node_ids().contains(id@),
            },
    {
        match self.find(id) {
            Some(k) => Some(&self.nodes[k]),
            None => None,
        }
    }

    /// The first edge from `id1` to `id2`, if any.
    pub fn get_edge(&self, id1: &NodeID, id2: &NodeID) -> (r: Option<&Edge>)
        ensures
            match r {
                Some(e) => exists|i: int|
                    0 <= i < self.edge_list().len() && self.edge_list()[i] == e@ && e@.0 == id1@
                        && e@.1 == id2@ && forall|j: int|
                        0 <= j < i ==> !(#[trigger] self.edge_list()[j].0 == id1@
                            && self.edge_list()[j].1 == id2@),
                None => forall|j: int|
                    0 <= j < self.edge_list().len() ==> !(#[trigger] self.edge_list()[j].0 == id1@
                        && self.edge_list()[j].1 == id2@),
            },
    {
        let mut i: usize = 0;
        while i < self.edges.len()
            invariant
                i <= self.edges@.len(),
                forall|j: int|
                    0 <= j < i ==> !(#[trigger] self.edge_list()[j].0 == id1@ && self.edge_list()[j].1
                        == id2@),
            decreases self.edges@.len() - i,
        {
            let e = &self.edges[i];
            if e.prev.same(id1) && e.next.same(id2) {
                assert(self.edge_list()[i as int] == e@);
                return Some(e);
            }
            i = i + 1;
        }
        None
    }

    /// Whether the graph has a node with identifier `id`.
    pub fn contains(&self, id: &NodeID) -> (r: bool)
        requires
            self.wf(),
        ensures
            r == self.node_ids().contains(id@),
    {
        self.get_node(id).is_some()
    }

    /// Adds a node with identifier `id` unless the graph has one.
    pub fn add_node(&mut self, id: &NodeID)
        requires
            old(self).wf(),
        ensures
            final(self).wf(),
            final(self).node_ids() == add_if_absent(old(self).node_ids(), id@),
            final(self).edge_list() == old(self).edge_list(),
    {
        if self.find(id).is_some() {
            return;
        }
        let p = id.position;
        let k = self.nodes.len();
        while self.node_indices.len() <= p
            invariant
                self.wf(),
                self.nodes@ == old(self).nodes@,
                self.edges@ == old(self).edges@,
                !self.node_ids().contains(id@),
                k == self.nodes@.len(),
            decreases p + 1 - self.node_indices@.len(),
        {
            self.node_indices.push(Vec::new());
        }
        let mut slots = Vec::new();
        let mut j: usize = 0;
        while j < self.node_indices[p].len()
            invariant
                p < self.node_indices@.len(),
                j <= self.node_indices@[p as int]@.len(),
                slots@ == self.node_indices@[p as int]@.subrange(0, j as int),
            decreases self.node_indices@[p as int]@.len() - j,
        {
            slots.push(self.node_indices[p][j]);
            j = j + 1;
        }
        assert(slots@ == self.node_indices@[p as int]@);
        slots.push(k);
        let ghost old_nodes = self.nodes@;
        let ghost old_index = self.node_indices@;
        self.node_indices.set(p, slots);
        self.nodes.push(Node { id: id.copy() });
        proof {
            assert(self.node_ids() =~= old(self).node_ids().push(id@));
            assert forall|q: int| 0 <= q < self.nodes@.len() implies {
                let pp = #[trigger] self.nodes@[q]@.0 as int;
                &&& pp < self.node_indices@.len()
                &&& self.node_indices@[pp]@.contains(q as usize)
            } by {
                let pp = self.nodes@[q]@.0 as int;
                if q < k {
                    assert(old_nodes[q] == self.nodes@[q]);
                    assert(old_index[pp]@.contains(q as usize));
                    if pp == p {
                        let w = choose|w: int| 0 <= w < old_index[pp]@.len() && old_index[pp]@[w] == q as usize;
                        assert(self.node_indices@[pp]@[w] == q as usize);
                    }
                } else {
                    assert(self.node_indices@[p as int]@[old_index[p as int]@.len() as int] == k);
                }
            }
            assert forall|a: int, b: int|
                0 <= a < b < self.nodes@.len() implies #[trigger] self.nodes@[a]@ != #[trigger] self.nodes@[b]@ by {
                if b == k {
                    assert(old(self).node_ids()[a] == self.nodes@[a]@);
                }
                else {
                    assert(old_nodes[a] == self.nodes@[a]);
                    assert(old_nodes[b] == self.nodes@[b]);
                }
            }
            assert forall|i: int| 0 <= i < self.edges@.len() implies {
                let e = #[trigger] self.edges@[i]@;
                &&& self.node_ids().contains(e.0)
                &&& self.node_ids().contains(e.1)
                &&& edge_improves(e)
            } by {
                let e = self.edges@[i]@;
                assert(old(self).node_ids().contains(e.0));
                assert(old(self).node_ids().contains(e.1));
                let a = choose|a: int| 0 <= a < old(self).node_ids().len() && old(self).node_ids()[a] == e.0;
                let b = choose|b: int| 0 <= b < old(self).node_ids().len() && old(self).node_ids()[b] == e.1;
                assert(self.node_ids()[a] == e.0);
                assert(self.node_ids()[b] == e.1);
            }
        }
    }

    /// Adds an edge labelled `word` from `prev_id` to `next_id`, and either
    /// node the graph lacks.
    pub fn add_edge(&mut self, prev_id: &NodeID, next_id: &NodeID, word: &str)
        requires
            old(self).wf(),
            edge_improves((prev_id@, next_id@, word@)),
        ensures
            final(self).wf(),
            final(self).node_ids() == add_if_absent(
                add_if_absent(old(self).node_ids(), prev_id@),
                next_id@,
            ),
            final(self).edge_list() == old(self).edge_list().push((prev_id@, next_id@, word@)),
    {
        self.add_node(prev_id);
        self.add_node(next_id);
        let ghost mid_edges = self.edge_list();
        let edge = Edge { prev: prev_id.copy(), next: next_id.copy(), word: word.to_owned() };
        self.edges.push(edge);
        proof {
            let m0 = add_if_absent(old(self).node_ids(), prev_id@);
            lemma_add_if_absent(old(self).node_ids(), prev_id@);
            lemma_add_if_absent(m0, next_id@);
            assert(self.edge_list() =~= old(self).edge_list().push((prev_id@, next_id@, word@)));
            assert forall|i: int| 0 <= i < self.edges@.len() implies {
                let e = #[trigger] self.edges@[i]@;
                &&& self.node_ids().contains(e.0)
                &&& self.node_ids().contains(e.1)
                &&& edge_improves(e)
            } by {
                if i < self.edges@.len() - 1 {
                    assert(self.edges@[i]@ == self.edge_list()[i]);
                    assert(old(self).edge_list()[i] == old(self).edges@[i]@);
                }
            }
        }
    }

    /// Expands the node `id`: for each dictionary word that starts with the
    /// letter at the node's position, in dictionary order, the first of its
    /// placements (in enumeration order) that covers more than the node
    /// leads to a node that the graph gains if new, by an edge labelled with
    /// the word. Returns the nodes created, in order of creation.
    pub fn generate_edges_for_node(&mut self, id: &NodeID, letters: &str, lexicon: &Lexicon) -> (r:
        Option<Vec<Node>>)
        requires
            old(self).wf(),
            old(self).node_ids().contains(id@),
            (id@.0 as int) < letters@.len(),
            id@.1.len() == letters@.len(),
            letters@.len() >= 4,
        ensures
            final(self).wf(),
            final(self).edge_list() == old(self).edge_list() + node_expansion(
                id@,
                lexicon@,
                letters@,
            ),
            final(self).node_ids() == with_targets(
                old(self).node_ids(),
                node_expansion(id@, lexicon@, letters@),
            ),
            forall|i: int|
                old(self).edge_list().len() <= i < final(self).edge_list().len() ==> {
                    let e = #[trigger] final(self).edge_list()[i];
                    &&& e.0 == id@
                    &&& count_set(e.1.1) > count_set(id@.1)
                    &&& final(self).node_ids().contains(e.1)
                    &&& exists|t: Seq<usize>|
                        t.len() > 0 && is_placement(e.2, letters@, t) && e.1 == target(id@.1, t)
                },
            r matches Some(v) && v@.len() == final(self).node_ids().len() - old(self).node_ids().len()
                && forall|i: int|
                0 <= i < v@.len() ==> #[trigger] v@[i]@ == final(self).node_ids()[old(
                    self,
                ).node_ids().len() + i],
    {
        lexicon.check_wf();
        let n_len = self.nodes.len();
        let node = Node { id: id.copy() };
        let ghost from = id@;
        let ghost old_ids = self.node_ids();
        let ghost old_edges = self.edge_list();
        let cur = letters.get_char(id.position);
        let n = letters.unicode_len();
        let score = node.score();
        if 97 <= cur as u32 && cur as u32 <= 122 {
            let words = lexicon.words_starting_with(cur);
            let ghost ws = words.deep_view();
            assert(ws == candidates(lexicon@, letters@, from.0 as int));
            let mut i: usize = 0;
            while i < words.len()
                invariant
                    self.wf(),
                    from == id@,
                    node@ == from,
                    score == count_set(from.1),
                    self.node_ids().contains(from),
                    (from.0 as int) < letters@.len(),
                    from.1.len() == letters@.len(),
                    letters@.len() >= 4,
                    n == letters@.len(),
                    lexicon.wf(),
                    is_lower(cur),
                    ws == words.deep_view(),
                    ws == lexicon@[letter_bucket(cur)],
                    i <= ws.len(),
                    self.edge_list() == old_edges + expansion(from, ws, letters@, i as int),
                    self.node_ids() == with_targets(old_ids, expansion(from, ws, letters@, i as int)),
                    n_len == old_ids.len(),
                decreases ws.len() - i,
            {
                let word = &words[i];
                assert(word@ == ws[i as int]);
                let mut trajs = can_make_word(word.as_str(), letters);
                let ghost all = trajectories(ws[i as int], letters@);
                proof {
                    lemma_trajectories_are_placements(ws[i as int], letters@);
                    assert(crate::lexicon::fits_bucket(ws[i as int], letter_bucket(cur)));
                }
                let mut found: Option<Node> = None;
                let mut done = false;
                while !done
                    invariant
                        trajs.wf(),
                        trajs.word() == ws[i as int],
                        trajs.letters() == letters@,
                        ws[i as int].len() > 0,
                        node@ == from,
                        score == count_set(from.1),
                        from.1.len() == letters@.len(),
                        forall|j: int|
                            0 <= j < trajs.remaining().len() ==> is_placement(
                                ws[i as int],
                                letters@,
                                #[trigger] trajs.remaining()[j],
                            ),
                        !done ==> first_improving(from.1, trajs.remaining()) == first_improving(
                            from.1,
                            all,
                        ),
                        !done ==> found is None,
                        done && found is Some ==> first_improving(from.1, all) is Some
                            && (found->0)@ == target(from.1, first_improving(from.1, all)->0),
                        done && found is None ==> first_improving(from.1, all) is None,
                    decreases trajs.remaining().len() + if done {
                        0int
                    } else {
                        1int
                    },
                {
                    let ghost rem = trajs.remaining();
                    match trajs.next() {
                        None => {
                            assert(first_improving(from.1, rem) is None);
                            done = true;
                        },
                        Some(t) => {
                            assert(t@ == rem[0]);
                            assert(is_placement(ws[i as int], letters@, rem[0]));
                            assert(rem.drop_first() == trajs.remaining());
                            assert forall|j: int|
                                0 <= j < trajs.remaining().len() implies is_placement(
                                ws[i as int],
                                letters@,
                                #[trigger] trajs.remaining()[j],
                            ) by {
                                assert(trajs.remaining()[j] == rem[j + 1]);
                            }
                            let ghost tv = t@;
                            let nn = node.transition(t);
                            if nn.score() > score {
                                assert(first_improving(from.1, rem) == Some(tv));
                                assert(nn@ == target(from.1, tv));
                                found = Some(nn);
                                done = true;
                                assert(first_improving(from.1, all) == Some(tv));
                            } else {
                                assert(first_improving(from.1, rem) == first_improving(
                                    from.1,
                                    rem.drop_first(),
                                ));
                            }
                        },
                    }
                }
                proof {
                    lemma_first_improving(from.1, all);
                }
                let ghost prev = expansion(from, ws, letters@, i as int);
                if let Some(nn) = found {
                    let ghost t = first_improving(from.1, all)->0;
                    assert(includes(nn@.1, from.1));
                    self.add_edge(id, nn.id(), word.as_str());
                    proof {
                        lemma_with_targets(old_ids, prev);
                        lemma_add_if_absent(with_targets(old_ids, prev), from);
                        lemma_add_if_absent(add_if_absent(with_targets(old_ids, prev), from), nn@);
                        assert(expansion(from, ws, letters@, i + 1) == prev.push(
                            (from, target(from.1, t), ws[i as int]),
                        ));
                        assert(self.edge_list() =~= old_edges + expansion(from, ws, letters@, i + 1));
                        let m = with_targets(old_ids, prev);
                        assert(m.contains(from));
                        assert(add_if_absent(m, from) == m);
                        assert(expansion(from, ws, letters@, i + 1).drop_last() == prev);
                    }
                }
                i = i + 1;
            }
            assert(ws.len() == candidates(lexicon@, letters@, from.0 as int).len());
            proof {
                lemma_with_targets(old_ids, node_expansion(from, lexicon@, letters@));
            }
        } else {
            assert(node_expansion(from, lexicon@, letters@) == Seq::<EdgeView>::empty());
            assert(self.edge_list() == old_edges + Seq::<EdgeView>::empty());
        }
        assert(self.node_ids().len() == self.nodes@.len());
        proof {
            let cands = candidates(lexicon@, letters@, from.0 as int);
            let exp = node_expansion(from, lexicon@, letters@);
            lemma_expansion_edges(from, cands, letters@, cands.len() as int);
            self.lemma_edge_ends();
            assert forall|i: int|
                old_edges.len() <= i < self.edge_list().len() implies {
                    let e = #[trigger] self.edge_list()[i];
                    &&& e.0 == id@
                    &&& count_set(e.1.1) > count_set(id@.1)
                    &&& self.node_ids().contains(e.1)
                    &&& exists|t: Seq<usize>|
                        t.len() > 0 && is_placement(e.2, letters@, t) && e.1 == target(id@.1, t)
                } by {
                assert(self.edge_list()[i] == exp[i - old_edges.len()]);
            }
        }
        let mut v: Vec<Node> = Vec::new();
        let mut k: usize = n_len;
        while k < self.nodes.len()
            invariant
                n_len <= k <= self.nodes@.len(),
                v@.len() == k - n_len,
                forall|i: int| 0 <= i < v@.len() ==> #[trigger] v@[i]@ == self.node_ids()[n_len + i],
            decreases self.nodes@.len() - k,
        {
            v.push(self.nodes[k].copy());
            k = k + 1;
        }
        Some(v)
    }
}

} // verus!
