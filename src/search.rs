//! Best-first search over the coverage graph, and the path of nodes that it
//! finds.
use crate::bound::{lemma_node_count, node_space, on_board};
use crate::coverage::count_set;
use crate::graph::{
    candidates, from_expansions, has_edge, lemma_expansion_edges, node_expansion, priority,
    target, with_targets, EdgeView, Graph, NodeID, NodeView,
};
use crate::lexicon::Lexicon;
use crate::words::is_placement;
use vstd::prelude::*;

verus! {

/// The bookkeeping of a search over the graph `ids`, `edges`, started on the
/// nodes `start`: every edge comes from an expansion, the starting nodes
/// keep their slots, every node is visited or queued, every visited node
/// falls short of covering the board and has had its expansion recorded,
/// and every node but a starting one has an earlier parent with an edge to
/// it.
#[verifier::opaque]
spec fn search_inv(
    ids: Seq<NodeView>,
    edges: Seq<EdgeView>,
    start: Seq<NodeView>,
    visited: Seq<bool>,
    parents: Seq<Option<usize>>,
    queue: Seq<usize>,
    lex: Seq<Seq<Seq<char>>>,
    letters: Seq<char>,
) -> bool {
    &&& from_expansions(edges, lex, letters)
    &&& start.len() <= ids.len()
    &&& forall|q: int| 0 <= q < start.len() ==> #[trigger] ids[q] == start[q]
    &&& forall|q: int| 0 <= q < ids.len() ==> #[trigger] visited[q] || queue.contains(q as usize)
    &&& forall|q: int|
        0 <= q < ids.len() && #[trigger] visited[q] ==> {
            &&& count_set(ids[q].1) != letters.len()
            &&& forall|e: EdgeView|
                node_expansion(ids[q], lex, letters).contains(e) ==> #[trigger] edges.contains(e)
        }
    &&& parents_ok(ids, edges, start, parents)
}

/// Every node with a parent has an earlier one, with an edge from it; every
/// node without one is a starting node.
spec fn parents_ok(
    ids: Seq<NodeView>,
    edges: Seq<EdgeView>,
    start: Seq<NodeView>,
    parents: Seq<Option<usize>>,
) -> bool {
    forall|q: int|
        0 <= q < ids.len() ==> match #[trigger] parents[q] {
            Some(p) => p < q && has_edge(edges, ids[p as int], ids[q]),
            None => q < start.len(),
        }
}

/// A state of the search: the graph's nodes and edges, which nodes were
/// visited, the parent of each node, and the queue of node slots.
pub type SearchState = (Seq<NodeView>, Seq<EdgeView>, Seq<bool>, Seq<Option<usize>>, Seq<usize>);

/// The slot, among the first `j` of `queue`, of the first node of highest
/// priority.
pub open spec fn best_upto(ids: Seq<NodeView>, queue: Seq<usize>, j: int) -> int
    decreases j,
{
    if j <= 1 {
        0
    } else {
        let b = best_upto(ids, queue, j - 1);
        if priority(count_set(ids[queue[j - 1] as int].1)) > priority(count_set(ids[queue[b] as int].1)) {
            j - 1
        } else {
            b
        }
    }
}

/// The slot of the first queued node of highest priority.
pub open spec fn best_slot(ids: Seq<NodeView>, queue: Seq<usize>) -> int {
    best_upto(ids, queue, queue.len() as int)
}

/// The nodes from a node without parent down to node `cur`, following
/// parents.
pub open spec fn path_to(ids: Seq<NodeView>, parents: Seq<Option<usize>>, cur: int) -> Seq<NodeView>
    decreases cur,
{
    if 0 <= cur < parents.len() && parents[cur] is Some && (parents[cur]->0 as int) < cur {
        path_to(ids, parents, parents[cur]->0 as int).push(ids[cur])
    } else {
        seq![ids[cur]]
    }
}

/// A bound on the steps left to a search on a board of `n` letters.
pub open spec fn search_measure(s: SearchState, n: nat) -> int {
    2 * (node_space(n) - s.0.len()) + s.4.len()
}

/// The state after taking the node in `slot` off the queue and expanding
/// it: the nodes it creates are queued, unvisited, with it as parent.
pub open spec fn expanded_state(
    s: SearchState,
    slot: int,
    lex: Seq<Seq<Seq<char>>>,
    letters: Seq<char>,
) -> SearchState {
    let cur = s.4[slot] as int;
    let ids1 = with_targets(s.0, node_expansion(s.0[cur], lex, letters));
    let k = (ids1.len() - s.0.len()) as nat;
    (
        ids1,
        s.1 + node_expansion(s.0[cur], lex, letters),
        s.2.update(cur, true) + Seq::new(k, |i: int| false),
        s.3 + Seq::new(k, |i: int| Some(cur as usize)),
        s.4.remove(slot) + Seq::new(k, |i: int| (s.0.len() + i) as usize),
    )
}

/// How the search from state `s` ends within `fuel` steps: the path it
/// finds, if any, and the graph's nodes and edges at the end.
pub open spec fn search_outcome(
    s: SearchState,
    lex: Seq<Seq<Seq<char>>>,
    letters: Seq<char>,
    fuel: nat,
) -> (Option<Seq<NodeView>>, Seq<NodeView>, Seq<EdgeView>)
    decreases fuel,
{
    if fuel == 0 || s.4.len() == 0 {
        (None, s.0, s.1)
    } else {
        let slot = best_slot(s.0, s.4);
        let cur = s.4[slot] as int;
        if s.2[cur] {
            search_outcome((s.0, s.1, s.2, s.3, s.4.remove(slot)), lex, letters, (fuel - 1) as nat)
        } else {
            let t = expanded_state(s, slot, lex, letters);
            if count_set(s.0[cur].1) == letters.len() {
                (Some(path_to(s.0, s.3, cur)), t.0, t.1)
            } else {
                search_outcome(t, lex, letters, (fuel - 1) as nat)
            }
        }
    }
}

/// The state a search starts in on the graph `ids`, `edges`: every node
/// queued, none visited, none with a parent.
pub open spec fn initial_state(ids: Seq<NodeView>, edges: Seq<EdgeView>) -> SearchState {
    (
        ids,
        edges,
        Seq::new(ids.len(), |i: int| false),
        Seq::new(ids.len(), |i: int| None::<usize>),
        Seq::new(ids.len(), |i: int| i as usize),
    )
}

/// How the search on the graph `ids`, `edges` ends.
pub open spec fn search_result(
    ids: Seq<NodeView>,
    edges: Seq<EdgeView>,
    lex: Seq<Seq<Seq<char>>>,
    letters: Seq<char>,
) -> (Option<Seq<NodeView>>, Seq<NodeView>, Seq<EdgeView>) {
    let s = initial_state(ids, edges);
    search_outcome(s, lex, letters, search_measure(s, letters.len()) as nat)
}

/// The identifiers of a path, if any.
pub open spec fn path_view(r: Option<Vec<NodeID>>) -> Option<Seq<NodeView>> {
    match r {
        Some(p) => Some(p@.map_values(|x: NodeID| x@)),
        None => None,
    }
}

proof fn lemma_after_expansion(
    ids0: Seq<NodeView>,
    edges0: Seq<EdgeView>,
    cur: int,
    ids1: Seq<NodeView>,
    edges1: Seq<EdgeView>,
    lex: Seq<Seq<Seq<char>>>,
    letters: Seq<char>,
)
    requires
        letters.len() <= usize::MAX,
        0 <= cur < ids0.len(),
        forall|q: int| 0 <= q < ids0.len() ==> on_board(#[trigger] ids0[q], letters.len()),
        from_expansions(edges0, lex, letters),
        ids1 == with_targets(ids0, node_expansion(ids0[cur], lex, letters)),
        edges1 == edges0 + node_expansion(ids0[cur], lex, letters),
        forall|a: int, b: int| 0 <= a < b < ids1.len() ==> ids1[a] != ids1[b],
    ensures
        ids0.len() <= ids1.len() <= node_space(letters.len()),
        forall|q: int| 0 <= q < ids0.len() ==> #[trigger] ids1[q] == ids0[q],
        forall|q: int| 0 <= q < ids1.len() ==> on_board(#[trigger] ids1[q], letters.len()),
        from_expansions(edges1, lex, letters),
        forall|x: EdgeView| edges0.contains(x) ==> #[trigger] edges1.contains(x),
        forall|x: EdgeView|
            node_expansion(ids0[cur], lex, letters).contains(x) ==> #[trigger] edges1.contains(x),
        forall|u: NodeView, v: NodeView| has_edge(edges0, u, v) ==> #[trigger] has_edge(edges1, u, v),
        forall|c: int| ids0.len() <= c < ids1.len() ==> has_edge(edges1, ids0[cur], #[trigger] ids1[c]),
{
    let n = letters.len();
    let from = ids0[cur];
    let exp = node_expansion(from, lex, letters);
    crate::graph::lemma_with_targets(ids0, exp);
    crate::graph::lemma_with_targets_new(ids0, exp);
    let cands = candidates(lex, letters, from.0 as int);
    lemma_expansion_edges(from, cands, letters, cands.len() as int);
    assert forall|q: int| 0 <= q < ids1.len() implies on_board(#[trigger] ids1[q], n) by {
        if q >= ids0.len() {
            let j = choose|j: int| 0 <= j < exp.len() && (#[trigger] exp[j]).1 == ids1[q];
            let e = exp[j];
            let t = choose|t: Seq<usize>|
                t.len() > 0 && is_placement(e.2, letters, t) && e.1 == target(from.1, t);
            assert(t[t.len() - 1] == t.last());
        } else {
            assert(ids1[q] == ids0[q]);
        }
    }
    assert forall|i: int| 0 <= i < edges1.len() implies node_expansion(
        edges1[i].0,
        lex,
        letters,
    ).contains(#[trigger] edges1[i]) by {
        if i < edges0.len() {
            assert(edges1[i] == edges0[i]);
        } else {
            assert(edges1[i] == exp[i - edges0.len()]);
            assert(exp[i - edges0.len()].0 == from);
        }
    }
    lemma_node_count(ids1, n);
    assert forall|x: EdgeView| edges0.contains(x) implies #[trigger] edges1.contains(x) by {
        let j = choose|j: int| 0 <= j < edges0.len() && edges0[j] == x;
        assert(edges1[j] == x);
    }
    assert forall|x: EdgeView| exp.contains(x) implies #[trigger] edges1.contains(x) by {
        let j = choose|j: int| 0 <= j < exp.len() && exp[j] == x;
        assert(edges1[edges0.len() + j] == x);
    }
    assert forall|u: NodeView, v: NodeView| has_edge(edges0, u, v) implies #[trigger] has_edge(
        edges1,
        u,
        v,
    ) by {
        let j = choose|j: int| 0 <= j < edges0.len() && (#[trigger] edges0[j]).0 == u && edges0[j].1 == v;
        assert(edges1[j] == edges0[j]);
    }
    assert forall|c: int| ids0.len() <= c < ids1.len() implies has_edge(
        edges1,
        ids0[cur],
        #[trigger] ids1[c],
    ) by {
        let j = choose|j: int| 0 <= j < exp.len() && (#[trigger] exp[j]).1 == ids1[c];
        assert(exp[j].0 == from);
        assert(edges1[edges0.len() + j] == exp[j]);
    }
}

proof fn lemma_search_skip(
    ids: Seq<NodeView>,
    edges: Seq<EdgeView>,
    start: Seq<NodeView>,
    visited: Seq<bool>,
    parents: Seq<Option<usize>>,
    q0: Seq<usize>,
    slot: int,
    lex: Seq<Seq<Seq<char>>>,
    letters: Seq<char>,
)
    requires
        search_inv(ids, edges, start, visited, parents, q0, lex, letters),
        0 <= slot < q0.len(),
        (q0[slot] as int) < visited.len(),
        visited[q0[slot] as int],
        ids.len() <= usize::MAX,
    ensures
        search_inv(ids, edges, start, visited, parents, q0.remove(slot), lex, letters),
{
    reveal(search_inv);
    let q1 = q0.remove(slot);
    assert forall|q: int| 0 <= q < ids.len() implies #[trigger] visited[q] || q1.contains(q as usize) by {
        if !visited[q] {
            let j = choose|j: int| 0 <= j < q0.len() && q0[j] == q as usize;
            assert(j != slot);
            if j < slot {
                assert(q1[j] == q as usize);
            } else {
                assert(q1[j - 1] == q as usize);
            }
        }
    }
}

proof fn lemma_search_step(
    ids0: Seq<NodeView>,
    edges0: Seq<EdgeView>,
    start: Seq<NodeView>,
    vis0: Seq<bool>,
    par0: Seq<Option<usize>>,
    q0: Seq<usize>,
    slot: int,
    ids1: Seq<NodeView>,
    edges1: Seq<EdgeView>,
    vis1: Seq<bool>,
    par1: Seq<Option<usize>>,
    q1: Seq<usize>,
    lex: Seq<Seq<Seq<char>>>,
    letters: Seq<char>,
)
    requires
        search_inv(ids0, edges0, start, vis0, par0, q0, lex, letters),
        letters.len() <= usize::MAX,
        ids1.len() <= usize::MAX,
        vis0.len() == ids0.len(),
        par0.len() == ids0.len(),
        forall|q: int| 0 <= q < ids0.len() ==> on_board(#[trigger] ids0[q], letters.len()),
        0 <= slot < q0.len(),
        (q0[slot] as int) < ids0.len(),
        !vis0[q0[slot] as int],
        ids1 == with_targets(ids0, node_expansion(ids0[q0[slot] as int], lex, letters)),
        edges1 == edges0 + node_expansion(ids0[q0[slot] as int], lex, letters),
        forall|a: int, b: int| 0 <= a < b < ids1.len() ==> ids1[a] != ids1[b],
        count_set(ids0[q0[slot] as int].1) != letters.len(),
        vis1 == vis0.update(q0[slot] as int, true) + Seq::new(
            (ids1.len() - ids0.len()) as nat,
            |i: int| false,
        ),
        par1 == par0 + Seq::new((ids1.len() - ids0.len()) as nat, |i: int| Some(q0[slot])),
        q1 == q0.remove(slot) + Seq::new(
            (ids1.len() - ids0.len()) as nat,
            |i: int| (ids0.len() + i) as usize,
        ),
    ensures
        search_inv(ids1, edges1, start, vis1, par1, q1, lex, letters),
        ids1.len() <= node_space(letters.len()),
        forall|q: int| 0 <= q < ids1.len() ==> on_board(#[trigger] ids1[q], letters.len()),
{
    reveal(search_inv);
    let cur = q0[slot] as int;
    let n = letters.len();
    let qa = q0.remove(slot);
    lemma_after_expansion(ids0, edges0, cur, ids1, edges1, lex, letters);
    assert(vis1.len() == ids1.len() && par1.len() == ids1.len());
    assert(forall|j: int| 0 <= j < ids0.len() ==> #[trigger] vis1[j] == vis0.update(cur, true)[j]);
    assert(forall|j: int| ids0.len() <= j < ids1.len() ==> !#[trigger] vis1[j]);
    assert(forall|j: int| 0 <= j < ids0.len() ==> #[trigger] par1[j] == par0[j]);
    assert(forall|j: int| ids0.len() <= j < ids1.len() ==> #[trigger] par1[j] == Some(q0[slot]));
    assert(forall|j: int| 0 <= j < qa.len() ==> #[trigger] q1[j] == qa[j]);
    assert(forall|j: int|
        qa.len() <= j < q1.len() ==> #[trigger] q1[j] == (ids0.len() + (j - qa.len())) as usize);
    assert forall|q: int| 0 <= q < ids1.len() && #[trigger] vis1[q] implies {
        &&& count_set(ids1[q].1) != n
        &&& forall|e: EdgeView|
            node_expansion(ids1[q], lex, letters).contains(e) ==> #[trigger] edges1.contains(e)
    } by {
        assert(q < ids0.len());
        assert(ids1[q] == ids0[q]);
        if q != cur {
            assert(vis0[q]);
            assert forall|e: EdgeView| node_expansion(ids1[q], lex, letters).contains(e) implies #[trigger] edges1.contains(
                e,
            ) by {
                assert(edges0.contains(e));
            }
        }
    }
    assert forall|q: int| 0 <= q < ids1.len() implies match #[trigger] par1[q] {
        Some(p) => p < q && has_edge(edges1, ids1[p as int], ids1[q]),
        None => q < start.len(),
    } by {
        if q < ids0.len() {
            if par0[q] is Some {
                let p = par0[q]->0;
                assert(has_edge(edges0, ids0[p as int], ids0[q]));
                assert(ids1[p as int] == ids0[p as int]);
                assert(ids1[q] == ids0[q]);
            }
        } else {
            assert(has_edge(edges1, ids0[cur], ids1[q]));
            assert(ids1[cur] == ids0[cur]);
        }
    }
    assert forall|q: int| 0 <= q < ids1.len() implies #[trigger] vis1[q] || q1.contains(q as usize) by {
        if q >= ids0.len() {
            assert(q1[qa.len() + (q - ids0.len())] == q as usize);
        } else if !vis1[q] {
            assert(q != cur);
            assert(!vis0[q]);
            let j = choose|j: int| 0 <= j < q0.len() && q0[j] == q as usize;
            assert(j != slot);
            if j < slot {
                assert(qa[j] == q as usize);
                assert(q1[j] == q as usize);
            } else {
                assert(qa[j - 1] == q as usize);
                assert(q1[j - 1] == q as usize);
            }
        }
    }
    assert forall|q: int| 0 <= q < start.len() implies #[trigger] ids1[q] == start[q] by {
        assert(ids1[q] == ids0[q]);
    }
}

proof fn lemma_search_goal(
    ids0: Seq<NodeView>,
    edges0: Seq<EdgeView>,
    start: Seq<NodeView>,
    vis0: Seq<bool>,
    par0: Seq<Option<usize>>,
    q0: Seq<usize>,
    cur: int,
    ids1: Seq<NodeView>,
    edges1: Seq<EdgeView>,
    lex: Seq<Seq<Seq<char>>>,
    letters: Seq<char>,
)
    requires
        search_inv(ids0, edges0, start, vis0, par0, q0, lex, letters),
        letters.len() <= usize::MAX,
        par0.len() == ids0.len(),
        forall|q: int| 0 <= q < ids0.len() ==> on_board(#[trigger] ids0[q], letters.len()),
        0 <= cur < ids0.len(),
        ids1 == with_targets(ids0, node_expansion(ids0[cur], lex, letters)),
        edges1 == edges0 + node_expansion(ids0[cur], lex, letters),
        forall|a: int, b: int| 0 <= a < b < ids1.len() ==> ids1[a] != ids1[b],
    ensures
        forall|q: int| 0 <= q < ids1.len() ==> on_board(#[trigger] ids1[q], letters.len()),
        from_expansions(edges1, lex, letters),
        start.len() <= ids0.len() <= ids1.len(),
        forall|q: int| 0 <= q < start.len() ==> #[trigger] ids1[q] == start[q],
        forall|q: int| 0 <= q < start.len() ==> #[trigger] ids0[q] == start[q],
        forall|q: int| 0 <= q < ids0.len() ==> #[trigger] ids1[q] == ids0[q],
        parents_ok(ids0, edges1, start, par0),
{
    reveal(search_inv);
    lemma_after_expansion(ids0, edges0, cur, ids1, edges1, lex, letters);
    assert forall|q: int| 0 <= q < start.len() implies #[trigger] ids1[q] == start[q] by {
        assert(ids1[q] == ids0[q]);
    }
    assert forall|q: int| 0 <= q < ids0.len() implies match #[trigger] par0[q] {
        Some(p) => p < q && has_edge(edges1, ids0[p as int], ids0[q]),
        None => q < start.len(),
    } by {
        if par0[q] is Some {
            let p = par0[q]->0;
            assert(has_edge(edges0, ids0[p as int], ids0[q]));
        }
    }
}

/// Appends, for the nodes in slots `from` to `to`, an unvisited mark, the
/// parent `cur`, and their slot to the queue.
fn enqueue_new(
    visited: &mut Vec<bool>,
    parents: &mut Vec<Option<usize>>,
    queue: &mut Vec<usize>,
    from: usize,
    to: usize,
    cur: usize,
)
    requires
        from <= to,
    ensures
        final(visited)@ == old(visited)@ + Seq::new((to - from) as nat, |i: int| false),
        final(parents)@ == old(parents)@ + Seq::new((to - from) as nat, |i: int| Some(cur)),
        final(queue)@ == old(queue)@ + Seq::new((to - from) as nat, |i: int| (from + i) as usize),
{
    let mut c: usize = from;
    while c < to
        invariant
            from <= c <= to,
            visited@ == old(visited)@ + Seq::new((c - from) as nat, |i: int| false),
            parents@ == old(parents)@ + Seq::new((c - from) as nat, |i: int| Some(cur)),
            queue@ == old(queue)@ + Seq::new((c - from) as nat, |i: int| (from + i) as usize),
        decreases to - c,
    {
        visited.push(false);
        parents.push(Some(cur));
        queue.push(c);
        c = c + 1;
        assert(visited@ =~= old(visited)@ + Seq::new((c - from) as nat, |i: int| false));
        assert(parents@ =~= old(parents)@ + Seq::new((c - from) as nat, |i: int| Some(cur)));
        assert(queue@ =~= old(queue)@ + Seq::new((c - from) as nat, |i: int| (from + i) as usize));
    }
}

impl Graph {
    /// The identifiers along the chain of parents from a starting node down
    /// to the node in slot `cur`.
    fn trace_path(
        &self,
        parents: &Vec<Option<usize>>,
        cur: usize,
        Ghost(ids): Ghost<Seq<NodeView>>,
        Ghost(start): Ghost<Seq<NodeView>>,
    ) -> (path: Vec<NodeID>)
        requires
            parents@.len() == ids.len(),
            cur < ids.len(),
            ids.len() <= self.node_ids().len(),
            forall|q: int| 0 <= q < ids.len() ==> #[trigger] self.node_ids()[q] == ids[q],
            start.len() <= ids.len(),
            forall|q: int| 0 <= q < start.len() ==> #[trigger] ids[q] == start[q],
            parents_ok(ids, self.edge_list(), start, parents@),
        ensures
            path@.map_values(|x: NodeID| x@) == path_to(ids, parents@, cur as int),
            path@.len() > 0,
            start.contains(path@[0]@),
            path@.last()@ == ids[cur as int],
            forall|i: int|
                0 <= i < path@.len() - 1 ==> has_edge(self.edge_list(), #[trigger] path@[i]@, path@[i + 1]@),
    {
        let mut chain: Vec<usize> = Vec::new();
        chain.push(cur);
        let mut at = cur;
        let mut done = false;
        while !done
            invariant
                parents@.len() == ids.len(),
                parents_ok(ids, self.edge_list(), start, parents@),
                at < ids.len(),
                chain@.len() > 0,
                chain@[0] == cur,
                chain@.last() == at,
                forall|i: int| 0 <= i < chain@.len() ==> (#[trigger] chain@[i] as int) < ids.len(),
                forall|i: int|
                    0 <= i < chain@.len() - 1 ==> parents@[#[trigger] chain@[i] as int] == Some(chain@[i + 1]),
                done ==> parents@[at as int] is None,
                path_to(ids, parents@, cur as int) == path_to(ids, parents@, at as int) + Seq::new(
                    (chain@.len() - 1) as nat,
                    |x: int| ids[chain@[chain@.len() - 2 - x] as int],
                ),
            decreases 2 * at + if done {
                0int
            } else {
                1int
            },
        {
            match parents[at] {
                Some(p) => {
                    let ghost ch0 = chain@;
                    let ghost tail0 = Seq::new(
                        (ch0.len() - 1) as nat,
                        |x: int| ids[ch0[ch0.len() - 2 - x] as int],
                    );
                    chain.push(p);
                    assert forall|i: int| 0 <= i < chain@.len() - 1 implies parents@[#[trigger] chain@[i] as int]
                        == Some(chain@[i + 1]) by {
                        if i < ch0.len() - 1 {
                            assert(chain@[i] == ch0[i] && chain@[i + 1] == ch0[i + 1]);
                        } else {
                            assert(chain@[i] == at);
                        }
                    }
                    proof {
                        let tail1 = Seq::new(
                            (chain@.len() - 1) as nat,
                            |x: int| ids[chain@[chain@.len() - 2 - x] as int],
                        );
                        assert(p < at);
                        assert(path_to(ids, parents@, at as int) == path_to(ids, parents@, p as int).push(ids[at as int]));
                        assert(tail1 =~= seq![ids[at as int]] + tail0);
                        assert(path_to(ids, parents@, p as int) + tail1 =~= path_to(ids, parents@, p as int).push(ids[at as int]) + tail0);
                    }
                    at = p;
                },
                None => {
                    done = true;
                },
            }
        }
        let ghost len = chain@.len() as int;
        let nodes = self.nodes();
        let mut path: Vec<NodeID> = Vec::new();
        let mut i: usize = chain.len();
        while i > 0
            invariant
                len == chain@.len(),
                i <= len,
                nodes@.len() == self.node_ids().len(),
                ids.len() <= self.node_ids().len(),
                forall|q: int| 0 <= q < ids.len() ==> #[trigger] self.node_ids()[q] == ids[q],
                forall|q: int| 0 <= q < nodes@.len() ==> #[trigger] nodes@[q]@ == self.node_ids()[q],
                forall|x: int| 0 <= x < len ==> (#[trigger] chain@[x] as int) < ids.len(),
                path@.len() == len - i,
                forall|x: int| 0 <= x < path@.len() ==> #[trigger] path@[x]@ == ids[chain@[len - 1 - x] as int],
            decreases i,
        {
            i = i - 1;
            assert(nodes@[chain@[i as int] as int]@ == ids[chain@[i as int] as int]);
            path.push(nodes[chain[i]].id().copy());
        }
        proof {
            let last = chain@[len - 1];
            assert(path_to(ids, parents@, last as int) == seq![ids[last as int]]);
            assert(path@.map_values(|x: NodeID| x@) =~= seq![ids[last as int]] + Seq::new(
                (len - 1) as nat,
                |x: int| ids[chain@[len - 2 - x] as int],
            ));
            assert(path@[0]@ == ids[last as int]);
            assert(last < start.len());
            assert(ids[last as int] == start[last as int]);
            assert(path@.last()@ == ids[cur as int]);
            assert forall|x: int| 0 <= x < path@.len() - 1 implies has_edge(
                self.edge_list(),
                #[trigger] path@[x]@,
                path@[x + 1]@,
            ) by {
                let a = chain@[len - 1 - x];
                let b = chain@[len - 2 - x];
                assert(parents@[b as int] == Some(a));
            }
        }
        path
    }

    /// The slot, in `queue`, of the first node of highest priority.
    fn best_in_queue(&self, queue: &Vec<usize>) -> (r: usize)
        requires
            queue@.len() > 0,
            forall|j: int| 0 <= j < queue@.len() ==> (#[trigger] queue@[j] as int) < self.node_ids().len(),
        ensures
            r < queue@.len(),
            r == best_slot(self.node_ids(), queue@),
            forall|j: int|
                0 <= j < queue@.len() ==> priority(count_set(self.node_ids()[#[trigger] queue@[j] as int].1))
                    <= priority(count_set(self.node_ids()[queue@[r as int] as int].1)),
            forall|j: int|
                0 <= j < r ==> priority(count_set(self.node_ids()[#[trigger] queue@[j] as int].1))
                    < priority(count_set(self.node_ids()[queue@[r as int] as int].1)),
    {
        let nodes = self.nodes();
        let mut best: usize = 0;
        let mut j: usize = 1;
        while j < queue.len()
            invariant
                nodes@.len() == self.node_ids().len(),
                forall|i: int| 0 <= i < nodes@.len() ==> #[trigger] nodes@[i]@ == self.node_ids()[i],
                forall|i: int| 0 <= i < queue@.len() ==> (#[trigger] queue@[i] as int) < self.node_ids().len(),
                best < j <= queue@.len(),
                best == best_upto(self.node_ids(), queue@, j as int),
                forall|i: int|
                    0 <= i < j ==> priority(count_set(self.node_ids()[#[trigger] queue@[i] as int].1))
                        <= priority(count_set(self.node_ids()[queue@[best as int] as int].1)),
                forall|i: int|
                    0 <= i < best ==> priority(count_set(self.node_ids()[#[trigger] queue@[i] as int].1))
                        < priority(count_set(self.node_ids()[queue@[best as int] as int].1)),
            decreases queue@.len() - j,
        {
            assert(nodes@[queue@[j as int] as int]@ == self.node_ids()[queue@[j as int] as int]);
            assert(nodes@[queue@[best as int] as int]@ == self.node_ids()[queue@[best as int] as int]);
            if nodes[queue[j]].ranks_above(&nodes[queue[best]]) {
                best = j;
            }
            j = j + 1;
        }
        best
    }

    /// Searches best first for a node that covers the whole board.
    ///
    /// Every node is queued; the queued node of highest priority (by score,
    /// a score of 1 lowest; the earliest queued among equals) is taken and,
    /// unless already visited, expanded. If it covers all of `letters`, the
    /// path of parents from a node of the starting graph to it is returned.
    /// Otherwise the nodes that its expansion created are queued with it as
    /// their parent. `None` if the queue runs out: then every node of the
    /// graph has been expanded and none covers the board.
    pub fn get_node_path(&mut self, letters: &str, lexicon: &Lexicon) -> (r: Option<Vec<NodeID>>)
        requires
            old(self).wf(),
            letters@.len() >= 4,
            forall|k: int|
                0 <= k < old(self).node_ids().len() ==> on_board(
                    #[trigger] old(self).node_ids()[k],
                    letters@.len(),
                ),
            from_expansions(old(self).edge_list(), lexicon@, letters@),
        ensures
            final(self).wf(),
            forall|k: int|
                0 <= k < final(self).node_ids().len() ==> on_board(
                    #[trigger] final(self).node_ids()[k],
                    letters@.len(),
                ),
            from_expansions(final(self).edge_list(), lexicon@, letters@),
            old(self).node_ids().len() <= final(self).node_ids().len(),
            forall|k: int|
                0 <= k < old(self).node_ids().len() ==> #[trigger] final(self).node_ids()[k]
                    == old(self).node_ids()[k],
            (path_view(r), final(self).node_ids(), final(self).edge_list()) == search_result(
                old(self).node_ids(),
                old(self).edge_list(),
                lexicon@,
                letters@,
            ),
            match r {
                Some(path) => {
                    &&& path@.len() > 0
                    &&& old(self).node_ids().contains(path@[0]@)
                    &&& count_set(path@.last()@.1) == letters@.len()
                    &&& forall|i: int|
                        0 <= i < path@.len() - 1 ==> has_edge(
                            final(self).edge_list(),
                            #[trigger] path@[i]@,
                            path@[i + 1]@,
                        )
                },
                None => forall|k: int|
                    0 <= k < final(self).node_ids().len() ==> {
                        let v = #[trigger] final(self).node_ids()[k];
                        &&& count_set(v.1) != letters@.len()
                        &&& forall|e: EdgeView|
                            node_expansion(v, lexicon@, letters@).contains(e)
                                ==> #[trigger] final(self).edge_list().contains(e)
                    },
            },
    {
        lexicon.check_wf();
        let max_score = letters.unicode_len();
        let ghost n = letters@.len();
        let ghost start = self.node_ids();
        let ghost start_edges = self.edge_list();
        let old_len = self.nodes().len();
        // The queue is a vector of node slots, scanned for the first node of
        // highest priority: std's binary heap has no model in vstd, and the
        // order among equal priorities is then fixed. Nodes are interned by
        // slot, so the visited set and the parents are vectors by slot.
        let mut queue: Vec<usize> = Vec::new();
        let mut visited: Vec<bool> = Vec::new();
        let mut parents: Vec<Option<usize>> = Vec::new();
        let mut k: usize = 0;
        while k < old_len
            invariant
                k <= old_len,
                old_len == start.len(),
                queue@ == Seq::new(k as nat, |i: int| i as usize),
                visited@ == Seq::new(k as nat, |i: int| false),
                parents@ == Seq::new(k as nat, |i: int| None::<usize>),
            decreases old_len - k,
        {
            queue.push(k);
            visited.push(false);
            parents.push(None);
            k = k + 1;
            assert(queue@ =~= Seq::new(k as nat, |i: int| i as usize));
            assert(visited@ =~= Seq::new(k as nat, |i: int| false));
            assert(parents@ =~= Seq::new(k as nat, |i: int| None::<usize>));
        }
        proof {
            self.lemma_distinct();
            lemma_node_count(self.node_ids(), n);
            reveal(search_inv);
            assert forall|i: int| 0 <= i < start.len() implies #[trigger] visited@[i] || queue@.contains(
                i as usize,
            ) by {
                assert(queue@[i] == i as usize);
            }
            assert(parents_ok(self.node_ids(), self.edge_list(), start, parents@));
            assert(initial_state(start, start_edges) =~= (self.node_ids(), self.edge_list(), visited@, parents@, queue@));
        }
        let ghost mut fuel: nat = search_measure(initial_state(start, start_edges), n) as nat;
        while queue.len() > 0
            invariant
                self.wf(),
                lexicon.wf(),
                n == letters@.len(),
                n >= 4,
                max_score == n,
                forall|q: int| 0 <= q < self.node_ids().len() ==> on_board(#[trigger] self.node_ids()[q], n),
                self.node_ids().len() <= node_space(n),
                visited@.len() == self.node_ids().len(),
                parents@.len() == self.node_ids().len(),
                forall|j: int| 0 <= j < queue@.len() ==> (#[trigger] queue@[j] as int) < self.node_ids().len(),
                search_inv(self.node_ids(), self.edge_list(), start, visited@, parents@, queue@, lexicon@, letters@),
                start == old(self).node_ids(),
                start_edges == old(self).edge_list(),
                search_measure((self.node_ids(), self.edge_list(), visited@, parents@, queue@), n) <= fuel,
                search_outcome(
                    (self.node_ids(), self.edge_list(), visited@, parents@, queue@),
                    lexicon@,
                    letters@,
                    fuel,
                ) == search_result(start, start_edges, lexicon@, letters@),
            decreases 2 * (node_space(n) - self.node_ids().len()) + queue@.len(),
        {
            let total = self.nodes().len();
            assert(total == self.node_ids().len());
            let slot = self.best_in_queue(&queue);
            let ghost q0 = queue@;
            let ghost s0 = (self.node_ids(), self.edge_list(), visited@, parents@, queue@);
            let cur = queue.remove(slot);
            if visited[cur] {
                proof {
                    assert(search_outcome(s0, lexicon@, letters@, fuel) == search_outcome(
                        (self.node_ids(), self.edge_list(), visited@, parents@, queue@),
                        lexicon@,
                        letters@,
                        (fuel - 1) as nat,
                    ));
                    fuel = (fuel - 1) as nat;
                    lemma_search_skip(self.node_ids(), self.edge_list(), start, visited@, parents@, q0, slot as int, lexicon@, letters@);
                    assert forall|j: int| 0 <= j < queue@.len() implies (#[trigger] queue@[j] as int) < self.node_ids().len() by {
                        if j < slot {
                            assert(queue@[j] == q0[j]);
                        } else {
                            assert(queue@[j] == q0[j + 1]);
                        }
                    }
                }
                continue;
            }
            let ghost ids0 = self.node_ids();
            let ghost edges0 = self.edge_list();
            let ghost vis0 = visited@;
            let ghost par0 = parents@;
            let before = self.nodes().len();
            let id = self.nodes()[cur].id().copy();
            let score = self.nodes()[cur].score();
            assert(on_board(ids0[cur as int], n));
            self.generate_edges_for_node(&id, letters, lexicon);
            proof {
                self.lemma_distinct();
            }
            if score == max_score {
                proof {
                    lemma_search_goal(ids0, edges0, start, vis0, par0, q0, cur as int, self.node_ids(), self.edge_list(), lexicon@, letters@);
                }
                let path = self.trace_path(&parents, cur, Ghost(ids0), Ghost(start));
                proof {
                    assert(search_outcome(s0, lexicon@, letters@, fuel) == (
                        Some(path_to(ids0, par0, cur as int)),
                        self.node_ids(),
                        self.edge_list(),
                    ));
                }
                return Some(path);
            }
            visited.set(cur, true);
            let after = self.nodes().len();
            enqueue_new(&mut visited, &mut parents, &mut queue, before, after, cur);
            proof {
                assert(expanded_state(s0, slot as int, lexicon@, letters@) == (
                    self.node_ids(),
                    self.edge_list(),
                    visited@,
                    parents@,
                    queue@,
                ));
                assert(search_outcome(s0, lexicon@, letters@, fuel) == search_outcome(
                    (self.node_ids(), self.edge_list(), visited@, parents@, queue@),
                    lexicon@,
                    letters@,
                    (fuel - 1) as nat,
                ));
                fuel = (fuel - 1) as nat;
                lemma_search_step(ids0, edges0, start, vis0, par0, q0, slot as int, self.node_ids(), self.edge_list(), visited@, parents@, queue@, lexicon@, letters@);
                assert forall|j: int| 0 <= j < queue@.len() implies (#[trigger] queue@[j] as int) < self.node_ids().len() by {
                    if j < q0.len() - 1 {
                        let qa = q0.remove(slot as int);
                        assert(queue@[j] == qa[j]);
                        if j < slot {
                            assert(qa[j] == q0[j]);
                        } else {
                            assert(qa[j] == q0[j + 1]);
                        }
                    }
                }
            }
        }
        proof {
            reveal(search_inv);
            assert(path_view(None) == None::<Seq<NodeView>>);
            assert forall|q: int| 0 <= q < self.node_ids().len() implies #[trigger] visited@[q] by {
                assert(!queue@.contains(q as usize));
            }
            assert forall|q: int| 0 <= q < self.node_ids().len() implies {
                let v = #[trigger] self.node_ids()[q];
                &&& count_set(v.1) != letters@.len()
                &&& forall|e: EdgeView|
                    node_expansion(v, lexicon@, letters@).contains(e)
                        ==> #[trigger] self.edge_list().contains(e)
            } by {
                assert(visited@[q]);
            }
        }
        None
    }
}

} // verus!
