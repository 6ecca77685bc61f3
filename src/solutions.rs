//! Solving a puzzle: the parameters of a request, the solver, and the
//! result with its status and run time.
use crate::coverage::{count_set, single_bit};
use crate::graph::{
    from_expansions, has_edge, NodeID, lemma_expansion_edges, lemma_expansion_words, node_expansion,
    target, candidates, EdgeView, Graph, Node, NodeView,
};
use crate::lexicon::{is_lower, Lexicon};
use crate::search::{path_view, search_result};
use crate::words::is_placement;
use rand::Rng;
use std::time::{Duration, Instant};
use vstd::prelude::*;

verus! {

/// Whether a board of `n` letters has four sides of equal length.
pub open spec fn valid_size(n: nat) -> bool {
    n > 0 && n % 4 == 0
}

/// Whether `v` is a starting node: a position of the board covering that
/// position alone.
pub open spec fn is_root(v: NodeView, n: nat) -> bool {
    v.0 < n && v.1 == single_bit(n, v.0 as int)
}

/// Whether `words`, read along the nodes `states`, solve the board
/// `letters` with the dictionary `lex`: the first node is a starting node,
/// the last covers the whole board, and each word leads from one node to
/// the next as expanding the first records, starting with the letter where
/// the previous word ended and placed along a trajectory whose positions
/// extend the coverage.
pub open spec fn valid_solution(
    words: Seq<Seq<char>>,
    states: Seq<NodeView>,
    lex: Seq<Seq<Seq<char>>>,
    letters: Seq<char>,
) -> bool {
    &&& states.len() == words.len() + 1
    &&& is_root(states[0], letters.len())
    &&& count_set(states.last().1) == letters.len()
    &&& forall|i: int|
        0 <= i < words.len() ==> node_expansion(states[i], lex, letters).contains(
            (states[i], states[i + 1], #[trigger] words[i]),
        )
    &&& forall|i: int|
        0 <= i < words.len() ==> (#[trigger] words[i]).len() > 0 && words[i][0]
            == letters[states[i].0 as int]
    &&& forall|i: int|
        0 <= i < words.len() ==> placed_step(#[trigger] words[i], letters, states[i], states[i + 1])
}

/// Whether some placement of `w` on the board leads from node `u` to node
/// `v`: `v` ends where the placement does and covers what `u` covers and
/// every position of the placement.
pub open spec fn placed_step(w: Seq<char>, letters: Seq<char>, u: NodeView, v: NodeView) -> bool {
    exists|t: Seq<usize>| t.len() > 0 && is_placement(w, letters, t) && v == target(u.1, t)
}

/// Whether the nodes `ids` hold every starting node and the node of every
/// edge that expanding one of them records, and none covers the board.
pub open spec fn closed_unsolved(
    ids: Seq<NodeView>,
    lex: Seq<Seq<Seq<char>>>,
    letters: Seq<char>,
) -> bool {
    &&& forall|p: int|
        0 <= p < letters.len() ==> ids.contains((p as usize, #[trigger] single_bit(letters.len(), p)))
    &&& forall|k: int| 0 <= k < ids.len() ==> count_set((#[trigger] ids[k]).1) != letters.len()
    &&& forall|k: int, e: EdgeView|
        0 <= k < ids.len() && #[trigger] node_expansion(ids[k], lex, letters).contains(e)
            ==> ids.contains(e.1)
}

/// Whether the search can reach no node that covers the board: some set of
/// nodes closed under expansion holds every starting node and no node that
/// covers the board.
pub open spec fn unsolvable(lex: Seq<Seq<Seq<char>>>, letters: Seq<char>) -> bool {
    exists|ids: Seq<NodeView>| #[trigger] closed_unsolved(ids, lex, letters)
}

/// The word of the first edge of `es` from `u` to `v`.
pub open spec fn edge_word(es: Seq<EdgeView>, u: NodeView, v: NodeView) -> Seq<char>
    decreases es.len(),
{
    if es.len() == 0 {
        seq![]
    } else if es[0].0 == u && es[0].1 == v {
        es[0].2
    } else {
        edge_word(es.drop_first(), u, v)
    }
}

/// The words along `path`, each that of the first edge of `es` between two
/// consecutive nodes.
pub open spec fn words_along(path: Seq<NodeView>, es: Seq<EdgeView>) -> Seq<Seq<char>> {
    Seq::new((path.len() - 1) as nat, |i: int| edge_word(es, path[i], path[i + 1]))
}

/// The starting nodes of a board of `n` letters, one per position.
pub open spec fn root_ids(n: nat) -> Seq<NodeView> {
    Seq::new(n, |i: int| (i as usize, single_bit(n, i)))
}

/// How the search ends on the board `letters` with the dictionary `lex`,
/// started from the starting nodes and no edge.
pub open spec fn solve_outcome(lex: Seq<Seq<Seq<char>>>, letters: Seq<char>) -> (
    Option<Seq<NodeView>>,
    Seq<NodeView>,
    Seq<EdgeView>,
) {
    search_result(root_ids(letters.len()), seq![], lex, letters)
}

/// Whether `r` is what solving `letters` with `lex` gives: the path that
/// the search ends with, the words along it, and the graph it explored; or
/// `None` where the search finds no path.
pub open spec fn solved(r: Option<Solution>, lex: Seq<Seq<Seq<char>>>, letters: Seq<char>) -> bool {
    let o = solve_outcome(lex, letters);
    match r {
        Some(s) => {
            &&& o.0 == Some(s.state_list())
            &&& s.word_list() == words_along(s.state_list(), o.2)
            &&& s.graph_view().node_ids() == o.1
            &&& s.graph_view().edge_list() == o.2
        },
        None => o.0 is None,
    }
}

proof fn lemma_edge_word(es: Seq<EdgeView>, u: NodeView, v: NodeView, j: int)
    requires
        0 <= j < es.len(),
        es[j].0 == u && es[j].1 == v,
        forall|k: int| 0 <= k < j ==> !(#[trigger] es[k].0 == u && es[k].1 == v),
    ensures
        edge_word(es, u, v) == es[j].2,
    decreases j,
{
    if j > 0 {
        assert(!(es[0].0 == u && es[0].1 == v));
        assert forall|k: int| 0 <= k < j - 1 implies !(#[trigger] es.drop_first()[k].0 == u
            && es.drop_first()[k].1 == v) by {
            assert(es.drop_first()[k] == es[k + 1]);
        }
        lemma_edge_word(es.drop_first(), u, v, j - 1);
    }
}

/// Solving is deterministic: two results of solving one board with one
/// dictionary agree in whether a solution was found, and in its words, its
/// nodes and the graph explored.
pub proof fn lemma_solve_deterministic(
    a: Option<Solution>,
    b: Option<Solution>,
    lex: Seq<Seq<Seq<char>>>,
    letters: Seq<char>,
)
    requires
        solved(a, lex, letters),
        solved(b, lex, letters),
    ensures
        a is Some <==> b is Some,
        a is Some ==> {
            let x = a->0;
            let y = b->0;
            &&& x.word_list() == y.word_list()
            &&& x.state_list() == y.state_list()
            &&& x.graph_view().node_ids() == y.graph_view().node_ids()
            &&& x.graph_view().edge_list() == y.graph_view().edge_list()
        },
{
}

proof fn lemma_full_count(s: Seq<bool>)
    requires
        count_set(s) == s.len(),
    ensures
        forall|j: int| 0 <= j < s.len() ==> #[trigger] s[j],
    decreases s.len(),
{
    if s.len() > 0 {
        lemma_count_le(s.drop_last());
        lemma_full_count(s.drop_last());
        assert forall|j: int| 0 <= j < s.len() implies #[trigger] s[j] by {
            if j < s.len() - 1 {
                assert(s[j] == s.drop_last()[j]);
            }
        }
    }
}

proof fn lemma_count_le(s: Seq<bool>)
    ensures
        count_set(s) <= s.len(),
    decreases s.len(),
{
    if s.len() > 0 {
        lemma_count_le(s.drop_last());
    }
}

/// Whether the letter at position `j` is the first letter of the first word
/// or a letter of one of the first `m` words.
spec fn letter_used(words: Seq<Seq<char>>, letters: Seq<char>, j: int, m: int) -> bool {
    letters[j] == words[0][0] || exists|i: int, k: int|
        0 <= i < m && 0 <= k < words[i].len() && letters[j] == #[trigger] words[i][k]
}

proof fn lemma_covered_letters_used(
    words: Seq<Seq<char>>,
    states: Seq<NodeView>,
    lex: Seq<Seq<Seq<char>>>,
    letters: Seq<char>,
    m: int,
)
    requires
        valid_solution(words, states, lex, letters),
        words.len() > 0,
        letters.len() <= usize::MAX,
        0 <= m <= words.len(),
    ensures
        states[m].1.len() == letters.len(),
        forall|j: int| 0 <= j < letters.len() && #[trigger] states[m].1[j] ==> letter_used(words, letters, j, m),
    decreases m,
{
    if m == 0 {
        assert forall|j: int| 0 <= j < letters.len() && #[trigger] states[0].1[j] implies letter_used(
            words,
            letters,
            j,
            0,
        ) by {
            assert(j == states[0].0 as int);
        }
    } else {
        lemma_covered_letters_used(words, states, lex, letters, m - 1);
        let w = words[m - 1];
        assert(placed_step(w, letters, states[m - 1], states[m]));
        let t = choose|t: Seq<usize>|
            t.len() > 0 && is_placement(w, letters, t) && states[m] == target(states[m - 1].1, t);
        assert forall|j: int| 0 <= j < letters.len() && #[trigger] states[m].1[j] implies letter_used(
            words,
            letters,
            j,
            m,
        ) by {
            if states[m - 1].1[j] {
                assert(letter_used(words, letters, j, m - 1));
                if letters[j] != words[0][0] {
                    let (i, k) = choose|i: int, k: int|
                        0 <= i < m - 1 && 0 <= k < words[i].len() && letters[j] == #[trigger] words[i][k];
                    assert(letters[j] == words[i][k]);
                }
            } else {
                assert(t.contains(j as usize));
                let x = choose|x: int| 0 <= x < t.len() && t[x] == j as usize;
                assert(letters[t[x] as int] == w[x]);
                assert(letters[j] == words[m - 1][x]);
            }
        }
    }
}

/// A solution uses every letter of the board: each is the first letter of
/// the first word or a letter of some word.
pub proof fn lemma_solution_uses_every_letter(
    words: Seq<Seq<char>>,
    states: Seq<NodeView>,
    lex: Seq<Seq<Seq<char>>>,
    letters: Seq<char>,
)
    requires
        valid_solution(words, states, lex, letters),
        words.len() > 0,
        letters.len() <= usize::MAX,
    ensures
        forall|j: int|
            #![trigger letters[j]]
            0 <= j < letters.len() ==> exists|i: int, k: int|
                0 <= i < words.len() && 0 <= k < words[i].len() && letters[j] == #[trigger] words[i][k],
{
    let m = words.len() as int;
    lemma_covered_letters_used(words, states, lex, letters, m);
    assert(states[m] == states.last());
    lemma_full_count(states[m].1);
    assert forall|j: int|
        #![trigger letters[j]]
        0 <= j < letters.len() implies exists|i: int, k: int|
        0 <= i < words.len() && 0 <= k < words[i].len() && letters[j] == #[trigger] words[i][k] by {
        assert(states[m].1[j]);
        assert(letter_used(words, letters, j, m));
        if letters[j] == words[0][0] {
            assert(letters[j] == words[0][0]);
        }
    }
}

/// In a solution each word after the first starts with the letter that the
/// word before it ended with, and the last node covers the whole board.
pub proof fn lemma_solution_chains(
    words: Seq<Seq<char>>,
    states: Seq<NodeView>,
    lex: Seq<Seq<Seq<char>>>,
    letters: Seq<char>,
)
    requires
        valid_solution(words, states, lex, letters),
    ensures
        forall|i: int|
            1 <= i < words.len() ==> (#[trigger] words[i])[0] == words[i - 1][words[i - 1].len()
                - 1],
        count_set(states[states.len() - 1].1) == letters.len(),
{
    assert forall|i: int| 1 <= i < words.len() implies (#[trigger] words[i])[0] == words[i - 1][words[i
        - 1].len() - 1] by {
        let w = words[i - 1];
        assert(placed_step(w, letters, states[i - 1], states[i]));
        let t = choose|t: Seq<usize>|
            t.len() > 0 && is_placement(w, letters, t) && states[i] == target(states[i - 1].1, t);
        assert(letters[t[t.len() - 1] as int] == w[t.len() - 1]);
        assert(words[i].len() > 0);
    }
}

/// Why the parameters of a request were refused.
#[derive(Debug)]
pub enum ParamsError {
    /// The number of letters is not a positive multiple of 4.
    GameSize(String),
}

impl ParamsError {
    /// The message for the user.
    pub fn message(&self) -> (r: String)
        ensures
            r@ == match self {
                ParamsError::GameSize(m) => m@,
            },
    {
        match self {
            ParamsError::GameSize(m) => m.clone(),
        }
    }
}

/// The parameters of a request to solve a board.
#[derive(Debug, Default)]
pub struct SolveParams {
    pub letters: String,
}

impl SolveParams {
    /// The parameters for the board `letters`.
    pub fn new(letters: &str) -> (r: Result<SolveParams, ParamsError>)
        ensures
            r matches Ok(p) && p.letters@ == letters@,
    {
        Ok(SolveParams { letters: letters.to_owned() })
    }

    /// `Ok` exactly when the board has a positive multiple of 4 letters.
    pub fn validate(&self) -> (r: Result<(), ParamsError>)
        ensures
            r is Ok <==> valid_size(self.letters@.len()),
            r matches Err(ParamsError::GameSize(m)) ==> m@ == "Game size must be a multiple of 4"@,
    {
        let n = self.letters.as_str().unicode_len();
        if n == 0 || n % 4 != 0 {
            return Err(ParamsError::GameSize("Game size must be a multiple of 4".to_owned()));
        }
        Ok(())
    }
}

/// A solution: its words, the graph explored to find it, and the nodes
/// along the way.
#[derive(Debug)]
pub struct Solution {
    words: Vec<String>,
    graph: Graph,
    states: Vec<Node>,
}

impl Solution {
    /// The words of the solution, in order.
    pub closed spec fn word_list(&self) -> Seq<Seq<char>> {
        self.words.deep_view()
    }

    /// The nodes the solution passes, in order.
    pub closed spec fn state_list(&self) -> Seq<NodeView> {
        self.states@.map_values(|n: Node| n@)
    }

    /// The graph explored.
    pub closed spec fn graph_view(&self) -> Graph {
        self.graph
    }

    /// The words of the solution, in order.
    pub fn words(&self) -> (r: &Vec<String>)
        ensures
            r.deep_view() == self.word_list(),
    {
        &self.words
    }

    /// The nodes the solution passes, in order.
    pub fn states(&self) -> (r: &Vec<Node>)
        ensures
            r@.len() == self.state_list().len(),
            forall|i: int| 0 <= i < r@.len() ==> #[trigger] r@[i]@ == self.state_list()[i],
    {
        &self.states
    }

    /// The graph explored.
    pub fn graph(&self) -> (r: &Graph)
        ensures
            *r == self.graph_view(),
    {
        &self.graph
    }
}

/// A solver for the puzzle.
pub struct Solver {}

impl Solver {
    /// Solves the board of `params` with the words of `lexicon`: searches the
    /// coverage graph from the starting nodes and reads the words along the
    /// path found. `None` when no node that covers the board can be reached.
    pub fn solve(params: SolveParams, lexicon: &Lexicon) -> (r: Option<Solution>)
        requires
            valid_size(params.letters@.len()),
        ensures
            solved(r, lexicon@, params.letters@),
            match r {
                Some(s) => valid_solution(s.word_list(), s.state_list(), lexicon@, params.letters@),
                None => unsolvable(lexicon@, params.letters@),
            },
    {
        lexicon.check_wf();
        let letters = params.letters.as_str();
        let n = letters.unicode_len();
        let ghost lv = letters@;
        let mut g = Graph::from_letters(letters);
        let ghost start = g.node_ids();
        assert(start == root_ids(lv.len()));
        assert(g.edge_list() == Seq::<EdgeView>::empty());
        assert forall|k: int| 0 <= k < start.len() implies crate::bound::on_board(
            #[trigger] start[k],
            lv.len(),
        ) by {
            assert(start[k] == (k as usize, single_bit(lv.len(), k)));
        }
        let node_ids = match g.get_node_path(letters, lexicon) {
            Some(p) => p,
            None => {
                proof {
                    let ids = g.node_ids();
                    g.lemma_edge_ends();
                    assert forall|p: int| 0 <= p < lv.len() implies ids.contains(
                        (p as usize, #[trigger] single_bit(lv.len(), p)),
                    ) by {
                        assert(ids[p] == start[p]);
                    }
                    assert forall|k: int, e: EdgeView|
                        0 <= k < ids.len() && #[trigger] node_expansion(ids[k], lexicon@, lv).contains(e)
                            implies ids.contains(e.1) by {
                        assert(g.edge_list().contains(e));
                        let j = choose|j: int| 0 <= j < g.edge_list().len() && g.edge_list()[j] == e;
                        assert(ids.contains(g.edge_list()[j].1));
                    }
                    assert(closed_unsolved(ids, lexicon@, lv));
                    assert(path_view(None) == None::<Seq<NodeView>>);
                }
                return None;
            },
        };
        let mut words: Vec<String> = Vec::new();
        let mut states: Vec<Node> = Vec::new();
        let mut i: usize = 0;
        while i < node_ids.len()
            invariant
                node_ids@.len() > 0,
                i <= node_ids@.len(),
                forall|x: int|
                    0 <= x < node_ids@.len() - 1 ==> has_edge(
                        g.edge_list(),
                        #[trigger] node_ids@[x]@,
                        node_ids@[x + 1]@,
                    ),
                from_expansions(g.edge_list(), lexicon@, lv),
                states@.len() == i,
                forall|x: int| 0 <= x < i ==> #[trigger] states@[x]@ == node_ids@[x]@,
                words@.len() == if i == node_ids@.len() {
                    i - 1
                } else {
                    i as int
                },
                forall|x: int|
                    0 <= x < words@.len() ==> node_expansion(node_ids@[x]@, lexicon@, lv).contains(
                        (node_ids@[x]@, node_ids@[x + 1]@, #[trigger] words@[x]@),
                    ),
                forall|x: int|
                    0 <= x < words@.len() ==> #[trigger] words@[x]@ == edge_word(
                        g.edge_list(),
                        node_ids@[x]@,
                        node_ids@[x + 1]@,
                    ),
            decreases node_ids@.len() - i,
        {
            if i != node_ids.len() - 1 {
                match g.get_edge(&node_ids[i], &node_ids[i + 1]) {
                    Some(e) => {
                        let ghost j = choose|j: int|
                            0 <= j < g.edge_list().len() && g.edge_list()[j] == e@ && e@.0
                                == node_ids@[i as int]@ && e@.1 == node_ids@[i + 1]@ && forall|k: int|
                                0 <= k < j ==> !(#[trigger] g.edge_list()[k].0 == node_ids@[i as int]@
                                    && g.edge_list()[k].1 == node_ids@[i + 1]@);
                        assert(node_expansion(g.edge_list()[j].0, lexicon@, lv).contains(g.edge_list()[j]));
                        let ghost w0 = words@;
                        words.push(e.word().clone());
                        assert(words@[i as int]@ == e@.2);
                        proof {
                            lemma_edge_word(g.edge_list(), node_ids@[i as int]@, node_ids@[i + 1]@, j);
                        }
                        assert forall|x: int| 0 <= x < words@.len() implies node_expansion(node_ids@[x]@, lexicon@, lv).contains(
                            (node_ids@[x]@, node_ids@[x + 1]@, #[trigger] words@[x]@),
                        ) && words@[x]@ == edge_word(g.edge_list(), node_ids@[x]@, node_ids@[x + 1]@) by {
                            if x < i {
                                assert(words@[x] == w0[x]);
                            }
                        }
                    },
                    None => {
                        assert(has_edge(g.edge_list(), node_ids@[i as int]@, node_ids@[i + 1]@));
                        return None;
                    },
                }
            }
            states.push(Node::from_id(node_ids[i].copy()));
            i = i + 1;
        }
        let ghost wv = words.deep_view();
        let ghost sv = states@.map_values(|n: Node| n@);
        proof {
            assert(sv[0] == node_ids@[0]@);
            assert(start.contains(sv[0]));
            let p = choose|p: int| 0 <= p < start.len() && start[p] == sv[0];
            assert(start[p] == (p as usize, single_bit(lv.len(), p)));
            assert(sv.last() == node_ids@.last()@);
            assert forall|x: int| 0 <= x < wv.len() implies node_expansion(sv[x], lexicon@, lv).contains(
                (sv[x], sv[x + 1], #[trigger] wv[x]),
            ) by {
                assert(wv[x] == words@[x]@);
            }
            assert forall|x: int| 0 <= x < wv.len() implies (#[trigger] wv[x]).len() > 0 && wv[x][0]
                == lv[sv[x].0 as int] by {
                let e = (sv[x], sv[x + 1], wv[x]);
                assert(node_expansion(sv[x], lexicon@, lv).contains(e));
                let m = choose|m: int| 0 <= m < node_expansion(sv[x], lexicon@, lv).len() && node_expansion(sv[x], lexicon@, lv)[m] == e;
                g.lemma_edge_ends();
                assert(has_edge(g.edge_list(), node_ids@[x]@, node_ids@[x + 1]@));
                let j = choose|j: int| 0 <= j < g.edge_list().len() && (#[trigger] g.edge_list()[j]).0 == node_ids@[x]@ && g.edge_list()[j].1 == node_ids@[x + 1]@;
                assert(g.node_ids().contains(g.edge_list()[j].0));
                let q = choose|q: int| 0 <= q < g.node_ids().len() && g.node_ids()[q] == sv[x];
                assert(crate::bound::on_board(g.node_ids()[q], lv.len()));
                lemma_expansion_words(sv[x], lexicon@, lv);
                assert(node_expansion(sv[x], lexicon@, lv)[m].2 == wv[x]);
            }
            assert forall|x: int| 0 <= x < wv.len() implies placed_step(
                #[trigger] wv[x],
                lv,
                sv[x],
                sv[x + 1],
            ) by {
                let e = (sv[x], sv[x + 1], wv[x]);
                let exp = node_expansion(sv[x], lexicon@, lv);
                assert(exp.contains(e));
                let m = choose|m: int| 0 <= m < exp.len() && exp[m] == e;
                let cands = candidates(lexicon@, lv, sv[x].0 as int);
                lemma_expansion_edges(sv[x], cands, lv, cands.len() as int);
                assert(exp[m] == e);
                let t = choose|t: Seq<usize>|
                    t.len() > 0 && is_placement(exp[m].2, lv, t) && exp[m].1 == target(sv[x].1, t);
                assert(t.len() > 0 && is_placement(wv[x], lv, t) && sv[x + 1] == target(sv[x].1, t));
            }
            assert(sv.len() == wv.len() + 1);
            assert(is_root(sv[0], lv.len()));
            assert(count_set(sv.last().1) == lv.len());
            assert(valid_solution(wv, sv, lexicon@, lv));
            assert(sv =~= node_ids@.map_values(|x: NodeID| x@));
            assert(wv =~= words_along(sv, g.edge_list()));
        }
        Some(Solution { words, graph: g, states })
    }
}

/// Why a search failed.
#[derive(Debug, Clone, Copy, PartialEq, Eq, Structural)]
#[allow(non_camel_case_types)]
pub enum SolutionError {
    /// No node that covers the board can be reached.
    GENERAL,
}

/// Whether a search succeeded.
#[derive(Debug, Clone, Copy, PartialEq, Eq, Structural)]
#[allow(non_camel_case_types)]
pub enum SolutionStatus {
    /// A solution was found.
    SUCCESS,
    /// No solution was found, for the reason given.
    FAIL(SolutionError),
}

/// What is known of a search besides its solution: its status and how long
/// it took.
#[derive(Debug)]
pub struct SolutionMeta {
    status: SolutionStatus,
    runtime: Duration,
}

impl SolutionMeta {
    /// The status of the search.
    pub closed spec fn spec_status(&self) -> SolutionStatus {
        self.status
    }

    /// How long the search took.
    pub closed spec fn spec_runtime(&self) -> Duration {
        self.runtime
    }

    /// The status of the search.
    pub fn status(&self) -> (r: SolutionStatus)
        ensures
            r == self.spec_status(),
    {
        self.status
    }

    /// How long the search took.
    pub fn runtime(&self) -> (r: &Duration)
        ensures
            *r == self.spec_runtime(),
    {
        &self.runtime
    }
}

/// The outcome of a request: the solution, if any, and the search's
/// status and run time.
#[derive(Debug)]
pub struct SolutionResult {
    solution: Option<Solution>,
    meta: SolutionMeta,
}

/// std's `Instant`, a point in time, held opaque.
#[verifier::external_type_specification]
#[verifier::external_body]
pub struct ExInstant(Instant);

/// Relies on std's `Instant::now`: the current time, of which nothing is
/// claimed.
#[verifier::external_body]
fn instant_now() -> Instant {
    Instant::now()
}

/// Relies on std's `Instant::elapsed`: the time since `start`, of which
/// nothing is claimed.
#[verifier::external_body]
fn elapsed_since(start: &Instant) -> Duration {
    start.elapsed()
}

impl SolutionResult {
    /// The solution, if one was found.
    pub closed spec fn spec_solution(&self) -> Option<Solution> {
        self.solution
    }

    /// The status and run time of the search.
    pub closed spec fn spec_meta(&self) -> SolutionMeta {
        self.meta
    }

    /// Solves the board of `params` and times the search. The status is
    /// `SUCCESS` with a solution, `FAIL(GENERAL)` without one.
    pub fn from_params(params: SolveParams, lexicon: &Lexicon) -> (r: SolutionResult)
        requires
            valid_size(params.letters@.len()),
        ensures
            solved(r.spec_solution(), lexicon@, params.letters@),
            match r.spec_solution() {
                Some(s) => r.spec_meta().spec_status() == SolutionStatus::SUCCESS && valid_solution(
                    s.word_list(),
                    s.state_list(),
                    lexicon@,
                    params.letters@,
                ),
                None => r.spec_meta().spec_status() == SolutionStatus::FAIL(SolutionError::GENERAL)
                    && unsolvable(lexicon@, params.letters@),
            },
    {
        let now = instant_now();
        let solution = Solver::solve(params, lexicon);
        let runtime = elapsed_since(&now);
        SolutionResult::new(solution, runtime)
    }

    /// The result of a search that gave `solution` and took `runtime`: the
    /// status is `SUCCESS` with a solution, `FAIL(GENERAL)` without one.
    pub fn new(solution: Option<Solution>, runtime: Duration) -> (r: SolutionResult)
        ensures
            r.spec_solution() == solution,
            r.spec_meta().spec_runtime() == runtime,
            r.spec_meta().spec_status() == (if solution is Some {
                SolutionStatus::SUCCESS
            } else {
                SolutionStatus::FAIL(SolutionError::GENERAL)
            }),
    {
        let status = match solution {
            Some(_) => SolutionStatus::SUCCESS,
            None => SolutionStatus::FAIL(SolutionError::GENERAL),
        };
        SolutionResult { solution, meta: SolutionMeta { status, runtime } }
    }

    /// The solution, if one was found.
    pub fn solution(&self) -> (r: &Option<Solution>)
        ensures
            *r == self.spec_solution(),
    {
        &self.solution
    }

    /// The status and run time of the search.
    pub fn meta(&self) -> (r: &SolutionMeta)
        ensures
            *r == self.spec_meta(),
    {
        &self.meta
    }
}

/// Relies on rand's `thread_rng` and `Rng::gen_range`: a number drawn from
/// `0..bound`, a range that `gen_range` panics on only when it is empty.
#[verifier::external_body]
fn random_below(bound: usize) -> (r: usize)
    requires
        bound > 0,
    ensures
        r < bound,
{
    rand::thread_rng().gen_range(0..bound)
}

/// Relies on std's `String::push`: appends the character `c`.
#[verifier::external_body]
fn push_char(s: &mut String, c: char)
    ensures
        final(s)@ == old(s)@.push(c),
{
    s.push(c)
}

/// The letter numbered `d` from 0 for 'a'.
pub open spec fn letter_for(d: int) -> char {
    (97 + d) as u8 as char
}

/// The string whose `k`-th letter is the one numbered `draws[k]`.
pub fn letters_from_draws(draws: &Vec<usize>) -> (r: String)
    requires
        forall|k: int| 0 <= k < draws@.len() ==> #[trigger] draws@[k] < 26,
    ensures
        r@.len() == draws@.len(),
        forall|k: int| 0 <= k < draws@.len() ==> #[trigger] r@[k] == letter_for(draws@[k] as int),
        forall|k: int| 0 <= k < draws@.len() ==> is_lower(#[trigger] r@[k]),
{
    let mut r = String::new();
    let mut i: usize = 0;
    while i < draws.len()
        invariant
            forall|k: int| 0 <= k < draws@.len() ==> #[trigger] draws@[k] < 26,
            i <= draws@.len(),
            r@.len() == i,
            forall|k: int| 0 <= k < i ==> #[trigger] r@[k] == letter_for(draws@[k] as int),
            forall|k: int| 0 <= k < i ==> is_lower(#[trigger] r@[k]),
        decreases draws@.len() - i,
    {
        let d = draws[i];
        let c = (97u8 + d as u8) as char;
        push_char(&mut r, c);
        i = i + 1;
    }
    r
}

/// A random string of `length` lowercase letters, each drawn uniformly.
pub fn random_string(length: usize) -> (r: String)
    ensures
        r@.len() == length,
        forall|i: int| 0 <= i < length ==> is_lower(#[trigger] r@[i]),
{
    let mut draws: Vec<usize> = Vec::new();
    let mut i: usize = 0;
    while i < length
        invariant
            i <= length,
            draws@.len() == i,
            forall|k: int| 0 <= k < i ==> #[trigger] draws@[k] < 26,
        decreases length - i,
    {
        draws.push(random_below(26));
        i = i + 1;
    }
    letters_from_draws(&draws)
}

} // verus!
