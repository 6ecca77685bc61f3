//! How many distinct nodes a board of `n` letters can have: at most
//! `n * 2^n`, one per last position and coverage state.
use crate::graph::NodeView;
use vstd::prelude::*;
use vstd::set_lib::{lemma_int_range, lemma_len_subset, set_int_range};

verus! {

/// Two to the power `n`.
pub open spec fn pow2(n: nat) -> nat
    decreases n,
{
    if n == 0 {
        1
    } else {
        2 * pow2((n - 1) as nat)
    }
}

/// The number whose binary digits, last first, are `s`.
pub open spec fn bits_value(s: Seq<bool>) -> nat
    decreases s.len(),
{
    if s.len() == 0 {
        0
    } else {
        2 * bits_value(s.drop_last()) + if s.last() {
            1nat
        } else {
            0nat
        }
    }
}

/// The number of distinct node identifiers on a board of `n` letters.
pub open spec fn node_space(n: nat) -> nat {
    n * pow2(n)
}

/// Whether `v` can be a node on a board of `n` letters.
pub open spec fn on_board(v: NodeView, n: nat) -> bool {
    v.0 < n && v.1.len() == n
}

spec fn node_code(v: NodeView, n: nat) -> int {
    v.0 as int * pow2(n) + bits_value(v.1)
}

proof fn lemma_bits_value_bound(s: Seq<bool>)
    ensures
        bits_value(s) < pow2(s.len()),
    decreases s.len(),
{
    if s.len() > 0 {
        lemma_bits_value_bound(s.drop_last());
    }
}

proof fn lemma_bits_value_injective(a: Seq<bool>, b: Seq<bool>)
    requires
        a.len() == b.len(),
        bits_value(a) == bits_value(b),
    ensures
        a == b,
    decreases a.len(),
{
    if a.len() > 0 {
        lemma_bits_value_injective(a.drop_last(), b.drop_last());
        assert forall|i: int| 0 <= i < a.len() implies a[i] == b[i] by {
            if i < a.len() - 1 {
                assert(a[i] == a.drop_last()[i]);
                assert(b[i] == b.drop_last()[i]);
            }
        }
        assert(a =~= b);
    }
}

proof fn lemma_code_range(v: NodeView, n: nat)
    requires
        on_board(v, n),
    ensures
        0 <= node_code(v, n) < node_space(n),
{
    lemma_bits_value_bound(v.1);
    let p = pow2(n) as int;
    let x = v.0 as int;
    let b = bits_value(v.1) as int;
    assert(0 <= x * p + b < n * p) by (nonlinear_arith)
        requires
            0 <= x < n,
            0 <= b < p,
    ;
}

proof fn lemma_code_injective(v: NodeView, w: NodeView, n: nat)
    requires
        on_board(v, n),
        on_board(w, n),
        node_code(v, n) == node_code(w, n),
    ensures
        v == w,
{
    lemma_bits_value_bound(v.1);
    lemma_bits_value_bound(w.1);
    let p = pow2(n) as int;
    let x = v.0 as int;
    let y = w.0 as int;
    let a = bits_value(v.1) as int;
    let b = bits_value(w.1) as int;
    assert(x == y) by (nonlinear_arith)
        requires
            0 <= a < p,
            0 <= b < p,
            x * p + a == y * p + b,
            0 <= x,
            0 <= y,
    {
        if x < y {
            assert(x * p + p <= y * p);
        } else if y < x {
            assert(y * p + p <= x * p);
        }
    }
    lemma_bits_value_injective(v.1, w.1);
}

/// A sequence of distinct node identifiers on a board of `n` letters has at
/// most `n * 2^n` entries.
pub proof fn lemma_node_count(ids: Seq<NodeView>, n: nat)
    requires
        forall|k: int| 0 <= k < ids.len() ==> on_board(#[trigger] ids[k], n),
        forall|a: int, b: int| 0 <= a < b < ids.len() ==> ids[a] != ids[b],
    ensures
        ids.len() <= node_space(n),
{
    let codes = ids.map_values(|v: NodeView| node_code(v, n));
    assert forall|a: int, b: int| 0 <= a < b < codes.len() implies codes[a] != codes[b] by {
        lemma_code_injective_contra(ids[a], ids[b], n);
    }
    assert(codes.no_duplicates());
    codes.unique_seq_to_set();
    assert forall|c: int| codes.to_set().contains(c) implies set_int_range(0, node_space(n) as int).contains(c) by {
        let k = choose|k: int| 0 <= k < codes.len() && codes[k] == c;
        lemma_code_range(ids[k], n);
    }
    lemma_int_range(0, node_space(n) as int);
    lemma_len_subset(codes.to_set(), set_int_range(0, node_space(n) as int));
}

proof fn lemma_code_injective_contra(v: NodeView, w: NodeView, n: nat)
    requires
        on_board(v, n),
        on_board(w, n),
        v != w,
    ensures
        node_code(v, n) != node_code(w, n),
{
    if node_code(v, n) == node_code(w, n) {
        lemma_code_injective(v, w, n);
    }
}

} // verus!
