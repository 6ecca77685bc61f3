//! Coverage states: which board positions a partial solution has used.
//!
//! A `Coverage` is a bit vector as wide as the board, so boards of any size
//! are covered.
use crate::words::WordTrajectory;
use vstd::prelude::*;

verus! {

/// The number of set bits of `s`.
pub open spec fn count_set(s: Seq<bool>) -> nat
    decreases s.len(),
{
    if s.len() == 0 {
        0
    } else {
        count_set(s.drop_last()) + if s.last() {
            1nat
        } else {
            0nat
        }
    }
}

/// `c` with the bits of every position of `t` set as well.
pub open spec fn covered_by(c: Seq<bool>, t: Seq<usize>) -> Seq<bool> {
    Seq::new(c.len(), |j: int| c[j] || t.contains(j as usize))
}

/// The state of width `n` with only bit `i` set.
pub open spec fn single_bit(n: nat, i: int) -> Seq<bool> {
    Seq::new(n, |j: int| j == i)
}

/// A bit vector with one bit per board position.
#[derive(Debug, Clone)]
pub struct Coverage {
    bits: Vec<bool>,
}

impl View for Coverage {
    type V = Seq<bool>;

    closed spec fn view(&self) -> Seq<bool> {
        self.bits@
    }
}

impl Coverage {
    /// The state of width `width` with no bit set.
    pub fn new(width: usize) -> (r: Coverage)
        ensures
            r@ == Seq::new(width as nat, |j: int| false),
    {
        let mut bits: Vec<bool> = Vec::new();
        let mut i: usize = 0;
        while i < width
            invariant
                i <= width,
                bits@ == Seq::new(i as nat, |j: int| false),
            decreases width - i,
        {
            bits.push(false);
            i = i + 1;
            assert(bits@ =~= Seq::new(i as nat, |j: int| false));
        }
        Coverage { bits }
    }

    /// The number of bits.
    pub fn width(&self) -> (r: usize)
        ensures
            r == self@.len(),
    {
        self.bits.len()
    }

    /// Whether bit `i` is set.
    pub fn is_set(&self, i: usize) -> (r: bool)
        requires
            i < self@.len(),
        ensures
            r == self@[i as int],
    {
        self.bits[i]
    }

    /// Sets bit `i`.
    pub fn set_bit(&mut self, i: usize)
        requires
            i < old(self)@.len(),
        ensures
            final(self)@ == old(self)@.update(i as int, true),
    {
        self.bits.set(i, true);
    }

    /// The number of set bits.
    pub fn count_ones(&self) -> (r: usize)
        ensures
            r == count_set(self@),
    {
        let mut r: usize = 0;
        let mut i: usize = 0;
        while i < self.bits.len()
            invariant
                i <= self@.len(),
                r == count_set(self@.subrange(0, i as int)),
                r <= i,
            decreases self@.len() - i,
        {
            assert(self@.subrange(0, i + 1).drop_last() == self@.subrange(0, i as int));
            if self.bits[i] {
                r = r + 1;
            }
            i = i + 1;
        }
        assert(self@.subrange(0, i as int) == self@);
        r
    }

    /// A copy of this state.
    pub fn copy(&self) -> (r: Coverage)
        ensures
            r@ == self@,
    {
        let mut bits: Vec<bool> = Vec::new();
        let mut i: usize = 0;
        while i < self.bits.len()
            invariant
                i <= self@.len(),
                bits@ == self@.subrange(0, i as int),
            decreases self@.len() - i,
        {
            bits.push(self.bits[i]);
            i = i + 1;
            assert(bits@ == self@.subrange(0, i as int));
        }
        assert(self@.subrange(0, i as int) == self@);
        Coverage { bits }
    }

    /// Whether the two states are equal.
    pub fn same(&self, other: &Coverage) -> (r: bool)
        ensures
            r == (self@ == other@),
    {
        if self.bits.len() != other.bits.len() {
            return false;
        }
        let mut i: usize = 0;
        while i < self.bits.len()
            invariant
                self@.len() == other@.len(),
                i <= self@.len(),
                forall|j: int| 0 <= j < i ==> self@[j] == other@[j],
            decreases self@.len() - i,
        {
            if self.bits[i] != other.bits[i] {
                return false;
            }
            i = i + 1;
        }
        assert(self@ =~= other@);
        true
    }

    /// Sets the bit of every position of `traj`.
    pub fn cover(&mut self, traj: &WordTrajectory)
        requires
            forall|i: int| 0 <= i < traj@.len() ==> (#[trigger] traj@[i] as int) < old(self)@.len(),
        ensures
            final(self)@ == covered_by(old(self)@, traj@),
    {
        let indices = traj.indices();
        let width = self.width();
        let mut k: usize = 0;
        while k < indices.len()
            invariant
                indices@ == traj@,
                self@.len() == width,
                k <= traj@.len(),
                forall|i: int| 0 <= i < traj@.len() ==> (#[trigger] traj@[i] as int) < old(self)@.len(),
                self@ == covered_by(old(self)@, traj@.subrange(0, k as int)),
            decreases traj@.len() - k,
        {
            let p = indices[k];
            let ghost before = self@;
            self.set_bit(p);
            proof {
                let s0 = traj@.subrange(0, k as int);
                let s1 = traj@.subrange(0, k + 1);
                assert(s1 == s0.push(p));
                assert forall|j: int| 0 <= j < self@.len() implies self@[j] == (old(self)@[j]
                    || s1.contains(j as usize)) by {
                    assert(j <= usize::MAX);
                    if s0.contains(j as usize) {
                        let w = choose|w: int| 0 <= w < s0.len() && s0[w] == j as usize;
                        assert(s1[w] == j as usize);
                    }
                    if s1.contains(j as usize) && j != p {
                        let w = choose|w: int| 0 <= w < s1.len() && s1[w] == j as usize;
                        assert(w != k);
                        assert(s0[w] == s1[w]);
                    }
                    if j == p {
                        assert(s1[k as int] == p);
                    }
                }
                assert(self@ =~= covered_by(old(self)@, s1));
            }
            k = k + 1;
        }
        assert(traj@.subrange(0, k as int) == traj@);
    }
}

} // verus!
