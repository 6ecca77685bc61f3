//! Placements of a word on a board.
//!
//! A `WordTrajectory` is a sequence of board positions, one per letter of a
//! word. `WordTrajectories` enumerates, lazily and depth first, every way of
//! tracing a word across the board without using two letters of one side in a
//! row.
use std::collections::VecDeque;
use vstd::prelude::*;

verus! {

/// The number of positions on each of the four sides of a board of `n` letters.
pub open spec fn side_len(n: int) -> int {
    n / 4
}

/// Whether positions `a` and `b` of a board of `n` letters lie on one side.
pub open spec fn same_side(a: int, b: int, n: int) -> bool {
    a / side_len(n) == b / side_len(n)
}

/// The positions below `k` that hold `c`, ascending.
pub open spec fn positions_upto(letters: Seq<char>, c: char, k: int) -> Seq<usize>
    decreases k,
{
    if k <= 0 {
        seq![]
    } else if letters[k - 1] == c {
        positions_upto(letters, c, k - 1).push((k - 1) as usize)
    } else {
        positions_upto(letters, c, k - 1)
    }
}

/// The positions of the board that hold `c`, ascending.
pub open spec fn positions_of(letters: Seq<char>, c: char) -> Seq<usize> {
    positions_upto(letters, c, letters.len() as int)
}

/// Those of the first `k` entries of `occ` that may follow the trajectory `t`
/// on a board of `n` letters: any if `t` is empty, else those off the side of
/// its last position.
pub open spec fn allowed_upto(occ: Seq<usize>, t: Seq<usize>, n: int, k: int) -> Seq<usize>
    decreases k,
{
    if k <= 0 {
        seq![]
    } else if t.len() > 0 && same_side(occ[k - 1] as int, t.last() as int, n) {
        allowed_upto(occ, t, n, k - 1)
    } else {
        allowed_upto(occ, t, n, k - 1).push(occ[k - 1])
    }
}

/// The positions, ascending, by which the partial trajectory `t` of `word`
/// can be extended by one letter.
pub open spec fn next_positions(word: Seq<char>, letters: Seq<char>, t: Seq<usize>) -> Seq<usize> {
    let occ = positions_of(letters, word[t.len() as int]);
    allowed_upto(occ, t, letters.len() as int, occ.len() as int)
}

/// The complete placements of `word` that extend `t`, in enumeration order:
/// depth first, the extension by the highest position first.
pub open spec fn completions(word: Seq<char>, letters: Seq<char>, t: Seq<usize>) -> Seq<Seq<usize>>
    decreases word.len() - t.len(), 1int, 0int,
{
    if t.len() >= word.len() {
        seq![t]
    } else {
        completions_from(word, letters, t, next_positions(word, letters, t).len() as int)
    }
}

/// The completions of `t` through its first `k` extensions, the `k`-th first.
pub open spec fn completions_from(
    word: Seq<char>,
    letters: Seq<char>,
    t: Seq<usize>,
    k: int,
) -> Seq<Seq<usize>>
    decreases word.len() - t.len(), 0int, k,
{
    if k <= 0 || t.len() >= word.len() {
        seq![]
    } else {
        completions(word, letters, t.push(next_positions(word, letters, t)[k - 1]))
            + completions_from(word, letters, t, k - 1)
    }
}

/// Every placement of `word` on the board `letters`, in enumeration order.
pub open spec fn trajectories(word: Seq<char>, letters: Seq<char>) -> Seq<Seq<usize>> {
    completions(word, letters, seq![])
}

/// The number of partial trajectories that the search visits from `t` on.
pub open spec fn search_size(word: Seq<char>, letters: Seq<char>, t: Seq<usize>) -> nat
    decreases word.len() - t.len(), 1int, 0int,
{
    if t.len() >= word.len() {
        1
    } else {
        1 + search_size_from(word, letters, t, next_positions(word, letters, t).len() as int)
    }
}

/// The search size below the first `k` extensions of `t`.
pub open spec fn search_size_from(
    word: Seq<char>,
    letters: Seq<char>,
    t: Seq<usize>,
    k: int,
) -> nat
    decreases word.len() - t.len(), 0int, k,
{
    if k <= 0 || t.len() >= word.len() {
        0
    } else {
        search_size(word, letters, t.push(next_positions(word, letters, t)[k - 1]))
            + search_size_from(word, letters, t, k - 1)
    }
}

/// Whether `t` places a prefix of `word` on the board: each position holds
/// the matching letter, and no two consecutive positions share a side.
pub open spec fn is_placement_prefix(word: Seq<char>, letters: Seq<char>, t: Seq<usize>) -> bool {
    &&& t.len() <= word.len()
    &&& forall|i: int| 0 <= i < t.len() ==> (t[i] as int) < letters.len()
    &&& forall|i: int| 0 <= i < t.len() ==> letters[t[i] as int] == word[i]
    &&& forall|i: int|
        #![trigger t[i], t[i + 1]]
        0 <= i < t.len() - 1 ==> !same_side(t[i] as int, t[i + 1] as int, letters.len() as int)
}

/// Whether `t` places the whole of `word` on the board.
pub open spec fn is_placement(word: Seq<char>, letters: Seq<char>, t: Seq<usize>) -> bool {
    is_placement_prefix(word, letters, t) && t.len() == word.len()
}

/// A trajectory of word formation: the board positions of the letters
/// placed so far.
#[derive(Debug, Clone)]
pub struct WordTrajectory {
    indices: Vec<usize>,
}

impl View for WordTrajectory {
    type V = Seq<usize>;

    closed spec fn view(&self) -> Seq<usize> {
        self.indices@
    }
}

impl WordTrajectory {
    /// Creates an empty trajectory.
    pub fn new() -> (r: WordTrajectory)
        ensures
            r@ == Seq::<usize>::empty(),
    {
        WordTrajectory { indices: Vec::new() }
    }

    /// Returns a new trajectory: this one followed by position `i`.
    pub fn add_index(&self, i: usize) -> (r: WordTrajectory)
        ensures
            r@ == self@.push(i),
    {
        let mut next_vec: Vec<usize> = Vec::new();
        let mut k: usize = 0;
        while k < self.indices.len()
            invariant
                k <= self.indices@.len(),
                next_vec@ == self.indices@.subrange(0, k as int),
            decreases self.indices@.len() - k,
        {
            next_vec.push(self.indices[k]);
            k = k + 1;
        }
        next_vec.push(i);
        assert(self.indices@.subrange(0, k as int) == self.indices@);
        WordTrajectory { indices: next_vec }
    }

    /// The number of positions in the trajectory.
    pub fn len(&self) -> (r: usize)
        ensures
            r == self@.len(),
    {
        self.indices.len()
    }

    /// The last position of the trajectory, if any.
    pub fn last(&self) -> (r: Option<usize>)
        ensures
            r == (if self@.len() == 0 {
                None
            } else {
                Some(self@.last())
            }),
    {
        if self.indices.len() == 0 {
            None
        } else {
            Some(self.indices[self.indices.len() - 1])
        }
    }

    /// The positions of the trajectory.
    pub fn indices(&self) -> (r: &Vec<usize>)
        ensures
            r@ == self@,
    {
        &self.indices
    }
}

/// Reads the characters of a string into a vector.
pub fn chars_of(s: &str) -> (r: Vec<char>)
    ensures
        r@ == s@,
{
    let n = s.unicode_len();
    let mut r: Vec<char> = Vec::new();
    let mut i: usize = 0;
    while i < n
        invariant
            n == s@.len(),
            i <= n,
            r@ == s@.subrange(0, i as int),
        decreases n - i,
    {
        r.push(s.get_char(i));
        i = i + 1;
        assert(r@ == s@.subrange(0, i as int));
    }
    assert(s@.subrange(0, n as int) == s@);
    r
}

proof fn lemma_positions_upto_present(letters: Seq<char>, c: char, k: int)
    requires
        k <= letters.len(),
        positions_upto(letters, c, k).len() > 0,
    ensures
        letters.contains(c),
    decreases k,
{
    if k > 0 && letters[k - 1] != c {
        lemma_positions_upto_present(letters, c, k - 1);
    } else if k > 0 {
        assert(letters[k - 1] == c);
    }
}

proof fn lemma_positions_upto_absent(letters: Seq<char>, c: char, k: int)
    requires
        k <= letters.len(),
        forall|j: int| 0 <= j < k ==> letters[j] != c,
    ensures
        positions_upto(letters, c, k) == Seq::<usize>::empty(),
    decreases k,
{
    if k > 0 {
        lemma_positions_upto_absent(letters, c, k - 1);
    }
}

/// For each distinct letter of a board, the ascending list of the positions
/// that hold it.
///
/// The letters and their lists are kept in two parallel vectors rather than
/// a hash map: vstd models hash-map lookups for integer keys, not for
/// `char`, and a board has few distinct letters to scan.
#[derive(Debug)]
pub struct LetterIndices {
    keys: Vec<char>,
    positions: Vec<Vec<usize>>,
}

impl LetterIndices {
    /// The index describes the first `k` letters of `letters`.
    pub closed spec fn covers(&self, letters: Seq<char>, k: int) -> bool {
        &&& self.keys@.len() == self.positions@.len()
        &&& forall|e: int|
            0 <= e < self.keys@.len() ==> #[trigger] self.positions@[e]@ == positions_upto(
                letters,
                self.keys@[e],
                k,
            )
        &&& forall|j: int| 0 <= j < k ==> self.keys@.contains(#[trigger] letters[j])
        &&& forall|a: int, b: int|
            0 <= a < b < self.keys@.len() ==> self.keys@[a] != self.keys@[b]
        &&& forall|e: int| 0 <= e < self.keys@.len() ==> #[trigger] self.positions@[e]@.len() > 0
    }

    /// The index of the board `letters`.
    pub closed spec fn wf(&self, letters: Seq<char>) -> bool {
        self.covers(letters, letters.len() as int)
    }

    /// Builds the index of a board.
    pub fn of_letters(letters: &Vec<char>) -> (r: LetterIndices)
        ensures
            r.wf(letters@),
    {
        let mut r = LetterIndices { keys: Vec::new(), positions: Vec::new() };
        let mut i: usize = 0;
        while i < letters.len()
            invariant
                i <= letters@.len(),
                r.covers(letters@, i as int),
            decreases letters@.len() - i,
        {
            let l = letters[i];
            match r.find(l) {
                Some(e) => {
                    let mut v = Vec::new();
                    let mut k: usize = 0;
                    while k < r.positions[e].len()
                        invariant
                            e < r.positions@.len(),
                            k <= r.positions@[e as int]@.len(),
                            v@ == r.positions@[e as int]@.subrange(0, k as int),
                        decreases r.positions@[e as int]@.len() - k,
                    {
                        v.push(r.positions[e][k]);
                        k = k + 1;
                    }
                    assert(v@ == r.positions@[e as int]@);
                    v.push(i);
                    r.positions.set(e, v);
                    assert forall|f: int| 0 <= f < r.keys@.len() implies #[trigger] r.positions@[f]@
                        == positions_upto(letters@, r.keys@[f], i + 1) by {
                        if f != e {
                            assert(r.keys@[f] != l);
                        }
                    }
                    assert forall|j: int| 0 <= j < i + 1 implies r.keys@.contains(
                        #[trigger] letters@[j],
                    ) by {
                        if j == i {
                            assert(r.keys@[e as int] == l);
                        }
                    }
                },
                None => {
                    proof {
                        assert forall|j: int| 0 <= j < i implies letters@[j] != l by {
                            assert(r.keys@.contains(letters@[j]));
                        }
                        lemma_positions_upto_absent(letters@, l, i as int);
                    }
                    let ghost old_keys = r.keys@;
                    r.keys.push(l);
                    r.positions.push(vec![i]);
                    assert forall|f: int| 0 <= f < r.keys@.len() implies #[trigger] r.positions@[f]@
                        == positions_upto(letters@, r.keys@[f], i + 1) by {
                        if f < old_keys.len() {
                            assert(old_keys[f] != l);
                        } else {
                            assert(positions_upto(letters@, l, i as int) == Seq::<usize>::empty());
                            assert(r.positions@[f]@ == Seq::<usize>::empty().push(i));
                        }
                    }
                    assert forall|j: int| 0 <= j < i + 1 implies r.keys@.contains(
                        #[trigger] letters@[j],
                    ) by {
                        if j == i {
                            assert(r.keys@[r.keys@.len() - 1] == l);
                        } else {
                            assert(old_keys.contains(letters@[j]));
                            let w = choose|w: int| 0 <= w < old_keys.len() && old_keys[w] == letters@[j];
                            assert(r.keys@[w] == letters@[j]);
                        }
                    }
                },
            }
            i = i + 1;
        }
        r
    }

    /// The entry of letter `c`, if the index has one.
    fn find(&self, c: char) -> (r: Option<usize>)
        requires
            self.keys@.len() == self.positions@.len(),
        ensures
            match r {
                Some(e) => e < self.keys@.len() && self.keys@[e as int] == c,
                None => !self.keys@.contains(c),
            },
    {
        let mut e: usize = 0;
        while e < self.keys.len()
            invariant
                e <= self.keys@.len(),
                forall|j: int| 0 <= j < e ==> self.keys@[j] != c,
            decreases self.keys@.len() - e,
        {
            if self.keys[e] == c {
                return Some(e);
            }
            e = e + 1;
        }
        None
    }

    /// The positions, ascending, of the board that hold `c`; `None` where no
    /// position does.
    pub fn get(&self, c: char, Ghost(letters): Ghost<Seq<char>>) -> (r: Option<&Vec<usize>>)
        requires
            self.wf(letters),
        ensures
            r is Some <==> letters.contains(c),
            match r {
                Some(v) => v@ == positions_of(letters, c),
                None => positions_of(letters, c) == Seq::<usize>::empty(),
            },
    {
        match self.find(c) {
            Some(e) => {
                proof {
                    assert(self.positions@[e as int]@.len() > 0);
                    lemma_positions_upto_present(letters, c, letters.len() as int);
                }
                Some(&self.positions[e])
            },
            None => {
                proof {
                    lemma_positions_upto_absent(letters, c, letters.len() as int);
                }
                None
            },
        }
    }
}

/// The complete placements still to come from the queue `q` of partial
/// trajectories, front first.
pub open spec fn pending(word: Seq<char>, letters: Seq<char>, q: Seq<WordTrajectory>) -> Seq<
    Seq<usize>,
>
    decreases q.len(),
{
    if q.len() == 0 {
        seq![]
    } else {
        completions(word, letters, q[0]@) + pending(word, letters, q.drop_first())
    }
}

/// The number of partial trajectories still to visit from the queue `q`.
pub open spec fn pending_size(word: Seq<char>, letters: Seq<char>, q: Seq<WordTrajectory>) -> nat
    decreases q.len(),
{
    if q.len() == 0 {
        0
    } else {
        search_size(word, letters, q[0]@) + pending_size(word, letters, q.drop_first())
    }
}

proof fn lemma_allowed_prefix(occ: Seq<usize>, t: Seq<usize>, n: int, k: int, m: int)
    requires
        0 <= k <= m,
    ensures
        allowed_upto(occ, t, n, k).len() <= allowed_upto(occ, t, n, m).len(),
        forall|i: int|
            0 <= i < allowed_upto(occ, t, n, k).len() ==> allowed_upto(occ, t, n, m)[i]
                == #[trigger] allowed_upto(occ, t, n, k)[i],
    decreases m - k,
{
    if k < m {
        lemma_allowed_prefix(occ, t, n, k, m - 1);
    }
}

proof fn lemma_positions_valid(letters: Seq<char>, c: char, k: int)
    requires
        0 <= k <= letters.len(),
        letters.len() <= usize::MAX,
    ensures
        forall|i: int|
            0 <= i < positions_upto(letters, c, k).len() ==> {
                let p = #[trigger] positions_upto(letters, c, k)[i];
                &&& (p as int) < k
                &&& letters[p as int] == c
            },
    decreases k,
{
    if k > 0 {
        lemma_positions_valid(letters, c, k - 1);
        let prev = positions_upto(letters, c, k - 1);
        let cur = positions_upto(letters, c, k);
        assert forall|i: int| 0 <= i < cur.len() implies (cur[i] as int) < k && letters[cur[i] as int]
            == c by {
            if i < prev.len() {
                assert(cur[i] == prev[i]);
            }
        }
    }
}

proof fn lemma_allowed_valid(occ: Seq<usize>, t: Seq<usize>, n: int, k: int)
    requires
        0 <= k <= occ.len(),
    ensures
        forall|i: int|
            0 <= i < allowed_upto(occ, t, n, k).len() ==> {
                let p = #[trigger] allowed_upto(occ, t, n, k)[i];
                &&& occ.subrange(0, k).contains(p)
                &&& t.len() > 0 ==> !same_side(p as int, t.last() as int, n)
            },
    decreases k,
{
    if k > 0 {
        lemma_allowed_valid(occ, t, n, k - 1);
        assert forall|i: int| 0 <= i < allowed_upto(occ, t, n, k).len() implies occ.subrange(
            0,
            k,
        ).contains(#[trigger] allowed_upto(occ, t, n, k)[i]) by {
            if i < allowed_upto(occ, t, n, k - 1).len() {
                let p = allowed_upto(occ, t, n, k - 1)[i];
                assert(occ.subrange(0, k - 1).contains(p));
                let j = choose|j: int| 0 <= j < k - 1 && #[trigger] occ.subrange(0, k - 1)[j] == p;
                assert(occ.subrange(0, k)[j] == p);
            } else {
                assert(occ.subrange(0, k)[k - 1] == occ[k - 1]);
            }
        }
    }
}

proof fn lemma_extension_valid(word: Seq<char>, letters: Seq<char>, t: Seq<usize>, i: int)
    requires
        letters.len() <= usize::MAX,
        is_placement_prefix(word, letters, t),
        t.len() < word.len(),
        0 <= i < next_positions(word, letters, t).len(),
    ensures
        is_placement_prefix(word, letters, t.push(next_positions(word, letters, t)[i])),
{
    let n = letters.len() as int;
    let c = word[t.len() as int];
    let occ = positions_of(letters, c);
    lemma_positions_valid(letters, c, n);
    lemma_allowed_valid(occ, t, n, occ.len() as int);
    let p = next_positions(word, letters, t)[i];
    assert(occ.subrange(0, occ.len() as int) == occ);
    let j = choose|j: int| 0 <= j < occ.len() && occ[j] == p;
    assert(occ[j] == p);
    let u = t.push(p);
    assert forall|a: int|
        #![trigger u[a], u[a + 1]]
        0 <= a < u.len() - 1 implies !same_side(u[a] as int, u[a + 1] as int, n) by {
        if a == t.len() - 1 {
            assert(u[a] == t.last());
        } else {
            assert(u[a] == t[a] && u[a + 1] == t[a + 1]);
        }
    }
}

proof fn lemma_completions_valid(word: Seq<char>, letters: Seq<char>, t: Seq<usize>)
    requires
        letters.len() <= usize::MAX,
        is_placement_prefix(word, letters, t),
    ensures
        forall|i: int|
            0 <= i < completions(word, letters, t).len() ==> is_placement(
                word,
                letters,
                #[trigger] completions(word, letters, t)[i],
            ),
    decreases word.len() - t.len(), 1int, 0int,
{
    if t.len() < word.len() {
        let k = next_positions(word, letters, t).len() as int;
        lemma_completions_from_valid(word, letters, t, k);
        assert(completions(word, letters, t) == completions_from(word, letters, t, k));
    } else {
        assert(completions(word, letters, t) == seq![t]);
        assert(seq![t][0] == t);
    }
}

proof fn lemma_completions_from_valid(word: Seq<char>, letters: Seq<char>, t: Seq<usize>, k: int)
    requires
        letters.len() <= usize::MAX,
        is_placement_prefix(word, letters, t),
        k <= next_positions(word, letters, t).len(),
    ensures
        forall|i: int|
            0 <= i < completions_from(word, letters, t, k).len() ==> is_placement(
                word,
                letters,
                #[trigger] completions_from(word, letters, t, k)[i],
            ),
    decreases word.len() - t.len(), 0int, k,
{
    if k > 0 && t.len() < word.len() {
        let u = t.push(next_positions(word, letters, t)[k - 1]);
        lemma_extension_valid(word, letters, t, k - 1);
        lemma_completions_valid(word, letters, u);
        lemma_completions_from_valid(word, letters, t, k - 1);
        let a = completions(word, letters, u);
        let b = completions_from(word, letters, t, k - 1);
        assert forall|i: int| 0 <= i < (a + b).len() implies is_placement(
            word,
            letters,
            #[trigger] (a + b)[i],
        ) by {
            if i < a.len() {
                assert((a + b)[i] == a[i]);
            } else {
                assert((a + b)[i] == b[i - a.len()]);
            }
        }
    }
}

/// Every enumerated trajectory places the whole word: one position per
/// letter, each holding that letter, and no two consecutive positions on
/// one side.
pub proof fn lemma_trajectories_are_placements(word: Seq<char>, letters: Seq<char>)
    requires
        letters.len() <= usize::MAX,
    ensures
        forall|i: int|
            0 <= i < trajectories(word, letters).len() ==> is_placement(
                word,
                letters,
                #[trigger] trajectories(word, letters)[i],
            ),
{
    lemma_completions_valid(word, letters, seq![]);
}

/// The extensions by one letter of the partial trajectory `t` of `word`,
/// highest position first: the order in which the search queues them.
pub open spec fn extensions(word: Seq<char>, letters: Seq<char>, t: Seq<usize>) -> Seq<Seq<usize>> {
    let np = next_positions(word, letters, t);
    Seq::new(np.len(), |i: int| t.push(np[np.len() - 1 - i]))
}

/// The trajectories of a queue.
pub open spec fn queue_view(q: Seq<WordTrajectory>) -> Seq<Seq<usize>> {
    q.map_values(|w: WordTrajectory| w@)
}

/// An iterator, by `next`, over the placements of a word on a board.
#[derive(Debug)]
pub struct WordTrajectories {
    word: Vec<char>,
    letters: Vec<char>,
    index: LetterIndices,
    side: usize,
    queue: VecDeque<WordTrajectory>,
}

impl WordTrajectories {
    /// The word being placed.
    pub closed spec fn word(&self) -> Seq<char> {
        self.word@
    }

    /// The board.
    pub closed spec fn letters(&self) -> Seq<char> {
        self.letters@
    }

    /// The placements that `next` has still to yield, in order.
    pub closed spec fn remaining(&self) -> Seq<Seq<usize>> {
        pending(self.word@, self.letters@, self.queue@)
    }

    closed spec fn size(&self) -> nat {
        pending_size(self.word@, self.letters@, self.queue@)
    }

    /// The internal state is consistent.
    pub closed spec fn wf(&self) -> bool {
        &&& self.index.wf(self.letters@)
        &&& self.side as int == side_len(self.letters@.len() as int)
        &&& self.side > 0
    }

    /// Starts the enumeration of the placements of `word` on `letters`.
    pub fn new(word: &str, letters: &str) -> (r: WordTrajectories)
        requires
            letters@.len() >= 4,
        ensures
            r.wf(),
            r.word() == word@,
            r.letters() == letters@,
            r.remaining() == trajectories(word@, letters@),
    {
        let letters = chars_of(letters);
        let index = LetterIndices::of_letters(&letters);
        let side = letters.len() / 4;
        let mut queue = VecDeque::new();
        queue.push_front(WordTrajectory::new());
        let r = WordTrajectories { word: chars_of(word), letters, index, side, queue };
        proof {
            assert(r.queue@.drop_first() == Seq::<WordTrajectory>::empty());
            assert(pending(word@, letters@, r.queue@.drop_first()) == Seq::<Seq<usize>>::empty());
            assert(r.remaining() == trajectories(word@, letters@) + Seq::<Seq<usize>>::empty());
            assert(r.remaining() == trajectories(word@, letters@));
        }
        r
    }

    /// Takes the front of the queue: yields it if complete, else queues its
    /// extensions by one letter.
    fn visit(&mut self) -> (r: Option<WordTrajectory>)
        requires
            old(self).wf(),
            old(self).queue@.len() > 0,
        ensures
            final(self).wf(),
            final(self).word() == old(self).word(),
            final(self).letters() == old(self).letters(),
            final(self).size() < old(self).size(),
            match r {
                Some(t) => {
                    &&& old(self).remaining().len() > 0
                    &&& t@ == old(self).remaining()[0]
                    &&& final(self).remaining() == old(self).remaining().drop_first()
                },
                None => final(self).remaining() == old(self).remaining(),
            },
            old(self).queue@[0]@.len() >= old(self).word().len() ==> {
                &&& r is Some
                &&& r->0@ == old(self).queue@[0]@
                &&& final(self).queue@ == old(self).queue@.drop_first()
            },
            old(self).queue@[0]@.len() < old(self).word().len() ==> {
                &&& r is None
                &&& queue_view(final(self).queue@) == extensions(
                    old(self).word(),
                    old(self).letters(),
                    old(self).queue@[0]@,
                ) + queue_view(old(self).queue@.drop_first())
            },
    {
        let ghost word = self.word@;
        let ghost letters = self.letters@;
        let ghost n = letters.len() as int;
        let t = match self.queue.pop_front() {
            Some(t) => t,
            None => {
                return None;
            },
        };
        let ghost rest = self.queue@;
        assert(old(self).queue@.drop_first() == rest);
        if t.len() >= self.word.len() {
            proof {
                assert(completions(word, letters, t@) == seq![t@]);
                assert(old(self).remaining() == seq![t@] + pending(word, letters, rest));
                assert((seq![t@] + pending(word, letters, rest)).drop_first() == pending(
                    word,
                    letters,
                    rest,
                ));
            }
            return Some(t);
        }
        let c = self.word[t.len()];
        let occ = match self.index.get(c, Ghost(self.letters@)) {
            Some(occ) => occ,
            None => {
                proof {
                    assert(next_positions(word, letters, t@) == Seq::<usize>::empty());
                    assert(completions(word, letters, t@) == Seq::<Seq<usize>>::empty());
                    assert(old(self).remaining() == Seq::<Seq<usize>>::empty() + pending(
                        word,
                        letters,
                        rest,
                    ));
                    assert(old(self).remaining() == pending(word, letters, rest));
                    assert(extensions(word, letters, t@) =~= Seq::<Seq<usize>>::empty());
                    assert(queue_view(self.queue@) =~= extensions(word, letters, t@) + queue_view(rest));
                }
                return None;
            },
        };
        let ghost np = next_positions(word, letters, t@);
        let mut k: usize = 0;
        while k < occ.len()
            invariant
                self.wf(),
                self.word@ == word,
                self.letters@ == letters,
                n == letters.len(),
                t@.len() < word.len(),
                c == word[t@.len() as int],
                occ@ == positions_of(letters, c),
                np == allowed_upto(occ@, t@, n, occ@.len() as int),
                k <= occ@.len(),
                pending(word, letters, self.queue@) == completions_from(
                    word,
                    letters,
                    t@,
                    allowed_upto(occ@, t@, n, k as int).len() as int,
                ) + pending(word, letters, rest),
                pending_size(word, letters, self.queue@) == search_size_from(
                    word,
                    letters,
                    t@,
                    allowed_upto(occ@, t@, n, k as int).len() as int,
                ) + pending_size(word, letters, rest),
                queue_view(self.queue@) == Seq::new(
                    allowed_upto(occ@, t@, n, k as int).len(),
                    |i: int|
                        t@.push(
                            allowed_upto(occ@, t@, n, k as int)[allowed_upto(occ@, t@, n, k as int).len() - 1
                                - i],
                        ),
                ) + queue_view(rest),
            decreases occ@.len() - k,
        {
            let p = occ[k];
            let skip = match t.last() {
                Some(l) => l / self.side == p / self.side,
                None => false,
            };
            let ghost m = allowed_upto(occ@, t@, n, k as int).len() as int;
            proof {
                lemma_allowed_prefix(occ@, t@, n, k as int, k + 1);
                lemma_allowed_prefix(occ@, t@, n, k + 1, occ@.len() as int);
            }
            if !skip {
                let ghost q0 = self.queue@;
                let u = t.add_index(p);
                self.queue.push_front(u);
                proof {
                    assert(allowed_upto(occ@, t@, n, k + 1) == allowed_upto(
                        occ@,
                        t@,
                        n,
                        k as int,
                    ).push(p));
                    assert(allowed_upto(occ@, t@, n, k + 1)[m] == p);
                    assert(np[m] == p);
                    assert(self.queue@.drop_first() == q0);
                    assert(completions_from(word, letters, t@, m + 1) == completions(
                        word,
                        letters,
                        t@.push(p),
                    ) + completions_from(word, letters, t@, m));
                    assert(pending(word, letters, self.queue@) == completions(
                        word,
                        letters,
                        t@.push(p),
                    ) + pending(word, letters, q0));
                    assert(pending(word, letters, self.queue@) == completions_from(
                        word,
                        letters,
                        t@,
                        m + 1,
                    ) + pending(word, letters, rest));
                    let a0 = allowed_upto(occ@, t@, n, k as int);
                    let a1 = allowed_upto(occ@, t@, n, k + 1);
                    assert(queue_view(self.queue@) =~= seq![t@.push(p)] + queue_view(q0));
                    assert(Seq::new(a1.len(), |i: int| t@.push(a1[a1.len() - 1 - i])) =~= seq![
                        t@.push(p),
                    ] + Seq::new(a0.len(), |i: int| t@.push(a0[a0.len() - 1 - i])));
                }
            } else {
                assert(allowed_upto(occ@, t@, n, k + 1) == allowed_upto(occ@, t@, n, k as int));
            }
            k = k + 1;
        }
        proof {
            assert(completions(word, letters, t@) == completions_from(
                word,
                letters,
                t@,
                np.len() as int,
            ));
            assert(old(self).remaining() == completions(word, letters, t@) + pending(
                word,
                letters,
                rest,
            ));
            assert(queue_view(self.queue@) == extensions(word, letters, t@) + queue_view(rest));
        }
        None
    }

    /// The next placement of the word, in enumeration order; `None` once
    /// every placement has been yielded.
    pub fn next(&mut self) -> (r: Option<WordTrajectory>)
        requires
            old(self).wf(),
        ensures
            final(self).wf(),
            final(self).word() == old(self).word(),
            final(self).letters() == old(self).letters(),
            match r {
                Some(t) => {
                    &&& old(self).remaining().len() > 0
                    &&& t@ == old(self).remaining()[0]
                    &&& final(self).remaining() == old(self).remaining().drop_first()
                },
                None => {
                    &&& old(self).remaining().len() == 0
                    &&& final(self).remaining().len() == 0
                },
            },
    {
        while self.queue.len() > 0
            invariant
                self.wf(),
                self.word() == old(self).word(),
                self.letters() == old(self).letters(),
                self.remaining() == old(self).remaining(),
            decreases self.size(),
        {
            if let Some(s) = self.visit() {
                return Some(s);
            }
        }
        None
    }
}

/// Enumerates the ways of tracing `word` on the board `letters`.
pub fn can_make_word(word: &str, letters: &str) -> (r: WordTrajectories)
    requires
        letters@.len() >= 4,
    ensures
        r.wf(),
        r.word() == word@,
        r.letters() == letters@,
        r.remaining() == trajectories(word@, letters@),
{
    WordTrajectories::new(word, letters)
}

} // verus!
