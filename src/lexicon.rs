//! The dictionary: lowercase words in 26 buckets, one per first letter.
use vstd::prelude::*;

verus! {

/// The bucket of the letter `c`: 0 for 'a' up to 25 for 'z'.
pub open spec fn letter_bucket(c: char) -> int {
    c as u32 as int - 'a' as u32 as int
}

/// Whether `c` is a lowercase letter 'a' to 'z'.
pub open spec fn is_lower(c: char) -> bool {
    'a' as u32 <= c as u32 <= 'z' as u32
}

/// Whether `w` may stand in bucket `b`: a non-empty run of lowercase
/// letters whose first letter has bucket `b`.
pub open spec fn fits_bucket(w: Seq<char>, b: int) -> bool {
    &&& w.len() > 0
    &&& letter_bucket(w[0]) == b
    &&& forall|i: int| 0 <= i < w.len() ==> is_lower(#[trigger] w[i])
}

/// Whether `data` is a well-formed dictionary: 26 buckets, each word in the
/// bucket of its first letter.
pub open spec fn valid_data(data: Seq<Seq<Seq<char>>>) -> bool {
    &&& data.len() == 26
    &&& forall|b: int, j: int|
        0 <= b < 26 && 0 <= j < data[b].len() ==> fits_bucket(#[trigger] data[b][j], b)
}

/// The words of all buckets, bucket by bucket, for the first `b` buckets.
pub open spec fn flatten_upto(data: Seq<Seq<Seq<char>>>, b: int) -> Seq<Seq<char>>
    decreases b,
{
    if b <= 0 {
        seq![]
    } else {
        flatten_upto(data, b - 1) + data[b - 1]
    }
}

/// Why a dictionary could not be had.
#[derive(Debug, Clone, Copy, PartialEq, Eq, Structural)]
pub enum LexiconError {
    /// The source could not be read.
    Unreadable,
    /// The source was read but does not hold a well-formed dictionary.
    Malformed,
}

/// A dictionary of words, bucketed by first letter.
#[derive(Debug)]
pub struct Lexicon {
    data: Vec<Vec<String>>,
}

impl View for Lexicon {
    type V = Seq<Seq<Seq<char>>>;

    closed spec fn view(&self) -> Seq<Seq<Seq<char>>> {
        self.data.deep_view()
    }
}

fn word_fits_bucket(w: &String, b: usize) -> (r: bool)
    requires
        b < 26,
    ensures
        r == fits_bucket(w@, b as int),
{
    let s = w.as_str();
    let n = s.unicode_len();
    if n == 0 {
        return false;
    }
    let first = s.get_char(0);
    if first as u32 != 97 + b as u32 {
        return false;
    }
    let mut i: usize = 0;
    while i < n
        invariant
            n == w@.len(),
            s@ == w@,
            i <= n,
            forall|j: int| 0 <= j < i ==> is_lower(#[trigger] w@[j]),
        decreases n - i,
    {
        let c = s.get_char(i);
        if !(97 <= c as u32 && c as u32 <= 122) {
            return false;
        }
        i = i + 1;
    }
    true
}

impl Lexicon {
    #[verifier::type_invariant]
    spec fn inv(self) -> bool {
        valid_data(self.data.deep_view())
    }

    /// The lexicon holds a well-formed dictionary.
    pub open spec fn wf(&self) -> bool {
        valid_data(self@)
    }

    /// Every lexicon holds a well-formed dictionary.
    pub fn check_wf(&self)
        ensures
            self.wf(),
    {
        proof {
            use_type_invariant(self);
        }
    }

    /// Builds a lexicon from its 26 buckets; `Malformed` unless each word is
    /// a lowercase word in the bucket of its first letter.
    pub fn from_data(data: Vec<Vec<String>>) -> (r: Result<Lexicon, LexiconError>)
        ensures
            match r {
                Ok(lex) => valid_data(data.deep_view()) && lex@ == data.deep_view(),
                Err(e) => !valid_data(data.deep_view()) && e == LexiconError::Malformed,
            },
    {
        if data.len() != 26 {
            return Err(LexiconError::Malformed);
        }
        let mut b: usize = 0;
        while b < 26
            invariant
                data@.len() == 26,
                b <= 26,
                forall|c: int, j: int|
                    0 <= c < b && 0 <= j < data.deep_view()[c].len() ==> fits_bucket(
                        #[trigger] data.deep_view()[c][j],
                        c,
                    ),
            decreases 26 - b,
        {
            let bucket = &data[b];
            let mut j: usize = 0;
            while j < bucket.len()
                invariant
                    data@.len() == 26,
                    b < 26,
                    bucket == data@[b as int],
                    j <= bucket@.len(),
                    forall|c: int, k: int|
                        0 <= c < b && 0 <= k < data.deep_view()[c].len() ==> fits_bucket(
                            #[trigger] data.deep_view()[c][k],
                            c,
                        ),
                    forall|k: int| 0 <= k < j ==> fits_bucket(#[trigger] data.deep_view()[b as int][k], b as int),
                decreases bucket@.len() - j,
            {
                if !word_fits_bucket(&bucket[j], b) {
                    assert(!valid_data(data.deep_view())) by {
                        assert(!fits_bucket(data.deep_view()[b as int][j as int], b as int));
                    }
                    assert(data.deep_view()[b as int][j as int] == bucket@[j as int]@);
                    return Err(LexiconError::Malformed);
                }
                assert(data.deep_view()[b as int][j as int] == bucket@[j as int]@);
                j = j + 1;
            }
            assert forall|c: int, k: int|
                0 <= c < b + 1 && 0 <= k < data.deep_view()[c].len() implies fits_bucket(
                #[trigger] data.deep_view()[c][k],
                c,
            ) by {
                if c == b {
                    assert(data.deep_view()[c].len() == bucket@.len());
                }
            }
            b = b + 1;
        }
        Ok(Lexicon { data })
    }

    /// The words that start with the letter `l`.
    pub fn words_starting_with(&self, l: char) -> (r: &Vec<String>)
        requires
            is_lower(l),
        ensures
            r.deep_view() == self@[letter_bucket(l)],
    {
        proof {
            use_type_invariant(self);
        }
        let index = (l as u32 - 97) as usize;
        &self.data[index]
    }

    /// Every word of the lexicon, bucket by bucket.
    pub fn all(&self) -> (r: Vec<String>)
        ensures
            r.deep_view() == flatten_upto(self@, 26),
    {
        proof {
            use_type_invariant(self);
        }
        let mut r: Vec<String> = Vec::new();
        let mut b: usize = 0;
        while b < 26
            invariant
                self.wf(),
                b <= 26,
                r.deep_view() == flatten_upto(self@, b as int),
            decreases 26 - b,
        {
            let bucket = &self.data[b];
            let ghost start = r.deep_view();
            let mut j: usize = 0;
            while j < bucket.len()
                invariant
                    self.wf(),
                    b < 26,
                    bucket == self.data@[b as int],
                    j <= bucket@.len(),
                    r.deep_view() == start + self@[b as int].subrange(0, j as int),
                decreases bucket@.len() - j,
            {
                assert(self@[b as int][j as int] == bucket@[j as int]@);
                let w = bucket[j].clone();
                let ghost r0 = r@;
                assert(r0.map(|_i, x: String| x@) =~= r.deep_view());
                r.push(w);
                assert(r.deep_view() =~= r0.map(|_i, x: String| x@).push(w@));
                assert(self@[b as int].subrange(0, j + 1) =~= self@[b as int].subrange(0, j as int).push(w@));
                assert(r.deep_view() =~= start + self@[b as int].subrange(0, j + 1));
                j = j + 1;
            }
            assert(self@[b as int].subrange(0, j as int) == self@[b as int]);
            b = b + 1;
        }
        r
    }
}

} // verus!
