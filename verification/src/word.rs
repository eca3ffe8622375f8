use crate::rng::RandomSource;
use vstd::multiset::Multiset;
use vstd::prelude::*;

verus! {

/// A candidate word: a string of letter bytes.
#[derive(Debug, Clone, PartialEq, Eq)]
pub struct Word {
    bytes: Vec<u8>,
}

impl View for Word {
    type V = Seq<u8>;

    closed spec fn view(&self) -> Seq<u8> {
        self.bytes@
    }
}

/// Replacing letters at the listed positions, in order.
pub open spec fn spec_replace_letters(s: Seq<u8>, ps: Seq<(usize, u8)>) -> Seq<u8>
    decreases ps.len(),
{
    if ps.len() == 0 {
        s
    } else {
        spec_replace_letters(s.update(ps[0].0 as int, ps[0].1), ps.skip(1))
    }
}

impl Word {
    pub fn new(bytes: Vec<u8>) -> (r: Word)
        ensures
            r@ == bytes@,
    {
        Word { bytes }
    }

    pub fn as_slice(&self) -> (r: &[u8])
        ensures
            r@ == self@,
    {
        self.bytes.as_slice()
    }

    /// An explicit copy.
    pub fn duplicate(&self) -> (r: Word)
        ensures
            r@ == self@,
    {
        Word { bytes: vstd::slice::slice_to_vec(self.bytes.as_slice()) }
    }

    /// The length of the word.
    pub fn len(&self) -> (r: usize)
        ensures
            r == self@.len(),
    {
        self.bytes.len()
    }

    /// Crossover: a prefix of the first parent followed by a suffix of the
    /// second.
    pub fn recombine(s1: &Word, s2: &Word, i: usize, j: usize) -> (r: Word)
        requires
            i <= s1@.len(),
            j <= s2@.len(),
        ensures
            r@ == s1@.take(i as int) + s2@.skip(j as int),
    {
        let mut bytes: Vec<u8> = Vec::new();
        let mut k: usize = 0;
        while k < i
            invariant
                k <= i <= s1@.len(),
                bytes@ == s1@.take(k as int),
            decreases i - k,
        {
            bytes.push(s1.bytes[k]);
            proof {
                assert(bytes@ =~= s1@.take(k + 1));
            }
            k = k + 1;
        }
        let mut t: usize = j;
        while t < s2.bytes.len()
            invariant
                j <= t <= s2@.len(),
                bytes@ == s1@.take(i as int) + s2@.subrange(j as int, t as int),
            decreases s2@.len() - t,
        {
            bytes.push(s2.bytes[t]);
            proof {
                assert(bytes@ =~= s1@.take(i as int) + s2@.subrange(j as int, t + 1));
            }
            t = t + 1;
        }
        proof {
            assert(s2@.subrange(j as int, s2@.len() as int) =~= s2@.skip(j as int));
        }
        Word { bytes }
    }

    /// Mutation: fresh letters appended after the whole word.
    pub fn mutate_lengthen(specimen: &Word, letters: Vec<u8>) -> (r: Word)
        ensures
            r@ == specimen@ + letters@,
    {
        let mut bytes: Vec<u8> = Vec::new();
        let mut k: usize = 0;
        while k < specimen.bytes.len()
            invariant
                k <= specimen@.len(),
                bytes@ == specimen@.take(k as int),
            decreases specimen@.len() - k,
        {
            bytes.push(specimen.bytes[k]);
            proof {
                assert(bytes@ =~= specimen@.take(k + 1));
            }
            k = k + 1;
        }
        let mut tail = letters;
        proof {
            assert(specimen@.take(specimen@.len() as int) =~= specimen@);
        }
        bytes.append(&mut tail);
        Word { bytes }
    }

    /// Mutation: a stretch of `len` letters removed starting at `pos`.
    pub fn mutate_shorten(specimen: &Word, pos: usize, len: usize) -> (r: Word)
        requires
            pos + len <= specimen@.len(),
        ensures
            r@ == specimen@.take(pos as int) + specimen@.skip(pos + len),
    {
        let _word_len = specimen.bytes.len();
        let mut bytes: Vec<u8> = Vec::new();
        let mut k: usize = 0;
        while k < pos
            invariant
                k <= pos,
                pos + len <= specimen@.len(),
                bytes@ == specimen@.take(k as int),
            decreases pos - k,
        {
            bytes.push(specimen.bytes[k]);
            proof {
                assert(bytes@ =~= specimen@.take(k + 1));
            }
            k = k + 1;
        }
        let mut t: usize = pos + len;
        while t < specimen.bytes.len()
            invariant
                pos + len <= t <= specimen@.len(),
                bytes@ == specimen@.take(pos as int) + specimen@.subrange(pos + len, t as int),
            decreases specimen@.len() - t,
        {
            bytes.push(specimen.bytes[t]);
            proof {
                assert(bytes@ =~= specimen@.take(pos as int) + specimen@.subrange(
                    pos + len,
                    t + 1,
                ));
            }
            t = t + 1;
        }
        proof {
            assert(specimen@.subrange(pos + len, specimen@.len() as int) =~= specimen@.skip(
                pos + len,
            ));
        }
        Word { bytes }
    }

    /// Mutation: the letters shuffled in place by a Fisher-Yates pass; the
    /// letters themselves are kept, only their order changes.
    pub fn mutate_shuffle(specimen: &Word, rng: &mut RandomSource) -> (r: Word)
        ensures
            r@.len() == specimen@.len(),
            r@.to_multiset() == specimen@.to_multiset(),
    {
        let mut bytes: Vec<u8> = Vec::new();
        let mut k: usize = 0;
        while k < specimen.bytes.len()
            invariant
                k <= specimen@.len(),
                bytes@ == specimen@.take(k as int),
            decreases specimen@.len() - k,
        {
            bytes.push(specimen.bytes[k]);
            proof {
                assert(bytes@ =~= specimen@.take(k + 1));
            }
            k = k + 1;
        }
        proof {
            assert(specimen@.take(specimen@.len() as int) =~= specimen@);
        }
        let mut h: usize = bytes.len();
        while h > 1
            invariant
                h <= bytes@.len(),
                bytes@.len() == specimen@.len(),
                bytes@.to_multiset() == specimen@.to_multiset(),
            decreases h,
        {
            let j = rng.gen_index(h);
            let a = h - 1;
            let ghost before: Seq<u8> = bytes@;
            let va = bytes[a];
            let vj = bytes[j];
            bytes[a] = vj;
            bytes[j] = va;
            proof {
                lemma_swap_multiset(before, a as int, j as int);
            }
            h = h - 1;
        }
        Word { bytes }
    }

    /// Mutation: the listed positions replaced by the listed letters, in
    /// order.
    pub fn mutate_replace_letters(specimen: &Word, positions: &Vec<(usize, u8)>) -> (r: Word)
        requires
            forall|t: int|
                0 <= t < positions@.len() ==> (#[trigger] positions@[t]).0 < specimen@.len(),
        ensures
            r@ == spec_replace_letters(specimen@, positions@),
    {
        let mut bytes: Vec<u8> = Vec::new();
        let mut k: usize = 0;
        while k < specimen.bytes.len()
            invariant
                k <= specimen@.len(),
                bytes@ == specimen@.take(k as int),
            decreases specimen@.len() - k,
        {
            bytes.push(specimen.bytes[k]);
            proof {
                assert(bytes@ =~= specimen@.take(k + 1));
            }
            k = k + 1;
        }
        proof {
            assert(specimen@.take(specimen@.len() as int) =~= specimen@);
            assert(positions@.skip(0) =~= positions@);
        }
        let mut t: usize = 0;
        while t < positions.len()
            invariant
                t <= positions@.len(),
                bytes@.len() == specimen@.len(),
                forall|q: int|
                    0 <= q < positions@.len() ==> (#[trigger] positions@[q]).0 < specimen@.len(),
                spec_replace_letters(bytes@, positions@.skip(t as int)) == spec_replace_letters(
                    specimen@,
                    positions@,
                ),
            decreases positions@.len() - t,
        {
            let ghost rest: Seq<(usize, u8)> = positions@.skip(t as int);
            proof {
                assert(rest[0] == positions@[t as int]);
                assert(rest.skip(1) =~= positions@.skip(t + 1));
            }
            let (pos, letter) = positions[t];
            bytes[pos] = letter;
            t = t + 1;
        }
        proof {
            assert(positions@.skip(positions@.len() as int) =~= Seq::<(usize, u8)>::empty());
        }
        Word { bytes }
    }
}

/// Exchanging two positions keeps the letters of a sequence.
pub proof fn lemma_swap_multiset(s: Seq<u8>, a: int, b: int)
    requires
        0 <= a < s.len(),
        0 <= b < s.len(),
    ensures
        s.update(a, s[b]).update(b, s[a]).to_multiset() == s.to_multiset(),
{
    let t = s.update(a, s[b]).update(b, s[a]);
    assert(t.to_multiset() =~= s.to_multiset()) by {
        s.to_multiset_ensures();
        t.to_multiset_ensures();
        if a == b {
            assert(t =~= s);
        } else {
            lemma_swap_multiset_distinct(s, a, b);
        }
    }
}

/// The two-distinct-positions case, by counting each value.
proof fn lemma_swap_multiset_distinct(s: Seq<u8>, a: int, b: int)
    requires
        0 <= a < s.len(),
        0 <= b < s.len(),
        a != b,
    ensures
        s.update(a, s[b]).update(b, s[a]).to_multiset() =~= s.to_multiset(),
{
    let t = s.update(a, s[b]).update(b, s[a]);
    assert forall|x: u8| t.to_multiset().count(x) == s.to_multiset().count(x) by {
        assert(s.take(s.len() as int) =~= s);
        assert(t.take(t.len() as int) =~= t);
        lemma_count_matches(s, x, s.len() as int);
        lemma_count_matches(t, x, t.len() as int);
        lemma_filter_count_swap(s, t, x, a, b);
    }
}

/// The multiset count of `x` is the number of positions holding `x`.
proof fn lemma_count_matches(s: Seq<u8>, x: u8, n: int)
    requires
        0 <= n <= s.len(),
    ensures
        s.take(n).to_multiset().count(x) == spec_count_eq(s, x, n),
    decreases n,
{
    s.take(n).to_multiset_ensures();
    if n == 0 {
        assert(s.take(0) =~= Seq::<u8>::empty());
        assert(Seq::<u8>::empty().to_multiset() =~= Multiset::<u8>::empty()) by {
            Seq::<u8>::empty().to_multiset_ensures();
        }
    } else {
        lemma_count_matches(s, x, n - 1);
        assert(s.take(n) =~= s.take(n - 1).push(s[n - 1]));
        s.take(n - 1).to_multiset_ensures();
        assert(s.take(n - 1).push(s[n - 1]).to_multiset() == s.take(n - 1).to_multiset().insert(
            s[n - 1],
        ));
    }
}

/// How many of the first `n` positions of `s` hold `x`.
pub open spec fn spec_count_eq(s: Seq<u8>, x: u8, n: int) -> int
    decreases n when 0 <= n
{
    if n <= 0 {
        0
    } else {
        spec_count_eq(s, x, n - 1) + (if s[n - 1] == x {
            1int
        } else {
            0int
        })
    }
}

/// Counting positions is unchanged by exchanging two of them.
proof fn lemma_filter_count_swap(s: Seq<u8>, t: Seq<u8>, x: u8, a: int, b: int)
    requires
        0 <= a < s.len(),
        0 <= b < s.len(),
        a != b,
        t == s.update(a, s[b]).update(b, s[a]),
    ensures
        spec_count_eq(s, x, s.len() as int) == spec_count_eq(t, x, t.len() as int),
{
    lemma_count_eq_pointwise(s, t, x, s.len() as int, a, b);
}

/// Positionwise: outside `a` and `b` the sequences agree, and the two
/// swapped contributions cancel.
proof fn lemma_count_eq_pointwise(s: Seq<u8>, t: Seq<u8>, x: u8, n: int, a: int, b: int)
    requires
        0 <= a < s.len(),
        0 <= b < s.len(),
        a != b,
        t == s.update(a, s[b]).update(b, s[a]),
        0 <= n <= s.len(),
    ensures
        spec_count_eq(t, x, n) == spec_count_eq(s, x, n) + (if a < n {
            (if s[b] == x {
                1int
            } else {
                0int
            }) - (if s[a] == x {
                1int
            } else {
                0int
            })
        } else {
            0int
        }) + (if b < n {
            (if s[a] == x {
                1int
            } else {
                0int
            }) - (if s[b] == x {
                1int
            } else {
                0int
            })
        } else {
            0int
        }),
    decreases n,
{
    if n > 0 {
        lemma_count_eq_pointwise(s, t, x, n - 1, a, b);
    }
}

} // verus!
