use crate::clock;
use crate::rng::RandomSource;
use crate::word::Word;
use vstd::prelude::*;

verus! {

/// A finished word-game search result: the best word and its score.
#[derive(Debug, Clone)]
pub struct Solution {
    pub word: Word,
    pub value: u64,
}

/// How many of the first `n` letters of `w` equal `c`.
pub open spec fn spec_letter_count(w: Seq<u8>, c: u8, n: int) -> int
    decreases n when 0 <= n
{
    if n <= 0 {
        0
    } else {
        spec_letter_count(w, c, n - 1) + (if w[n - 1] == c {
            1int
        } else {
            0int
        })
    }
}

/// The score of the first `n` letters of `w`: each letter contributes its
/// table value.
pub open spec fn spec_letter_value_sum(values: Seq<u64>, w: Seq<u8>, n: int) -> int
    decreases n when 0 <= n
{
    if n <= 0 {
        0
    } else {
        spec_letter_value_sum(values, w, n - 1) + values[w[n - 1] as int]
    }
}

/// The table of playable letters: how many of each letter byte may be used
/// and what one use of it scores, and the list of acceptable words.
#[derive(Debug, Clone)]
pub struct Dictionary {
    pub acceptable_words: Vec<Vec<u8>>,
    pub letter_counts: Vec<u32>,
    pub letter_values: Vec<u64>,
}

impl Dictionary {
    /// The letter tables cover every byte and single-letter scores stay
    /// small enough that any indexable word's score fits in 64 bits.
    pub open spec fn wf(self) -> bool {
        &&& self.letter_counts@.len() == 256
        &&& self.letter_values@.len() == 256
        &&& forall|c: int| 0 <= c < 256 ==> (#[trigger] self.letter_values@[c]) <= 0xffff_ffff
    }

    /// `w` is in the acceptable word list.
    pub open spec fn spec_acceptable(self, w: Seq<u8>) -> bool {
        exists|i: int| 0 <= i < self.acceptable_words@.len() && self.acceptable_words@[i]@ == w
    }

    /// `w` can be played: it is acceptable and uses no letter more often
    /// than the table allows.
    pub open spec fn spec_playable(self, w: Seq<u8>) -> bool {
        &&& self.spec_acceptable(w)
        &&& forall|c: u8|
            spec_letter_count(w, c, w.len() as int) <= (#[trigger] self.letter_counts@[c as int])
    }

    /// The score of `w`: the sum of its letters' table values.
    pub open spec fn spec_value(self, w: Seq<u8>) -> int {
        spec_letter_value_sum(self.letter_values@, w, w.len() as int)
    }

    pub fn new(
        acceptable_words: Vec<Vec<u8>>,
        letter_counts: Vec<u32>,
        letter_values: Vec<u64>,
    ) -> (r: Dictionary)
        requires
            letter_counts@.len() == 256,
            letter_values@.len() == 256,
            forall|c: int| 0 <= c < 256 ==> (#[trigger] letter_values@[c]) <= 0xffff_ffff,
        ensures
            r.acceptable_words == acceptable_words,
            r.letter_counts == letter_counts,
            r.letter_values == letter_values,
            r.wf(),
    {
        Dictionary { acceptable_words, letter_counts, letter_values }
    }

    /// The score of a letter string, when it can be played: `Some` exactly
    /// on acceptable words whose letter uses fit the table, with the sum of
    /// the letters' values.
    pub fn slice_value(&self, word: &Vec<u8>) -> (r: Option<u64>)
        requires
            self.wf(),
            word@.len() <= 0xffff_ffff,
        ensures
            r == (if self.spec_playable(word@) {
                Some(self.spec_value(word@) as u64)
            } else {
                None::<u64>
            }),
    {
        // Membership in the acceptable list.
        let mut found = false;
        let mut i: usize = 0;
        while i < self.acceptable_words.len()
            invariant
                found ==> self.spec_acceptable(word@),
                !found ==> forall|t: int|
                    0 <= t < i ==> (#[trigger] self.acceptable_words@[t])@ != word@,
                i <= self.acceptable_words@.len(),
            decreases self.acceptable_words@.len() - i,
        {
            if bytes_eq(&self.acceptable_words[i], word) {
                found = true;
            }
            i = i + 1;
        }
        if !found {
            return None;
        }
        // Count each letter's uses.
        let mut used: Vec<u32> = Vec::new();
        let mut c: usize = 0;
        while c < 256
            invariant
                c <= 256,
                used@.len() == c,
                forall|t: int| 0 <= t < c ==> (#[trigger] used@[t]) == 0,
            decreases 256 - c,
        {
            used.push(0);
            c = c + 1;
        }
        let n = word.len();
        let mut k: usize = 0;
        while k < n
            invariant
                self.wf(),
                n == word@.len(),
                n <= 0xffff_ffff,
                k <= n,
                used@.len() == 256,
                forall|b: int|
                    0 <= b < 256 ==> (#[trigger] used@[b]) as int == spec_letter_count(
                        word@,
                        b as u8,
                        k as int,
                    ),
            decreases n - k,
        {
            proof {
                assert forall|b: int| 0 <= b < 256 implies #[trigger] spec_letter_count(
                    word@,
                    b as u8,
                    k as int,
                ) <= k by {
                    lemma_letter_count_bound(word@, b as u8, k as int);
                }
            }
            let letter = word[k];
            let prev = used[letter as usize];
            used[letter as usize] = prev + 1;
            k = k + 1;
        }
        // Every use must fit the table.
        let mut c2: usize = 0;
        while c2 < 256
            invariant
                self.wf(),
                used@.len() == 256,
                c2 <= 256,
                forall|b: int|
                    0 <= b < 256 ==> (#[trigger] used@[b]) as int == spec_letter_count(
                        word@,
                        b as u8,
                        word@.len() as int,
                    ),
                forall|b: int|
                    0 <= b < c2 ==> spec_letter_count(word@, b as u8, word@.len() as int) <= (
                    #[trigger] self.letter_counts@[b]),
            decreases 256 - c2,
        {
            if used[c2] > self.letter_counts[c2] {
                return None;
            }
            c2 = c2 + 1;
        }
        proof {
            assert forall|ch: u8|
                spec_letter_count(word@, ch, word@.len() as int) <= (
            #[trigger] self.letter_counts@[ch as int]) by {
                assert(spec_letter_count(word@, (ch as int) as u8, word@.len() as int) <= (
                self.letter_counts@[ch as int]));
            }
        }
        // Sum the letters' values.
        let mut sum: u64 = 0;
        let mut k2: usize = 0;
        while k2 < n
            invariant
                self.wf(),
                n == word@.len(),
                n <= 0xffff_ffff,
                k2 <= n,
                sum as int == spec_letter_value_sum(self.letter_values@, word@, k2 as int),
                sum as int <= (k2 as int) * 0xffff_ffff,
            decreases n - k2,
        {
            let letter = word[k2];
            let v = self.letter_values[letter as usize];
            proof {
                assert((k2 as int) * 0xffff_ffff + 0xffff_ffff == (k2 + 1) * 0xffff_ffff)
                    by (nonlinear_arith);
                assert((k2 + 1) * 0xffff_ffff <= 0xffff_ffff * 0x1_0000_0000) by (nonlinear_arith)
                    requires
                        0 <= k2 + 1 <= 0x1_0000_0000,
                ;
            }
            sum = sum + v;
            k2 = k2 + 1;
        }
        Some(sum)
    }

    /// The score of a word value, through `slice_value`.
    pub fn word_value(&self, word: &Word) -> (r: Option<u64>)
        requires
            self.wf(),
            word@.len() <= 0xffff_ffff,
        ensures
            r == (if self.spec_playable(word@) {
                Some(self.spec_value(word@) as u64)
            } else {
                None::<u64>
            }),
    {
        let mut bytes: Vec<u8> = Vec::new();
        let slice = word.as_slice();
        let mut k: usize = 0;
        while k < slice.len()
            invariant
                slice@ == word@,
                k <= word@.len(),
                bytes@ == word@.take(k as int),
            decreases word@.len() - k,
        {
            bytes.push(slice[k]);
            proof {
                assert(bytes@ =~= word@.take(k + 1));
            }
            k = k + 1;
        }
        proof {
            assert(word@.take(word@.len() as int) =~= word@);
        }
        self.slice_value(&bytes)
    }
}

/// Counting one letter over a prefix never exceeds the prefix length.
proof fn lemma_letter_count_bound(w: Seq<u8>, c: u8, n: int)
    requires
        0 <= n,
    ensures
        0 <= spec_letter_count(w, c, n) <= n,
    decreases n,
{
    if n > 0 {
        lemma_letter_count_bound(w, c, n - 1);
    }
}

fn bytes_eq(a: &Vec<u8>, b: &Vec<u8>) -> (r: bool)
    ensures
        r == (a@ == b@),
{
    if a.len() != b.len() {
        return false;
    }
    let mut i: usize = 0;
    while i < a.len()
        invariant
            i <= a@.len(),
            a@.len() == b@.len(),
            forall|t: int| 0 <= t < i ==> a@[t] == b@[t],
        decreases a@.len() - i,
    {
        if a[i] != b[i] {
            return false;
        }
        i = i + 1;
    }
    proof {
        assert(a@ =~= b@);
    }
    true
}

/// The cap on word lengths the scorer accepts; longer candidates count as
/// unplayable.
pub const WORD_LENGTH_CAP: u64 = 0xffff_ffff;

/// What the search caches for a candidate: the guarded evaluation of its
/// word, which is absent for unplayable or over-long words.
pub open spec fn spec_eval(dict: Dictionary, w: Seq<u8>) -> Option<u64> {
    if w.len() <= WORD_LENGTH_CAP && dict.spec_playable(w) {
        Some(dict.spec_value(w) as u64)
    } else {
        None
    }
}

/// A candidate word with its cached guarded evaluation.
pub struct WordWithValue {
    pub word: Word,
    pub value: Option<u64>,
}

impl WordWithValue {
    /// The cache is honest for `dict`.
    pub open spec fn wf(self, dict: Dictionary) -> bool {
        self.value == spec_eval(dict, self.word@)
    }

    /// Evaluates a word under the length guard.
    pub fn new(word: Word, dict: &Dictionary) -> (r: WordWithValue)
        requires
            dict.wf(),
        ensures
            r.wf(*dict),
            r.word@ == word@,
    {
        let value = if (word.len() as u64) <= WORD_LENGTH_CAP {
            dict.word_value(&word)
        } else {
            None
        };
        WordWithValue { word, value }
    }

    /// The roulette weight: the value, or one for an unplayable word.
    pub fn weight(&self) -> (r: u64)
        ensures
            r == (match self.value {
                Some(v) => (if v == 0 {
                    1u64
                } else {
                    v
                }),
                None => 1u64,
            }),
    {
        match self.value {
            Some(v) => {
                if v == 0 {
                    1
                } else {
                    v
                }
            },
            None => 1,
        }
    }
}

/// The descending sort key of a cached evaluation: absent scores sink to
/// the bottom.
pub open spec fn spec_value_key(v: Option<u64>) -> int {
    match v {
        Some(x) => x as int,
        None => -1,
    }
}

/// `p` is one of the elements of `s`.
pub open spec fn member_of(p: WordWithValue, s: Seq<WordWithValue>) -> bool {
    exists|t: int| 0 <= t < s.len() && p == s[t]
}

/// The cached evaluation of `a` ranks strictly below that of `b`.
fn value_below(a: &WordWithValue, b: &WordWithValue) -> (r: bool)
    ensures
        r == (spec_value_key(a.value) < spec_value_key(b.value)),
{
    match (&a.value, &b.value) {
        (Option::None, Option::Some(_)) => true,
        (Option::Some(x), Option::Some(y)) => x < y,
        _ => false,
    }
}

/// Sorts the population by cached value, best first.  Every element of the
/// result is an element of the input.
fn sort_by_value_descending(v: &mut Vec<WordWithValue>)
    ensures
        final(v)@.len() == old(v)@.len(),
        forall|a: int, b: int|
            0 <= a <= b < final(v)@.len() ==> spec_value_key((#[trigger] final(v)@[a]).value)
                >= spec_value_key((#[trigger] final(v)@[b]).value),
        forall|k: int| 0 <= k < final(v)@.len() ==> member_of(#[trigger] final(v)@[k], old(v)@),
        forall|k: int| 0 <= k < old(v)@.len() ==> member_of(#[trigger] old(v)@[k], final(v)@),
{
    let ghost orig: Seq<WordWithValue> = v@;
    let len = v.len();
    proof {
        assert forall|k: int| 0 <= k < len implies member_of(#[trigger] v@[k], orig) && member_of(
            #[trigger] orig[k],
            v@,
        ) by {
            assert(v@[k] == orig[k]);
        }
    }
    let mut i: usize = 0;
    while i < len
        invariant
            i <= len,
            v@.len() == len,
            orig.len() == len,
            forall|a: int, b: int|
                0 <= a <= b < i ==> spec_value_key((#[trigger] v@[a]).value) >= spec_value_key(
                    (#[trigger] v@[b]).value,
                ),
            forall|a: int, b: int|
                0 <= a < i && i <= b < len ==> spec_value_key((#[trigger] v@[a]).value)
                    >= spec_value_key((#[trigger] v@[b]).value),
            forall|k: int| 0 <= k < len ==> member_of(#[trigger] v@[k], orig),
            forall|k: int| 0 <= k < len ==> member_of(#[trigger] orig[k], v@),
        decreases len - i,
    {
        let mut m: usize = i;
        let mut j: usize = i + 1;
        while j < len
            invariant
                i <= m < j <= len,
                v@.len() == len,
                forall|t: int|
                    i <= t < j ==> spec_value_key(v@[m as int].value) >= spec_value_key(
                        (#[trigger] v@[t]).value,
                    ),
            decreases len - j,
        {
            if value_below(&v[m], &v[j]) {
                m = j;
            }
            j = j + 1;
        }
        let ghost before: Seq<WordWithValue> = v@;
        if m != i {
            let pm = v.remove(m);
            let pi = v.remove(i);
            v.insert(i, pm);
            v.insert(m, pi);
            proof {
                assert(v@ =~= before.update(i as int, before[m as int]).update(
                    m as int,
                    before[i as int],
                ));
            }
        }
        proof {
            assert forall|k: int| 0 <= k < len implies member_of(#[trigger] v@[k], orig) by {
                let src: int = if k == i {
                    m as int
                } else if k == m {
                    i as int
                } else {
                    k
                };
                assert(v@[k] == before[src]);
                assert(member_of(before[src], orig));
                let t = choose|t: int| 0 <= t < orig.len() && before[src] == orig[t];
                assert(v@[k] == orig[t]);
            }
            assert forall|k: int| 0 <= k < len implies member_of(#[trigger] orig[k], v@) by {
                assert(member_of(orig[k], before));
                let t = choose|t: int| 0 <= t < before.len() && orig[k] == before[t];
                let dst: int = if t == i {
                    m as int
                } else if t == m {
                    i as int
                } else {
                    t
                };
                assert(v@[dst] == before[t]);
            }
        }
        i = i + 1;
    }
}

/// Drops every candidate whose word already occurs earlier; every survivor
/// is a member of the input and a non-empty population keeps its first.
fn dedup_words(v: &mut Vec<WordWithValue>)
    ensures
        final(v)@.len() <= old(v)@.len(),
        old(v)@.len() >= 1 ==> final(v)@.len() >= 1 && final(v)@[0] == old(v)@[0],
        forall|k: int| 0 <= k < final(v)@.len() ==> member_of(#[trigger] final(v)@[k], old(v)@),
{
    let ghost orig: Seq<WordWithValue> = v@;
    let mut kept: Vec<WordWithValue> = Vec::new();
    while v.len() > 0
        invariant
            v@.len() <= orig.len(),
            v@ == orig.subrange(orig.len() - v@.len(), orig.len() as int),
            kept@.len() <= orig.len() - v@.len(),
            orig.len() > v@.len() ==> kept@.len() >= 1 && kept@[0] == orig[0],
            forall|k: int| 0 <= k < kept@.len() ==> member_of(#[trigger] kept@[k], orig),
        decreases v@.len(),
    {
        let ghost taken: int = orig.len() - v@.len();
        let member = v.remove(0);
        proof {
            assert(member == orig[taken]);
            assert(v@ =~= orig.subrange(orig.len() - v@.len(), orig.len() as int));
        }
        let mut seen = false;
        let mut t: usize = 0;
        while t < kept.len()
            invariant
                t <= kept@.len(),
            decreases kept@.len() - t,
        {
            if words_eq(&kept[t].word, &member.word) {
                seen = true;
            }
            t = t + 1;
        }
        if !seen || kept.len() == 0 {
            kept.push(member);
            proof {
                assert(kept@[kept@.len() - 1] == orig[taken]);
            }
        }
    }
    *v = kept;
}

fn words_eq(a: &Word, b: &Word) -> (r: bool)
    ensures
        r == (a@ == b@),
{
    let sa = a.as_slice();
    let sb = b.as_slice();
    if sa.len() != sb.len() {
        return false;
    }
    let mut i: usize = 0;
    while i < sa.len()
        invariant
            sa@ == a@,
            sb@ == b@,
            i <= a@.len(),
            a@.len() == b@.len(),
            forall|t: int| 0 <= t < i ==> a@[t] == b@[t],
        decreases a@.len() - i,
    {
        if sa[i] != sb[i] {
            return false;
        }
        i = i + 1;
    }
    proof {
        assert(a@ =~= b@);
    }
    true
}

/// The default population size of the word-game search.
pub const GENERATION_SIZE: usize = 5000;

/// A bound on the rounds of one run; the wall-clock budget ends the loop
/// long before it.
pub const ROUND_LIMIT: u64 = 0x1000_0000_0000;

/// Every seed word is dominated: some member's cached value reaches at
/// least the seed's guarded evaluation.
pub open spec fn spec_dominates(dict: Dictionary, seeds: Seq<Word>, s: Seq<WordWithValue>) -> bool {
    forall|t: int|
        0 <= t < seeds.len() ==> exists|q: int|
            0 <= q < s.len() && spec_value_key((#[trigger] s[q]).value) >= spec_value_key(
                spec_eval(dict, (#[trigger] seeds[t])@),
            )
}

/// Dominance carries over any reshuffling in which every old member
/// reappears.
proof fn lemma_dominance_by_inclusion(
    dict: Dictionary,
    seeds: Seq<Word>,
    before: Seq<WordWithValue>,
    after: Seq<WordWithValue>,
)
    requires
        spec_dominates(dict, seeds, before),
        forall|k: int| 0 <= k < before.len() ==> member_of(#[trigger] before[k], after),
    ensures
        spec_dominates(dict, seeds, after),
{
    assert forall|t: int| 0 <= t < seeds.len() implies exists|q: int|
        0 <= q < after.len() && spec_value_key((#[trigger] after[q]).value) >= spec_value_key(
            spec_eval(dict, (#[trigger] seeds[t])@),
        ) by {
        let q0 = choose|q0: int|
            0 <= q0 < before.len() && spec_value_key((#[trigger] before[q0]).value)
                >= spec_value_key(spec_eval(dict, seeds[t]@));
        assert(member_of(before[q0], after));
        let p0 = choose|p0: int| 0 <= p0 < after.len() && before[q0] == after[p0];
        assert(spec_value_key(after[p0].value) >= spec_value_key(spec_eval(dict, seeds[t]@)));
    }
}

/// Dominance carries over growth that leaves the old members in place.
proof fn lemma_dominance_grow(
    dict: Dictionary,
    seeds: Seq<Word>,
    before: Seq<WordWithValue>,
    after: Seq<WordWithValue>,
)
    requires
        spec_dominates(dict, seeds, before),
        before.len() <= after.len(),
        forall|k: int| 0 <= k < before.len() ==> #[trigger] after[k] == before[k],
    ensures
        spec_dominates(dict, seeds, after),
{
    assert forall|t: int| 0 <= t < seeds.len() implies exists|q: int|
        0 <= q < after.len() && spec_value_key((#[trigger] after[q]).value) >= spec_value_key(
            spec_eval(dict, (#[trigger] seeds[t])@),
        ) by {
        let q0 = choose|q0: int|
            0 <= q0 < before.len() && spec_value_key((#[trigger] before[q0]).value)
                >= spec_value_key(spec_eval(dict, seeds[t]@));
        assert(spec_value_key(after[q0].value) >= spec_value_key(spec_eval(dict, seeds[t]@)));
    }
}

/// After sorting best-first, the front member alone dominates every seed,
/// and it survives deduplication.
proof fn lemma_front_dominates(
    dict: Dictionary,
    seeds: Seq<Word>,
    sorted: Seq<WordWithValue>,
    after: Seq<WordWithValue>,
)
    requires
        spec_dominates(dict, seeds, sorted),
        forall|a: int, b: int|
            0 <= a <= b < sorted.len() ==> spec_value_key((#[trigger] sorted[a]).value)
                >= spec_value_key((#[trigger] sorted[b]).value),
        sorted.len() >= 1,
        after.len() >= 1,
        after[0] == sorted[0],
    ensures
        forall|t: int|
            0 <= t < seeds.len() ==> spec_value_key(after[0].value) >= spec_value_key(
                spec_eval(dict, (#[trigger] seeds[t])@),
            ),
        spec_dominates(dict, seeds, after),
{
    assert forall|t: int| 0 <= t < seeds.len() implies spec_value_key(after[0].value)
        >= spec_value_key(spec_eval(dict, (#[trigger] seeds[t])@)) by {
        let q0 = choose|q0: int|
            0 <= q0 < sorted.len() && spec_value_key((#[trigger] sorted[q0]).value)
                >= spec_value_key(spec_eval(dict, seeds[t]@));
        assert(spec_value_key(sorted[0].value) >= spec_value_key(sorted[q0].value));
    }
}

/// Picks a population index by roulette: the index of the first member
/// whose running weight total passes a uniform draw.
fn roulette_pick(population: &Vec<WordWithValue>, rng: &mut RandomSource) -> (r: usize)
    requires
        population@.len() >= 1,
    ensures
        r < population@.len(),
{
    // Total weight, saturated.
    let mut total: u64 = 0;
    let mut i: usize = 0;
    while i < population.len()
        invariant
            i <= population@.len(),
        decreases population@.len() - i,
    {
        let w = population[i].weight();
        total = if total > u64::MAX - w {
            u64::MAX
        } else {
            total + w
        };
        i = i + 1;
    }
    if total == 0 {
        return 0;
    }
    let draw = rng.gen_u64_below(total);
    let mut acc: u64 = 0;
    let mut k: usize = 0;
    while k < population.len()
        invariant
            k <= population@.len(),
        decreases population@.len() - k,
    {
        let w = population[k].weight();
        acc = if acc > u64::MAX - w {
            u64::MAX
        } else {
            acc + w
        };
        if draw < acc {
            return k;
        }
        k = k + 1;
    }
    0
}

/// Genetic search over candidate words: the population is sorted by cached
/// value, deduplicated and truncated each round; parents picked by
/// value-weighted roulette are recombined, and members are mutated by the
/// shorten, shuffle, lengthen and letter-replacement operators; on the
/// deadline the best member is returned.  The returned value is exactly
/// the guarded evaluation of the returned word: its dictionary score when
/// it is playable, and zero otherwise.
pub fn search(
    initial: Vec<Word>,
    dictionary: &Dictionary,
    time_limit_millis: u64,
    rng: &mut RandomSource,
) -> (r: Solution)
    requires
        dictionary.wf(),
    ensures
        r.value as int == (match spec_eval(*dictionary, r.word@) {
            Some(v) => v as int,
            None => 0,
        }),
        forall|t: int|
            0 <= t < initial@.len() ==> spec_value_key(
                spec_eval(*dictionary, (#[trigger] initial@[t])@),
            ) <= spec_value_key(spec_eval(*dictionary, r.word@)),
{
    let start = clock::instant_now();
    let ghost seeds: Seq<Word> = initial@;
    let mut population: Vec<WordWithValue> = Vec::new();
    let mut feed = initial;
    proof {
        assert(feed@ =~= seeds.take(feed@.len() as int));
    }
    while feed.len() > 0
        invariant
            dictionary.wf(),
            feed@.len() <= seeds.len(),
            feed@ == seeds.take(feed@.len() as int),
            forall|k: int| 0 <= k < population@.len() ==> (#[trigger] population@[k]).wf(
                *dictionary,
            ),
            forall|t: int|
                feed@.len() <= t < seeds.len() ==> exists|q: int|
                    0 <= q < population@.len() && spec_value_key(
                        (#[trigger] population@[q]).value,
                    ) >= spec_value_key(spec_eval(*dictionary, (#[trigger] seeds[t])@)),
        decreases feed@.len(),
    {
        match feed.pop() {
            Some(word) => {
                proof {
                    assert(word == seeds[feed@.len() as int]);
                    assert(feed@ =~= seeds.take(feed@.len() as int));
                }
                let ghost pre: Seq<WordWithValue> = population@;
                population.push(WordWithValue::new(word, dictionary));
                proof {
                    assert forall|t: int|
                        feed@.len() <= t < seeds.len() implies exists|q: int|
                        0 <= q < population@.len() && spec_value_key(
                            (#[trigger] population@[q]).value,
                        ) >= spec_value_key(
                            spec_eval(*dictionary, (#[trigger] seeds[t])@),
                        ) by {
                        if t == feed@.len() {
                            assert(spec_value_key(
                                population@[population@.len() - 1].value,
                            ) >= spec_value_key(spec_eval(*dictionary, seeds[t]@)));
                        } else {
                            let q0 = choose|q0: int|
                                0 <= q0 < pre.len() && spec_value_key(
                                    (#[trigger] pre[q0]).value,
                                ) >= spec_value_key(spec_eval(*dictionary, seeds[t]@));
                            assert(spec_value_key(population@[q0].value) >= spec_value_key(
                                spec_eval(*dictionary, seeds[t]@),
                            ));
                        }
                    }
                }
            },
            None => {},
        }
    }
    if population.len() == 0 {
        proof {
            // An empty population means there were no seed words at all.
            if seeds.len() > 0 {
                assert(exists|q: int|
                    0 <= q < population@.len() && spec_value_key(
                        (#[trigger] population@[q]).value,
                    ) >= spec_value_key(spec_eval(*dictionary, seeds[0]@)));
                assert(false);
            }
        }
        population.push(WordWithValue::new(Word::new(Vec::new()), dictionary));
    }
    proof {
        assert(spec_dominates(*dictionary, seeds, population@));
    }

    let mut rounds: u64 = ROUND_LIMIT;
    while rounds > 0 && clock::elapsed_millis(&start) < time_limit_millis
        invariant
            dictionary.wf(),
            population@.len() >= 1,
            forall|k: int| 0 <= k < population@.len() ==> (#[trigger] population@[k]).wf(
                *dictionary,
            ),
            spec_dominates(*dictionary, seeds, population@),
        decreases rounds,
    {
        let ghost before_sort: Seq<WordWithValue> = population@;
        sort_by_value_descending(&mut population);
        proof {
            assert forall|k: int|
                0 <= k < population@.len() implies (#[trigger] population@[k]).wf(
                *dictionary,
            ) by {
                assert(member_of(population@[k], before_sort));
                let t = choose|t: int|
                    0 <= t < before_sort.len() && population@[k] == before_sort[t];
                assert(before_sort[t].wf(*dictionary));
            }
            lemma_dominance_by_inclusion(*dictionary, seeds, before_sort, population@);
        }
        let ghost before_dedup: Seq<WordWithValue> = population@;
        dedup_words(&mut population);
        proof {
            assert forall|k: int|
                0 <= k < population@.len() implies (#[trigger] population@[k]).wf(
                *dictionary,
            ) by {
                assert(member_of(population@[k], before_dedup));
                let t = choose|t: int|
                    0 <= t < before_dedup.len() && population@[k] == before_dedup[t];
                assert(before_dedup[t].wf(*dictionary));
            }
            lemma_front_dominates(*dictionary, seeds, before_dedup, population@);
        }
        let ghost before_truncate: Seq<WordWithValue> = population@;
        population.truncate(GENERATION_SIZE);
        proof {
            assert forall|k: int|
                0 <= k < population@.len() implies (#[trigger] population@[k]).wf(
                *dictionary,
            ) by {
                assert(population@[k] == before_truncate[k]);
            }
            // The dominating front member survives truncation.
            assert(population@[0] == before_truncate[0]);
            assert forall|t: int| 0 <= t < seeds.len() implies exists|q: int|
                0 <= q < population@.len() && spec_value_key(
                    (#[trigger] population@[q]).value,
                ) >= spec_value_key(spec_eval(*dictionary, (#[trigger] seeds[t])@)) by {
                assert(spec_value_key(population@[0].value) >= spec_value_key(
                    spec_eval(*dictionary, seeds[t]@),
                ));
            }
        }

        // Recombine roulette-picked parent pairs.
        let mut made: usize = 0;
        let batch = population.len();
        while made < batch
            invariant
                dictionary.wf(),
                population@.len() >= 1,
                forall|k: int| 0 <= k < population@.len() ==> (#[trigger] population@[k]).wf(
                    *dictionary,
                ),
                spec_dominates(*dictionary, seeds, population@),
            decreases batch - made,
        {
            let a = roulette_pick(&population, rng);
            let b = roulette_pick(&population, rng);
            let len_a = population[a].word.len();
            let len_b = population[b].word.len();
            if len_a >= 1 && len_b >= 1 {
                let i = rng.gen_index(len_a);
                let j = rng.gen_index(len_b);
                let child = Word::recombine(&population[a].word, &population[b].word, i, j);
                let ghost pre: Seq<WordWithValue> = population@;
                population.push(WordWithValue::new(child, dictionary));
                proof {
                    lemma_dominance_grow(*dictionary, seeds, pre, population@);
                }
            }
            made = made + 1;
        }

        // Mutate the settled members.
        let settled = population.len();
        let mut idx: usize = 0;
        while idx < settled
            invariant
                dictionary.wf(),
                settled <= population@.len(),
                population@.len() >= 1,
                forall|k: int| 0 <= k < population@.len() ==> (#[trigger] population@[k]).wf(
                    *dictionary,
                ),
                spec_dominates(*dictionary, seeds, population@),
            decreases settled - idx,
        {
            let source = &population[idx].word;
            let mut candidate = source.duplicate();
            let mut mutated = false;
            if rng.gen_ratio(1, 20) {
                let mut cut = rng.normal_sample(1, 2);
                if cut < 1 {
                    cut = 1;
                }
                let len = candidate.len();
                if (cut as u64) < (len as u64) {
                    let cut_len = cut as usize;
                    let pos = rng.gen_index(len - cut_len);
                    candidate = Word::mutate_shorten(&candidate, pos, cut_len);
                    mutated = true;
                }
            }
            if rng.gen_ratio(1, 20) {
                candidate = Word::mutate_shuffle(&candidate, rng);
                mutated = true;
            }
            if rng.gen_ratio(1, 20) {
                let mut grow = rng.normal_sample(1, 4);
                if grow < 1 {
                    grow = 1;
                }
                if grow > 64 {
                    grow = 64;
                }
                let mut letters: Vec<u8> = Vec::new();
                let mut g: u64 = 0;
                while g < grow
                    decreases grow - g,
                {
                    letters.push(97 + rng.gen_index(26) as u8);
                    g = g + 1;
                }
                candidate = Word::mutate_lengthen(&candidate, letters);
                mutated = true;
            }
            if rng.gen_ratio(9, 10) {
                let len = candidate.len();
                let mut positions: Vec<(usize, u8)> = Vec::new();
                let mut q: usize = 0;
                while q < len
                    invariant
                        len == candidate@.len(),
                        forall|t: int|
                            0 <= t < positions@.len() ==> (#[trigger] positions@[t]).0 < len,
                    decreases len - q,
                {
                    if rng.gen_ratio(1, 20) {
                        positions.push((q, 97 + rng.gen_index(26) as u8));
                    }
                    q = q + 1;
                }
                if positions.len() > 0 {
                    candidate = Word::mutate_replace_letters(&candidate, &positions);
                    mutated = true;
                }
            }
            if mutated {
                let ghost pre: Seq<WordWithValue> = population@;
                population.push(WordWithValue::new(candidate, dictionary));
                proof {
                    lemma_dominance_grow(*dictionary, seeds, pre, population@);
                }
            }
            idx = idx + 1;
        }
        rounds = rounds - 1;
    }

    // Return the best member, by cached value.
    let mut best: usize = 0;
    let mut i: usize = 1;
    while i < population.len()
        invariant
            population@.len() >= 1,
            best < i <= population@.len(),
            dictionary.wf(),
            forall|k: int| 0 <= k < population@.len() ==> (#[trigger] population@[k]).wf(
                *dictionary,
            ),
            forall|t: int|
                0 <= t < i ==> spec_value_key(population@[best as int].value) >= spec_value_key(
                    (#[trigger] population@[t]).value,
                ),
        decreases population@.len() - i,
    {
        if value_below(&population[best], &population[i]) {
            best = i;
        }
        i = i + 1;
    }
    proof {
        // The returned maximum dominates every seed's guarded value.
        assert forall|t: int| 0 <= t < seeds.len() implies spec_value_key(
            spec_eval(*dictionary, (#[trigger] seeds[t])@),
        ) <= spec_value_key(population@[best as int].value) by {
            let q0 = choose|q0: int|
                0 <= q0 < population@.len() && spec_value_key(
                    (#[trigger] population@[q0]).value,
                ) >= spec_value_key(spec_eval(*dictionary, seeds[t]@));
            assert(spec_value_key(population@[best as int].value) >= spec_value_key(
                population@[q0].value,
            ));
        }
    }
    let winner = &population[best];
    let value = match winner.value {
        Some(v) => v,
        None => 0,
    };
    Solution { word: winner.word.duplicate(), value }
}

} // verus!
