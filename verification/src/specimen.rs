use vstd::prelude::*;

verus! {

/// How many genes a specimen carries.
pub const SIZE: usize = 5;

/// How many bits one gene holds.
pub const GENOME_LENGTH: i64 = 40;

/// The mask of a gene's bits.
pub const GENOME_MASK: i64 = 0xff_ffff_ffff;

/// The largest value a freshly drawn gene may take.
pub const MAX_GENOME_VALUE: i64 = 0xff_ffff_fffe;

/// The bit mask that `recombine_inner` copies from the second parent: bit
/// positions `i` through `j`, counted from the most significant end of the
/// genome.
pub open spec fn spec_inner_mask(i: i64, j: i64) -> i64 {
    (((1i64 << ((j - i + 1) as u64)) - 1) as i64) << ((GENOME_LENGTH - j - 1) as u64)
}

/// Folding the small mutations over one gene: each listed bit position is
/// flipped in turn.
pub open spec fn spec_flip_bits(v: i64, positions: Seq<i64>) -> i64
    decreases positions.len(),
{
    if positions.len() == 0 {
        v
    } else {
        spec_flip_bits(v ^ (1i64 << (positions[0] as u64)), positions.skip(1))
    }
}

/// A bit-string genome of `SIZE` genes, each `GENOME_LENGTH` bits wide.
#[derive(Debug, Clone, PartialEq, Eq)]
pub struct Specimen {
    pub values: Vec<i64>,
}

impl Specimen {
    /// The genome holds exactly `SIZE` genes.
    pub open spec fn wf(self) -> bool {
        self.values@.len() == SIZE
    }

    pub fn new(values: Vec<i64>) -> (r: Specimen)
        requires
            values@.len() == SIZE,
        ensures
            r.values == values,
            r.wf(),
    {
        Specimen { values }
    }

    /// Crossover inside the genes: a stretch of bit positions, the same in
    /// every gene, is taken from the second parent and the rest from the
    /// first, masked back to genome width.
    pub fn recombine_inner(s1: &Specimen, s2: &Specimen, i: i64, j: i64) -> (r: Specimen)
        requires
            s1.wf(),
            s2.wf(),
            0 <= i <= j < GENOME_LENGTH,
        ensures
            r.wf(),
            forall|k: int|
                0 <= k < SIZE ==> (#[trigger] r.values@[k]) == ((s1.values@[k]
                    & !spec_inner_mask(i, j)) | (s2.values@[k] & spec_inner_mask(i, j)))
                    & GENOME_MASK,
    {
        let len: u64 = (j - i + 1) as u64;
        let shift_back: u64 = (GENOME_LENGTH - j - 1) as u64;
        proof {
            assert(1 <= (1i64 << len) <= 0x100_0000_0000) by (bit_vector)
                requires
                    1 <= len <= 40,
            ;
        }
        let mask: i64 = ((1i64 << len) - 1) << shift_back;
        let mut values: Vec<i64> = Vec::new();
        let mut k: usize = 0;
        while k < SIZE
            invariant
                s1.wf(),
                s2.wf(),
                0 <= i <= j < GENOME_LENGTH,
                mask == spec_inner_mask(i, j),
                k <= SIZE,
                values@.len() == k,
                forall|t: int|
                    0 <= t < k ==> (#[trigger] values@[t]) == ((s1.values@[t] & !mask) | (
                    s2.values@[t] & mask)) & GENOME_MASK,
            decreases SIZE - k,
        {
            let combined = ((s1.values[k] & !mask) | (s2.values[k] & mask)) & GENOME_MASK;
            values.push(combined);
            k = k + 1;
        }
        Specimen { values }
    }

    /// Crossover outside the genes: one whole gene is taken from the
    /// second parent.
    pub fn recombine_outer(s1: &Specimen, s2: &Specimen, i: usize) -> (r: Specimen)
        requires
            s1.wf(),
            s2.wf(),
            i < SIZE,
        ensures
            r.wf(),
            r.values@[i as int] == s2.values@[i as int],
            forall|k: int| 0 <= k < SIZE && k != i ==> (#[trigger] r.values@[k]) == s1.values@[k],
    {
        let mut values = clone_genes(&s1.values);
        let replacement = s2.values[i];
        values[i] = replacement;
        Specimen { values }
    }

    /// The big mutation: one gene is inverted bit for bit, within the
    /// genome width.
    pub fn mutate_big(specimen: &Specimen, i: usize) -> (r: Specimen)
        requires
            specimen.wf(),
            i < SIZE,
        ensures
            r.wf(),
            r.values@[i as int] == !specimen.values@[i as int] & GENOME_MASK,
            forall|k: int|
                0 <= k < SIZE && k != i ==> (#[trigger] r.values@[k]) == specimen.values@[k],
    {
        let mut values = clone_genes(&specimen.values);
        let flipped = !values[i] & GENOME_MASK;
        values[i] = flipped;
        Specimen { values }
    }

    /// The small mutation: the listed bit positions are flipped in every
    /// gene, and each gene is masked back to genome width.
    pub fn mutate_small(specimen: &Specimen, positions: &Vec<i64>) -> (r: Specimen)
        requires
            specimen.wf(),
            forall|t: int| 0 <= t < positions@.len() ==> 0 <= #[trigger] positions@[t]
                < GENOME_LENGTH,
        ensures
            r.wf(),
            forall|k: int|
                0 <= k < SIZE ==> (#[trigger] r.values@[k]) == spec_flip_bits(
                    specimen.values@[k],
                    positions@,
                ) & GENOME_MASK,
    {
        let mut values: Vec<i64> = Vec::new();
        let mut k: usize = 0;
        while k < SIZE
            invariant
                specimen.wf(),
                forall|t: int| 0 <= t < positions@.len() ==> 0 <= #[trigger] positions@[t]
                    < GENOME_LENGTH,
                k <= SIZE,
                values@.len() == k,
                forall|t: int|
                    0 <= t < k ==> (#[trigger] values@[t]) == spec_flip_bits(
                        specimen.values@[t],
                        positions@,
                    ) & GENOME_MASK,
            decreases SIZE - k,
        {
            let mut value = specimen.values[k];
            proof {
                assert(positions@.skip(0) =~= positions@);
            }
            let mut p: usize = 0;
            while p < positions.len()
                invariant
                    forall|t: int| 0 <= t < positions@.len() ==> 0 <= #[trigger] positions@[t]
                        < GENOME_LENGTH,
                    p <= positions@.len(),
                    spec_flip_bits(value, positions@.skip(p as int)) == spec_flip_bits(
                        specimen.values@[k as int],
                        positions@,
                    ),
                    k < SIZE,
                    specimen.wf(),
                decreases positions@.len() - p,
            {
                let ghost before: Seq<i64> = positions@.skip(p as int);
                proof {
                    assert(before[0] == positions@[p as int]);
                    assert(before.skip(1) =~= positions@.skip(p + 1));
                }
                value = value ^ (1i64 << (positions[p] as u64));
                p = p + 1;
            }
            proof {
                assert(positions@.skip(positions@.len() as int) =~= Seq::<i64>::empty());
            }
            values.push(value & GENOME_MASK);
            k = k + 1;
        }
        Specimen { values }
    }
}

fn clone_genes(v: &Vec<i64>) -> (r: Vec<i64>)
    ensures
        r@ == v@,
{
    let mut r: Vec<i64> = Vec::new();
    let mut i: usize = 0;
    while i < v.len()
        invariant
            i <= v@.len(),
            r@ == v@.take(i as int),
        decreases v@.len() - i,
    {
        r.push(v[i]);
        proof {
            assert(r@ =~= v@.take(i + 1));
        }
        i = i + 1;
    }
    proof {
        assert(v@.take(v@.len() as int) =~= v@);
    }
    r
}

} // verus!
