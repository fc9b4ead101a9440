//! The genetic engine: chromosome generation, rank-biased selection,
//! two-point crossover, per-gene mutation, elitism, fitness ranking, and
//! the generation loop that ties them to the packing decoder.

use vstd::prelude::*;
use vstd::arithmetic::div_mod::{lemma_div_pos_is_pos, lemma_multiply_divide_lt};
use vstd::pervasive::VecAdditionalExecFns;

use rayon::prelude::IntoParallelRefIterator;
use rayon::prelude::ParallelIterator;

use crate::decoder::{decode_chromosome, lemma_fitness_in_range, spec_fitness, Fitness};
use crate::geometry::Problem;
use crate::rng::{rng_below, rng_word};

verus! {

/// A probability or rate as an exact fraction `num / den` in [0, 1].
#[derive(Clone, Copy, Debug, PartialEq, Eq, Structural)]
pub struct Ratio {
    pub num: u32,
    pub den: u32,
}

impl Ratio {
    /// A well-formed fraction in [0, 1].
    pub open spec fn valid(self) -> bool {
        0 < self.den && self.num <= self.den
    }
}

/// Every gene is 0 or 1.
pub open spec fn is_binary(c: Seq<u8>) -> bool {
    forall|j: int| 0 <= j < c.len() ==> c[j] == 0 || c[j] == 1
}

/// The all-ones encoding of a given length: place every item.
pub open spec fn ones(len: int) -> Seq<u8> {
    Seq::new(len as nat, |i: int| 1u8)
}

/// How many genes of the chromosome are zero.
pub open spec fn count_zeros(c: Seq<u8>) -> int
    decreases c.len(),
{
    if c.len() == 0 {
        0
    } else {
        count_zeros(c.drop_last()) + if c.last() == 0 {
            1int
        } else {
            0int
        }
    }
}

/// Zero counts are nonnegative, and zero on an all-ones chromosome.
pub proof fn lemma_count_zeros_bounds(c: Seq<u8>)
    ensures
        0 <= count_zeros(c),
        (forall|j: int| 0 <= j < c.len() ==> c[j] == 1) ==> count_zeros(c) == 0,
    decreases c.len(),
{
    if c.len() > 0 {
        lemma_count_zeros_bounds(c.drop_last());
    }
}

/// Forcing one gene to zero adds at most one zero.
pub proof fn lemma_count_zeros_update(c: Seq<u8>, i: int)
    requires
        0 <= i < c.len(),
    ensures
        count_zeros(c.update(i, 0u8)) <= count_zeros(c) + 1,
    decreases c.len(),
{
    let c2 = c.update(i, 0u8);
    if i == c.len() - 1 {
        assert(c2.drop_last() =~= c.drop_last());
        lemma_count_zeros_bounds(c.drop_last());
    } else {
        assert(c2.drop_last() =~= c.drop_last().update(i, 0u8));
        lemma_count_zeros_update(c.drop_last(), i);
        assert(c2.last() == c.last());
    }
}

/// A chromosome with a gene just forced to zero counts at least one zero,
/// whatever it held before.
pub proof fn lemma_count_zeros_update_pos(c: Seq<u8>, i: int)
    requires
        0 <= i < c.len(),
    ensures
        count_zeros(c.update(i, 0u8)) >= 1,
    decreases c.len(),
{
    let c2 = c.update(i, 0u8);
    if i == c.len() - 1 {
        lemma_count_zeros_bounds(c2.drop_last());
    } else {
        assert(c2.drop_last() =~= c.drop_last().update(i, 0u8));
        lemma_count_zeros_update_pos(c.drop_last(), i);
    }
}

/// Build one initial chromosome: start from all ones, then force a small
/// random subset of positions (a tenth of the length, duplicates allowed)
/// to zero. The bias towards "place everything" lets selection pressure
/// discover which items to drop. With ten or more genes at least one zero
/// is forced on every outcome; with fewer, the result is exactly the
/// all-ones encoding.
pub fn generate_chromosome(len: usize, rng: &mut rand::rngs::StdRng) -> (r: Vec<u8>)
    ensures
        r@.len() == len,
        is_binary(r@),
        count_zeros(r@) <= len as int / 10,
        len >= 10 ==> count_zeros(r@) >= 1,
        len < 10 ==> r@ == ones(len as int),
{
    let mut chromosome: Vec<u8> = Vec::new();
    let mut j: usize = 0;
    while j < len
        invariant
            j <= len,
            chromosome@.len() == j,
            forall|k: int| 0 <= k < j ==> chromosome@[k] == 1,
        decreases len - j,
    {
        chromosome.push(1u8);
        j = j + 1;
    }
    proof {
        lemma_count_zeros_bounds(chromosome@);
    }

    let zeros = len / 10;
    let mut t: usize = 0;
    while t < zeros
        invariant
            zeros == len as int / 10,
            t <= zeros,
            chromosome@.len() == len,
            is_binary(chromosome@),
            count_zeros(chromosome@) <= t as int,
            t >= 1 ==> count_zeros(chromosome@) >= 1,
            zeros == 0 ==> forall|k: int| 0 <= k < chromosome@.len() ==> chromosome@[k] == 1,
        decreases zeros - t,
    {
        let pos = rng_below(rng, len);
        proof {
            lemma_count_zeros_update(chromosome@, pos as int);
            lemma_count_zeros_update_pos(chromosome@, pos as int);
        }
        chromosome.set(pos, 0u8);
        t = t + 1;
    }
    proof {
        if len < 10 {
            assert(chromosome@ =~= ones(len as int));
        }
    }
    chromosome
}

/// Build the whole initial population: `count` chromosomes of `size` genes,
/// each carrying what `generate_chromosome` guarantees — at most a tenth
/// zeros, at least one zero from ten genes up, all ones below that.
pub fn generate_initial_chromosomes(size: usize, count: usize, rng: &mut rand::rngs::StdRng) -> (r:
    Vec<Vec<u8>>)
    ensures
        r@.len() == count,
        forall|i: int| 0 <= i < count ==> (#[trigger] r@[i])@.len() == size,
        forall|i: int| 0 <= i < count ==> is_binary((#[trigger] r@[i])@),
        forall|i: int| 0 <= i < count ==> count_zeros((#[trigger] r@[i])@) <= size as int / 10,
        size >= 10 ==> forall|i: int| 0 <= i < count ==> count_zeros((#[trigger] r@[i])@) >= 1,
        size < 10 ==> forall|i: int| 0 <= i < count ==> (#[trigger] r@[i])@ == ones(size as int),
{
    let mut population: Vec<Vec<u8>> = Vec::new();
    let mut i: usize = 0;
    while i < count
        invariant
            i <= count,
            population@.len() == i,
            forall|k: int| 0 <= k < i ==> (#[trigger] population@[k])@.len() == size,
            forall|k: int| 0 <= k < i ==> is_binary((#[trigger] population@[k])@),
            forall|k: int|
                0 <= k < i ==> count_zeros((#[trigger] population@[k])@) <= size as int / 10,
            size >= 10 ==> forall|k: int|
                0 <= k < i ==> count_zeros((#[trigger] population@[k])@) >= 1,
            size < 10 ==> forall|k: int|
                0 <= k < i ==> (#[trigger] population@[k])@ == ones(size as int),
        decreases count - i,
    {
        let c = generate_chromosome(size, rng);
        population.push(c);
        i = i + 1;
    }
    population
}

/// Copy a chromosome gene by gene.
fn clone_genes(c: &Vec<u8>) -> (r: Vec<u8>)
    ensures
        r@ == c@,
{
    let mut out: Vec<u8> = Vec::new();
    let mut j: usize = 0;
    while j < c.len()
        invariant
            j <= c@.len(),
            out@ == c@.take(j as int),
        decreases c@.len() - j,
    {
        let g = c[j];
        out.push(g);
        proof {
            assert(out@ =~= c@.take(j + 1));
        }
        j = j + 1;
    }
    proof {
        assert(c@.take(c@.len() as int) =~= c@);
    }
    out
}

/// Both members of a pair are chromosomes drawn from two distinct
/// positions of the parent list.
pub open spec fn pair_from(parents: Seq<Vec<u8>>, pr: (Vec<u8>, Vec<u8>)) -> bool {
    exists|i: int, j: int|
        {
            &&& 0 <= i < parents.len()
            &&& 0 <= j < parents.len()
            &&& i != j
            &&& pr.0@ == parents[i]@
            &&& pr.1@ == parents[j]@
        }
}

/// Rank-biased stochastic pairing: for each of `len / 2` pairs, every
/// parent index `i` gets the weight `(i + 1) * u` for a fresh random `u`,
/// and the two highest-weight indices become the pair. Callers hand the
/// list sorted by descending fitness, so a parent's expected weight depends
/// on its rank position, but any parent can win a draw. The contract
/// promises only what holds of every draw: each pair is two distinct
/// positions of the parent list.
pub fn roulette_selection(parents: &Vec<Vec<u8>>, rng: &mut rand::rngs::StdRng) -> (pairs: Vec<
    (Vec<u8>, Vec<u8>),
>)
    requires
        parents@.len() <= u32::MAX as usize,
    ensures
        pairs@.len() == parents@.len() / 2,
        forall|k: int| 0 <= k < pairs@.len() ==> pair_from(parents@, #[trigger] pairs@[k]),
{
    let n = parents.len();
    let mut out: Vec<(Vec<u8>, Vec<u8>)> = Vec::new();
    let mut p: usize = 0;
    while p < n / 2
        invariant
            n == parents@.len(),
            n <= u32::MAX as usize,
            p <= n / 2,
            out@.len() == p,
            forall|k: int| 0 <= k < out@.len() ==> pair_from(parents@, #[trigger] out@[k]),
        decreases n / 2 - p,
    {
        let mut weights: Vec<u64> = Vec::new();
        let mut i: usize = 0;
        while i < n
            invariant
                n <= u32::MAX as usize,
                i <= n,
                weights@.len() == i,
            decreases n - i,
        {
            let draw = rng_word(rng);
            proof {
                assert((i as u64 + 1) * (draw as u64) <= u64::MAX) by (nonlinear_arith)
                    requires
                        i as u64 + 1 <= 0x1_0000_0000u64,
                        (draw as u64) < 0x1_0000_0000u64,
                ;
            }
            let weight = (i as u64 + 1) * (draw as u64);
            weights.push(weight);
            i = i + 1;
        }

        let mut best: usize = 0;
        let mut m: usize = 1;
        while m < n
            invariant
                weights@.len() == n,
                best < n,
                m <= n,
            decreases n - m,
        {
            if weights[m] > weights[best] {
                best = m;
            }
            m = m + 1;
        }

        let mut second: usize = if best == 0 {
            1
        } else {
            0
        };
        let mut m2: usize = 0;
        while m2 < n
            invariant
                weights@.len() == n,
                best < n,
                2 <= n,
                second < n,
                second != best,
                m2 <= n,
            decreases n - m2,
        {
            if m2 != best && weights[m2] > weights[second] {
                second = m2;
            }
            m2 = m2 + 1;
        }

        let first_parent = clone_genes(&parents[best]);
        let second_parent = clone_genes(&parents[second]);
        let ghost pre = out@;
        let new_pair = (first_parent, second_parent);
        out.push(new_pair);
        proof {
            let wi = best as int;
            let wj = second as int;
            assert(0 <= wi < parents@.len() && 0 <= wj < parents@.len() && wi != wj && new_pair.0@
                == parents@[wi]@ && new_pair.1@ == parents@[wj]@);
            assert(pair_from(parents@, new_pair));
            assert forall|k: int| 0 <= k < out@.len() implies pair_from(
                parents@,
                #[trigger] out@[k],
            ) by {
                if k < pre.len() {
                    assert(out@[k] == pre[k]);
                } else {
                    assert(out@[k] == new_pair);
                }
            }
        }
        p = p + 1;
    }
    out
}

/// A two-point-crossover child: the first parent's genes outside
/// `[start, end)`, the second parent's genes inside it.
pub open spec fn spec_cross(a: Seq<u8>, b: Seq<u8>, start: int, end: int) -> Seq<u8> {
    a.take(start) + b.subrange(start, end) + a.skip(end)
}

/// A child carries exactly as many genes as its first parent.
pub proof fn lemma_cross_len(a: Seq<u8>, b: Seq<u8>, start: int, end: int)
    requires
        0 <= start <= end <= a.len(),
        end <= b.len(),
    ensures
        spec_cross(a, b, start, end).len() == a.len(),
{
}

/// Every gene of a crossover child comes from one of the two parents, so
/// binary parents yield binary children.
pub proof fn lemma_cross_binary(a: Seq<u8>, b: Seq<u8>, start: int, end: int)
    requires
        0 <= start <= end <= a.len(),
        end <= b.len(),
        is_binary(a),
        is_binary(b),
    ensures
        is_binary(spec_cross(a, b, start, end)),
{
    let c = spec_cross(a, b, start, end);
    assert forall|j: int| 0 <= j < c.len() implies c[j] == 0 || c[j] == 1 by {
        if j < start {
            assert(c[j] == a[j]);
        } else if j < end {
            assert(c[j] == b[j]);
        } else {
            assert(c[j] == a[j]);
        }
    }
}

/// Crossing over an empty segment copies the first parent exactly: when
/// the two cut points coincide, both children equal their parents.
pub proof fn lemma_cross_empty_segment(a: Seq<u8>, b: Seq<u8>, start: int)
    requires
        0 <= start <= a.len(),
        start <= b.len(),
    ensures
        spec_cross(a, b, start, start) == a,
{
    assert(spec_cross(a, b, start, start) =~= a);
}

/// Build one crossover child.
fn cross_one(a: &Vec<u8>, b: &Vec<u8>, start: usize, end: usize) -> (c: Vec<u8>)
    requires
        start <= end,
        end <= a@.len(),
        a@.len() == b@.len(),
    ensures
        c@ == spec_cross(a@, b@, start as int, end as int),
{
    let len = a.len();
    let mut child: Vec<u8> = Vec::new();
    let mut j: usize = 0;
    while j < len
        invariant
            len == a@.len(),
            a@.len() == b@.len(),
            start <= end <= len,
            j <= len,
            child@.len() == j,
            forall|m: int|
                0 <= m < j ==> child@[m] == (if m < start {
                    a@[m]
                } else if m < end {
                    b@[m]
                } else {
                    a@[m]
                }),
        decreases len - j,
    {
        let g = if j < start {
            a[j]
        } else if j < end {
            b[j]
        } else {
            a[j]
        };
        child.push(g);
        j = j + 1;
    }
    proof {
        assert(child@ =~= spec_cross(a@, b@, start as int, end as int));
    }
    child
}

/// `c1` and `c2` are the two mirror-image two-point-crossover children of
/// the pair, for one choice of ordered cut points.
pub open spec fn crossed_pair(pr: (Vec<u8>, Vec<u8>), c1: Vec<u8>, c2: Vec<u8>) -> bool {
    exists|s: int, e: int|
        {
            &&& 0 <= s <= e <= pr.0@.len()
            &&& c1@ == spec_cross(pr.0@, pr.1@, s, e)
            &&& c2@ == spec_cross(pr.1@, pr.0@, s, e)
        }
}

/// Two-point crossover over the selected pairs: per pair, two independent
/// uniform cut points are drawn and ordered, and the two mirror-image
/// children are appended — exactly two children per pair, each with its
/// parent's gene count. When the cut points coincide the children equal
/// their parents (`lemma_cross_empty_segment`).
pub fn two_point_crossover(pairs: &Vec<(Vec<u8>, Vec<u8>)>, rng: &mut rand::rngs::StdRng) -> (children: Vec<Vec<u8>>)
    requires
        forall|k: int|
            0 <= k < pairs@.len() ==> 0 < (#[trigger] pairs@[k]).0@.len() && pairs@[k].0@.len()
                == pairs@[k].1@.len(),
    ensures
        children@.len() == 2 * pairs@.len(),
        forall|k: int|
            0 <= k < pairs@.len() ==> crossed_pair(
                #[trigger] pairs@[k],
                children@[2 * k],
                children@[2 * k + 1],
            ),
        forall|k: int|
            0 <= k < children@.len() ==> (#[trigger] children@[k])@.len()
                == pairs@[k / 2].0@.len(),
{
    let mut children: Vec<Vec<u8>> = Vec::new();
    let mut k: usize = 0;
    while k < pairs.len()
        invariant
            forall|m: int|
                0 <= m < pairs@.len() ==> 0 < (#[trigger] pairs@[m]).0@.len() && pairs@[m].0@.len()
                    == pairs@[m].1@.len(),
            k <= pairs@.len(),
            children@.len() == 2 * k,
            forall|m: int|
                0 <= m < k ==> crossed_pair(
                    #[trigger] pairs@[m],
                    children@[2 * m],
                    children@[2 * m + 1],
                ),
            forall|m: int|
                0 <= m < children@.len() ==> (#[trigger] children@[m])@.len()
                    == pairs@[m / 2].0@.len(),
        decreases pairs@.len() - k,
    {
        let len = pairs[k].0.len();
        let r1 = rng_below(rng, len);
        let r2 = rng_below(rng, len);
        let (start, end) = if r1 < r2 {
            (r1, r2)
        } else {
            (r2, r1)
        };

        let child1 = cross_one(&pairs[k].0, &pairs[k].1, start, end);
        let child2 = cross_one(&pairs[k].1, &pairs[k].0, start, end);
        proof {
            lemma_cross_len(pairs@[k as int].0@, pairs@[k as int].1@, start as int, end as int);
            lemma_cross_len(pairs@[k as int].1@, pairs@[k as int].0@, start as int, end as int);
        }
        let ghost pre = children@;
        proof {
            let s = start as int;
            let e = end as int;
            assert(0 <= s <= e <= pairs@[k as int].0@.len() && child1@ == spec_cross(
                pairs@[k as int].0@,
                pairs@[k as int].1@,
                s,
                e,
            ) && child2@ == spec_cross(pairs@[k as int].1@, pairs@[k as int].0@, s, e));
            assert(crossed_pair(pairs@[k as int], child1, child2));
        }
        children.push(child1);
        children.push(child2);
        proof {
            assert forall|m: int| 0 <= m < k + 1 implies crossed_pair(
                #[trigger] pairs@[m],
                children@[2 * m],
                children@[2 * m + 1],
            ) by {
                if m < k as int {
                    assert(children@[2 * m] == pre[2 * m]);
                    assert(children@[2 * m + 1] == pre[2 * m + 1]);
                } else {
                    assert(children@[2 * m] == child1);
                    assert(children@[2 * m + 1] == child2);
                }
            }
        }
        k = k + 1;
    }
    children
}

/// A gene after one mutation flip.
pub open spec fn flip_gene(g: u8) -> u8 {
    if g == 0 {
        1u8
    } else {
        0u8
    }
}

/// `b` is a possible mutation of `a`: same length, each gene kept or
/// flipped.
pub open spec fn mutated_from(a: Seq<u8>, b: Seq<u8>) -> bool {
    &&& a.len() == b.len()
    &&& forall|j: int| 0 <= j < a.len() ==> b[j] == a[j] || b[j] == flip_gene(#[trigger] a[j])
}

/// `b` is `a` with every single gene flipped.
pub open spec fn all_flipped(a: Seq<u8>, b: Seq<u8>) -> bool {
    &&& a.len() == b.len()
    &&& forall|j: int| 0 <= j < a.len() ==> b[j] == flip_gene(#[trigger] a[j])
}

/// Per-gene mutation: every gene of every chromosome flips independently
/// with probability exactly `rate.num / rate.den` (an integer draw below
/// `rate.den` is compared against `rate.num`). Applied to the whole
/// children set, never to surviving parents. The boundary rates are fixed
/// on every outcome: rate zero returns every chromosome unchanged, rate
/// one flips every gene.
pub fn mutation(chromosomes: &Vec<Vec<u8>>, rate: Ratio, rng: &mut rand::rngs::StdRng) -> (r: Vec<
    Vec<u8>,
>)
    requires
        rate.valid(),
    ensures
        r@.len() == chromosomes@.len(),
        forall|i: int|
            0 <= i < r@.len() ==> mutated_from((#[trigger] chromosomes@[i])@, r@[i]@),
        rate.num == 0 ==> forall|i: int|
            0 <= i < r@.len() ==> (#[trigger] r@[i])@ == chromosomes@[i]@,
        rate.num == rate.den ==> forall|i: int|
            0 <= i < r@.len() ==> all_flipped((#[trigger] chromosomes@[i])@, r@[i]@),
{
    let mut out: Vec<Vec<u8>> = Vec::new();
    let mut i: usize = 0;
    while i < chromosomes.len()
        invariant
            rate.valid(),
            i <= chromosomes@.len(),
            out@.len() == i,
            forall|m: int|
                0 <= m < i ==> mutated_from((#[trigger] chromosomes@[m])@, out@[m]@),
            rate.num == 0 ==> forall|m: int|
                0 <= m < i ==> (#[trigger] out@[m])@ == chromosomes@[m]@,
            rate.num == rate.den ==> forall|m: int|
                0 <= m < i ==> all_flipped((#[trigger] chromosomes@[m])@, out@[m]@),
        decreases chromosomes@.len() - i,
    {
        let source = &chromosomes[i];
        let mut mutated: Vec<u8> = Vec::new();
        let mut j: usize = 0;
        while j < source.len()
            invariant
                rate.valid(),
                j <= source@.len(),
                mutated@.len() == j,
                forall|m: int|
                    0 <= m < j ==> mutated@[m] == source@[m] || mutated@[m] == flip_gene(
                        #[trigger] source@[m],
                    ),
                rate.num == 0 ==> forall|m: int| 0 <= m < j ==> mutated@[m] == source@[m],
                rate.num == rate.den ==> forall|m: int|
                    0 <= m < j ==> mutated@[m] == flip_gene(#[trigger] source@[m]),
            decreases source@.len() - j,
        {
            let g = source[j];
            let draw = rng_below(rng, rate.den as usize);
            if draw < rate.num as usize {
                mutated.push(if g == 0 {
                    1u8
                } else {
                    0u8
                });
            } else {
                mutated.push(g);
            }
            j = j + 1;
        }
        proof {
            if rate.num == 0 {
                assert(mutated@ =~= source@);
            }
        }
        out.push(mutated);
        i = i + 1;
    }
    out
}

/// The elite count: `population_size * rate`, rounded half-up, computed
/// exactly on integers as `(2 * population_size * num + den) / (2 * den)`.
pub open spec fn spec_elite_count(population_size: int, rate: Ratio) -> int {
    (2 * population_size * rate.num + rate.den) / (2 * rate.den)
}

/// The elite count is between zero and the population size for any rate in
/// [0, 1].
pub proof fn lemma_elite_count_le(population_size: int, rate: Ratio)
    requires
        0 <= population_size,
        rate.valid(),
    ensures
        0 <= spec_elite_count(population_size, rate) <= population_size,
{
    let ps = population_size;
    let num = rate.num as int;
    let den = rate.den as int;
    assert(0 <= 2 * ps * num + den) by (nonlinear_arith)
        requires
            0 <= ps,
            0 <= num,
            0 < den,
    ;
    lemma_div_pos_is_pos(2 * ps * num + den, 2 * den);
    assert(2 * ps * num + den < (2 * den) * (ps + 1)) by (nonlinear_arith)
        requires
            0 <= ps,
            0 <= num <= den,
            0 < den,
    ;
    lemma_multiply_divide_lt(2 * ps * num + den, 2 * den, ps + 1);
}

/// Compute the elite count at runtime.
pub fn elite_count(population_size: usize, rate: Ratio) -> (n: usize)
    requires
        rate.valid(),
    ensures
        n as int == spec_elite_count(population_size as int, rate),
        n <= population_size,
{
    proof {
        lemma_elite_count_le(population_size as int, rate);
    }
    let ps = population_size as u128;
    let num = rate.num as u128;
    let den = rate.den as u128;
    proof {
        assert(2 * ps * num + den <= u128::MAX) by (nonlinear_arith)
            requires
                ps <= u64::MAX,
                num <= u32::MAX,
                den <= u32::MAX,
        ;
    }
    let e = (2 * ps * num + den) / (2 * den);
    e as usize
}

/// Next-generation assembly with true elitism: the first
/// `round(population_size * rate)` entries of the rank-sorted parent list
/// survive unchanged, and the remainder of the population is filled from
/// the front of the (mutated) children list. Callers must supply enough
/// parents and children; the output length is then exactly
/// `population_size`.
pub fn elitism(
    parents: &Vec<Vec<u8>>,
    children: &Vec<Vec<u8>>,
    rate: Ratio,
    population_size: usize,
) -> (next: Vec<Vec<u8>>)
    requires
        rate.valid(),
        spec_elite_count(population_size as int, rate) <= parents@.len(),
        population_size - spec_elite_count(population_size as int, rate) <= children@.len(),
    ensures
        next@.len() == population_size,
        forall|i: int|
            0 <= i < spec_elite_count(population_size as int, rate) ==> (#[trigger] next@[i])@
                == parents@[i]@,
        forall|i: int|
            spec_elite_count(population_size as int, rate) <= i < population_size ==> (
            #[trigger] next@[i])@ == children@[i - spec_elite_count(
                population_size as int,
                rate,
            )]@,
{
    let old_ind_size = elite_count(population_size, rate);
    let remaining = population_size - old_ind_size;

    let mut next: Vec<Vec<u8>> = Vec::new();
    let mut i: usize = 0;
    while i < old_ind_size
        invariant
            old_ind_size as int == spec_elite_count(population_size as int, rate),
            old_ind_size <= parents@.len(),
            i <= old_ind_size,
            next@.len() == i,
            forall|m: int| 0 <= m < i ==> (#[trigger] next@[m])@ == parents@[m]@,
        decreases old_ind_size - i,
    {
        let c = clone_genes(&parents[i]);
        next.push(c);
        i = i + 1;
    }
    let mut j: usize = 0;
    while j < remaining
        invariant
            old_ind_size as int == spec_elite_count(population_size as int, rate),
            remaining == population_size - old_ind_size,
            remaining <= children@.len(),
            j <= remaining,
            next@.len() == old_ind_size + j,
            forall|m: int| 0 <= m < old_ind_size ==> (#[trigger] next@[m])@ == parents@[m]@,
            forall|m: int|
                old_ind_size <= m < old_ind_size + j ==> (#[trigger] next@[m])@ == children@[m
                    - old_ind_size]@,
        decreases remaining - j,
    {
        let c = clone_genes(&children[j]);
        next.push(c);
        j = j + 1;
    }
    next
}

/// Relies on rayon's `par_iter().map(..).collect()`: one output per input,
/// in input order, each produced by the given closure — here a call of the
/// verified `decode_chromosome` plus a copy of the input. Decoding is a
/// pure function of (encoding, problem), so scoring distinct individuals
/// in parallel worker threads is safe.
#[verifier::external_body]
fn decode_population_parallel(population: &Vec<Vec<u8>>, problem: &Problem) -> (scored: Vec<
    (Vec<u8>, Fitness),
>)
    requires
        problem.valid(),
    ensures
        scored@.len() == population@.len(),
        forall|i: int|
            0 <= i < scored@.len() ==> {
                &&& (#[trigger] scored@[i]).0@ == population@[i]@
                &&& scored@[i].1.used as int == spec_fitness(population@[i]@, *problem)
                &&& scored@[i].1.total as int == problem.spec_bin_area()
                &&& scored@[i].1.valid()
            },
{
    population.par_iter().map(
        |chromosome: &Vec<u8>| {
            let (_, fitness) = decode_chromosome(chromosome, problem);
            (clone_genes(chromosome), fitness)
        },
    ).collect()
}

/// The gene sequences of a scored list, in order.
pub open spec fn gene_views(s: Seq<(Vec<u8>, Fitness)>) -> Seq<Seq<u8>> {
    s.map_values(|pr: (Vec<u8>, Fitness)| pr.0@)
}

/// The gene sequences of a population, in order.
pub open spec fn chromosome_views(s: Seq<Vec<u8>>) -> Seq<Seq<u8>> {
    s.map_values(|v: Vec<u8>| v@)
}

/// Sort scored individuals by descending fitness, preserving the multiset
/// of entries, by repeatedly extracting the first best remaining entry.
/// All denominators equal the bin area, so comparing numerators compares
/// fitness. Ties keep their input order, but the contract leaves tie order
/// open.
fn sort_by_fitness_desc(scored: Vec<(Vec<u8>, Fitness)>) -> (sorted: Vec<(Vec<u8>, Fitness)>)
    ensures
        sorted@.len() == scored@.len(),
        forall|i: int, j: int|
            0 <= i <= j < sorted@.len() ==> (#[trigger] sorted@[i]).1.used
                >= (#[trigger] sorted@[j]).1.used,
        sorted@.to_multiset() == scored@.to_multiset(),
        gene_views(sorted@).to_multiset() == gene_views(scored@).to_multiset(),
        forall|i: int| 0 <= i < sorted@.len() ==> scored@.contains(#[trigger] sorted@[i]),
{
    let mut rest = scored;
    let mut out: Vec<(Vec<u8>, Fitness)> = Vec::new();
    proof {
        broadcast use vstd::seq_lib::group_to_multiset_ensures;

        assert(out@.to_multiset().add(rest@.to_multiset()) =~= scored@.to_multiset());
        assert(gene_views(out@).to_multiset().add(gene_views(rest@).to_multiset())
            =~= gene_views(scored@).to_multiset());
    }
    while rest.len() > 0
        invariant
            out@.len() + rest@.len() == scored@.len(),
            out@.to_multiset().add(rest@.to_multiset()) == scored@.to_multiset(),
            gene_views(out@).to_multiset().add(gene_views(rest@).to_multiset()) == gene_views(
                scored@,
            ).to_multiset(),
            forall|i: int, j: int|
                0 <= i <= j < out@.len() ==> (#[trigger] out@[i]).1.used
                    >= (#[trigger] out@[j]).1.used,
            forall|i: int, j: int|
                0 <= i < out@.len() && 0 <= j < rest@.len() ==> (#[trigger] out@[i]).1.used
                    >= (#[trigger] rest@[j]).1.used,
        decreases rest@.len(),
    {
        let mut best: usize = 0;
        let mut m: usize = 1;
        while m < rest.len()
            invariant
                0 < rest@.len(),
                best < rest@.len(),
                m <= rest@.len(),
                forall|t: int| 0 <= t < m ==> (#[trigger] rest@[t]).1.used <= rest@[best as int].1.used,
            decreases rest@.len() - m,
        {
            if rest[m].1.used > rest[best].1.used {
                best = m;
            }
            m = m + 1;
        }
        let ghost old_rest = rest@;
        let ghost old_out = out@;
        let item = rest.remove(best);
        out.push(item);
        proof {
            broadcast use vstd::seq_lib::group_to_multiset_ensures;

            assert(rest@ == old_rest.remove(best as int));
            assert(rest@.to_multiset() =~= old_rest.to_multiset().remove(item));
            assert(out@.to_multiset() =~= old_out.to_multiset().insert(item));
            assert(old_rest.to_multiset().count(item) > 0);
            assert(out@.to_multiset().add(rest@.to_multiset()) =~= old_out.to_multiset().add(
                old_rest.to_multiset(),
            ));
            assert(gene_views(rest@) =~= gene_views(old_rest).remove(best as int));
            assert(gene_views(old_rest)[best as int] == item.0@);
            assert(gene_views(rest@).to_multiset() =~= gene_views(old_rest).to_multiset().remove(
                item.0@,
            ));
            assert(gene_views(out@) =~= gene_views(old_out).push(item.0@));
            assert(gene_views(out@).to_multiset() =~= gene_views(old_out).to_multiset().insert(
                item.0@,
            ));
            assert(gene_views(old_rest).to_multiset().count(item.0@) > 0);
            assert(gene_views(out@).to_multiset().add(gene_views(rest@).to_multiset())
                =~= gene_views(old_out).to_multiset().add(gene_views(old_rest).to_multiset()));
            assert forall|j: int| 0 <= j < rest@.len() implies item.1.used
                >= (#[trigger] rest@[j]).1.used by {
                if j < best {
                    assert(rest@[j] == old_rest[j]);
                } else {
                    assert(rest@[j] == old_rest[j + 1]);
                }
            }
        }
    }
    proof {
        broadcast use vstd::seq_lib::group_to_multiset_ensures;

        assert forall|i: int| 0 <= i < out@.len() implies scored@.contains(#[trigger] out@[i]) by {
            assert(out@.contains(out@[i]));
            assert(out@.to_multiset().count(out@[i]) > 0);
            assert(scored@.to_multiset().count(out@[i]) > 0);
        }
    }
    out
}

/// `c` carries the same genes as some member of the population.
pub open spec fn chromosome_of(population: Seq<Vec<u8>>, c: Vec<u8>) -> bool {
    exists|j: int| 0 <= j < population.len() && c@ == (#[trigger] population[j])@
}

/// The top fitness of a population: the best value any of its encodings
/// decodes to (zero for an empty population).
pub open spec fn max_fitness(population: Seq<Vec<u8>>, p: Problem) -> int
    decreases population.len(),
{
    if population.len() == 0 {
        0
    } else {
        let rest = max_fitness(population.drop_last(), p);
        let last = spec_fitness(population.last()@, p);
        if last > rest {
            last
        } else {
            rest
        }
    }
}

/// No encoding of the population beats the population's top fitness.
pub proof fn lemma_max_fitness_ge(population: Seq<Vec<u8>>, p: Problem, j: int)
    requires
        0 <= j < population.len(),
    ensures
        spec_fitness(population[j]@, p) <= max_fitness(population, p),
    decreases population.len(),
{
    if j < population.len() - 1 {
        lemma_max_fitness_ge(population.drop_last(), p, j);
    }
}

/// Some encoding of a non-empty population of a valid problem attains the
/// top fitness.
pub proof fn lemma_max_fitness_achieved(population: Seq<Vec<u8>>, p: Problem)
    requires
        0 < population.len(),
        p.valid(),
    ensures
        exists|j: int|
            0 <= j < population.len() && spec_fitness((#[trigger] population[j])@, p)
                == max_fitness(population, p),
    decreases population.len(),
{
    let last = spec_fitness(population.last()@, p);
    if population.len() == 1 {
        lemma_fitness_in_range(population.last()@, p);
        assert(max_fitness(population.drop_last(), p) == 0);
        assert(spec_fitness(population[0]@, p) == max_fitness(population, p));
    } else if last > max_fitness(population.drop_last(), p) {
        assert(spec_fitness(population[population.len() - 1]@, p) == max_fitness(population, p));
    } else {
        lemma_max_fitness_achieved(population.drop_last(), p);
        let j = choose|j: int|
            0 <= j < population.drop_last().len() && spec_fitness(
                (#[trigger] population.drop_last()[j])@,
                p,
            ) == max_fitness(population.drop_last(), p);
        assert(spec_fitness(population[j]@, p) == max_fitness(population, p));
    }
}

/// Rank the population: decode and score every individual independently
/// (in parallel), then sort by descending fitness. Every returned entry
/// carries the exact fitness of its own chromosome, and the entries are a
/// permutation of the scored population.
pub fn rank_chromosomes(population: &Vec<Vec<u8>>, problem: &Problem) -> (ranked: Vec<
    (Vec<u8>, Fitness),
>)
    requires
        problem.valid(),
    ensures
        ranked@.len() == population@.len(),
        forall|i: int|
            0 <= i < ranked@.len() ==> {
                &&& (#[trigger] ranked@[i]).1.used as int == spec_fitness(
                    ranked@[i].0@,
                    *problem,
                )
                &&& ranked@[i].1.total as int == problem.spec_bin_area()
                &&& ranked@[i].1.valid()
            },
        forall|i: int, j: int|
            0 <= i <= j < ranked@.len() ==> (#[trigger] ranked@[i]).1.used
                >= (#[trigger] ranked@[j]).1.used,
        forall|i: int|
            0 <= i < ranked@.len() ==> chromosome_of(population@, (#[trigger] ranked@[i]).0),
        gene_views(ranked@).to_multiset() == chromosome_views(population@).to_multiset(),
        ranked@.len() > 0 ==> ranked@[0].1.used as int == max_fitness(population@, *problem),
{
    let scored = decode_population_parallel(population, problem);
    let ranked = sort_by_fitness_desc(scored);
    proof {
        assert(gene_views(scored@) =~= chromosome_views(population@));
        assert forall|i: int| 0 <= i < ranked@.len() implies {
            &&& (#[trigger] ranked@[i]).1.used as int == spec_fitness(ranked@[i].0@, *problem)
            &&& ranked@[i].1.total as int == problem.spec_bin_area()
            &&& ranked@[i].1.valid()
            &&& chromosome_of(population@, ranked@[i].0)
        } by {
            assert(scored@.contains(ranked@[i]));
            let j = choose|j: int| 0 <= j < scored@.len() && scored@[j] == ranked@[i];
            assert(scored@[j].0@ == population@[j]@);
            assert(scored@[j].1.used as int == spec_fitness(population@[j]@, *problem));
            assert(ranked@[i].0@ == population@[j]@);
        }
        if ranked@.len() > 0 {
            broadcast use vstd::seq_lib::group_to_multiset_ensures;

            // The top entry scores no higher than the population's best...
            assert(chromosome_of(population@, ranked@[0].0));
            let j0 = choose|j: int|
                0 <= j < population@.len() && ranked@[0].0@ == (#[trigger] population@[j])@;
            lemma_max_fitness_ge(population@, *problem, j0);
            // ... and no lower: the best-scoring member appears somewhere in
            // the ranking, and the ranking is sorted.
            lemma_max_fitness_achieved(population@, *problem);
            let jm = choose|j: int|
                0 <= j < population@.len() && spec_fitness(
                    (#[trigger] population@[j])@,
                    *problem,
                ) == max_fitness(population@, *problem);
            assert(chromosome_views(population@)[jm] == population@[jm]@);
            assert(chromosome_views(population@).contains(population@[jm]@));
            assert(chromosome_views(population@).to_multiset().count(population@[jm]@) > 0);
            assert(gene_views(ranked@).to_multiset().count(population@[jm]@) > 0);
            assert(gene_views(ranked@).contains(population@[jm]@));
            let im = choose|i: int|
                0 <= i < gene_views(ranked@).len() && gene_views(ranked@)[i] == population@[jm]@;
            assert(ranked@[im].0@ == population@[jm]@);
            assert(ranked@[im].1.used as int == max_fitness(population@, *problem));
            assert(ranked@[0].1.used >= ranked@[im].1.used);
        }
    }
    ranked
}

/// The recorded best-ever score after `n` generations whose top scores are
/// `scores`, under the strict-improvement update rule: a generation's top
/// score replaces the record only when it strictly exceeds it.
pub open spec fn running_best(scores: Seq<int>, n: int) -> int
    decreases n,
{
    if n <= 0 {
        0
    } else {
        let prev = running_best(scores, n - 1);
        if scores[n - 1] > prev {
            scores[n - 1]
        } else {
            prev
        }
    }
}

/// Monotone best-tracking: across any run, the sequence of recorded
/// best-ever values never decreases from one generation to a later one.
pub proof fn lemma_running_best_monotone(scores: Seq<int>, m: int, n: int)
    requires
        0 <= m <= n,
    ensures
        running_best(scores, m) <= running_best(scores, n),
    decreases n - m,
{
    if m < n {
        lemma_running_best_monotone(scores, m, n - 1);
    }
}

/// One generation of the evolution loop: rank the population, update the
/// running best (strict improvement only, so the first encoding to reach a
/// fitness is kept), then select, cross over, mutate, and assemble the
/// next generation with elitism. The recorded best-ever fitness never
/// decreases, and whenever it moves it is the exact fitness of the
/// recorded chromosome.
pub fn evolve_generation(
    problem: &Problem,
    population: &Vec<Vec<u8>>,
    best_chromosome: &mut Vec<u8>,
    best_fitness: &mut Fitness,
    mutation_rate: Ratio,
    elitism_rate: Ratio,
    rng: &mut rand::rngs::StdRng,
) -> (next: Vec<Vec<u8>>)
    requires
        problem.valid(),
        0 < population@.len() <= u32::MAX as usize,
        forall|i: int|
            0 <= i < population@.len() ==> (#[trigger] population@[i])@.len()
                == population@[0]@.len(),
        0 < population@[0]@.len(),
        mutation_rate.valid(),
        elitism_rate.valid(),
        population@.len() - spec_elite_count(population@.len() as int, elitism_rate) <= 2 * (
        population@.len() as int / 2),
    ensures
        next@.len() == population@.len(),
        forall|i: int|
            0 <= i < next@.len() ==> (#[trigger] next@[i])@.len() == population@[0]@.len(),
        final(best_fitness).used >= old(best_fitness).used,
        final(best_fitness).used as int == (if max_fitness(population@, *problem) > old(
            best_fitness,
        ).used as int {
            max_fitness(population@, *problem)
        } else {
            old(best_fitness).used as int
        }),
        max_fitness(population@, *problem) > old(best_fitness).used ==> {
            &&& final(best_fitness).valid()
            &&& final(best_fitness).total as int == problem.spec_bin_area()
            &&& final(best_fitness).used as int == spec_fitness(final(best_chromosome)@, *problem)
        },
        max_fitness(population@, *problem) <= old(best_fitness).used ==> *final(best_fitness)
            == *old(best_fitness) && final(best_chromosome)@ == old(best_chromosome)@,
        max_fitness(population@, *problem) > old(best_fitness).used ==> final(best_chromosome)@.len()
            == population@[0]@.len(),
        (forall|i: int| 0 <= i < population@.len() ==> is_binary((#[trigger] population@[i])@))
            ==> {
            &&& forall|i: int| 0 <= i < next@.len() ==> is_binary((#[trigger] next@[i])@)
            &&& (is_binary(old(best_chromosome)@) ==> is_binary(final(best_chromosome)@))
        },
{
    let ghost gene_len = population@[0]@.len();
    let ps = population.len();
    let ranked = rank_chromosomes(population, problem);

    if ranked[0].1.used > best_fitness.used {
        *best_fitness = ranked[0].1;
        *best_chromosome = clone_genes(&ranked[0].0);
    }

    let mut parents: Vec<Vec<u8>> = Vec::new();
    let mut i: usize = 0;
    while i < ranked.len()
        invariant
            ranked@.len() == ps,
            i <= ps,
            parents@.len() == i,
            forall|m: int| 0 <= m < i ==> (#[trigger] parents@[m])@ == ranked@[m].0@,
        decreases ranked@.len() - i,
    {
        let c = clone_genes(&ranked[i].0);
        parents.push(c);
        i = i + 1;
    }
    proof {
        assert forall|m: int| 0 <= m < parents@.len() implies (#[trigger] parents@[m])@.len()
            == gene_len by {
            assert(chromosome_of(population@, ranked@[m].0));
            let j = choose|j: int|
                0 <= j < population@.len() && ranked@[m].0@ == (#[trigger] population@[j])@;
            assert(population@[j]@.len() == gene_len);
        }
    }

    let pairs = roulette_selection(&parents, rng);
    proof {
        assert forall|k: int| 0 <= k < pairs@.len() implies 0 < (#[trigger] pairs@[k]).0@.len()
            && pairs@[k].0@.len() == pairs@[k].1@.len() by {
            assert(pair_from(parents@, pairs@[k]));
            let (wi, wj) = choose|wi: int, wj: int|
                {
                    &&& 0 <= wi < parents@.len()
                    &&& 0 <= wj < parents@.len()
                    &&& wi != wj
                    &&& pairs@[k].0@ == parents@[wi]@
                    &&& pairs@[k].1@ == parents@[wj]@
                };
            assert(parents@[wi]@.len() == gene_len);
            assert(parents@[wj]@.len() == gene_len);
        }
    }

    let children = two_point_crossover(&pairs, rng);
    proof {
        assert forall|k: int| 0 <= k < children@.len() implies (#[trigger] children@[k])@.len()
            == gene_len by {
            assert(children@[k]@.len() == pairs@[k / 2].0@.len());
        }
    }

    let mutated_children = mutation(&children, mutation_rate, rng);
    proof {
        lemma_elite_count_le(ps as int, elitism_rate);
        assert forall|k: int| 0 <= k < mutated_children@.len() implies (
        #[trigger] mutated_children@[k])@.len() == gene_len by {
            assert(mutated_from(children@[k]@, mutated_children@[k]@));
        }
    }

    let next = elitism(&parents, &mutated_children, elitism_rate, ps);
    proof {
        let elite = spec_elite_count(ps as int, elitism_rate);
        assert forall|k: int| 0 <= k < next@.len() implies (#[trigger] next@[k])@.len()
            == gene_len by {
            if k < elite {
                assert(next@[k]@ == parents@[k]@);
            } else {
                assert(next@[k]@ == mutated_children@[k - elite]@);
            }
        }
        // When the record moved, it moved to a member of the population,
        // so it has the population's gene count.
        if max_fitness(population@, *problem) > old(best_fitness).used {
            assert(best_chromosome@ == ranked@[0].0@);
            assert(chromosome_of(population@, ranked@[0].0));
            let j = choose|j: int|
                0 <= j < population@.len() && ranked@[0].0@ == (#[trigger] population@[j])@;
            assert(population@[j]@.len() == gene_len);
        }
        // A binary population stays binary through selection, crossover,
        // mutation and elitism, and so does the recorded chromosome.
        if forall|i: int| 0 <= i < population@.len() ==> is_binary((#[trigger] population@[i])@) {
            assert forall|m: int| 0 <= m < ranked@.len() implies is_binary(ranked@[m].0@) by {
                assert(chromosome_of(population@, ranked@[m].0));
                let j = choose|j: int|
                    0 <= j < population@.len() && ranked@[m].0@ == (#[trigger] population@[j])@;
                assert(is_binary(population@[j]@));
            }
            assert forall|m: int| 0 <= m < parents@.len() implies is_binary(
                (#[trigger] parents@[m])@,
            ) by {
                assert(parents@[m]@ == ranked@[m].0@);
            }
            assert forall|k: int| 0 <= k < children@.len() implies is_binary(
                (#[trigger] children@[k])@,
            ) by {
                let m = k / 2;
                assert(k == 2 * m || k == 2 * m + 1);
                assert(crossed_pair(pairs@[m], children@[2 * m], children@[2 * m + 1]));
                let (s, e) = choose|s: int, e: int|
                    {
                        &&& 0 <= s <= e <= pairs@[m].0@.len()
                        &&& children@[2 * m]@ == spec_cross(pairs@[m].0@, pairs@[m].1@, s, e)
                        &&& children@[2 * m + 1]@ == spec_cross(pairs@[m].1@, pairs@[m].0@, s, e)
                    };
                assert(pair_from(parents@, pairs@[m]));
                let (wi, wj) = choose|wi: int, wj: int|
                    {
                        &&& 0 <= wi < parents@.len()
                        &&& 0 <= wj < parents@.len()
                        &&& wi != wj
                        &&& pairs@[m].0@ == parents@[wi]@
                        &&& pairs@[m].1@ == parents@[wj]@
                    };
                lemma_cross_binary(pairs@[m].0@, pairs@[m].1@, s, e);
                lemma_cross_binary(pairs@[m].1@, pairs@[m].0@, s, e);
            }
            assert forall|k: int| 0 <= k < mutated_children@.len() implies is_binary(
                (#[trigger] mutated_children@[k])@,
            ) by {
                assert(mutated_from(children@[k]@, mutated_children@[k]@));
                assert(is_binary(children@[k]@));
                assert forall|j: int| 0 <= j < mutated_children@[k]@.len() implies
                    mutated_children@[k]@[j] == 0 || mutated_children@[k]@[j] == 1 by {
                    assert(mutated_children@[k]@[j] == children@[k]@[j] || mutated_children@[k]@[j]
                        == flip_gene(children@[k]@[j]));
                }
            }
            assert forall|k: int| 0 <= k < next@.len() implies is_binary(
                (#[trigger] next@[k])@,
            ) by {
                if k < elite {
                    assert(next@[k]@ == parents@[k]@);
                } else {
                    assert(next@[k]@ == mutated_children@[k - elite]@);
                }
            }
            if is_binary(old(best_chromosome)@) {
                assert(is_binary(best_chromosome@));
            }
        }
    }
    next
}

/// Run the whole genetic search: build the initial population, then for a
/// fixed number of generations rank, select, recombine, mutate and apply
/// elitism, tracking the best (encoding, fitness) ever ranked. Returns
/// that best pair: a fitness in [0, 1] over the bin area, the exact score
/// of the returned encoding whenever anything was ever placed, and the
/// empty encoding with fitness zero otherwise.
///
/// Misconfiguration is rejected up front rather than truncated silently:
/// the preconditions demand rates that are fractions in [0, 1] and a
/// population that selection plus elitism can refill — crossover yields two
/// children per pair, so an even population always qualifies, and an odd
/// one needs an elite count that covers the one unpaired slot.
#[verifier::loop_isolation(false)]
pub fn genetic_algorithm(
    problem: &Problem,
    population_size: usize,
    mutation_rate: Ratio,
    elitism_rate: Ratio,
    max_iterations: usize,
    rng: &mut rand::rngs::StdRng,
) -> (r: (Vec<u8>, Fitness))
    requires
        problem.valid(),
        0 < problem.rectangles@.len(),
        0 < population_size <= u32::MAX as usize,
        mutation_rate.valid(),
        elitism_rate.valid(),
        population_size - spec_elite_count(population_size as int, elitism_rate) <= 2 * (
        population_size as int / 2),
    ensures
        r.1.valid(),
        r.1.total as int == problem.spec_bin_area(),
        r.1.used > 0 ==> r.1.used as int == spec_fitness(r.0@, *problem),
        r.1.used > 0 ==> r.0@.len() == problem.rectangles@.len(),
        r.1.used == 0 ==> r.0@.len() == 0,
        is_binary(r.0@),
        max_iterations == 0 ==> r.1.used == 0,
        max_iterations > 0 && problem.rectangles@.len() < 10 ==> r.1.used as int >= spec_fitness(
            ones(problem.rectangles@.len() as int),
            *problem,
        ),
{
    let ghost item_count = problem.rectangles@.len() as int;
    let mut population = generate_initial_chromosomes(
        problem.rectangles.len(),
        population_size,
        rng,
    );

    let mut best_chromosome: Vec<u8> = Vec::new();
    let total_area = problem.bin_width * problem.bin_height;
    proof {
        assert(0 < problem.bin_width * problem.bin_height) by (nonlinear_arith)
            requires
                0 < problem.bin_width,
                0 < problem.bin_height,
        ;
    }
    let mut best_fitness = Fitness { used: 0, total: total_area };

    let mut iteration: usize = 0;
    while iteration < max_iterations
        invariant
            iteration <= max_iterations,
            population@.len() == population_size,
            forall|i: int|
                0 <= i < population@.len() ==> (#[trigger] population@[i])@.len()
                    == problem.rectangles@.len(),
            forall|i: int| 0 <= i < population@.len() ==> is_binary((#[trigger] population@[i])@),
            best_fitness.valid(),
            best_fitness.total as int == problem.spec_bin_area(),
            best_fitness.used > 0 ==> best_fitness.used as int == spec_fitness(
                best_chromosome@,
                *problem,
            ),
            best_fitness.used > 0 ==> best_chromosome@.len() == problem.rectangles@.len(),
            best_fitness.used == 0 ==> best_chromosome@.len() == 0,
            is_binary(best_chromosome@),
            iteration == 0 ==> best_fitness.used == 0,
            item_count < 10 && iteration == 0 ==> forall|i: int|
                0 <= i < population@.len() ==> (#[trigger] population@[i])@ == ones(item_count),
            item_count < 10 && iteration >= 1 ==> best_fitness.used as int >= spec_fitness(
                ones(item_count),
                *problem,
            ),
        decreases max_iterations - iteration,
    {
        let ghost parent_population = population@;
        let next = evolve_generation(
            problem,
            &population,
            &mut best_chromosome,
            &mut best_fitness,
            mutation_rate,
            elitism_rate,
            rng,
        );
        proof {
            // In the first generation of a small instance every parent is
            // the all-ones encoding, so the recorded best reaches at least
            // its fitness and keeps it from then on.
            if item_count < 10 && iteration == 0 {
                lemma_max_fitness_ge(parent_population, *problem, 0);
                assert(parent_population[0]@ == ones(item_count));
            }
        }
        population = next;
        iteration = iteration + 1;
    }

    (best_chromosome, best_fitness)
}

} // verus!
