use vstd::prelude::*;

use crate::genome::Genome;

verus! {

/// The random offset of a sampling pass is `off / OFFSET_SCALE`, in `[0, 1)`.
pub const OFFSET_SCALE: u64 = 4_294_967_296;

/// Largest population, and largest selection, handled.
pub const MAX_POPULATION: usize = 1_048_576;

/// Largest total weight handled.
pub const MAX_TOTAL_WEIGHT: u128 = 18_446_744_073_709_551_616;

/// Sum of the first `i` weights.
pub open spec fn cum(w: Seq<u128>, i: int) -> int
    decreases i,
{
    if i <= 0 {
        0
    } else {
        cum(w, i - 1) + w[i - 1]
    }
}

/// How many pointers `off / S + idx` (for `idx = 0, 1, ...`) lie below the
/// cumulative expectation `count * c / total`.
pub open spec fn picks(count: int, total: int, off: int, c: int) -> int {
    let d = OFFSET_SCALE * total;
    let n = count * c * OFFSET_SCALE - off * total;
    if n <= 0 {
        0
    } else {
        (n + d - 1) / d
    }
}

/// Stochastic universal sampling over the first `i` weights: index `r`
/// appears once for each pointer that falls in its share.
pub open spec fn sus_prefix(w: Seq<u128>, count: int, off: int, i: int) -> Seq<usize>
    decreases i,
{
    if i <= 0 {
        seq![]
    } else {
        let total = cum(w, w.len() as int);
        let k = picks(count, total, off, cum(w, i)) - picks(count, total, off, cum(w, i - 1));
        sus_prefix(w, count, off, i - 1) + Seq::new(k as nat, |x: int| (i - 1) as usize)
    }
}

/// The whole sampling pass.
pub open spec fn sus(w: Seq<u128>, count: int, off: int) -> Seq<usize> {
    sus_prefix(w, count, off, w.len() as int)
}

/// How many times index `i` is picked.
pub open spec fn share(w: Seq<u128>, count: int, off: int, i: int) -> int {
    let total = cum(w, w.len() as int);
    picks(count, total, off, cum(w, i + 1)) - picks(count, total, off, cum(w, i))
}

/// The weights of rank-based selection: rank `i` of `len` weighs `len - i`.
pub open spec fn rank_weights(len: int) -> Seq<u128> {
    Seq::new(len as nat, |i: int| (len - i) as u128)
}

proof fn lemma_cum_mono(w: Seq<u128>, i: int, j: int)
    requires
        0 <= i <= j,
    ensures
        0 <= cum(w, i) <= cum(w, j),
    decreases j - i,
{
    if i < j {
        lemma_cum_mono(w, i, j - 1);
    }
    lemma_cum_nonneg(w, i);
}

proof fn lemma_cum_nonneg(w: Seq<u128>, i: int)
    ensures
        0 <= cum(w, i),
    decreases i,
{
    if i > 0 {
        lemma_cum_nonneg(w, i - 1);
    }
}

/// Every index picked from the first `i` weights is below `i`.
proof fn lemma_sus_prefix_ranks(w: Seq<u128>, count: int, off: int, i: int)
    requires
        0 <= i,
    ensures
        forall|k: int| 0 <= k < sus_prefix(w, count, off, i).len() ==> #[trigger] sus_prefix(w, count, off, i)[k] < i,
    decreases i,
{
    if i > 0 {
        lemma_sus_prefix_ranks(w, count, off, i - 1);
        let a = sus_prefix(w, count, off, i - 1);
        let total = cum(w, w.len() as int);
        let kk = picks(count, total, off, cum(w, i)) - picks(count, total, off, cum(w, i - 1));
        let b = Seq::new(kk as nat, |x: int| (i - 1) as usize);
        assert forall|k: int| 0 <= k < sus_prefix(w, count, off, i).len() implies #[trigger] sus_prefix(w, count, off, i)[k] < i by {
            if k < a.len() {
                assert(sus_prefix(w, count, off, i)[k] == a[k]);
            } else {
                assert(sus_prefix(w, count, off, i)[k] == b[k - a.len()]);
            }
        }
    }
}

/// A pointer lies below the cumulative expectation exactly when it is one of
/// the first `picks` pointers.
proof fn lemma_picks(count: int, total: int, off: int, c: int, idx: int)
    requires
        total > 0,
        0 <= off < OFFSET_SCALE,
        0 <= idx,
        0 <= count,
        0 <= c,
    ensures
        ((off + idx * OFFSET_SCALE) * total < count * c * OFFSET_SCALE) <==> idx < picks(
            count,
            total,
            off,
            c,
        ),
        picks(count, total, off, c) >= 0,
{
    let d = OFFSET_SCALE * total;
    let n = count * c * OFFSET_SCALE - off * total;
    assert((off + idx * OFFSET_SCALE) * total == off * total + idx * d) by (nonlinear_arith)
        requires
            d == OFFSET_SCALE * total,
    ;
    if n > 0 {
        let p = (n + d - 1) / d;
        assert(p * d <= n + d - 1 && n + d - 1 < p * d + d) by (nonlinear_arith)
            requires
                d > 0,
                n > 0,
                p == (n + d - 1) / d,
        ;
        if idx < p {
            assert(idx * d < n) by (nonlinear_arith)
                requires
                    idx <= p - 1,
                    d > 0,
                    p * d <= n + d - 1,
            ;
        } else {
            assert(idx * d >= n) by (nonlinear_arith)
                requires
                    idx >= p,
                    d > 0,
                    n + d - 1 < p * d + d,
            ;
        }
        assert(p >= 0) by (nonlinear_arith)
            requires
                d > 0,
                n > 0,
                p == (n + d - 1) / d,
        ;
    } else {
        assert(idx * d >= 0) by (nonlinear_arith)
            requires
                idx >= 0,
                d > 0,
        ;
    }
}

proof fn lemma_picks_mono(count: int, total: int, off: int, c1: int, c2: int)
    requires
        total > 0,
        0 <= off < OFFSET_SCALE,
        0 <= count,
        0 <= c1 <= c2,
    ensures
        picks(count, total, off, c1) <= picks(count, total, off, c2),
{
    let lower = picks(count, total, off, c1);
    lemma_picks(count, total, off, c1, 0);
    if lower > 0 {
        lemma_picks(count, total, off, c1, lower - 1);
        lemma_picks(count, total, off, c2, lower - 1);
        assert(count * c1 * OFFSET_SCALE <= count * c2 * OFFSET_SCALE) by (nonlinear_arith)
            requires
                0 <= count,
                c1 <= c2,
        ;
    }
}

proof fn lemma_sus_prefix_len(w: Seq<u128>, count: int, off: int, i: int)
    requires
        cum(w, w.len() as int) > 0,
        0 <= off < OFFSET_SCALE,
        0 <= count,
        0 <= i <= w.len(),
    ensures
        sus_prefix(w, count, off, i).len() == picks(count, cum(w, w.len() as int), off, cum(w, i)),
    decreases i,
{
    let total = cum(w, w.len() as int);
    if i == 0 {
        lemma_picks(count, total, off, 0, 0);
    } else {
        lemma_sus_prefix_len(w, count, off, i - 1);
        lemma_cum_mono(w, i - 1, i);
        lemma_picks_mono(count, total, off, cum(w, i - 1), cum(w, i));
    }
}

/// A sampling pass picks exactly `count` indices.
pub proof fn lemma_sus_len(w: Seq<u128>, count: int, off: int)
    requires
        cum(w, w.len() as int) > 0,
        0 <= off < OFFSET_SCALE,
        0 <= count,
    ensures
        sus(w, count, off).len() == count,
{
    let total = cum(w, w.len() as int);
    lemma_sus_prefix_len(w, count, off, w.len() as int);
    lemma_picks(count, total, off, total, count);
    if count > 0 {
        lemma_picks(count, total, off, total, count - 1);
        assert((off + (count - 1) * OFFSET_SCALE) * total < count * total * OFFSET_SCALE) by (nonlinear_arith)
            requires
                total > 0,
                0 <= off < OFFSET_SCALE,
        ;
    }
    assert((off + count * OFFSET_SCALE) * total >= count * total * OFFSET_SCALE) by (nonlinear_arith)
        requires
            total > 0,
            0 <= off,
    ;
}

/// Low-variance sampling: index `i` is picked within one of its expected
/// count `count * w[i] / total`, that is, `floor` or `ceil` of it.
pub proof fn lemma_sus_fair(w: Seq<u128>, count: int, off: int, i: int)
    requires
        cum(w, w.len() as int) > 0,
        0 <= off < OFFSET_SCALE,
        0 <= count,
        0 <= i < w.len(),
    ensures
        share(w, count, off, i) * cum(w, w.len() as int) > count * w[i] - cum(w, w.len() as int),
        share(w, count, off, i) * cum(w, w.len() as int) < count * w[i] + cum(w, w.len() as int),
{
    let total = cum(w, w.len() as int);
    let c1 = cum(w, i);
    let c2 = cum(w, i + 1);
    lemma_cum_nonneg(w, i);
    let lower = picks(count, total, off, c1);
    let upper = picks(count, total, off, c2);
    let d = OFFSET_SCALE * total;
    let s = OFFSET_SCALE as int;
    // p * d lies in [n, n + d) for n = count * c * S - off * total, when n > -d
    lemma_picks_bounds(count, total, off, c1);
    lemma_picks_bounds(count, total, off, c2);
    assert(c2 == c1 + w[i]);
    assert((upper - lower) * d > count * w[i] * s - d && (upper - lower) * d < count * w[i] * s + d) by (nonlinear_arith)
        requires
            lower * d >= count * c1 * s - off * total,
            lower * d < count * c1 * s - off * total + d,
            upper * d >= count * c2 * s - off * total,
            upper * d < count * c2 * s - off * total + d,
            c2 == c1 + w[i],
    ;
    assert((upper - lower) * total > count * w[i] - total && (upper - lower) * total < count * w[i] + total) by (nonlinear_arith)
        requires
            (upper - lower) * d > count * w[i] * s - d,
            (upper - lower) * d < count * w[i] * s + d,
            d == s * total,
            s > 0,
    ;
}

proof fn lemma_picks_bounds(count: int, total: int, off: int, c: int)
    requires
        total > 0,
        0 <= off < OFFSET_SCALE,
        0 <= count,
        0 <= c,
    ensures
        picks(count, total, off, c) * (OFFSET_SCALE * total) >= count * c * OFFSET_SCALE - off * total,
        picks(count, total, off, c) * (OFFSET_SCALE * total) < count * c * OFFSET_SCALE - off * total
            + OFFSET_SCALE * total,
{
    let d = OFFSET_SCALE * total;
    let n = count * c * OFFSET_SCALE - off * total;
    let p = picks(count, total, off, c);
    if n > 0 {
        assert(p * d <= n + d - 1 && n + d - 1 < p * d + d) by (nonlinear_arith)
            requires
                d > 0,
                n > 0,
                p == (n + d - 1) / d,
        ;
    } else {
        assert(count * c * OFFSET_SCALE >= 0) by (nonlinear_arith)
            requires
                count >= 0,
                c >= 0,
        ;
        assert(off * total < d) by (nonlinear_arith)
            requires
                off < OFFSET_SCALE,
                total > 0,
                d == OFFSET_SCALE * total,
        ;
    }
}

/// Whether pointer `off / OFFSET_SCALE + idx` lies below the cumulative
/// expectation `count * c / total`.
fn pointer_below(off: u64, idx: usize, total: u128, count: usize, c: u128) -> (r: bool)
    requires
        off < OFFSET_SCALE,
        idx <= MAX_POPULATION,
        count <= MAX_POPULATION,
        0 < total <= MAX_TOTAL_WEIGHT,
        c <= total,
    ensures
        r == ((off + idx * OFFSET_SCALE) * total < count * c * OFFSET_SCALE),
{
    assert(idx * OFFSET_SCALE <= 0x10_0000_0000_0000) by (nonlinear_arith)
        requires
            idx <= MAX_POPULATION,
    ;
    let ghost a = off + idx * OFFSET_SCALE;
    assert(a * total <= 0x20_0000_0000_0000 * 0x1_0000_0000_0000_0000) by (nonlinear_arith)
        requires
            0 <= a <= 0x20_0000_0000_0000,
            0 <= total <= MAX_TOTAL_WEIGHT,
    ;
    assert(count * c <= 0x10_0000 * 0x1_0000_0000_0000_0000) by (nonlinear_arith)
        requires
            count <= MAX_POPULATION,
            0 <= c <= MAX_TOTAL_WEIGHT,
    ;
    let ghost b = count * c;
    assert(b * OFFSET_SCALE <= 0x10_0000 * 0x1_0000_0000_0000_0000 * 0x1_0000_0000) by (nonlinear_arith)
        requires
            0 <= b <= 0x10_0000 * 0x1_0000_0000_0000_0000,
    ;
    (off as u128 + idx as u128 * OFFSET_SCALE as u128) * total < count as u128 * c * OFFSET_SCALE as u128
}

/// Stochastic universal sampling with the offset `off / OFFSET_SCALE`:
/// walks the weights, accumulating each index's expected count, and picks
/// an index once for each pointer `off / OFFSET_SCALE + idx` its running
/// total passes.
#[verifier::spinoff_prover]
pub fn sus_from_offset(weights: &Vec<u128>, count: usize, off: u64) -> (r: Vec<usize>)
    requires
        cum(weights@, weights@.len() as int) > 0,
        cum(weights@, weights@.len() as int) <= MAX_TOTAL_WEIGHT,
        count <= MAX_POPULATION,
        off < OFFSET_SCALE,
    ensures
        r@ == sus(weights@, count as int, off as int),
        r@.len() == count,
{
    let ghost w = weights@;
    let ghost total = cum(w, w.len() as int);
    let mut sum: u128 = 0;
    let mut i: usize = 0;
    while i < weights.len()
        invariant
            w == weights@,
            i <= w.len(),
            sum == cum(w, i as int),
            total == cum(w, w.len() as int),
            total <= MAX_TOTAL_WEIGHT,
        decreases w.len() - i,
    {
        proof {
            lemma_cum_mono(w, i + 1, w.len() as int);
        }
        sum = sum + weights[i];
        i = i + 1;
    }
    let total_exec = sum;
    let mut selection: Vec<usize> = Vec::with_capacity(count);
    let mut cumulative: u128 = 0;
    let mut idx: usize = 0;
    let mut rank: usize = 0;
    while rank < weights.len()
        invariant
            w == weights@,
            total == cum(w, w.len() as int),
            total_exec == total,
            0 < total <= MAX_TOTAL_WEIGHT,
            count <= MAX_POPULATION,
            off < OFFSET_SCALE,
            rank <= w.len(),
            cumulative == cum(w, rank as int),
            selection@ == sus_prefix(w, count as int, off as int, rank as int),
            idx == selection@.len(),
            idx == picks(count as int, total, off as int, cumulative as int),
        decreases w.len() - rank,
    {
        proof {
            lemma_cum_mono(w, rank + 1, w.len() as int);
            lemma_cum_mono(w, rank as int, rank + 1);
            lemma_picks_mono(count as int, total, off as int, cum(w, rank as int), cum(w, rank + 1));
        }
        cumulative = cumulative + weights[rank];
        let ghost base = selection@;
        let ghost lower = picks(count as int, total, off as int, cumulative as int);
        proof {
            lemma_picks(count as int, total, off as int, cumulative as int, count as int);
            assert((off + count * OFFSET_SCALE) * total >= count * cumulative * OFFSET_SCALE) by (nonlinear_arith)
                requires
                    cumulative <= total,
                    0 <= off,
                    0 <= count,
            ;
        }
        while pointer_below(off, idx, total_exec, count, cumulative)
            invariant
                total_exec == total,
                0 < total <= MAX_TOTAL_WEIGHT,
                count <= MAX_POPULATION,
                off < OFFSET_SCALE,
                cumulative <= total,
                lower == picks(count as int, total, off as int, cumulative as int),
                lower <= count,
                base.len() <= idx <= lower,
                selection@.len() == idx,
                selection@ == base + Seq::new((idx - base.len()) as nat, |x: int| rank as usize),
            decreases lower - idx,
        {
            proof {
                lemma_picks(count as int, total, off as int, cumulative as int, idx as int);
            }
            selection.push(rank);
            proof {
                assert(selection@ =~= base + Seq::new((idx + 1 - base.len()) as nat, |x: int| rank as usize));
            }
            idx = idx + 1;
            proof {
                assert(idx <= count);
            }
        }
        proof {
            lemma_picks(count as int, total, off as int, cumulative as int, idx as int);
            assert(sus_prefix(w, count as int, off as int, rank + 1) == base + Seq::new(
                (lower - base.len()) as nat,
                |x: int| rank as usize,
            ));
        }
        rank = rank + 1;
    }
    proof {
        lemma_sus_len(w, count as int, off as int);
    }
    selection
}

/// The weights of rank-based selection for a population of `len`: the best
/// weighs `len`, the next `len - 1`, and so on.
pub fn rank_weight_vec(len: usize) -> (r: Vec<u128>)
    ensures
        r@ == rank_weights(len as int),
{
    let mut v: Vec<u128> = Vec::with_capacity(len);
    let mut i: usize = 0;
    while i < len
        invariant
            i <= len,
            v@ == Seq::new(i as nat, |k: int| (len - k) as u128),
        decreases len - i,
    {
        v.push((len - i) as u128);
        proof {
            assert(v@ =~= Seq::new((i + 1) as nat, |k: int| (len - k) as u128));
        }
        i = i + 1;
    }
    v
}

proof fn lemma_rank_total(len: int, i: int)
    requires
        0 <= i <= len <= MAX_POPULATION,
    ensures
        2 * cum(rank_weights(len), i) == 2 * i * len - i * (i - 1),
    decreases i,
{
    if i > 0 {
        lemma_rank_total(len, i - 1);
        assert(rank_weights(len)[i - 1] == len - (i - 1));
        assert(cum(rank_weights(len), i) == cum(rank_weights(len), i - 1) + rank_weights(len)[i - 1]);
        let c0 = cum(rank_weights(len), i - 1);
        let c1 = cum(rank_weights(len), i);
        assert(2 * c1 == 2 * i * len - i * (i - 1)) by (nonlinear_arith)
            requires
                2 * c0 == 2 * (i - 1) * len - (i - 1) * (i - 1 - 1),
                c1 == c0 + (len - (i - 1)),
        ;
    } else {
        assert(2 * i * len - i * (i - 1) == 0) by (nonlinear_arith)
            requires
                i == 0,
        ;
    }
}

/// Rank-based stochastic universal sampling from a population sorted best
/// first: returns the positions picked, `count` of them, in rank order.
/// Rank `i` of `len` is expected `count * (len - i) / (len * (len + 1) / 2)` times.
pub fn rank_sus_select(pop: &Vec<Genome>, count: usize, rng: &mut rand::XorShiftRng) -> (r: Vec<usize>)
    requires
        0 < pop@.len() <= MAX_POPULATION,
        count <= MAX_POPULATION,
    ensures
        exists|off: int|
            0 <= off < OFFSET_SCALE && r@ == sus(rank_weights(pop@.len() as int), count as int, off),
        r@.len() == count,
        forall|k: int| 0 <= k < r@.len() ==> #[trigger] r@[k] < pop@.len(),
{
    let len = pop.len();
    let weights = rank_weight_vec(len);
    proof {
        lemma_rank_total(len as int, len as int);
        let t = cum(rank_weights(len as int), len as int);
        assert(2 * t <= 2 * MAX_TOTAL_WEIGHT && t > 0) by (nonlinear_arith)
            requires
                2 * t == 2 * len * len - len * (len - 1),
                0 < len <= MAX_POPULATION,
        ;
    }
    let off = crate::random::draw_below(rng, OFFSET_SCALE);
    proof {
        lemma_sus_prefix_ranks(weights@, count as int, off as int, len as int);
    }
    sus_from_offset(&weights, count, off)
}

/// The weights of fitness-proportional selection: each genome's cached fitness.
pub open spec fn fitness_weights(pop: Seq<Genome>) -> Seq<u128> {
    Seq::new(
        pop.len(),
        |k: int|
            match pop[k].cached_fitness {
                Some(f) => f,
                None => 0,
            },
    )
}

/// Fitness-proportional stochastic universal sampling: member `k` is
/// expected `count * f_k / (f_0 + f_1 + ...)` times. Returns the positions
/// picked, `count` of them, in order.
pub fn sus_select(pop: &Vec<Genome>, count: usize, rng: &mut rand::XorShiftRng) -> (r: Vec<usize>)
    requires
        count <= MAX_POPULATION,
        0 < cum(fitness_weights(pop@), pop@.len() as int) <= MAX_TOTAL_WEIGHT,
    ensures
        exists|off: int| 0 <= off < OFFSET_SCALE && r@ == sus(fitness_weights(pop@), count as int, off),
        r@.len() == count,
        forall|k: int| 0 <= k < r@.len() ==> #[trigger] r@[k] < pop@.len(),
{
    let mut weights: Vec<u128> = Vec::with_capacity(pop.len());
    let mut i: usize = 0;
    while i < pop.len()
        invariant
            i <= pop@.len(),
            weights@ == fitness_weights(pop@).subrange(0, i as int),
        decreases pop@.len() - i,
    {
        let f = match pop[i].cached_fitness {
            Some(f) => f,
            None => 0,
        };
        weights.push(f);
        assert(weights@ =~= fitness_weights(pop@).subrange(0, i + 1));
        i = i + 1;
    }
    assert(weights@ =~= fitness_weights(pop@));
    let off = crate::random::draw_below(rng, OFFSET_SCALE);
    proof {
        lemma_sus_prefix_ranks(weights@, count as int, off as int, pop@.len() as int);
    }
    sus_from_offset(&weights, count, off)
}

/// Sampling of the first `count` members, in order: a baseline without chance.
pub fn demo_select(origin: &Vec<Genome>, count: usize) -> (r: Vec<usize>)
    ensures
        r@.len() == if count <= origin@.len() {
            count as int
        } else {
            origin@.len() as int
        },
        forall|k: int| 0 <= k < r@.len() ==> #[trigger] r@[k] == k,
{
    let n = if count <= origin.len() {
        count
    } else {
        origin.len()
    };
    let mut v: Vec<usize> = Vec::with_capacity(n);
    let mut i: usize = 0;
    while i < n
        invariant
            i <= n,
            v@.len() == i,
            forall|k: int| 0 <= k < i ==> #[trigger] v@[k] == k,
        decreases n - i,
    {
        v.push(i);
        i = i + 1;
    }
    v
}

} // verus!
