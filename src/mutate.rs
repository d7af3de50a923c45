use vstd::prelude::*;

use crate::genome::{Activity, ActivityType, Genome, Optimization};
use crate::tuneables::{ADD_MAX, DEL_TARGET};

verus! {

/// Random fractions are drawn as `x / FRACTION_SCALE`, in `[0, 1)`.
pub const FRACTION_SCALE: u64 = 4_294_967_296;

/// The activities of `s` whose mask entry is set, in order.
pub open spec fn masked(s: Seq<Activity>, mask: Seq<bool>) -> Seq<Activity>
    decreases mask.len(),
{
    if mask.len() == 0 {
        seq![]
    } else {
        let k = mask.len() - 1;
        masked(s, mask.drop_last()) + if mask[k] {
            seq![s[k]]
        } else {
            seq![]
        }
    }
}

/// `a` is work on a descendant of the root, starting within `[start, end)`.
pub open spec fn is_new_gene(opt: Optimization, a: Activity) -> bool {
    &&& opt.start <= a.start < opt.end
    &&& a.activitytype matches ActivityType::WorkOn(n) && opt.tree.spec_descendants(opt.root).contains(n)
}

/// Mutation may run: the horizon is not empty and the root has descendants.
pub open spec fn can_mutate(opt: Optimization) -> bool {
    &&& opt.wf()
    &&& opt.start < opt.end
    &&& opt.tree.nodes@[opt.root.0 as int].subtreesize > 0
}

/// A random activity: work on a descendant of the root, drawn uniformly,
/// at a moment drawn from the horizon.
pub fn new_gene(opt: &Optimization, rng: &mut rand::XorShiftRng) -> (a: Activity)
    requires
        can_mutate(*opt),
    ensures
        is_new_gene(*opt, a),
{
    let node = opt.tree.randomnode(opt.root, rng);
    let insert_time = opt.random_time(rng);
    Activity { start: insert_time, activitytype: ActivityType::WorkOn(node) }
}

/// Adds work on a random descendant of the root at a random moment.
pub fn add_gene(opt: &Optimization, genome: &mut Genome, rng: &mut rand::XorShiftRng)
    requires
        can_mutate(*opt),
    ensures
        exists|a: Activity| is_new_gene(*opt, a) && final(genome).pool@ == old(genome).pool@.push(a),
        final(genome).cached_fitness is None,
{
    let gene = new_gene(opt, rng);
    genome.pool.push(gene);
    genome.cached_fitness = None;
}

/// How many activities a mutation adds for the draw `x`:
/// `ADD_MAX * (x / FRACTION_SCALE)^3`, rounded down.
pub open spec fn add_count_for(x: int) -> int {
    ADD_MAX * (x * x * x) / 0x1_0000_0000_0000_0000_0000_0000
}

/// For the draw `v`, the deletion threshold `DEL_TARGET * (v / FRACTION_SCALE)^3`
/// scaled by `FRACTION_SCALE`, rounded up: a gene with draw `w` is dropped
/// when `(w / FRACTION_SCALE) * len` is below the threshold, that is when
/// `w * len` is below this cut.
pub open spec fn cut_for(v: int) -> int {
    (DEL_TARGET * (v * v * v) + 0xFFFF_FFFF_FFFF_FFFF) / 0x1_0000_0000_0000_0000
}

/// Which of `len` activities a mutation keeps: the last always, any other
/// `k` unless `ws[k] * len` falls below `cut`.
pub open spec fn keep_mask(ws: Seq<u64>, len: int, cut: int) -> Seq<bool> {
    Seq::new(len as nat, |k: int| k == len - 1 || !(ws[k] * len < cut))
}

proof fn lemma_masked_push(s: Seq<Activity>, mask: Seq<bool>, b: bool)
    ensures
        masked(s, mask.push(b)) == masked(s, mask) + if b {
            seq![s[mask.len() as int]]
        } else {
            seq![]
        },
{
    assert(mask.push(b).drop_last() =~= mask);
}

/// What a mask keeps of a sequence lies in the sequence.
pub proof fn lemma_masked_members(s: Seq<Activity>, mask: Seq<bool>)
    requires
        mask.len() <= s.len(),
    ensures
        forall|k: int| 0 <= k < masked(s, mask).len() ==> s.contains(#[trigger] masked(s, mask)[k]),
    decreases mask.len(),
{
    if mask.len() > 0 {
        let m = mask.drop_last();
        lemma_masked_members(s, m);
        let a = masked(s, m);
        let last = mask.len() - 1;
        assert forall|k: int| 0 <= k < masked(s, mask).len() implies s.contains(#[trigger] masked(s, mask)[k]) by {
            if k < a.len() {
                assert(masked(s, mask)[k] == a[k]);
            } else {
                assert(masked(s, mask)[k] == s[last]);
            }
        }
    }
}

/// `g` is what mutation can make of the activities `old`: some of them kept,
/// always the last, at most `ADD_MAX` new ones added, in time order, and no
/// fitness.
pub open spec fn mutation_of(opt: Optimization, old: Seq<Activity>, g: Genome) -> bool {
    &&& exists|mask: Seq<bool>, added: Seq<Activity>|
        {
            &&& mask.len() == old.len()
            &&& (mask.len() > 0 ==> mask.last())
            &&& added.len() <= ADD_MAX
            &&& (forall|k: int| 0 <= k < added.len() ==> is_new_gene(opt, #[trigger] added[k]))
            &&& g.pool@.to_multiset() == (masked(old, mask) + added).to_multiset()
        }
    &&& crate::genome::sorted(g.pool@)
    &&& g.cached_fitness is None
}

/// Mutates a genome with the given draws: `x` sets how many of `genes` are
/// added, `v` the deletion threshold, and `ws[k]` decides whether activity
/// `k` goes. The last activity always stays. The result is put in time
/// order and has no fitness.
pub fn mutate_with(genome: &mut Genome, x: u64, v: u64, ws: &Vec<u64>, genes: &Vec<Activity>)
    requires
        x < FRACTION_SCALE,
        v < FRACTION_SCALE,
        ws@.len() + 1 >= old(genome).pool@.len(),
        forall|k: int| 0 <= k < ws@.len() ==> #[trigger] ws@[k] < FRACTION_SCALE,
        genes@.len() >= add_count_for(x as int),
    ensures
        final(genome).pool@.to_multiset() == (masked(
            old(genome).pool@,
            keep_mask(ws@, old(genome).pool@.len() as int, cut_for(v as int)),
        ) + genes@.subrange(0, add_count_for(x as int))).to_multiset(),
        crate::genome::sorted(final(genome).pool@),
        final(genome).cached_fitness is None,
        old(genome).pool@.len() > 0 && crate::genome::last_starts_latest(old(genome).pool@) && (forall|k: int|
            0 <= k < add_count_for(x as int) ==> #[trigger] genes@[k].start < old(genome).pool@.last().start)
            ==> final(genome).pool@.last() == old(genome).pool@.last(),
{
    let x = x as u128;
    let v = v as u128;
    assert(x * x <= 0x1_0000_0000_0000_0000) by (nonlinear_arith)
        requires
            x < FRACTION_SCALE,
    ;
    assert(x * x * x <= 0x1_0000_0000_0000_0000_0000_0000) by (nonlinear_arith)
        requires
            x < FRACTION_SCALE,
    ;
    let add_count = (ADD_MAX as u128 * (x * x * x) / 0x1_0000_0000_0000_0000_0000_0000) as usize;
    assert(ADD_MAX * (x * x * x) / 0x1_0000_0000_0000_0000_0000_0000 <= ADD_MAX) by (nonlinear_arith)
        requires
            x * x * x <= 0x1_0000_0000_0000_0000_0000_0000,
    ;
    assert(v * v <= 0x1_0000_0000_0000_0000) by (nonlinear_arith)
        requires
            v < FRACTION_SCALE,
    ;
    assert(v * v * v <= 0x1_0000_0000_0000_0000_0000_0000) by (nonlinear_arith)
        requires
            v < FRACTION_SCALE,
    ;
    let cut = (DEL_TARGET as u128 * (v * v * v) + 0xFFFF_FFFF_FFFF_FFFF) / 0x1_0000_0000_0000_0000;
    let ghost old_seq = genome.pool@;
    let mut old_pool: Vec<Activity> = Vec::new();
    std::mem::swap(&mut old_pool, &mut genome.pool);
    let len = old_pool.len();
    let ghost mask = keep_mask(ws@, len as int, cut as int);
    let mut idx: usize = 0;
    proof {
        assert(mask.subrange(0, 0) =~= Seq::<bool>::empty());
        assert(genome.pool@ =~= masked(old_seq, mask.subrange(0, 0)));
    }
    while idx + 1 < len
        invariant
            len == old_pool@.len(),
            old_pool@ == old_seq,
            ws@.len() + 1 >= len,
            forall|k: int| 0 <= k < ws@.len() ==> #[trigger] ws@[k] < FRACTION_SCALE,
            mask == keep_mask(ws@, len as int, cut as int),
            idx < len || len == 0,
            idx <= len,
            genome.pool@ == masked(old_seq, mask.subrange(0, idx as int)),
        decreases len - idx,
    {
        let w = ws[idx] as u128;
        assert(w * len < 0x1_0000_0000_0000_0000_0000_0000) by (nonlinear_arith)
            requires
                w < FRACTION_SCALE,
                len <= usize::MAX,
        ;
        let keep = !(w * (len as u128) < cut);
        proof {
            assert(mask[idx as int] == keep);
            assert(mask.subrange(0, idx + 1) =~= mask.subrange(0, idx as int).push(keep));
            lemma_masked_push(old_seq, mask.subrange(0, idx as int), keep);
        }
        if keep {
            genome.pool.push(old_pool[idx]);
        }
        proof {
            assert(genome.pool@ =~= masked(old_seq, mask.subrange(0, idx + 1)));
        }
        idx = idx + 1;
    }
    let ghost kept = genome.pool@;
    let mut n: usize = 0;
    while n < add_count
        invariant
            n <= add_count,
            add_count == add_count_for(x as int),
            genes@.len() >= add_count,
            genome.pool@ == kept + genes@.subrange(0, n as int),
        decreases add_count - n,
    {
        genome.pool.push(genes[n]);
        assert(genes@.subrange(0, n + 1) =~= genes@.subrange(0, n as int).push(genes@[n as int]));
        n = n + 1;
    }
    let ghost added = genes@.subrange(0, add_count as int);
    if len > 0 {
        genome.pool.push(old_pool[len - 1]);
    }
    proof {
        broadcast use vstd::seq_lib::group_to_multiset_ensures;

        if len > 0 {
            assert(idx == len - 1);
            assert(mask.subrange(0, len as int) =~= mask.subrange(0, idx as int).push(true));
            lemma_masked_push(old_seq, mask.subrange(0, idx as int), true);
            assert(mask.subrange(0, len as int) =~= mask);
            let e = old_seq[len - 1];
            assert(genome.pool@ == (kept + added).push(e));
            vstd::seq_lib::lemma_multiset_commutative(kept + seq![e], added);
            vstd::seq_lib::lemma_multiset_commutative(kept, seq![e]);
            vstd::seq_lib::lemma_multiset_commutative(kept, added);
            assert((kept + added).push(e) =~= (kept + added) + seq![e]);
            vstd::seq_lib::lemma_multiset_commutative(kept + added, seq![e]);
            assert(genome.pool@.to_multiset() =~= (masked(old_seq, mask) + added).to_multiset());
        } else {
            assert(mask =~= mask.subrange(0, 0));
            assert(genome.pool@ =~= masked(old_seq, mask) + added);
        }
    }
    let ghost unsorted = genome.pool@;
    proof {
        if len > 0 && crate::genome::last_starts_latest(old_seq) && (forall|k: int|
            0 <= k < add_count_for(x as int) ==> #[trigger] genes@[k].start < old_seq.last().start) {
            let e = old_seq.last();
            lemma_masked_members(old_seq, mask.subrange(0, idx as int));
            assert forall|k: int| 0 <= k < unsorted.len() implies #[trigger] unsorted[k].start <= unsorted.last().start by {
                if k < kept.len() {
                    assert(unsorted[k] == kept[k]);
                    assert(old_seq.contains(kept[k]));
                } else if k < kept.len() + added.len() {
                    assert(unsorted[k] == genes@[k - kept.len()]);
                }
            }
        }
    }
    genome.sort();
    genome.cached_fitness = None;
}

/// Changes a genome at random: drops activities (never the last one), adds
/// up to `ADD_MAX` new ones, restores time order and forgets the fitness.
/// Most mutations are small: both amounts follow a cubic curve.
pub fn mutate(opt: &Optimization, genome: &mut Genome, rng: &mut rand::XorShiftRng)
    requires
        can_mutate(*opt),
    ensures
        mutation_of(*opt, old(genome).pool@, *final(genome)),
        final(genome).cached_fitness is None,
        old(genome).pool@.len() > 0 && crate::genome::last_starts_latest(old(genome).pool@)
            && old(genome).pool@.last().start >= opt.end ==> final(genome).pool@.last() == old(genome).pool@.last(),
{
    let x = crate::random::draw_below(rng, FRACTION_SCALE);
    let v = crate::random::draw_below(rng, FRACTION_SCALE);
    let len = genome.pool.len();
    let mut ws: Vec<u64> = Vec::new();
    while len > 0 && ws.len() < len - 1
        invariant
            forall|k: int| 0 <= k < ws@.len() ==> #[trigger] ws@[k] < FRACTION_SCALE,
            len > 0 ==> ws@.len() <= len - 1,
            len == 0 ==> ws@.len() == 0,
            len == old(genome).pool@.len(),
        decreases len - ws@.len(),
    {
        let w = crate::random::draw_below(rng, FRACTION_SCALE);
        ws.push(w);
    }
    let xx = x as u128;
    assert(xx * xx <= 0x1_0000_0000_0000_0000) by (nonlinear_arith)
        requires
            xx < FRACTION_SCALE,
    ;
    assert(xx * xx * xx <= 0x1_0000_0000_0000_0000_0000_0000) by (nonlinear_arith)
        requires
            xx < FRACTION_SCALE,
    ;
    let add_count = (ADD_MAX as u128 * (xx * xx * xx) / 0x1_0000_0000_0000_0000_0000_0000) as usize;
    assert(ADD_MAX * (xx * xx * xx) / 0x1_0000_0000_0000_0000_0000_0000 <= ADD_MAX) by (nonlinear_arith)
        requires
            xx * xx * xx <= 0x1_0000_0000_0000_0000_0000_0000,
    ;
    let mut genes: Vec<Activity> = Vec::new();
    while genes.len() < add_count
        invariant
            can_mutate(*opt),
            genes@.len() <= add_count,
            forall|k: int| 0 <= k < genes@.len() ==> is_new_gene(*opt, #[trigger] genes@[k]),
        decreases add_count - genes@.len(),
    {
        let g = new_gene(opt, rng);
        genes.push(g);
    }
    let ghost old_pool = genome.pool@;
    mutate_with(genome, x, v, &ws, &genes);
    proof {
        let mask = keep_mask(ws@, old_pool.len() as int, cut_for(v as int));
        let added = genes@.subrange(0, add_count_for(x as int));
        assert forall|k: int| 0 <= k < added.len() implies is_new_gene(*opt, #[trigger] added[k]) by {
            assert(added[k] == genes@[k]);
        }
        if old_pool.len() > 0 {
            assert(mask.last());
        }
    }
}

} // verus!
