use vstd::multiset::Multiset;
use vstd::prelude::*;

use crate::crossover::{bred_from, child_of, crossover_rand, lemma_crossover_conserves, lemma_crossover_sorted, times_sorted};
use crate::fitness::{fitness, fitness_spec, node_of, refs_valid, TreeState, MAX_PROJECTS};
use crate::genome::{sorted, within, Activity, ActivityType, Genome, Optimization};
use crate::mutate::{add_gene, can_mutate, is_new_gene, lemma_masked_members, masked, mutate, mutation_of};
use crate::selection::{rank_sus_select, rank_weights, sus, MAX_POPULATION, OFFSET_SCALE};

verus! {

/// Sizes of an evolution run.
#[derive(Debug, Clone, Copy, PartialEq, Eq, Structural)]
pub struct Config {
    /// Genomes per generation.
    pub pop_size: usize,
    /// Best genomes carried unchanged into the next generation.
    pub elite_count: usize,
    /// Generations to run.
    pub generation_count: usize,
}

impl Config {
    /// The sizes the optimizer runs with.
    pub fn standard() -> (r: Config)
        ensures
            r.pop_size == 300,
            r.elite_count == 50,
            r.generation_count == 90,
    {
        Config { pop_size: 300, elite_count: 50, generation_count: 90 }
    }

    pub open spec fn valid(&self) -> bool {
        0 < self.pop_size <= MAX_POPULATION && self.elite_count < self.pop_size
    }
}

/// Activities freshly generated for a genome.
pub const INITIAL_GENES: usize = 25;

/// What scoring and breeding need of the context and the historical state.
pub open spec fn engine_ready(opt: Optimization, initial: TreeState) -> bool {
    &&& can_mutate(opt)
    &&& opt.projects@.len() <= MAX_PROJECTS
    &&& initial.wf(&opt)
}

/// A genome that can be scored in this context: in time order, within the
/// horizon, and naming only nodes of the tree.
pub open spec fn genome_ok(opt: Optimization, g: Genome) -> bool {
    &&& sorted(g.pool@)
    &&& within(g.pool@, opt.start as int, opt.end as int)
    &&& refs_valid(g.pool@, opt.tree)
}

/// The fitness a genome has or will be given: the cached value if there is
/// one, else the computed one.
pub open spec fn score(initial: TreeState, opt: Optimization, g: Genome) -> int {
    match g.cached_fitness {
        Some(f) => f as int,
        None => fitness_spec(initial, opt, g.pool@),
    }
}

/// The cached fitness, zero when there is none.
pub open spec fn fit(g: Genome) -> int {
    match g.cached_fitness {
        Some(f) => f as int,
        None => 0,
    }
}

/// Every genome of the population can be scored.
pub open spec fn all_ok(opt: Optimization, pop: Seq<Genome>) -> bool {
    forall|k: int| 0 <= k < pop.len() ==> genome_ok(opt, #[trigger] pop[k])
}

/// Every genome has a fitness, and the best come first.
pub open spec fn ranked(pop: Seq<Genome>) -> bool {
    &&& forall|k: int| 0 <= k < pop.len() ==> (#[trigger] pop[k]).cached_fitness is Some
    &&& forall|a: int, b: int| 0 <= a < b < pop.len() ==> fit(#[trigger] pop[a]) >= fit(#[trigger] pop[b])
}

/// Activities that all lie within the horizon and name nodes of the tree.
pub open spec fn acts_ok(opt: Optimization, s: Seq<Activity>) -> bool {
    within(s, opt.start as int, opt.end as int) && refs_valid(s, opt.tree)
}

/// Activities drawn from sequences that lie within the horizon and name
/// nodes of the tree do so too.
proof fn lemma_acts_from(opt: Optimization, s: Seq<Activity>, t: Seq<Activity>)
    requires
        acts_ok(opt, t),
        forall|k: int| 0 <= k < s.len() ==> t.contains(#[trigger] s[k]),
    ensures
        acts_ok(opt, s),
{
    assert forall|k: int| 0 <= k < s.len() implies opt.start <= #[trigger] s[k].start <= opt.end by {
        let j = choose|j: int| 0 <= j < t.len() && t[j] == s[k];
        assert(opt.start <= t[j].start <= opt.end);
    }
    assert forall|k: int| 0 <= k < s.len() implies (#[trigger] node_of(s[k]) matches Some(n) ==> opt.tree.valid(n)) by {
        let j = choose|j: int| 0 <= j < t.len() && t[j] == s[k];
        assert(node_of(t[j]) matches Some(n) ==> opt.tree.valid(n));
    }
}

/// What lies in the first part of a sum of sequences lies in the whole.
proof fn lemma_multiset_members(s: Seq<Activity>, u: Seq<Activity>, t: Seq<Activity>)
    requires
        (s + u).to_multiset() == t.to_multiset(),
    ensures
        forall|k: int| 0 <= k < s.len() ==> t.contains(#[trigger] s[k]),
        forall|k: int| 0 <= k < u.len() ==> t.contains(#[trigger] u[k]),
{
    broadcast use vstd::seq_lib::group_to_multiset_ensures;

    (s + u).to_multiset_ensures();
    t.to_multiset_ensures();
    assert forall|k: int| 0 <= k < s.len() implies t.contains(#[trigger] s[k]) by {
        assert((s + u)[k] == s[k]);
        assert((s + u).contains(s[k]));
        assert((s + u).to_multiset().count(s[k]) > 0);
        assert(t.to_multiset().count(s[k]) > 0);
    }
    assert forall|k: int| 0 <= k < u.len() implies t.contains(#[trigger] u[k]) by {
        assert((s + u)[s.len() + k] == u[k]);
        assert((s + u).contains(u[k]));
        assert((s + u).to_multiset().count(u[k]) > 0);
        assert(t.to_multiset().count(u[k]) > 0);
    }
}

/// Children of two scorable parents cut at sorted points are scorable.
proof fn lemma_children_ok(opt: Optimization, a: Seq<Activity>, b: Seq<Activity>, times: Seq<i64>)
    requires
        sorted(a),
        sorted(b),
        acts_ok(opt, a),
        acts_ok(opt, b),
        times_sorted(times),
    ensures
        sorted(child_of(a, b, times)) && acts_ok(opt, child_of(a, b, times)),
        sorted(child_of(b, a, times)) && acts_ok(opt, child_of(b, a, times)),
{
    lemma_crossover_sorted(a, b, times);
    lemma_crossover_conserves(a, b, times);
    let ca = child_of(a, b, times);
    let cb = child_of(b, a, times);
    lemma_multiset_members(ca, cb, a + b);
    assert(acts_ok(opt, a + b)) by {
        assert forall|k: int| 0 <= k < (a + b).len() implies opt.start <= #[trigger] (a + b)[k].start <= opt.end by {
            if k >= a.len() {
                assert((a + b)[k] == b[k - a.len()]);
            }
        }
        assert forall|k: int| 0 <= k < (a + b).len() implies (#[trigger] node_of((a + b)[k]) matches Some(n)
            ==> opt.tree.valid(n)) by {
            if k >= a.len() {
                assert((a + b)[k] == b[k - a.len()]);
            } else {
                assert((a + b)[k] == a[k]);
            }
        }
    }
    lemma_acts_from(opt, ca, a + b);
    lemma_acts_from(opt, cb, a + b);
}


/// The genome with its fitness filled in.
pub open spec fn scored(initial: TreeState, opt: Optimization, g: Genome) -> Genome {
    Genome { pool: g.pool, cached_fitness: Some(score(initial, opt, g) as u128) }
}

/// Scores every genome that has no fitness yet, then orders the population
/// best first.
#[verifier::spinoff_prover]
pub fn fill_fitnesses(fitness_state: &TreeState, pop: Vec<Genome>, opt: &Optimization) -> (r: Vec<Genome>)
    requires
        engine_ready(*opt, *fitness_state),
        all_ok(*opt, pop@),
    ensures
        r@.len() == pop@.len(),
        all_ok(*opt, r@),
        ranked(r@),
        r@.len() > 0 ==> forall|j: int| 0 <= j < pop@.len() ==> fit(r@[0]) >= #[trigger] score(*fitness_state, *opt, pop@[j]),
        r@.to_multiset() == pop@.map_values(|g: Genome| scored(*fitness_state, *opt, g)).to_multiset(),
{
    let ghost orig = pop@;
    let ghost all = orig.map_values(|g: Genome| scored(*fitness_state, *opt, g));
    let n = pop.len();
    let mut src = pop;
    let mut filled: Vec<Genome> = Vec::with_capacity(n);
    while src.len() > 0
        invariant
            engine_ready(*opt, *fitness_state),
            n == orig.len(),
            filled@.len() + src@.len() == n,
            src@ == orig.subrange(filled@.len() as int, n as int),
            forall|k: int| 0 <= k < filled@.len() ==> genome_ok(*opt, #[trigger] filled@[k]),
            forall|k: int| 0 <= k < filled@.len() ==> (#[trigger] filled@[k]).cached_fitness is Some,
            forall|k: int|
                0 <= k < filled@.len() ==> fit(#[trigger] filled@[k]) == score(*fitness_state, *opt, orig[k]),
            all_ok(*opt, orig),
            all == orig.map_values(|g: Genome| scored(*fitness_state, *opt, g)),
            filled@ == all.subrange(0, filled@.len() as int),
        decreases src@.len(),
    {
        let mut g = src.remove(0);
        let ghost k = filled@.len() as int;
        assert(g == orig[k]);
        if g.cached_fitness.is_none() {
            let f = fitness(fitness_state, opt, &g);
            g.cached_fitness = Some(f);
        }
        assert(g == scored(*fitness_state, *opt, orig[k]));
        filled.push(g);
        assert(src@ =~= orig.subrange(filled@.len() as int, n as int));
        assert(filled@ =~= all.subrange(0, filled@.len() as int));
    }
    proof {
        assert(filled@ =~= all);
    }
    let mut out: Vec<Genome> = Vec::with_capacity(n);
    proof {
        out@.to_multiset_ensures();
        vstd::multiset::lemma_multiset_empty_len(out@.to_multiset());
        assert(out@.to_multiset().add(filled@.to_multiset()) =~= filled@.to_multiset());
    }
    while filled.len() > 0
        invariant
            n == orig.len(),
            out@.len() + filled@.len() == n,
            forall|k: int| 0 <= k < filled@.len() ==> genome_ok(*opt, #[trigger] filled@[k]),
            forall|k: int| 0 <= k < out@.len() ==> genome_ok(*opt, #[trigger] out@[k]),
            forall|k: int| 0 <= k < filled@.len() ==> (#[trigger] filled@[k]).cached_fitness is Some,
            ranked(out@),
            forall|a: int, b: int|
                0 <= a < out@.len() && 0 <= b < filled@.len() ==> fit(#[trigger] out@[a]) >= fit(
                    #[trigger] filled@[b],
                ),
            out@.len() == 0 ==> forall|k: int|
                0 <= k < filled@.len() ==> fit(#[trigger] filled@[k]) == score(*fitness_state, *opt, orig[k]),
            out@.len() > 0 ==> forall|j: int|
                0 <= j < orig.len() ==> fit(out@[0]) >= #[trigger] score(*fitness_state, *opt, orig[j]),
            out@.to_multiset().add(filled@.to_multiset()) == all.to_multiset(),
        decreases filled@.len(),
    {
        let mut m: usize = 0;
        let mut k: usize = 1;
        while k < filled.len()
            invariant
                0 <= m < filled@.len(),
                1 <= k <= filled@.len(),
                m < k,
                forall|k: int| 0 <= k < filled@.len() ==> (#[trigger] filled@[k]).cached_fitness is Some,
                forall|x: int| 0 <= x < k ==> fit(filled@[m as int]) >= fit(#[trigger] filled@[x]),
            decreases filled@.len() - k,
        {
            let fk = match filled[k].cached_fitness {
                Some(f) => f,
                None => 0,
            };
            let fm = match filled[m].cached_fitness {
                Some(f) => f,
                None => 0,
            };
            if fk > fm {
                m = k;
            }
            k = k + 1;
        }
        let ghost before = filled@;
        let ghost first_round = out@.len() == 0;
        let ghost out_before = out@;
        let g = filled.remove(m);
        out.push(g);
        proof {
            assert(filled@ == before.remove(m as int));
            before.to_multiset_ensures();
            out_before.to_multiset_ensures();
            assert(g == before[m as int]);
            assert(before.to_multiset().count(g) > 0) by {
                assert(before.contains(g));
            }
            assert(out@.to_multiset().add(filled@.to_multiset()) =~= out_before.to_multiset().add(before.to_multiset()));
            assert forall|x: int| 0 <= x < filled@.len() implies genome_ok(*opt, #[trigger] filled@[x])
                && filled@[x].cached_fitness is Some by {
                if x < m {
                    assert(filled@[x] == before[x]);
                } else {
                    assert(filled@[x] == before[x + 1]);
                }
            }
            assert forall|a: int, b: int|
                0 <= a < out@.len() && 0 <= b < filled@.len() implies fit(#[trigger] out@[a]) >= fit(
                    #[trigger] filled@[b],
                ) by {
                if b < m {
                    assert(filled@[b] == before[b]);
                } else {
                    assert(filled@[b] == before[b + 1]);
                }
                if a == out@.len() - 1 {
                    assert(out@[a] == before[m as int]);
                }
            }
            assert forall|a: int, b: int| 0 <= a < b < out@.len() implies fit(#[trigger] out@[a]) >= fit(
                #[trigger] out@[b],
            ) by {
                if b == out@.len() - 1 {
                    assert(out@[b] == before[m as int]);
                }
            }
            if first_round {
                assert(out@[0] == before[m as int]);
                assert forall|j: int| 0 <= j < orig.len() implies fit(out@[0]) >= #[trigger] score(
                    *fitness_state,
                    *opt,
                    orig[j],
                ) by {
                    assert(fit(before[j]) == score(*fitness_state, *opt, orig[j]));
                }
            }
        }
    }
    proof {
        filled@.to_multiset_ensures();
        vstd::multiset::lemma_multiset_empty_len(filled@.to_multiset());
        assert(filled@.to_multiset() =~= Multiset::empty());
        assert(out@.to_multiset().add(Multiset::empty()) =~= out@.to_multiset());
    }
    out
}

impl Genome {
    /// An equal copy: the same activities and the same cached fitness.
    pub fn duplicate(&self) -> (r: Genome)
        ensures
            r.pool@ == self.pool@,
            r.cached_fitness == self.cached_fitness,
    {
        let mut pool: Vec<Activity> = Vec::with_capacity(self.pool.len());
        let mut i: usize = 0;
        while i < self.pool.len()
            invariant
                i <= self.pool@.len(),
                pool@ == self.pool@.subrange(0, i as int),
            decreases self.pool@.len() - i,
        {
            pool.push(self.pool[i]);
            assert(pool@ =~= self.pool@.subrange(0, i + 1));
            i = i + 1;
        }
        assert(pool@ =~= self.pool@);
        Genome { pool, cached_fitness: self.cached_fitness }
    }
}

/// `r` breeds the parents that `sel` picks from `prev`, two at a time; an
/// unpaired last one is carried over as it is.
pub open spec fn crossed(opt: Optimization, sel: Seq<usize>, prev: Seq<Genome>, r: Seq<Genome>) -> bool {
    &&& r.len() == sel.len()
    &&& forall|e: int|
        0 <= e && e + 1 < r.len() && e % 2 == 0 ==> bred_from(
            opt,
            prev[sel[e] as int],
            prev[sel[e + 1] as int],
            #[trigger] r[e],
            r[e + 1],
        )
    &&& r.len() % 2 == 1 ==> r[r.len() - 1].pool@ == prev[sel[r.len() - 1] as int].pool@ && r[r.len()
        - 1].cached_fitness == prev[sel[r.len() - 1] as int].cached_fitness
}

/// Each genome of `r` is the one of `pop` at its place, or a mutation of it.
pub open spec fn mutated(opt: Optimization, pop: Seq<Genome>, r: Seq<Genome>) -> bool {
    &&& r.len() == pop.len()
    &&& forall|k: int| 0 <= k < r.len() ==> #[trigger] r[k] == pop[k] || mutation_of(opt, pop[k].pool@, r[k])
}

/// `r` is a next generation of `prev`: parents picked by rank-based
/// sampling and shuffled, bred in pairs, mutated, and followed by the
/// `elite_count` best of `prev`, unchanged.
pub open spec fn bred_generation(opt: Optimization, cfg: Config, prev: Seq<Genome>, r: Seq<Genome>) -> bool {
    let count = cfg.pop_size - cfg.elite_count;
    &&& r.len() == cfg.pop_size
    &&& forall|k: int| 0 <= k < cfg.elite_count ==> r[count + k] == #[trigger] prev[k]
    &&& exists|off: int, order: Seq<usize>, children: Seq<Genome>|
        0 <= off < OFFSET_SCALE && order.to_multiset() == sus(rank_weights(prev.len() as int), count, off).to_multiset()
            && crossed(opt, order, prev, children) && mutated(opt, children, r.subrange(0, count))
}

/// `r` is `pop` scored and ordered best first.
pub open spec fn filled_from(initial: TreeState, opt: Optimization, pop: Seq<Genome>, r: Seq<Genome>) -> bool {
    &&& r.len() == pop.len()
    &&& ranked(r)
    &&& r.to_multiset() == pop.map_values(|g: Genome| scored(initial, opt, g)).to_multiset()
}

/// Breeds the selected parents two at a time; an unpaired last one is
/// carried over as it is.
#[verifier::spinoff_prover]
pub fn crossover_all(opt: &Optimization, rng: &mut rand::XorShiftRng, selections: &Vec<usize>, prev: &Vec<Genome>) -> (r: Vec<Genome>)
    requires
        can_mutate(*opt),
        all_ok(*opt, prev@),
        forall|k: int| 0 <= k < selections@.len() ==> #[trigger] selections@[k] < prev@.len(),
    ensures
        all_ok(*opt, r@),
        crossed(*opt, selections@, prev@, r@),
{
    let n = selections.len();
    let mut pop: Vec<Genome> = Vec::with_capacity(n);
    let mut i: usize = 0;
    while i < n
        invariant
            can_mutate(*opt),
            all_ok(*opt, prev@),
            n == selections@.len(),
            forall|k: int| 0 <= k < selections@.len() ==> #[trigger] selections@[k] < prev@.len(),
            i <= n,
            pop@.len() == i,
            all_ok(*opt, pop@),
            i % 2 == 0 || i == n,
            forall|e: int|
                0 <= e && e + 1 < i && e % 2 == 0 ==> bred_from(
                    *opt,
                    prev@[selections@[e] as int],
                    prev@[selections@[e + 1] as int],
                    #[trigger] pop@[e],
                    pop@[e + 1],
                ),
            i == n && n % 2 == 1 ==> pop@[n - 1].pool@ == prev@[selections@[n - 1] as int].pool@ && pop@[n
                - 1].cached_fitness == prev@[selections@[n - 1] as int].cached_fitness,
        decreases n - i,
    {
        let a = &prev[selections[i]];
        assert(genome_ok(*opt, *a));
        if i + 1 < n {
            let b = &prev[selections[i + 1]];
            assert(genome_ok(*opt, *b));
            let (u, v) = crossover_rand(opt, a, b, rng);
            proof {
                let times = choose|times: Seq<i64>|
                    times.len() == crate::tuneables::CROSSOVER_COUNT && times_sorted(times) && u.pool@ == child_of(
                        a.pool@,
                        b.pool@,
                        times,
                    ) && v.pool@ == child_of(b.pool@, a.pool@, times);
                lemma_children_ok(*opt, a.pool@, b.pool@, times);
            }
            let ghost before = pop@;
            pop.push(u);
            pop.push(v);
            proof {
                assert(pop@[i as int] == u && pop@[i + 1] == v);
                assert forall|e: int|
                    0 <= e && e + 1 < i + 2 && e % 2 == 0 implies bred_from(
                        *opt,
                        prev@[selections@[e] as int],
                        prev@[selections@[e + 1] as int],
                        #[trigger] pop@[e],
                        pop@[e + 1],
                    ) by {
                    if e < i {
                        assert(pop@[e] == before[e] && pop@[e + 1] == before[e + 1]);
                    }
                }
            }
            i = i + 2;
        } else {
            let ghost before = pop@;
            let d = a.duplicate();
            pop.push(d);
            proof {
                assert forall|e: int|
                    0 <= e && e + 1 < i + 1 && e % 2 == 0 implies bred_from(
                        *opt,
                        prev@[selections@[e] as int],
                        prev@[selections@[e + 1] as int],
                        #[trigger] pop@[e],
                        pop@[e + 1],
                    ) by {
                    assert(pop@[e] == before[e] && pop@[e + 1] == before[e + 1]);
                }
            }
            i = i + 1;
        }
    }
    pop
}

/// Mutates the genome unless the coin `coin`, drawn from `[0, 100)`, is 0:
/// so about one genome in a hundred is left alone.
pub fn maybe_mutate(opt: &Optimization, genome: &mut Genome, coin: u64, rng: &mut rand::XorShiftRng)
    requires
        can_mutate(*opt),
    ensures
        coin > 0 ==> mutation_of(*opt, old(genome).pool@, *final(genome)),
        coin == 0 ==> *final(genome) == *old(genome),
{
    if coin > 0 {
        mutate(opt, genome, rng);
    }
}

/// Mutates each genome, but for about one in a hundred.
#[verifier::spinoff_prover]
pub fn mutate_all(opt: &Optimization, pop: Vec<Genome>, rng: &mut rand::XorShiftRng) -> (r: Vec<Genome>)
    requires
        can_mutate(*opt),
        all_ok(*opt, pop@),
    ensures
        all_ok(*opt, r@),
        mutated(*opt, pop@, r@),
{
    let ghost orig = pop@;
    let n = pop.len();
    let mut src = pop;
    let mut out: Vec<Genome> = Vec::with_capacity(n);
    while src.len() > 0
        invariant
            can_mutate(*opt),
            out@.len() + src@.len() == n,
            n == orig.len(),
            src@ == orig.subrange(out@.len() as int, n as int),
            all_ok(*opt, src@),
            all_ok(*opt, out@),
            forall|k: int|
                0 <= k < out@.len() ==> #[trigger] out@[k] == orig[k] || mutation_of(*opt, orig[k].pool@, out@[k]),
        decreases src@.len(),
    {
        let ghost before = src@;
        let ghost at = out@.len() as int;
        let mut g = src.remove(0);
        assert(g == before[0]);
        assert(g == orig[at]);
        assert(src@ =~= orig.subrange(at + 1, n as int));
        proof {
            assert forall|k: int| 0 <= k < src@.len() implies genome_ok(*opt, #[trigger] src@[k]) by {
                assert(src@[k] == before[k + 1]);
            }
        }
        let coin = crate::random::draw_below(rng, 100);
        let ghost old_g = g;
        maybe_mutate(opt, &mut g, coin, rng);
        if coin > 0 {
            let ghost old_pool = old_g.pool@;
            proof {
                let (mask, added) = choose|mask: Seq<bool>, added: Seq<Activity>|
                    {
                        &&& mask.len() == old_pool.len()
                        &&& (mask.len() > 0 ==> mask.last())
                        &&& added.len() <= crate::tuneables::ADD_MAX
                        &&& (forall|k: int| 0 <= k < added.len() ==> is_new_gene(*opt, #[trigger] added[k]))
                        &&& g.pool@.to_multiset() == (masked(old_pool, mask) + added).to_multiset()
                    };
                let kept = masked(old_pool, mask);
                lemma_masked_members(old_pool, mask);
                lemma_acts_from(*opt, kept, old_pool);
                assert(acts_ok(*opt, added)) by {
                    assert forall|k: int| 0 <= k < added.len() implies (#[trigger] node_of(added[k]) matches Some(n)
                        ==> opt.tree.valid(n)) by {
                        assert(is_new_gene(*opt, added[k]));
                        crate::tree::lemma_below_older(
                            opt.tree.nodes@,
                            opt.root.0 as int,
                            opt.tree.nodes@[opt.root.0 as int].children.len() as int,
                        );
                    }
                }
                assert(acts_ok(*opt, kept + added)) by {
                    assert forall|k: int| 0 <= k < (kept + added).len() implies opt.start <= #[trigger] (kept
                        + added)[k].start <= opt.end by {
                        if k >= kept.len() {
                            assert((kept + added)[k] == added[k - kept.len()]);
                        } else {
                            assert((kept + added)[k] == kept[k]);
                        }
                    }
                    assert forall|k: int| 0 <= k < (kept + added).len() implies (#[trigger] node_of(
                        (kept + added)[k],
                    ) matches Some(n) ==> opt.tree.valid(n)) by {
                        if k >= kept.len() {
                            assert((kept + added)[k] == added[k - kept.len()]);
                        } else {
                            assert((kept + added)[k] == kept[k]);
                        }
                    }
                }
                assert(g.pool@ + Seq::<Activity>::empty() =~= g.pool@);
                lemma_multiset_members(g.pool@, Seq::empty(), kept + added);
                lemma_acts_from(*opt, g.pool@, kept + added);
            }
        }
        let ghost out_before = out@;
        out.push(g);
        proof {
            assert forall|k: int| 0 <= k < out@.len() implies genome_ok(*opt, #[trigger] out@[k]) by {
                if k == out@.len() - 1 {
                    assert(out@[k] == g);
                }
            }
            assert forall|k: int| 0 <= k < out@.len() implies #[trigger] out@[k] == orig[k] || mutation_of(
                *opt,
                orig[k].pool@,
                out@[k],
            ) by {
                if k < at {
                    assert(out@[k] == out_before[k]);
                }
            }
        }
    }
    out
}

/// The genome fitted to this context: activities outside the horizon, or
/// naming nodes the tree lacks, are dropped; the rest are put in time order.
/// Its fitness is forgotten.
#[verifier::spinoff_prover]
pub fn fit_to_horizon(opt: &Optimization, g: &Genome) -> (r: Genome)
    ensures
        genome_ok(*opt, r),
        r.cached_fitness is None,
        forall|k: int| 0 <= k < r.pool@.len() ==> g.pool@.contains(#[trigger] r.pool@[k]),
        forall|k: int|
            0 <= k < g.pool@.len() && opt.start <= g.pool@[k].start <= opt.end && (node_of(g.pool@[k]) matches Some(
                n,
            ) ==> opt.tree.valid(n)) ==> r.pool@.to_multiset().count(#[trigger] g.pool@[k]) > 0,
{
    let mut out = Genome::new_empty(g.pool.len());
    let mut i: usize = 0;
    while i < g.pool.len()
        invariant
            i <= g.pool@.len(),
            out.cached_fitness is None,
            acts_ok(*opt, out.pool@),
            forall|k: int| 0 <= k < out.pool@.len() ==> g.pool@.contains(#[trigger] out.pool@[k]),
            forall|k: int|
                0 <= k < i && opt.start <= g.pool@[k].start <= opt.end && (node_of(g.pool@[k]) matches Some(n)
                    ==> opt.tree.valid(n)) ==> out.pool@.contains(#[trigger] g.pool@[k]),
        decreases g.pool@.len() - i,
    {
        let a = g.pool[i];
        let in_tree = match a.activitytype {
            ActivityType::Nothing => true,
            ActivityType::WorkOn(n) => n.0 < opt.tree.nodes.len(),
            ActivityType::Finish(n) => n.0 < opt.tree.nodes.len(),
        };
        if opt.start <= a.start && a.start <= opt.end && in_tree {
            let ghost before = out.pool@;
            out.pool.push(a);
            proof {
                assert(out.pool@[before.len() as int] == a);
                assert forall|k: int| 0 <= k < out.pool@.len() implies g.pool@.contains(#[trigger] out.pool@[k]) by {
                    if k < before.len() {
                        assert(out.pool@[k] == before[k]);
                    } else {
                        assert(g.pool@[i as int] == a);
                    }
                }
                assert forall|k: int| 0 <= k < out.pool@.len() implies opt.start <= #[trigger] out.pool@[k].start <= opt.end by {
                    if k < before.len() {
                        assert(out.pool@[k] == before[k]);
                    }
                }
                assert forall|k: int| 0 <= k < out.pool@.len() implies (#[trigger] node_of(out.pool@[k]) matches Some(n)
                    ==> opt.tree.valid(n)) by {
                    if k < before.len() {
                        assert(out.pool@[k] == before[k]);
                    }
                }
                assert forall|k: int|
                    0 <= k < i + 1 && opt.start <= g.pool@[k].start <= opt.end && (node_of(g.pool@[k]) matches Some(n)
                        ==> opt.tree.valid(n)) implies out.pool@.contains(#[trigger] g.pool@[k]) by {
                    if k < i {
                        let w = choose|w: int| 0 <= w < before.len() && before[w] == g.pool@[k];
                        assert(out.pool@[w] == before[w]);
                    }
                }
            }
        } else {
            proof {
                assert forall|k: int|
                    0 <= k < i + 1 && opt.start <= g.pool@[k].start <= opt.end && (node_of(g.pool@[k]) matches Some(n)
                        ==> opt.tree.valid(n)) implies out.pool@.contains(#[trigger] g.pool@[k]) by {
                    if k == i {
                        assert(g.pool@[k] == a);
                    }
                }
            }
        }
        i = i + 1;
    }
    let ghost unsorted = out.pool@;
    out.sort();
    proof {
        assert(out.pool@ + Seq::<Activity>::empty() =~= out.pool@);
        lemma_multiset_members(out.pool@, Seq::empty(), unsorted);
        lemma_acts_from(*opt, out.pool@, unsorted);
        unsorted.to_multiset_ensures();
        assert forall|k: int| 0 <= k < out.pool@.len() implies g.pool@.contains(#[trigger] out.pool@[k]) by {
            let x = out.pool@[k];
            assert(unsorted.contains(x));
            let w = choose|w: int| 0 <= w < unsorted.len() && unsorted[w] == x;
        }
        assert forall|k: int|
            0 <= k < g.pool@.len() && opt.start <= g.pool@[k].start <= opt.end && (node_of(g.pool@[k]) matches Some(n)
                ==> opt.tree.valid(n)) implies out.pool@.to_multiset().count(#[trigger] g.pool@[k]) > 0 by {
            assert(unsorted.contains(g.pool@[k]));
            assert(unsorted.to_multiset().count(g.pool@[k]) > 0);
        }
    }
    out.cached_fitness = None;
    out
}

/// A genome of the two sentinels and `INITIAL_GENES` random activities, in
/// time order.
pub fn random_genome(opt: &Optimization, rng: &mut rand::XorShiftRng) -> (r: Genome)
    requires
        can_mutate(*opt),
    ensures
        genome_ok(*opt, r),
        r.cached_fitness is None,
        r.pool@.len() == INITIAL_GENES + 2,
        r.pool@.to_multiset().count(Activity { start: opt.start, activitytype: ActivityType::Nothing }) > 0,
        r.pool@.to_multiset().count(Activity { start: opt.end, activitytype: ActivityType::Nothing }) > 0,
        exists|added: Seq<Activity>|
            added.len() == INITIAL_GENES && (forall|k: int| 0 <= k < added.len() ==> is_new_gene(*opt, #[trigger] added[k]))
                && r.pool@.to_multiset() == (seq![
                Activity { start: opt.start, activitytype: ActivityType::Nothing },
                Activity { start: opt.end, activitytype: ActivityType::Nothing },
            ] + added).to_multiset(),
{
    let mut genome = Genome::new(opt);
    let ghost first = Activity { start: opt.start, activitytype: ActivityType::Nothing };
    let ghost last = Activity { start: opt.end, activitytype: ActivityType::Nothing };
    let ghost mut added: Seq<Activity> = seq![];
    proof {
        assert(genome.pool@ =~= seq![first, last] + added);
    }
    proof {
        assert(acts_ok(*opt, genome.pool@));
    }
    let mut k: usize = 0;
    while k < INITIAL_GENES
        invariant
            can_mutate(*opt),
            k <= INITIAL_GENES,
            acts_ok(*opt, genome.pool@),
            genome.pool@.len() == k + 2,
            genome.pool@[0] == first,
            genome.pool@[1] == last,
            added.len() == k,
            forall|x: int| 0 <= x < added.len() ==> is_new_gene(*opt, #[trigger] added[x]),
            genome.pool@ == seq![first, last] + added,
        decreases INITIAL_GENES - k,
    {
        let ghost before = genome.pool@;
        add_gene(opt, &mut genome, rng);
        proof {
            let a = choose|a: Activity| is_new_gene(*opt, a) && genome.pool@ == before.push(a);
            assert(genome.pool@[0] == before[0] && genome.pool@[1] == before[1]);
            added = added.push(a);
            assert(genome.pool@ =~= seq![first, last] + added);
            crate::tree::lemma_below_older(
                opt.tree.nodes@,
                opt.root.0 as int,
                opt.tree.nodes@[opt.root.0 as int].children.len() as int,
            );
            assert forall|x: int| 0 <= x < genome.pool@.len() implies opt.start <= #[trigger] genome.pool@[x].start
                <= opt.end by {
                if x < before.len() {
                    assert(genome.pool@[x] == before[x]);
                }
            }
            assert forall|x: int| 0 <= x < genome.pool@.len() implies (#[trigger] node_of(genome.pool@[x]) matches Some(
                n,
            ) ==> opt.tree.valid(n)) by {
                if x < before.len() {
                    assert(genome.pool@[x] == before[x]);
                }
            }
        }
        k = k + 1;
    }
    let ghost unsorted = genome.pool@;
    genome.sort();
    proof {
        assert(genome.pool@ + Seq::<Activity>::empty() =~= genome.pool@);
        lemma_multiset_members(genome.pool@, Seq::empty(), unsorted);
        lemma_acts_from(*opt, genome.pool@, unsorted);
        unsorted.to_multiset_ensures();
        genome.pool@.to_multiset_ensures();
        assert(unsorted.contains(first));
        assert(unsorted.contains(last));
    }
    genome.cached_fitness = None;
    genome
}

/// A fresh population of random genomes.
pub fn generate_pop(opt: &Optimization, cfg: Config, rng: &mut rand::XorShiftRng) -> (r: Vec<Genome>)
    requires
        can_mutate(*opt),
    ensures
        r@.len() == cfg.pop_size,
        all_ok(*opt, r@),
        forall|k: int| 0 <= k < r@.len() ==> (#[trigger] r@[k]).pool@.len() == INITIAL_GENES + 2,
{
    let mut pop: Vec<Genome> = Vec::with_capacity(cfg.pop_size);
    let mut k: usize = 0;
    while k < cfg.pop_size
        invariant
            can_mutate(*opt),
            k <= cfg.pop_size,
            pop@.len() == k,
            all_ok(*opt, pop@),
            forall|x: int| 0 <= x < pop@.len() ==> (#[trigger] pop@[x]).pool@.len() == INITIAL_GENES + 2,
        decreases cfg.pop_size - k,
    {
        let g = random_genome(opt, rng);
        pop.push(g);
        proof {
            assert forall|x: int| 0 <= x < pop@.len() implies genome_ok(*opt, #[trigger] pop@[x]) && pop@[x].pool@.len()
                == INITIAL_GENES + 2 by {
                if x == k {
                    assert(pop@[x] == g);
                }
            }
        }
        k = k + 1;
    }
    pop
}

/// One generation: selects `pop_size - elite_count` parents by rank,
/// shuffles them, breeds them in pairs, mutates the children, and appends
/// the `elite_count` best of `prev` unchanged. The population size stays
/// `pop_size`, and the best of `prev` is kept.
pub fn next_generation(prev: Vec<Genome>, opt: &Optimization, cfg: Config, rng: &mut rand::XorShiftRng) -> (r: Vec<Genome>)
    requires
        can_mutate(*opt),
        cfg.valid(),
        prev@.len() == cfg.pop_size,
        all_ok(*opt, prev@),
        ranked(prev@),
    ensures
        all_ok(*opt, r@),
        bred_generation(*opt, cfg, prev@, r@),
{
    let count = cfg.pop_size - cfg.elite_count;
    let mut order = rank_sus_select(&prev, count, rng);
    let ghost picked = order@;
    crate::random::shuffle(rng, &mut order);
    proof {
        picked.to_multiset_ensures();
        order@.to_multiset_ensures();
        assert forall|k: int| 0 <= k < order@.len() implies #[trigger] order@[k] < prev@.len() by {
            assert(order@.contains(order@[k]));
            assert(order@.to_multiset().count(order@[k]) > 0);
            assert(picked.contains(order@[k]));
        }
        assert(order@.len() == order@.to_multiset().len());
    }
    let ghost off = choose|off: int|
        0 <= off < OFFSET_SCALE && picked == sus(rank_weights(prev@.len() as int), count as int, off);
    let children = crossover_all(opt, rng, &order, &prev);
    let ghost children_view = children@;
    let mut pop = mutate_all(opt, children, rng);
    let ghost bred = pop@;
    let mut src = prev;
    let mut k: usize = 0;
    while k < cfg.elite_count
        invariant
            cfg.valid(),
            count == cfg.pop_size - cfg.elite_count,
            k <= cfg.elite_count,
            src@ == prev@.subrange(k as int, prev@.len() as int),
            prev@.len() == cfg.pop_size,
            all_ok(*opt, prev@),
            pop@.len() == count + k,
            all_ok(*opt, pop@),
            forall|x: int| 0 <= x < k ==> pop@[count + x] == #[trigger] prev@[x],
            pop@.subrange(0, count as int) == bred,
            bred.len() == count,
        decreases cfg.elite_count - k,
    {
        let g = src.remove(0);
        assert(g == prev@[k as int]);
        pop.push(g);
        proof {
            assert(src@ =~= prev@.subrange(k + 1, prev@.len() as int));
            assert forall|x: int| 0 <= x < pop@.len() implies genome_ok(*opt, #[trigger] pop@[x]) by {
                if x == pop@.len() - 1 {
                    assert(pop@[x] == prev@[k as int]);
                }
            }
            assert forall|x: int| 0 <= x < k + 1 implies pop@[count + x] == #[trigger] prev@[x] by {
                if x == k {
                    assert(pop@[count + x] == prev@[k as int]);
                }
            }
            assert(pop@.subrange(0, count as int) =~= bred);
        }
        k = k + 1;
    }
    proof {
        assert(order@.to_multiset() == sus(rank_weights(prev@.len() as int), count as int, off).to_multiset());
        assert(crossed(*opt, order@, prev@, children_view));
        assert(mutated(*opt, children_view, pop@.subrange(0, count as int)));
    }
    pop
}

/// Evolves a population for `generation_count` generations and returns it
/// scored, best first. The size stays `pop_size`; with at least one elite,
/// the best fitness never falls below any fitness of the population given.
#[verifier::spinoff_prover]
pub fn evolve(
    fitness_state: TreeState,
    prev_pop: Vec<Genome>,
    opt: &Optimization,
    cfg: Config,
    rng: &mut rand::XorShiftRng,
) -> (r: Vec<Genome>)
    requires
        engine_ready(*opt, fitness_state),
        cfg.valid(),
        prev_pop@.len() == cfg.pop_size,
        all_ok(*opt, prev_pop@),
    ensures
        r@.len() == cfg.pop_size,
        all_ok(*opt, r@),
        ranked(r@),
        cfg.elite_count > 0 ==> forall|j: int|
            0 <= j < prev_pop@.len() ==> fit(r@[0]) >= #[trigger] score(fitness_state, *opt, prev_pop@[j]),
        exists|pops: Seq<Seq<Genome>>, bred: Seq<Seq<Genome>>|
            {
                &&& pops.len() == cfg.generation_count + 1
                &&& bred.len() == cfg.generation_count
                &&& filled_from(fitness_state, *opt, prev_pop@, pops[0])
                &&& forall|g: int|
                    0 <= g < cfg.generation_count ==> bred_generation(*opt, cfg, pops[g], #[trigger] bred[g])
                        && filled_from(fitness_state, *opt, bred[g], pops[g + 1])
                &&& r@ == pops[cfg.generation_count as int]
            },
{
    let ghost orig = prev_pop@;
    let mut prev = fill_fitnesses(&fitness_state, prev_pop, opt);
    let ghost mut pops: Seq<Seq<Genome>> = seq![prev@];
    let ghost mut breds: Seq<Seq<Genome>> = seq![];
    let mut generation: usize = 0;
    while generation < cfg.generation_count
        invariant
            engine_ready(*opt, fitness_state),
            cfg.valid(),
            orig.len() == cfg.pop_size,
            prev@.len() == cfg.pop_size,
            all_ok(*opt, prev@),
            ranked(prev@),
            cfg.elite_count > 0 ==> forall|j: int|
                0 <= j < orig.len() ==> fit(prev@[0]) >= #[trigger] score(fitness_state, *opt, orig[j]),
            generation <= cfg.generation_count,
            pops.len() == generation + 1,
            breds.len() == generation,
            filled_from(fitness_state, *opt, orig, pops[0]),
            forall|g: int|
                0 <= g < generation ==> bred_generation(*opt, cfg, pops[g], #[trigger] breds[g]) && filled_from(
                    fitness_state,
                    *opt,
                    breds[g],
                    pops[g + 1],
                ),
            pops[generation as int] == prev@,
        decreases cfg.generation_count - generation,
    {
        let ghost best = prev@[0];
        let next = next_generation(prev, opt, cfg, rng);
        proof {
            if cfg.elite_count > 0 {
                let e = cfg.pop_size - cfg.elite_count;
                assert(next@[e + 0] == prev@[0]);
                assert(next@[e] == best);
                assert(score(fitness_state, *opt, next@[e]) == fit(best));
            }
        }
        let ghost next_view = next@;
        let ghost prev_view = prev@;
        prev = fill_fitnesses(&fitness_state, next, opt);
        proof {
            let pops0 = pops;
            let breds0 = breds;
            pops = pops.push(prev@);
            breds = breds.push(next_view);
            assert forall|g: int|
                0 <= g < generation + 1 implies bred_generation(*opt, cfg, pops[g], #[trigger] breds[g]) && filled_from(
                    fitness_state,
                    *opt,
                    breds[g],
                    pops[g + 1],
                ) by {
                if g < generation {
                    assert(pops[g] == pops0[g] && breds[g] == breds0[g] && pops[g + 1] == pops0[g + 1]);
                }
            }
        }
        proof {
            if cfg.elite_count > 0 {
                let e = cfg.pop_size - cfg.elite_count;
                assert(fit(prev@[0]) >= score(fitness_state, *opt, next@[e]));
            }
        }
        generation = generation + 1;
    }
    let r = prev;
    proof {
        assert(pops.len() == cfg.generation_count + 1);
        assert(breds.len() == cfg.generation_count);
        assert(r@ == pops[cfg.generation_count as int]);
        assert(forall|g: int|
            0 <= g < cfg.generation_count ==> bred_generation(*opt, cfg, pops[g], #[trigger] breds[g]) && filled_from(
                fitness_state,
                *opt,
                breds[g],
                pops[g + 1],
            ));
    }
    r
}

} // verus!
