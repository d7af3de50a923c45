use vstd::prelude::*;

use crate::genome::{sorted, within, Activity, ActivityType, Fitness, Genome, Optimization, FITNESS_ONE, MAX_SECONDS};
use crate::tree::{NodeRef, NodeType, Tree};

verus! {

/// Most projects whose balance is scored.
pub const MAX_PROJECTS: usize = 65_536;

/// Focus time accumulated per node (indexed by handle) and in all, in seconds.
#[derive(Debug, Clone)]
pub struct TreeState {
    pub nodestates: Vec<u64>,
    pub total_time_working: u64,
}

impl TreeState {
    /// The state fits the context's tree and its times are in range.
    pub open spec fn wf(&self, opt: &Optimization) -> bool {
        &&& self.nodestates@.len() == opt.tree.nodes@.len()
        &&& self.total_time_working <= MAX_SECONDS
        &&& forall|i: int| 0 <= i < self.nodestates@.len() ==> #[trigger] self.nodestates@[i] <= MAX_SECONDS
    }

    /// No focus time anywhere.
    pub fn new(opt: &Optimization) -> (r: TreeState)
        ensures
            r.wf(opt),
            r.total_time_working == 0,
            forall|i: int| 0 <= i < r.nodestates@.len() ==> #[trigger] r.nodestates@[i] == 0,
    {
        let n = opt.tree.len();
        let mut v: Vec<u64> = Vec::with_capacity(n);
        let mut i: usize = 0;
        while i < n
            invariant
                i <= n,
                v@.len() == i,
                forall|k: int| 0 <= k < i ==> #[trigger] v@[k] == 0,
            decreases n - i,
        {
            v.push(0);
            i = i + 1;
        }
        TreeState { nodestates: v, total_time_working: 0 }
    }
}

/// Consecutive pairs of a sequence: `(a, b)`, `(b, c)`, ...
pub struct PairIter<T: Copy> {
    pub items: Vec<T>,
    pub pos: usize,
}

impl<T: Copy> PairIter<T> {
    /// Pairs of `items`, which must not be empty.
    pub fn new(items: Vec<T>) -> (r: PairIter<T>)
        requires
            items@.len() > 0,
        ensures
            r.items@ == items@,
            r.pos == 1,
    {
        PairIter { items, pos: 1 }
    }

    /// The next pair, if any.
    pub fn next(&mut self) -> (r: Option<(T, T)>)
        requires
            1 <= old(self).pos <= old(self).items@.len(),
        ensures
            final(self).items@ == old(self).items@,
            1 <= final(self).pos <= final(self).items@.len(),
            old(self).pos < old(self).items@.len() ==> r == Some((
                old(self).items@[old(self).pos - 1],
                old(self).items@[old(self).pos as int],
            )) && final(self).pos == old(self).pos + 1,
            old(self).pos == old(self).items@.len() ==> r is None && final(self).pos == old(self).pos,
    {
        if self.pos < self.items.len() {
            let pair = (self.items[self.pos - 1], self.items[self.pos]);
            self.pos = self.pos + 1;
            Some(pair)
        } else {
            None
        }
    }
}

/// The node an activity refers to, if any.
pub open spec fn node_of(a: Activity) -> Option<NodeRef> {
    match a.activitytype {
        ActivityType::Nothing => None,
        ActivityType::WorkOn(n) => Some(n),
        ActivityType::Finish(n) => Some(n),
    }
}

/// Every node the activities refer to is in the tree.
pub open spec fn refs_valid(s: Seq<Activity>, tree: Tree) -> bool {
    forall|i: int| 0 <= i < s.len() ==> (#[trigger] node_of(s[i]) matches Some(n) ==> tree.valid(n))
}

/// Penalties earned by the pair of activities starting at `i`: finishing is
/// not productive, working twice in a row on one node lacks variety, and
/// work outside a project lacks context.
pub open spec fn pair_penalties(tree: Tree, s: Seq<Activity>, i: int) -> nat {
    match s[i].activitytype {
        ActivityType::Nothing => 0,
        ActivityType::Finish(_) => 1,
        ActivityType::WorkOn(n) => (if s[i + 1].activitytype == ActivityType::WorkOn(n) {
            1nat
        } else {
            0nat
        }) + (if tree.nodes@[n.0 as int].nodetype != NodeType::Project {
            1nat
        } else {
            0nat
        }),
    }
}

/// Penalties of the first `k` pairs.
pub open spec fn penalties(tree: Tree, s: Seq<Activity>, k: int) -> nat
    decreases k,
{
    if k <= 0 {
        0
    } else {
        penalties(tree, s, k - 1) + pair_penalties(tree, s, k - 1)
    }
}

/// Seconds worked on `node` over the first `k` pairs: a `WorkOn` lasts
/// until the next activity starts.
pub open spec fn worked(s: Seq<Activity>, node: int, k: int) -> int
    decreases k,
{
    if k <= 0 {
        0
    } else {
        worked(s, node, k - 1) + if s[k - 1].activitytype matches ActivityType::WorkOn(n) && n.0 == node {
            s[k].start - s[k - 1].start
        } else {
            0
        }
    }
}

/// Seconds worked on anything over the first `k` pairs.
pub open spec fn worked_total(s: Seq<Activity>, k: int) -> int
    decreases k,
{
    if k <= 0 {
        0
    } else {
        worked_total(s, k - 1) + if s[k - 1].activitytype is WorkOn {
            s[k].start - s[k - 1].start
        } else {
            0
        }
    }
}

/// Number of pairs of consecutive activities.
pub open spec fn pairs(s: Seq<Activity>) -> int {
    if s.len() == 0 {
        0
    } else {
        s.len() - 1
    }
}

/// `f` reduced by five percent `k` times, rounding down each time.
pub open spec fn penalize(f: int, k: nat) -> int
    decreases k,
{
    if k == 0 {
        f
    } else {
        penalize(f, (k - 1) as nat) * 95 / 100
    }
}

/// The focus on each project once the genome's work is added.
pub open spec fn project_times(initial: TreeState, opt: Optimization, s: Seq<Activity>) -> Seq<int> {
    Seq::new(
        opt.projects@.len(),
        |j: int|
            initial.nodestates@[opt.projects@[j].0 as int] + worked(s, opt.projects@[j].0 as int, pairs(s)),
    )
}

pub open spec fn sum(t: Seq<int>, k: int) -> int
    decreases k,
{
    if k <= 0 {
        0
    } else {
        sum(t, k - 1) + t[k - 1]
    }
}

/// `n^2` times the summed squared deviations from the mean, over the first `k`.
pub open spec fn deviation(t: Seq<int>, n: int, total: int, k: int) -> int
    decreases k,
{
    if k <= 0 {
        0
    } else {
        deviation(t, n, total, k - 1) + (n * t[k - 1] - total) * (n * t[k - 1] - total)
    }
}

/// `r` is the integer square root of `x`.
pub open spec fn is_isqrt(r: int, x: int) -> bool {
    0 <= r && r * r <= x < (r + 1) * (r + 1)
}

pub open spec fn isqrt(x: int) -> int {
    choose|r: int| is_isqrt(r, x)
}

/// Balance quality `1 / (1 + cv)` as a fraction: with `S` the summed times
/// and `n` their count, the coefficient of variation is
/// `sqrt(n * sum (t - mean)^2) / S`, so the quality is `S / (S + sqrt(...))`.
/// No projects: quality 1; no work: quality 0.
pub open spec fn balance_quality(t: Seq<int>) -> (int, int) {
    let n = t.len() as int;
    let s = sum(t, n);
    if n == 0 {
        (1, 1)
    } else if s == 0 {
        (0, 1)
    } else {
        (s, s + isqrt(deviation(t, n, s, n) / n))
    }
}

/// The fixed-point score of a sorted genome: 100, reduced five percent per
/// penalty, scaled by the balance quality, then by the share of the horizon
/// spent working, rounding down after each step.
pub open spec fn fitness_spec(initial: TreeState, opt: Optimization, s: Seq<Activity>) -> int {
    let penalized = penalize(100 * FITNESS_ONE, penalties(opt.tree, s, pairs(s)));
    let (num, den) = balance_quality(project_times(initial, opt, s));
    let balanced = penalized * num / den;
    let working = initial.total_time_working + worked_total(s, pairs(s));
    balanced * working / (opt.end - opt.start)
}

proof fn lemma_sum_equal(t: Seq<int>, c: int, k: int)
    requires
        0 <= k <= t.len(),
        forall|i: int| 0 <= i < t.len() ==> #[trigger] t[i] == c,
    ensures
        sum(t, k) == k * c,
    decreases k,
{
    if k > 0 {
        lemma_sum_equal(t, c, k - 1);
        assert(k * c == (k - 1) * c + c) by (nonlinear_arith);
    } else {
        assert(k * c == 0) by (nonlinear_arith)
            requires
                k == 0,
        ;
    }
}

proof fn lemma_deviation_zero(t: Seq<int>, n: int, total: int, k: int)
    requires
        0 <= k <= t.len(),
        forall|i: int| 0 <= i < t.len() ==> n * #[trigger] t[i] == total,
    ensures
        deviation(t, n, total, k) == 0,
    decreases k,
{
    if k > 0 {
        lemma_deviation_zero(t, n, total, k - 1);
        assert(n * t[k - 1] - total == 0);
        assert((n * t[k - 1] - total) * (n * t[k - 1] - total) == 0) by (nonlinear_arith)
            requires
                n * t[k - 1] - total == 0,
        ;
    }
}

/// Equal focus on every project gives a balance quality of exactly one; no
/// focus at all gives exactly zero.
pub proof fn lemma_balance_boundary(t: Seq<int>)
    requires
        t.len() > 0,
    ensures
        (forall|i: int, j: int| 0 <= i < t.len() && 0 <= j < t.len() ==> #[trigger] t[i] == #[trigger] t[j])
            && sum(t, t.len() as int) != 0 ==> balance_quality(t).0 == balance_quality(t).1,
        sum(t, t.len() as int) == 0 ==> balance_quality(t).0 == 0,
{
    let n = t.len() as int;
    if (forall|i: int, j: int| 0 <= i < n && 0 <= j < n ==> #[trigger] t[i] == #[trigger] t[j]) && sum(t, n) != 0 {
        let c = t[0];
        assert forall|i: int| 0 <= i < n implies #[trigger] t[i] == c by {
            assert(t[i] == t[0]);
        }
        lemma_sum_equal(t, c, n);
        let s = sum(t, n);
        assert forall|i: int| 0 <= i < n implies n * #[trigger] t[i] == s by {
            assert(t[i] == c);
            assert(n * c == s);
        }
        lemma_deviation_zero(t, n, s, n);
        assert(0int / n == 0);
        lemma_isqrt_unique(0, 0);
    }
}

proof fn lemma_isqrt_unique(r: int, x: int)
    requires
        is_isqrt(r, x),
    ensures
        isqrt(x) == r,
{
    let q = isqrt(x);
    assert(is_isqrt(q, x));
    if q < r {
        assert((q + 1) * (q + 1) <= r * r) by (nonlinear_arith)
            requires
                0 <= q < r,
        ;
    } else if q > r {
        assert((r + 1) * (r + 1) <= q * q) by (nonlinear_arith)
            requires
                0 <= r < q,
        ;
    }
}

/// The integer square root of `x`, by bisection.
pub fn integer_sqrt(x: u128) -> (r: u128)
    ensures
        is_isqrt(r as int, x as int),
        r as int == isqrt(x as int),
{
    let mut lo: u128 = 0;
    let mut hi: u128 = 0x1_0000_0000_0000_0000;
    assert(x < hi * hi) by (nonlinear_arith)
        requires
            hi == 0x1_0000_0000_0000_0000u128,
            x <= u128::MAX,
    ;
    while hi - lo > 1
        invariant
            lo < hi <= 0x1_0000_0000_0000_0000,
            lo * lo <= x,
            x < hi * hi,
        decreases hi - lo,
    {
        let mid = lo + (hi - lo) / 2;
        assert(mid * mid <= 0x1_0000_0000_0000_0000 * 0x1_0000_0000_0000_0000) by (nonlinear_arith)
            requires
                mid <= 0x1_0000_0000_0000_0000,
        ;
        let small = mid <= 0xFFFF_FFFF_FFFF_FFFF;
        if small {
            assert(mid * mid <= 0xFFFF_FFFF_FFFF_FFFF * 0xFFFF_FFFF_FFFF_FFFF) by (nonlinear_arith)
                requires
                    mid <= 0xFFFF_FFFF_FFFF_FFFF,
            ;
        }
        if small && mid * mid <= x {
            lo = mid;
        } else {
            if mid > 0xFFFF_FFFF_FFFF_FFFF {
                assert(mid * mid >= 0x1_0000_0000_0000_0000 * 0x1_0000_0000_0000_0000) by (nonlinear_arith)
                    requires
                        mid >= 0x1_0000_0000_0000_0000,
                ;
            }
            hi = mid;
        }
    }
    assert(hi == lo + 1);
    proof {
        lemma_isqrt_unique(lo as int, x as int);
    }
    lo
}

proof fn lemma_worked_bounds(s: Seq<Activity>, node: int, k: int)
    requires
        sorted(s),
        0 <= k < s.len(),
    ensures
        0 <= worked(s, node, k) <= worked_total(s, k) <= s[k].start - s[0].start,
    decreases k,
{
    if k > 0 {
        lemma_worked_bounds(s, node, k - 1);
        assert(s[k - 1].start <= s[k].start);
    }
}

/// The balance quality of focus times, as the fraction `(num, den)` that
/// `balance_quality` gives.
#[verifier::spinoff_prover]
pub fn balance_quality_of(times: &Vec<u64>) -> (r: (u128, u128))
    requires
        times@.len() <= MAX_PROJECTS,
        forall|k: int| 0 <= k < times@.len() ==> #[trigger] times@[k] <= 2 * MAX_SECONDS,
    ensures
        (r.0 as int, r.1 as int) == balance_quality(times@.map_values(|t: u64| t as int)),
        r.0 <= r.1,
        0 < r.1 <= 0x1_0000_0000_0000_0000_0000,
{
    let ghost tv = times@.map_values(|t: u64| t as int);
    let np = times.len();
    if np == 0 {
        return (1, 1);
    }
    let mut sum_t: u128 = 0;
    let mut j: usize = 0;
    while j < np
        invariant
            np == times@.len(),
            tv == times@.map_values(|t: u64| t as int),
            np <= MAX_PROJECTS,
            forall|k: int| 0 <= k < times@.len() ==> #[trigger] times@[k] <= 2 * MAX_SECONDS,
            j <= np,
            sum_t == sum(tv, j as int),
            sum_t <= j * (2 * MAX_SECONDS),
        decreases np - j,
    {
        proof {
            assert(sum_t + 2 * MAX_SECONDS <= (j + 1) * (2 * MAX_SECONDS)) by (nonlinear_arith)
                requires
                    sum_t <= j * (2 * MAX_SECONDS),
            ;
            assert((j + 1) * (2 * MAX_SECONDS) <= MAX_PROJECTS * (2 * MAX_SECONDS)) by (nonlinear_arith)
                requires
                    j + 1 <= MAX_PROJECTS,
            ;
            assert(tv[j as int] == times@[j as int]);
        }
        sum_t = sum_t + times[j] as u128;
        j = j + 1;
    }
    if sum_t == 0 {
        return (0, 1);
    }
    proof {
        assert(sum_t <= 0x10000 * (2 * MAX_SECONDS)) by (nonlinear_arith)
            requires
                np <= MAX_PROJECTS,
                sum_t <= np * (2 * MAX_SECONDS),
        ;
    }
    let nn = np as u128;
    let mut dev: u128 = 0;
    let mut j: usize = 0;
    while j < np
        invariant
            np == times@.len(),
            tv == times@.map_values(|t: u64| t as int),
            0 < np <= MAX_PROJECTS,
            nn == np,
            forall|k: int| 0 <= k < times@.len() ==> #[trigger] times@[k] <= 2 * MAX_SECONDS,
            j <= np,
            sum_t == sum(tv, np as int),
            sum_t <= 0x10000 * (2 * MAX_SECONDS),
            dev == deviation(tv, np as int, sum_t as int, j as int),
            dev <= j * 0x400_0000_0000_0000_0000_0000_0000,
        decreases np - j,
    {
        let t = times[j] as u128;
        assert(t == tv[j as int]);
        assert(nn * t <= 0x10000 * (2 * MAX_SECONDS)) by (nonlinear_arith)
            requires
                nn <= MAX_PROJECTS,
                t <= 2 * MAX_SECONDS,
        ;
        let a = nn * t;
        let d = if a >= sum_t {
            a - sum_t
        } else {
            sum_t - a
        };
        assert(d * d == (np * tv[j as int] - sum_t) * (np * tv[j as int] - sum_t)) by (nonlinear_arith)
            requires
                d == a - sum_t || d == sum_t - a,
                a == np * tv[j as int],
        ;
        assert(d * d <= 0x400_0000_0000_0000_0000_0000_0000) by (nonlinear_arith)
            requires
                d <= 0x10000 * (2 * MAX_SECONDS),
        ;
        assert(dev + d * d <= (j + 1) * 0x400_0000_0000_0000_0000_0000_0000) by (nonlinear_arith)
            requires
                dev <= j * 0x400_0000_0000_0000_0000_0000_0000,
                d * d <= 0x400_0000_0000_0000_0000_0000_0000,
        ;
        assert((j + 1) * 0x400_0000_0000_0000_0000_0000_0000 <= 0x10000 * 0x400_0000_0000_0000_0000_0000_0000) by (nonlinear_arith)
            requires
                j + 1 <= MAX_PROJECTS,
        ;
        dev = dev + d * d;
        j = j + 1;
    }
    let q = dev / nn;
    let root = integer_sqrt(q);
    assert(root * root <= q);
    assert(root <= 0x1_0000_0000_0000_0000) by (nonlinear_arith)
        requires
            root * root <= q,
            q <= u128::MAX,
            root >= 0,
    ;
    (sum_t, sum_t + root)
}

/// Scores a genome against the historical state: penalties for wasteful
/// patterns, the balance of focus across projects, and the share of the
/// horizon spent working.
#[verifier::spinoff_prover]
pub fn fitness(initial_state: &TreeState, opt: &Optimization, genome: &Genome) -> (r: Fitness)
    requires
        opt.wf(),
        opt.start < opt.end,
        opt.projects@.len() <= MAX_PROJECTS,
        initial_state.wf(opt),
        sorted(genome.pool@),
        within(genome.pool@, opt.start as int, opt.end as int),
        refs_valid(genome.pool@, opt.tree),
    ensures
        r == fitness_spec(*initial_state, *opt, genome.pool@),
{
    let pool = &genome.pool;
    let ghost s = pool@;
    let mut state = initial_state.nodestates.clone();
    proof {
        assert(state@ =~= initial_state.nodestates@);
    }
    let mut total: u64 = initial_state.total_time_working;
    let mut f: u128 = 100 * FITNESS_ONE;
    let n = pool.len();
    let last = if n == 0 {
        0
    } else {
        n - 1
    };
    let mut i: usize = 0;
    proof {
        if n > 0 {
            assert(s[0].start <= s[0].start);
        }
    }
    while i < last
        invariant
            opt.wf(),
            initial_state.wf(opt),
            s == pool@,
            sorted(s),
            within(s, opt.start as int, opt.end as int),
            refs_valid(s, opt.tree),
            n == s.len(),
            last == pairs(s),
            i <= last,
            state@.len() == initial_state.nodestates@.len(),
            f == penalize(100 * FITNESS_ONE, penalties(opt.tree, s, i as int)),
            f <= 100 * FITNESS_ONE,
            total == initial_state.total_time_working + worked_total(s, i as int),
            forall|p: int|
                0 <= p < state@.len() ==> #[trigger] state@[p] == initial_state.nodestates@[p] + worked(
                    s,
                    p,
                    i as int,
                ),
        decreases last - i,
    {
        let first = pool[i];
        let second = pool[i + 1];
        let ghost k = penalties(opt.tree, s, i as int);
        let ghost big = 100 * FITNESS_ONE as int;
        proof {
            assert(penalize(big, k + 1) == penalize(big, k) * 95 / 100);
            assert(penalize(big, k + 2) == penalize(big, k + 1) * 95 / 100);
            assert(penalties(opt.tree, s, i + 1) == k + pair_penalties(opt.tree, s, i as int));
            lemma_worked_bounds(s, 0, i + 1);
            assert(s[i as int].start <= s[i + 1].start);
            assert(opt.start <= s[0].start);
            assert(s[i + 1].start <= opt.end);
        }
        match first.activitytype {
            ActivityType::Nothing => {},
            ActivityType::Finish(_) => {
                f = f * 95 / 100;
            },
            ActivityType::WorkOn(node) => {
                assert(node_of(s[i as int]) == Some(node));
                if second.activitytype == ActivityType::WorkOn(node) {
                    f = f * 95 / 100;
                }
                if opt.tree.nodes[node.0].nodetype != NodeType::Project {
                    f = f * 95 / 100;
                }
                let delta = (second.start - first.start) as u64;
                proof {
                    lemma_worked_bounds(s, node.0 as int, i + 1);
                }
                total = total + delta;
                let cur = state[node.0];
                state.set(node.0, cur + delta);
            },
        }
        proof {
            assert forall|p: int| 0 <= p < state@.len() implies #[trigger] state@[p] == initial_state.nodestates@[p]
                + worked(s, p, i + 1) by {
            }
        }
        i = i + 1;
    }
    proof {
        if n > 0 {
            lemma_worked_bounds(s, 0, last as int);
            assert(opt.start <= s[0].start);
            assert(s[last as int].start <= opt.end);
        }
    }
    // the focus on each project, then their balance
    let ghost times = project_times(*initial_state, *opt, s);
    let np = opt.projects.len();
    let mut times_vec: Vec<u64> = Vec::with_capacity(np);
    let mut j: usize = 0;
    while j < np
        invariant
            opt.wf(),
            initial_state.wf(opt),
            np == opt.projects@.len(),
            j <= np,
            times == project_times(*initial_state, *opt, s),
            s == pool@,
            sorted(s),
            n == s.len(),
            within(s, opt.start as int, opt.end as int),
            last == pairs(s),
            state@.len() == initial_state.nodestates@.len(),
            forall|p: int|
                0 <= p < state@.len() ==> #[trigger] state@[p] == initial_state.nodestates@[p] + worked(
                    s,
                    p,
                    last as int,
                ),
            times_vec@.len() == j,
            forall|k: int| 0 <= k < j ==> #[trigger] times_vec@[k] as int == times[k],
            forall|k: int| 0 <= k < j ==> #[trigger] times_vec@[k] <= 2 * MAX_SECONDS,
            f == penalize(100 * FITNESS_ONE, penalties(opt.tree, s, last as int)),
            f <= 100 * FITNESS_ONE,
            total == initial_state.total_time_working + worked_total(s, last as int),
        decreases np - j,
    {
        let p = opt.projects[j];
        proof {
            lemma_project_valid(opt, j as int);
            if n > 0 {
                lemma_worked_bounds(s, p.0 as int, last as int);
                assert(opt.start <= s[0].start);
                assert(s[last as int].start <= opt.end);
            }
        }
        let t = state[p.0];
        assert(t == times[j as int]);
        times_vec.push(t);
        j = j + 1;
    }
    proof {
        assert(times_vec@.map_values(|t: u64| t as int) =~= times);
    }
    let (num, den) = balance_quality_of(&times_vec);
    assert(f * num <= 100 * FITNESS_ONE * den) by (nonlinear_arith)
        requires
            f <= 100 * FITNESS_ONE,
            num <= den,
    ;
    assert(100 * FITNESS_ONE * den <= 100 * FITNESS_ONE * 0x1_0000_0000_0000_0000_0000) by (nonlinear_arith)
        requires
            den <= 0x1_0000_0000_0000_0000_0000,
    ;
    let balanced = f * num / den;
    proof {
        assert(balanced <= 100 * FITNESS_ONE) by (nonlinear_arith)
            requires
                balanced == (f * num) as int / den as int,
                f * num <= 100 * FITNESS_ONE * den,
                den > 0,
        ;
    }
    let working = total as u128;
    let dur = (opt.end - opt.start) as u128;
    proof {
        if n > 0 {
            lemma_worked_bounds(s, 0, last as int);
            assert(opt.start <= s[0].start);
            assert(s[last as int].start <= opt.end);
        }
        assert(balanced * working <= 100 * FITNESS_ONE * (2 * MAX_SECONDS)) by (nonlinear_arith)
            requires
                balanced <= 100 * FITNESS_ONE,
                working <= 2 * MAX_SECONDS,
        ;
    }
    balanced * working / dur
}

proof fn lemma_project_valid(opt: &Optimization, j: int)
    requires
        opt.wf(),
        0 <= j < opt.projects@.len(),
    ensures
        opt.tree.valid(opt.projects@[j]),
{
    let nodes = opt.tree.nodes@;
    let sub = crate::tree::subtree(nodes, opt.root.0 as int);
    let pred = |r: NodeRef| 0 <= r.0 < nodes.len() && nodes[r.0 as int].nodetype == NodeType::Project;
    sub.lemma_filter_pred(pred, j);
}

} // verus!
