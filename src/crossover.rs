use vstd::prelude::*;

use crate::genome::{sorted, Activity, Genome, Optimization};
use crate::tuneables::CROSSOVER_COUNT;

verus! {

/// Where a cursor at `i` stops when it takes every activity starting no
/// later than `t`.
pub open spec fn advance(s: Seq<Activity>, i: int, t: i64) -> int
    decreases s.len() - i,
{
    if 0 <= i < s.len() && s[i].start <= t {
        advance(s, i + 1, t)
    } else {
        i
    }
}

/// The cursor into `s` after the first `k` cut points.
pub open spec fn cursor(s: Seq<Activity>, times: Seq<i64>, k: int) -> int
    decreases k,
{
    if k <= 0 {
        0
    } else {
        advance(s, cursor(s, times, k - 1), times[k - 1])
    }
}

/// Where segment `k` of `s` begins; past the last cut, the end of `s`.
pub open spec fn bound(s: Seq<Activity>, times: Seq<i64>, k: int) -> int {
    if k <= times.len() {
        cursor(s, times, k)
    } else {
        s.len() as int
    }
}

/// Segment `k` of `s`: what lies between cut points `k - 1` and `k`.
pub open spec fn piece(s: Seq<Activity>, times: Seq<i64>, k: int) -> Seq<Activity> {
    s.subrange(bound(s, times, k), bound(s, times, k + 1))
}

/// The first `k` segments of a child: even segments from `x`, odd ones from `y`.
pub open spec fn woven(x: Seq<Activity>, y: Seq<Activity>, times: Seq<i64>, k: int) -> Seq<Activity>
    decreases k,
{
    if k <= 0 {
        seq![]
    } else {
        woven(x, y, times, k - 1) + if (k - 1) % 2 == 0 {
            piece(x, times, k - 1)
        } else {
            piece(y, times, k - 1)
        }
    }
}

/// The child that starts from `x`, once all segments are in.
pub open spec fn child_of(x: Seq<Activity>, y: Seq<Activity>, times: Seq<i64>) -> Seq<Activity> {
    woven(x, y, times, times.len() + 1 as int)
}

pub open spec fn times_sorted(t: Seq<i64>) -> bool {
    forall|a: int, b: int| 0 <= a < b < t.len() ==> #[trigger] t[a] <= #[trigger] t[b]
}

proof fn lemma_advance(s: Seq<Activity>, i: int, t: i64)
    requires
        0 <= i <= s.len(),
    ensures
        i <= advance(s, i, t) <= s.len(),
        forall|m: int| i <= m < advance(s, i, t) ==> #[trigger] s[m].start <= t,
        advance(s, i, t) < s.len() ==> s[advance(s, i, t)].start > t,
    decreases s.len() - i,
{
    if i < s.len() && s[i].start <= t {
        lemma_advance(s, i + 1, t);
    }
}

proof fn lemma_cursor(s: Seq<Activity>, times: Seq<i64>, k: int)
    requires
        0 <= k <= times.len(),
    ensures
        0 <= cursor(s, times, k) <= s.len(),
        forall|j: int| 0 <= j <= k ==> cursor(s, times, j) <= #[trigger] cursor(s, times, k),
    decreases k,
{
    if k > 0 {
        lemma_cursor(s, times, k - 1);
        lemma_advance(s, cursor(s, times, k - 1), times[k - 1]);
    }
}

proof fn lemma_bound(s: Seq<Activity>, times: Seq<i64>, k: int)
    requires
        0 <= k,
    ensures
        0 <= bound(s, times, k) <= bound(s, times, k + 1) <= s.len(),
{
    if k + 1 <= times.len() {
        lemma_cursor(s, times, k + 1);
    } else if k <= times.len() {
        lemma_cursor(s, times, k);
    }
}

/// Every activity of either parent lands in exactly one of the two children:
/// the children together hold the same multiset of activities as the parents.
pub proof fn lemma_crossover_conserves(a: Seq<Activity>, b: Seq<Activity>, times: Seq<i64>)
    ensures
        (child_of(a, b, times) + child_of(b, a, times)).to_multiset() == (a + b).to_multiset(),
{
    broadcast use vstd::seq_lib::group_to_multiset_ensures;

    let n = times.len() + 1 as int;
    lemma_woven_multiset(a, b, times, n);
    lemma_bound(a, times, times.len() as int);
    lemma_bound(b, times, times.len() as int);
    assert(a.subrange(0, bound(a, times, n)) =~= a);
    assert(b.subrange(0, bound(b, times, n)) =~= b);
    vstd::seq_lib::lemma_multiset_commutative(child_of(a, b, times), child_of(b, a, times));
    vstd::seq_lib::lemma_multiset_commutative(a, b);
}

proof fn lemma_woven_multiset(a: Seq<Activity>, b: Seq<Activity>, times: Seq<i64>, k: int)
    requires
        0 <= k <= times.len() + 1,
    ensures
        woven(a, b, times, k).to_multiset().add(woven(b, a, times, k).to_multiset()) == a.subrange(
            0,
            bound(a, times, k),
        ).to_multiset().add(b.subrange(0, bound(b, times, k)).to_multiset()),
    decreases k,
{
    broadcast use vstd::seq_lib::group_to_multiset_ensures;

    if k == 0 {
        assert(a.subrange(0, 0) =~= Seq::<Activity>::empty());
        assert(b.subrange(0, 0) =~= Seq::<Activity>::empty());
        assert(woven(a, b, times, 0) =~= Seq::<Activity>::empty());
        assert(woven(b, a, times, 0) =~= Seq::<Activity>::empty());
    } else {
        let j = k - 1;
        lemma_woven_multiset(a, b, times, j);
        lemma_bound(a, times, j);
        lemma_bound(b, times, j);
        let pa = piece(a, times, j);
        let pb = piece(b, times, j);
        let wa = woven(a, b, times, j);
        let wb = woven(b, a, times, j);
        let a0 = a.subrange(0, bound(a, times, j));
        let b0 = b.subrange(0, bound(b, times, j));
        assert(a.subrange(0, bound(a, times, k)) =~= a0 + pa);
        assert(b.subrange(0, bound(b, times, k)) =~= b0 + pb);
        vstd::seq_lib::lemma_multiset_commutative(a0, pa);
        vstd::seq_lib::lemma_multiset_commutative(b0, pb);
        if j % 2 == 0 {
            assert(woven(a, b, times, k) == wa + pa);
            assert(woven(b, a, times, k) == wb + pb);
            vstd::seq_lib::lemma_multiset_commutative(wa, pa);
            vstd::seq_lib::lemma_multiset_commutative(wb, pb);
        } else {
            assert(woven(a, b, times, k) == wa + pb);
            assert(woven(b, a, times, k) == wb + pa);
            vstd::seq_lib::lemma_multiset_commutative(wa, pb);
            vstd::seq_lib::lemma_multiset_commutative(wb, pa);
        }
        let lhs = woven(a, b, times, k).to_multiset().add(woven(b, a, times, k).to_multiset());
        let rhs = a.subrange(0, bound(a, times, k)).to_multiset().add(
            b.subrange(0, bound(b, times, k)).to_multiset(),
        );
        assert forall|v: Activity| #[trigger] lhs.count(v) == rhs.count(v) by {
            assert(wa.to_multiset().add(wb.to_multiset()).count(v) == a0.to_multiset().add(
                b0.to_multiset(),
            ).count(v));
        }
        assert(lhs =~= rhs);
    }
}

/// Segment `k` of a sorted sequence starts after cut point `k - 1` and, but
/// for the last segment, no later than cut point `k`.
proof fn lemma_piece_range(s: Seq<Activity>, times: Seq<i64>, k: int)
    requires
        sorted(s),
        0 <= k <= times.len(),
    ensures
        forall|m: int|
            0 <= m < piece(s, times, k).len() ==> (k < times.len() ==> #[trigger] piece(
                s,
                times,
                k,
            )[m].start <= times[k]) && (k > 0 ==> piece(s, times, k)[m].start > times[k - 1]),
{
    lemma_bound(s, times, k);
    let p = piece(s, times, k);
    let lo = bound(s, times, k);
    if k < times.len() {
        lemma_cursor(s, times, k);
        lemma_advance(s, cursor(s, times, k), times[k]);
    }
    if k > 0 {
        lemma_cursor(s, times, k - 1);
        lemma_advance(s, cursor(s, times, k - 1), times[k - 1]);
    }
    assert forall|m: int| 0 <= m < p.len() implies (k < times.len() ==> #[trigger] p[m].start
        <= times[k]) && (k > 0 ==> p[m].start > times[k - 1]) by {
        assert(p[m] == s[lo + m]);
        if k > 0 {
            let c = cursor(s, times, k);
            if c < s.len() && lo + m > c {
                assert(s[c].start <= s[lo + m].start);
            }
        }
    }
}

/// With sorted parents and sorted cut points, both children are sorted.
pub proof fn lemma_crossover_sorted(a: Seq<Activity>, b: Seq<Activity>, times: Seq<i64>)
    requires
        sorted(a),
        sorted(b),
        times_sorted(times),
    ensures
        sorted(child_of(a, b, times)),
        sorted(child_of(b, a, times)),
{
    lemma_woven_sorted(a, b, times, times.len() + 1 as int);
    lemma_woven_sorted(b, a, times, times.len() + 1 as int);
}

proof fn lemma_woven_sorted(x: Seq<Activity>, y: Seq<Activity>, times: Seq<i64>, k: int)
    requires
        sorted(x),
        sorted(y),
        times_sorted(times),
        0 <= k <= times.len() + 1,
    ensures
        sorted(woven(x, y, times, k)),
        1 <= k <= times.len() ==> forall|m: int|
            0 <= m < woven(x, y, times, k).len() ==> #[trigger] woven(x, y, times, k)[m].start
                <= times[k - 1],
    decreases k,
{
    if k > 0 {
        let j = k - 1;
        lemma_woven_sorted(x, y, times, j);
        let w = woven(x, y, times, j);
        let src = if j % 2 == 0 {
            x
        } else {
            y
        };
        let p = piece(src, times, j);
        lemma_piece_range(src, times, j);
        lemma_bound(src, times, j);
        assert(woven(x, y, times, k) == w + p);
        let v = w + p;
        assert forall|a: int, b: int| 0 <= a < b < v.len() implies #[trigger] v[a].start
            <= #[trigger] v[b].start by {
            if b < w.len() {
                assert(v[a] == w[a] && v[b] == w[b]);
            } else if a >= w.len() {
                assert(v[a] == p[a - w.len()] && v[b] == p[b - w.len()]);
                assert(p[a - w.len()] == src[bound(src, times, j) + a - w.len()]);
                assert(p[b - w.len()] == src[bound(src, times, j) + b - w.len()]);
            } else {
                assert(v[a] == w[a]);
                assert(v[b] == p[b - w.len()]);
                assert(w[a].start <= times[j - 1]);
                assert(p[b - w.len()].start > times[j - 1]);
            }
        }
        if k <= times.len() {
            assert forall|m: int| 0 <= m < v.len() implies #[trigger] v[m].start <= times[k - 1] by {
                if m < w.len() {
                    assert(v[m] == w[m]);
                    assert(times[j - 1] <= times[j]);
                } else {
                    assert(v[m] == p[m - w.len()]);
                }
            }
        }
    }
}

/// Moves the activities of `src` from `i` on that start no later than `t`
/// into `dst`; returns where it stopped.
fn take_until(src: &Vec<Activity>, i: usize, t: i64, dst: &mut Vec<Activity>) -> (r: usize)
    requires
        i <= src@.len(),
    ensures
        r == advance(src@, i as int, t),
        final(dst)@ == old(dst)@ + src@.subrange(i as int, r as int),
{
    let mut j = i;
    while j < src.len() && src[j].start <= t
        invariant
            i <= j <= src@.len(),
            advance(src@, j as int, t) == advance(src@, i as int, t),
            dst@ == old(dst)@ + src@.subrange(i as int, j as int),
        decreases src@.len() - j,
    {
        dst.push(src[j]);
        assert(src@.subrange(i as int, j + 1) =~= src@.subrange(i as int, j as int).push(src@[j as int]));
        j = j + 1;
    }
    j
}

/// Moves the activities of `src` from `i` on into `dst`.
fn take_rest(src: &Vec<Activity>, i: usize, dst: &mut Vec<Activity>)
    requires
        i <= src@.len(),
    ensures
        final(dst)@ == old(dst)@ + src@.subrange(i as int, src@.len() as int),
{
    let mut j = i;
    while j < src.len()
        invariant
            i <= j <= src@.len(),
            dst@ == old(dst)@ + src@.subrange(i as int, j as int),
        decreases src@.len() - j,
    {
        dst.push(src[j]);
        assert(src@.subrange(i as int, j + 1) =~= src@.subrange(i as int, j as int).push(src@[j as int]));
        j = j + 1;
    }
}

/// Two children that take alternate time segments from the two parents:
/// the first child takes the first segment of `parent1`, the second of
/// `parent2`, and so on; the second child takes the others.
#[verifier::spinoff_prover]
pub fn crossover(parent1: &Genome, parent2: &Genome, times: &Vec<i64>) -> (r: (Genome, Genome))
    ensures
        r.0.pool@ == child_of(parent1.pool@, parent2.pool@, times@),
        r.1.pool@ == child_of(parent2.pool@, parent1.pool@, times@),
        r.0.cached_fitness is None,
        r.1.cached_fitness is None,
{
    let a = &parent1.pool;
    let b = &parent2.pool;
    let len = if a.len() >= b.len() {
        a.len()
    } else {
        b.len()
    };
    let mut result_a = Genome::new_empty(len);
    let mut result_b = Genome::new_empty(len);
    let mut ia: usize = 0;
    let mut ib: usize = 0;
    let mut k: usize = 0;
    proof {
        assert(woven(a@, b@, times@, 0) =~= Seq::<Activity>::empty());
        assert(woven(b@, a@, times@, 0) =~= Seq::<Activity>::empty());
    }
    while k < times.len()
        invariant
            k <= times@.len(),
            ia == cursor(a@, times@, k as int),
            ib == cursor(b@, times@, k as int),
            ia <= a@.len(),
            ib <= b@.len(),
            result_a.pool@ == woven(a@, b@, times@, k as int),
            result_b.pool@ == woven(b@, a@, times@, k as int),
            result_a.cached_fitness is None,
            result_b.cached_fitness is None,
        decreases times@.len() - k,
    {
        let t = times[k];
        proof {
            lemma_cursor(a@, times@, k + 1);
            lemma_cursor(b@, times@, k + 1);
            lemma_advance(a@, ia as int, t);
            lemma_advance(b@, ib as int, t);
        }
        if k % 2 == 0 {
            ia = take_until(a, ia, t, &mut result_a.pool);
            ib = take_until(b, ib, t, &mut result_b.pool);
        } else {
            ia = take_until(a, ia, t, &mut result_b.pool);
            ib = take_until(b, ib, t, &mut result_a.pool);
        }
        k = k + 1;
    }
    if k % 2 == 0 {
        take_rest(a, ia, &mut result_a.pool);
        take_rest(b, ib, &mut result_b.pool);
    } else {
        take_rest(a, ia, &mut result_b.pool);
        take_rest(b, ib, &mut result_a.pool);
    }
    (result_a, result_b)
}

/// The moments `draws` in ascending order.
pub fn sort_times(draws: &Vec<i64>) -> (r: Vec<i64>)
    ensures
        times_sorted(r@),
        r@.to_multiset() == draws@.to_multiset(),
{
    let mut v: Vec<i64> = Vec::new();
    let mut n: usize = 0;
    proof {
        v@.to_multiset_ensures();
        vstd::multiset::lemma_multiset_empty_len(v@.to_multiset());
        assert(draws@.subrange(0, 0) =~= Seq::<i64>::empty());
        Seq::<i64>::empty().to_multiset_ensures();
        vstd::multiset::lemma_multiset_empty_len(Seq::<i64>::empty().to_multiset());
    }
    while n < draws.len()
        invariant
            n <= draws@.len(),
            v@.len() == n,
            times_sorted(v@),
            v@.to_multiset() == draws@.subrange(0, n as int).to_multiset(),
        decreases draws@.len() - n,
    {
        let t = draws[n];
        let ghost before = v@;
        v.push(t);
        proof {
            before.to_multiset_ensures();
            draws@.subrange(0, n as int).to_multiset_ensures();
            assert(draws@.subrange(0, n + 1) =~= draws@.subrange(0, n as int).push(t));
        }
        let mut j: usize = n;
        while j > 0 && v[j - 1] > v[j]
            invariant
                v@.len() == n + 1,
                0 <= j <= n,
                v@.to_multiset() == draws@.subrange(0, n + 1).to_multiset(),
                forall|a: int, b: int| 0 <= a < b <= n && a != j && b != j ==> #[trigger] v@[a] <= #[trigger] v@[b],
                forall|b: int| j < b <= n ==> v@[j as int] < #[trigger] v@[b],
                j > 0 && j < n ==> v@[j - 1] <= v@[j + 1],
            decreases j,
        {
            let a = v[j - 1];
            let b = v[j];
            let ghost pre = v@;
            v.set(j - 1, b);
            v.set(j, a);
            proof {
                assert(v@ =~= pre.update(j - 1, b).update(j as int, a));
                crate::genome::lemma_swap_multiset(pre, j - 1, j as int);
            }
            j = j - 1;
        }
        proof {
            assert forall|a: int, b: int| 0 <= a < b < v@.len() implies #[trigger] v@[a] <= #[trigger] v@[b] by {
                if b == j && a < j - 1 {
                    assert(v@[a] <= v@[j - 1]);
                }
            }
        }
        n = n + 1;
    }
    proof {
        assert(draws@.subrange(0, draws@.len() as int) =~= draws@);
    }
    v
}

/// `count` moments drawn from the horizon, in ascending order.
pub fn random_times(opt: &Optimization, count: usize, rng: &mut rand::XorShiftRng) -> (r: Vec<i64>)
    requires
        opt.wf(),
        opt.start < opt.end,
    ensures
        r@.len() == count,
        times_sorted(r@),
        forall|k: int| 0 <= k < r@.len() ==> opt.start <= #[trigger] r@[k] < opt.end,
        exists|draws: Seq<i64>|
            draws.len() == count && (forall|k: int| 0 <= k < draws.len() ==> opt.start <= #[trigger] draws[k] < opt.end)
                && r@.to_multiset() == draws.to_multiset(),
{
    let mut draws: Vec<i64> = Vec::with_capacity(count);
    let mut n: usize = 0;
    while n < count
        invariant
            opt.wf(),
            opt.start < opt.end,
            n <= count,
            draws@.len() == n,
            forall|k: int| 0 <= k < draws@.len() ==> opt.start <= #[trigger] draws@[k] < opt.end,
        decreases count - n,
    {
        let t = opt.random_time(rng);
        draws.push(t);
        n = n + 1;
    }
    let r = sort_times(&draws);
    proof {
        draws@.to_multiset_ensures();
        r@.to_multiset_ensures();
        assert forall|k: int| 0 <= k < r@.len() implies opt.start <= #[trigger] r@[k] < opt.end by {
            assert(r@.contains(r@[k]));
            assert(r@.to_multiset().count(r@[k]) > 0);
            assert(draws@.contains(r@[k]));
        }
    }
    r
}

/// `u` and `v` are the two children of `a` and `b` for some sorted set of
/// `CROSSOVER_COUNT` cut points within the horizon.
pub open spec fn bred_from(opt: Optimization, a: Genome, b: Genome, u: Genome, v: Genome) -> bool {
    &&& exists|times: Seq<i64>|
        times.len() == CROSSOVER_COUNT && times_sorted(times) && (forall|k: int|
            0 <= k < times.len() ==> opt.start <= #[trigger] times[k] < opt.end) && u.pool@ == child_of(
            a.pool@,
            b.pool@,
            times,
        ) && v.pool@ == child_of(b.pool@, a.pool@, times)
    &&& u.cached_fitness is None
    &&& v.cached_fitness is None
}

/// Crossover at `CROSSOVER_COUNT` cut points drawn from the horizon.
pub fn crossover_rand(opt: &Optimization, parent1: &Genome, parent2: &Genome, rng: &mut rand::XorShiftRng) -> (r: (Genome, Genome))
    requires
        opt.wf(),
        opt.start < opt.end,
    ensures
        bred_from(*opt, *parent1, *parent2, r.0, r.1),
{
    let times = random_times(opt, CROSSOVER_COUNT, rng);
    crossover(parent1, parent2, &times)
}

} // verus!
