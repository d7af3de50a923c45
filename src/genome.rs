use vstd::prelude::*;

use crate::parse_tree::parse;
use crate::tree::{projects_of, subtree, NodeRef, NodeType, Tree};

verus! {

/// A fitness score in fixed point: `FITNESS_ONE` stands for 1.0, so a
/// perfect schedule scores `100 * FITNESS_ONE`.
pub type Fitness = u128;

pub const FITNESS_ONE: u128 = 1_000_000_000;

/// The longest horizon, and the largest accumulated focus time, in seconds,
/// that scores are computed for (about 2177 years).
pub const MAX_SECONDS: u64 = 68_719_476_736;

/// What a scheduled activity does.
#[derive(Debug, Clone, Copy, PartialEq, Eq, Structural)]
pub enum ActivityType {
    Nothing,
    WorkOn(NodeRef),
    Finish(NodeRef),
}

/// A scheduled activity; `start` is in seconds since the Unix epoch.
#[derive(Debug, Clone, Copy, PartialEq, Eq, Structural)]
pub struct Activity {
    pub start: i64,
    pub activitytype: ActivityType,
}

/// A candidate schedule.
#[derive(Debug, Clone)]
pub struct Genome {
    pub pool: Vec<Activity>,
    pub cached_fitness: Option<Fitness>,
}

/// Activities are in order of their start times.
pub open spec fn sorted(s: Seq<Activity>) -> bool {
    forall|a: int, b: int| 0 <= a < b < s.len() ==> #[trigger] s[a].start <= #[trigger] s[b].start
}

/// `t` is `s` reordered by `perm`, where activities that start together
/// keep their order.
pub open spec fn stable_order(s: Seq<Activity>, t: Seq<Activity>, perm: Seq<int>) -> bool {
    &&& perm.len() == s.len() && t.len() == s.len()
    &&& forall|k: int| 0 <= k < t.len() ==> 0 <= #[trigger] perm[k] < s.len() && t[k] == s[perm[k]]
    &&& forall|a: int, b: int| 0 <= a < t.len() && 0 <= b < t.len() && a != b ==> #[trigger] perm[a] != #[trigger] perm[b]
    &&& forall|a: int, b: int|
        0 <= a < b < t.len() && #[trigger] t[a].start == #[trigger] t[b].start ==> perm[a] < perm[b]
}

/// No activity starts later than the last one.
pub open spec fn last_starts_latest(s: Seq<Activity>) -> bool {
    forall|k: int| 0 <= k < s.len() ==> #[trigger] s[k].start <= s.last().start
}

/// Every activity starts within `[lo, hi]`.
pub open spec fn within(s: Seq<Activity>, lo: int, hi: int) -> bool {
    forall|a: int| 0 <= a < s.len() ==> lo <= #[trigger] s[a].start <= hi
}

impl PartialEq for Genome {
    fn eq(&self, other: &Genome) -> (r: bool) {
        if self.pool.len() != other.pool.len() {
            return false;
        }
        let mut i: usize = 0;
        while i < self.pool.len()
            invariant
                self.pool@.len() == other.pool@.len(),
                i <= self.pool@.len(),
                forall|k: int| 0 <= k < i ==> self.pool@[k] == other.pool@[k],
            decreases self.pool@.len() - i,
        {
            if self.pool[i] != other.pool[i] {
                return false;
            }
            i = i + 1;
        }
        assert(self.pool@ =~= other.pool@);
        true
    }
}

impl vstd::std_specs::cmp::PartialEqSpecImpl for Genome {
    open spec fn obeys_eq_spec() -> bool {
        true
    }

    open spec fn eq_spec(&self, other: &Genome) -> bool {
        self.pool@ == other.pool@
    }
}

impl Genome {
    /// A genome with no activities.
    pub fn new_empty(expected_size: usize) -> (r: Genome)
        ensures
            r.pool@.len() == 0,
            r.cached_fitness is None,
    {
        Genome { pool: Vec::with_capacity(expected_size), cached_fitness: None }
    }

    /// A genome holding only the two sentinels: nothing at the start of the
    /// horizon and nothing at its end.
    pub fn new(opt: &Optimization) -> (r: Genome)
        ensures
            r.pool@ == seq![
                Activity { start: opt.start, activitytype: ActivityType::Nothing },
                Activity { start: opt.end, activitytype: ActivityType::Nothing },
            ],
            r.cached_fitness is None,
    {
        let mut result = Genome::new_empty(2);
        result.pool.push(Activity { start: opt.start, activitytype: ActivityType::Nothing });
        result.pool.push(Activity { start: opt.end, activitytype: ActivityType::Nothing });
        assert(result.pool@ =~= seq![
            Activity { start: opt.start, activitytype: ActivityType::Nothing },
            Activity { start: opt.end, activitytype: ActivityType::Nothing },
        ]);
        result
    }

    /// A genome holding the given activities, in the given order.
    pub fn preinit(entries: Vec<(i64, ActivityType)>) -> (r: Genome)
        ensures
            r.pool@.len() == entries@.len(),
            forall|k: int|
                0 <= k < entries@.len() ==> #[trigger] r.pool@[k] == (Activity {
                    start: entries@[k].0,
                    activitytype: entries@[k].1,
                }),
            r.cached_fitness is None,
    {
        let mut result = Genome::new_empty(entries.len());
        let mut i: usize = 0;
        while i < entries.len()
            invariant
                i <= entries@.len(),
                result.pool@.len() == i,
                result.cached_fitness is None,
                forall|k: int|
                    0 <= k < i ==> #[trigger] result.pool@[k] == (Activity {
                        start: entries@[k].0,
                        activitytype: entries@[k].1,
                    }),
            decreases entries@.len() - i,
        {
            let (start, activitytype) = entries[i];
            result.pool.push(Activity { start, activitytype });
            i = i + 1;
        }
        result
    }

    /// The same genome with its fitness set.
    pub fn with_fitness(self, fitness: Fitness) -> (r: Genome)
        ensures
            r.pool@ == self.pool@,
            r.cached_fitness == Some(fitness),
    {
        let mut g = self;
        g.cached_fitness = Some(fitness);
        g
    }

    /// Puts the activities in order of their start times, keeping the order
    /// of activities that start together.
    pub fn sort(&mut self)
        ensures
            sorted(final(self).pool@),
            final(self).pool@.to_multiset() == old(self).pool@.to_multiset(),
            final(self).cached_fitness == old(self).cached_fitness,
            sorted(old(self).pool@) ==> final(self).pool@ == old(self).pool@,
            old(self).pool@.len() > 0 && last_starts_latest(old(self).pool@) ==> final(self).pool@.last()
                == old(self).pool@.last(),
            exists|perm: Seq<int>| stable_order(old(self).pool@, final(self).pool@, perm),
    {
        let ghost orig = self.pool@;
        let n = self.pool.len();
        let mut i: usize = 1;
        let ghost mut perm: Seq<int> = Seq::new(n as nat, |k: int| k);
        if n == 0 {
            assert(stable_order(orig, self.pool@, perm));
            return;
        }
        while i < n
            invariant
                n == self.pool@.len(),
                1 <= i <= n,
                sorted(self.pool@.subrange(0, i as int)),
                self.pool@.to_multiset() == old(self).pool@.to_multiset(),
                self.cached_fitness == old(self).cached_fitness,
                orig == old(self).pool@,
                forall|k: int| i <= k < n ==> #[trigger] self.pool@[k] == orig[k],
                sorted(orig) ==> self.pool@ == orig,
                i == 1 ==> self.pool@ == orig,
                i == n && last_starts_latest(orig) ==> self.pool@[n - 1] == orig[n - 1],
                perm.len() == n,
                forall|k: int| 0 <= k < n ==> #[trigger] self.pool@[k] == orig[perm[k]],
                forall|k: int| 0 <= k < i ==> 0 <= #[trigger] perm[k] < i,
                forall|k: int| i <= k < n ==> #[trigger] perm[k] == k,
                forall|a: int, b: int| 0 <= a < i && 0 <= b < i && a != b ==> #[trigger] perm[a] != #[trigger] perm[b],
                forall|a: int, b: int|
                    0 <= a < b < i && #[trigger] self.pool@[a].start == #[trigger] self.pool@[b].start ==> perm[a] < perm[b],
            decreases n - i,
        {
            let mut j: usize = i;
            proof {
                let s = self.pool@.subrange(0, i as int);
                assert forall|a: int, b: int|
                    0 <= a < b <= i && a != j && b != j implies #[trigger] self.pool@[a].start
                        <= #[trigger] self.pool@[b].start by {
                    assert(s[a] == self.pool@[a]);
                    assert(s[b] == self.pool@[b]);
                }
            }
            while j > 0 && self.pool[j - 1].start > self.pool[j].start
                invariant
                    n == self.pool@.len(),
                    0 <= j <= i < n,
                    self.pool@.to_multiset() == old(self).pool@.to_multiset(),
                    self.cached_fitness == old(self).cached_fitness,
                    // the first i + 1 elements, but for the one at j, are sorted
                    forall|a: int, b: int|
                        0 <= a < b <= i && a != j && b != j ==> #[trigger] self.pool@[a].start
                            <= #[trigger] self.pool@[b].start,
                    // the element at j starts before everything after it
                    forall|b: int| j < b <= i ==> self.pool@[j as int].start < #[trigger] self.pool@[b].start,
                    // and what lies around j is ordered
                    j > 0 && j < i ==> self.pool@[j - 1].start <= self.pool@[j + 1].start,
                    orig == old(self).pool@,
                    forall|k: int| i < k < n ==> #[trigger] self.pool@[k] == orig[k],
                    j == i ==> self.pool@[i as int] == orig[i as int],
                    sorted(orig) ==> self.pool@ == orig && j == i,
                    i == n - 1 && last_starts_latest(orig) ==> j == i,
                    perm.len() == n,
                    forall|k: int| 0 <= k < n ==> #[trigger] self.pool@[k] == orig[perm[k]],
                    perm[j as int] == i,
                    forall|k: int| 0 <= k <= i && k != j ==> 0 <= #[trigger] perm[k] < i,
                    forall|k: int| i < k < n ==> #[trigger] perm[k] == k,
                    forall|a: int, b: int| 0 <= a <= i && 0 <= b <= i && a != b ==> #[trigger] perm[a] != #[trigger] perm[b],
                    forall|a: int, b: int|
                        0 <= a < b <= i && a != j && b != j && #[trigger] self.pool@[a].start == #[trigger] self.pool@[b].start
                            ==> perm[a] < perm[b],
                decreases j,
            {
                proof {
                    if sorted(orig) {
                        assert(orig[j - 1].start <= orig[j as int].start);
                    }
                    if i == n - 1 && last_starts_latest(orig) {
                        let x = self.pool@[j - 1];
                        self.pool@.to_multiset_ensures();
                        orig.to_multiset_ensures();
                        assert(self.pool@.contains(x));
                        assert(self.pool@.to_multiset().count(x) > 0);
                        assert(orig.contains(x));
                        let w = choose|w: int| 0 <= w < orig.len() && orig[w] == x;
                        assert(orig[w].start <= orig.last().start);
                    }
                }
                let a = self.pool[j - 1];
                let b = self.pool[j];
                let ghost before = self.pool@;
                self.pool.set(j - 1, b);
                self.pool.set(j, a);
                proof {
                    assert(self.pool@ =~= before.update(j - 1, b).update(j as int, a));
                    lemma_swap_multiset(before, j - 1, j as int);
                    let p0 = perm;
                    perm = perm.update(j - 1, p0[j as int]).update(j as int, p0[j - 1]);
                    assert forall|x: int, y: int|
                        0 <= x < y <= i && x != j - 1 && y != j - 1 && #[trigger] self.pool@[x].start == #[trigger] self.pool@[y].start
                        implies perm[x] < perm[y] by {
                        let ox = if x == j {
                            j - 1
                        } else {
                            x
                        };
                        let oy = if y == j {
                            j - 1
                        } else {
                            y
                        };
                        assert(self.pool@[x] == before[ox] && self.pool@[y] == before[oy]);
                        assert(perm[x] == p0[ox] && perm[y] == p0[oy]);
                        assert(ox < oy && ox != j && oy != j);
                    }
                }
                j = j - 1;
            }
            proof {
                if i == n - 1 && last_starts_latest(orig) {
                    assert(self.pool@[n - 1] == orig[n - 1]);
                }
                let s = self.pool@.subrange(0, i + 1);
                assert forall|a: int, b: int| 0 <= a < b < s.len() implies #[trigger] s[a].start
                    <= #[trigger] s[b].start by {
                    if a == j {
                    } else if b == j {
                        if a < j - 1 {
                            assert(self.pool@[a].start <= self.pool@[j - 1].start);
                        }
                    }
                }
                assert forall|a: int, b: int|
                    0 <= a < b < i + 1 && #[trigger] self.pool@[a].start == #[trigger] self.pool@[b].start implies perm[a]
                        < perm[b] by {
                    if b == j {
                        assert(perm[a] < i);
                    }
                }
            }
            i = i + 1;
        }
        assert(self.pool@.subrange(0, n as int) =~= self.pool@);
        assert(stable_order(orig, self.pool@, perm));
    }
}

/// Swapping two elements keeps the multiset of a sequence.
pub proof fn lemma_swap_multiset<A>(s: Seq<A>, a: int, b: int)
    requires
        0 <= a < b < s.len(),
    ensures
        s.update(a, s[b]).update(b, s[a]).to_multiset() == s.to_multiset(),
{
    broadcast use vstd::seq_lib::group_to_multiset_ensures;

    let t = s.update(a, s[b]);
    assert(t.to_multiset() == s.to_multiset().remove(s[a]).insert(s[b]));
    assert(t.update(b, s[a]).to_multiset() == t.to_multiset().remove(t[b]).insert(s[a]));
    assert(t[b] == s[b]);
    assert(s.to_multiset().remove(s[a]).insert(s[b]).remove(s[b]).insert(s[a]) =~= s.to_multiset());
}

/// What an optimization run works on: the horizon `[start, end]` in seconds,
/// the task tree, and its projects in pre-order.
pub struct Optimization {
    pub start: i64,
    pub end: i64,
    pub tree: Tree,
    pub root: NodeRef,
    pub projects: Vec<NodeRef>,
}

impl Optimization {
    pub open spec fn wf(&self) -> bool {
        &&& self.tree.wf()
        &&& self.tree.valid(self.root)
        &&& self.projects@ == projects_of(self.tree.nodes@, subtree(self.tree.nodes@, self.root.0 as int))
        &&& self.start <= self.end
        &&& self.end - self.start <= MAX_SECONDS
    }

    /// The context for the horizon `[start, end]` over the tree below `root`.
    pub fn new(start: i64, end: i64, tree: Tree, root: NodeRef) -> (r: Optimization)
        requires
            tree.wf(),
            tree.valid(root),
            start <= end,
            end - start <= MAX_SECONDS,
        ensures
            r.wf(),
            r.start == start,
            r.end == end,
            r.tree == tree,
            r.root == root,
    {
        let mut projects = Vec::new();
        tree.walk_projects(root, &mut projects);
        assert(projects@ =~= projects_of(tree.nodes@, subtree(tree.nodes@, root.0 as int)));
        Optimization { start, end, tree, root, projects }
    }

    /// Length of the horizon in seconds.
    pub fn duration(&self) -> (r: i64)
        requires
            self.wf(),
        ensures
            r == self.end - self.start,
            0 <= r <= MAX_SECONDS,
    {
        self.end - self.start
    }

    /// A moment drawn uniformly from `[start, end)`.
    pub fn random_time(&self, rng: &mut rand::XorShiftRng) -> (r: i64)
        requires
            self.wf(),
            self.start < self.end,
        ensures
            self.start <= r < self.end,
    {
        let d = crate::random::draw_below(rng, self.duration() as u64);
        self.start + d as i64
    }
}

/// Builds a tree from its indented description.
pub fn node_from_str(s: &str) -> (r: Result<(Tree, NodeRef), String>)
    ensures
        crate::parse_tree::parse_outcome(s@, r),
{
    parse(s)
}

} // verus!
