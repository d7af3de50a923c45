use vstd::prelude::*;

use crate::text::{same_text, BecomeString};

verus! {

/// The role of a node in the project hierarchy.
#[derive(Debug, Clone, Copy, PartialEq, Eq, Structural)]
pub enum NodeType {
    Root,
    Project,
    Task,
}

/// A handle to a node: its position in the tree's arena. Two handles are
/// equal exactly when they name the same node, whatever the nodes hold.
#[derive(Debug, Clone, Copy, PartialEq, Eq, Hash, Structural)]
pub struct NodeRef(pub usize);

/// One node of the hierarchy, stored in a `Tree` arena.
#[derive(Debug, Clone, PartialEq)]
pub struct Node {
    pub nodetype: NodeType,
    pub id: String,
    pub name: Option<String>,
    pub children: Vec<NodeRef>,
    /// Number of strict descendants.
    pub subtreesize: usize,
}

/// An arena owning every node. A node's children are always older than the
/// node itself, and each node is the child of at most one parent.
pub struct Tree {
    pub nodes: Vec<Node>,
    /// The nodes that already have a parent.
    pub owned: Ghost<Set<int>>,
}

/// The handle of the `k`-th child of node `i`.
pub open spec fn child(nodes: Seq<Node>, i: int, k: int) -> int {
    nodes[i].children@[k].0 as int
}

/// Node `i` followed by all its descendants, in pre-order.
pub open spec fn subtree(nodes: Seq<Node>, i: int) -> Seq<NodeRef>
    decreases i, nodes[i].children.len() + 1,
{
    if 0 <= i < nodes.len() {
        seq![NodeRef(i as usize)] + below(nodes, i, nodes[i].children.len() as int)
    } else {
        seq![]
    }
}

/// The subtrees of the first `k` children of node `i`, in pre-order.
pub open spec fn below(nodes: Seq<Node>, i: int, k: int) -> Seq<NodeRef>
    decreases i, k,
{
    if 0 <= i < nodes.len() && 0 < k <= nodes[i].children.len() {
        let c = child(nodes, i, k - 1);
        below(nodes, i, k - 1) + if 0 <= c < i {
            subtree(nodes, c)
        } else {
            seq![]
        }
    } else {
        seq![]
    }
}

/// All strict descendants of node `i`, in pre-order.
pub open spec fn descendants(nodes: Seq<Node>, i: int) -> Seq<NodeRef> {
    below(nodes, i, nodes[i].children.len() as int)
}

/// No node is a child twice: each has at most one parent, and appears once
/// among its children.
pub open spec fn single_parents(nodes: Seq<Node>) -> bool {
    forall|i1: int, k1: int, i2: int, k2: int|
        #![trigger child(nodes, i1, k1), child(nodes, i2, k2)]
        0 <= i1 < nodes.len() && 0 <= k1 < nodes[i1].children.len() && 0 <= i2 < nodes.len() && 0 <= k2
            < nodes[i2].children.len() && child(nodes, i1, k1) == child(nodes, i2, k2) ==> i1 == i2 && k1 == k2
}

/// The first `k` children together with their descendants, counted.
pub open spec fn children_weight(nodes: Seq<Node>, cs: Seq<NodeRef>, k: int) -> int
    decreases k,
{
    if k <= 0 {
        0
    } else {
        children_weight(nodes, cs, k - 1) + 1 + nodes[cs[k - 1].0 as int].subtreesize
    }
}

/// Node `x` is a child of some node.
pub open spec fn has_parent(nodes: Seq<Node>, x: int) -> bool {
    exists|i: int, k: int| 0 <= i < nodes.len() && 0 <= k < nodes[i].children.len() && #[trigger] child(nodes, i, k) == x
}

/// Sum of the subtree sizes of the first `n` nodes that have no parent.
pub open spec fn forest_weight(nodes: Seq<Node>, owned: Set<int>, n: int) -> int
    decreases n,
{
    if n <= 0 {
        0
    } else {
        forest_weight(nodes, owned, n - 1) + if owned.contains(n - 1) {
            0
        } else {
            1 + nodes[n - 1].subtreesize
        }
    }
}

/// Subtrees only look at older nodes, so appending nodes changes none of them.
pub proof fn lemma_subtree_prefix(big: Seq<Node>, small: Seq<Node>, i: int)
    requires
        small.len() <= big.len(),
        small =~= big.subrange(0, small.len() as int),
        0 <= i < small.len(),
    ensures
        subtree(big, i) == subtree(small, i),
    decreases i, small[i].children.len() + 1,
{
    lemma_below_prefix(big, small, i, small[i].children.len() as int);
}

pub proof fn lemma_below_prefix(big: Seq<Node>, small: Seq<Node>, i: int, k: int)
    requires
        small.len() <= big.len(),
        small =~= big.subrange(0, small.len() as int),
        0 <= i < small.len(),
        0 <= k <= small[i].children.len(),
    ensures
        below(big, i, k) == below(small, i, k),
    decreases i, k,
{
    assert(big[i] == small[i]);
    if k > 0 {
        lemma_below_prefix(big, small, i, k - 1);
        let c = child(small, i, k - 1);
        if 0 <= c < i {
            lemma_subtree_prefix(big, small, c);
        }
    }
}

/// With every node owned, the weight is zero.
proof fn lemma_weight_all_owned(nodes: Seq<Node>, owned: Set<int>, n: int)
    requires
        forall|x: int| 0 <= x < n ==> owned.contains(x),
    ensures
        forest_weight(nodes, owned, n) == 0,
    decreases n,
{
    if n > 0 {
        lemma_weight_all_owned(nodes, owned, n - 1);
    }
}

/// With one node `r` unowned, the weight is its subtree.
pub proof fn lemma_weight_single(nodes: Seq<Node>, owned: Set<int>, n: int, r: int)
    requires
        0 <= r < n,
        !owned.contains(r),
        forall|x: int| 0 <= x < n && x != r ==> owned.contains(x),
    ensures
        forest_weight(nodes, owned, n) == 1 + nodes[r].subtreesize,
    decreases n,
{
    if n - 1 == r {
        lemma_weight_all_owned(nodes, owned, n - 1);
    } else {
        lemma_weight_single(nodes, owned, n - 1, r);
    }
}

/// Weights depend only on the first `n` nodes.
proof fn lemma_weight_prefix(big: Seq<Node>, small: Seq<Node>, owned: Set<int>, n: int)
    requires
        0 <= n <= small.len() <= big.len(),
        small =~= big.subrange(0, small.len() as int),
    ensures
        forest_weight(big, owned, n) == forest_weight(small, owned, n),
    decreases n,
{
    if n > 0 {
        lemma_weight_prefix(big, small, owned, n - 1);
        assert(big[n - 1] == small[n - 1]);
    }
}

/// Giving node `c` a parent takes its subtree out of the weight.
proof fn lemma_weight_own(nodes: Seq<Node>, owned: Set<int>, c: int, n: int)
    requires
        0 <= c,
        !owned.contains(c),
    ensures
        forest_weight(nodes, owned.insert(c), n) == forest_weight(nodes, owned, n) - if c < n {
            1 + nodes[c].subtreesize
        } else {
            0
        },
    decreases n,
{
    if n > 0 {
        lemma_weight_own(nodes, owned, c, n - 1);
    }
}

proof fn lemma_weight_nonneg(nodes: Seq<Node>, owned: Set<int>, n: int)
    ensures
        forest_weight(nodes, owned, n) >= 0,
    decreases n,
{
    if n > 0 {
        lemma_weight_nonneg(nodes, owned, n - 1);
    }
}

impl Tree {
    /// Well-formedness of the arena.
    pub open spec fn wf(&self) -> bool {
        let nodes = self.nodes@;
        &&& forall|i: int, k: int|
            0 <= i < nodes.len() && 0 <= k < nodes[i].children.len() ==> #[trigger] child(
                nodes,
                i,
                k,
            ) < i
        &&& forall|i: int| 0 <= i < nodes.len() ==> #[trigger] nodes[i].subtreesize
            == descendants(nodes, i).len()
        &&& forall|x: int| #[trigger] self.owned@.contains(x) ==> 0 <= x < nodes.len()
        &&& forest_weight(nodes, self.owned@, nodes.len() as int) == nodes.len()
        &&& forall|i: int, k: int|
            0 <= i < nodes.len() && 0 <= k < nodes[i].children.len() ==> self.owned@.contains(
                #[trigger] child(nodes, i, k),
            )
        &&& single_parents(nodes)
        &&& nodes.len() <= usize::MAX
        &&& forall|x: int| #[trigger] self.owned@.contains(x) ==> has_parent(nodes, x)
    }

    /// `r` names a node of this arena.
    pub open spec fn valid(&self, r: NodeRef) -> bool {
        r.0 < self.nodes.len()
    }

    /// `r` names a node that has no parent yet.
    pub open spec fn free(&self, r: NodeRef) -> bool {
        self.valid(r) && !self.owned@.contains(r.0 as int)
    }

    /// The strict descendants of `r`, in pre-order.
    pub open spec fn spec_descendants(&self, r: NodeRef) -> Seq<NodeRef> {
        descendants(self.nodes@, r.0 as int)
    }

    /// An empty arena.
    pub fn new() -> (r: Tree)
        ensures
            r.wf(),
            r.nodes@.len() == 0,
    {
        Tree { nodes: Vec::new(), owned: Ghost(Set::empty()) }
    }

    /// Number of nodes in the arena.
    pub fn len(&self) -> (r: usize)
        ensures
            r == self.nodes@.len(),
    {
        self.nodes.len()
    }

    /// The node that `r` names.
    pub fn node(&self, r: NodeRef) -> (n: &Node)
        requires
            self.valid(r),
        ensures
            *n == self.nodes@[r.0 as int],
    {
        &self.nodes[r.0]
    }

    /// Adds a node with the given children, which must be distinct nodes
    /// without a parent; they become its children.
    #[verifier::spinoff_prover]
    pub fn add(
        &mut self,
        nodetype: NodeType,
        id: String,
        name: Option<String>,
        children: Vec<NodeRef>,
    ) -> (r: NodeRef)
        requires
            old(self).wf(),
            old(self).nodes@.len() < usize::MAX,
            forall|k: int| 0 <= k < children@.len() ==> old(self).free(#[trigger] children@[k]),
            children@.no_duplicates(),
        ensures
            final(self).wf(),
            r.0 == old(self).nodes@.len(),
            final(self).nodes@ == old(self).nodes@.push(final(self).nodes@[r.0 as int]),
            final(self).owned@ == old(self).owned@ + children@.map_values(|c: NodeRef| c.0 as int).to_set(),
            final(self).nodes@[r.0 as int].nodetype == nodetype,
            final(self).nodes@[r.0 as int].id == id,
            final(self).nodes@[r.0 as int].name == name,
            final(self).nodes@[r.0 as int].children == children,
            final(self).nodes@[r.0 as int].subtreesize == children_weight(
                old(self).nodes@,
                children@,
                children@.len() as int,
            ),
            subtree(final(self).nodes@, r.0 as int) == seq![r] + below(
                final(self).nodes@,
                r.0 as int,
                children@.len() as int,
            ),
    {
        let ghost old_nodes = self.nodes@;
        let ghost old_owned = self.owned@;
        let ghost n = old_nodes.len() as int;
        let ghost fresh = Node {
            nodetype,
            id: id,
            name: name,
            children: children,
            subtreesize: 0,
        };
        let ghost ext = old_nodes.push(fresh);
        let mut total: usize = 0;
        let mut j: usize = 0;
        let ghost mut owned = old_owned;
        proof {
            lemma_weight_nonneg(old_nodes, old_owned, n);
        }
        while j < children.len()
            invariant
                j <= children@.len(),
                self.nodes@ == old_nodes,
                old_nodes == old(self).nodes@,
                old_owned == old(self).owned@,
                ext.len() == n + 1,
                ext == old_nodes.push(fresh),
                fresh.children == children,
                n == old_nodes.len(),
                n < usize::MAX,
                forall|i: int, k: int|
                    0 <= i < n && 0 <= k < old_nodes[i].children.len() ==> #[trigger] child(
                        old_nodes,
                        i,
                        k,
                    ) < i,
                forall|i: int| 0 <= i < n ==> #[trigger] old_nodes[i].subtreesize
                    == descendants(old_nodes, i).len(),
                forall|k: int| 0 <= k < children@.len() ==> old_nodes.len() > (#[trigger] children@[k]).0,
                forall|k: int| j <= k < children@.len() ==> !owned.contains((#[trigger] children@[k]).0 as int),
                children@.no_duplicates(),
                owned == old_owned + children@.subrange(0, j as int).map_values(|c: NodeRef| c.0 as int).to_set(),
                forest_weight(old_nodes, owned, n) + total == n,
                forest_weight(old_nodes, owned, n) >= 0,
                total == below(ext, n, j as int).len(),
                total == children_weight(old_nodes, children@, j as int),
            decreases children@.len() - j,
        {
            let c = children[j];
            proof {
                lemma_weight_own(old_nodes, owned, c.0 as int, n);
                lemma_weight_nonneg(old_nodes, owned.insert(c.0 as int), n);
                lemma_subtree_prefix(ext, old_nodes, c.0 as int);
                assert(child(ext, n, j as int) == c.0);
                assert(below(ext, n, j + 1) == below(ext, n, j as int) + subtree(ext, c.0 as int));
                assert(subtree(old_nodes, c.0 as int).len() == 1 + descendants(old_nodes, c.0 as int).len());
                let s1 = children@.subrange(0, j as int);
                let s2 = children@.subrange(0, j + 1);
                assert(s2 == s1.push(c));
                assert(s2.map_values(|c: NodeRef| c.0 as int) == s1.map_values(|c: NodeRef| c.0 as int).push(c.0 as int));
                assert(s2.map_values(|c: NodeRef| c.0 as int).to_set() == s1.map_values(|c: NodeRef| c.0 as int).to_set().insert(c.0 as int)) by {
                    let a = s1.map_values(|c: NodeRef| c.0 as int);
                    assert(a.push(c.0 as int).to_set() =~= a.to_set().insert(c.0 as int)) by {
                        assert forall|x: int| a.push(c.0 as int).to_set().contains(x) <==> a.to_set().contains(x) || x == c.0 as int by {
                            if a.push(c.0 as int).to_set().contains(x) {
                                let w = choose|w: int| 0 <= w < a.push(c.0 as int).len() && a.push(c.0 as int)[w] == x;
                                if w < a.len() {
                                    assert(a[w] == x);
                                }
                            }
                            if a.to_set().contains(x) {
                                let w = choose|w: int| 0 <= w < a.len() && a[w] == x;
                                assert(a.push(c.0 as int)[w] == x);
                            }
                            if x == c.0 as int {
                                assert(a.push(c.0 as int)[a.len() as int] == x);
                            }
                        }
                    }
                }
                owned = owned.insert(c.0 as int);
                assert forall|k: int| j + 1 <= k < children@.len() implies !owned.contains((#[trigger] children@[k]).0 as int) by {
                    assert(children@[j as int] != children@[k]);
                }
            }
            total = total + 1 + self.nodes[c.0].subtreesize;
            j = j + 1;
        }
        let node = Node { nodetype, id, name, children, subtreesize: total };
        self.nodes.push(node);
        self.owned = Ghost(owned);
        proof {
            let nodes = self.nodes@;
            assert(old_nodes =~= nodes.subrange(0, n));
            assert(ext.subrange(0, n) =~= old_nodes);
            lemma_below_prefix(nodes, nodes, n, 0);
            // the new node and `fresh` differ only in their size
            assert forall|k: int| 0 <= k <= children@.len() implies below(nodes, n, k) == below(ext, n, k) by {
                lemma_below_same_children(nodes, ext, n, k);
            }
            assert forall|i: int| 0 <= i < n implies #[trigger] nodes[i].subtreesize
                == descendants(nodes, i).len() by {
                assert(nodes[i] == old_nodes[i]);
                lemma_below_prefix(nodes, old_nodes, i, old_nodes[i].children.len() as int);
            }
            assert forall|i: int, k: int|
                0 <= i < nodes.len() && 0 <= k < nodes[i].children.len() implies #[trigger] child(
                    nodes,
                    i,
                    k,
                ) < i by {
                if i < n {
                    assert(nodes[i] == old_nodes[i]);
                    assert(child(nodes, i, k) == child(old_nodes, i, k));
                } else {
                    assert(nodes[i].children@ == children@);
                    assert(child(nodes, i, k) == children@[k].0);
                }
            }
            lemma_weight_prefix(nodes, old_nodes, owned, n);
            let moved = children@.map_values(|c: NodeRef| c.0 as int);
            assert(children@.subrange(0, children@.len() as int) =~= children@);
            assert(owned == old_owned + moved.to_set());
            assert forall|x: int| #[trigger] owned.contains(x) implies has_parent(nodes, x) by {
                if old_owned.contains(x) {
                    assert(has_parent(old_nodes, x));
                    let (i, k) = choose|i: int, k: int|
                        0 <= i < old_nodes.len() && 0 <= k < old_nodes[i].children.len() && #[trigger] child(old_nodes, i, k)
                            == x;
                    assert(nodes[i] == old_nodes[i]);
                    assert(child(nodes, i, k) == x);
                } else {
                    assert(moved.to_set().contains(x));
                    let w = choose|w: int| 0 <= w < moved.len() && moved[w] == x;
                    assert(nodes[n].children@ == children@);
                    assert(child(nodes, n, w) == x);
                }
            }
            assert forall|i: int, k: int|
                0 <= i < nodes.len() && 0 <= k < nodes[i].children.len() implies owned.contains(
                    #[trigger] child(nodes, i, k),
                ) by {
                if i < n {
                    assert(nodes[i] == old_nodes[i]);
                    assert(child(nodes, i, k) == child(old_nodes, i, k));
                    assert(old_owned.contains(child(old_nodes, i, k)));
                } else {
                    assert(child(nodes, i, k) == moved[k]);
                    assert(moved.to_set().contains(moved[k]));
                }
            }
            assert forall|i1: int, k1: int, i2: int, k2: int|
                0 <= i1 < nodes.len() && 0 <= k1 < nodes[i1].children.len() && 0 <= i2 < nodes.len() && 0 <= k2
                    < nodes[i2].children.len() && #[trigger] child(nodes, i1, k1) == #[trigger] child(nodes, i2, k2)
                implies i1 == i2 && k1 == k2 by {
                if i1 < n {
                    assert(nodes[i1] == old_nodes[i1]);
                    assert(child(nodes, i1, k1) == child(old_nodes, i1, k1));
                }
                if i2 < n {
                    assert(nodes[i2] == old_nodes[i2]);
                    assert(child(nodes, i2, k2) == child(old_nodes, i2, k2));
                }
                if i1 < n && i2 == n {
                    assert(old_owned.contains(child(old_nodes, i1, k1)));
                    assert(children@[k2].0 == child(nodes, i2, k2));
                    assert(old(self).free(children@[k2]));
                }
                if i2 < n && i1 == n {
                    assert(old_owned.contains(child(old_nodes, i2, k2)));
                    assert(children@[k1].0 == child(nodes, i1, k1));
                    assert(old(self).free(children@[k1]));
                }
                if i1 == n && i2 == n && k1 != k2 {
                    assert(children@[k1] != children@[k2]);
                }
            }
            assert(children@.subrange(0, children@.len() as int) == children@);
        }
        NodeRef(self.nodes.len() - 1)
    }
}

/// Two arenas that agree on every node older than `i`, and on the children
/// of `i`, agree on what lies below `i`.
proof fn lemma_below_same_children(a: Seq<Node>, b: Seq<Node>, i: int, k: int)
    requires
        a.len() == b.len(),
        0 <= i < a.len(),
        a.subrange(0, i) =~= b.subrange(0, i),
        a[i].children == b[i].children,
        0 <= k <= a[i].children.len(),
    ensures
        below(a, i, k) == below(b, i, k),
    decreases k,
{
    if k > 0 {
        lemma_below_same_children(a, b, i, k - 1);
        let c = child(a, i, k - 1);
        if 0 <= c < i {
            let pa = a.subrange(0, i);
            lemma_subtree_prefix(a, pa, c);
            lemma_subtree_prefix(b, pa, c);
        }
    }
}

/// Below the first `m` children lies a prefix of what lies below the first `m2`.
pub proof fn lemma_below_mono(nodes: Seq<Node>, i: int, m: int, m2: int)
    requires
        0 <= i < nodes.len(),
        0 <= m <= m2 <= nodes[i].children.len(),
    ensures
        below(nodes, i, m).len() <= below(nodes, i, m2).len(),
        below(nodes, i, m) == below(nodes, i, m2).subrange(0, below(nodes, i, m).len() as int),
    decreases m2 - m,
{
    if m < m2 {
        lemma_below_mono(nodes, i, m, m2 - 1);
        let a = below(nodes, i, m2 - 1);
        let b = below(nodes, i, m2);
        assert(b.subrange(0, a.len() as int) =~= a);
        assert(b.subrange(0, below(nodes, i, m).len() as int) =~= a.subrange(
            0,
            below(nodes, i, m).len() as int,
        ));
    }
}

/// What lies below the first `m` children of `a` lies in one of their subtrees.
proof fn lemma_below_member(nodes: Seq<Node>, a: int, m: int, x: NodeRef)
    requires
        0 <= a < nodes.len(),
        0 <= m <= nodes[a].children.len(),
        below(nodes, a, m).contains(x),
    ensures
        exists|j: int| 0 <= j < m && 0 <= child(nodes, a, j) < a && #[trigger] subtree(nodes, child(nodes, a, j)).contains(x),
    decreases m,
{
    let prev = below(nodes, a, m - 1);
    let c = child(nodes, a, m - 1);
    let w = choose|w: int| 0 <= w < below(nodes, a, m).len() && below(nodes, a, m)[w] == x;
    if w < prev.len() {
        assert(prev[w] == x);
        lemma_below_member(nodes, a, m - 1, x);
    } else {
        assert(0 <= c < a);
        assert(subtree(nodes, c)[w - prev.len()] == x);
        assert(subtree(nodes, c).contains(x));
    }
}

/// The subtree of a child lies within the subtree of its parent.
proof fn lemma_child_subtree(nodes: Seq<Node>, a: int, j: int, x: NodeRef)
    requires
        0 <= a < nodes.len(),
        0 <= j < nodes[a].children.len(),
        0 <= child(nodes, a, j) < a,
        subtree(nodes, child(nodes, a, j)).contains(x),
    ensures
        subtree(nodes, a).contains(x),
{
    let len = nodes[a].children.len() as int;
    lemma_below_mono(nodes, a, j + 1, len);
    let pre = below(nodes, a, j);
    let sub = subtree(nodes, child(nodes, a, j));
    assert(below(nodes, a, j + 1) == pre + sub);
    let w = choose|w: int| 0 <= w < sub.len() && sub[w] == x;
    assert(below(nodes, a, j + 1)[pre.len() + w] == x);
    assert(below(nodes, a, len)[pre.len() + w] == x);
    assert(subtree(nodes, a)[1 + pre.len() + w] == x);
}

/// A node in the subtree of `a`, other than `a`, has its parent there too.
proof fn lemma_subtree_parent(t: Tree, a: int, x: int)
    requires
        t.wf(),
        0 <= a < t.nodes@.len(),
        subtree(t.nodes@, a).contains(NodeRef(x as usize)),
        0 <= x < t.nodes@.len(),
        x != a,
    ensures
        exists|p: int, k: int|
            0 <= p < t.nodes@.len() && 0 <= k < t.nodes@[p].children.len() && #[trigger] child(t.nodes@, p, k) == x
                && subtree(t.nodes@, p).contains(NodeRef(x as usize)) && subtree(t.nodes@, a).contains(
                NodeRef(p as usize),
            ),
    decreases a,
{
    let nodes = t.nodes@;
    let len = nodes[a].children.len() as int;
    let xr = NodeRef(x as usize);
    let sub = subtree(nodes, a);
    let w = choose|w: int| 0 <= w < sub.len() && sub[w] == xr;
    assert(w != 0);
    assert(below(nodes, a, len)[w - 1] == xr);
    assert(below(nodes, a, len).contains(xr));
    lemma_below_member(nodes, a, len, xr);
    let j = choose|j: int| 0 <= j < len && 0 <= child(nodes, a, j) < a && #[trigger] subtree(nodes, child(nodes, a, j)).contains(xr);
    let c = child(nodes, a, j);
    if c == x {
        assert(subtree(nodes, a)[0] == NodeRef(a as usize));
        assert(subtree(nodes, a).contains(NodeRef(a as usize)));
        assert(child(t.nodes@, a, j) == x);
        lemma_child_subtree(nodes, a, j, xr);
    } else {
        lemma_subtree_parent(t, c, x);
        let (p, k) = choose|p: int, k: int|
            0 <= p < nodes.len() && 0 <= k < nodes[p].children.len() && #[trigger] child(nodes, p, k) == x
                && subtree(nodes, p).contains(xr) && subtree(nodes, c).contains(NodeRef(p as usize));
        lemma_child_subtree(nodes, a, j, NodeRef(p as usize));
        assert(child(t.nodes@, p, k) == x);
    }
}

/// Two subtrees that share a node are nested.
proof fn lemma_subtrees_nested(t: Tree, c1: int, c2: int, x: int)
    requires
        t.wf(),
        0 <= c1 < t.nodes@.len(),
        0 <= c2 < t.nodes@.len(),
        0 <= x < t.nodes@.len(),
        subtree(t.nodes@, c1).contains(NodeRef(x as usize)),
        subtree(t.nodes@, c2).contains(NodeRef(x as usize)),
    ensures
        subtree(t.nodes@, c2).contains(NodeRef(c1 as usize)) || subtree(t.nodes@, c1).contains(NodeRef(c2 as usize)),
    decreases c1 - x,
{
    let nodes = t.nodes@;
    lemma_subtree_older(nodes, c1);
    let s1 = subtree(nodes, c1);
    let w = choose|w: int| 0 <= w < s1.len() && s1[w] == NodeRef(x as usize);
    assert(s1[w].0 <= c1);
    assert(s1[w].0 == x);
    assert(x <= c1);
    if x != c1 && x != c2 {
        lemma_subtree_parent(t, c1, x);
        lemma_subtree_parent(t, c2, x);
        let (parent_a, k1) = choose|p: int, k: int|
            0 <= p < nodes.len() && 0 <= k < nodes[p].children.len() && #[trigger] child(nodes, p, k) == x
                && subtree(nodes, p).contains(NodeRef(x as usize)) && subtree(nodes, c1).contains(NodeRef(p as usize));
        let (parent_b, k2) = choose|p: int, k: int|
            0 <= p < nodes.len() && 0 <= k < nodes[p].children.len() && #[trigger] child(nodes, p, k) == x
                && subtree(nodes, p).contains(NodeRef(x as usize)) && subtree(nodes, c2).contains(NodeRef(p as usize));
        assert(parent_a == parent_b);
        assert(child(nodes, parent_a, k1) < parent_a);
        lemma_subtree_older(nodes, c1);
        let w1 = choose|w: int| 0 <= w < s1.len() && s1[w] == NodeRef(parent_a as usize);
        assert(s1[w1].0 <= c1);
        assert(s1[w1].0 == parent_a);
        assert(parent_a <= c1);
        lemma_subtrees_nested(t, c1, c2, parent_a);
    }
}

/// No node appears twice in the subtree of `a`.
proof fn lemma_subtree_distinct(t: Tree, a: int)
    requires
        t.wf(),
        0 <= a < t.nodes@.len(),
    ensures
        subtree(t.nodes@, a).no_duplicates(),
        below(t.nodes@, a, t.nodes@[a].children.len() as int).no_duplicates(),
    decreases a, t.nodes@[a].children.len() + 1,
{
    let nodes = t.nodes@;
    let len = nodes[a].children.len() as int;
    lemma_below_distinct(t, a, len);
    lemma_below_older(nodes, a, len);
    let b = below(nodes, a, len);
    let s = subtree(nodes, a);
    assert(s == seq![NodeRef(a as usize)] + b);
    assert forall|u: int, v: int| 0 <= u < v < s.len() implies s[u] != s[v] by {
        if u == 0 {
            assert(s[v] == b[v - 1]);
            assert(b[v - 1].0 < a);
        } else {
            assert(s[u] == b[u - 1] && s[v] == b[v - 1]);
        }
    }
}

#[verifier::spinoff_prover]
proof fn lemma_below_distinct(t: Tree, a: int, m: int)
    requires
        t.wf(),
        0 <= a < t.nodes@.len(),
        0 <= m <= t.nodes@[a].children.len(),
    ensures
        below(t.nodes@, a, m).no_duplicates(),
    decreases a, m,
{
    let nodes = t.nodes@;
    if m > 0 {
        lemma_below_distinct(t, a, m - 1);
        let c = child(nodes, a, m - 1);
        assert(c < a);
        lemma_subtree_distinct(t, c);
        assert(NodeRef(c as usize).0 == c);
        let pre = below(nodes, a, m - 1);
        let sub = subtree(nodes, c);
        let whole = below(nodes, a, m);
        assert(whole == pre + sub);
        assert forall|u: int, v: int| 0 <= u < v < whole.len() implies whole[u] != whole[v] by {
            if u < pre.len() && v < pre.len() {
                assert(whole[u] == pre[u] && whole[v] == pre[v]);
            } else if u >= pre.len() {
                assert(whole[u] == sub[u - pre.len()] && whole[v] == sub[v - pre.len()]);
            } else {
                assert(whole[u] == pre[u] && whole[v] == sub[v - pre.len()]);
                if whole[u] == whole[v] {
                    let x = whole[u];
                    lemma_below_older(nodes, a, m - 1);
                    assert(pre[u] == x);
                    assert(pre.contains(x));
                    assert(sub[v - pre.len()] == x);
                    lemma_below_member(nodes, a, m - 1, x);
                    let jj = choose|jj: int|
                        0 <= jj < m - 1 && 0 <= child(nodes, a, jj) < a && #[trigger] subtree(nodes, child(nodes, a, jj)).contains(x);
                    lemma_siblings_disjoint(t, a, jj, m - 1, x);
                }
            }
        }
    }
}

/// The subtrees of two different children share no node.
proof fn lemma_siblings_disjoint(t: Tree, a: int, j1: int, j2: int, x: NodeRef)
    requires
        t.wf(),
        0 <= a < t.nodes@.len(),
        0 <= j1 < t.nodes@[a].children.len(),
        0 <= j2 < t.nodes@[a].children.len(),
        j1 != j2,
        subtree(t.nodes@, child(t.nodes@, a, j1)).contains(x),
    ensures
        !subtree(t.nodes@, child(t.nodes@, a, j2)).contains(x),
{
    let nodes = t.nodes@;
    let c1 = child(nodes, a, j1);
    let c2 = child(nodes, a, j2);
    if subtree(nodes, c2).contains(x) {
        assert(c1 < a && c2 < a);
        assert(c1 != c2);
        lemma_subtree_older(nodes, c1);
        let s1 = subtree(nodes, c1);
        let w = choose|w: int| 0 <= w < s1.len() && s1[w] == x;
        assert(s1[w].0 <= c1);
        let xi = x.0 as int;
        assert(NodeRef(xi as usize) == x);
        lemma_subtrees_nested(t, c1, c2, xi);
        if subtree(nodes, c2).contains(NodeRef(c1 as usize)) {
            lemma_parent_outside(t, a, j1, c2);
        } else {
            lemma_parent_outside(t, a, j2, c1);
        }
    }
}

/// A child of `a` does not lie in the subtree of another node older than `a`,
/// but for its own.
proof fn lemma_parent_outside(t: Tree, a: int, j: int, c: int)
    requires
        t.wf(),
        0 <= a < t.nodes@.len(),
        0 <= j < t.nodes@[a].children.len(),
        0 <= c < a,
        c != child(t.nodes@, a, j),
    ensures
        !subtree(t.nodes@, c).contains(NodeRef(child(t.nodes@, a, j) as usize)),
{
    let nodes = t.nodes@;
    let cj = child(nodes, a, j);
    if subtree(nodes, c).contains(NodeRef(cj as usize)) {
        lemma_subtree_parent(t, c, cj);
        let (p, k) = choose|p: int, k: int|
            0 <= p < nodes.len() && 0 <= k < nodes[p].children.len() && #[trigger] child(nodes, p, k) == cj
                && subtree(nodes, p).contains(NodeRef(cj as usize)) && subtree(nodes, c).contains(NodeRef(p as usize));
        assert(child(nodes, a, j) == child(nodes, p, k));
        assert(p == a);
        lemma_subtree_older(nodes, c);
        let sc = subtree(nodes, c);
        let wz = choose|wz: int| 0 <= wz < sc.len() && sc[wz] == NodeRef(p as usize);
        assert(sc[wz].0 <= c);
        assert(sc[wz].0 == p);
    }
}

/// Each descendant of `r` stands at exactly one position of the pre-order
/// walk, and there are `subtreesize` positions: so a position drawn
/// uniformly, as `randomnode` draws it, picks each descendant with the same
/// chance, whatever its depth.
pub proof fn lemma_walk_positions(t: Tree, r: NodeRef)
    requires
        t.wf(),
        t.valid(r),
    ensures
        t.spec_descendants(r).no_duplicates(),
        t.spec_descendants(r).len() == t.nodes@[r.0 as int].subtreesize,
{
    lemma_subtree_distinct(t, r.0 as int);
}

/// Nodes are all named by distinct ids, none of them the root's.
pub open spec fn ids_distinct(nodes: Seq<Node>) -> bool {
    forall|a: int, b: int|
        0 <= a < b < nodes.len() ==> #[trigger] nodes[a].id@ != #[trigger] nodes[b].id@
}

/// The nodes of `s` that are projects.
pub open spec fn projects_of(nodes: Seq<Node>, s: Seq<NodeRef>) -> Seq<NodeRef> {
    s.filter(|r: NodeRef| 0 <= r.0 < nodes.len() && nodes[r.0 as int].nodetype == NodeType::Project)
}

/// Everything in the subtree of `i` is `i` or older.
pub proof fn lemma_subtree_older(nodes: Seq<Node>, i: int)
    requires
        0 <= i < nodes.len(),
    ensures
        forall|x: int| 0 <= x < subtree(nodes, i).len() ==> 0 <= #[trigger] subtree(nodes, i)[x].0 <= i,
    decreases i, nodes[i].children.len() + 1,
{
    let k = nodes[i].children.len() as int;
    lemma_below_older(nodes, i, k);
    let b = below(nodes, i, k);
    assert(subtree(nodes, i) == seq![NodeRef(i as usize)] + b);
    assert forall|x: int| 0 <= x < subtree(nodes, i).len() implies 0 <= #[trigger] subtree(nodes, i)[x].0 <= i by {
        if x > 0 {
            assert(subtree(nodes, i)[x] == b[x - 1]);
        }
    }
}

/// Everything below `i` is older than `i`.
pub proof fn lemma_below_older(nodes: Seq<Node>, i: int, k: int)
    requires
        0 <= i < nodes.len(),
        0 <= k <= nodes[i].children.len(),
    ensures
        forall|x: int| 0 <= x < below(nodes, i, k).len() ==> 0 <= #[trigger] below(nodes, i, k)[x].0 < i,
    decreases i, k,
{
    if k > 0 {
        lemma_below_older(nodes, i, k - 1);
        let c = child(nodes, i, k - 1);
        let a = below(nodes, i, k - 1);
        if 0 <= c < i {
            lemma_subtree_older(nodes, c);
            let b = subtree(nodes, c);
            assert forall|x: int| 0 <= x < below(nodes, i, k).len() implies 0 <= #[trigger] below(nodes, i, k)[x].0 < i by {
                if x < a.len() {
                    assert(below(nodes, i, k)[x] == a[x]);
                } else {
                    assert(below(nodes, i, k)[x] == b[x - a.len()]);
                }
            }
        } else {
            assert(below(nodes, i, k) =~= a);
        }
    }
}

impl Tree {
    /// Whether some node of the arena carries `id`.
    pub fn has_id(&self, id: &str) -> (r: bool)
        ensures
            r == exists|i: int| 0 <= i < self.nodes@.len() && #[trigger] self.nodes@[i].id@ == id@,
    {
        let mut i: usize = 0;
        while i < self.nodes.len()
            invariant
                i <= self.nodes@.len(),
                forall|x: int| 0 <= x < i ==> #[trigger] self.nodes@[x].id@ != id@,
            decreases self.nodes@.len() - i,
        {
            if same_text(self.nodes[i].id.as_str(), id) {
                return true;
            }
            i = i + 1;
        }
        false
    }

    /// The node whose id is `id`, if there is one.
    pub fn find_id(&self, id: &str) -> (r: Option<NodeRef>)
        ensures
            r matches Some(x) ==> self.valid(x) && self.nodes@[x.0 as int].id@ == id@ && forall|j: int|
                0 <= j < x.0 ==> #[trigger] self.nodes@[j].id@ != id@,
            r is None ==> forall|i: int| 0 <= i < self.nodes@.len() ==> #[trigger] self.nodes@[i].id@ != id@,
    {
        let mut i: usize = 0;
        while i < self.nodes.len()
            invariant
                i <= self.nodes@.len(),
                forall|x: int| 0 <= x < i ==> #[trigger] self.nodes@[x].id@ != id@,
            decreases self.nodes@.len() - i,
        {
            if same_text(self.nodes[i].id.as_str(), id) {
                return Some(NodeRef(i));
            }
            i = i + 1;
        }
        None
    }

    /// The descendant of `root` at position `index` of its pre-order walk,
    /// found by skipping whole subtrees by their sizes.
    #[verifier::spinoff_prover]
    pub fn find_node(&self, root: NodeRef, index: usize) -> (r: NodeRef)
        requires
            self.wf(),
            self.valid(root),
            index < self.spec_descendants(root).len(),
        ensures
            r == self.spec_descendants(root)[index as int],
            self.valid(r),
    {
        let ghost nodes = self.nodes@;
        let ghost target = self.spec_descendants(root)[index as int];
        let mut cur = root;
        let mut k = index;
        loop
            invariant
                self.wf(),
                nodes == self.nodes@,
                self.valid(cur),
                k < descendants(nodes, cur.0 as int).len(),
                descendants(nodes, cur.0 as int)[k as int] == target,
                index < self.spec_descendants(root).len(),
                target == self.spec_descendants(root)[index as int],
            decreases k,
        {
            let ghost ci = cur.0 as int;
            let ghost len = nodes[ci].children.len() as int;
            let children = &self.nodes[cur.0].children;
            let mut j: usize = 0;
            let mut offset: usize = 0;
            proof {
                lemma_below_mono(nodes, ci, 0, len);
            }
            loop
                invariant
                    self.wf(),
                    nodes == self.nodes@,
                    0 <= ci < nodes.len(),
                    children == nodes[ci].children,
                    len == children@.len(),
                    j < len,
                    offset == below(nodes, ci, j as int).len(),
                    offset <= k,
                    k < below(nodes, ci, len).len(),
                ensures
                    j < len,
                    k < offset + subtree(nodes, child(nodes, ci, j as int)).len(),
                decreases len - j,
            {
                let c = children[j];
                proof {
                    let ch = child(nodes, ci, j as int);
                    assert(ch == c.0);
                    assert(ch < ci);
                    lemma_below_mono(nodes, ci, j + 1, len);
                    assert(below(nodes, ci, j + 1) == below(nodes, ci, j as int) + subtree(nodes, ch));
                    assert(subtree(nodes, ch).len() == 1 + nodes[ch].subtreesize);
                    assert(nodes[ci].subtreesize == below(nodes, ci, len).len());
                }
                let span = 1 + self.nodes[c.0].subtreesize;
                if k < offset + span {
                    break;
                }
                offset = offset + span;
                j = j + 1;
                proof {
                    if j as int == len {
                        assert(false);
                    }
                }
            }
            let c = children[j];
            proof {
                let ch = c.0 as int;
                assert(ch == child(nodes, ci, j as int));
                lemma_below_mono(nodes, ci, j + 1, len);
                let pre = below(nodes, ci, j as int);
                let sub = subtree(nodes, ch);
                assert(below(nodes, ci, j + 1) == pre + sub);
                assert(below(nodes, ci, len)[k as int] == (pre + sub)[k as int]);
                assert((pre + sub)[k as int] == sub[k - offset]);
            }
            if k == offset {
                proof {
                    let sub = subtree(nodes, c.0 as int);
                    assert(sub[0] == NodeRef(c.0));
                }
                return c;
            }
            proof {
                let ch = c.0 as int;
                assert(subtree(nodes, ch)[k - offset] == descendants(nodes, ch)[k - offset - 1]);
            }
            k = k - offset - 1;
            cur = c;
        }
    }

    /// A descendant of `root` drawn uniformly: each of them, at any depth,
    /// stands for exactly one of the equally likely positions of the walk.
    pub fn randomnode(&self, root: NodeRef, rng: &mut rand::XorShiftRng) -> (r: NodeRef)
        requires
            self.wf(),
            self.valid(root),
            self.nodes@[root.0 as int].subtreesize > 0,
        ensures
            self.spec_descendants(root).contains(r),
            self.valid(r),
    {
        proof {
            lemma_below_older(self.nodes@, root.0 as int, self.nodes@[root.0 as int].children.len() as int);
        }
        let size = self.nodes[root.0].subtreesize;
        let k = crate::random::draw_below(rng, size as u64);
        let r = self.find_node(root, k as usize);
        assert(self.spec_descendants(root)[k as int] == r);
        r
    }

    /// Appends to `out` the projects among `r` and its descendants, in pre-order.
    pub fn walk_projects(&self, r: NodeRef, out: &mut Vec<NodeRef>)
        requires
            self.wf(),
            self.valid(r),
        ensures
            final(out)@ == old(out)@ + projects_of(self.nodes@, subtree(self.nodes@, r.0 as int)),
        decreases r.0,
    {
        let ghost nodes = self.nodes@;
        let ghost ri = r.0 as int;
        broadcast use Seq::filter_distributes_over_add;
        let node = &self.nodes[r.0];
        if node.nodetype == NodeType::Project {
            out.push(r);
        }
        proof {
            assert(projects_of(nodes, seq![r]) =~= out@.subrange(old(out)@.len() as int, out@.len() as int)) by {
                reveal_with_fuel(Seq::filter, 2);
            }
            assert(out@ =~= old(out)@ + projects_of(nodes, seq![r] + below(nodes, ri, 0)));
        }
        let mut j: usize = 0;
        while j < node.children.len()
            invariant
                self.wf(),
                nodes == self.nodes@,
                0 <= ri < nodes.len(),
                ri == r.0,
                *node == nodes[ri],
                j <= node.children@.len(),
                out@ == old(out)@ + projects_of(nodes, seq![r] + below(nodes, ri, j as int)),
            decreases node.children@.len() - j,
        {
            let c = node.children[j];
            proof {
                assert(child(nodes, ri, j as int) == c.0);
                assert(c.0 < r.0);
            }
            self.walk_projects(c, out);
            proof {
                assert(below(nodes, ri, j + 1) == below(nodes, ri, j as int) + subtree(nodes, c.0 as int));
                assert(seq![r] + below(nodes, ri, j + 1) =~= (seq![r] + below(nodes, ri, j as int)) + subtree(nodes, c.0 as int));
            }
            j = j + 1;
        }
    }
}

impl Node {
    /// A node without children.
    pub fn new<S: BecomeString>(tree: &mut Tree, nodetype: NodeType, id: S, name: Option<S>) -> (r: NodeRef)
        requires
            old(tree).wf(),
            old(tree).nodes@.len() < usize::MAX,
        ensures
            final(tree).wf(),
            r.0 == old(tree).nodes@.len(),
            final(tree).nodes@.len() == old(tree).nodes@.len() + 1,
            final(tree).nodes@.subrange(0, r.0 as int) == old(tree).nodes@,
            final(tree).nodes@[r.0 as int].nodetype == nodetype,
            final(tree).nodes@[r.0 as int].id@ == id.text(),
            final(tree).nodes@[r.0 as int].children@.len() == 0,
            final(tree).nodes@[r.0 as int].subtreesize == 0,
            match name {
                Some(x) => final(tree).nodes@[r.0 as int].name matches Some(t) && t@ == x.text(),
                None => final(tree).nodes@[r.0 as int].name is None,
            },
            final(tree).owned@ == old(tree).owned@,
    {
        let r = Node::new_parent(tree, nodetype, id, name, Vec::new());
        proof {
            assert(Seq::<NodeRef>::empty().map_values(|c: NodeRef| c.0 as int).to_set() =~= Set::empty());
            assert(final(tree).owned@ =~= old(tree).owned@);
        }
        r
    }

    /// A node over the given children, which must be distinct nodes that have
    /// no parent yet; its size counts them and all their descendants.
    pub fn new_parent<S: BecomeString>(
        tree: &mut Tree,
        nodetype: NodeType,
        id: S,
        name: Option<S>,
        children: Vec<NodeRef>,
    ) -> (r: NodeRef)
        requires
            old(tree).wf(),
            old(tree).nodes@.len() < usize::MAX,
            forall|k: int| 0 <= k < children@.len() ==> old(tree).free(#[trigger] children@[k]),
            children@.no_duplicates(),
        ensures
            final(tree).wf(),
            r.0 == old(tree).nodes@.len(),
            final(tree).nodes@.len() == old(tree).nodes@.len() + 1,
            final(tree).nodes@.subrange(0, r.0 as int) == old(tree).nodes@,
            final(tree).nodes@[r.0 as int].nodetype == nodetype,
            final(tree).nodes@[r.0 as int].id@ == id.text(),
            final(tree).nodes@[r.0 as int].children == children,
            final(tree).nodes@[r.0 as int].subtreesize == descendants(final(tree).nodes@, r.0 as int).len(),
            final(tree).nodes@[r.0 as int].subtreesize == children_weight(
                old(tree).nodes@,
                children@,
                children@.len() as int,
            ),
            match name {
                Some(x) => final(tree).nodes@[r.0 as int].name matches Some(t) && t@ == x.text(),
                None => final(tree).nodes@[r.0 as int].name is None,
            },
            final(tree).owned@ == old(tree).owned@ + children@.map_values(|c: NodeRef| c.0 as int).to_set(),
    {
        let name = match name {
            Some(x) => Some(x.as_string()),
            None => None,
        };
        let r = tree.add(nodetype, id.as_string(), name, children);
        proof {
            assert(final(tree).nodes@.subrange(0, r.0 as int) =~= old(tree).nodes@);
        }
        r
    }

    /// The root over the given top-level nodes. Ids must be distinct, and
    /// none may be the root's own.
    pub fn new_root(tree: &mut Tree, children: Vec<NodeRef>) -> (r: NodeRef)
        requires
            old(tree).wf(),
            old(tree).nodes@.len() < usize::MAX,
            forall|k: int| 0 <= k < children@.len() ==> old(tree).free(#[trigger] children@[k]),
            children@.no_duplicates(),
            ids_distinct(old(tree).nodes@),
            forall|i: int| 0 <= i < old(tree).nodes@.len() ==> #[trigger] old(tree).nodes@[i].id@ != "00000"@,
        ensures
            final(tree).wf(),
            ids_distinct(final(tree).nodes@),
            r.0 == old(tree).nodes@.len(),
            final(tree).nodes@.len() == old(tree).nodes@.len() + 1,
            final(tree).nodes@.subrange(0, r.0 as int) == old(tree).nodes@,
            final(tree).nodes@[r.0 as int].nodetype == NodeType::Root,
            final(tree).nodes@[r.0 as int].id@ == "00000"@,
            final(tree).nodes@[r.0 as int].name is None,
            final(tree).nodes@[r.0 as int].children == children,
            final(tree).nodes@[r.0 as int].subtreesize == children_weight(
                old(tree).nodes@,
                children@,
                children@.len() as int,
            ),
            final(tree).owned@ == old(tree).owned@ + children@.map_values(|c: NodeRef| c.0 as int).to_set(),
    {
        let r = Node::new_parent(tree, NodeType::Root, "00000", None, children);
        proof {
            let nodes = final(tree).nodes@;
            assert forall|a: int, b: int| 0 <= a < b < nodes.len() implies #[trigger] nodes[a].id@ != #[trigger] nodes[b].id@ by {
                assert(nodes[a] == old(tree).nodes@[a]);
                if b < r.0 {
                    assert(nodes[b] == old(tree).nodes@[b]);
                }
            }
        }
        r
    }
}

/// A small tree: three projects under the root, the first with one task.
pub fn testtree() -> (r: (Tree, NodeRef))
    ensures
        r.0.wf(),
        r.0.valid(r.1),
        r.1 == NodeRef(4),
        r.0.nodes@[4].children@ == seq![NodeRef(1), NodeRef(2), NodeRef(3)],
        r.0.nodes@[4].subtreesize == 4,
        r.0.nodes@[1].subtreesize == 1,
        r.0.nodes@[2].subtreesize == 0,
        r.0.nodes@[3].subtreesize == 0,
        r.0.nodes@[1].children@ == seq![NodeRef(0)],
        r.0.nodes@[1].nodetype == NodeType::Project,
        r.0.nodes@[2].nodetype == NodeType::Project,
        r.0.nodes@[3].nodetype == NodeType::Project,
        r.0.nodes@[0].nodetype == NodeType::Task,
{
    let mut tree = Tree::new();
    let task = Node::new(&mut tree, NodeType::Task, "44444", Some("Task Name"));
    let under = vec![task];
    let first = Node::new_parent(&mut tree, NodeType::Project, "11111", Some("Project Name"), under);
    let second = Node::new(&mut tree, NodeType::Project, "22222", Some("Another project name"));
    let third = Node::new(&mut tree, NodeType::Project, "33333", Some("Herp derp"));
    let ghost before_root = tree.nodes@;
    proof {
        reveal_strlit("44444");
        reveal_strlit("11111");
        reveal_strlit("22222");
        reveal_strlit("33333");
        reveal_strlit("00000");
        let nodes = tree.nodes@;
        assert(nodes.len() == 4);
        assert(under@.map_values(|c: NodeRef| c.0 as int)[0] == 0);
        assert(tree.owned@.contains(0));
        assert(nodes[0].id@[0] == '4');
        assert(nodes[1].id@[0] == '1');
        assert(nodes[2].id@[0] == '2');
        assert(nodes[3].id@[0] == '3');
        assert(ids_distinct(nodes));
        reveal_with_fuel(children_weight, 4);
        assert(nodes[0].subtreesize == 0);
        assert(nodes[1].subtreesize == 1);
    }
    let v = vec![first, second, third];
    let root = Node::new_root(&mut tree, v);
    proof {
        reveal_with_fuel(children_weight, 4);
        assert(v@ == seq![NodeRef(1), NodeRef(2), NodeRef(3)]);
        assert(tree.nodes@[1] == before_root[1]);
        assert(tree.nodes@[2] == before_root[2]);
        assert(tree.nodes@[3] == before_root[3]);
        assert(tree.nodes@[0] == before_root[0]);
    }
    (tree, root)
}

} // verus!
