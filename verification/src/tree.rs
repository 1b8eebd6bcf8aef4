//! Rooted, edge-weighted trees held in a flat arena.
//!
//! Nodes are laid out in postorder: every child has a smaller id than its
//! parent, the subtree of a node occupies the contiguous id range ending at
//! the node itself, and the root is the last node. This layout makes the
//! cluster (leaf set) of a node an id interval, which the diversity engine
//! relies on.

use vstd::prelude::*;

verus! {

/// One node of the arena. `weight` is the weight of the edge entering this
/// node from its parent (ignored at the root). Leaves carry a taxon label.
pub struct Node {
    pub children: Vec<usize>,
    pub weight: u64,
    pub label: Option<String>,
}

/// A rooted tree in postorder arena layout.
pub struct Tree {
    pub nodes: Vec<Node>,
}

impl Tree {
    pub open spec fn len(self) -> int {
        self.nodes@.len() as int
    }

    pub open spec fn is_node(self, v: int) -> bool {
        0 <= v < self.len()
    }

    pub open spec fn arity(self, v: int) -> int {
        self.nodes@[v].children@.len() as int
    }

    pub open spec fn child(self, v: int, j: int) -> int {
        self.nodes@[v].children@[j] as int
    }

    pub open spec fn weight(self, v: int) -> u64 {
        self.nodes@[v].weight
    }

    pub open spec fn is_leaf(self, v: int) -> bool {
        self.arity(v) == 0
    }

    pub open spec fn root(self) -> int {
        self.len() - 1
    }

    /// Number of nodes in the subtree rooted at `v`.
    pub open spec fn subtree_size(self, v: int) -> int
        decreases v, 1int, 0int,
    {
        1 + self.size_of_children(v, self.arity(v))
    }

    /// Sum of `subtree_size` over the first `j` children of `v`.
    pub open spec fn size_of_children(self, v: int, j: int) -> int
        decreases v, 0int, j,
    {
        if j <= 0 {
            0
        } else {
            let c = self.child(v, j - 1);
            self.size_of_children(v, j - 1) + if 0 <= c < v {
                self.subtree_size(c)
            } else {
                0
            }
        }
    }

    /// Smallest id in the subtree of `v` (the subtree is the range `[lo(v), v]`).
    pub open spec fn lo(self, v: int) -> int {
        v + 1 - self.subtree_size(v)
    }

    /// Number of leaves in the subtree rooted at `v` (the cluster of `v`).
    pub open spec fn cluster_size(self, v: int) -> int
        decreases v, 1int, 0int,
    {
        if self.is_leaf(v) {
            1
        } else {
            self.cs_of_children(v, self.arity(v))
        }
    }

    pub open spec fn cs_of_children(self, v: int, j: int) -> int
        decreases v, 0int, j,
    {
        if j <= 0 {
            0
        } else {
            let c = self.child(v, j - 1);
            self.cs_of_children(v, j - 1) + if 0 <= c < v {
                self.cluster_size(c)
            } else {
                0
            }
        }
    }

    /// Total weight of all edges strictly below `v` (each edge belongs to the
    /// node it enters).
    pub open spec fn subtree_weight(self, v: int) -> int
        decreases v, 1int, 0int,
    {
        self.sw_of_children(v, self.arity(v))
    }

    pub open spec fn sw_of_children(self, v: int, j: int) -> int
        decreases v, 0int, j,
    {
        if j <= 0 {
            0
        } else {
            let c = self.child(v, j - 1);
            self.sw_of_children(v, j - 1) + if 0 <= c < v {
                self.weight(c) + self.subtree_weight(c)
            } else {
                0
            }
        }
    }

    /// The postorder layout conditions at one node: children have smaller
    /// ids, the last child is the node's predecessor, and consecutive
    /// children's subtree ranges are adjacent.
    pub open spec fn node_ok(self, v: int) -> bool {
        &&& forall|j: int| 0 <= j < self.arity(v) ==> 0 <= #[trigger] self.child(v, j) < v
        &&& (self.arity(v) > 0 ==> self.child(v, self.arity(v) - 1) == v - 1)
        &&& forall|j: int|
            1 <= j < self.arity(v) ==> #[trigger] self.child(v, j - 1) == self.child(v, j)
                - self.subtree_size(self.child(v, j))
    }

    /// The postorder layout conditions hold at every node below `w`.
    pub open spec fn wf_upto(self, w: int) -> bool {
        forall|v: int| 0 <= v < w ==> #[trigger] self.node_ok(v)
    }

    /// Well-formedness: a nonempty, connected postorder arena whose edge
    /// weights have a machine-representable total below every node.
    pub open spec fn wf(self) -> bool {
        &&& 1 <= self.len() <= u32::MAX as int
        &&& forall|v: int| self.is_node(v) ==> #[trigger] self.node_ok(v)
        &&& forall|v: int|
            self.is_node(v) ==> #[trigger] self.subtree_weight(v) <= u64::MAX as int
        &&& self.subtree_size(self.root()) == self.len()
    }

    /// Number of leaves of the whole tree.
    pub open spec fn num_leaves(self) -> int {
        self.cluster_size(self.root())
    }

    /// Every non-leaf node has exactly two children.
    pub open spec fn is_binary_spec(self) -> bool {
        forall|v: int|
            self.is_node(v) ==> #[trigger] self.arity(v) == 0 || self.arity(v) == 2
    }

    /// Does the subtree range of `c` hold an id of `s`?
    pub open spec fn touches(self, c: int, s: Set<int>) -> bool {
        exists|e: int| s.contains(e) && self.lo(c) <= e <= c
    }

    /// Phylogenetic diversity below `v` for the id set `s`: the total weight
    /// of the edges of the subtree of `v` that lie on a path from `v` to a
    /// member of `s`. Taking `v` as the root, this is the weight of the
    /// subtree induced by `s` together with the root.
    pub open spec fn pd_below(self, v: int, s: Set<int>) -> int
        decreases v, 1int, 0int,
    {
        self.pd_of_children(v, self.arity(v), s)
    }

    pub open spec fn pd_of_children(self, v: int, j: int, s: Set<int>) -> int
        decreases v, 0int, j,
    {
        if j <= 0 {
            0
        } else {
            let c = self.child(v, j - 1);
            self.pd_of_children(v, j - 1, s) + if 0 <= c < v && self.touches(c, s) {
                self.weight(c) + self.pd_below(c, s)
            } else {
                0
            }
        }
    }

    /// Number of edges of the subtree of `v` induced by `s` together with `v`.
    pub open spec fn edges_below(self, v: int, s: Set<int>) -> int
        decreases v, 1int, 0int,
    {
        self.edges_of_children(v, self.arity(v), s)
    }

    pub open spec fn edges_of_children(self, v: int, j: int, s: Set<int>) -> int
        decreases v, 0int, j,
    {
        if j <= 0 {
            0
        } else {
            let c = self.child(v, j - 1);
            self.edges_of_children(v, j - 1, s) + if 0 <= c < v && self.touches(c, s) {
                1 + self.edges_below(c, s)
            } else {
                0
            }
        }
    }
}

impl Tree {
    /// Taxon labels of the leaves below `v`, in left-to-right order.
    pub open spec fn labels_below(self, v: int) -> Seq<Option<String>>
        decreases v, 1int, 0int,
    {
        if self.is_leaf(v) {
            seq![self.nodes@[v].label]
        } else {
            self.labels_of_children(v, self.arity(v))
        }
    }

    pub open spec fn labels_of_children(self, v: int, j: int) -> Seq<Option<String>>
        decreases v, 0int, j,
    {
        if j <= 0 {
            Seq::empty()
        } else {
            let c = self.child(v, j - 1);
            self.labels_of_children(v, j - 1) + if 0 <= c < v {
                self.labels_below(c)
            } else {
                Seq::empty()
            }
        }
    }
}

impl Tree {
    /// Leaves below `v` paired with the weight of the path from `v` down
    /// to each, in left-to-right order. This profile determines the
    /// diversity of every subset of those leaves.
    pub open spec fn leaf_profile(self, v: int) -> Seq<(Option<String>, int)>
        decreases v, 1int, 0int,
    {
        if self.is_leaf(v) {
            seq![(self.nodes@[v].label, 0int)]
        } else {
            self.profile_of_children(v, self.arity(v))
        }
    }

    pub open spec fn profile_of_children(self, v: int, j: int) -> Seq<(Option<String>, int)>
        decreases v, 0int, j,
    {
        if j <= 0 {
            Seq::empty()
        } else {
            let c = self.child(v, j - 1);
            self.profile_of_children(v, j - 1) + if 0 <= c < v {
                shift_profile(self.leaf_profile(c), self.weight(c) as int)
            } else {
                Seq::empty()
            }
        }
    }
}

/// The same leaves, each path weight increased by `w` (one more edge of
/// weight `w` above them).
pub open spec fn shift_profile(s: Seq<(Option<String>, int)>, w: int) -> Seq<
    (Option<String>, int),
> {
    s.map_values(|p: (Option<String>, int)| (p.0, p.1 + w))
}

/// Shifting by a zero-weight edge changes nothing.
proof fn lemma_shift_zero(s: Seq<(Option<String>, int)>)
    ensures
        shift_profile(s, 0) == s,
{
    assert(shift_profile(s, 0) =~= s);
}

/// Every structural quantity below `v` only depends on the arena entries
/// up to `v`.
proof fn lemma_prefix_stable(t1: Tree, t2: Tree, v: int)
    requires
        0 <= v,
        forall|u: int| 0 <= u <= v ==> t1.nodes@[u] == t2.nodes@[u],
    ensures
        t1.subtree_size(v) == t2.subtree_size(v),
        t1.subtree_weight(v) == t2.subtree_weight(v),
        t1.arity(v) == t2.arity(v),
        t1.leaf_profile(v) == t2.leaf_profile(v),
        t1.node_ok(v) ==> t2.node_ok(v),
    decreases v, 1int, 0int,
{
    assert(t1.nodes@[v] == t2.nodes@[v]);
    lemma_prefix_stable_children(t1, t2, v, t1.arity(v));
    if t1.node_ok(v) {
        assert forall|j: int| 0 <= j < t2.arity(v) implies 0 <= #[trigger] t2.child(v, j)
            < v by {
            assert(t1.child(v, j) == t2.child(v, j));
        }
        assert forall|j: int|
            1 <= j < t2.arity(v) implies #[trigger] t2.child(v, j - 1) == t2.child(v, j)
                - t2.subtree_size(t2.child(v, j)) by {
            let c = t1.child(v, j);
            assert(t2.child(v, j) == c);
            assert(t1.child(v, j - 1) == t2.child(v, j - 1));
            assert(0 <= c < v);
            lemma_prefix_stable(t1, t2, c);
        }
        assert(t2.node_ok(v));
    }
}

proof fn lemma_prefix_stable_children(t1: Tree, t2: Tree, v: int, j: int)
    requires
        0 <= v,
        forall|u: int| 0 <= u <= v ==> t1.nodes@[u] == t2.nodes@[u],
    ensures
        t1.size_of_children(v, j) == t2.size_of_children(v, j),
        t1.sw_of_children(v, j) == t2.sw_of_children(v, j),
        t1.profile_of_children(v, j) == t2.profile_of_children(v, j),
    decreases v, 0int, j,
{
    assert(t1.nodes@[v] == t2.nodes@[v]);
    if j > 0 {
        lemma_prefix_stable_children(t1, t2, v, j - 1);
        let c = t1.child(v, j - 1);
        assert(t2.child(v, j - 1) == c);
        if 0 <= c < v {
            lemma_prefix_stable(t1, t2, c);
            assert(t2.weight(c) == t1.weight(c));
        }
    }
}

/// The labels below `v` only depend on the arena entries up to `v`.
proof fn lemma_labels_stable(t1: Tree, t2: Tree, v: int)
    requires
        0 <= v,
        forall|u: int| 0 <= u <= v ==> t1.nodes@[u] == t2.nodes@[u],
    ensures
        t1.labels_below(v) == t2.labels_below(v),
    decreases v, 1int, 0int,
{
    assert(t1.nodes@[v] == t2.nodes@[v]);
    lemma_labels_stable_children(t1, t2, v, t1.arity(v));
}

proof fn lemma_labels_stable_children(t1: Tree, t2: Tree, v: int, j: int)
    requires
        0 <= v,
        forall|u: int| 0 <= u <= v ==> t1.nodes@[u] == t2.nodes@[u],
    ensures
        t1.labels_of_children(v, j) == t2.labels_of_children(v, j),
    decreases v, 0int, j,
{
    assert(t1.nodes@[v] == t2.nodes@[v]);
    if j > 0 {
        lemma_labels_stable_children(t1, t2, v, j - 1);
        let c = t1.child(v, j - 1);
        assert(t2.child(v, j - 1) == c);
        if 0 <= c < v {
            lemma_labels_stable(t1, t2, c);
        }
    }
}

/// The set of ids held by a sequence.
pub open spec fn id_set(s: Seq<usize>) -> Set<int> {
    Set::new(|e: int| exists|i: int| 0 <= i < s.len() && s[i] == e)
}

/// `pd_below` and `edges_below` at `v` only depend on the members of `s`
/// inside the subtree range of `v`.
pub proof fn lemma_pd_frame(t: Tree, v: int, s1: Set<int>, s2: Set<int>)
    requires
        t.wf(),
        t.is_node(v),
        forall|e: int| t.lo(v) <= e <= v ==> (s1.contains(e) <==> s2.contains(e)),
    ensures
        t.pd_below(v, s1) == t.pd_below(v, s2),
        t.edges_below(v, s1) == t.edges_below(v, s2),
        t.touches(v, s1) <==> t.touches(v, s2),
    decreases v, 1int, 0int,
{
    lemma_struct(t, v);
    assert forall|e: int| s1.contains(e) && t.lo(v) <= e <= v implies s2.contains(e) && t.lo(v)
        <= e <= v by {}
    lemma_pd_frame_children(t, v, t.arity(v), s1, s2);
}

proof fn lemma_pd_frame_children(t: Tree, v: int, j: int, s1: Set<int>, s2: Set<int>)
    requires
        t.wf(),
        t.is_node(v),
        0 <= j <= t.arity(v),
        forall|e: int| t.lo(v) <= e <= v ==> (s1.contains(e) <==> s2.contains(e)),
    ensures
        t.pd_of_children(v, j, s1) == t.pd_of_children(v, j, s2),
        t.edges_of_children(v, j, s1) == t.edges_of_children(v, j, s2),
    decreases v, 0int, j,
{
    if j > 0 {
        let c = t.child(v, j - 1);
        assert(t.node_ok(v));
        lemma_struct(t, v);
        lemma_pd_frame_children(t, v, j - 1, s1, s2);
        assert(t.lo(v) <= t.lo(c) && c <= v - 1);
        assert forall|e: int| t.lo(c) <= e <= c implies (s1.contains(e) <==> s2.contains(
            e,
        )) by {}
        lemma_pd_frame(t, c, s1, s2);
    }
}

/// Edge-weight sums are nonnegative for any arena.
pub proof fn lemma_sw_nonneg(t: Tree, v: int)
    ensures
        t.subtree_weight(v) >= 0,
    decreases v, 1int, 0int,
{
    lemma_sw_children_nonneg(t, v, t.arity(v));
}

pub proof fn lemma_sw_children_nonneg(t: Tree, v: int, j: int)
    ensures
        t.sw_of_children(v, j) >= 0,
    decreases v, 0int, j,
{
    if j > 0 {
        lemma_sw_children_nonneg(t, v, j - 1);
        let c = t.child(v, j - 1);
        if 0 <= c < v {
            lemma_sw_nonneg(t, c);
        }
    }
}

/// Weight prefix sums over the children grow with the prefix.
pub proof fn lemma_sw_children_mono(t: Tree, v: int, j1: int, j2: int)
    requires
        j1 <= j2,
    ensures
        t.sw_of_children(v, j1) <= t.sw_of_children(v, j2),
    decreases j2 - j1,
{
    if j1 < j2 {
        lemma_sw_children_mono(t, v, j1, j2 - 1);
        let c = t.child(v, j2 - 1);
        if 0 <= c < v {
            lemma_sw_nonneg(t, c);
        }
    }
}

/// Prefix facts about the children of `v`: the subtree ranges of the first
/// `j` children tile the id interval that starts at `lo(child(v, 0))`.
pub proof fn lemma_children_prefix(t: Tree, v: int, j: int)
    requires
        t.wf_upto(v + 1),
        0 <= v,
        0 <= j <= t.arity(v),
    ensures
        j > 0 ==> t.size_of_children(v, j) == t.child(v, j - 1) + 1 - t.lo(t.child(v, 0)),
        forall|i: int| 0 <= i < j ==> 1 <= t.subtree_size(#[trigger] t.child(v, i))
            <= t.child(v, i) + 1,
        forall|i: int| 0 <= i < j ==> 1 <= t.cluster_size(#[trigger] t.child(v, i))
            <= t.subtree_size(t.child(v, i)),
        forall|i: int| 0 <= i < j ==> 0 <= t.subtree_weight(#[trigger] t.child(v, i)),
        t.cs_of_children(v, j) >= j,
        t.cs_of_children(v, j) <= t.size_of_children(v, j),
        t.sw_of_children(v, j) >= 0,
        t.size_of_children(v, j) >= 0,
    decreases v, 0int, j,
{
    if j > 0 {
        let c = t.child(v, j - 1);
        assert(t.node_ok(v));
        assert(0 <= c < v);
        lemma_children_prefix(t, v, j - 1);
        lemma_struct(t, c);
        if j == 1 {
            assert(t.size_of_children(v, 1) == t.subtree_size(c));
        } else {
            assert(t.child(v, j - 2) == c - t.subtree_size(c));
        }
    }
}

/// Structural consequences of well-formedness at one node: the subtree of
/// `v` is the id range `[lo(v), v]` with `lo(v) >= 0`, the children's ranges
/// tile `[lo(v), v - 1]`, and the basic quantities are in range.
pub proof fn lemma_struct(t: Tree, v: int)
    requires
        t.wf_upto(v + 1),
        0 <= v,
    ensures
        1 <= t.subtree_size(v) <= v + 1,
        1 <= t.cluster_size(v) <= t.subtree_size(v),
        0 <= t.subtree_weight(v),
        t.arity(v) > 0 ==> t.lo(t.child(v, 0)) == t.lo(v),
        forall|j: int| 0 <= j < t.arity(v) ==> t.lo(v) <= t.lo(#[trigger] t.child(v, j))
            && t.child(v, j) <= v - 1,
        forall|j: int|
            1 <= j < t.arity(v) ==> t.lo(#[trigger] t.child(v, j)) == t.child(v, j - 1) + 1,
    decreases v, 1int, 0int,
{
    let m = t.arity(v);
    assert(t.node_ok(v));
    lemma_children_prefix(t, v, m);
    if m == 0 {
        assert(t.subtree_size(v) == 1);
        assert(t.cluster_size(v) == 1);
        assert(t.subtree_weight(v) == 0);
    } else {
        assert(t.child(v, m - 1) == v - 1);
        assert(t.size_of_children(v, m) == v - t.lo(t.child(v, 0)));
        assert(t.subtree_size(v) == v + 1 - t.lo(t.child(v, 0)));
        lemma_struct(t, t.child(v, 0));
        assert forall|j: int|
            1 <= j < m implies t.lo(#[trigger] t.child(v, j)) == t.child(v, j - 1) + 1 by {
            assert(t.child(v, j - 1) == t.child(v, j) - t.subtree_size(t.child(v, j)));
        }
        assert forall|j: int|
            0 <= j < m implies t.lo(v) <= t.lo(#[trigger] t.child(v, j)) && t.child(v, j) <= v
            - 1 by {
            lemma_child_lo_monotone(t, v, j);
        }
    }
}

/// Prefix sums of cluster sizes over the children grow with the prefix.
proof fn lemma_cs_prefix_mono(t: Tree, v: int, j1: int, j2: int)
    requires
        t.wf(),
        t.is_node(v),
        0 <= j1 <= j2 <= t.arity(v),
    ensures
        t.cs_of_children(v, j1) <= t.cs_of_children(v, j2),
    decreases j2 - j1,
{
    if j1 < j2 {
        lemma_cs_prefix_mono(t, v, j1, j2 - 1);
        assert(t.node_ok(v));
        lemma_struct(t, t.child(v, j2 - 1));
    }
}

/// Find the child of `u` whose subtree range holds `v`.
proof fn lemma_find_child_from(t: Tree, u: int, j: int, v: int) -> (r: int)
    requires
        t.wf(),
        t.is_node(u),
        !t.is_leaf(u),
        0 <= j < t.arity(u),
        t.lo(u) <= v <= t.child(u, j),
    ensures
        0 <= r <= j,
        t.lo(t.child(u, r)) <= v <= t.child(u, r),
    decreases j,
{
    lemma_struct(t, u);
    if v >= t.lo(t.child(u, j)) {
        j
    } else {
        assert(t.lo(t.child(u, 0)) == t.lo(u));
        assert(j >= 1);
        assert(t.lo(t.child(u, j)) == t.child(u, j - 1) + 1);
        lemma_find_child_from(t, u, j - 1, v)
    }
}

/// The cluster of any node inside the subtree range of `u` is no larger
/// than the cluster of `u`.
pub proof fn lemma_cluster_within(t: Tree, u: int, v: int)
    requires
        t.wf(),
        t.is_node(u),
        0 <= v,
        t.lo(u) <= v <= u,
    ensures
        t.cluster_size(v) <= t.cluster_size(u),
    decreases u,
{
    if v < u {
        lemma_struct(t, u);
        assert(!t.is_leaf(u));
        assert(t.node_ok(u));
        assert(t.child(u, t.arity(u) - 1) == u - 1);
        let j = lemma_find_child_from(t, u, t.arity(u) - 1, v);
        let c = t.child(u, j);
        lemma_cluster_within(t, c, v);
        assert(t.node_ok(u));
        lemma_children_prefix(t, u, j);
        assert(t.cs_of_children(u, j + 1) == t.cs_of_children(u, j) + t.cluster_size(c));
        lemma_cs_prefix_mono(t, u, j + 1, t.arity(u));
        assert(t.cluster_size(u) == t.cs_of_children(u, t.arity(u)));
    }
}

/// Every cluster is at most the whole tree's leaf count.
pub proof fn lemma_cluster_le_leaves(t: Tree, v: int)
    requires
        t.wf(),
        t.is_node(v),
    ensures
        t.cluster_size(v) <= t.num_leaves(),
{
    lemma_struct(t, t.root());
    assert(t.lo(t.root()) == 0);
    lemma_cluster_within(t, t.root(), v);
}

/// Number of leaf nodes with ids in `[a, b]`.
pub open spec fn leaf_count(t: Tree, a: int, b: int) -> int
    decreases b - a + 1,
{
    if b < a {
        0
    } else {
        leaf_count(t, a, b - 1) + if t.is_node(b) && t.is_leaf(b) {
            1int
        } else {
            0
        }
    }
}

proof fn lemma_leaf_count_split(t: Tree, a: int, b: int, c: int)
    requires
        a - 1 <= b <= c,
    ensures
        leaf_count(t, a, c) == leaf_count(t, a, b) + leaf_count(t, b + 1, c),
    decreases c - b,
{
    if c > b {
        lemma_leaf_count_split(t, a, b, c - 1);
    }
}

/// The cluster of `v` counts exactly the leaf ids of its subtree range.
pub proof fn lemma_cluster_is_range_count(t: Tree, v: int)
    requires
        t.wf(),
        t.is_node(v),
    ensures
        t.cluster_size(v) == leaf_count(t, t.lo(v), v),
    decreases v, 1int, 0int,
{
    lemma_struct(t, v);
    if t.is_leaf(v) {
        assert(t.subtree_size(v) == 1);
        assert(leaf_count(t, v, v - 1) == 0);
    } else {
        let m = t.arity(v);
        assert(t.node_ok(v));
        lemma_cluster_count_children(t, v, m);
        assert(t.child(v, m - 1) == v - 1);
        assert(leaf_count(t, t.lo(v), v) == leaf_count(t, t.lo(v), v - 1));
        assert(t.cluster_size(v) == t.cs_of_children(v, m));
    }
}

proof fn lemma_cluster_count_children(t: Tree, v: int, j: int)
    requires
        t.wf(),
        t.is_node(v),
        !t.is_leaf(v),
        1 <= j <= t.arity(v),
    ensures
        leaf_count(t, t.lo(v), t.child(v, j - 1)) == t.cs_of_children(v, j),
    decreases v, 0int, j,
{
    lemma_struct(t, v);
    assert(t.node_ok(v));
    let c = t.child(v, j - 1);
    assert(0 <= c < v);
    lemma_cluster_is_range_count(t, c);
    lemma_struct(t, c);
    if j == 1 {
        assert(t.lo(c) == t.lo(v));
        assert(t.cs_of_children(v, 0) == 0);
    } else {
        lemma_cluster_count_children(t, v, j - 1);
        assert(t.lo(c) == t.child(v, j - 2) + 1);
        lemma_leaf_count_split(t, t.lo(v), t.child(v, j - 2), c);
    }
}

/// A finite set of distinct leaf ids inside a range is no larger than the
/// range's leaf count.
pub proof fn lemma_card_le_leaf_count(t: Tree, s: Set<int>, a: int, b: int)
    requires
        s.finite(),
        forall|e: int| s.contains(e) ==> a <= e <= b && t.is_node(e) && t.is_leaf(e),
    ensures
        s.len() <= leaf_count(t, a, b),
    decreases b - a + 1,
{
    if b < a {
        assert(s =~= Set::<int>::empty());
    } else {
        if s.contains(b) {
            let s2 = s.remove(b);
            lemma_card_le_leaf_count(t, s2, a, b - 1);
        } else {
            lemma_card_le_leaf_count(t, s, a, b - 1);
        }
    }
}

/// A copy of an optional taxon label.
fn clone_label(l: &Option<String>) -> (r: Option<String>)
    ensures
        r == *l,
{
    match l {
        None => None,
        Some(s) => Some(s.clone()),
    }
}

impl Tree {
    /// Check a node arena and admit it as a `Tree` exactly when it is
    /// well-formed: a nonempty, connected postorder layout whose edge
    /// weights have a representable total below every node.
    #[verifier::loop_isolation(false)]
    #[verifier::rlimit(60)]
    pub fn from_nodes(nodes: Vec<Node>) -> (r: Option<Tree>)
        ensures
            r matches Some(t) ==> t == (Tree { nodes: nodes }) && t.wf(),
            (Tree { nodes: nodes }).wf() ==> r is Some,
    {
        let t = Tree { nodes };
        let n = t.nodes.len();
        if n == 0 || n > u32::MAX as usize {
            return None;
        }
        let mut size: Vec<usize> = Vec::new();
        let mut swv: Vec<u64> = Vec::new();
        let mut v: usize = 0;
        while v < n
            invariant
                v <= n,
                size@.len() == v as int,
                swv@.len() == v as int,
                t.wf_upto(v as int),
                forall|u: int| 0 <= u < v as int ==> #[trigger] size@[u] as int
                    == t.subtree_size(u),
                forall|u: int| 0 <= u < v as int ==> #[trigger] swv@[u] as int
                    == t.subtree_weight(u),
            decreases n - v,
        {
            let m = t.nodes[v].children.len();
            if m == 0 {
                proof {
                    assert(t.node_ok(v as int));
                    assert(t.subtree_size(v as int) == 1);
                    assert(t.subtree_weight(v as int) == 0);
                }
                size.push(1);
                swv.push(0);
            } else {
                let mut j: usize = 0;
                let mut acc: u64 = 0;
                while j < m
                    invariant
                        j <= m,
                        m == t.arity(v as int),
                        acc as int == t.sw_of_children(v as int, j as int),
                        forall|jj: int| 0 <= jj < j as int ==> 0 <= #[trigger] t.child(
                            v as int,
                            jj,
                        ) < v as int,
                        forall|jj: int|
                            1 <= jj < j as int ==> #[trigger] t.child(v as int, jj - 1)
                                == t.child(v as int, jj) - t.subtree_size(t.child(v as int, jj)),
                    decreases m - j,
                {
                    let c = t.nodes[v].children[j];
                    if c >= v {
                        proof {
                            assert(!t.node_ok(v as int));
                        }
                        return None;
                    }
                    if j >= 1 {
                        let cprev = t.nodes[v].children[j - 1];
                        let sc = size[c];
                        if sc > c || cprev != c - sc {
                            proof {
                                assert(t.subtree_size(c as int) == sc as int);
                                assert(!t.node_ok(v as int));
                            }
                            return None;
                        }
                    }
                    let wc = t.nodes[c].weight;
                    let swc = swv[c];
                    proof {
                        lemma_sw_children_mono(t, v as int, j as int + 1, m as int);
                        assert(t.sw_of_children(v as int, j as int + 1) == acc as int
                            + wc as int + swc as int);
                    }
                    if acc > u64::MAX - wc {
                        proof {
                            assert(t.subtree_weight(v as int) > u64::MAX as int);
                        }
                        return None;
                    }
                    let acc1 = acc + wc;
                    if acc1 > u64::MAX - swc {
                        proof {
                            assert(t.subtree_weight(v as int) > u64::MAX as int);
                        }
                        return None;
                    }
                    acc = acc1 + swc;
                    j = j + 1;
                }
                let clast = t.nodes[v].children[m - 1];
                if clast != v - 1 {
                    proof {
                        assert(!t.node_ok(v as int));
                    }
                    return None;
                }
                proof {
                    assert(t.node_ok(v as int));
                    assert(t.wf_upto(v as int + 1));
                    lemma_children_prefix(t, v as int, m as int);
                    lemma_struct(t, t.child(v as int, 0));
                }
                let c0 = t.nodes[v].children[0];
                let si = v - c0 + size[c0];
                proof {
                    assert(si as int == t.subtree_size(v as int));
                }
                size.push(si);
                swv.push(acc);
            }
            v = v + 1;
        }
        if size[n - 1] != n {
            proof {
                assert(t.subtree_size(t.root()) != t.len());
            }
            return None;
        }
        proof {
            assert forall|u: int| t.is_node(u) implies #[trigger] t.subtree_weight(u)
                <= u64::MAX as int by {
                assert(swv@[u] as int == t.subtree_weight(u));
            }
            assert(t.wf());
        }
        Some(t)
    }

    /// Does every non-leaf node have exactly two children?
    #[verifier::loop_isolation(false)]
    pub fn is_binary(&self) -> (r: bool)
        ensures
            r == self.is_binary_spec(),
    {
        let n = self.nodes.len();
        let mut v: usize = 0;
        while v < n
            invariant
                v <= n,
                forall|u: int|
                    0 <= u < v as int ==> #[trigger] self.arity(u) == 0 || self.arity(u) == 2,
            decreases n - v,
        {
            let m = self.nodes[v].children.len();
            if m != 0 && m != 2 {
                proof {
                    assert(self.arity(v as int) == m as int);
                    assert(self.is_node(v as int));
                    assert(!self.is_binary_spec());
                }
                return false;
            }
            v = v + 1;
        }
        true
    }

    /// The taxon label of a node, if it carries one.
    pub fn get_node_taxa(&self, node_id: usize) -> (r: Option<String>)
        requires
            (node_id as int) < self.len(),
        ensures
            r == self.nodes@[node_id as int].label,
    {
        clone_label(&self.nodes[node_id].label)
    }
}

/// Append the subtree of `v`, with every multifurcation split into a
/// left-leaning cascade of fresh zero-weight nodes, to `out` in postorder.
/// The appended region is a valid postorder arena slice of leaf and binary
/// nodes whose last entry stands for `v`: it keeps `v`'s incoming edge
/// weight and total subtree weight, and the leaves keep their labels and
/// root-to-leaf path weights.
#[verifier::loop_isolation(false)]
#[verifier::rlimit(100)]
fn emit_binarized(t: &Tree, v: usize, out: &mut Vec<Node>)
    requires
        t.wf_upto(v as int + 1),
        (v as int) < t.len(),
        forall|u: int| 0 <= u <= v as int ==> #[trigger] t.arity(u) != 1,
        forall|u: int|
            0 <= u <= v as int ==> #[trigger] t.subtree_weight(u) <= u64::MAX as int,
    ensures
        final(out)@.len() > old(out)@.len(),
        final(out)@.len() - old(out)@.len() <= 2 * t.subtree_size(v as int) - 1,
        forall|u: int| 0 <= u < old(out)@.len() ==> #[trigger] final(out)@[u] == old(out)@[u],
        forall|u: int|
            old(out)@.len() <= u < final(out)@.len() ==> #[trigger] (Tree {
                nodes: *final(out),
            }).node_ok(u),
        forall|u: int|
            old(out)@.len() <= u < final(out)@.len() ==> (#[trigger] (Tree {
                nodes: *final(out),
            }).arity(u)) == 0 || (Tree { nodes: *final(out) }).arity(u) == 2,
        forall|u: int|
            old(out)@.len() <= u < final(out)@.len() ==> (#[trigger] (Tree {
                nodes: *final(out),
            }).subtree_weight(u)) <= u64::MAX as int,
        (Tree { nodes: *final(out) }).subtree_size(final(out)@.len() - 1) == final(out)@.len()
            - old(out)@.len(),
        final(out)@[final(out)@.len() - 1].weight == t.weight(v as int),
        (Tree { nodes: *final(out) }).subtree_weight(final(out)@.len() - 1) == t.subtree_weight(
            v as int,
        ),
        (Tree { nodes: *final(out) }).labels_below(final(out)@.len() - 1) == t.labels_below(
            v as int,
        ),
        (Tree { nodes: *final(out) }).leaf_profile(final(out)@.len() - 1) == t.leaf_profile(
            v as int,
        ),
    decreases v,
{
    let ghost s0 = out@.len() as int;
    let m = t.nodes[v].children.len();
    proof {
        assert(t.node_ok(v as int));
        assert(t.arity(v as int) != 1);
    }
    if m == 0 {
        let label = clone_label(&t.nodes[v].label);
        out.push(Node { children: Vec::new(), weight: t.nodes[v].weight, label });
        proof {
            let tn = (Tree { nodes: *out });
            let r = out@.len() - 1;
            assert(tn.is_leaf(r));
            assert(tn.node_ok(r));
            assert(tn.subtree_size(r) == 1);
            assert(tn.subtree_weight(r) == 0);
            assert(t.subtree_weight(v as int) == 0);
            assert(t.subtree_size(v as int) == 1);
            assert(tn.labels_below(r) =~= t.labels_below(v as int));
            assert(tn.leaf_profile(r) =~= t.leaf_profile(v as int));
        }
    } else {
        let c0 = t.nodes[v].children[0];
        proof {
            assert(c0 as int == t.child(v as int, 0));
            assert(0 <= t.child(v as int, 0) < v as int);
            assert(m >= 2);
        }
        emit_binarized(t, c0, out);
        proof {
            let tn = (Tree { nodes: *out });
            let r = out@.len() - 1;
            lemma_struct(*t, c0 as int);
            assert(t.sw_of_children(v as int, 0) == 0);
            assert(t.sw_of_children(v as int, 1) == t.weight(c0 as int) + t.subtree_weight(
                c0 as int,
            ));
            assert(t.size_of_children(v as int, 0) == 0);
            assert(t.size_of_children(v as int, 1) == t.subtree_size(c0 as int));
            assert(t.labels_of_children(v as int, 0) == Seq::<Option<String>>::empty());
            assert(t.labels_of_children(v as int, 1) =~= t.labels_below(c0 as int));
            assert(t.profile_of_children(v as int, 0) == Seq::<(Option<String>, int)>::empty());
            assert(t.profile_of_children(v as int, 1) =~= shift_profile(
                t.leaf_profile(c0 as int),
                t.weight(c0 as int) as int,
            ));
            assert(shift_profile(tn.leaf_profile(r), tn.nodes@[r].weight as int)
                == t.profile_of_children(v as int, 1));
        }
        let mut prev = out.len() - 1;
        let mut j: usize = 1;
        while j < m
            invariant
                1 <= j <= m,
                m == t.arity(v as int),
                prev as int == out@.len() - 1,
                out@.len() > s0,
                out@.len() - s0 <= 2 * t.size_of_children(v as int, j as int) - 1,
                forall|u: int| 0 <= u < s0 ==> #[trigger] out@[u] == old(out)@[u],
                forall|u: int|
                    s0 <= u < out@.len() ==> #[trigger] (Tree { nodes: *out }).node_ok(u),
                forall|u: int|
                    s0 <= u < out@.len() ==> (#[trigger] (Tree { nodes: *out }).arity(u)) == 0
                        || (Tree { nodes: *out }).arity(u) == 2,
                forall|u: int|
                    s0 <= u < out@.len() ==> (#[trigger] (Tree { nodes: *out }).subtree_weight(
                        u,
                    )) <= u64::MAX as int,
                (Tree { nodes: *out }).subtree_size(prev as int) == out@.len() - s0,
                j < m ==> (Tree { nodes: *out }).subtree_weight(prev as int) + out@[prev as int].weight
                    == t.sw_of_children(v as int, j as int),
                j == m ==> (Tree { nodes: *out }).subtree_weight(prev as int)
                    == t.subtree_weight(v as int) && out@[prev as int].weight == t.weight(
                    v as int,
                ),
                (Tree { nodes: *out }).labels_below(prev as int) == t.labels_of_children(
                    v as int,
                    j as int,
                ),
                j < m ==> shift_profile(
                    (Tree { nodes: *out }).leaf_profile(prev as int),
                    out@[prev as int].weight as int,
                ) == t.profile_of_children(v as int, j as int),
                j == m ==> (Tree { nodes: *out }).leaf_profile(prev as int)
                    == t.profile_of_children(v as int, j as int),
            decreases m - j,
        {
            let cj = t.nodes[v].children[j];
            proof {
                assert(t.node_ok(v as int));
                assert(cj as int == t.child(v as int, j as int));
                assert(0 <= t.child(v as int, j as int) < v as int);
                lemma_struct(*t, cj as int);
            }
            let ghost a0 = *out;
            let ghost len_before = out@.len() as int;
            emit_binarized(t, cj, out);
            let cid = out.len() - 1;
            let mut kids: Vec<usize> = Vec::new();
            kids.push(prev);
            kids.push(cid);
            let w: u64 = if j == m - 1 {
                t.nodes[v].weight
            } else {
                0
            };
            let ghost a1 = *out;
            let ghost len_mid = out@.len() as int;
            out.push(Node { children: kids, weight: w, label: None });
            proof {
                let ta = (Tree { nodes: a0 });
                let tb = (Tree { nodes: a1 });
                let tn = (Tree { nodes: *out });
                let casc = out@.len() - 1;
                // Everything already emitted keeps its meaning as the arena grows.
                assert forall|u: int| 0 <= u < len_mid implies #[trigger] out@[u] == a1[u] by {}
                assert forall|u: int| 0 <= u < len_before implies #[trigger] a1[u] == a0[u] by {}
                assert forall|u: int| s0 <= u < len_before implies #[trigger] tn.node_ok(
                    u,
                ) by {
                    lemma_prefix_stable(ta, tn, u);
                }
                assert forall|u: int| s0 <= u < len_before implies (#[trigger] tn.arity(u)) == 0
                    || tn.arity(u) == 2 by {
                    lemma_prefix_stable(ta, tn, u);
                }
                assert forall|u: int| s0 <= u < len_before implies (#[trigger] tn.subtree_weight(
                    u,
                )) <= u64::MAX as int by {
                    lemma_prefix_stable(ta, tn, u);
                }
                assert forall|u: int| len_before <= u < len_mid implies #[trigger] tn.node_ok(
                    u,
                ) by {
                    lemma_prefix_stable(tb, tn, u);
                }
                assert forall|u: int| len_before <= u < len_mid implies (#[trigger] tn.arity(
                    u,
                )) == 0 || tn.arity(u) == 2 by {
                    lemma_prefix_stable(tb, tn, u);
                }
                assert forall|u: int|
                    len_before <= u < len_mid implies (#[trigger] tn.subtree_weight(u))
                        <= u64::MAX as int by {
                    lemma_prefix_stable(tb, tn, u);
                }
                lemma_prefix_stable(ta, tn, prev as int);
                lemma_prefix_stable(tb, tn, cid as int);
                lemma_labels_stable(ta, tn, prev as int);
                lemma_labels_stable(tb, tn, cid as int);
                // The fresh cascade node.
                assert(tn.arity(casc) == 2);
                assert(tn.child(casc, 0) == prev as int);
                assert(tn.child(casc, 1) == cid as int);
                assert(tn.subtree_size(cid as int) == len_mid - len_before);
                assert forall|jj: int| 0 <= jj < tn.arity(casc) implies 0 <= #[trigger] tn.child(
                    casc,
                    jj,
                ) < casc by {
                    if jj == 0 {
                        assert(tn.child(casc, 0) == prev as int);
                    } else {
                        assert(tn.child(casc, 1) == cid as int);
                    }
                }
                assert forall|jj: int|
                    1 <= jj < tn.arity(casc) implies #[trigger] tn.child(casc, jj - 1)
                        == tn.child(casc, jj) - tn.subtree_size(tn.child(casc, jj)) by {
                    assert(jj == 1);
                    assert(prev as int == cid as int - tn.subtree_size(cid as int));
                }
                assert(tn.node_ok(casc));
                // Size: the emitted region is exactly the cascade's subtree.
                assert(tn.size_of_children(casc, 0) == 0);
                assert(tn.size_of_children(casc, 1) == tn.subtree_size(prev as int));
                assert(tn.size_of_children(casc, 2) == tn.subtree_size(prev as int)
                    + tn.subtree_size(cid as int));
                assert(tn.subtree_size(casc) == out@.len() - s0);
                // Weight: the cascade sums what its two sides carry.
                assert(tn.sw_of_children(casc, 0) == 0);
                assert(tn.sw_of_children(casc, 1) == tn.weight(prev as int)
                    + tn.subtree_weight(prev as int));
                assert(tn.subtree_weight(casc) == tn.weight(prev as int) + tn.subtree_weight(
                    prev as int,
                ) + tn.weight(cid as int) + tn.subtree_weight(cid as int));
                assert(tn.weight(prev as int) as int == a0[prev as int].weight as int);
                assert(tn.subtree_weight(casc) == t.sw_of_children(v as int, j as int)
                    + t.weight(cj as int) + t.subtree_weight(cj as int));
                assert(t.sw_of_children(v as int, j as int + 1) == t.sw_of_children(
                    v as int,
                    j as int,
                ) + t.weight(cj as int) + t.subtree_weight(cj as int));
                lemma_sw_children_mono(*t, v as int, j as int + 1, m as int);
                assert(tn.subtree_weight(casc) <= t.subtree_weight(v as int));
                // Count: one fresh node per extra child.
                assert(t.size_of_children(v as int, j as int + 1) == t.size_of_children(
                    v as int,
                    j as int,
                ) + t.subtree_size(cj as int));
                // Labels and profile concatenate left to right.
                assert(tn.labels_of_children(casc, 0) == Seq::<Option<String>>::empty());
                assert(tn.labels_of_children(casc, 1) =~= tn.labels_below(prev as int));
                assert(tn.labels_below(casc) == tn.labels_of_children(casc, 2));
                assert(tn.labels_below(casc) == tn.labels_below(prev as int) + tn.labels_below(
                    cid as int,
                ));
                assert(t.labels_of_children(v as int, j as int + 1) == t.labels_of_children(
                    v as int,
                    j as int,
                ) + t.labels_below(cj as int));
                assert(tn.profile_of_children(casc, 0) == Seq::<(Option<String>, int)>::empty());
                assert(tn.profile_of_children(casc, 1) =~= shift_profile(
                    tn.leaf_profile(prev as int),
                    tn.weight(prev as int) as int,
                ));
                assert(tn.leaf_profile(casc) == tn.profile_of_children(casc, 2));
                assert(tn.leaf_profile(casc) == shift_profile(
                    tn.leaf_profile(prev as int),
                    tn.weight(prev as int) as int,
                ) + shift_profile(tn.leaf_profile(cid as int), tn.weight(cid as int) as int));
                assert(t.profile_of_children(v as int, j as int + 1) == t.profile_of_children(
                    v as int,
                    j as int,
                ) + shift_profile(t.leaf_profile(cj as int), t.weight(cj as int) as int));
                assert(tn.leaf_profile(casc) == t.profile_of_children(v as int, j as int + 1));
                if j + 1 < m {
                    assert(out@[casc].weight == 0);
                    lemma_shift_zero(tn.leaf_profile(casc));
                }
            }
            prev = out.len() - 1;
            j = j + 1;
        }
        proof {
            assert(t.labels_below(v as int) == t.labels_of_children(v as int, m as int));
            assert(t.leaf_profile(v as int) == t.profile_of_children(v as int, m as int));
            assert(t.subtree_weight(v as int) == t.sw_of_children(v as int, m as int));
            assert(t.subtree_size(v as int) == 1 + t.size_of_children(v as int, m as int));
        }
    }
}

/// Split every node with three or more children into a cascade of binary
/// nodes joined by zero-weight edges. On success the tree is replaced by
/// the binary version: well-formed, binary, with the same leaves in the
/// same order, each keeping its label and its root-to-leaf path weight —
/// so the diversity of every subset of the original leaves is unchanged.
/// An already-binary tree is returned as it is. The call fails, leaving
/// the tree unchanged, only on a unary node or a tree too large to rebuild
/// within the arena's size bound.
pub fn binarize_tree(tree: &mut Tree) -> (ok: bool)
    requires
        old(tree).wf(),
    ensures
        ok ==> (*final(tree)).wf() && (*final(tree)).is_binary_spec(),
        ok ==> (*final(tree)).labels_below((*final(tree)).root()) == (*old(tree)).labels_below(
            (*old(tree)).root(),
        ),
        ok ==> (*final(tree)).leaf_profile((*final(tree)).root()) == (*old(
            tree,
        )).leaf_profile((*old(tree)).root()),
        (*old(tree)).is_binary_spec() ==> ok && *final(tree) == *old(tree),
        (forall|u: int| (*old(tree)).is_node(u) ==> (*old(tree)).arity(u) != 1) && 2 * (*old(
            tree,
        )).len() <= u32::MAX as int ==> ok,
        !ok ==> *final(tree) == *old(tree),
{
    if tree.is_binary() {
        return true;
    }
    let n = tree.nodes.len();
    let mut v: usize = 0;
    while v < n
        invariant
            v <= n,
            n == tree.len(),
            tree.wf(),
            *tree == *old(tree),
            forall|u: int| 0 <= u < v as int ==> #[trigger] tree.arity(u) != 1,
        decreases n - v,
    {
        if tree.nodes[v].children.len() == 1 {
            proof {
                assert(tree.arity(v as int) == 1);
            }
            return false;
        }
        v = v + 1;
    }
    if n > (u32::MAX / 2) as usize {
        return false;
    }
    let root = n - 1;
    proof {
        assert(tree.wf_upto(root as int + 1));
        assert forall|u: int| 0 <= u <= root as int implies #[trigger] tree.subtree_weight(u)
            <= u64::MAX as int by {
            assert(tree.is_node(u));
        }
    }
    let mut out: Vec<Node> = Vec::new();
    emit_binarized(tree, root, &mut out);
    proof {
        let tn = (Tree { nodes: out });
        assert(tn.len() >= 1);
        assert(tn.len() <= 2 * tree.len() - 1);
        assert(tn.len() <= u32::MAX as int);
        assert forall|u: int| tn.is_node(u) implies #[trigger] tn.node_ok(u) by {}
        assert forall|u: int| tn.is_node(u) implies #[trigger] tn.subtree_weight(u)
            <= u64::MAX as int by {}
        assert(tn.subtree_size(tn.root()) == tn.len());
        assert(tn.wf());
        assert forall|u: int| tn.is_node(u) implies #[trigger] tn.arity(u) == 0 || tn.arity(u)
            == 2 by {}
        assert(tn.is_binary_spec());
    }
    match Tree::from_nodes(out) {
        None => {
            proof {
                assert(false);
            }
            false
        },
        Some(t2) => {
            if t2.is_binary() {
                *tree = t2;
                true
            } else {
                proof {
                    assert(false);
                }
                false
            }
        },
    }
}

/// The `j`-th child's range starts at or after `lo(v)`.
proof fn lemma_child_lo_monotone(t: Tree, v: int, j: int)
    requires
        t.wf_upto(v + 1),
        0 <= v,
        0 <= j < t.arity(v),
        t.arity(v) > 0,
    ensures
        t.lo(t.child(v, j)) >= t.lo(t.child(v, 0)),
        t.child(v, j) <= v - 1,
    decreases v, 0int, j,
{
    assert(t.node_ok(v));
    lemma_struct(t, t.child(v, j));
    if j > 0 {
        lemma_child_lo_monotone(t, v, j - 1);
        lemma_struct(t, t.child(v, j - 1));
        assert(t.child(v, j - 1) == t.child(v, j) - t.subtree_size(t.child(v, j)));
    }
}

} // verus!
