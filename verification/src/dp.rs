//! The extremal phylogenetic-diversity recurrence.
//!
//! For a binary tree, a node `v` and a subset size `k`, the recurrence walks
//! every split `(l, k - l)` of `k` over the two children of `v`, combines the
//! children's optima, and keeps the best combination. `bar_cand` tracks the
//! extremal absolute diversity, `hat_cand` the extremal normalized diversity
//! (diversity divided by induced edge count) over the same candidate stream.
//! Ties keep the first candidate in split order.

use vstd::prelude::*;

use crate::tree::Tree;
use crate::tree::id_set;
use crate::tree::lemma_children_prefix;
use crate::tree::lemma_struct;
use crate::tree::lemma_pd_frame;

verus! {

/// Which extremum the engine tracks.
#[derive(Clone, Copy, PartialEq, Eq, Structural)]
pub enum Extremum {
    Min,
    Max,
}

/// One candidate: an achievable diversity value, the induced edge count it
/// comes with, and the witness leaf ids that achieve it.
pub struct Cand {
    pub val: int,
    pub edges: int,
    pub set: Seq<usize>,
}

/// Is `a` strictly better than `b` under `op`?
pub open spec fn better(op: Extremum, a: int, b: int) -> bool {
    match op {
        Extremum::Min => a < b,
        Extremum::Max => a > b,
    }
}

/// Is the ratio `av / ae` strictly better than `bv / be` under `op`?
/// Stated by cross-multiplication; both denominators must be positive.
pub open spec fn better_ratio(op: Extremum, av: int, ae: int, bv: int, be: int) -> bool {
    match op {
        Extremum::Min => av * be < bv * ae,
        Extremum::Max => av * be > bv * ae,
    }
}

/// Smallest left share of a split of `k` at `v`.
pub open spec fn split_lo(t: Tree, v: int, k: int) -> int {
    let y = t.child(v, 1);
    if k - t.cluster_size(y) > 0 {
        k - t.cluster_size(y)
    } else {
        0
    }
}

/// Largest left share of a split of `k` at `v`.
pub open spec fn split_hi(t: Tree, v: int, k: int) -> int {
    let x = t.child(v, 0);
    if k < t.cluster_size(x) {
        k
    } else {
        t.cluster_size(x)
    }
}

/// The candidate built from the split `(l, k - l)` at `v`: each child
/// contributes its own optimum, and a child's incoming edge is charged
/// exactly when that child contributes at least one leaf.
pub open spec fn split_cand(t: Tree, op: Extremum, v: int, k: int, l: int) -> Option<Cand>
    decreases v, 0int, 0int, 0int,
{
    let x = t.child(v, 0);
    let y = t.child(v, 1);
    if 0 <= x < v && 0 <= y < v {
        match (bar_cand(t, op, x, l), bar_cand(t, op, y, k - l)) {
            (Some(a), Some(b)) => Some(
                (Cand {
                    val: a.val + (if l >= 1 {
                        t.weight(x) as int
                    } else {
                        0
                    }) + b.val + (if k - l >= 1 {
                        t.weight(y) as int
                    } else {
                        0
                    }),
                    edges: a.edges + b.edges + (if l >= 1 {
                        1int
                    } else {
                        0
                    }) + (if k - l >= 1 {
                        1int
                    } else {
                        0
                    }),
                    set: a.set + b.set,
                }),
            ),
            _ => None,
        }
    } else {
        None
    }
}

/// Best absolute candidate among the splits with left share in
/// `[split_lo, l]`; earlier splits win ties.
pub open spec fn bar_fold(t: Tree, op: Extremum, v: int, k: int, l: int) -> Option<Cand>
    decreases v, 0int, l - split_lo(t, v, k) + 1, 1int,
{
    if l < split_lo(t, v, k) {
        None
    } else {
        let prev = bar_fold(t, op, v, k, l - 1);
        let cur = split_cand(t, op, v, k, l);
        match (prev, cur) {
            (None, c) => c,
            (Some(p), None) => Some(p),
            (Some(p), Some(c)) => if better(op, c.val, p.val) {
                Some(c)
            } else {
                Some(p)
            },
        }
    }
}

/// Best normalized candidate among the splits with left share in
/// `[split_lo, l]`; candidates with no induced edge are skipped, and earlier
/// splits win ties.
pub open spec fn hat_fold(t: Tree, op: Extremum, v: int, k: int, l: int) -> Option<Cand>
    decreases v, 0int, l - split_lo(t, v, k) + 1, 1int,
{
    if l < split_lo(t, v, k) {
        None
    } else {
        let prev = hat_fold(t, op, v, k, l - 1);
        let cur = match split_cand(t, op, v, k, l) {
            Some(c) => if c.edges > 0 {
                Some(c)
            } else {
                None
            },
            None => None,
        };
        match (prev, cur) {
            (None, c) => c,
            (Some(p), None) => Some(p),
            (Some(p), Some(c)) => if better_ratio(op, c.val, c.edges, p.val, p.edges) {
                Some(c)
            } else {
                Some(p)
            },
        }
    }
}

/// The extremal absolute diversity at `v` for subset size `k`, with witness.
/// `None` exactly when no `k`-leaf subset exists below `v`.
pub open spec fn bar_cand(t: Tree, op: Extremum, v: int, k: int) -> Option<Cand>
    decreases v, 1int, 0int, 0int,
{
    if !t.is_node(v) || k < 0 || k > t.cluster_size(v) {
        None
    } else if k == 0 {
        Some((Cand { val: 0, edges: 0, set: Seq::empty() }))
    } else if t.is_leaf(v) {
        Some((Cand { val: 0, edges: 0, set: seq![v as usize] }))
    } else {
        bar_fold(t, op, v, k, split_hi(t, v, k))
    }
}

/// The extremal normalized diversity at `v` for subset size `k`, with
/// witness. At `k == 0` and at a leaf the entry is the conventional `(0, 0)`.
pub open spec fn hat_cand(t: Tree, op: Extremum, v: int, k: int) -> Option<Cand>
    decreases v, 1int, 0int, 0int,
{
    if !t.is_node(v) || k < 0 || k > t.cluster_size(v) {
        None
    } else if k == 0 {
        Some((Cand { val: 0, edges: 0, set: Seq::empty() }))
    } else if t.is_leaf(v) {
        Some((Cand { val: 0, edges: 0, set: seq![v as usize] }))
    } else {
        hat_fold(t, op, v, k, split_hi(t, v, k))
    }
}

/// All invariants of a candidate at `(v, k)`: the witness holds exactly `k`
/// distinct leaf ids from the subtree range of `v`, and the value and edge
/// count are exactly those induced by the witness, within machine bounds.
pub open spec fn cand_ok(t: Tree, v: int, k: int, c: Cand) -> bool {
    &&& c.set.len() == k
    &&& forall|i: int|
        0 <= i < c.set.len() ==> t.lo(v) <= #[trigger] c.set[i] as int <= v && t.is_leaf(
            c.set[i] as int,
        )
    &&& forall|i1: int, i2: int| 0 <= i1 < i2 < c.set.len() ==> c.set[i1] != c.set[i2]
    &&& c.val == t.pd_below(v, id_set(c.set))
    &&& c.edges == t.edges_below(v, id_set(c.set))
    &&& 0 <= c.val <= t.subtree_weight(v)
    &&& 0 <= c.edges <= t.subtree_size(v) - 1
}

/// Membership in the id set of a concatenation.
pub proof fn lemma_id_set_concat(a: Seq<usize>, b: Seq<usize>)
    ensures
        forall|e: int| #[trigger]
            id_set(a + b).contains(e) <==> (id_set(a).contains(e) || id_set(b).contains(e)),
{
    assert forall|e: int| #[trigger]
        id_set(a + b).contains(e) implies (id_set(a).contains(e) || id_set(b).contains(e)) by {
        let i = choose|i: int| 0 <= i < (a + b).len() && (a + b)[i] == e;
        if i < a.len() {
            assert(a[i] == e);
        } else {
            assert(b[i - a.len()] == e);
        }
    }
    assert forall|e: int|
        (id_set(a).contains(e) || id_set(b).contains(e)) implies #[trigger] id_set(
        a + b,
    ).contains(e) by {
        if id_set(a).contains(e) {
            let i = choose|i: int| 0 <= i < a.len() && a[i] == e;
            assert((a + b)[i] == e);
        } else {
            let i = choose|i: int| 0 <= i < b.len() && b[i] == e;
            assert((a + b)[a.len() + i] == e);
        }
    }
}

/// A set without members never touches a node and induces nothing.
pub(crate) proof fn lemma_pd_children_empty(t: Tree, v: int, j: int, s: Set<int>)
    requires
        forall|e: int| !s.contains(e),
    ensures
        t.pd_of_children(v, j, s) == 0,
        t.edges_of_children(v, j, s) == 0,
    decreases j,
{
    if j > 0 {
        lemma_pd_children_empty(t, v, j - 1, s);
        assert(!t.touches(t.child(v, j - 1), s));
    }
}

/// The candidate of one in-range split is defined and well-formed, and
/// induces at least one edge.
pub(crate) proof fn lemma_split_ok(t: Tree, op: Extremum, v: int, k: int, l: int)
    requires
        t.wf(),
        t.is_binary_spec(),
        t.is_node(v),
        !t.is_leaf(v),
        1 <= k <= t.cluster_size(v),
        split_lo(t, v, k) <= l <= split_hi(t, v, k),
    ensures
        split_cand(t, op, v, k, l) matches Some(c) && cand_ok(t, v, k, c) && c.edges > 0,
    decreases v, 0int, l - split_lo(t, v, k) + 1, 0int,
{
    let x = t.child(v, 0);
    let y = t.child(v, 1);
    assert(t.node_ok(v));
    assert(t.arity(v) == 2);
    lemma_struct(t, v);
    lemma_struct(t, x);
    lemma_struct(t, y);
    assert(t.cluster_size(v) == t.cs_of_children(v, 2));
    assert(t.cs_of_children(v, 0) == 0);
    assert(t.cs_of_children(v, 1) == t.cluster_size(x));
    assert(t.cluster_size(v) == t.cluster_size(x) + t.cluster_size(y));
    assert(0 <= l <= t.cluster_size(x));
    assert(0 <= k - l <= t.cluster_size(y));
    lemma_bar_ok(t, op, x, l);
    lemma_bar_ok(t, op, y, k - l);
    let oa = bar_cand(t, op, x, l);
    let ob = bar_cand(t, op, y, k - l);
    match (oa, ob) {
        (Some(a), Some(b)) => {
            let merged = (Cand {
                val: a.val + (if l >= 1 {
                    t.weight(x) as int
                } else {
                    0
                }) + b.val + (if k - l >= 1 {
                    t.weight(y) as int
                } else {
                    0
                }),
                edges: a.edges + b.edges + (if l >= 1 {
                    1int
                } else {
                    0
                }) + (if k - l >= 1 {
                    1int
                } else {
                    0
                }),
                set: a.set + b.set,
            });
            assert(split_cand(t, op, v, k, l) == Some(merged));
            let sx = id_set(a.set);
            let sy = id_set(b.set);
            let s = id_set(a.set + b.set);
            lemma_id_set_concat(a.set, b.set);
            // The two children's ranges are adjacent and lie below v.
            assert(t.lo(x) == t.lo(v));
            assert(t.lo(y) == x + 1);
            assert(y == v - 1);
            // Members of sx / sy stay inside their child's range.
            assert forall|e: int| #[trigger] sx.contains(e) implies t.lo(x) <= e <= x by {
                let i = choose|i: int| 0 <= i < a.set.len() && a.set[i] == e;
            }
            assert forall|e: int| #[trigger] sy.contains(e) implies t.lo(y) <= e <= y by {
                let i = choose|i: int| 0 <= i < b.set.len() && b.set[i] == e;
            }
            // Whether each child is touched is decided by its own share.
            if l >= 1 {
                let e0 = a.set[0] as int;
                assert(a.set[0] == e0);
                assert(sx.contains(e0));
                assert(s.contains(e0));
                assert(t.lo(x) <= e0 <= x);
                assert(t.touches(x, s));
            } else {
                assert(a.set.len() == 0);
                assert forall|e: int| !(#[trigger] s.contains(e) && t.lo(x) <= e <= x) by {
                    if s.contains(e) && t.lo(x) <= e <= x {
                        assert(sy.contains(e));
                    }
                }
                assert(!t.touches(x, s));
            }
            if k - l >= 1 {
                let e1 = b.set[0] as int;
                assert(b.set[0] == e1);
                assert(sy.contains(e1));
                assert(s.contains(e1));
                assert(t.lo(y) <= e1 <= y);
                assert(t.touches(y, s));
            } else {
                assert(b.set.len() == 0);
                assert forall|e: int| !(#[trigger] s.contains(e) && t.lo(y) <= e <= y) by {
                    if s.contains(e) && t.lo(y) <= e <= y {
                        assert(sx.contains(e));
                    }
                }
                assert(!t.touches(y, s));
            }
            // Inside each child's range, s and the child's own share agree.
            assert forall|e: int| t.lo(x) <= e <= x implies (s.contains(e) <==> sx.contains(
                e,
            )) by {
                if sy.contains(e) {
                    assert(t.lo(y) <= e <= y);
                }
            }
            lemma_pd_frame(t, x, s, sx);
            assert forall|e: int| t.lo(y) <= e <= y implies (s.contains(e) <==> sy.contains(
                e,
            )) by {
                if sx.contains(e) {
                    assert(t.lo(x) <= e <= x);
                }
            }
            lemma_pd_frame(t, y, s, sy);
            // Unfold the induced value and edge count at v over its two children.
            assert(t.pd_of_children(v, 0, s) == 0);
            assert(t.pd_of_children(v, 1, s) == if t.touches(x, s) {
                t.weight(x) + t.pd_below(x, s)
            } else {
                0
            });
            assert(t.pd_below(v, s) == t.pd_of_children(v, 1, s) + if t.touches(y, s) {
                t.weight(y) + t.pd_below(y, s)
            } else {
                0
            });
            assert(t.edges_of_children(v, 0, s) == 0);
            assert(t.edges_of_children(v, 1, s) == if t.touches(x, s) {
                1 + t.edges_below(x, s)
            } else {
                0
            });
            assert(t.edges_below(v, s) == t.edges_of_children(v, 1, s) + if t.touches(y, s) {
                1 + t.edges_below(y, s)
            } else {
                0
            });
            assert(merged.val == t.pd_below(v, s));
            assert(merged.edges == t.edges_below(v, s));
            // Machine bounds, from the children's bounds.
            assert(t.subtree_weight(v) == t.sw_of_children(v, 2));
            assert(t.sw_of_children(v, 0) == 0);
            assert(t.sw_of_children(v, 1) == t.weight(x) + t.subtree_weight(x));
            assert(t.subtree_weight(v) == t.weight(x) + t.subtree_weight(x) + t.weight(y)
                + t.subtree_weight(y));
            assert(t.subtree_size(v) == 1 + t.size_of_children(v, 2));
            assert(t.size_of_children(v, 1) == t.subtree_size(x));
            assert(t.subtree_size(v) == 1 + t.subtree_size(x) + t.subtree_size(y));
            // Witness facts for the concatenation.
            assert forall|i: int|
                0 <= i < merged.set.len() implies t.lo(v) <= #[trigger] merged.set[i] as int <= v
                && t.is_leaf(merged.set[i] as int) by {
                if i < a.set.len() {
                    assert(merged.set[i] == a.set[i]);
                } else {
                    assert(merged.set[i] == b.set[i - a.set.len()]);
                }
            }
            assert forall|i1: int, i2: int|
                0 <= i1 < i2 < merged.set.len() implies merged.set[i1] != merged.set[i2] by {
                if i1 < a.set.len() && i2 >= a.set.len() {
                    assert(merged.set[i1] == a.set[i1]);
                    assert(merged.set[i2] == b.set[i2 - a.set.len()]);
                    assert(a.set[i1] as int <= x);
                    assert(t.lo(y) <= b.set[i2 - a.set.len()] as int);
                }
            }
            assert(cand_ok(t, v, k, merged));
        },
        _ => {
            assert(false);
        },
    }
}

/// The running best over a prefix of the split range is defined and
/// well-formed, for both the absolute and the normalized fold.
proof fn lemma_fold_ok(t: Tree, op: Extremum, v: int, k: int, l: int)
    requires
        t.wf(),
        t.is_binary_spec(),
        t.is_node(v),
        !t.is_leaf(v),
        1 <= k <= t.cluster_size(v),
        split_lo(t, v, k) - 1 <= l <= split_hi(t, v, k),
    ensures
        l >= split_lo(t, v, k) ==> (bar_fold(t, op, v, k, l) matches Some(c) && cand_ok(
            t,
            v,
            k,
            c,
        )),
        l >= split_lo(t, v, k) ==> (hat_fold(t, op, v, k, l) matches Some(c) && cand_ok(
            t,
            v,
            k,
            c,
        ) && c.edges > 0),
        l < split_lo(t, v, k) ==> bar_fold(t, op, v, k, l) is None && hat_fold(
            t,
            op,
            v,
            k,
            l,
        ) is None,
    decreases v, 0int, l - split_lo(t, v, k) + 1, 1int,
{
    if l >= split_lo(t, v, k) {
        lemma_fold_ok(t, op, v, k, l - 1);
        lemma_split_ok(t, op, v, k, l);
    }
}

/// Transitivity of the strict cross-multiplied ratio comparison.
proof fn lemma_ratio_trans(op: Extremum, a0: int, a1: int, b0: int, b1: int, c0: int, c1: int)
    requires
        a1 > 0,
        b1 > 0,
        c1 > 0,
        better_ratio(op, a0, a1, b0, b1),
        better_ratio(op, b0, b1, c0, c1),
    ensures
        better_ratio(op, a0, a1, c0, c1),
{
    match op {
        Extremum::Min => {
            assert(a0 * c1 < c0 * a1) by (nonlinear_arith)
                requires
                    a1 > 0,
                    b1 > 0,
                    c1 > 0,
                    a0 * b1 < b0 * a1,
                    b0 * c1 < c0 * b1,
            ;
        },
        Extremum::Max => {
            assert(a0 * c1 > c0 * a1) by (nonlinear_arith)
                requires
                    a1 > 0,
                    b1 > 0,
                    c1 > 0,
                    a0 * b1 > b0 * a1,
                    b0 * c1 > c0 * b1,
            ;
        },
    }
}

/// What the absolute fold keeps is one of the split candidates of its
/// prefix.
pub proof fn lemma_bar_fold_achieves(t: Tree, op: Extremum, v: int, k: int, l: int)
    ensures
        bar_fold(t, op, v, k, l) matches Some(c) ==> exists|lp: int|
            split_lo(t, v, k) <= lp <= l && #[trigger] split_cand(t, op, v, k, lp) == Some(c),
    decreases l - split_lo(t, v, k) + 1,
{
    if l >= split_lo(t, v, k) {
        lemma_bar_fold_achieves(t, op, v, k, l - 1);
        if bar_fold(t, op, v, k, l) is Some {
            let c = bar_fold(t, op, v, k, l)->Some_0;
            if split_cand(t, op, v, k, l) == Some(c) {
                assert(split_lo(t, v, k) <= l <= l && split_cand(t, op, v, k, l) == Some(c));
            } else {
                assert(bar_fold(t, op, v, k, l - 1) == Some(c));
            }
        }
    }
}

/// No split candidate of the prefix beats what the absolute fold keeps.
pub proof fn lemma_bar_fold_optimal(t: Tree, op: Extremum, v: int, k: int, l: int, lp: int)
    requires
        split_lo(t, v, k) <= lp <= l,
    ensures
        split_cand(t, op, v, k, lp) matches Some(d) ==> (bar_fold(t, op, v, k, l)
            matches Some(c) && !better(op, d.val, c.val)),
    decreases l - lp,
{
    if split_cand(t, op, v, k, lp) is Some {
        let d = split_cand(t, op, v, k, lp)->Some_0;
        if l == lp {
            match bar_fold(t, op, v, k, l - 1) {
                None => {
                    assert(bar_fold(t, op, v, k, l) == Some(d));
                },
                Some(p) => {
                    if better(op, d.val, p.val) {
                        assert(bar_fold(t, op, v, k, l) == Some(d));
                    } else {
                        assert(bar_fold(t, op, v, k, l) == Some(p));
                    }
                },
            }
        } else {
            lemma_bar_fold_optimal(t, op, v, k, l - 1, lp);
            let c = bar_fold(t, op, v, k, l - 1)->Some_0;
            match split_cand(t, op, v, k, l) {
                None => {
                    assert(bar_fold(t, op, v, k, l) == Some(c));
                },
                Some(e) => {
                    if better(op, e.val, c.val) {
                        assert(bar_fold(t, op, v, k, l) == Some(e));
                        assert(!better(op, d.val, e.val));
                    } else {
                        assert(bar_fold(t, op, v, k, l) == Some(c));
                    }
                },
            }
        }
    }
}

/// No split candidate with an induced edge beats what the normalized fold
/// keeps, under the exact rational comparison.
pub proof fn lemma_hat_fold_optimal(t: Tree, op: Extremum, v: int, k: int, l: int, lp: int)
    requires
        t.wf(),
        t.is_binary_spec(),
        t.is_node(v),
        !t.is_leaf(v),
        1 <= k <= t.cluster_size(v),
        split_lo(t, v, k) <= lp <= l,
        l <= split_hi(t, v, k),
    ensures
        (split_cand(t, op, v, k, lp) is Some && split_cand(t, op, v, k, lp)->Some_0.edges > 0)
            ==> (hat_fold(t, op, v, k, l) is Some && hat_fold(t, op, v, k, l)->Some_0.edges > 0
            && !better_ratio(
            op,
            split_cand(t, op, v, k, lp)->Some_0.val,
            split_cand(t, op, v, k, lp)->Some_0.edges,
            hat_fold(t, op, v, k, l)->Some_0.val,
            hat_fold(t, op, v, k, l)->Some_0.edges,
        )),
    decreases l - lp,
{
    lemma_fold_ok(t, op, v, k, l);
    if split_cand(t, op, v, k, lp) is Some && split_cand(t, op, v, k, lp)->Some_0.edges > 0 {
        let d = split_cand(t, op, v, k, lp)->Some_0;
        lemma_split_ok(t, op, v, k, lp);
        if l == lp {
            match hat_fold(t, op, v, k, l - 1) {
                None => {
                    assert(hat_fold(t, op, v, k, l) == Some(d));
                },
                Some(p) => {
                    lemma_fold_ok(t, op, v, k, l - 1);
                    if better_ratio(op, d.val, d.edges, p.val, p.edges) {
                        assert(hat_fold(t, op, v, k, l) == Some(d));
                    } else {
                        assert(hat_fold(t, op, v, k, l) == Some(p));
                    }
                },
            }
        } else {
            lemma_hat_fold_optimal(t, op, v, k, l - 1, lp);
            lemma_fold_ok(t, op, v, k, l - 1);
            let c = hat_fold(t, op, v, k, l - 1)->Some_0;
            lemma_split_ok(t, op, v, k, l);
            let e = split_cand(t, op, v, k, l)->Some_0;
            if better_ratio(op, e.val, e.edges, c.val, c.edges) {
                assert(hat_fold(t, op, v, k, l) == Some(e));
                if better_ratio(op, d.val, d.edges, e.val, e.edges) {
                    lemma_ratio_trans(op, d.val, d.edges, e.val, e.edges, c.val, c.edges);
                    assert(false);
                }
            } else {
                assert(hat_fold(t, op, v, k, l) == Some(c));
            }
        }
    }
}

/// The diversity recurrence is defined exactly on the feasible subset sizes,
/// and every defined entry satisfies the candidate invariants. In
/// particular the witness set holds exactly `k` distinct leaves, and the
/// recorded value and edge count are those induced by the witness.
pub proof fn lemma_bar_ok(t: Tree, op: Extremum, v: int, k: int)
    requires
        t.wf(),
        t.is_binary_spec(),
        t.is_node(v),
    ensures
        bar_cand(t, op, v, k) is Some <==> 0 <= k <= t.cluster_size(v),
        hat_cand(t, op, v, k) is Some <==> 0 <= k <= t.cluster_size(v),
        bar_cand(t, op, v, k) matches Some(c) ==> cand_ok(t, v, k, c),
        hat_cand(t, op, v, k) matches Some(c) ==> cand_ok(t, v, k, c),
        k >= 1 && !t.is_leaf(v) && 0 <= k <= t.cluster_size(v) ==> (hat_cand(
            t,
            op,
            v,
            k,
        ) matches Some(c) && c.edges > 0),
    decreases v, 1int, 0int, 0int,
{
    lemma_struct(t, v);
    if !(0 <= k <= t.cluster_size(v)) {
    } else if k == 0 {
        let c = (Cand { val: 0, edges: 0, set: Seq::empty() });
        assert(bar_cand(t, op, v, k) == Some(c));
        lemma_pd_children_empty(t, v, t.arity(v), id_set(c.set));
        assert(cand_ok(t, v, k, c));
    } else if t.is_leaf(v) {
        assert(t.cluster_size(v) == 1);
        assert(k == 1);
        let c = (Cand { val: 0, edges: 0, set: seq![v as usize] });
        assert(bar_cand(t, op, v, k) == Some(c));
        assert(t.subtree_size(v) == 1);
        assert(t.pd_below(v, id_set(c.set)) == 0);
        assert(t.edges_below(v, id_set(c.set)) == 0);
        assert(cand_ok(t, v, k, c));
    } else {
        let x = t.child(v, 0);
        let y = t.child(v, 1);
        assert(t.node_ok(v));
        assert(t.arity(v) == 2);
        lemma_struct(t, x);
        lemma_struct(t, y);
        assert(t.cluster_size(v) == t.cs_of_children(v, 2));
        assert(t.cs_of_children(v, 0) == 0);
        assert(t.cs_of_children(v, 1) == t.cluster_size(x));
        assert(t.cluster_size(v) == t.cluster_size(x) + t.cluster_size(y));
        assert(split_lo(t, v, k) <= split_hi(t, v, k));
        lemma_fold_ok(t, op, v, k, split_hi(t, v, k));
    }
}

/// Does one executable table entry (value-edges pair plus witness list)
/// hold exactly the candidate the recurrence prescribes?
pub open spec fn entry_matches(c: Option<Cand>, e: Option<(u64, u32)>, s: Seq<usize>) -> bool {
    match c {
        None => e is None && s.len() == 0,
        Some(c) => e matches Some(p) && p.0 as int == c.val && p.1 as int == c.edges && s
            == c.set,
    }
}

/// An element-wise copy of a list of node ids.
pub(crate) fn copy_ids(v: &Vec<usize>) -> (r: Vec<usize>)
    ensures
        r@ == v@,
{
    let mut r: Vec<usize> = Vec::new();
    let mut i: usize = 0;
    while i < v.len()
        invariant
            i <= v@.len(),
            r@.len() == i as int,
            forall|j: int| 0 <= j < i as int ==> r@[j] == v@[j],
        decreases v@.len() - i,
    {
        r.push(v[i]);
        i = i + 1;
    }
    proof {
        assert(r@ =~= v@);
    }
    r
}

impl Tree {
    /// The number of leaves below every node, computed bottom-up.
    pub fn cluster_sizes(&self) -> (cs: Vec<usize>)
        requires
            self.wf(),
            self.is_binary_spec(),
        ensures
            cs@.len() == self.len(),
            forall|v: int| 0 <= v < self.len() ==> #[trigger] cs@[v] as int == self.cluster_size(
                v,
            ),
    {
        let n = self.nodes.len();
        let mut cs: Vec<usize> = Vec::new();
        let mut v: usize = 0;
        while v < n
            invariant
                self.wf(),
                self.is_binary_spec(),
                n == self.len(),
                v <= n,
                cs@.len() == v as int,
                forall|u: int|
                    0 <= u < v as int ==> #[trigger] cs@[u] as int == self.cluster_size(u),
            decreases n - v,
        {
            proof {
                lemma_struct(*self, v as int);
            }
            let node = &self.nodes[v];
            if node.children.len() == 0 {
                cs.push(1);
            } else {
                let x = node.children[0];
                let y = node.children[1];
                proof {
                    assert(self.node_ok(v as int));
                    assert(self.arity(v as int) == 2);
                    assert(x as int == self.child(v as int, 0));
                    assert(y as int == self.child(v as int, 1));
                    assert(self.cs_of_children(v as int, 0) == 0);
                    assert(self.cs_of_children(v as int, 1) == self.cluster_size(x as int));
                    assert(self.cluster_size(v as int) == self.cs_of_children(v as int, 2));
                    assert(self.cluster_size(v as int) == self.cluster_size(x as int)
                        + self.cluster_size(y as int));
                    lemma_struct(*self, x as int);
                    lemma_struct(*self, y as int);
                }
                let sum = cs[x] + cs[y];
                cs.push(sum);
            }
            v = v + 1;
        }
        cs
    }

    /// Walk the whole split range of one `(v, k)` table cell and return the
    /// running best absolute and normalized candidates, with their witnesses.
    #[verifier::loop_isolation(false)]
    #[verifier::rlimit(100)]
    fn dp_entry(
        &self,
        op: Extremum,
        v: Ghost<int>,
        k: usize,
        x: usize,
        y: usize,
        wx: u64,
        wy: u64,
        lo: usize,
        hi: usize,
        bar_tab: &Vec<Vec<Option<(u64, u32)>>>,
        bar_sets: &Vec<Vec<Vec<usize>>>,
    ) -> (r: (Option<(u64, u32)>, Vec<usize>, Option<(u64, u32)>, Vec<usize>))
        requires
            self.wf(),
            self.is_binary_spec(),
            self.is_node(v@),
            !self.is_leaf(v@),
            x as int == self.child(v@, 0),
            y as int == self.child(v@, 1),
            wx == self.weight(x as int),
            wy == self.weight(y as int),
            1 <= k as int <= self.cluster_size(v@),
            k as int <= self.num_leaves(),
            lo as int == split_lo(*self, v@, k as int),
            hi as int == split_hi(*self, v@, k as int),
            lo <= hi <= k,
            (x as int) < bar_tab@.len() && (y as int) < bar_tab@.len(),
            (x as int) < bar_sets@.len() && (y as int) < bar_sets@.len(),
            bar_tab@[x as int]@.len() == self.num_leaves() + 1,
            bar_tab@[y as int]@.len() == self.num_leaves() + 1,
            bar_sets@[x as int]@.len() == self.num_leaves() + 1,
            bar_sets@[y as int]@.len() == self.num_leaves() + 1,
            forall|kk: int|
                0 <= kk <= self.num_leaves() ==> entry_matches(
                    bar_cand(*self, op, x as int, kk),
                    #[trigger] bar_tab@[x as int]@[kk],
                    bar_sets@[x as int]@[kk]@,
                ),
            forall|kk: int|
                0 <= kk <= self.num_leaves() ==> entry_matches(
                    bar_cand(*self, op, y as int, kk),
                    #[trigger] bar_tab@[y as int]@[kk],
                    bar_sets@[y as int]@[kk]@,
                ),
        ensures
            entry_matches(bar_fold(*self, op, v@, k as int, hi as int), r.0, r.1@),
            entry_matches(hat_fold(*self, op, v@, k as int, hi as int), r.2, r.3@),
    {
        proof {
            lemma_struct(*self, v@);
            lemma_struct(*self, x as int);
            lemma_struct(*self, y as int);
            assert(self.node_ok(v@));
            assert(self.cs_of_children(v@, 0) == 0);
            assert(self.cs_of_children(v@, 1) == self.cluster_size(x as int));
            assert(self.cluster_size(v@) == self.cs_of_children(v@, 2));
            assert(self.cluster_size(v@) == self.cluster_size(x as int) + self.cluster_size(
                y as int,
            ));
            assert(self.subtree_weight(v@) <= u64::MAX as int);
            assert(self.subtree_size(v@) <= self.len());
            assert(self.subtree_weight(v@) == self.sw_of_children(v@, 2));
            assert(self.sw_of_children(v@, 0) == 0);
            assert(self.sw_of_children(v@, 1) == self.weight(x as int) + self.subtree_weight(
                x as int,
            ));
            assert(self.subtree_size(v@) == 1 + self.size_of_children(v@, 2));
            assert(self.size_of_children(v@, 0) == 0);
            assert(self.size_of_children(v@, 1) == self.subtree_size(x as int));
        }
        let mut bbest: Option<(u64, u32)> = None;
        let mut bset: Vec<usize> = Vec::new();
        let mut hbest: Option<(u64, u32)> = None;
        let mut hset: Vec<usize> = Vec::new();
        let mut l: usize = lo;
        while l <= hi
            invariant
                lo <= l <= hi + 1,
                entry_matches(bar_fold(*self, op, v@, k as int, l as int - 1), bbest, bset@),
                entry_matches(hat_fold(*self, op, v@, k as int, l as int - 1), hbest, hset@),
            decreases hi + 1 - l,
        {
            let r = k - l;
            proof {
                lemma_split_ok(*self, op, v@, k as int, l as int);
                lemma_bar_ok(*self, op, x as int, l as int);
                lemma_bar_ok(*self, op, y as int, r as int);
            }
            let pa = bar_tab[x][l];
            let pb = bar_tab[y][r];
            let a = pa.unwrap();
            let b = pb.unwrap();
            let add_x: u64 = if l >= 1 {
                wx
            } else {
                0
            };
            let add_y: u64 = if r >= 1 {
                wy
            } else {
                0
            };
            proof {
                assert(a.0 as int + add_x as int + b.0 as int + add_y as int
                    <= self.subtree_weight(v@));
                assert(a.1 as int + b.1 as int + 2 <= self.subtree_size(v@) + 1);
            }
            let val: u64 = a.0 + add_x + b.0 + add_y;
            let ex: u32 = if l >= 1 {
                1
            } else {
                0
            };
            let ey: u32 = if r >= 1 {
                1
            } else {
                0
            };
            let edges: u32 = a.1 + b.1 + ex + ey;
            let mut cset = copy_ids(&bar_sets[x][l]);
            let mut tail = copy_ids(&bar_sets[y][r]);
            cset.append(&mut tail);
            let bar_take: bool = match bbest {
                None => true,
                Some(p) => match op {
                    Extremum::Min => val < p.0,
                    Extremum::Max => val > p.0,
                },
            };
            if bar_take {
                bbest = Some((val, edges));
                bset = copy_ids(&cset);
            }
            proof {
                assert(entry_matches(bar_fold(*self, op, v@, k as int, l as int), bbest, bset@));
            }
            if edges > 0 {
                let hat_take: bool = match hbest {
                    None => true,
                    Some(p) => {
                        proof {
                            lemma_ratio_mul_fits(val, p.1);
                            lemma_ratio_mul_fits(p.0, edges);
                        }
                        match op {
                            Extremum::Min => (val as u128) * (p.1 as u128) < (p.0 as u128) * (
                            edges as u128),
                            Extremum::Max => (val as u128) * (p.1 as u128) > (p.0 as u128) * (
                            edges as u128),
                        }
                    },
                };
                if hat_take {
                    hbest = Some((val, edges));
                    hset = copy_ids(&cset);
                }
            }
            proof {
                assert(entry_matches(hat_fold(*self, op, v@, k as int, l as int), hbest, hset@));
            }
            l = l + 1;
        }
        proof {
            lemma_fold_ok(*self, op, v@, k as int, hi as int);
        }
        (bbest, bset, hbest, hset)
    }

    /// Fill the four tables of the extremal recurrence bottom-up: absolute
    /// optimum with witness, and normalized optimum with witness, for every
    /// node and every subset size up to the leaf count. Every entry is
    /// exactly the candidate `bar_cand` / `hat_cand` prescribes.
    #[verifier::loop_isolation(false)]
    #[verifier::rlimit(100)]
    pub fn compute_dp_table(&self, op: Extremum) -> (r: (
        Vec<Vec<Option<(u64, u32)>>>,
        Vec<Vec<Vec<usize>>>,
        Vec<Vec<Option<(u64, u32)>>>,
        Vec<Vec<Vec<usize>>>,
    ))
        requires
            self.wf(),
            self.is_binary_spec(),
        ensures
            r.0@.len() == self.len(),
            r.1@.len() == self.len(),
            r.2@.len() == self.len(),
            r.3@.len() == self.len(),
            forall|v: int|
                0 <= v < self.len() ==> (#[trigger] r.0@[v]@.len()) == self.num_leaves() + 1,
            forall|v: int|
                0 <= v < self.len() ==> (#[trigger] r.1@[v]@.len()) == self.num_leaves() + 1,
            forall|v: int|
                0 <= v < self.len() ==> (#[trigger] r.2@[v]@.len()) == self.num_leaves() + 1,
            forall|v: int|
                0 <= v < self.len() ==> (#[trigger] r.3@[v]@.len()) == self.num_leaves() + 1,
            forall|v: int, k: int|
                #![trigger r.0@[v]@[k]]
                #![trigger r.2@[v]@[k]]
                0 <= v < self.len() && 0 <= k <= self.num_leaves() ==> entry_matches(
                    bar_cand(*self, op, v, k),
                    r.0@[v]@[k],
                    r.1@[v]@[k]@,
                ) && entry_matches(hat_cand(*self, op, v, k), r.2@[v]@[k], r.3@[v]@[k]@),
    {
        let n = self.nodes.len();
        let cs = self.cluster_sizes();
        let nl = cs[n - 1];
        proof {
            assert(cs@[self.len() - 1] as int == self.cluster_size(self.root()));
            assert(nl as int == self.num_leaves());
            lemma_struct(*self, self.root());
            if !self.is_leaf(self.root()) {
                lemma_children_prefix(*self, self.root(), self.arity(self.root()));
                assert(self.cluster_size(self.root()) == self.cs_of_children(
                    self.root(),
                    self.arity(self.root()),
                ));
                assert(self.subtree_size(self.root()) == 1 + self.size_of_children(
                    self.root(),
                    self.arity(self.root()),
                ));
            }
            assert(nl < usize::MAX);
        }
        let mut bar_tab: Vec<Vec<Option<(u64, u32)>>> = Vec::new();
        let mut bar_sets: Vec<Vec<Vec<usize>>> = Vec::new();
        let mut hat_tab: Vec<Vec<Option<(u64, u32)>>> = Vec::new();
        let mut hat_sets: Vec<Vec<Vec<usize>>> = Vec::new();
        let mut v: usize = 0;
        while v < n
            invariant
                v <= n,
                bar_tab@.len() == v as int,
                bar_sets@.len() == v as int,
                hat_tab@.len() == v as int,
                hat_sets@.len() == v as int,
                forall|u: int|
                    #![trigger bar_tab@[u]@.len()]
                    #![trigger bar_sets@[u]@.len()]
                    #![trigger hat_tab@[u]@.len()]
                    #![trigger hat_sets@[u]@.len()]
                    0 <= u < v as int ==> bar_tab@[u]@.len() == nl + 1 && bar_sets@[u]@.len()
                        == nl + 1 && hat_tab@[u]@.len() == nl + 1 && hat_sets@[u]@.len() == nl
                        + 1,
                forall|u: int, kk: int|
                    #![trigger bar_tab@[u]@[kk]]
                    #![trigger hat_tab@[u]@[kk]]
                    0 <= u < v as int && 0 <= kk <= nl as int ==> entry_matches(
                        bar_cand(*self, op, u, kk),
                        bar_tab@[u]@[kk],
                        bar_sets@[u]@[kk]@,
                    ) && entry_matches(hat_cand(*self, op, u, kk), hat_tab@[u]@[kk], hat_sets@[u]@[kk]@),
            decreases n - v,
        {
            proof {
                lemma_struct(*self, v as int);
            }
            let (brow, bsrow, hrow, hsrow) = if self.nodes[v].children.len() == 0 {
                self.dp_row_leaf(op, v, nl)
            } else {
                let x = self.nodes[v].children[0];
                let y = self.nodes[v].children[1];
                proof {
                    assert(self.node_ok(v as int));
                    assert(self.arity(v as int) == 2);
                    assert(x as int == self.child(v as int, 0));
                    assert(y as int == self.child(v as int, 1));
                    assert(bar_tab@[x as int]@.len() == nl + 1);
                    assert(bar_tab@[y as int]@.len() == nl + 1);
                    assert forall|kk: int| 0 <= kk <= nl as int implies entry_matches(
                        bar_cand(*self, op, x as int, kk),
                        #[trigger] bar_tab@[x as int]@[kk],
                        bar_sets@[x as int]@[kk]@,
                    ) by {}
                    assert forall|kk: int| 0 <= kk <= nl as int implies entry_matches(
                        bar_cand(*self, op, y as int, kk),
                        #[trigger] bar_tab@[y as int]@[kk],
                        bar_sets@[y as int]@[kk]@,
                    ) by {}
                }
                self.dp_row_internal(
                    op,
                    Ghost(v as int),
                    x,
                    y,
                    self.nodes[x].weight,
                    self.nodes[y].weight,
                    cs[x],
                    cs[y],
                    cs[v],
                    nl,
                    &bar_tab,
                    &bar_sets,
                )
            };
            proof {
                assert forall|kk: int| 0 <= kk <= nl as int implies entry_matches(
                    bar_cand(*self, op, v as int, kk),
                    #[trigger] brow@[kk],
                    bsrow@[kk]@,
                ) by {}
                assert forall|kk: int| 0 <= kk <= nl as int implies entry_matches(
                    hat_cand(*self, op, v as int, kk),
                    #[trigger] hrow@[kk],
                    hsrow@[kk]@,
                ) by {}
            }
            bar_tab.push(brow);
            bar_sets.push(bsrow);
            hat_tab.push(hrow);
            hat_sets.push(hsrow);
            v = v + 1;
        }
        (bar_tab, bar_sets, hat_tab, hat_sets)
    }

    /// The four minimum-side tables: absolute and normalized, with
    /// witnesses.
    pub fn compute_norm_min(&self) -> (r: (
        Vec<Vec<Option<(u64, u32)>>>,
        Vec<Vec<Vec<usize>>>,
        Vec<Vec<Option<(u64, u32)>>>,
        Vec<Vec<Vec<usize>>>,
    ))
        requires
            self.wf(),
            self.is_binary_spec(),
        ensures
            r.0@.len() == self.len(),
            forall|v: int, k: int|
                #![trigger r.0@[v]@[k]]
                #![trigger r.2@[v]@[k]]
                0 <= v < self.len() && 0 <= k <= self.num_leaves() ==> r.0@[v]@.len()
                    == self.num_leaves() + 1 && r.1@[v]@.len() == self.num_leaves() + 1
                    && r.2@[v]@.len() == self.num_leaves() + 1 && r.3@[v]@.len()
                    == self.num_leaves() + 1 && entry_matches(
                    bar_cand(*self, Extremum::Min, v, k),
                    r.0@[v]@[k],
                    r.1@[v]@[k]@,
                ) && entry_matches(hat_cand(*self, Extremum::Min, v, k), r.2@[v]@[k], r.3@[v]@[k]@),
    {
        self.compute_dp_table(Extremum::Min)
    }

    /// The four maximum-side tables: absolute and normalized, with
    /// witnesses.
    pub fn compute_norm_max(&self) -> (r: (
        Vec<Vec<Option<(u64, u32)>>>,
        Vec<Vec<Vec<usize>>>,
        Vec<Vec<Option<(u64, u32)>>>,
        Vec<Vec<Vec<usize>>>,
    ))
        requires
            self.wf(),
            self.is_binary_spec(),
        ensures
            r.0@.len() == self.len(),
            forall|v: int, k: int|
                #![trigger r.0@[v]@[k]]
                #![trigger r.2@[v]@[k]]
                0 <= v < self.len() && 0 <= k <= self.num_leaves() ==> r.0@[v]@.len()
                    == self.num_leaves() + 1 && r.1@[v]@.len() == self.num_leaves() + 1
                    && r.2@[v]@.len() == self.num_leaves() + 1 && r.3@[v]@.len()
                    == self.num_leaves() + 1 && entry_matches(
                    bar_cand(*self, Extremum::Max, v, k),
                    r.0@[v]@[k],
                    r.1@[v]@[k]@,
                ) && entry_matches(hat_cand(*self, Extremum::Max, v, k), r.2@[v]@[k], r.3@[v]@[k]@),
    {
        self.compute_dp_table(Extremum::Max)
    }

    /// One table row of a leaf: the empty subset, the leaf itself, and
    /// nothing beyond its single-leaf cluster.
    #[verifier::loop_isolation(false)]
    #[verifier::rlimit(100)]
    fn dp_row_leaf(&self, op: Extremum, v: usize, nl: usize) -> (r: (
        Vec<Option<(u64, u32)>>,
        Vec<Vec<usize>>,
        Vec<Option<(u64, u32)>>,
        Vec<Vec<usize>>,
    ))
        requires
            self.wf(),
            self.is_binary_spec(),
            (v as int) < self.len(),
            self.is_leaf(v as int),
            nl < usize::MAX,
        ensures
            r.0@.len() == nl as int + 1,
            r.1@.len() == nl as int + 1,
            r.2@.len() == nl as int + 1,
            r.3@.len() == nl as int + 1,
            forall|kk: int|
                #![trigger r.0@[kk]]
                #![trigger r.2@[kk]]
                0 <= kk <= nl as int ==> entry_matches(
                    bar_cand(*self, op, v as int, kk),
                    r.0@[kk],
                    r.1@[kk]@,
                ) && entry_matches(hat_cand(*self, op, v as int, kk), r.2@[kk], r.3@[kk]@),
    {
        let mut brow: Vec<Option<(u64, u32)>> = Vec::new();
        let mut bsrow: Vec<Vec<usize>> = Vec::new();
        let mut hrow: Vec<Option<(u64, u32)>> = Vec::new();
        let mut hsrow: Vec<Vec<usize>> = Vec::new();
        let mut k: usize = 0;
        while k <= nl
            invariant
                k <= nl + 1,
                brow@.len() == k as int,
                bsrow@.len() == k as int,
                hrow@.len() == k as int,
                hsrow@.len() == k as int,
                forall|kk: int|
                    #![trigger brow@[kk]]
                    #![trigger hrow@[kk]]
                    0 <= kk < k as int ==> entry_matches(
                        bar_cand(*self, op, v as int, kk),
                        brow@[kk],
                        bsrow@[kk]@,
                    ) && entry_matches(hat_cand(*self, op, v as int, kk), hrow@[kk], hsrow@[kk]@),
            decreases nl + 1 - k,
        {
            if k == 0 {
                brow.push(Some((0u64, 0u32)));
                bsrow.push(Vec::new());
                hrow.push(Some((0u64, 0u32)));
                hsrow.push(Vec::new());
            } else if k == 1 {
                brow.push(Some((0u64, 0u32)));
                hrow.push(Some((0u64, 0u32)));
                let mut w1: Vec<usize> = Vec::new();
                w1.push(v);
                let mut w2: Vec<usize> = Vec::new();
                w2.push(v);
                proof {
                    assert(w1@ =~= seq![(v as int) as usize]);
                    assert(w2@ =~= seq![(v as int) as usize]);
                }
                bsrow.push(w1);
                hsrow.push(w2);
            } else {
                brow.push(None);
                bsrow.push(Vec::new());
                hrow.push(None);
                hsrow.push(Vec::new());
                proof {
                    assert(k as int > self.cluster_size(v as int));
                    assert(bar_cand(*self, op, v as int, k as int) is None);
                }
            }
            k = k + 1;
        }
        (brow, bsrow, hrow, hsrow)
    }

    /// One table row of an internal node: fold the split range of each `k`.
    #[verifier::loop_isolation(false)]
    #[verifier::rlimit(100)]
    fn dp_row_internal(
        &self,
        op: Extremum,
        v: Ghost<int>,
        x: usize,
        y: usize,
        wx: u64,
        wy: u64,
        csx: usize,
        csy: usize,
        csv: usize,
        nl: usize,
        bar_tab: &Vec<Vec<Option<(u64, u32)>>>,
        bar_sets: &Vec<Vec<Vec<usize>>>,
    ) -> (r: (
        Vec<Option<(u64, u32)>>,
        Vec<Vec<usize>>,
        Vec<Option<(u64, u32)>>,
        Vec<Vec<usize>>,
    ))
        requires
            self.wf(),
            self.is_binary_spec(),
            self.is_node(v@),
            !self.is_leaf(v@),
            x as int == self.child(v@, 0),
            y as int == self.child(v@, 1),
            wx == self.weight(x as int),
            wy == self.weight(y as int),
            csx as int == self.cluster_size(x as int),
            csy as int == self.cluster_size(y as int),
            csv as int == self.cluster_size(v@),
            nl as int == self.num_leaves(),
            nl < usize::MAX,
            (x as int) < bar_tab@.len() && (y as int) < bar_tab@.len(),
            (x as int) < bar_sets@.len() && (y as int) < bar_sets@.len(),
            bar_tab@[x as int]@.len() == nl as int + 1,
            bar_tab@[y as int]@.len() == nl as int + 1,
            bar_sets@[x as int]@.len() == nl as int + 1,
            bar_sets@[y as int]@.len() == nl as int + 1,
            forall|kk: int|
                0 <= kk <= nl as int ==> entry_matches(
                    bar_cand(*self, op, x as int, kk),
                    #[trigger] bar_tab@[x as int]@[kk],
                    bar_sets@[x as int]@[kk]@,
                ),
            forall|kk: int|
                0 <= kk <= nl as int ==> entry_matches(
                    bar_cand(*self, op, y as int, kk),
                    #[trigger] bar_tab@[y as int]@[kk],
                    bar_sets@[y as int]@[kk]@,
                ),
        ensures
            r.0@.len() == nl as int + 1,
            r.1@.len() == nl as int + 1,
            r.2@.len() == nl as int + 1,
            r.3@.len() == nl as int + 1,
            forall|kk: int|
                #![trigger r.0@[kk]]
                #![trigger r.2@[kk]]
                0 <= kk <= nl as int ==> entry_matches(
                    bar_cand(*self, op, v@, kk),
                    r.0@[kk],
                    r.1@[kk]@,
                ) && entry_matches(hat_cand(*self, op, v@, kk), r.2@[kk], r.3@[kk]@),
    {
        proof {
            lemma_struct(*self, v@);
            lemma_struct(*self, x as int);
            lemma_struct(*self, y as int);
            assert(self.node_ok(v@));
            assert(self.cs_of_children(v@, 0) == 0);
            assert(self.cs_of_children(v@, 1) == self.cluster_size(x as int));
            assert(self.cluster_size(v@) == self.cs_of_children(v@, 2));
            assert(self.cluster_size(v@) == self.cluster_size(x as int) + self.cluster_size(
                y as int,
            ));
        }
        let mut brow: Vec<Option<(u64, u32)>> = Vec::new();
        let mut bsrow: Vec<Vec<usize>> = Vec::new();
        let mut hrow: Vec<Option<(u64, u32)>> = Vec::new();
        let mut hsrow: Vec<Vec<usize>> = Vec::new();
        let mut k: usize = 0;
        while k <= nl
            invariant
                k <= nl + 1,
                brow@.len() == k as int,
                bsrow@.len() == k as int,
                hrow@.len() == k as int,
                hsrow@.len() == k as int,
                forall|kk: int|
                    #![trigger brow@[kk]]
                    #![trigger hrow@[kk]]
                    0 <= kk < k as int ==> entry_matches(
                        bar_cand(*self, op, v@, kk),
                        brow@[kk],
                        bsrow@[kk]@,
                    ) && entry_matches(hat_cand(*self, op, v@, kk), hrow@[kk], hsrow@[kk]@),
            decreases nl + 1 - k,
        {
            if k == 0 {
                proof {
                    assert(bar_cand(*self, op, v@, 0) == Some(
                        (Cand { val: 0, edges: 0, set: Seq::empty() }),
                    ));
                    assert(hat_cand(*self, op, v@, 0) == Some(
                        (Cand { val: 0, edges: 0, set: Seq::empty() }),
                    ));
                }
                brow.push(Some((0u64, 0u32)));
                bsrow.push(Vec::new());
                hrow.push(Some((0u64, 0u32)));
                hsrow.push(Vec::new());
            } else if k > csv {
                proof {
                    assert(bar_cand(*self, op, v@, k as int) is None);
                    assert(hat_cand(*self, op, v@, k as int) is None);
                }
                brow.push(None);
                bsrow.push(Vec::new());
                hrow.push(None);
                hsrow.push(Vec::new());
            } else {
                let lo: usize = if k > csy {
                    k - csy
                } else {
                    0
                };
                let hi: usize = if k < csx {
                    k
                } else {
                    csx
                };
                proof {
                    assert(lo as int == split_lo(*self, v@, k as int));
                    assert(hi as int == split_hi(*self, v@, k as int));
                    assert(lo <= hi);
                }
                let (bbest, bset, hbest, hset) = self.dp_entry(
                    op,
                    Ghost(v@),
                    k,
                    x,
                    y,
                    wx,
                    wy,
                    lo,
                    hi,
                    bar_tab,
                    bar_sets,
                );
                proof {
                    assert(bar_cand(*self, op, v@, k as int) == bar_fold(
                        *self,
                        op,
                        v@,
                        k as int,
                        hi as int,
                    ));
                    assert(hat_cand(*self, op, v@, k as int) == hat_fold(
                        *self,
                        op,
                        v@,
                        k as int,
                        hi as int,
                    ));
                }
                brow.push(bbest);
                bsrow.push(bset);
                hrow.push(hbest);
                hsrow.push(hset);
            }
            k = k + 1;
        }
        (brow, bsrow, hrow, hsrow)
    }
}

/// The cross-multiplication products of the normalized comparison fit the
/// wide integer type.
pub(crate) proof fn lemma_ratio_mul_fits(a: u64, e: u32)
    ensures
        (a as int) * (e as int) <= u128::MAX,
        (a as int) * (e as int) >= 0,
{
    assert((a as int) * (e as int) <= u128::MAX && (a as int) * (e as int) >= 0) by (nonlinear_arith)
        requires
            0 <= a as int <= u64::MAX,
            0 <= e as int <= u32::MAX,
    ;
}

/// Law: a witness set holds exactly the requested number of leaves: the
/// recorded witness below any node for a feasible subset size `k` is a
/// list of `k` distinct leaf ids from that node's subtree.
pub proof fn lemma_witness_size(t: Tree, op: Extremum, v: int, k: int)
    requires
        t.wf(),
        t.is_binary_spec(),
        t.is_node(v),
        0 <= k <= t.cluster_size(v),
    ensures
        bar_cand(t, op, v, k) is Some,
        bar_cand(t, op, v, k)->Some_0.set.len() == k,
        forall|i1: int, i2: int|
            0 <= i1 < i2 < k ==> bar_cand(t, op, v, k)->Some_0.set[i1] != bar_cand(
                t,
                op,
                v,
                k,
            )->Some_0.set[i2],
{
    lemma_bar_ok(t, op, v, k);
}

/// Law (witness consistency): recomputing the diversity of the recorded
/// witness directly from the tree gives back the recorded optimum, and the
/// recorded edge count is the size of the induced subtree.
pub proof fn lemma_witness_consistent(t: Tree, op: Extremum, v: int, k: int)
    requires
        t.wf(),
        t.is_binary_spec(),
        t.is_node(v),
        0 <= k <= t.cluster_size(v),
    ensures
        bar_cand(t, op, v, k) is Some,
        bar_cand(t, op, v, k)->Some_0.val == t.pd_below(
            v,
            id_set(bar_cand(t, op, v, k)->Some_0.set),
        ),
        bar_cand(t, op, v, k)->Some_0.edges == t.edges_below(
            v,
            id_set(bar_cand(t, op, v, k)->Some_0.set),
        ),
{
    lemma_bar_ok(t, op, v, k);
}

/// Law (output guarantee of the extremal recurrence): the recorded optimum
/// really is the extremum over every subset. For any finite set of distinct
/// leaves below `v`, the minimal entry at that subset size is at most — and
/// the maximal entry at least — the diversity that set induces.
pub proof fn lemma_global_extremum(t: Tree, op: Extremum, v: int, s: Set<int>)
    requires
        t.wf(),
        t.is_binary_spec(),
        t.is_node(v),
        s.finite(),
        forall|e: int| s.contains(e) ==> t.lo(v) <= e <= v && t.is_leaf(e),
    ensures
        s.len() <= t.cluster_size(v),
        bar_cand(t, op, v, s.len() as int) is Some,
        op == Extremum::Min ==> bar_cand(t, op, v, s.len() as int)->Some_0.val <= t.pd_below(
            v,
            s,
        ),
        op == Extremum::Max ==> bar_cand(t, op, v, s.len() as int)->Some_0.val >= t.pd_below(
            v,
            s,
        ),
    decreases v,
{
    lemma_struct(t, v);
    crate::tree::lemma_cluster_is_range_count(t, v);
    assert forall|e: int| s.contains(e) implies t.lo(v) <= e <= v && t.is_node(e) && t.is_leaf(
        e,
    ) by {}
    crate::tree::lemma_card_le_leaf_count(t, s, t.lo(v), v);
    let k = s.len() as int;
    lemma_bar_ok(t, op, v, k);
    vstd::set_lib::lemma_set_empty_equivalency_len(s);
    if k == 0 {
        assert(s =~= Set::<int>::empty());
        lemma_pd_children_empty(t, v, t.arity(v), s);
        assert(bar_cand(t, op, v, 0)->Some_0.val == 0);
    } else if t.is_leaf(v) {
        assert(t.subtree_size(v) == 1);
        assert(k == 1);
        assert(t.pd_below(v, s) == t.pd_of_children(v, 0, s));
        assert(bar_cand(t, op, v, 1)->Some_0.val == 0);
    } else {
        let x = t.child(v, 0);
        let y = t.child(v, 1);
        assert(t.node_ok(v));
        assert(t.arity(v) == 2);
        lemma_struct(t, x);
        lemma_struct(t, y);
        assert(t.lo(x) == t.lo(v));
        assert(t.lo(y) == x + 1);
        assert(y == v - 1);
        assert(t.cs_of_children(v, 0) == 0);
        assert(t.cs_of_children(v, 1) == t.cluster_size(x));
        assert(t.cluster_size(v) == t.cs_of_children(v, 2));
        assert(t.cluster_size(v) == t.cluster_size(x) + t.cluster_size(y));
        let sx = Set::new(|e: int| s.contains(e) && e <= x);
        let sy = Set::new(|e: int| s.contains(e) && e > x);
        vstd::set_lib::lemma_len_subset(sx, s);
        vstd::set_lib::lemma_len_subset(sy, s);
        assert(s =~= sx + sy);
        assert(sx.disjoint(sy));
        vstd::set_lib::lemma_set_disjoint_lens(sx, sy);
        let l = sx.len() as int;
        let r = sy.len() as int;
        assert(l + r == k);
        // Elements of `s` are leaves, so none is the internal node `v`
        // itself; each falls into one child's range.
        assert forall|e: int| sx.contains(e) implies t.lo(x) <= e <= x && t.is_leaf(e) by {}
        assert forall|e: int| sy.contains(e) implies t.lo(y) <= e <= y && t.is_leaf(e) by {
            assert(s.contains(e));
            assert(e != v);
        }
        lemma_global_extremum(t, op, x, sx);
        lemma_global_extremum(t, op, y, sy);
        assert(split_lo(t, v, k) <= l <= split_hi(t, v, k));
        lemma_split_ok(t, op, v, k, l);
        lemma_bar_fold_optimal(t, op, v, k, split_hi(t, v, k), l);
        let d = split_cand(t, op, v, k, l)->Some_0;
        let a = bar_cand(t, op, x, l)->Some_0;
        let b = bar_cand(t, op, y, r)->Some_0;
        assert(d.val == a.val + (if l >= 1 {
            t.weight(x) as int
        } else {
            0
        }) + b.val + (if r >= 1 {
            t.weight(y) as int
        } else {
            0
        }));
        // The diversity of `s` at `v` splits over the two children.
        assert forall|e: int| t.lo(x) <= e <= x implies (s.contains(e) <==> sx.contains(
            e,
        )) by {}
        lemma_pd_frame(t, x, s, sx);
        assert forall|e: int| t.lo(y) <= e <= y implies (s.contains(e) <==> sy.contains(
            e,
        )) by {
            if s.contains(e) {
                assert(e != v);
                assert(e > x);
            }
        }
        lemma_pd_frame(t, y, s, sy);
        vstd::set_lib::lemma_set_empty_equivalency_len(sx);
        vstd::set_lib::lemma_set_empty_equivalency_len(sy);
        if l >= 1 {
            let e0 = choose|e: int| sx.contains(e);
            assert(s.contains(e0) && t.lo(x) <= e0 <= x);
            assert(t.touches(x, s));
        } else {
            assert(sx =~= Set::<int>::empty());
            assert forall|e: int| !(#[trigger] s.contains(e) && t.lo(x) <= e <= x) by {
                if s.contains(e) && t.lo(x) <= e <= x {
                    assert(sx.contains(e));
                }
            }
            assert(!t.touches(x, s));
            lemma_pd_children_empty(t, x, t.arity(x), sx);
        }
        if r >= 1 {
            let e1 = choose|e: int| sy.contains(e);
            assert(s.contains(e1) && t.lo(y) <= e1 <= y);
            assert(t.touches(y, s));
        } else {
            assert(sy =~= Set::<int>::empty());
            assert forall|e: int| !(#[trigger] s.contains(e) && t.lo(y) <= e <= y) by {
                if s.contains(e) && t.lo(y) <= e <= y {
                    assert(sy.contains(e));
                }
            }
            assert(!t.touches(y, s));
            lemma_pd_children_empty(t, y, t.arity(y), sy);
        }
        assert(t.pd_of_children(v, 0, s) == 0);
        assert(t.pd_of_children(v, 1, s) == if t.touches(x, s) {
            t.weight(x) + t.pd_below(x, s)
        } else {
            0
        });
        assert(t.pd_below(v, s) == t.pd_of_children(v, 1, s) + if t.touches(y, s) {
            t.weight(y) + t.pd_below(y, s)
        } else {
            0
        });
    }
}

/// Law: allowing one more leaf never lowers the maximal diversity: below
/// any node, the best value over `k + 1` leaves is at least the best value
/// over `k` leaves.
pub proof fn lemma_max_monotone(t: Tree, v: int, k: int)
    requires
        t.wf(),
        t.is_binary_spec(),
        t.is_node(v),
        0 <= k < t.cluster_size(v),
    ensures
        bar_cand(t, Extremum::Max, v, k) is Some,
        bar_cand(t, Extremum::Max, v, k + 1) is Some,
        bar_cand(t, Extremum::Max, v, k)->Some_0.val <= bar_cand(
            t,
            Extremum::Max,
            v,
            k + 1,
        )->Some_0.val,
    decreases v,
{
    let op = Extremum::Max;
    lemma_bar_ok(t, op, v, k);
    lemma_bar_ok(t, op, v, k + 1);
    if k == 0 {
        assert(bar_cand(t, op, v, 0)->Some_0.val == 0);
    } else {
        assert(!t.is_leaf(v));
        let x = t.child(v, 0);
        let y = t.child(v, 1);
        assert(t.node_ok(v));
        assert(t.arity(v) == 2);
        lemma_struct(t, v);
        lemma_struct(t, x);
        lemma_struct(t, y);
        assert(t.cluster_size(v) == t.cs_of_children(v, 2));
        assert(t.cs_of_children(v, 0) == 0);
        assert(t.cs_of_children(v, 1) == t.cluster_size(x));
        assert(t.cluster_size(v) == t.cluster_size(x) + t.cluster_size(y));
        let c = bar_cand(t, op, v, k)->Some_0;
        lemma_bar_fold_achieves(t, op, v, k, split_hi(t, v, k));
        let lp = choose|lp: int|
            split_lo(t, v, k) <= lp <= split_hi(t, v, k) && #[trigger] split_cand(
                t,
                op,
                v,
                k,
                lp,
            ) == Some(c);
        let r = k - lp;
        lemma_bar_ok(t, op, x, lp);
        lemma_bar_ok(t, op, y, r);
        if lp < t.cluster_size(x) {
            lemma_max_monotone(t, x, lp);
            assert(split_lo(t, v, k + 1) <= lp + 1 <= split_hi(t, v, k + 1));
            let d = split_cand(t, op, v, k + 1, lp + 1)->Some_0;
            assert(split_cand(t, op, v, k + 1, lp + 1) is Some);
            assert(d.val >= c.val);
            lemma_bar_fold_optimal(t, op, v, k + 1, split_hi(t, v, k + 1), lp + 1);
        } else {
            assert(r < t.cluster_size(y));
            lemma_max_monotone(t, y, r);
            assert(split_lo(t, v, k + 1) <= lp <= split_hi(t, v, k + 1));
            let d = split_cand(t, op, v, k + 1, lp)->Some_0;
            assert(split_cand(t, op, v, k + 1, lp) is Some);
            assert(d.val >= c.val);
            lemma_bar_fold_optimal(t, op, v, k + 1, split_hi(t, v, k + 1), lp);
        }
    }
}

/// Law: the normalized optimum is at least as good as the normalization of
/// the absolute optimum. Below any node, whenever the absolute minimum
/// induces an edge, the tracked normalized minimum is at most the absolute
/// minimum divided by its edge count (stated by cross-multiplication).
pub proof fn lemma_norm_le_ratio(t: Tree, v: int, k: int)
    requires
        t.wf(),
        t.is_binary_spec(),
        t.is_node(v),
        0 <= k <= t.cluster_size(v),
    ensures
        bar_cand(t, Extremum::Min, v, k) is Some,
        (bar_cand(t, Extremum::Min, v, k)->Some_0.edges > 0) ==> (hat_cand(
            t,
            Extremum::Min,
            v,
            k,
        ) is Some && hat_cand(t, Extremum::Min, v, k)->Some_0.edges > 0 && hat_cand(
            t,
            Extremum::Min,
            v,
            k,
        )->Some_0.val * bar_cand(t, Extremum::Min, v, k)->Some_0.edges <= bar_cand(
            t,
            Extremum::Min,
            v,
            k,
        )->Some_0.val * hat_cand(t, Extremum::Min, v, k)->Some_0.edges),
{
    let op = Extremum::Min;
    lemma_bar_ok(t, op, v, k);
    let b = bar_cand(t, op, v, k)->Some_0;
    if b.edges > 0 {
        assert(k >= 1);
        assert(!t.is_leaf(v));
        lemma_bar_fold_achieves(t, op, v, k, split_hi(t, v, k));
        let lp = choose|lp: int|
            split_lo(t, v, k) <= lp <= split_hi(t, v, k) && #[trigger] split_cand(
                t,
                op,
                v,
                k,
                lp,
            ) == Some(b);
        lemma_hat_fold_optimal(t, op, v, k, split_hi(t, v, k), lp);
    }
}

/// Two trees of the same shape and labels, the second with every edge
/// weight `c` times the first's.
pub open spec fn scaled_by(t1: Tree, t2: Tree, c: int) -> bool {
    &&& t2.len() == t1.len()
    &&& forall|v: int|
        0 <= v < t1.len() ==> (#[trigger] t2.nodes@[v].children@) == t1.nodes@[v].children@
    &&& forall|v: int| 0 <= v < t1.len() ==> (#[trigger] t2.nodes@[v].label) == t1.nodes@[v].label
    &&& forall|v: int|
        0 <= v < t1.len() ==> (#[trigger] t2.weight(v)) as int == c * (t1.weight(v) as int)
}

/// Trees of the same shape agree on every structural quantity, and a
/// scaled tree's weight sums scale by the same factor.
proof fn lemma_scaled_struct(t1: Tree, t2: Tree, c: int, v: int)
    requires
        scaled_by(t1, t2, c),
        0 <= v < t1.len(),
    ensures
        t2.subtree_size(v) == t1.subtree_size(v),
        t2.cluster_size(v) == t1.cluster_size(v),
        t2.subtree_weight(v) == c * t1.subtree_weight(v),
    decreases v, 1int, 0int, 0int,
{
    lemma_scaled_struct_children(t1, t2, c, v, t1.arity(v));
}

proof fn lemma_scaled_struct_children(t1: Tree, t2: Tree, c: int, v: int, j: int)
    requires
        scaled_by(t1, t2, c),
        0 <= v < t1.len(),
        0 <= j <= t1.arity(v),
    ensures
        t2.size_of_children(v, j) == t1.size_of_children(v, j),
        t2.cs_of_children(v, j) == t1.cs_of_children(v, j),
        t2.sw_of_children(v, j) == c * t1.sw_of_children(v, j),
    decreases v, 0int, j, 0int,
{
    if j > 0 {
        lemma_scaled_struct_children(t1, t2, c, v, j - 1);
        let ch = t1.child(v, j - 1);
        assert(t2.child(v, j - 1) == ch);
        if 0 <= ch < v {
            lemma_scaled_struct(t1, t2, c, ch);
            assert(c * t1.sw_of_children(v, j) == c * t1.sw_of_children(v, j - 1) + c * (
            t1.weight(ch) as int) + c * t1.subtree_weight(ch)) by (nonlinear_arith)
                requires
                    t1.sw_of_children(v, j) == t1.sw_of_children(v, j - 1) + t1.weight(ch)
                        + t1.subtree_weight(ch),
            ;
        } else {
            assert(c * t1.sw_of_children(v, j) == c * t1.sw_of_children(v, j - 1))
                by (nonlinear_arith)
                requires
                    t1.sw_of_children(v, j) == t1.sw_of_children(v, j - 1),
            ;
        }
    } else {
        assert(c * t1.sw_of_children(v, j) == 0) by (nonlinear_arith)
            requires
                t1.sw_of_children(v, j) == 0,
        ;
    }
}

/// Positive scaling keeps every strict comparison of values.
proof fn lemma_scale_better(op: Extremum, c: int, a: int, b: int)
    requires
        c > 0,
    ensures
        better(op, c * a, c * b) <==> better(op, a, b),
{
    assert((c * a < c * b <==> a < b) && (c * a > c * b <==> a > b)) by (nonlinear_arith)
        requires
            c > 0,
    ;
}

/// Positive scaling of both values keeps every strict ratio comparison
/// (edge counts unchanged).
proof fn lemma_scale_better_ratio(op: Extremum, c: int, av: int, ae: int, bv: int, be: int)
    requires
        c > 0,
    ensures
        better_ratio(op, c * av, ae, c * bv, be) <==> better_ratio(op, av, ae, bv, be),
{
    assert(((c * av) * be < (c * bv) * ae <==> av * be < bv * ae) && ((c * av) * be > (c * bv)
        * ae <==> av * be > bv * ae)) by (nonlinear_arith)
        requires
            c > 0,
    ;
}

/// Law (scaling): multiplying every edge weight by a positive constant `c`
/// multiplies every absolute and normalized optimum by `c` and leaves every
/// witness set and edge count unchanged.
pub proof fn lemma_scaling(t1: Tree, t2: Tree, c: int, op: Extremum, v: int, k: int)
    requires
        t1.wf(),
        t2.wf(),
        t1.is_binary_spec(),
        t2.is_binary_spec(),
        scaled_by(t1, t2, c),
        c > 0,
        0 <= v < t1.len(),
    ensures
        bar_cand(t2, op, v, k) is Some <==> bar_cand(t1, op, v, k) is Some,
        bar_cand(t1, op, v, k) matches Some(c1) ==> (bar_cand(t2, op, v, k) matches Some(c2)
            && c2.val == c * c1.val && c2.edges == c1.edges && c2.set == c1.set),
        hat_cand(t2, op, v, k) is Some <==> hat_cand(t1, op, v, k) is Some,
        hat_cand(t1, op, v, k) matches Some(c1) ==> (hat_cand(t2, op, v, k) matches Some(c2)
            && c2.val == c * c1.val && c2.edges == c1.edges && c2.set == c1.set),
    decreases v, 1int, 0int, 0int,
{
    lemma_scaled_struct(t1, t2, c, v);
    if !(0 <= k <= t1.cluster_size(v)) {
    } else if k == 0 {
        assert(c * 0 == 0) by (nonlinear_arith);
    } else if t1.is_leaf(v) {
        assert(t2.is_leaf(v));
        assert(c * 0 == 0) by (nonlinear_arith);
    } else {
        assert(!t2.is_leaf(v));
        let x = t1.child(v, 0);
        let y = t1.child(v, 1);
        assert(t1.node_ok(v));
        lemma_struct(t1, x);
        lemma_struct(t1, y);
        lemma_scaled_struct(t1, t2, c, x);
        lemma_scaled_struct(t1, t2, c, y);
        assert(split_lo(t2, v, k) == split_lo(t1, v, k));
        assert(split_hi(t2, v, k) == split_hi(t1, v, k));
        lemma_scaling_fold(t1, t2, c, op, v, k, split_hi(t1, v, k));
    }
}

proof fn lemma_scaling_fold(t1: Tree, t2: Tree, c: int, op: Extremum, v: int, k: int, l: int)
    requires
        t1.wf(),
        t2.wf(),
        t1.is_binary_spec(),
        t2.is_binary_spec(),
        scaled_by(t1, t2, c),
        c > 0,
        0 <= v < t1.len(),
        !t1.is_leaf(v),
        1 <= k <= t1.cluster_size(v),
    ensures
        bar_fold(t2, op, v, k, l) is Some <==> bar_fold(t1, op, v, k, l) is Some,
        bar_fold(t1, op, v, k, l) matches Some(c1) ==> (bar_fold(t2, op, v, k, l)
            matches Some(c2) && c2.val == c * c1.val && c2.edges == c1.edges && c2.set
            == c1.set),
        hat_fold(t2, op, v, k, l) is Some <==> hat_fold(t1, op, v, k, l) is Some,
        hat_fold(t1, op, v, k, l) matches Some(c1) ==> (hat_fold(t2, op, v, k, l)
            matches Some(c2) && c2.val == c * c1.val && c2.edges == c1.edges && c2.set
            == c1.set),
    decreases v, 0int, l - split_lo(t1, v, k) + 1, 1int,
{
    lemma_scaled_struct(t1, t2, c, v);
    let x = t1.child(v, 0);
    let y = t1.child(v, 1);
    assert(t1.node_ok(v));
    lemma_scaled_struct(t1, t2, c, x);
    lemma_scaled_struct(t1, t2, c, y);
    assert(split_lo(t2, v, k) == split_lo(t1, v, k));
    assert(split_hi(t2, v, k) == split_hi(t1, v, k));
    if l >= split_lo(t1, v, k) {
        lemma_scaling_fold(t1, t2, c, op, v, k, l - 1);
        lemma_scaling_split(t1, t2, c, op, v, k, l);
        match (bar_fold(t1, op, v, k, l - 1), split_cand(t1, op, v, k, l)) {
            (Some(p1), Some(d1)) => {
                let p2 = bar_fold(t2, op, v, k, l - 1)->Some_0;
                let d2 = split_cand(t2, op, v, k, l)->Some_0;
                lemma_scale_better(op, c, d1.val, p1.val);
            },
            _ => {},
        }
        match (hat_fold(t1, op, v, k, l - 1), split_cand(t1, op, v, k, l)) {
            (Some(p1), Some(d1)) => {
                let p2 = hat_fold(t2, op, v, k, l - 1)->Some_0;
                let d2 = split_cand(t2, op, v, k, l)->Some_0;
                lemma_scale_better_ratio(op, c, d1.val, d1.edges, p1.val, p1.edges);
            },
            _ => {},
        }
    }
}

proof fn lemma_scaling_split(t1: Tree, t2: Tree, c: int, op: Extremum, v: int, k: int, l: int)
    requires
        t1.wf(),
        t2.wf(),
        t1.is_binary_spec(),
        t2.is_binary_spec(),
        scaled_by(t1, t2, c),
        c > 0,
        0 <= v < t1.len(),
        !t1.is_leaf(v),
        1 <= k <= t1.cluster_size(v),
    ensures
        split_cand(t2, op, v, k, l) is Some <==> split_cand(t1, op, v, k, l) is Some,
        split_cand(t1, op, v, k, l) matches Some(c1) ==> (split_cand(t2, op, v, k, l)
            matches Some(c2) && c2.val == c * c1.val && c2.edges == c1.edges && c2.set
            == c1.set),
    decreases v, 0int, l - split_lo(t1, v, k) + 1, 0int,
{
    let x = t1.child(v, 0);
    let y = t1.child(v, 1);
    assert(t1.node_ok(v));
    lemma_scaling(t1, t2, c, op, x, l);
    lemma_scaling(t1, t2, c, op, y, k - l);
    match (bar_cand(t1, op, x, l), bar_cand(t1, op, y, k - l)) {
        (Some(a1), Some(b1)) => {
            let a2 = bar_cand(t2, op, x, l)->Some_0;
            let b2 = bar_cand(t2, op, y, k - l)->Some_0;
            let wx1 = t1.weight(x) as int;
            let wy1 = t1.weight(y) as int;
            let addx1: int = if l >= 1 {
                wx1
            } else {
                0
            };
            let addy1: int = if k - l >= 1 {
                wy1
            } else {
                0
            };
            assert(c * (a1.val + addx1 + b1.val + addy1) == c * a1.val + c * addx1 + c * b1.val
                + c * addy1) by (nonlinear_arith);
            assert(c * 0 == 0) by (nonlinear_arith);
        },
        _ => {},
    }
}

/// Enumerate all splits of `k` into `l + r` with `l <= u1_max` and
/// `r <= u2_max`, as pairs `(l, r)` in increasing order of `l`.
pub fn binary_splits(k: usize, u1_max: usize, u2_max: usize) -> (r: Vec<(usize, usize)>)
    ensures
        r@.len() == (if splits_hi(k as int, u1_max as int) + 1 > splits_lo(k as int, u2_max as int) {
            splits_hi(k as int, u1_max as int) + 1 - splits_lo(k as int, u2_max as int)
        } else {
            0
        }),
        forall|i: int|
            0 <= i < r@.len() ==> #[trigger] r@[i].0 == splits_lo(k as int, u2_max as int) + i
                && r@[i].1 + r@[i].0 == k,
{
    let lo: usize = if k > u2_max {
        k - u2_max
    } else {
        0
    };
    let hi: usize = if k < u1_max {
        k
    } else {
        u1_max
    };
    let mut out: Vec<(usize, usize)> = Vec::new();
    if lo > hi {
        return out;
    }
    let mut l: usize = lo;
    while l < hi
        invariant
            lo <= l <= hi,
            hi <= k,
            out@.len() == l - lo,
            forall|i: int|
                0 <= i < out@.len() ==> #[trigger] out@[i].0 == lo + i && out@[i].1 + out@[i].0
                    == k,
        decreases hi - l,
    {
        out.push((l, k - l));
        l = l + 1;
    }
    out.push((hi, k - hi));
    out
}

/// Lower end of the split range of `binary_splits`.
pub open spec fn splits_lo(k: int, u2_max: int) -> int {
    if k > u2_max {
        k - u2_max
    } else {
        0
    }
}

/// Upper end of the split range of `binary_splits`.
pub open spec fn splits_hi(k: int, u1_max: int) -> int {
    if k < u1_max {
        k
    } else {
        u1_max
    }
}

} // verus!
