//! Binomial coefficients and the average-diversity recurrence.
//!
//! `beta` is the sum of the diversity of every `k`-subset of leaves below a
//! node; dividing by the matching binomial coefficient gives the mean. The
//! recurrence follows the split of the subsets over the two children:
//! subsets entirely inside one child charge that child's edge once, and
//! straddling subsets charge both, weighted by the number of ways to choose
//! each side.

use vstd::prelude::*;

use crate::tree::Tree;
use crate::tree::lemma_children_prefix;
use crate::tree::lemma_struct;

verus! {

/// Pascal's binomial coefficient: the number of `k`-subsets of an `n`-set.
pub open spec fn binom(n: int, k: int) -> int
    decreases n,
{
    if k < 0 || k > n {
        0
    } else if k == 0 {
        1
    } else {
        binom(n - 1, k - 1) + binom(n - 1, k)
    }
}

pub proof fn lemma_binom_nonneg(n: int, k: int)
    ensures
        binom(n, k) >= 0,
    decreases n,
{
    if !(k < 0 || k > n) && k != 0 {
        lemma_binom_nonneg(n - 1, k - 1);
        lemma_binom_nonneg(n - 1, k);
    }
}

pub proof fn lemma_binom_pos(n: int, k: int)
    requires
        0 <= k <= n,
    ensures
        binom(n, k) >= 1,
    decreases n,
{
    if k != 0 {
        lemma_binom_pos(n - 1, k - 1);
        lemma_binom_nonneg(n - 1, k);
    }
}

pub proof fn lemma_binom_diag(n: int)
    requires
        n >= 0,
    ensures
        binom(n, n) == 1,
    decreases n,
{
    if n > 0 {
        lemma_binom_diag(n - 1);
        assert(binom(n - 1, n) == 0);
    }
}

/// Lower end of the straddling-split range at `(v, k)`.
pub open spec fn avg_lo(t: Tree, v: int, k: int) -> int {
    let y = t.child(v, 1);
    if k - t.cluster_size(y) > 1 {
        k - t.cluster_size(y)
    } else {
        1
    }
}

/// Upper end of the straddling-split range at `(v, k)`.
pub open spec fn avg_hi(t: Tree, v: int, k: int) -> int {
    let x = t.child(v, 0);
    if k - 1 < t.cluster_size(x) {
        k - 1
    } else {
        t.cluster_size(x)
    }
}

/// Contribution of the straddling subsets that draw `l` leaves from the
/// first child and `k - l` from the second.
pub open spec fn straddle_term(t: Tree, v: int, k: int, l: int) -> int
    decreases v, 0int, 0int, 0int,
{
    let x = t.child(v, 0);
    let y = t.child(v, 1);
    if 0 <= x < v && 0 <= y < v {
        binom(t.cluster_size(y), k - l) * beta(t, x, l) + binom(t.cluster_size(x), l) * beta(
            t,
            y,
            k - l,
        ) + binom(t.cluster_size(x), l) * binom(t.cluster_size(y), k - l) * (
        t.weight(x) + t.weight(y))
    } else {
        0
    }
}

/// Sum of `straddle_term` over the splits with left share in `[avg_lo, l]`.
pub open spec fn straddle_to(t: Tree, v: int, k: int, l: int) -> int
    decreases v, 0int, l - avg_lo(t, v, k) + 1, 1int,
{
    if l < avg_lo(t, v, k) {
        0
    } else {
        straddle_to(t, v, k, l - 1) + straddle_term(t, v, k, l)
    }
}

/// Sum of the diversity of every `k`-subset of leaves below `v`; zero
/// outside `1 <= k <= cluster_size(v)`.
pub open spec fn beta(t: Tree, v: int, k: int) -> int
    decreases v, 1int, 0int, 0int,
{
    if !t.is_node(v) || k < 1 || k > t.cluster_size(v) {
        0
    } else if t.is_leaf(v) {
        0
    } else {
        let x = t.child(v, 0);
        let y = t.child(v, 1);
        if 0 <= x < v && 0 <= y < v {
            beta(t, x, k) + binom(t.cluster_size(x), k) * t.weight(x) + beta(t, y, k) + binom(
                t.cluster_size(y),
                k,
            ) * t.weight(y) + straddle_to(t, v, k, avg_hi(t, v, k))
        } else {
            0
        }
    }
}

/// Every quantity of the average-diversity computation fits the wide
/// integer type. This is the machine-size precondition of `compute_avg`:
/// the subset sums and the binomial table must be representable.
pub open spec fn avg_in_range(t: Tree) -> bool {
    &&& forall|a: int, b: int|
        0 <= a <= t.num_leaves() && 0 <= b <= a ==> #[trigger] binom(a, b) <= u128::MAX as int
    &&& forall|v: int, k: int|
        t.is_node(v) && 1 <= k <= t.cluster_size(v) ==> #[trigger] beta(t, v, k)
            <= u128::MAX as int
}

pub proof fn lemma_beta_nonneg(t: Tree, v: int, k: int)
    ensures
        beta(t, v, k) >= 0,
    decreases v, 1int, 0int, 0int,
{
    if t.is_node(v) && 1 <= k <= t.cluster_size(v) && !t.is_leaf(v) {
        let x = t.child(v, 0);
        let y = t.child(v, 1);
        if 0 <= x < v && 0 <= y < v {
            lemma_beta_nonneg(t, x, k);
            lemma_beta_nonneg(t, y, k);
            lemma_binom_nonneg(t.cluster_size(x), k);
            lemma_binom_nonneg(t.cluster_size(y), k);
            lemma_straddle_nonneg(t, v, k, avg_hi(t, v, k));
        }
    }
}

pub proof fn lemma_term_nonneg(t: Tree, v: int, k: int, l: int)
    ensures
        straddle_term(t, v, k, l) >= 0,
    decreases v, 0int, 0int, 0int,
{
    let x = t.child(v, 0);
    let y = t.child(v, 1);
    if 0 <= x < v && 0 <= y < v {
        lemma_beta_nonneg(t, x, l);
        lemma_beta_nonneg(t, y, k - l);
        lemma_binom_nonneg(t.cluster_size(y), k - l);
        lemma_binom_nonneg(t.cluster_size(x), l);
        lemma_mul_nonneg(binom(t.cluster_size(y), k - l), beta(t, x, l));
        lemma_mul_nonneg(binom(t.cluster_size(x), l), beta(t, y, k - l));
        lemma_mul_nonneg(binom(t.cluster_size(x), l), binom(t.cluster_size(y), k - l));
        lemma_mul_nonneg(
            binom(t.cluster_size(x), l) * binom(t.cluster_size(y), k - l),
            t.weight(x) + t.weight(y),
        );
    }
}

pub proof fn lemma_mul_nonneg(a: int, b: int)
    requires
        a >= 0,
        b >= 0,
    ensures
        a * b >= 0,
{
    assert(a * b >= 0) by (nonlinear_arith)
        requires
            a >= 0,
            b >= 0,
    ;
}

/// A product grows with its left factor when the right factor is positive,
/// and never shrinks below one factor when the other is at least one.
pub proof fn lemma_mul_le(a: int, b: int)
    requires
        a >= 0,
        b >= 1,
    ensures
        a <= a * b,
    decreases b,
{
    assert(a <= a * b) by (nonlinear_arith)
        requires
            a >= 0,
            b >= 1,
    ;
}

pub proof fn lemma_straddle_nonneg(t: Tree, v: int, k: int, l: int)
    ensures
        straddle_to(t, v, k, l) >= 0,
    decreases v, 0int, l - avg_lo(t, v, k) + 1, 1int,
{
    if l >= avg_lo(t, v, k) {
        lemma_straddle_nonneg(t, v, k, l - 1);
        lemma_term_nonneg(t, v, k, l);
    }
}

/// Law (scaling, averages): multiplying every edge weight by `c`
/// multiplies the sum of subset diversities by `c`, for every node and
/// subset size.
pub proof fn lemma_scaling_beta(t1: Tree, t2: Tree, c: int, v: int, k: int)
    requires
        crate::dp::scaled_by(t1, t2, c),
    ensures
        beta(t2, v, k) == c * beta(t1, v, k),
    decreases v, 1int, 0int, 0int,
{
    if !t1.is_node(v) || k < 1 {
        assert(c * 0 == 0) by (nonlinear_arith);
    } else {
        lemma_scaled_same_shape(t1, t2, c, v);
        if k > t1.cluster_size(v) || t1.is_leaf(v) {
            assert(c * 0 == 0) by (nonlinear_arith);
        } else {
            let x = t1.child(v, 0);
            let y = t1.child(v, 1);
            if 0 <= x < v && 0 <= y < v {
                lemma_scaled_same_shape(t1, t2, c, x);
                lemma_scaled_same_shape(t1, t2, c, y);
                lemma_scaling_beta(t1, t2, c, x, k);
                lemma_scaling_beta(t1, t2, c, y, k);
                lemma_scaling_straddle(t1, t2, c, v, k, avg_hi(t1, v, k));
                let bx = beta(t1, x, k);
                let by = beta(t1, y, k);
                let cx = binom(t1.cluster_size(x), k);
                let cy = binom(t1.cluster_size(y), k);
                let wx = t1.weight(x) as int;
                let wy = t1.weight(y) as int;
                let st = straddle_to(t1, v, k, avg_hi(t1, v, k));
                assert(c * bx + cx * (c * wx) + c * by + cy * (c * wy) + c * st == c * (bx + cx
                    * wx + by + cy * wy + st)) by (nonlinear_arith);
            } else {
                assert(c * 0 == 0) by (nonlinear_arith);
            }
        }
    }
}

proof fn lemma_scaling_straddle(t1: Tree, t2: Tree, c: int, v: int, k: int, l: int)
    requires
        crate::dp::scaled_by(t1, t2, c),
        t1.is_node(v),
        0 <= t1.child(v, 0) < v,
        0 <= t1.child(v, 1) < v,
    ensures
        straddle_to(t2, v, k, l) == c * straddle_to(t1, v, k, l),
    decreases v, 0int, l - avg_lo(t1, v, k) + 1, 1int,
{
    lemma_scaled_same_shape(t1, t2, c, v);
    let x = t1.child(v, 0);
    let y = t1.child(v, 1);
    lemma_scaled_same_shape(t1, t2, c, x);
    lemma_scaled_same_shape(t1, t2, c, y);
    assert(t2.child(v, 0) == x && t2.child(v, 1) == y);
    assert(avg_lo(t2, v, k) == avg_lo(t1, v, k));
    if l < avg_lo(t1, v, k) {
        assert(c * 0 == 0) by (nonlinear_arith);
    } else {
        lemma_scaling_straddle(t1, t2, c, v, k, l - 1);
        lemma_scaling_beta(t1, t2, c, x, l);
        lemma_scaling_beta(t1, t2, c, y, k - l);
        let bx = beta(t1, x, l);
        let by = beta(t1, y, k - l);
        let cx = binom(t1.cluster_size(x), l);
        let cy = binom(t1.cluster_size(y), k - l);
        let wx = t1.weight(x) as int;
        let wy = t1.weight(y) as int;
        let prev = straddle_to(t1, v, k, l - 1);
        assert(t2.weight(x) as int == c * wx);
        assert(t2.weight(y) as int == c * wy);
        assert(beta(t2, x, l) == c * bx);
        assert(beta(t2, y, k - l) == c * by);
        assert(binom(t2.cluster_size(y), k - l) == cy);
        assert(binom(t2.cluster_size(x), l) == cx);
        assert(straddle_term(t1, v, k, l) == cy * bx + cx * by + cx * cy * (wx + wy));
        assert(straddle_to(t1, v, k, l) == prev + straddle_term(t1, v, k, l));
        assert(straddle_to(t2, v, k, l) == straddle_to(t2, v, k, l - 1) + straddle_term(
            t2,
            v,
            k,
            l,
        ));
        assert(straddle_term(t2, v, k, l) == cy * (c * bx) + cx * (c * by) + cx * cy * (c * wx
            + c * wy));
        let p1 = cy * bx;
        let p2 = cx * by;
        let p3 = cx * cy * (wx + wy);
        assert(cy * (c * bx) == c * p1) by (nonlinear_arith)
            requires
                p1 == cy * bx,
        ;
        assert(cx * (c * by) == c * p2) by (nonlinear_arith)
            requires
                p2 == cx * by,
        ;
        assert(cx * cy * (c * wx + c * wy) == c * p3) by (nonlinear_arith)
            requires
                p3 == cx * cy * (wx + wy),
        ;
        assert(c * prev + c * p1 + c * p2 + c * p3 == c * (prev + p1 + p2 + p3))
            by (nonlinear_arith);
    }
}

/// Partial Vandermonde sum: the number of `k`-subsets of an `(m + n2)`-set
/// that draw at most `l` elements from the first `m`, counted by splits.
pub open spec fn vsum(m: int, n2: int, k: int, l: int) -> int
    decreases l + 1,
{
    if l < 0 {
        0
    } else {
        vsum(m, n2, k, l - 1) + binom(m, l) * binom(n2, k - l)
    }
}

proof fn lemma_vsum_zero(n2: int, k: int, l: int)
    requires
        l >= 0,
    ensures
        vsum(0, n2, k, l) == binom(n2, k),
    decreases l,
{
    if l == 0 {
        assert(vsum(0, n2, k, -1) == 0);
        assert(binom(0, 0) == 1);
        assert(1 * binom(n2, k - 0) == binom(n2, k - 0)) by (nonlinear_arith);
    } else {
        lemma_vsum_zero(n2, k, l - 1);
        assert(binom(0, l) == 0);
        assert(0 * binom(n2, k - l) == 0) by (nonlinear_arith);
    }
}

proof fn lemma_vsum_pascal(m: int, n2: int, k: int, l: int)
    requires
        m >= 1,
        l >= 0,
    ensures
        vsum(m, n2, k, l) == vsum(m - 1, n2, k, l) + vsum(m - 1, n2, k - 1, l - 1),
    decreases l,
{
    if l == 0 {
        assert(vsum(m, n2, k, -1) == 0);
        assert(vsum(m - 1, n2, k, -1) == 0);
        assert(binom(m, 0) == 1);
        assert(binom(m - 1, 0) == 1);
        assert(vsum(m - 1, n2, k - 1, -1) == 0);
        assert(1 * binom(n2, k - 0) == binom(n2, k - 0)) by (nonlinear_arith);
    } else {
        lemma_vsum_pascal(m, n2, k, l - 1);
        assert(binom(m, l) == binom(m - 1, l) + binom(m - 1, l - 1));
        assert((binom(m - 1, l) + binom(m - 1, l - 1)) * binom(n2, k - l) == binom(m - 1, l)
            * binom(n2, k - l) + binom(m - 1, l - 1) * binom(n2, k - l)) by (nonlinear_arith);
    }
}

/// Vandermonde's identity: splitting the `k`-subsets of an `(m + n2)`-set
/// by how many elements come from the first `m` counts each subset once.
pub proof fn lemma_vandermonde(m: int, n2: int, k: int)
    requires
        m >= 0,
        n2 >= 0,
        k >= 0,
    ensures
        vsum(m, n2, k, k) == binom(m + n2, k),
    decreases m,
{
    if m == 0 {
        lemma_vsum_zero(n2, k, k);
    } else {
        lemma_vsum_pascal(m, n2, k, k);
        lemma_vandermonde(m - 1, n2, k);
        if k == 0 {
            assert(vsum(m - 1, n2, -1, -1) == 0);
        } else {
            lemma_vandermonde(m - 1, n2, k - 1);
            assert(vsum(m - 1, n2, k - 1, k) == vsum(m - 1, n2, k - 1, k - 1) + binom(m - 1, k)
                * binom(n2, -1));
            assert(binom(n2, -1) == 0);
            assert(binom(m - 1, k) * 0 == 0) by (nonlinear_arith);
            assert(binom(m + n2, k) == binom(m + n2 - 1, k) + binom(m + n2 - 1, k - 1));
        }
    }
}

/// Sum of `binom(m, l') * binom(n2, k - l')` over the straddling range
/// `max(1, k - n2) <= l' <= l`: the number of `k`-subsets that draw at
/// least one element from each side, counted by splits up to `l`.
pub open spec fn coeff_to(m: int, n2: int, k: int, l: int) -> int
    decreases l - coeff_lo(n2, k) + 1,
{
    if l < coeff_lo(n2, k) {
        0
    } else {
        coeff_to(m, n2, k, l - 1) + binom(m, l) * binom(n2, k - l)
    }
}

/// Lower end of the straddling range: `max(1, k - n2)`.
pub open spec fn coeff_lo(n2: int, k: int) -> int {
    if k - n2 > 1 {
        k - n2
    } else {
        1
    }
}

proof fn lemma_vsum_coeff(m: int, n2: int, k: int, l: int)
    requires
        m >= 0,
        n2 >= 0,
        0 <= l <= k - 1,
    ensures
        vsum(m, n2, k, l) == binom(n2, k) + coeff_to(m, n2, k, l),
    decreases l,
{
    if l == 0 {
        assert(vsum(m, n2, k, -1) == 0);
        assert(binom(m, 0) == 1);
        assert(1 * binom(n2, k - 0) == binom(n2, k - 0)) by (nonlinear_arith);
        assert(coeff_to(m, n2, k, 0) == 0);
    } else {
        lemma_vsum_coeff(m, n2, k, l - 1);
        if l < coeff_lo(n2, k) {
            assert(k - l > n2);
            assert(binom(n2, k - l) == 0);
            assert(binom(m, l) * 0 == 0) by (nonlinear_arith);
            assert(coeff_to(m, n2, k, l) == 0);
            assert(coeff_to(m, n2, k, l - 1) == 0);
        } else {
            if l - 1 < coeff_lo(n2, k) {
                assert(coeff_to(m, n2, k, l - 1) == 0);
            }
        }
    }
}

proof fn lemma_coeff_trim(m: int, n2: int, k: int, l: int, h: int)
    requires
        h == (if m < k - 1 {
            m
        } else {
            k - 1
        }),
        h <= l <= k - 1,
    ensures
        coeff_to(m, n2, k, l) == coeff_to(m, n2, k, h),
    decreases l - h,
{
    if l > h {
        lemma_coeff_trim(m, n2, k, l - 1, h);
        if l >= coeff_lo(n2, k) {
            assert(l > m);
            assert(binom(m, l) == 0);
            assert(0 * binom(n2, k - l) == 0) by (nonlinear_arith);
        }
    }
}

/// The binomial coefficient of the whole set splits into the subsets lying
/// entirely in either side and the straddling splits.
pub proof fn lemma_coeff_identity(m: int, n2: int, k: int)
    requires
        m >= 0,
        n2 >= 0,
        k >= 1,
    ensures
        binom(m + n2, k) == binom(n2, k) + binom(m, k) + coeff_to(
            m,
            n2,
            k,
            (if m < k - 1 {
                m
            } else {
                k - 1
            }),
        ),
{
    lemma_vandermonde(m, n2, k);
    lemma_vsum_coeff(m, n2, k, k - 1);
    assert(vsum(m, n2, k, k) == vsum(m, n2, k, k - 1) + binom(m, k) * binom(n2, 0));
    assert(binom(n2, 0) == 1);
    assert(binom(m, k) * 1 == binom(m, k)) by (nonlinear_arith);
    lemma_coeff_trim(
        m,
        n2,
        k,
        k - 1,
        (if m < k - 1 {
            m
        } else {
            k - 1
        }),
    );
}

/// Multiplying both sides of an inequality by a nonnegative factor.
pub proof fn lemma_mul_mono(c: int, a: int, b: int)
    requires
        c >= 0,
        a <= b,
    ensures
        c * a <= c * b,
{
    assert(c * a <= c * b) by (nonlinear_arith)
        requires
            c >= 0,
            a <= b,
    ;
}

/// The straddling part of the subset sum is bounded by the straddling part
/// of the subset count times the extremal value.
proof fn lemma_avg_straddle(t: Tree, op: crate::dp::Extremum, v: int, k: int, l: int)
    requires
        t.wf(),
        t.is_binary_spec(),
        t.is_node(v),
        !t.is_leaf(v),
        1 <= k <= t.cluster_size(v),
        avg_lo(t, v, k) - 1 <= l <= avg_hi(t, v, k),
    ensures
        crate::dp::bar_cand(t, op, v, k) is Some,
        op == crate::dp::Extremum::Min ==> coeff_to(
            t.cluster_size(t.child(v, 0)),
            t.cluster_size(t.child(v, 1)),
            k,
            l,
        ) * crate::dp::bar_cand(t, op, v, k)->Some_0.val <= straddle_to(t, v, k, l),
        op == crate::dp::Extremum::Max ==> straddle_to(t, v, k, l) <= coeff_to(
            t.cluster_size(t.child(v, 0)),
            t.cluster_size(t.child(v, 1)),
            k,
            l,
        ) * crate::dp::bar_cand(t, op, v, k)->Some_0.val,
    decreases v, 0int, l - avg_lo(t, v, k) + 1, 0int,
{
    crate::dp::lemma_bar_ok(t, op, v, k);
    let x = t.child(v, 0);
    let y = t.child(v, 1);
    let nx = t.cluster_size(x);
    let ny = t.cluster_size(y);
    let m = crate::dp::bar_cand(t, op, v, k)->Some_0.val;
    assert(t.node_ok(v));
    assert(t.arity(v) == 2);
    lemma_struct(t, v);
    lemma_struct(t, x);
    lemma_struct(t, y);
    assert(t.cluster_size(v) == t.cs_of_children(v, 2));
    assert(t.cs_of_children(v, 0) == 0);
    assert(t.cs_of_children(v, 1) == nx);
    assert(t.cluster_size(v) == nx + ny);
    assert(coeff_lo(ny, k) == avg_lo(t, v, k));
    if l < avg_lo(t, v, k) {
        assert(straddle_to(t, v, k, l) == 0);
        assert(coeff_to(nx, ny, k, l) == 0);
        assert(0 * m == 0) by (nonlinear_arith);
    } else {
        lemma_avg_straddle(t, op, v, k, l - 1);
        let r = k - l;
        assert(1 <= l <= nx);
        assert(1 <= r <= ny);
        lemma_avg_between(t, op, x, l);
        lemma_avg_between(t, op, y, r);
        crate::dp::lemma_split_ok(t, op, v, k, l);
        crate::dp::lemma_bar_fold_optimal(t, op, v, k, crate::dp::split_hi(t, v, k), l);
        let bx = crate::dp::bar_cand(t, op, x, l)->Some_0.val;
        let by = crate::dp::bar_cand(t, op, y, r)->Some_0.val;
        let cx = binom(nx, l);
        let cy = binom(ny, r);
        let wx = t.weight(x) as int;
        let wy = t.weight(y) as int;
        let d = crate::dp::split_cand(t, op, v, k, l)->Some_0;
        assert(d.val == bx + wx + by + wy);
        lemma_binom_nonneg(nx, l);
        lemma_binom_nonneg(ny, r);
        lemma_mul_nonneg(cx, cy);
        assert(straddle_term(t, v, k, l) == cy * beta(t, x, l) + cx * beta(t, y, r) + cx * cy
            * (wx + wy));
        assert(coeff_to(nx, ny, k, l) == coeff_to(nx, ny, k, l - 1) + cx * cy);
        match op {
            crate::dp::Extremum::Min => {
                assert(m <= d.val);
                lemma_mul_mono(cy, cx * bx, beta(t, x, l));
                lemma_mul_mono(cx, cy * by, beta(t, y, r));
                assert(cy * (cx * bx) + cx * (cy * by) + cx * cy * (wx + wy) == (cx * cy) * (bx
                    + wx + by + wy)) by (nonlinear_arith);
                lemma_mul_mono(cx * cy, m, d.val);
                assert((coeff_to(nx, ny, k, l - 1) + cx * cy) * m == coeff_to(
                    nx,
                    ny,
                    k,
                    l - 1,
                ) * m + (cx * cy) * m) by (nonlinear_arith);
            },
            crate::dp::Extremum::Max => {
                assert(m >= d.val);
                lemma_mul_mono(cy, beta(t, x, l), cx * bx);
                lemma_mul_mono(cx, beta(t, y, r), cy * by);
                assert(cy * (cx * bx) + cx * (cy * by) + cx * cy * (wx + wy) == (cx * cy) * (bx
                    + wx + by + wy)) by (nonlinear_arith);
                lemma_mul_mono(cx * cy, d.val, m);
                assert((coeff_to(nx, ny, k, l - 1) + cx * cy) * m == coeff_to(
                    nx,
                    ny,
                    k,
                    l - 1,
                ) * m + (cx * cy) * m) by (nonlinear_arith);
            },
        }
    }
}

/// Law: the average diversity lies between the extremes. Below any node
/// and for any feasible subset size, the minimal diversity times the number
/// of subsets is at most the sum of all subset diversities, and the maximal
/// diversity times the number of subsets is at least that sum.
pub proof fn lemma_avg_between(t: Tree, op: crate::dp::Extremum, v: int, k: int)
    requires
        t.wf(),
        t.is_binary_spec(),
        t.is_node(v),
        0 <= k <= t.cluster_size(v),
    ensures
        crate::dp::bar_cand(t, op, v, k) is Some,
        op == crate::dp::Extremum::Min ==> binom(t.cluster_size(v), k) * crate::dp::bar_cand(
            t,
            op,
            v,
            k,
        )->Some_0.val <= beta(t, v, k),
        op == crate::dp::Extremum::Max ==> beta(t, v, k) <= binom(t.cluster_size(v), k)
            * crate::dp::bar_cand(t, op, v, k)->Some_0.val,
    decreases v, 1int, 0int, 0int,
{
    crate::dp::lemma_bar_ok(t, op, v, k);
    let m = crate::dp::bar_cand(t, op, v, k)->Some_0.val;
    if k == 0 {
        assert(m == 0);
        assert(binom(t.cluster_size(v), 0) * 0 == 0) by (nonlinear_arith);
    } else if t.is_leaf(v) {
        assert(m == 0);
        assert(beta(t, v, k) == 0);
        assert(binom(t.cluster_size(v), k) * 0 == 0) by (nonlinear_arith);
    } else {
        let x = t.child(v, 0);
        let y = t.child(v, 1);
        assert(t.node_ok(v));
        assert(t.arity(v) == 2);
        lemma_struct(t, v);
        lemma_struct(t, x);
        lemma_struct(t, y);
        let nx = t.cluster_size(x);
        let ny = t.cluster_size(y);
        assert(t.cluster_size(v) == t.cs_of_children(v, 2));
        assert(t.cs_of_children(v, 0) == 0);
        assert(t.cs_of_children(v, 1) == nx);
        assert(t.cluster_size(v) == nx + ny);
        let wx = t.weight(x) as int;
        let wy = t.weight(y) as int;
        let cnx = binom(nx, k);
        let cny = binom(ny, k);
        let g1 = beta(t, x, k) + cnx * wx;
        let g2 = beta(t, y, k) + cny * wy;
        lemma_binom_nonneg(nx, k);
        lemma_binom_nonneg(ny, k);
        // The subsets entirely inside one child: compare against the split
        // that takes everything from that child.
        if k <= nx {
            lemma_avg_between(t, op, x, k);
            crate::dp::lemma_split_ok(t, op, v, k, k);
            crate::dp::lemma_bar_fold_optimal(t, op, v, k, crate::dp::split_hi(t, v, k), k);
            let d = crate::dp::split_cand(t, op, v, k, k)->Some_0;
            let bx = crate::dp::bar_cand(t, op, x, k)->Some_0.val;
            assert(crate::dp::bar_cand(t, op, y, 0)->Some_0.val == 0);
            assert(d.val == bx + wx);
            assert(cnx * (bx + wx) == cnx * bx + cnx * wx) by (nonlinear_arith);
            match op {
                crate::dp::Extremum::Min => {
                    assert(m <= d.val);
                    lemma_mul_mono(cnx, m, d.val);
                    assert(cnx * m <= g1);
                },
                crate::dp::Extremum::Max => {
                    assert(m >= d.val);
                    lemma_mul_mono(cnx, d.val, m);
                    assert(g1 <= cnx * m);
                },
            }
        } else {
            assert(beta(t, x, k) == 0);
            assert(cnx == 0);
            assert(0 * wx == 0) by (nonlinear_arith);
            assert(0 * m == 0) by (nonlinear_arith);
        }
        if k <= ny {
            lemma_avg_between(t, op, y, k);
            crate::dp::lemma_split_ok(t, op, v, k, 0);
            crate::dp::lemma_bar_fold_optimal(t, op, v, k, crate::dp::split_hi(t, v, k), 0);
            let d = crate::dp::split_cand(t, op, v, k, 0)->Some_0;
            let by = crate::dp::bar_cand(t, op, y, k)->Some_0.val;
            assert(crate::dp::bar_cand(t, op, x, 0)->Some_0.val == 0);
            assert(d.val == by + wy);
            assert(cny * (by + wy) == cny * by + cny * wy) by (nonlinear_arith);
            match op {
                crate::dp::Extremum::Min => {
                    assert(m <= d.val);
                    lemma_mul_mono(cny, m, d.val);
                    assert(cny * m <= g2);
                },
                crate::dp::Extremum::Max => {
                    assert(m >= d.val);
                    lemma_mul_mono(cny, d.val, m);
                    assert(g2 <= cny * m);
                },
            }
        } else {
            assert(beta(t, y, k) == 0);
            assert(cny == 0);
            assert(0 * wy == 0) by (nonlinear_arith);
            assert(0 * m == 0) by (nonlinear_arith);
        }
        lemma_avg_straddle(t, op, v, k, avg_hi(t, v, k));
        lemma_coeff_identity(nx, ny, k);
        assert(avg_hi(t, v, k) == (if nx < k - 1 {
            nx
        } else {
            k - 1
        }));
        let cst = coeff_to(nx, ny, k, avg_hi(t, v, k));
        assert(beta(t, v, k) == g1 + g2 + straddle_to(t, v, k, avg_hi(t, v, k)));
        assert((cnx + cny + cst) * m == cnx * m + cny * m + cst * m) by (nonlinear_arith);
        assert(cst * m == coeff_to(nx, ny, k, avg_hi(t, v, k)) * m);
    }
}

/// Law (average at the full cluster): when every leaf below a node is
/// taken there is a single subset, so the subset sum equals the extremal
/// value — minimum, average and maximum all coincide there.
pub proof fn lemma_avg_full_cluster(t: Tree, op: crate::dp::Extremum, v: int)
    requires
        t.wf(),
        t.is_binary_spec(),
        t.is_node(v),
    ensures
        crate::dp::bar_cand(t, op, v, t.cluster_size(v)) is Some,
        beta(t, v, t.cluster_size(v)) == crate::dp::bar_cand(
            t,
            op,
            v,
            t.cluster_size(v),
        )->Some_0.val,
    decreases v,
{
    let k = t.cluster_size(v);
    crate::dp::lemma_bar_ok(t, op, v, k);
    lemma_struct(t, v);
    if t.is_leaf(v) {
        assert(beta(t, v, 1) == 0);
    } else {
        let x = t.child(v, 0);
        let y = t.child(v, 1);
        assert(t.node_ok(v));
        assert(t.arity(v) == 2);
        lemma_struct(t, x);
        lemma_struct(t, y);
        assert(t.cluster_size(v) == t.cs_of_children(v, 2));
        assert(t.cs_of_children(v, 0) == 0);
        assert(t.cs_of_children(v, 1) == t.cluster_size(x));
        let nx = t.cluster_size(x);
        let ny = t.cluster_size(y);
        assert(k == nx + ny);
        lemma_avg_full_cluster(t, op, x);
        lemma_avg_full_cluster(t, op, y);
        crate::dp::lemma_bar_ok(t, op, x, nx);
        crate::dp::lemma_bar_ok(t, op, y, ny);
        let a = crate::dp::bar_cand(t, op, x, nx)->Some_0;
        let b = crate::dp::bar_cand(t, op, y, ny)->Some_0;
        // The average side: only the single straddling split contributes.
        assert(beta(t, x, k) == 0);
        assert(binom(nx, k) == 0);
        assert(beta(t, y, k) == 0);
        assert(binom(ny, k) == 0);
        lemma_binom_diag(nx);
        lemma_binom_diag(ny);
        assert(avg_lo(t, v, k) == nx);
        assert(avg_hi(t, v, k) == nx);
        assert(straddle_to(t, v, k, nx - 1) == 0);
        assert(straddle_to(t, v, k, nx) == straddle_term(t, v, k, nx));
        let wx = t.weight(x) as int;
        let wy = t.weight(y) as int;
        assert(straddle_term(t, v, k, nx) == 1 * beta(t, x, nx) + 1 * beta(t, y, ny) + 1 * 1 * (
        wx + wy));
        assert(1 * beta(t, x, nx) == beta(t, x, nx)) by (nonlinear_arith);
        assert(1 * beta(t, y, ny) == beta(t, y, ny)) by (nonlinear_arith);
        assert(1 * 1 * (wx + wy) == wx + wy) by (nonlinear_arith);
        assert(beta(t, v, k) == beta(t, x, nx) + beta(t, y, ny) + wx + wy);
        // The extremal side: the split range holds the single split too.
        assert(crate::dp::split_lo(t, v, k) == nx);
        assert(crate::dp::split_hi(t, v, k) == nx);
        assert(crate::dp::bar_fold(t, op, v, k, nx - 1) is None);
        let d = crate::dp::split_cand(t, op, v, k, nx)->Some_0;
        assert(crate::dp::split_cand(t, op, v, k, nx) is Some);
        assert(d.val == a.val + wx + b.val + wy);
        assert(crate::dp::bar_cand(t, op, v, k)->Some_0 == d);
    }
}

/// Trees of the same shape agree on the structural quantities the average
/// recurrence reads.
proof fn lemma_scaled_same_shape(t1: Tree, t2: Tree, c: int, v: int)
    requires
        crate::dp::scaled_by(t1, t2, c),
        0 <= v < t1.len(),
    ensures
        t2.cluster_size(v) == t1.cluster_size(v),
        t2.arity(v) == t1.arity(v),
        forall|j: int| 0 <= j < t1.arity(v) ==> #[trigger] t2.child(v, j) == t1.child(v, j),
    decreases v, 1int, 0int, 0int,
{
    lemma_scaled_shape_children(t1, t2, c, v, t1.arity(v));
}

proof fn lemma_scaled_shape_children(t1: Tree, t2: Tree, c: int, v: int, j: int)
    requires
        crate::dp::scaled_by(t1, t2, c),
        0 <= v < t1.len(),
        0 <= j <= t1.arity(v),
    ensures
        t2.cs_of_children(v, j) == t1.cs_of_children(v, j),
        forall|i: int| 0 <= i < t1.arity(v) ==> #[trigger] t2.child(v, i) == t1.child(v, i),
    decreases v, 0int, j, 0int,
{
    if j > 0 {
        lemma_scaled_shape_children(t1, t2, c, v, j - 1);
        let ch = t1.child(v, j - 1);
        if 0 <= ch < v {
            lemma_scaled_same_shape(t1, t2, c, ch);
        }
    }
}

/// Prefix sums of the straddling contributions never exceed a longer prefix.
pub proof fn lemma_straddle_mono(t: Tree, v: int, k: int, l: int, l2: int)
    requires
        l <= l2,
    ensures
        straddle_to(t, v, k, l) <= straddle_to(t, v, k, l2),
    decreases l2 - l,
{
    if l < l2 {
        lemma_straddle_mono(t, v, k, l, l2 - 1);
        lemma_term_nonneg(t, v, k, l2);
        if l2 >= avg_lo(t, v, k) {
            assert(straddle_to(t, v, k, l2) == straddle_to(t, v, k, l2 - 1) + straddle_term(
                t,
                v,
                k,
                l2,
            ));
        } else {
            assert(straddle_to(t, v, k, l2) == 0);
            assert(straddle_to(t, v, k, l) == 0);
        }
    }
}

impl Tree {
    /// Fill the average-diversity table bottom-up. The entry at `(v, k)` is
    /// the pair of the subset sum `beta` and the number `binom` of
    /// `k`-subsets below `v`; their quotient is the mean diversity. Entries
    /// beyond the cluster size are absent.
    #[verifier::loop_isolation(false)]
    pub fn compute_avg(&self) -> (alpha: Vec<Vec<Option<(u128, u128)>>>)
        requires
            self.wf(),
            self.is_binary_spec(),
            avg_in_range(*self),
        ensures
            alpha@.len() == self.len(),
            forall|v: int|
                0 <= v < self.len() ==> (#[trigger] alpha@[v]@.len()) == self.num_leaves() + 1,
            forall|v: int, k: int|
                0 <= v < self.len() && 0 <= k <= self.num_leaves() && k <= self.cluster_size(v)
                    ==> (#[trigger] alpha@[v]@[k]) == Some(
                    (
                        (beta(*self, v, k) as u128),
                        (binom(self.cluster_size(v), k) as u128),
                    ),
                ),
            forall|v: int, k: int|
                0 <= v < self.len() && 0 <= k <= self.num_leaves() && k > self.cluster_size(v)
                    ==> (#[trigger] alpha@[v]@[k]) is None,
    {
        let n = self.nodes.len();
        let cs = self.cluster_sizes();
        let nl = cs[n - 1];
        proof {
            assert(cs@[self.len() - 1] as int == self.cluster_size(self.root()));
            assert(nl as int == self.num_leaves());
            lemma_struct(*self, self.root());
            assert(nl as int <= self.len());
            if !self.is_leaf(self.root()) {
                lemma_children_prefix(*self, self.root(), self.arity(self.root()));
                assert(self.cluster_size(self.root()) == self.cs_of_children(
                    self.root(),
                    self.arity(self.root()),
                ));
                assert(self.subtree_size(self.root()) == 1 + self.size_of_children(
                    self.root(),
                    self.arity(self.root()),
                ));
            }
            assert(nl < usize::MAX);
        }
        let pas = pascal_triangle(nl);
        let mut bt: Vec<Vec<u128>> = Vec::new();
        let mut alpha: Vec<Vec<Option<(u128, u128)>>> = Vec::new();
        let mut v: usize = 0;
        while v < n
            invariant
                v <= n,
                bt@.len() == v as int,
                alpha@.len() == v as int,
                forall|u: int|
                    0 <= u < v as int ==> (#[trigger] bt@[u]@.len()) == nl as int + 1
                        && alpha@[u]@.len() == nl as int + 1,
                forall|u: int, kk: int|
                    0 <= u < v as int && 0 <= kk <= nl as int ==> #[trigger] bt@[u]@[kk] as int
                        == beta(*self, u, kk),
                forall|u: int, kk: int|
                    0 <= u < v as int && 0 <= kk <= nl as int && kk <= self.cluster_size(u)
                        ==> (#[trigger] alpha@[u]@[kk]) == Some(
                        (
                            (beta(*self, u, kk) as u128),
                            (binom(self.cluster_size(u), kk) as u128),
                        ),
                    ),
                forall|u: int, kk: int|
                    0 <= u < v as int && 0 <= kk <= nl as int && kk > self.cluster_size(u)
                        ==> (#[trigger] alpha@[u]@[kk]) is None,
            decreases n - v,
        {
            proof {
                lemma_struct(*self, v as int);
                crate::tree::lemma_cluster_le_leaves(*self, v as int);
            }
            let csv = cs[v];
            let mut brow: Vec<u128> = Vec::new();
            let mut arow: Vec<Option<(u128, u128)>> = Vec::new();
            if self.nodes[v].children.len() == 0 {
                let mut k: usize = 0;
                while k <= nl
                    invariant
                        k <= nl + 1,
                        brow@.len() == k as int,
                        arow@.len() == k as int,
                        csv == 1,
                        self.is_leaf(v as int),
                        self.cluster_size(v as int) == 1,
                        forall|kk: int|
                            0 <= kk < k as int ==> #[trigger] brow@[kk] as int == beta(
                                *self,
                                v as int,
                                kk,
                            ),
                        forall|kk: int|
                            0 <= kk < k as int && kk <= 1 ==> (#[trigger] arow@[kk]) == Some(
                                ((beta(*self, v as int, kk) as u128), (binom(1, kk) as u128)),
                            ),
                        forall|kk: int|
                            0 <= kk < k as int && kk > 1 ==> (#[trigger] arow@[kk]) is None,
                    decreases nl + 1 - k,
                {
                    brow.push(0u128);
                    proof {
                        assert(beta(*self, v as int, k as int) == 0);
                        assert(binom(1, 0) == 1);
                        assert(binom(1, 1) == binom(0, 0) + binom(0, 1) == 1);
                    }
                    if k <= 1 {
                        arow.push(Some((0u128, 1u128)));
                    } else {
                        arow.push(None);
                    }
                    k = k + 1;
                }
            } else {
                let x = self.nodes[v].children[0];
                let y = self.nodes[v].children[1];
                proof {
                    assert(self.node_ok(v as int));
                    assert(self.arity(v as int) == 2);
                    assert(x as int == self.child(v as int, 0));
                    assert(y as int == self.child(v as int, 1));
                    lemma_struct(*self, x as int);
                    lemma_struct(*self, y as int);
                    assert(bt@[x as int]@.len() == nl as int + 1);
                    assert(bt@[y as int]@.len() == nl as int + 1);
                }
                let wx = self.nodes[x].weight;
                let wy = self.nodes[y].weight;
                let csx = cs[x];
                let csy = cs[y];
                let mut k: usize = 0;
                while k <= nl
                    invariant
                        k <= nl + 1,
                        brow@.len() == k as int,
                        arow@.len() == k as int,
                        forall|kk: int|
                            0 <= kk < k as int ==> #[trigger] brow@[kk] as int == beta(
                                *self,
                                v as int,
                                kk,
                            ),
                        forall|kk: int|
                            0 <= kk < k as int && kk <= self.cluster_size(v as int) ==> (
                            #[trigger] arow@[kk]) == Some(
                                (
                                    (beta(*self, v as int, kk) as u128),
                                    (binom(self.cluster_size(v as int), kk) as u128),
                                ),
                            ),
                        forall|kk: int|
                            0 <= kk < k as int && kk > self.cluster_size(v as int) ==> (
                            #[trigger] arow@[kk]) is None,
                    decreases nl + 1 - k,
                {
                    if k == 0 {
                        brow.push(0u128);
                        let den: u128 = pas[csv][0];
                        proof {
                            assert(beta(*self, v as int, 0) == 0);
                            assert(den as int == binom(csv as int, 0));
                        }
                        arow.push(Some((0u128, den)));
                    } else if k > csv {
                        brow.push(0u128);
                        arow.push(None);
                        proof {
                            assert(beta(*self, v as int, k as int) == 0);
                        }
                    } else {
                        let s = self.avg_entry(
                            Ghost(v as int),
                            k,
                            x,
                            y,
                            wx,
                            wy,
                            csx,
                            csy,
                            nl,
                            &bt,
                            &pas,
                        );
                        let den: u128 = pas[csv][k];
                        proof {
                            assert(den as int == binom(csv as int, k as int));
                        }
                        brow.push(s);
                        arow.push(Some((s, den)));
                    }
                    k = k + 1;
                }
            }
            proof {
                assert forall|kk: int| 0 <= kk <= nl as int implies #[trigger] brow@[kk] as int
                    == beta(*self, v as int, kk) by {}
            }
            bt.push(brow);
            alpha.push(arow);
            v = v + 1;
        }
        proof {
            assert forall|u: int| 0 <= u < self.len() implies (#[trigger] alpha@[u]@.len())
                == self.num_leaves() + 1 by {
                assert(bt@[u]@.len() == nl as int + 1);
            }
        }
        alpha
    }

    /// One cell of the subset-sum table: walk the straddling splits of
    /// `(v, k)` and accumulate the three contributions of the recurrence.
    #[verifier::loop_isolation(false)]
    #[verifier::rlimit(100)]
    fn avg_entry(
        &self,
        v: Ghost<int>,
        k: usize,
        x: usize,
        y: usize,
        wx: u64,
        wy: u64,
        csx: usize,
        csy: usize,
        nl: usize,
        bt: &Vec<Vec<u128>>,
        pas: &Vec<Vec<u128>>,
    ) -> (s: u128)
        requires
            self.wf(),
            self.is_binary_spec(),
            avg_in_range(*self),
            self.is_node(v@),
            !self.is_leaf(v@),
            x as int == self.child(v@, 0),
            y as int == self.child(v@, 1),
            wx == self.weight(x as int),
            wy == self.weight(y as int),
            csx as int == self.cluster_size(x as int),
            csy as int == self.cluster_size(y as int),
            1 <= k as int <= self.cluster_size(v@),
            k as int <= self.num_leaves(),
            nl as int == self.num_leaves(),
            nl as int <= self.len(),
            (x as int) < bt@.len(),
            (y as int) < bt@.len(),
            bt@[x as int]@.len() == nl as int + 1,
            bt@[y as int]@.len() == nl as int + 1,
            forall|kk: int|
                0 <= kk <= nl as int ==> #[trigger] bt@[x as int]@[kk] as int == beta(
                    *self,
                    x as int,
                    kk,
                ),
            forall|kk: int|
                0 <= kk <= nl as int ==> #[trigger] bt@[y as int]@[kk] as int == beta(
                    *self,
                    y as int,
                    kk,
                ),
            pas@.len() == self.num_leaves() + 1,
            forall|a: int| 0 <= a <= self.num_leaves() ==> (#[trigger] pas@[a]@.len())
                == self.num_leaves() + 1,
            forall|a: int, b: int|
                0 <= a <= self.num_leaves() && 0 <= b <= self.num_leaves() ==> #[trigger] pas@[a]@[b] as int
                    == binom(a, b),
        ensures
            s as int == beta(*self, v@, k as int),
    {
        let ghost t = *self;
        let ghost ki = k as int;
        let ghost bb = beta(t, v@, ki);
        proof {
            lemma_struct(*self, v@);
            lemma_struct(*self, x as int);
            lemma_struct(*self, y as int);
            crate::tree::lemma_cluster_le_leaves(*self, x as int);
            crate::tree::lemma_cluster_le_leaves(*self, y as int);
            assert(self.node_ok(v@));
            assert(self.arity(v@) == 2);
            assert(bb <= u128::MAX as int);
            lemma_beta_nonneg(t, x as int, ki);
            lemma_beta_nonneg(t, y as int, ki);
            lemma_binom_nonneg(csx as int, ki);
            lemma_binom_nonneg(csy as int, ki);
            lemma_straddle_nonneg(t, v@, ki, avg_hi(t, v@, ki));
            lemma_mul_nonneg(binom(csx as int, ki), wx as int);
            lemma_mul_nonneg(binom(csy as int, ki), wy as int);
            assert(bb == beta(t, x as int, ki) + binom(csx as int, ki) * (wx as int) + beta(
                t,
                y as int,
                ki,
            ) + binom(csy as int, ki) * (wy as int) + straddle_to(t, v@, ki, avg_hi(t, v@, ki)));
        }
        let mut s: u128 = bt[x][k];
        let c1: u128 = pas[csx][k];
        proof {
            assert(c1 as int * (wx as int) == binom(csx as int, ki) * (wx as int));
            lemma_ratio_mul_fits_u128(c1, wx, bb);
        }
        s = s + c1 * (wx as u128);
        s = s + bt[y][k];
        let c2: u128 = pas[csy][k];
        proof {
            lemma_ratio_mul_fits_u128(c2, wy, bb);
        }
        s = s + c2 * (wy as u128);
        let ghost base = beta(t, x as int, ki) + binom(csx as int, ki) * (wx as int) + beta(
            t,
            y as int,
            ki,
        ) + binom(csy as int, ki) * (wy as int);
        proof {
            assert(s as int == base);
        }
        let d: usize = if k > csy {
            k - csy
        } else {
            0
        };
        let lo: usize = if d > 1 {
            d
        } else {
            1
        };
        let hi: usize = if k - 1 < csx {
            k - 1
        } else {
            csx
        };
        proof {
            assert(lo as int == avg_lo(t, v@, ki));
            assert(hi as int == avg_hi(t, v@, ki));
            assert(straddle_to(t, v@, ki, lo as int - 1) == 0);
        }
        if lo > hi {
            proof {
                assert(straddle_to(t, v@, ki, hi as int) == 0);
            }
            return s;
        }
        let mut l: usize = lo;
        while l <= hi
            invariant
                lo <= l <= hi + 1,
                s as int == base + straddle_to(t, v@, ki, l as int - 1),
            decreases hi + 1 - l,
        {
            let r = k - l;
            let ghost li = l as int;
            proof {
                lemma_term_nonneg(t, v@, ki, li);
                lemma_straddle_nonneg(t, v@, ki, li - 1);
                lemma_straddle_mono(t, v@, ki, li, hi as int);
                assert(straddle_to(t, v@, ki, li) == straddle_to(t, v@, ki, li - 1)
                    + straddle_term(t, v@, ki, li));
                assert(base + straddle_to(t, v@, ki, li) <= bb);
                lemma_beta_nonneg(t, x as int, li);
                lemma_beta_nonneg(t, y as int, ki - li);
                lemma_binom_nonneg(csy as int, ki - li);
                lemma_binom_nonneg(csx as int, li);
                lemma_binom_pos(csx as int, li);
                lemma_binom_pos(csy as int, ki - li);
            }
            let byr: u128 = pas[csy][r];
            let bxl: u128 = pas[csx][l];
            let tx: u128 = bt[x][l];
            let ty: u128 = bt[y][r];
            let ghost term = straddle_term(t, v@, ki, li);
            proof {
                assert(term == byr as int * (tx as int) + bxl as int * (ty as int) + bxl as int
                    * (byr as int) * (wx as int + wy as int));
                assert(term <= bb);
                lemma_mul_nonneg(byr as int, tx as int);
                lemma_mul_nonneg(bxl as int, ty as int);
                lemma_mul_nonneg(bxl as int * (byr as int), wx as int + wy as int);
                assert(byr as int * (tx as int) <= term);
                assert(bxl as int * (ty as int) <= term);
            }
            let t1: u128 = byr * tx;
            let t2: u128 = bxl * ty;
            let wxy: u128 = (wx as u128) + (wy as u128);
            proof {
                assert(bxl as int >= 1 && byr as int >= 1);
                lemma_mul_le((wxy as int) * (byr as int), bxl as int);
                lemma_mul_le(wxy as int, byr as int);
                lemma_mul_nonneg(wxy as int, byr as int);
                assert((wxy as int) * (byr as int) * (bxl as int) == term - byr as int * (
                tx as int) - bxl as int * (ty as int)) by (nonlinear_arith)
                    requires
                        term == byr as int * (tx as int) + bxl as int * (ty as int) + bxl as int
                            * (byr as int) * (wx as int + wy as int),
                        wxy as int == wx as int + wy as int,
                ;
                assert((wxy as int) * (byr as int) <= term);
            }
            let t3: u128 = wxy * byr * bxl;
            proof {
                assert(t1 as int + t2 as int + t3 as int == term);
                assert(s as int + term <= bb);
            }
            s = s + t1;
            s = s + t2;
            s = s + t3;
            l = l + 1;
        }
        proof {
            assert(l as int - 1 == hi as int);
        }
        s
    }
}

/// The product of a binomial entry and an edge weight stays below the
/// quantity it contributes to.
proof fn lemma_ratio_mul_fits_u128(c: u128, w: u64, bound: int)
    requires
        (c as int) * (w as int) <= bound,
        bound <= u128::MAX as int,
        c as int >= 0,
        w as int >= 0,
    ensures
        (c as int) * (w as int) <= u128::MAX as int,
        (c as int) * (w as int) >= 0,
{
    lemma_mul_nonneg(c as int, w as int);
}

/// The table of binomial coefficients `binom(a, b)` for `a <= n`, each row
/// padded with zeroes up to length `n + 1`.
pub fn pascal_triangle(n: usize) -> (p: Vec<Vec<u128>>)
    requires
        forall|a: int, b: int|
            0 <= a <= n as int && 0 <= b <= a ==> #[trigger] binom(a, b) <= u128::MAX as int,
        n < usize::MAX,
    ensures
        p@.len() == n as int + 1,
        forall|a: int| 0 <= a <= n as int ==> (#[trigger] p@[a]@.len()) == n as int + 1,
        forall|a: int, b: int|
            0 <= a <= n as int && 0 <= b <= n as int ==> #[trigger] p@[a]@[b] as int == binom(
                a,
                b,
            ),
{
    let mut p: Vec<Vec<u128>> = Vec::new();
    let mut a: usize = 0;
    while a <= n
        invariant
            a <= n + 1,
            p@.len() == a as int,
            forall|i: int| 0 <= i < a as int ==> (#[trigger] p@[i]@.len()) == n as int + 1,
            forall|i: int, b: int|
                0 <= i < a as int && 0 <= b <= n as int ==> #[trigger] p@[i]@[b] as int == binom(
                    i,
                    b,
                ),
            forall|i: int, b: int|
                0 <= i <= n as int && 0 <= b <= i ==> #[trigger] binom(i, b)
                    <= u128::MAX as int,
            n < usize::MAX,
        decreases n + 1 - a,
    {
        let mut row: Vec<u128> = Vec::new();
        let mut b: usize = 0;
        while b <= n
            invariant
                b <= n + 1,
                row@.len() == b as int,
                forall|j: int| 0 <= j < b as int ==> #[trigger] row@[j] as int == binom(
                    a as int,
                    j,
                ),
                a <= n,
                p@.len() == a as int,
                forall|i: int| 0 <= i < a as int ==> (#[trigger] p@[i]@.len()) == n as int + 1,
                forall|i: int, bb: int|
                    0 <= i < a as int && 0 <= bb <= n as int ==> #[trigger] p@[i]@[bb] as int
                        == binom(i, bb),
                forall|i: int, bb: int|
                    0 <= i <= n as int && 0 <= bb <= i ==> #[trigger] binom(i, bb)
                        <= u128::MAX as int,
                n < usize::MAX,
            decreases n + 1 - b,
        {
            if b == 0 {
                row.push(1u128);
            } else if b > a {
                proof {
                    assert(binom(a as int, b as int) == 0);
                }
                row.push(0u128);
            } else if b == a {
                proof {
                    lemma_binom_diag(a as int);
                }
                row.push(1u128);
            } else {
                let prev = &p[a - 1];
                proof {
                    lemma_binom_nonneg(a as int - 1, b as int - 1);
                    lemma_binom_nonneg(a as int - 1, b as int);
                    assert(binom(a as int, b as int) == binom(a as int - 1, b as int - 1)
                        + binom(a as int - 1, b as int));
                    assert(binom(a as int, b as int) <= u128::MAX as int);
                }
                let s: u128 = prev[b - 1] + prev[b];
                row.push(s);
            }
            b = b + 1;
        }
        p.push(row);
        a = a + 1;
    }
    p
}

} // verus!
