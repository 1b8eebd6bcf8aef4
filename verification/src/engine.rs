//! The precomputed diversity engine.
//!
//! `TreePD` borrows a binary tree, runs the extremal recurrence once for the
//! minimum and once for the maximum, runs the average recurrence, and then
//! answers every query by table lookup. Normalized values are exact
//! rationals, returned as a `(diversity, edge count)` pair; average values
//! are returned as a `(subset sum, subset count)` pair.

use vstd::prelude::*;

use crate::combin::avg_in_range;
use crate::combin::beta;
use crate::combin::binom;
use crate::dp::bar_cand;
use crate::dp::entry_matches;
use crate::dp::hat_cand;
use crate::dp::lemma_bar_ok;
use crate::dp::lemma_ratio_mul_fits;
use crate::dp::Extremum;
use crate::tree::lemma_struct;
use crate::tree::Tree;

verus! {

/// The subset size a whole-tree query uses: `k` clamped to the leaf count.
pub open spec fn kmin(t: Tree, k: int) -> int {
    if k <= t.num_leaves() {
        k
    } else {
        t.num_leaves()
    }
}

/// The subset size a maximum query uses: `k` raised to at least 1, then
/// clamped to the leaf count.
pub open spec fn kmax(t: Tree, k: int) -> int {
    kmin(t, if k >= 1 {
        k
    } else {
        1
    })
}

/// The subset size a per-node query uses: `k` clamped to the node's cluster.
pub open spec fn knode(t: Tree, v: int, k: int) -> int {
    if k <= t.cluster_size(v) {
        k
    } else {
        t.cluster_size(v)
    }
}

/// The absolute tables hold exactly what the recurrence prescribes.
pub open spec fn bar_tables_ok(
    t: Tree,
    op: Extremum,
    tab: Vec<Vec<Option<(u64, u32)>>>,
    sets: Vec<Vec<Vec<usize>>>,
) -> bool {
    &&& tab@.len() == t.len()
    &&& sets@.len() == t.len()
    &&& forall|v: int|
        0 <= v < t.len() ==> (#[trigger] tab@[v]@.len()) == t.num_leaves() + 1
    &&& forall|v: int|
        0 <= v < t.len() ==> (#[trigger] sets@[v]@.len()) == t.num_leaves() + 1
    &&& forall|v: int, k: int|
        0 <= v < t.len() && 0 <= k <= t.num_leaves() ==> entry_matches(
            bar_cand(t, op, v, k),
            #[trigger] tab@[v]@[k],
            sets@[v]@[k]@,
        )
}

/// The normalized tables hold exactly what the recurrence prescribes.
pub open spec fn hat_tables_ok(
    t: Tree,
    op: Extremum,
    tab: Vec<Vec<Option<(u64, u32)>>>,
    sets: Vec<Vec<Vec<usize>>>,
) -> bool {
    &&& tab@.len() == t.len()
    &&& sets@.len() == t.len()
    &&& forall|v: int|
        0 <= v < t.len() ==> (#[trigger] tab@[v]@.len()) == t.num_leaves() + 1
    &&& forall|v: int|
        0 <= v < t.len() ==> (#[trigger] sets@[v]@.len()) == t.num_leaves() + 1
    &&& forall|v: int, k: int|
        0 <= v < t.len() && 0 <= k <= t.num_leaves() ==> entry_matches(
            hat_cand(t, op, v, k),
            #[trigger] tab@[v]@[k],
            sets@[v]@[k]@,
        )
}

/// The average table pairs each feasible `(v, k)` with its subset sum and
/// subset count.
pub open spec fn avg_table_ok(t: Tree, alpha: Vec<Vec<Option<(u128, u128)>>>) -> bool {
    &&& alpha@.len() == t.len()
    &&& forall|v: int|
        0 <= v < t.len() ==> (#[trigger] alpha@[v]@.len()) == t.num_leaves() + 1
    &&& forall|v: int, k: int|
        0 <= v < t.len() && 0 <= k <= t.num_leaves() && k <= t.cluster_size(v) ==> (
        #[trigger] alpha@[v]@[k]) == Some(((beta(t, v, k) as u128), (binom(t.cluster_size(v), k) as u128)))
    &&& forall|v: int, k: int|
        0 <= v < t.len() && 0 <= k <= t.num_leaves() && k > t.cluster_size(v) ==> (
        #[trigger] alpha@[v]@[k]) is None
}

/// The best normalized entry over the subset sizes `3 <= kk <= k` at the
/// root, skipping undefined and zero values: `(value, edge count, kk)`.
/// Under `Min` an earlier size wins ties; under `Max` a later one does.
pub open spec fn gen_fold(t: Tree, op: Extremum, k: int) -> Option<(int, int, int)>
    decreases k,
{
    if k < 3 {
        None
    } else {
        let prev = gen_fold(t, op, k - 1);
        let cur = match hat_cand(t, op, t.root(), k) {
            Some(c) => if c.val != 0 {
                Some((c.val, c.edges, k))
            } else {
                None
            },
            None => None,
        };
        match (prev, cur) {
            (None, c) => c,
            (Some(p), None) => Some(p),
            (Some(p), Some(c)) => match op {
                Extremum::Min => if c.0 * p.1 < p.0 * c.1 {
                    Some(c)
                } else {
                    Some(p)
                },
                Extremum::Max => if c.0 * p.1 >= p.0 * c.1 {
                    Some(c)
                } else {
                    Some(p)
                },
            },
        }
    }
}

/// The diversity engine: a borrowed tree and its precomputed tables.
pub struct TreePD<'a> {
    pub tree: &'a Tree,
    pub cs: Vec<usize>,
    pub n_leaves: usize,
    pub precomputed_min: Vec<Vec<Option<(u64, u32)>>>,
    pub precomputed_min_set: Vec<Vec<Vec<usize>>>,
    pub precomputed_norm_min: Vec<Vec<Option<(u64, u32)>>>,
    pub precomputed_norm_min_set: Vec<Vec<Vec<usize>>>,
    pub precomputed_max: Vec<Vec<Option<(u64, u32)>>>,
    pub precomputed_max_set: Vec<Vec<Vec<usize>>>,
    pub precomputed_norm_max: Vec<Vec<Option<(u64, u32)>>>,
    pub precomputed_norm_max_set: Vec<Vec<Vec<usize>>>,
    pub precomputed_avg: Vec<Vec<Option<(u128, u128)>>>,
}

impl<'a> TreePD<'a> {
    /// All tables filled and consistent with the borrowed tree.
    pub open spec fn wf(self) -> bool {
        &&& self.tree.wf()
        &&& self.tree.is_binary_spec()
        &&& avg_in_range(*self.tree)
        &&& self.n_leaves as int == self.tree.num_leaves()
        &&& self.cs@.len() == self.tree.len()
        &&& forall|v: int|
            0 <= v < self.tree.len() ==> #[trigger] self.cs@[v] as int == self.tree.cluster_size(
                v,
            )
        &&& bar_tables_ok(*self.tree, Extremum::Min, self.precomputed_min, self.precomputed_min_set)
        &&& hat_tables_ok(
            *self.tree,
            Extremum::Min,
            self.precomputed_norm_min,
            self.precomputed_norm_min_set,
        )
        &&& bar_tables_ok(*self.tree, Extremum::Max, self.precomputed_max, self.precomputed_max_set)
        &&& hat_tables_ok(
            *self.tree,
            Extremum::Max,
            self.precomputed_norm_max,
            self.precomputed_norm_max_set,
        )
        &&& avg_table_ok(*self.tree, self.precomputed_avg)
    }

    /// Build the engine: run the extremal recurrence for both comparators
    /// and the average recurrence, all proved equal to their specifications.
    pub fn new(tree: &'a Tree) -> (r: TreePD<'a>)
        requires
            tree.wf(),
            tree.is_binary_spec(),
            avg_in_range(*tree),
        ensures
            r.wf(),
            r.tree == tree,
    {
        let cs = tree.cluster_sizes();
        let n = tree.nodes.len();
        let nl = cs[n - 1];
        proof {
            assert(cs@[tree.len() - 1] as int == tree.cluster_size(tree.root()));
        }
        let (mn, mns, nmn, nmns) = tree.compute_dp_table(Extremum::Min);
        let (mx, mxs, nmx, nmxs) = tree.compute_dp_table(Extremum::Max);
        let avg = tree.compute_avg();
        proof {
            assert(bar_tables_ok(*tree, Extremum::Min, mn, mns));
            assert(hat_tables_ok(*tree, Extremum::Min, nmn, nmns));
            assert(bar_tables_ok(*tree, Extremum::Max, mx, mxs));
            assert(hat_tables_ok(*tree, Extremum::Max, nmx, nmxs));
            assert(avg_table_ok(*tree, avg));
        }
        TreePD {
            tree,
            cs,
            n_leaves: nl,
            precomputed_min: mn,
            precomputed_min_set: mns,
            precomputed_norm_min: nmn,
            precomputed_norm_min_set: nmns,
            precomputed_max: mx,
            precomputed_max_set: mxs,
            precomputed_norm_max: nmx,
            precomputed_norm_max_set: nmxs,
            precomputed_avg: avg,
        }
    }

    /// Drop the extremal tables (the engine answers no more queries).
    pub fn reset(&mut self)
        ensures
            final(self).tree == old(self).tree,
            final(self).cs == old(self).cs,
            final(self).n_leaves == old(self).n_leaves,
            final(self).precomputed_min@.len() == 0,
            final(self).precomputed_min_set@.len() == 0,
            final(self).precomputed_norm_min@.len() == 0,
            final(self).precomputed_norm_min_set@.len() == 0,
            final(self).precomputed_max@.len() == 0,
            final(self).precomputed_max_set@.len() == 0,
            final(self).precomputed_norm_max@.len() == 0,
            final(self).precomputed_norm_max_set@.len() == 0,
            final(self).precomputed_avg == old(self).precomputed_avg,
    {
        self.precomputed_min = Vec::new();
        self.precomputed_min_set = Vec::new();
        self.precomputed_norm_min = Vec::new();
        self.precomputed_norm_min_set = Vec::new();
        self.precomputed_max = Vec::new();
        self.precomputed_max_set = Vec::new();
        self.precomputed_norm_max = Vec::new();
        self.precomputed_norm_max_set = Vec::new();
    }

    pub fn get_tree(&self) -> (r: &'a Tree)
        ensures
            r == self.tree,
    {
        self.tree
    }

    /// The root index of the borrowed tree.
    fn root_id(&self) -> (r: usize)
        requires
            self.wf(),
        ensures
            r as int == self.tree.root(),
    {
        self.tree.nodes.len() - 1
    }

    /// The minimal diversity of `min(k, n)` leaves.
    #[allow(non_snake_case)]
    pub fn get_minPD(&self, num_taxa: usize) -> (r: u64)
        requires
            self.wf(),
        ensures
            bar_cand(*self.tree, Extremum::Min, self.tree.root(), kmin(*self.tree, num_taxa as int))
                matches Some(c) && r as int == c.val,
    {
        let root = self.root_id();
        let kk = if num_taxa <= self.n_leaves {
            num_taxa
        } else {
            self.n_leaves
        };
        proof {
            lemma_struct(*self.tree, self.tree.root());
            lemma_bar_ok(*self.tree, Extremum::Min, self.tree.root(), kk as int);
        }
        self.precomputed_min[root][kk].unwrap().0
    }

    /// The minimal diversity of `min(k, cluster_size(v))` leaves below `v`.
    #[allow(non_snake_case)]
    pub fn get_minPD_node(&self, node_id: usize, num_taxa: usize) -> (r: u64)
        requires
            self.wf(),
            (node_id as int) < self.tree.len(),
        ensures
            bar_cand(*self.tree, Extremum::Min, node_id as int, knode(*self.tree, node_id as int, num_taxa as int))
                matches Some(c) && r as int == c.val,
    {
        let csv = self.cs[node_id];
        let kk = if num_taxa <= csv {
            num_taxa
        } else {
            csv
        };
        proof {
            lemma_struct(*self.tree, node_id as int);
            lemma_bar_ok(*self.tree, Extremum::Min, node_id as int, kk as int);
            crate::tree::lemma_cluster_le_leaves(*self.tree, node_id as int);
        }
        self.precomputed_min[node_id][kk].unwrap().0
    }

    /// The normalized minimum at `min(k, n)` as the exact pair
    /// `(diversity, edge count)`; `(0, 0)` at `k == 0`.
    #[allow(non_snake_case)]
    pub fn get_norm_minPD(&self, num_taxa: usize) -> (r: (u64, u32))
        requires
            self.wf(),
        ensures
            hat_cand(*self.tree, Extremum::Min, self.tree.root(), kmin(*self.tree, num_taxa as int))
                matches Some(c) && r.0 as int == c.val && r.1 as int == c.edges,
    {
        let root = self.root_id();
        let kk = if num_taxa <= self.n_leaves {
            num_taxa
        } else {
            self.n_leaves
        };
        proof {
            lemma_struct(*self.tree, self.tree.root());
            lemma_bar_ok(*self.tree, Extremum::Min, self.tree.root(), kk as int);
        }
        self.precomputed_norm_min[root][kk].unwrap()
    }

    /// The witness leaf set behind `get_minPD(k)`, for `k <= n`.
    #[allow(non_snake_case)]
    pub fn get_minPD_taxa_set(&self, num_taxa: usize) -> (r: Vec<usize>)
        requires
            self.wf(),
            num_taxa as int <= self.tree.num_leaves(),
        ensures
            bar_cand(*self.tree, Extremum::Min, self.tree.root(), num_taxa as int)
                matches Some(c) && r@ == c.set,
    {
        let root = self.root_id();
        proof {
            lemma_struct(*self.tree, self.tree.root());
            lemma_bar_ok(*self.tree, Extremum::Min, self.tree.root(), num_taxa as int);
            assert(entry_matches(
                bar_cand(*self.tree, Extremum::Min, self.tree.root(), num_taxa as int),
                self.precomputed_min@[self.tree.root()]@[num_taxa as int],
                self.precomputed_min_set@[self.tree.root()]@[num_taxa as int]@,
            ));
        }
        crate::dp::copy_ids(&self.precomputed_min_set[root][num_taxa])
    }

    /// The witness leaf set behind `get_norm_minPD(k)`, for `k <= n`.
    #[allow(non_snake_case)]
    pub fn get_norm_minPD_taxa_set(&self, num_taxa: usize) -> (r: Vec<usize>)
        requires
            self.wf(),
            num_taxa as int <= self.tree.num_leaves(),
        ensures
            hat_cand(*self.tree, Extremum::Min, self.tree.root(), num_taxa as int)
                matches Some(c) && r@ == c.set,
    {
        let root = self.root_id();
        proof {
            lemma_struct(*self.tree, self.tree.root());
            lemma_bar_ok(*self.tree, Extremum::Min, self.tree.root(), num_taxa as int);
            assert(entry_matches(
                hat_cand(*self.tree, Extremum::Min, self.tree.root(), num_taxa as int),
                self.precomputed_norm_min@[self.tree.root()]@[num_taxa as int],
                self.precomputed_norm_min_set@[self.tree.root()]@[num_taxa as int]@,
            ));
        }
        crate::dp::copy_ids(&self.precomputed_norm_min_set[root][num_taxa])
    }

    /// The maximal diversity of `min(max(k, 1), n)` leaves.
    #[allow(non_snake_case)]
    pub fn get_maxPD(&self, num_taxa: usize) -> (r: u64)
        requires
            self.wf(),
        ensures
            bar_cand(*self.tree, Extremum::Max, self.tree.root(), kmax(*self.tree, num_taxa as int))
                matches Some(c) && r as int == c.val,
    {
        let root = self.root_id();
        let k1 = if num_taxa >= 1 {
            num_taxa
        } else {
            1
        };
        proof {
            lemma_struct(*self.tree, self.tree.root());
        }
        let kk = if k1 <= self.n_leaves {
            k1
        } else {
            self.n_leaves
        };
        proof {
            lemma_bar_ok(*self.tree, Extremum::Max, self.tree.root(), kk as int);
        }
        self.precomputed_max[root][kk].unwrap().0
    }

    /// The maximal diversity of `min(k, cluster_size(v))` leaves below `v`.
    #[allow(non_snake_case)]
    pub fn get_maxPD_node(&self, node_id: usize, num_taxa: usize) -> (r: u64)
        requires
            self.wf(),
            (node_id as int) < self.tree.len(),
        ensures
            bar_cand(*self.tree, Extremum::Max, node_id as int, knode(*self.tree, node_id as int, num_taxa as int))
                matches Some(c) && r as int == c.val,
    {
        let csv = self.cs[node_id];
        let kk = if num_taxa <= csv {
            num_taxa
        } else {
            csv
        };
        proof {
            lemma_struct(*self.tree, node_id as int);
            lemma_bar_ok(*self.tree, Extremum::Max, node_id as int, kk as int);
            crate::tree::lemma_cluster_le_leaves(*self.tree, node_id as int);
        }
        self.precomputed_max[node_id][kk].unwrap().0
    }

    /// The normalized maximum at `min(k, n)` as the exact pair
    /// `(diversity, edge count)`.
    #[allow(non_snake_case)]
    pub fn get_norm_maxPD(&self, num_taxa: usize) -> (r: (u64, u32))
        requires
            self.wf(),
        ensures
            hat_cand(*self.tree, Extremum::Max, self.tree.root(), kmin(*self.tree, num_taxa as int))
                matches Some(c) && r.0 as int == c.val && r.1 as int == c.edges,
    {
        let root = self.root_id();
        let kk = if num_taxa <= self.n_leaves {
            num_taxa
        } else {
            self.n_leaves
        };
        proof {
            lemma_struct(*self.tree, self.tree.root());
            lemma_bar_ok(*self.tree, Extremum::Max, self.tree.root(), kk as int);
        }
        self.precomputed_norm_max[root][kk].unwrap()
    }

    /// The witness leaf set behind `get_maxPD(k)`, for `k <= n`.
    #[allow(non_snake_case)]
    pub fn get_maxPD_taxa_set(&self, num_taxa: usize) -> (r: Vec<usize>)
        requires
            self.wf(),
            num_taxa as int <= self.tree.num_leaves(),
        ensures
            bar_cand(*self.tree, Extremum::Max, self.tree.root(), num_taxa as int)
                matches Some(c) && r@ == c.set,
    {
        let root = self.root_id();
        proof {
            lemma_struct(*self.tree, self.tree.root());
            lemma_bar_ok(*self.tree, Extremum::Max, self.tree.root(), num_taxa as int);
            assert(entry_matches(
                bar_cand(*self.tree, Extremum::Max, self.tree.root(), num_taxa as int),
                self.precomputed_max@[self.tree.root()]@[num_taxa as int],
                self.precomputed_max_set@[self.tree.root()]@[num_taxa as int]@,
            ));
        }
        crate::dp::copy_ids(&self.precomputed_max_set[root][num_taxa])
    }

    /// The witness leaf set behind `get_norm_maxPD(k)`, for `k <= n`.
    #[allow(non_snake_case)]
    pub fn get_norm_maxPD_taxa_set(&self, num_taxa: usize) -> (r: Vec<usize>)
        requires
            self.wf(),
            num_taxa as int <= self.tree.num_leaves(),
        ensures
            hat_cand(*self.tree, Extremum::Max, self.tree.root(), num_taxa as int)
                matches Some(c) && r@ == c.set,
    {
        let root = self.root_id();
        proof {
            lemma_struct(*self.tree, self.tree.root());
            lemma_bar_ok(*self.tree, Extremum::Max, self.tree.root(), num_taxa as int);
            assert(entry_matches(
                hat_cand(*self.tree, Extremum::Max, self.tree.root(), num_taxa as int),
                self.precomputed_norm_max@[self.tree.root()]@[num_taxa as int],
                self.precomputed_norm_max_set@[self.tree.root()]@[num_taxa as int]@,
            ));
        }
        crate::dp::copy_ids(&self.precomputed_norm_max_set[root][num_taxa])
    }

    /// Scan the normalized table at the root over `3 <= k <= n` and keep
    /// the best defined nonzero entry, with the size it occurs at.
    #[verifier::loop_isolation(false)]
    fn gen_scan(&self, op: Extremum) -> (r: (Option<(u64, u32)>, usize))
        requires
            self.wf(),
        ensures
            gen_fold(*self.tree, op, self.tree.num_leaves()) matches Some(g) ==> (
            r.0 matches Some(p) && p.0 as int == g.0 && p.1 as int == g.1 && r.1 as int == g.2),
            gen_fold(*self.tree, op, self.tree.num_leaves()) is None ==> r.0 is None,
            r.0 is Some ==> 3 <= r.1 as int <= self.tree.num_leaves(),
    {
        let root = self.root_id();
        let mut best: Option<(u64, u32)> = None;
        let mut bk: usize = 0;
        if self.n_leaves < 3 {
            return (None, 0);
        }
        proof {
            lemma_struct(*self.tree, self.tree.root());
            assert(!self.tree.is_leaf(self.tree.root()));
            crate::tree::lemma_children_prefix(
                *self.tree,
                self.tree.root(),
                self.tree.arity(self.tree.root()),
            );
            assert(self.tree.cluster_size(self.tree.root()) == self.tree.cs_of_children(
                self.tree.root(),
                self.tree.arity(self.tree.root()),
            ));
            assert(self.tree.subtree_size(self.tree.root()) == 1 + self.tree.size_of_children(
                self.tree.root(),
                self.tree.arity(self.tree.root()),
            ));
            assert(self.n_leaves < usize::MAX);
        }
        let mut k: usize = 3;
        while k <= self.n_leaves
            invariant
                3 <= k <= self.n_leaves + 1,
                gen_fold(*self.tree, op, k as int - 1) is None ==> best is None,
                gen_fold(*self.tree, op, k as int - 1) matches Some(g) ==> (
                best matches Some(p) && p.0 as int == g.0 && p.1 as int == g.1 && bk as int
                    == g.2),
                best is Some ==> 3 <= bk as int <= k as int - 1,
            decreases self.n_leaves + 1 - k,
        {
            let cell: Option<(u64, u32)> = match op {
                Extremum::Min => self.precomputed_norm_min[root][k],
                Extremum::Max => self.precomputed_norm_max[root][k],
            };
            proof {
                match op {
                    Extremum::Min => {
                        assert(entry_matches(
                            hat_cand(*self.tree, op, self.tree.root(), k as int),
                            self.precomputed_norm_min@[self.tree.root()]@[k as int],
                            self.precomputed_norm_min_set@[self.tree.root()]@[k as int]@,
                        ));
                    },
                    Extremum::Max => {
                        assert(entry_matches(
                            hat_cand(*self.tree, op, self.tree.root(), k as int),
                            self.precomputed_norm_max@[self.tree.root()]@[k as int],
                            self.precomputed_norm_max_set@[self.tree.root()]@[k as int]@,
                        ));
                    },
                }
            }
            let take: bool = match cell {
                None => false,
                Some(p) => if p.0 == 0 {
                    false
                } else {
                    match best {
                        None => true,
                        Some(b) => {
                            proof {
                                lemma_ratio_mul_fits(p.0, b.1);
                                lemma_ratio_mul_fits(b.0, p.1);
                            }
                            match op {
                                Extremum::Min => (p.0 as u128) * (b.1 as u128) < (b.0 as u128)
                                    * (p.1 as u128),
                                Extremum::Max => (p.0 as u128) * (b.1 as u128) >= (b.0 as u128)
                                    * (p.1 as u128),
                            }
                        },
                    }
                },
            };
            if take {
                best = cell;
                bk = k;
            }
            k = k + 1;
        }
        (best, bk)
    }

    /// The smallest normalized diversity over subset sizes of at least 3,
    /// skipping undefined and zero entries; `None` when no size qualifies.
    #[allow(non_snake_case)]
    pub fn get_min_genPD(&self) -> (r: Option<(u64, u32)>)
        requires
            self.wf(),
        ensures
            gen_fold(*self.tree, Extremum::Min, self.tree.num_leaves()) matches Some(g) ==> (
            r matches Some(p) && p.0 as int == g.0 && p.1 as int == g.1),
            gen_fold(*self.tree, Extremum::Min, self.tree.num_leaves()) is None ==> r is None,
    {
        self.gen_scan(Extremum::Min).0
    }

    /// The witness leaf set behind `get_min_genPD`; empty when no size
    /// qualifies.
    #[allow(non_snake_case)]
    pub fn get_min_genPD_set(&self) -> (r: Vec<usize>)
        requires
            self.wf(),
        ensures
            gen_fold(*self.tree, Extremum::Min, self.tree.num_leaves()) matches Some(g) ==> (
            hat_cand(*self.tree, Extremum::Min, self.tree.root(), g.2) matches Some(c) && r@
                == c.set),
            gen_fold(*self.tree, Extremum::Min, self.tree.num_leaves()) is None ==> r@.len()
                == 0,
    {
        let (best, bk) = self.gen_scan(Extremum::Min);
        match best {
            None => Vec::new(),
            Some(_) => {
                let root = self.root_id();
                proof {
                    lemma_struct(*self.tree, self.tree.root());
                    lemma_bar_ok(*self.tree, Extremum::Min, self.tree.root(), bk as int);
                    assert(entry_matches(
                        hat_cand(*self.tree, Extremum::Min, self.tree.root(), bk as int),
                        self.precomputed_norm_min@[self.tree.root()]@[bk as int],
                        self.precomputed_norm_min_set@[self.tree.root()]@[bk as int]@,
                    ));
                }
                crate::dp::copy_ids(&self.precomputed_norm_min_set[root][bk])
            },
        }
    }

    /// The largest normalized diversity over subset sizes of at least 3,
    /// skipping undefined and zero entries; `None` when no size qualifies.
    #[allow(non_snake_case)]
    pub fn get_max_genPD(&self) -> (r: Option<(u64, u32)>)
        requires
            self.wf(),
        ensures
            gen_fold(*self.tree, Extremum::Max, self.tree.num_leaves()) matches Some(g) ==> (
            r matches Some(p) && p.0 as int == g.0 && p.1 as int == g.1),
            gen_fold(*self.tree, Extremum::Max, self.tree.num_leaves()) is None ==> r is None,
    {
        self.gen_scan(Extremum::Max).0
    }

    /// The witness leaf set behind `get_max_genPD`; empty when no size
    /// qualifies.
    #[allow(non_snake_case)]
    pub fn get_max_genPD_set(&self) -> (r: Vec<usize>)
        requires
            self.wf(),
        ensures
            gen_fold(*self.tree, Extremum::Max, self.tree.num_leaves()) matches Some(g) ==> (
            hat_cand(*self.tree, Extremum::Max, self.tree.root(), g.2) matches Some(c) && r@
                == c.set),
            gen_fold(*self.tree, Extremum::Max, self.tree.num_leaves()) is None ==> r@.len()
                == 0,
    {
        let (best, bk) = self.gen_scan(Extremum::Max);
        match best {
            None => Vec::new(),
            Some(_) => {
                let root = self.root_id();
                proof {
                    lemma_struct(*self.tree, self.tree.root());
                    lemma_bar_ok(*self.tree, Extremum::Max, self.tree.root(), bk as int);
                    assert(entry_matches(
                        hat_cand(*self.tree, Extremum::Max, self.tree.root(), bk as int),
                        self.precomputed_norm_max@[self.tree.root()]@[bk as int],
                        self.precomputed_norm_max_set@[self.tree.root()]@[bk as int]@,
                    ));
                }
                crate::dp::copy_ids(&self.precomputed_norm_max_set[root][bk])
            },
        }
    }

    /// The average diversity over all `k`-subsets, as the exact pair
    /// `(sum of diversities, number of subsets)`.
    #[allow(non_snake_case)]
    pub fn get_avgPD(&self, num_taxa: usize) -> (r: (u128, u128))
        requires
            self.wf(),
            num_taxa as int <= self.tree.num_leaves(),
        ensures
            r.0 as int == beta(*self.tree, self.tree.root(), num_taxa as int),
            r.1 as int == binom(self.tree.num_leaves(), num_taxa as int),
    {
        let root = self.root_id();
        proof {
            lemma_struct(*self.tree, self.tree.root());
            crate::combin::lemma_beta_nonneg(*self.tree, self.tree.root(), num_taxa as int);
            crate::combin::lemma_binom_nonneg(self.tree.num_leaves(), num_taxa as int);
            if num_taxa >= 1 {
                assert(beta(*self.tree, self.tree.root(), num_taxa as int) <= u128::MAX as int);
            } else {
                assert(beta(*self.tree, self.tree.root(), 0) == 0);
            }
            assert(binom(self.tree.num_leaves(), num_taxa as int) <= u128::MAX as int);
            assert(self.precomputed_avg@[self.tree.root()]@[num_taxa as int] == Some(
                (
                    (beta(*self.tree, self.tree.root(), num_taxa as int) as u128),
                    (binom(self.tree.cluster_size(self.tree.root()), num_taxa as int) as u128),
                ),
            ));
        }
        self.precomputed_avg[root][num_taxa].unwrap()
    }
}

} // verus!
