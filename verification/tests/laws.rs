use pd::binary_splits;
use pd::Node;
use pd::Tree;
use pd::TreePD;
use pd::combin::pascal_triangle;

fn leaf(weight: u64, label: &str) -> Node {
    Node {
        children: Vec::new(),
        weight,
        label: Some(String::from(label)),
    }
}

fn inner(children: Vec<usize>, weight: u64) -> Node {
    Node {
        children,
        weight,
        label: None,
    }
}

/// The five-leaf example tree, with every edge weight multiplied by `c`.
fn five_leaf_tree(c: u64) -> Tree {
    let nodes = vec![
        leaf(1 * c, "A"),
        leaf(2 * c, "B"),
        inner(vec![0, 1], 2 * c),
        leaf(7 * c, "C"),
        inner(vec![2, 3], 4 * c),
        leaf(1 * c, "D"),
        leaf(2 * c, "E"),
        inner(vec![5, 6], 5 * c),
        inner(vec![4, 7], 0),
    ];
    Tree::from_nodes(nodes).unwrap()
}

fn label_list(tree: &Tree, ids: &[usize]) -> String {
    let parts: Vec<String> = ids
        .iter()
        .map(|x| tree.get_node_taxa(*x).unwrap())
        .collect();
    parts.join(",")
}

#[test]
fn golden_table() {
    let tree = five_leaf_tree(1);
    let tp = TreePD::new(&tree);
    let min_vals = [6u64, 8, 15, 17, 24];
    let max_vals = [11u64, 18, 22, 23, 24];
    let min_sets = ["D", "D,E", "A,D,E", "A,B,D,E", "A,B,C,D,E"];
    let max_sets = ["C", "C,E", "B,C,E", "B,C,D,E", "A,B,C,D,E"];
    for k in 1..6usize {
        assert_eq!(tp.get_minPD(k), min_vals[k - 1]);
        assert_eq!(tp.get_maxPD(k), max_vals[k - 1]);
        assert_eq!(label_list(&tree, &tp.get_minPD_taxa_set(k)), min_sets[k - 1]);
        assert_eq!(label_list(&tree, &tp.get_maxPD_taxa_set(k)), max_sets[k - 1]);
        assert_eq!(tp.get_minPD_taxa_set(k).len(), k);
        assert_eq!(tp.get_maxPD_taxa_set(k).len(), k);
    }
    // Clamping: k = 0 answers 0 on the min side and the k = 1 result on the
    // max side; k beyond the leaf count answers the whole-tree result.
    assert_eq!(tp.get_minPD(0), 0);
    assert_eq!(tp.get_maxPD(0), 11);
    assert_eq!(tp.get_minPD(99), 24);
    assert_eq!(tp.get_maxPD(99), 24);
    assert_eq!(tp.get_norm_minPD(0), (0, 0));
    // Per-node queries clamp to the node's own cluster.
    assert_eq!(tp.get_minPD_node(4, 2), 5);
    assert_eq!(tp.get_maxPD_node(4, 2), 11);
    assert_eq!(tp.get_minPD_node(4, 99), 12);
}

#[test]
fn monotone_max() {
    let tree = five_leaf_tree(1);
    let tp = TreePD::new(&tree);
    for k in 1..5usize {
        assert!(tp.get_maxPD(k) <= tp.get_maxPD(k + 1));
    }
}

#[test]
fn norm_queries() {
    let tree = five_leaf_tree(1);
    let tp = TreePD::new(&tree);
    assert_eq!(tp.get_norm_minPD(2), (9, 4));
    assert_eq!(label_list(&tree, &tp.get_norm_minPD_taxa_set(2)), "A,B");
    assert_eq!(tp.get_norm_maxPD(2), (18, 4));
    assert_eq!(label_list(&tree, &tp.get_norm_maxPD_taxa_set(2)), "C,E");
    assert_eq!(tp.get_min_genPD(), Some((17, 7)));
    assert_eq!(tp.get_max_genPD(), Some((19, 5)));
    assert_eq!(label_list(&tree, &tp.get_min_genPD_set()), "A,B,D,E");
    assert_eq!(label_list(&tree, &tp.get_max_genPD_set()), "C,D,E");
}

#[test]
fn norm_min_not_above_ratio_of_absolute() {
    // The tracked normalized minimum may use a different witness than the
    // absolute minimum, and it is never worse than the absolute minimum's
    // own ratio: at k = 2 the normalized optimum 9/4 beats 8/3.
    let tree = five_leaf_tree(1);
    let tp = TreePD::new(&tree);
    let (hn, hd) = tp.get_norm_minPD(2);
    let bar = tp.get_minPD(2);
    let bar_edges = 3u64;
    assert!(hn as u128 * bar_edges as u128 <= bar as u128 * hd as u128);
}

#[test]
fn average_between_min_and_max() {
    let tree = five_leaf_tree(1);
    let tp = TreePD::new(&tree);
    for k in 1..6usize {
        let (num, den) = tp.get_avgPD(k);
        let mn = tp.get_minPD(k) as u128;
        let mx = tp.get_maxPD(k) as u128;
        assert!(mn * den <= num);
        assert!(num <= mx * den);
    }
    // A single subset of all leaves: the mean equals both extremes.
    let (num, den) = tp.get_avgPD(5);
    assert_eq!(den, 1);
    assert_eq!(num, 24);
}

#[test]
fn average_exact_value() {
    let tree = five_leaf_tree(1);
    let tp = TreePD::new(&tree);
    assert_eq!(tp.get_avgPD(2), (137, 10));
    assert_eq!(tp.get_avgPD(1), (39, 5));
}

#[test]
fn scaling() {
    // Tripling every edge weight triples every absolute and average value
    // and leaves the witnesses and the edge counts unchanged.
    let t1 = five_leaf_tree(1);
    let t3 = five_leaf_tree(3);
    let p1 = TreePD::new(&t1);
    let p3 = TreePD::new(&t3);
    for k in 1..6usize {
        assert_eq!(p3.get_minPD(k), 3 * p1.get_minPD(k));
        assert_eq!(p3.get_maxPD(k), 3 * p1.get_maxPD(k));
        assert_eq!(p3.get_minPD_taxa_set(k), p1.get_minPD_taxa_set(k));
        assert_eq!(p3.get_maxPD_taxa_set(k), p1.get_maxPD_taxa_set(k));
        let (n1, d1) = p1.get_norm_minPD(k);
        let (n3, d3) = p3.get_norm_minPD(k);
        assert_eq!((n3, d3), (3 * n1, d1));
        let (a1, b1) = p1.get_avgPD(k);
        let (a3, b3) = p3.get_avgPD(k);
        assert_eq!((a3, b3), (3 * a1, b1));
    }
}

#[test]
fn single_leaf() {
    let nodes = vec![leaf(0, "A")];
    let tree = Tree::from_nodes(nodes).unwrap();
    let tp = TreePD::new(&tree);
    assert_eq!(tp.get_minPD(0), 0);
    assert_eq!(tp.get_minPD(1), 0);
    assert_eq!(tp.get_minPD(7), 0);
    assert_eq!(tp.get_maxPD(1), 0);
    assert_eq!(label_list(&tree, &tp.get_minPD_taxa_set(1)), "A");
    assert_eq!(tp.get_minPD_taxa_set(0).len(), 0);
    assert_eq!(tp.get_min_genPD(), None);
    assert_eq!(tp.get_min_genPD_set().len(), 0);
    assert_eq!(tp.get_avgPD(1), (0, 1));
}

#[test]
fn two_leaves() {
    let nodes = vec![leaf(1, "A"), leaf(2, "B"), inner(vec![0, 1], 0)];
    let tree = Tree::from_nodes(nodes).unwrap();
    let tp = TreePD::new(&tree);
    assert_eq!(tp.get_minPD(2), 3);
    assert_eq!(tp.get_maxPD(2), 3);
    assert_eq!(tp.get_min_genPD(), None);
    assert_eq!(tp.get_max_genPD(), None);
    assert_eq!(tp.get_min_genPD_set().len(), 0);
}

#[test]
fn zero_weight_edges() {
    // Diversity can be 0 for k >= 2; normalized entries keep an exact
    // nonzero edge count, and the generalized queries skip zero values.
    let nodes = vec![
        leaf(0, "A"),
        leaf(0, "B"),
        inner(vec![0, 1], 0),
        leaf(0, "C"),
        inner(vec![2, 3], 0),
    ];
    let tree = Tree::from_nodes(nodes).unwrap();
    let tp = TreePD::new(&tree);
    assert_eq!(tp.get_minPD(2), 0);
    assert_eq!(tp.get_maxPD(3), 0);
    let (n, d) = tp.get_norm_minPD(2);
    assert_eq!(n, 0);
    assert!(d > 0);
    assert_eq!(tp.get_min_genPD(), None);
    assert_eq!(tp.get_max_genPD(), None);
}

#[test]
fn splits_enumeration() {
    assert_eq!(binary_splits(3, 2, 2), vec![(1, 2), (2, 1)]);
    assert_eq!(binary_splits(2, 3, 3), vec![(0, 2), (1, 1), (2, 0)]);
    assert_eq!(binary_splits(0, 4, 4), vec![(0, 0)]);
    assert_eq!(binary_splits(5, 2, 2), Vec::<(usize, usize)>::new());
}

#[test]
fn pascal_table() {
    let p = pascal_triangle(6);
    assert_eq!(p[5][2], 10);
    assert_eq!(p[6][3], 20);
    assert_eq!(p[4][0], 1);
    assert_eq!(p[4][4], 1);
    assert_eq!(p[3][5], 0);
}

#[test]
fn extremes_bound_other_subsets() {
    // The recorded optima bound the diversity of any concrete subset: the
    // pair {A,C} induces 1 + 2 + 7 + 4 = 14, between minPD(2) and maxPD(2).
    let tree = five_leaf_tree(1);
    let tp = TreePD::new(&tree);
    assert!(tp.get_minPD(2) <= 14);
    assert!(tp.get_maxPD(2) >= 14);
}

#[test]
fn binarize_noop_on_binary() {
    let mut tree = five_leaf_tree(1);
    assert!(tree.is_binary());
    let before = tree.nodes.len();
    assert!(pd::binarize_tree(&mut tree));
    assert_eq!(tree.nodes.len(), before);
    let tp = TreePD::new(&tree);
    assert_eq!(tp.get_minPD(2), 8);
}

#[test]
fn binarize_refuses_unary() {
    // A unary node cannot be split into binary nodes; the tree is left as
    // it was.
    let nodes = vec![leaf(1, "A"), inner(vec![0], 2), leaf(3, "B"), inner(vec![1, 2], 0)];
    let mut tree = Tree::from_nodes(nodes).unwrap();
    assert!(!pd::binarize_tree(&mut tree));
    assert_eq!(tree.nodes.len(), 4);
}

#[test]
fn engine_reset() {
    let tree = five_leaf_tree(1);
    let mut tp = TreePD::new(&tree);
    assert_eq!(tp.get_minPD(2), 8);
    tp.reset();
    assert!(std::ptr::eq(tp.get_tree(), &tree));
}

#[test]
fn validator_rejects_bad_arenas() {
    // Children must precede their parent and tile its range.
    let bad = vec![leaf(1, "A"), inner(vec![0, 2], 0), leaf(1, "B")];
    assert!(Tree::from_nodes(bad).is_none());
    // An empty arena is refused.
    assert!(Tree::from_nodes(Vec::new()).is_none());
    // A disconnected arena is refused.
    let dangling = vec![leaf(1, "A"), leaf(1, "B")];
    assert!(Tree::from_nodes(dangling).is_none());
}
