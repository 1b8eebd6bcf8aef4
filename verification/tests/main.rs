use pd::binarize_tree;
use pd::Node;
use pd::Tree;
use pd::TreePD;
use phylo::node::simple_rnode::RootedWeightedNode;
use phylo::tree::io::Newick;
use phylo::tree::simple_rtree::RootedMetaTree;
use phylo::tree::simple_rtree::RootedTree;
use phylo::tree::PhyloTree;

fn emit_arena(src: &PhyloTree, v: usize, out: &mut Vec<Node>) -> usize {
    let kids: Vec<usize> = src.get_node_children_ids(v).collect();
    let mut new_kids: Vec<usize> = Vec::new();
    for c in kids {
        new_kids.push(emit_arena(src, c, out));
    }
    let w = src
        .get_node(v)
        .unwrap()
        .get_weight()
        .unwrap_or(0.0);
    let label = src.get_node_taxa(v).cloned();
    out.push(Node {
        children: new_kids,
        weight: w as u64,
        label,
    });
    out.len() - 1
}

fn arena_from_newick(newick: &str) -> Tree {
    let ptree = PhyloTree::from_newick(newick.as_bytes()).unwrap();
    let mut nodes: Vec<Node> = Vec::new();
    emit_arena(&ptree, ptree.get_root_id(), &mut nodes);
    Tree::from_nodes(nodes).unwrap()
}

fn label_list(tree: &Tree, ids: &[usize]) -> String {
    let parts: Vec<String> = ids
        .iter()
        .map(|x| tree.get_node_taxa(*x).unwrap())
        .collect();
    parts.join(",")
}

#[test]
fn binarize() {
    let input_str: String = String::from("((A,B,C,F,G),(D,E));");
    let mut tree = arena_from_newick(&input_str);
    assert!(!tree.is_binary());
    assert!(binarize_tree(&mut tree));
    assert!(tree.is_binary());
    // The taxa keep their left-to-right order through binarization.
    let leaves: Vec<String> = tree
        .nodes
        .iter()
        .filter(|n| n.children.is_empty())
        .map(|n| n.label.clone().unwrap())
        .collect();
    assert_eq!(leaves.join(","), "A,B,C,F,G,D,E");
}

#[test]
fn pd() {
    let input_str: String = String::from("(((A:1,B:2):2,C:7):4,(D:1,E:2):5);");
    let tree = arena_from_newick(&input_str);
    let tree_pd = TreePD::new(&tree);
    let num_taxa = 2;

    assert_eq!(tree_pd.get_minPD(num_taxa), 8);
    assert_eq!(tree_pd.get_norm_minPD(num_taxa), (9, 4));
    assert_eq!(
        label_list(&tree, &tree_pd.get_minPD_taxa_set(num_taxa)),
        "D,E"
    );
    assert_eq!(
        label_list(&tree, &tree_pd.get_norm_minPD_taxa_set(num_taxa)),
        "A,B"
    );
    assert_eq!(tree_pd.get_min_genPD(), Some((17, 7)));
    assert_eq!(
        label_list(&tree, &tree_pd.get_min_genPD_set()),
        "A,B,D,E"
    );

    assert_eq!(tree_pd.get_maxPD(num_taxa), 18);
    assert_eq!(tree_pd.get_norm_maxPD(num_taxa), (18, 4));
    assert_eq!(
        label_list(&tree, &tree_pd.get_maxPD_taxa_set(num_taxa)),
        "C,E"
    );
    assert_eq!(
        label_list(&tree, &tree_pd.get_norm_maxPD_taxa_set(num_taxa)),
        "C,E"
    );
    assert_eq!(tree_pd.get_max_genPD(), Some((19, 5)));
    assert_eq!(
        label_list(&tree, &tree_pd.get_max_genPD_set()),
        "C,D,E"
    );

    let input_str: String = String::from("((A:1,B:2,C:7):5,(D:1,E:2):5);");
    let mut tree = arena_from_newick(&input_str);
    assert!(binarize_tree(&mut tree));
    assert!(tree.is_binary());
    let tree_pd = TreePD::new(&tree);
    let num_taxa = 2;

    assert_eq!(tree_pd.get_minPD(num_taxa), 8);
    assert_eq!(
        label_list(&tree, &tree_pd.get_minPD_taxa_set(num_taxa)),
        "D,E"
    );
    assert!(tree_pd.get_min_genPD().is_some());
    assert!(tree_pd.get_maxPD(num_taxa) >= tree_pd.get_minPD(num_taxa));
    assert!(tree_pd.get_max_genPD().is_some());
}

#[test]
fn avg_pd() {
    let input_str: String = String::from("(((A:1,B:2):2,C:7):4,(D:1,E:2):5);");
    let tree = arena_from_newick(&input_str);
    let tree_pd = TreePD::new(&tree);
    let num_taxa = 2;

    assert_eq!(tree_pd.get_avgPD(num_taxa), (137, 10));
    assert_eq!(tree_pd.get_maxPD(num_taxa), 18);
    assert_eq!(
        label_list(&tree, &tree_pd.get_maxPD_taxa_set(num_taxa)),
        "C,E"
    );
    assert_eq!(tree_pd.get_minPD(num_taxa), 8);
    assert_eq!(
        label_list(&tree, &tree_pd.get_minPD_taxa_set(num_taxa)),
        "D,E"
    );
}
