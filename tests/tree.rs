use optimizer::tree::{testtree, Node, NodeRef, NodeType, Tree};

#[test]
fn genome_test_noderef_eq() {
    let mut tree = Tree::new();
    let node = Node::new(&mut tree, NodeType::Project, "11111", Some("derp"));
    let node2 = Node::new(&mut tree, NodeType::Project, "11111", Some("derp"));

    let nref = node;
    let nref2 = node;

    let nref3 = node2;

    assert_eq!(nref, nref2);
    assert!(nref != nref3);
}

#[test]
fn genome_subtree_counts() {
    let (tree, root) = testtree();
    let children = tree.node(root).children.clone();
    assert_eq!(&tree.node(root).subtreesize, &4);
    assert_eq!(&tree.node(children[0]).subtreesize, &1);
    assert_eq!(&tree.node(children[1]).subtreesize, &0);
    assert_eq!(&tree.node(children[2]).subtreesize, &0);
}

#[test]
fn find_node_walks_in_preorder() {
    let (tree, root) = testtree();
    let order: Vec<NodeRef> = (0..4).map(|k| tree.find_node(root, k)).collect();
    assert_eq!(order, vec![NodeRef(1), NodeRef(0), NodeRef(2), NodeRef(3)]);
}

#[test]
fn random_node_is_uniform_over_descendants() {
    let (tree, root) = testtree();
    let mut rng = rand::XorShiftRng::new_unseeded();
    let mut counts = [0usize; 5];
    let trials = 40_000;
    for _ in 0..trials {
        let r = tree.randomnode(root, &mut rng);
        counts[r.0] += 1;
    }
    assert_eq!(counts[4], 0);
    for k in 0..4 {
        let share = counts[k] as f64 / trials as f64;
        assert!((share - 0.25).abs() < 0.02, "node {} drawn with share {}", k, share);
    }
}

#[test]
fn ids_are_found() {
    let (tree, _) = testtree();
    assert_eq!(tree.find_id("22222"), Some(NodeRef(2)));
    assert_eq!(tree.find_id("00000"), Some(NodeRef(4)));
    assert_eq!(tree.find_id("99999"), None);
    assert!(tree.has_id("44444"));
}
