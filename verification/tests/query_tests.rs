use gruph::TreeError;
use gruph::query::{dominates, generate_test_graph, try_dominates};
use gruph::stanford::prettify_stanford_string;
use gruph::tree::{ParsedTree, build_tree};

use petgraph::algo::dijkstra;
use petgraph::algo::dominators::simple_fast;
use petgraph::graph::{NodeIndex, UnGraph};

fn build_stanford_example() -> ParsedTree {
    let input: String = prettify_stanford_string(
        "(ROOT (S (NP (PRP$ My) (NN dog)) (ADVP (RB also)) (VP (VBZ likes) (S (VP (VBG eating) (NP (NN sausage))))) (. .)))",
    )
    .into_iter()
    .collect();
    build_tree(&input, &'(', &')').unwrap()
}

#[test]
fn test_dijsktra() {
    let (g, nodes) = generate_test_graph();
    let dij = dijkstra(&g, NodeIndex::new(nodes[0]), None, |_| 1);
    for (k, v) in dij {
        println!("{}:{}", k.index(), v);
    }
    assert!(true);
}

#[test]
fn test_dominates() {
    let (g, nodes) = generate_test_graph();
    let res = simple_fast(&g, NodeIndex::new(nodes[0]));
    let dominators = res.dominators(NodeIndex::new(nodes[0]));
    match dominators {
        Some(hm) => {
            for ni in hm {
                println!("{}", ni.index());
            }
        }
        None => {
            assert!(false)
        }
    }
}

// A check of the dependency itself.
#[test]
fn test_ungraph_is_created_from_scratch() {
    // Create an undirected graph with `i32` nodes and edges with `()` associated data.
    let g = UnGraph::<i32, ()>::from_edges(&[(1, 2), (2, 3), (3, 4), (1, 4)]);

    // Find the shortest path from `1` to `4` using `1` as the cost for every edge.
    let node_map = dijkstra(&g, 1.into(), Some(4.into()), |_| 1);
    assert_eq!(&1i32, node_map.get(&NodeIndex::new(4)).unwrap());
}

#[test]
fn test_dominance_in_stanford_example() {
    // The outer VP dominates NP, NN and VBG, but neither ADVP nor PRP$.
    let tree = build_stanford_example();
    let vp = String::from("VP");
    assert!(dominates(&tree, &vp, &String::from("NP")));
    assert!(dominates(&tree, &vp, &String::from("NN")));
    assert!(dominates(&tree, &vp, &String::from("VBG")));
    assert!(!dominates(&tree, &vp, &String::from("ADVP")));
    assert!(!dominates(&tree, &vp, &String::from("PRP$")));
}

#[test]
fn test_dominance_from_root() {
    let tree = build_stanford_example();
    let root = String::from("ROOT");
    assert!(dominates(&tree, &root, &String::from("VP")));
    assert!(dominates(&tree, &root, &String::from("NP")));
    assert!(!dominates(&tree, &String::from("VP"), &root));
    assert!(!dominates(&tree, &String::from("NP"), &root));
}

#[test]
fn test_dominates_uses_first_occurrence() {
    // Two NP nodes at different depths: the query starts from the
    // first-created one.
    let tree = build_tree("(X(NP(A))(NP(B)))", &'(', &')').unwrap();
    assert_eq!(tree.lookup(&String::from("NP")), Some(vec![1, 3]));
    assert!(dominates(&tree, &String::from("NP"), &String::from("A")));
    assert!(!dominates(&tree, &String::from("NP"), &String::from("B")));
}

#[test]
fn test_repeated_label_can_dominate_itself() {
    // With the label on two nested nodes, the first-created one dominates
    // the other, so the label dominates itself.
    let tree = build_tree("(NP(A)(NP(B)))", &'(', &')').unwrap();
    assert!(dominates(&tree, &String::from("NP"), &String::from("NP")));
}

#[test]
fn test_unique_node_does_not_dominate_itself() {
    // A tree has no self-loops: a node does not dominate itself.
    let tree = build_tree("(A(B))", &'(', &')').unwrap();
    assert!(!dominates(&tree, &String::from("A"), &String::from("A")));
}

#[test]
fn test_missing_label_is_distinguishable() {
    let tree = build_tree("(A(B))", &'(', &')').unwrap();
    assert_eq!(
        try_dominates(&tree, &String::from("Z"), &String::from("B")),
        Err(TreeError::LabelNotFound)
    );
    assert_eq!(
        try_dominates(&tree, &String::from("A"), &String::from("Z")),
        Err(TreeError::LabelNotFound)
    );
    assert_eq!(try_dominates(&tree, &String::from("A"), &String::from("B")), Ok(true));
    assert_eq!(try_dominates(&tree, &String::from("B"), &String::from("A")), Ok(false));
    // The plain query folds the missing label into false.
    assert!(!dominates(&tree, &String::from("Z"), &String::from("B")));
    assert!(!dominates(&tree, &String::from("A"), &String::from("Z")));
}
