use gruph::TreeError;
use gruph::stanford::prettify_stanford_string;
use gruph::tree::build_tree;

#[test]
fn core_test_build_tree() {
    let input = "(ROOT(S(NP(PRP)(NN))(ADVP(RB))(VP(VBZ)(S(VP(VBG)(NP(NN)))))))";
    let graph = build_tree(&input, &'(', &')');
    match graph {
        Ok(_g) => println!("tree generated"),
        Err(_) => panic!(),
    }
}

#[test]
fn process_test_build_tree() {
    let input = "(ROOT(S(NP(PRP)(NN))(ADVP(RB))(VP(VBZ)(S(VP(VBG)(NP(NN)))))))";
    let graph = build_tree(&input, &'(', &')');
    match graph {
        Ok(_g) => println!("tree generated"),
        Err(_) => panic!(),
    }
}

#[test]
fn lib_test_build_stanford_tree() {
    let mut input: String = String::from("(ROOT (S (NP (PRP$ My) (NN dog)) (ADVP (RB also)) (VP (VBZ likes) (S (VP (VBG eating) (NP (NN sausage))))) (. .)))");
    input = prettify_stanford_string(&input).into_iter().collect();
    let graph = build_tree(&input, &'(', &')');
    match graph {
        Ok(g) => {
            println!("tree generated");
            assert_eq!(g.node_count(), 22);
        }
        Err(_) => panic!(),
    }
}

#[test]
fn stanford_test_build_stanford_tree() {
    let mut input: String = String::from("(ROOT (S (NP (PRP$ My) (NN dog)) (ADVP (RB also)) (VP (VBZ likes) (S (VP (VBG eating) (NP (NN sausage))))) (. .)))");
    input = prettify_stanford_string(&input).into_iter().collect();
    let graph = build_tree(&input, &'(', &')');
    match graph {
        Ok(g) => {
            println!("tree generated");
            assert_eq!(g.node_count(), 22);
        }
        Err(_) => panic!("Could not build stanford tree"),
    }
}

#[test]
fn test_node_and_edge_counts() {
    // A well-formed canonical tree with 14 label tokens yields 14 nodes and
    // 13 edges.
    let input = "(ROOT(S(NP(PRP)(NN))(ADVP(RB))(VP(VBZ)(S(VP(VBG)(NP(NN)))))))";
    let tree = build_tree(&input, &'(', &')').unwrap();
    assert_eq!(tree.node_count(), 14);
    assert_eq!(tree.edge_count(), 13);
}

#[test]
fn test_stanford_tree_edge_count() {
    let input: String = prettify_stanford_string(
        "(ROOT (S (NP (PRP$ My) (NN dog)) (ADVP (RB also)) (VP (VBZ likes) (S (VP (VBG eating) (NP (NN sausage))))) (. .)))",
    )
    .into_iter()
    .collect();
    let tree = build_tree(&input, &'(', &')').unwrap();
    assert_eq!(tree.node_count(), 22);
    assert_eq!(tree.edge_count(), 21);
}

#[test]
fn test_lookup_is_preorder() {
    // Node identifiers are assigned on open-delimiter, so the index lists
    // repeated labels in pre-order.
    let input = "(A(B(A))(C))";
    let tree = build_tree(&input, &'(', &')').unwrap();
    assert_eq!(tree.lookup(&String::from("A")), Some(vec![0, 2]));
    assert_eq!(tree.lookup(&String::from("B")), Some(vec![1]));
    assert_eq!(tree.lookup(&String::from("C")), Some(vec![3]));
    assert_eq!(tree.lookup(&String::from("D")), None);
}

#[test]
fn test_unmatched_open_is_malformed() {
    // An unmatched open-delimiter yields MalformedInput, never a panic.
    let raw = "(ROOT (S (NP";
    assert_eq!(build_tree(&raw, &'(', &')').err(), Some(TreeError::MalformedInput));
    let canonical: String = prettify_stanford_string(&raw).into_iter().collect();
    assert_eq!(build_tree(&canonical, &'(', &')').err(), Some(TreeError::MalformedInput));
}

#[test]
fn test_unterminated_tree_is_malformed() {
    // Text exhausted with more than the root still open.
    assert_eq!(build_tree("(A(B", &'(', &')').err(), Some(TreeError::MalformedInput));
    assert_eq!(build_tree("(A(B)", &'(', &')').ok().map(|t| t.node_count()), Some(2));
}

#[test]
fn test_empty_and_blank_input_are_malformed() {
    assert_eq!(build_tree("", &'(', &')').err(), Some(TreeError::MalformedInput));
    assert_eq!(build_tree("   ", &'(', &')').err(), Some(TreeError::MalformedInput));
}

#[test]
fn test_close_without_open_is_malformed() {
    assert_eq!(build_tree(")", &'(', &')').err(), Some(TreeError::MalformedInput));
    assert_eq!(build_tree(") (A)", &'(', &')').err(), Some(TreeError::MalformedInput));
}

#[test]
fn test_unexpected_character_is_malformed() {
    assert_eq!(build_tree("x(A)", &'(', &')').err(), Some(TreeError::MalformedInput));
}

#[test]
fn test_trailing_content_is_ignored() {
    // Once the open-node stack collapses to the root, the rest of the input
    // is ignored: the documented trailing-content mode.
    let tree = build_tree("(A(B))xyz((", &'(', &')').unwrap();
    assert_eq!(tree.node_count(), 2);
    assert_eq!(tree.edge_count(), 1);
}

#[test]
fn test_other_delimiters() {
    let tree = build_tree("[A[B][C]]", &'[', &']').unwrap();
    assert_eq!(tree.node_count(), 3);
    assert_eq!(tree.edge_count(), 2);
    assert_eq!(tree.lookup(&String::from("B")), Some(vec![1]));
}
