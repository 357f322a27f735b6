use gruph::TreeError;
use gruph::scanner::get_next_node_label_indices;

#[test]
fn core_test_node_label_indices_correct() {
    let input = "(ROOT(S(NP(PRP)(NN))(ADVP(RB))(VP(VBZ)(S(VP(VBG)(NP(NN)))))))";
    let separators = ['(', ')', ' '];
    let indices = get_next_node_label_indices(&input, 0, &separators);
    match indices {
        Ok((i1, i2)) => assert_eq!((i1, i2), (1, 4)),
        Err(_) => panic!(),
    }
    let indices = get_next_node_label_indices(&input, 0, &separators);
    match indices {
        Ok((i1, i2)) => assert_eq!((i1, i2), (1, 4)),
        Err(_) => panic!(),
    }
}

#[test]
fn process_test_node_label_indices_correct() {
    let input = "(ROOT(S(NP(PRP)(NN))(ADVP(RB))(VP(VBZ)(S(VP(VBG)(NP(NN)))))))";
    let separators = ['(', ')', ' '];
    let indices = get_next_node_label_indices(&input, 0, &separators);
    match indices {
        Ok((i1, i2)) => assert_eq!((i1, i2), (1, 4)),
        Err(_) => panic!(),
    }
    let indices = get_next_node_label_indices(&input, 0, &separators);
    match indices {
        Ok((i1, i2)) => assert_eq!((i1, i2), (1, 4)),
        Err(_) => panic!(),
    }
}

#[test]
fn test_label_span_on_spaced_prefix() {
    // The span covering "ROOT": characters 1 through 4 inclusive.
    let indices = get_next_node_label_indices("(ROOT (S ", 0, &['(', ')', ' ']);
    assert_eq!(indices, Ok((1, 4)));
}

#[test]
fn test_label_span_later_start() {
    // Starting inside the text finds the next run, "S" at position 7.
    let indices = get_next_node_label_indices("(ROOT (S ", 5, &['(', ')', ' ']);
    assert_eq!(indices, Ok((7, 7)));
}

#[test]
fn test_label_span_no_label_left() {
    // Only separators remain: recoverable error, no panic.
    let indices = get_next_node_label_indices("(ROOT ()", 6, &['(', ')', ' ']);
    assert_eq!(indices, Err(TreeError::MalformedInput));
}

#[test]
fn test_label_span_unterminated_run() {
    // A label run the text ends inside is not a closed span.
    let indices = get_next_node_label_indices("(ROOT", 0, &['(', ')', ' ']);
    assert_eq!(indices, Err(TreeError::MalformedInput));
}

#[test]
fn test_label_span_start_past_end() {
    let indices = get_next_node_label_indices("(A)", 17, &['(', ')', ' ']);
    assert_eq!(indices, Err(TreeError::MalformedInput));
}
