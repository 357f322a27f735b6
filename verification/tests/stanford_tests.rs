use gruph::stanford::prettify_stanford_string;

#[test]
fn lib_test_prettify_stanford_tree() {
    let input = "(ROOT (S (NP (PRP$ My) (NN dog)) (ADVP (RB also)) (VP (VBZ likes) (S (VP (VBG eating) (NP (NN sausage))))) (. .)))";
    let expected = "(ROOT(S(NP(PRP$(My))(NN(dog)))(ADVP(RB(also)))(VP(VBZ(likes))(S(VP(VBG(eating))(NP(NN(sausage))))))(.(.))))";
    let output: String = prettify_stanford_string(&input).into_iter().collect();
    assert_eq!(expected, output);
}

#[test]
fn stanford_test_prettify_stanford_tree() {
    let input = "(ROOT (S (NP (PRP$ My) (NN dog)) (ADVP (RB also)) (VP (VBZ likes) (S (VP (VBG eating) (NP (NN sausage))))) (. .)))";
    let expected = "(ROOT(S(NP(PRP$(My))(NN(dog)))(ADVP(RB(also)))(VP(VBZ(likes))(S(VP(VBG(eating))(NP(NN(sausage))))))(.(.))))";
    let output: String = prettify_stanford_string(&input).into_iter().collect();
    assert_eq!(expected, output);
}

#[test]
fn test_prettify_wraps_leaves_and_strips_spaces() {
    // Every leaf token preceded by a space gets its own delimiter pair, and
    // all whitespace goes away.
    let input = "(S (NP (DT The) (NN dog)))";
    let output: String = prettify_stanford_string(&input).into_iter().collect();
    assert_eq!(output, "(S(NP(DT(The))(NN(dog))))");
}

#[test]
fn test_prettify_leaves_canonical_text_unchanged() {
    // Text already in canonical form (no spaces, every leaf wrapped) passes
    // through untouched.
    let input = "(S(NP(DT(The))(NN(dog))))";
    let output: String = prettify_stanford_string(&input).into_iter().collect();
    assert_eq!(output, input);
}

#[test]
fn test_prettify_idempotent() {
    // Applying the normalizer twice equals applying it once.
    let input = "(ROOT (S (NP (PRP$ My) (NN dog)) (ADVP (RB also)) (VP (VBZ likes) (S (VP (VBG eating) (NP (NN sausage))))) (. .)))";
    let once: String = prettify_stanford_string(&input).into_iter().collect();
    let twice: String = prettify_stanford_string(&once).into_iter().collect();
    assert_eq!(once, twice);
}

#[test]
fn test_prettify_idempotent_on_raw_fragment() {
    let input = "(ROOT (S (NP";
    let once: String = prettify_stanford_string(&input).into_iter().collect();
    let twice: String = prettify_stanford_string(&once).into_iter().collect();
    assert_eq!(once, twice);
}

#[test]
fn test_prettify_empty() {
    let output: String = prettify_stanford_string("").into_iter().collect();
    assert_eq!(output, "");
}
