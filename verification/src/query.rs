//! The dominance query engine: single-source reachability over the built
//! graph, checked against the label index.

use vstd::prelude::*;
use crate::TreeError;
use crate::digraph::{
    graph_add_edge, graph_add_node, graph_edge_list, graph_labels, graph_new, graph_node_label,
    graph_reachable,
};
use crate::label_index::{ids_with_label, lemma_ids_with_label_sound};
use crate::paths::{
    lemma_no_strict_self_reach, lemma_reaches_distinct_is_strict,
    lemma_strictly_reaches_implies_reaches, reaches, strictly_reaches,
};
use crate::tree::ParsedTree;
use petgraph::graph::DiGraph;

verus! {

/// The engine's dominance policy: the first-created node carrying `dom` is
/// the source, and it dominates `sub` iff some node carrying `sub` is
/// reachable from it through at least one edge. A label absent from the tree
/// dominates nothing and is dominated by nothing.
pub open spec fn spec_dominates(
    labels: Seq<Seq<char>>,
    edges: Seq<(int, int)>,
    dom: Seq<char>,
    sub: Seq<char>,
) -> bool {
    &&& ids_with_label(labels, dom).len() > 0
    &&& exists|k: int|
        0 <= k < labels.len() && #[trigger] labels[k] == sub && strictly_reaches(
            edges,
            ids_with_label(labels, dom)[0],
            k,
        )
}

/// Answers whether the label `dominator` dominates the label `dominated` in
/// `tree`, or reports `LabelNotFound` when either label has no node, so that
/// a caller can tell "no dominance" from "label does not exist".
#[verifier::rlimit(60)]
pub fn try_dominates(tree: &ParsedTree, dominator: &String, dominated: &String) -> (r: Result<
    bool,
    TreeError,
>)
    requires
        tree.wf(),
    ensures
        match r {
            Ok(b) => {
                &&& ids_with_label(tree.labels(), dominator@).len() > 0
                &&& ids_with_label(tree.labels(), dominated@).len() > 0
                &&& b == spec_dominates(tree.labels(), tree.edges(), dominator@, dominated@)
            },
            Err(e) => {
                &&& e == TreeError::LabelNotFound
                &&& (ids_with_label(tree.labels(), dominator@).len() == 0 || ids_with_label(
                    tree.labels(),
                    dominated@,
                ).len() == 0)
            },
        },
{
    let ghost labels = tree.labels();
    let ghost edges = tree.edges();
    let dom_ids = match tree.lookup(dominator) {
        None => {
            return Err(TreeError::LabelNotFound);
        },
        Some(v) => v,
    };
    let sub_present = tree.lookup(dominated);
    if sub_present.is_none() {
        return Err(TreeError::LabelNotFound);
    }
    let source = dom_ids[0];
    proof {
        tree.reveal_parts();
        lemma_ids_with_label_sound(labels, dominator@);
        assert(dom_ids@.map_values(|u: usize| u as int)[0] == source as int);
        assert(ids_with_label(labels, dominator@)[0] == source as int);
        assert((source as int) < labels.len());
    }
    let reached = graph_reachable(&tree.graph, source);
    let nreach = reached.len();
    let ghost src = source as int;
    let mut j: usize = 0;
    while j < nreach
        invariant
            j <= nreach,
            nreach == reached@.len(),
            tree.wf(),
            labels == tree.labels(),
            edges == tree.edges(),
            graph_labels(tree.graph) == labels,
            graph_edge_list(tree.graph) == edges,
            src == source as int,
            0 <= src < labels.len(),
            forall|jj: int| 0 <= jj < reached@.len() ==> ((#[trigger] reached@[jj]) as nat)
                <= 0xFFFF_FFFF,
            forall|jj: int| 0 <= jj < reached@.len() ==> reaches(
                edges,
                src,
                #[trigger] reached@[jj] as int,
            ),
            forall|k: int| #[trigger] reaches(edges, src, k) ==> exists|jj: int|
                0 <= jj < reached@.len() && reached@[jj] as int == k,
            forall|jj: int| 0 <= jj < j ==> !((#[trigger] reached@[jj] as int) != src && (reached@[
                jj
            ] as int) < labels.len() && labels[reached@[jj] as int] == dominated@),
            ids_with_label(labels, dominator@).len() > 0,
            ids_with_label(labels, dominator@)[0] == src,
            ids_with_label(labels, dominated@).len() > 0,
        decreases nreach - j,
    {
        let k = reached[j];
        if k != source {
            match graph_node_label(&tree.graph, k) {
                Some(lab) => {
                    if lab == *dominated {
                        proof {
                            assert(reaches(edges, src, reached@[j as int] as int));
                            lemma_reaches_distinct_is_strict(edges, src, k as int);
                            assert(labels[k as int] == dominated@);
                            assert(spec_dominates(labels, edges, dominator@, dominated@));
                        }
                        return Ok(true);
                    }
                },
                None => {},
            }
        }
        j += 1;
    }
    proof {
        if spec_dominates(labels, edges, dominator@, dominated@) {
            let k = choose|k: int|
                0 <= k < labels.len() && #[trigger] labels[k] == dominated@ && strictly_reaches(
                    edges,
                    src,
                    k,
                );
            tree.lemma_wf_properties();
            assert forall|jj: int| 0 <= jj < edges.len() implies (#[trigger] edges[jj]).0 < edges[
                jj
            ].1 by {
                assert(edges[jj] == tree.edges()[jj]);
            }
            lemma_no_strict_self_reach(edges, src);
            assert(k != src);
            lemma_strictly_reaches_implies_reaches(edges, src, k);
            let jj = choose|jj: int| 0 <= jj < reached@.len() && reached@[jj] as int == k;
            assert(!((reached@[jj] as int) != src && (reached@[jj] as int) < labels.len() && labels[
                reached@[jj] as int
            ] == dominated@));
            assert(false);
        }
    }
    Ok(false)
}

/// Answers whether the label `dominator` dominates the label `dominated` in
/// `tree`; a label absent from the tree yields false.
pub fn dominates(tree: &ParsedTree, dominator: &String, dominated: &String) -> (r: bool)
    requires
        tree.wf(),
    ensures
        r == spec_dominates(tree.labels(), tree.edges(), dominator@, dominated@),
{
    match try_dominates(tree, dominator, dominated) {
        Ok(b) => b,
        Err(_) => {
            proof {
                let labels = tree.labels();
                let edges = tree.edges();
                if ids_with_label(labels, dominated@).len() == 0 && spec_dominates(
                    labels,
                    edges,
                    dominator@,
                    dominated@,
                ) {
                    let k = choose|k: int|
                        0 <= k < labels.len() && #[trigger] labels[k] == dominated@
                            && strictly_reaches(edges, ids_with_label(labels, dominator@)[0], k);
                    lemma_ids_with_label_sound(labels, dominated@);
                    assert(exists|jj: int|
                        0 <= jj < ids_with_label(labels, dominated@).len() && ids_with_label(
                            labels,
                            dominated@,
                        )[jj] == k);
                    assert(false);
                }
            }
            false
        },
    }
}

/// The fixed six-node example graph (a small clause skeleton) together with
/// its node identifiers in creation order.
pub fn generate_test_graph() -> (r: (DiGraph<String, ()>, Vec<usize>))
    ensures
        graph_labels(r.0) == seq!["S"@, "NP"@, "DET"@, "NNP"@, "VP"@, "VVP"@],
        graph_edge_list(r.0) == seq![
            (0int, 1int),
            (0int, 4int),
            (1int, 2int),
            (1int, 3int),
            (4int, 5int),
        ],
        r.1@ == seq![0usize, 1, 2, 3, 4, 5],
{
    let mut g = graph_new();
    let s = graph_add_node(&mut g, "S".to_owned());
    let np = graph_add_node(&mut g, "NP".to_owned());
    let det = graph_add_node(&mut g, "DET".to_owned());
    let nnp = graph_add_node(&mut g, "NNP".to_owned());
    let vp = graph_add_node(&mut g, "VP".to_owned());
    let vvp = graph_add_node(&mut g, "VVP".to_owned());
    graph_add_edge(&mut g, s, np);
    graph_add_edge(&mut g, s, vp);
    graph_add_edge(&mut g, np, det);
    graph_add_edge(&mut g, np, nnp);
    graph_add_edge(&mut g, vp, vvp);
    let mut ids: Vec<usize> = Vec::new();
    ids.push(s);
    ids.push(np);
    ids.push(det);
    ids.push(nnp);
    ids.push(vp);
    ids.push(vvp);
    proof {
        assert(graph_labels(g) =~= seq!["S"@, "NP"@, "DET"@, "NNP"@, "VP"@, "VVP"@]);
        assert(graph_edge_list(g) =~= seq![
            (0int, 1int),
            (0int, 4int),
            (1int, 2int),
            (1int, 3int),
            (4int, 5int),
        ]);
        assert(ids@ =~= seq![0usize, 1, 2, 3, 4, 5]);
    }
    (g, ids)
}

} // verus!
