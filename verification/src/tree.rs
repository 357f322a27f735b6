//! The tree builder: consumes canonical bracketed text and produces a
//! directed graph plus a label index, owned together by [`ParsedTree`].

use vstd::prelude::*;
use crate::TreeError;
use crate::digraph::{
    graph_add_edge, graph_add_node, graph_edge_count, graph_edge_list, graph_labels, graph_new,
    graph_node_count,
};
use petgraph::graph::DiGraph;
use crate::label_index::{LabelIndex, ids_with_label, lemma_ids_with_label_push};
use crate::paths::has_parent;
use crate::parse_spec::{TreeModel, build_from, seps, spec_build};
use crate::scanner::{get_next_node_label_indices, has_label_span, is_sep, lemma_label_span_unique};

verus! {

/// A successfully built tree: the directed graph and the label index,
/// exposed only as a finished, immutable pair.
pub struct ParsedTree {
    pub(crate) graph: DiGraph<String, ()>,
    pub(crate) index: LabelIndex,
}

impl ParsedTree {
    /// The node labels in creation (pre-)order; the node with identifier `i`
    /// carries the label at position `i`.
    pub closed spec fn labels(&self) -> Seq<Seq<char>> {
        graph_labels(self.graph)
    }

    /// The (parent, child) edges, in creation order.
    pub closed spec fn edges(&self) -> Seq<(int, int)> {
        graph_edge_list(self.graph)
    }

    /// Well-formedness: at least a root exists, every edge runs from an
    /// earlier-created node to a later-created one within bounds (so the
    /// graph is acyclic), node 0 is the one root and every other node has
    /// exactly one incoming edge, and the index lists, for every label,
    /// exactly the nodes carrying it, in creation order.
    pub closed spec fn wf(&self) -> bool {
        &&& self.labels().len() >= 1
        &&& forall|j: int| 0 <= j < self.edges().len() ==> 0 <= (#[trigger] self.edges()[j]).0
            < self.edges()[j].1 < self.labels().len()
        &&& forall|j1: int, j2: int| 0 <= j1 < j2 < self.edges().len() ==> (
        #[trigger] self.edges()[j1]).1 != (#[trigger] self.edges()[j2]).1
        &&& forall|id: int| 1 <= id < self.labels().len() ==> #[trigger] has_parent(
            self.edges(),
            id,
        )
        &&& self.index.inv()
        &&& forall|lab: Seq<char>| #[trigger] self.index.spec_lookup(lab) == ids_with_label(
            self.labels(),
            lab,
        )
    }

    /// What well-formedness guarantees about the views: a root exists; every
    /// edge runs from an earlier-created node to a later-created one within
    /// bounds, so the graph is acyclic; and node 0 is the single root — it
    /// has no incoming edge, while every other node has exactly one.
    pub proof fn lemma_wf_properties(&self)
        requires
            self.wf(),
        ensures
            self.labels().len() >= 1,
            forall|j: int| 0 <= j < self.edges().len() ==> 0 <= (#[trigger] self.edges()[j]).0
                < self.edges()[j].1 < self.labels().len(),
            !has_parent(self.edges(), 0),
            forall|id: int| 1 <= id < self.labels().len() ==> #[trigger] has_parent(
                self.edges(),
                id,
            ),
            forall|j1: int, j2: int| 0 <= j1 < j2 < self.edges().len() ==> (
            #[trigger] self.edges()[j1]).1 != (#[trigger] self.edges()[j2]).1,
    {
        if has_parent(self.edges(), 0) {
            let j = choose|j: int| 0 <= j < self.edges().len() && (#[trigger] self.edges()[j]).1
                == 0;
            assert(self.edges()[j].0 < 0);
        }
    }

    /// Lets the other modules of the crate relate the views to the owned
    /// graph when they operate on it directly.
    pub(crate) proof fn reveal_parts(&self)
        ensures
            self.labels() == graph_labels(self.graph),
            self.edges() == graph_edge_list(self.graph),
    {
    }

    /// How many nodes the tree has.
    pub fn node_count(&self) -> (n: usize)
        ensures
            n == self.labels().len(),
    {
        graph_node_count(&self.graph)
    }

    /// How many edges the tree has.
    pub fn edge_count(&self) -> (n: usize)
        ensures
            n == self.edges().len(),
    {
        graph_edge_count(&self.graph)
    }

    /// The identifiers of the nodes carrying `label`, in creation order, or
    /// None when no node carries it.
    pub fn lookup(&self, label: &String) -> (r: Option<Vec<usize>>)
        requires
            self.wf(),
        ensures
            match r {
                Some(v) => {
                    &&& v@.len() > 0
                    &&& v@.map_values(|u: usize| u as int) == ids_with_label(
                        self.labels(),
                        label@,
                    )
                },
                None => ids_with_label(self.labels(), label@).len() == 0,
            },
    {
        self.index.lookup(label)
    }
}

/// Every label is nonempty and holds no delimiter and no whitespace
/// character: what the scanner's span guarantees, kept by every built tree.
pub open spec fn labels_wf(labels: Seq<Seq<char>>, o: char, c: char) -> bool {
    &&& forall|i: int| 0 <= i < labels.len() ==> (#[trigger] labels[i]).len() > 0
    &&& forall|i: int, q: int| 0 <= i < labels.len() && 0 <= q < labels[i].len() ==> !is_sep(
        seps(o, c),
        #[trigger] labels[i][q],
    )
}

/// During the build every created node is either still open (on the stack)
/// or already closed into its parent (the target of an edge).
spec fn covered(stack: Seq<usize>, edges: Seq<(int, int)>, id: int) -> bool {
    (exists|k: int| 0 <= k < stack.len() && ((#[trigger] stack[k]) as int) == id) || has_parent(
        edges,
        id,
    )
}

/// When the stack has collapsed to one open node, that node is node 0, and
/// every other node has been closed into a parent.
proof fn lemma_every_nonroot_closed(stack: Seq<usize>, labels: Seq<Seq<char>>, edges: Seq<
    (int, int),
>)
    requires
        stack.len() == 1,
        forall|k: int| 0 <= k < stack.len() ==> (#[trigger] stack[k]) < labels.len(),
        forall|j: int| 0 <= j < edges.len() ==> 0 <= (#[trigger] edges[j]).0 < edges[j].1
            < labels.len(),
        forall|id: int| 0 <= id < labels.len() ==> #[trigger] covered(stack, edges, id),
    ensures
        forall|id: int| 1 <= id < labels.len() ==> #[trigger] has_parent(edges, id),
{
    // node 0 has no incoming edge, so it is the one still open
    assert(stack[0] < labels.len());
    assert(covered(stack, edges, 0));
    if has_parent(edges, 0) {
        let j = choose|j: int| 0 <= j < edges.len() && (#[trigger] edges[j]).1 == 0;
        assert(edges[j].0 < 0);
    }
    let k0 = choose|k: int| 0 <= k < stack.len() && ((#[trigger] stack[k]) as int) == 0;
    assert(stack[0] as int == 0);
    assert forall|id: int| 1 <= id < labels.len() implies #[trigger] has_parent(edges, id) by {
        assert(covered(stack, edges, id));
        if !has_parent(edges, id) {
            let k = choose|k: int| 0 <= k < stack.len() && ((#[trigger] stack[k]) as int) == id;
            assert(k == 0);
        }
    }
}

/// Parses canonical bracketed text into a graph and label index.
///
/// One node is created per open-delimiter (labeled by the span the scanner
/// finds), one edge per close-delimiter that closes a child; as soon as only
/// the root remains open and a close-delimiter arrives, the build ends
/// successfully, any trailing input ignored. The whitespace separator is the
/// ASCII space, which is skipped. Everything else — a failed label scan, a
/// close-delimiter with nothing open, an unexpected character, or exhausted
/// text with anything but exactly the root open (the empty input included) —
/// is `MalformedInput`. The length bound is forced by the graph's 32-bit
/// node indices.
pub fn build_tree(
    tree_in: &str,
    node_separator_start: &char,
    node_separator_end: &char,
) -> (r: Result<ParsedTree, TreeError>)
    requires
        tree_in@.len() <= 0xFFFF_FFFF,
    ensures
        match r {
            Ok(t) => {
                &&& t.wf()
                &&& labels_wf(t.labels(), *node_separator_start, *node_separator_end)
                &&& spec_build(tree_in@, *node_separator_start, *node_separator_end) == Some(
                    TreeModel { labels: t.labels(), edges: t.edges() },
                )
            },
            Err(e) => {
                &&& e == TreeError::MalformedInput
                &&& spec_build(tree_in@, *node_separator_start, *node_separator_end) is None
            },
        },
{
    let o = *node_separator_start;
    let c = *node_separator_end;
    let separators: [char; 3] = [o, c, ' '];
    proof {
        assert(separators@ =~= seps(o, c));
    }
    let mut graph = graph_new();
    let mut index = LabelIndex::new();
    let mut stack: Vec<usize> = Vec::new();
    let mut index_char: usize = 0;
    let n = tree_in.unicode_len();
    proof {
        assert(stack@.map_values(|u: usize| u as int) =~= Seq::<int>::empty());
        assert forall|lab: Seq<char>| #[trigger] index.spec_lookup(lab) == ids_with_label(
            graph_labels(graph),
            lab,
        ) by {}
    }
    while index_char < n
        invariant
            n == tree_in@.len(),
            n <= 0xFFFF_FFFF,
            index_char <= n,
            o == *node_separator_start,
            c == *node_separator_end,
            separators@ == seps(o, c),
            2 * graph_labels(graph).len() <= index_char,
            stack@.len() <= graph_labels(graph).len(),
            graph_edge_list(graph).len() == graph_labels(graph).len() - stack@.len(),
            forall|k: int| 0 <= k < stack@.len() ==> (#[trigger] stack@[k]) < graph_labels(
                graph,
            ).len(),
            forall|k1: int, k2: int| 0 <= k1 < k2 < stack@.len() ==> stack@[k1] < stack@[k2],
            forall|j: int| 0 <= j < graph_edge_list(graph).len() ==> 0 <= (
            #[trigger] graph_edge_list(graph)[j]).0 < graph_edge_list(graph)[j].1 < graph_labels(
                graph,
            ).len(),
            forall|j1: int, j2: int| 0 <= j1 < j2 < graph_edge_list(graph).len() ==> (
            #[trigger] graph_edge_list(graph)[j1]).1 != (#[trigger] graph_edge_list(graph)[
                j2
            ]).1,
            forall|j: int, k: int| 0 <= j < graph_edge_list(graph).len() && 0 <= k < stack@.len()
                ==> (#[trigger] graph_edge_list(graph)[j]).1 != ((#[trigger] stack@[k]) as int),
            forall|id: int| 0 <= id < graph_labels(graph).len() ==> #[trigger] covered(
                stack@,
                graph_edge_list(graph),
                id,
            ),
            labels_wf(graph_labels(graph), o, c),
            index.inv(),
            forall|lab: Seq<char>| #[trigger] index.spec_lookup(lab) == ids_with_label(
                graph_labels(graph),
                lab,
            ),
            build_from(
                tree_in@,
                o,
                c,
                index_char as int,
                stack@.map_values(|u: usize| u as int),
                graph_labels(graph),
                graph_edge_list(graph),
            ) == spec_build(tree_in@, o, c),
        decreases n - index_char,
    {
        let ghost pre_stack = stack@.map_values(|u: usize| u as int);
        let ghost pre_stack_v = stack@;
        let ghost pre_labels = graph_labels(graph);
        let ghost pre_edges = graph_edge_list(graph);
        let ch = tree_in.get_char(index_char);
        if ch == o {
            match get_next_node_label_indices(tree_in, index_char, separators.as_slice()) {
                Err(_) => {
                    proof {
                        assert(!has_label_span(tree_in@, seps(o, c), index_char as int));
                        assert(build_from(
                            tree_in@,
                            o,
                            c,
                            index_char as int,
                            pre_stack,
                            pre_labels,
                            pre_edges,
                        ) is None);
                    }
                    return Err(TreeError::MalformedInput);
                },
                Ok((a, b)) => {
                    proof {
                        assert(has_label_span(tree_in@, seps(o, c), index_char as int));
                    }
                    let label: String = tree_in.substring_char(a, b + 1).to_owned();
                    let id = graph_add_node(&mut graph, label.clone());
                    index.insert(&label, id);
                    stack.push(id);
                    proof {
                        let s = tree_in@;
                        let (ca, cb) = choose|x: int, y: int|
                            crate::scanner::label_span_ok(s, seps(o, c), index_char as int, x, y);
                        assert(crate::scanner::label_span_ok(
                            s,
                            seps(o, c),
                            index_char as int,
                            ca,
                            cb,
                        ));
                        lemma_label_span_unique(
                            s,
                            seps(o, c),
                            index_char as int,
                            ca,
                            cb,
                            a as int,
                            b as int,
                        );
                        assert(label@ == s.subrange(a as int, b + 1));
                        assert(stack@.map_values(|u: usize| u as int) =~= pre_stack.push(
                            id as int,
                        ));
                        assert(graph_labels(graph) =~= pre_labels.push(label@));
                        assert(build_from(s, o, c, index_char as int, pre_stack, pre_labels,
                            pre_edges) == build_from(
                            s,
                            o,
                            c,
                            b + 1,
                            stack@.map_values(|u: usize| u as int),
                            graph_labels(graph),
                            graph_edge_list(graph),
                        ));
                        // the cursor advances by at least two characters
                        assert(crate::scanner::is_sep(seps(o, c), o)) by {
                            assert(seps(o, c)[0] == o);
                        }
                        assert(a as int > index_char as int);
                        // the index still matches the labels
                        assert forall|lab: Seq<char>| #[trigger] index.spec_lookup(lab)
                            == ids_with_label(graph_labels(graph), lab) by {
                            lemma_ids_with_label_push(pre_labels, label@, lab);
                        }
                        // the new node is open; no edge ends in it or in any
                        // node still open
                        assert forall|j: int, k: int|
                            0 <= j < graph_edge_list(graph).len() && 0 <= k
                                < stack@.len() implies (#[trigger] graph_edge_list(graph)[j]).1
                            != ((#[trigger] stack@[k]) as int) by {
                            assert(graph_edge_list(graph)[j] == pre_edges[j]);
                            if k < stack@.len() - 1 {
                                assert(stack@[k] == pre_stack_v[k]);
                            } else {
                                assert(stack@[k] as int == pre_labels.len());
                                assert(pre_edges[j].1 < pre_labels.len());
                            }
                        }
                        assert forall|nid: int|
                            0 <= nid < graph_labels(graph).len() implies #[trigger] covered(
                            stack@,
                            graph_edge_list(graph),
                            nid,
                        ) by {
                            if nid < pre_labels.len() {
                                assert(covered(pre_stack_v, pre_edges, nid));
                                if exists|k: int|
                                    0 <= k < pre_stack_v.len() && ((#[trigger] pre_stack_v[
                                        k
                                    ]) as int) == nid {
                                    let k = choose|k: int|
                                        0 <= k < pre_stack_v.len() && ((#[trigger] pre_stack_v[
                                            k
                                        ]) as int) == nid;
                                    assert(stack@[k] as int == nid);
                                }
                            } else {
                                assert(stack@[stack@.len() - 1] as int == nid);
                            }
                        }
                        // the new label comes from a scanned span: nonempty,
                        // free of delimiters and whitespace
                        assert forall|i: int|
                            0 <= i < graph_labels(graph).len() implies (#[trigger] graph_labels(
                            graph,
                        )[i]).len() > 0 by {
                            if i < pre_labels.len() {
                                assert(graph_labels(graph)[i] == pre_labels[i]);
                            } else {
                                assert(graph_labels(graph)[i] == label@);
                            }
                        }
                        assert forall|i: int, q: int|
                            0 <= i < graph_labels(graph).len() && 0 <= q < graph_labels(graph)[
                            i
                        ].len() implies !is_sep(seps(o, c), #[trigger] graph_labels(graph)[i][
                            q
                        ]) by {
                            if i < pre_labels.len() {
                                assert(graph_labels(graph)[i] == pre_labels[i]);
                                assert(!is_sep(seps(o, c), pre_labels[i][q]));
                            } else {
                                assert(graph_labels(graph)[i] == label@);
                                assert(label@[q] == tree_in@[a + q]);
                                assert(!is_sep(seps(o, c), tree_in@[a + q]));
                            }
                        }
                    }
                    index_char = b + 1;
                },
            }
        } else if ch == c {
            if stack.len() > 1 {
                let target = stack.pop().unwrap();
                let source = stack[stack.len() - 1];
                graph_add_edge(&mut graph, source, target);
                proof {
                    assert(stack@.map_values(|u: usize| u as int) =~= pre_stack.drop_last());
                    assert(pre_stack[pre_stack.len() - 2] == source as int);
                    assert(pre_stack.last() == target as int);
                    assert(graph_edge_list(graph) =~= pre_edges.push(
                        (source as int, target as int),
                    ));
                    assert(source < target);
                    // the popped node gains its one incoming edge; nothing
                    // still open has one
                    assert forall|j1: int, j2: int|
                        0 <= j1 < j2 < graph_edge_list(graph).len() implies (
                    #[trigger] graph_edge_list(graph)[j1]).1 != (#[trigger] graph_edge_list(
                        graph,
                    )[j2]).1 by {
                        assert(graph_edge_list(graph)[j1] == pre_edges[j1]);
                        if j2 == pre_edges.len() {
                            assert(pre_edges[j1].1 != ((pre_stack_v[pre_stack_v.len()
                                - 1]) as int));
                            assert(graph_edge_list(graph)[j2].1 == target as int);
                        } else {
                            assert(graph_edge_list(graph)[j2] == pre_edges[j2]);
                        }
                    }
                    assert forall|j: int, k: int|
                        0 <= j < graph_edge_list(graph).len() && 0 <= k < stack@.len() implies (
                    #[trigger] graph_edge_list(graph)[j]).1 != ((#[trigger] stack@[k]) as int) by {
                        assert(stack@[k] == pre_stack_v[k]);
                        if j < pre_edges.len() {
                            assert(graph_edge_list(graph)[j] == pre_edges[j]);
                        } else {
                            assert(graph_edge_list(graph)[j].1 == target as int);
                            assert(pre_stack_v[k] < pre_stack_v[pre_stack_v.len() - 1]);
                        }
                    }
                    assert forall|nid: int|
                        0 <= nid < graph_labels(graph).len() implies #[trigger] covered(
                        stack@,
                        graph_edge_list(graph),
                        nid,
                    ) by {
                        assert(covered(pre_stack_v, pre_edges, nid));
                        if exists|k: int|
                            0 <= k < pre_stack_v.len() && ((#[trigger] pre_stack_v[k]) as int)
                                == nid {
                            let k = choose|k: int|
                                0 <= k < pre_stack_v.len() && ((#[trigger] pre_stack_v[
                                    k
                                ]) as int) == nid;
                            if k < pre_stack_v.len() - 1 {
                                assert(stack@[k] as int == nid);
                            } else {
                                assert(graph_edge_list(graph)[pre_edges.len() as int].1 == nid);
                            }
                        } else {
                            let j = choose|j: int|
                                0 <= j < pre_edges.len() && (#[trigger] pre_edges[j]).1 == nid;
                            assert(graph_edge_list(graph)[j].1 == nid);
                        }
                    }
                    assert(build_from(
                        tree_in@,
                        o,
                        c,
                        index_char as int,
                        pre_stack,
                        pre_labels,
                        pre_edges,
                    ) == build_from(
                        tree_in@,
                        o,
                        c,
                        index_char + 1,
                        stack@.map_values(|u: usize| u as int),
                        graph_labels(graph),
                        graph_edge_list(graph),
                    ));
                }
                index_char = index_char + 1;
            } else if stack.len() == 1 {
                proof {
                    lemma_every_nonroot_closed(stack@, pre_labels, pre_edges);
                }
                let t = ParsedTree { graph, index };
                proof {
                    assert(build_from(tree_in@, o, c, index_char as int, pre_stack, pre_labels,
                        pre_edges) == Some(TreeModel { labels: pre_labels, edges: pre_edges }));
                    assert(t.wf());
                }
                return Ok(t);
            } else {
                proof {
                    assert(build_from(
                        tree_in@,
                        o,
                        c,
                        index_char as int,
                        pre_stack,
                        pre_labels,
                        pre_edges,
                    ) is None);
                }
                return Err(TreeError::MalformedInput);
            }
        } else if ch == ' ' {
            proof {
                assert(build_from(
                    tree_in@,
                    o,
                    c,
                    index_char as int,
                    pre_stack,
                    pre_labels,
                    pre_edges,
                ) == build_from(
                    tree_in@,
                    o,
                    c,
                    index_char + 1,
                    pre_stack,
                    pre_labels,
                    pre_edges,
                ));
            }
            index_char = index_char + 1;
        } else {
            proof {
                assert(build_from(
                    tree_in@,
                    o,
                    c,
                    index_char as int,
                    pre_stack,
                    pre_labels,
                    pre_edges,
                ) is None);
            }
            return Err(TreeError::MalformedInput);
        }
    }
    if stack.len() == 1 {
        proof {
            lemma_every_nonroot_closed(stack@, graph_labels(graph), graph_edge_list(graph));
        }
        let t = ParsedTree { graph, index };
        proof {
            assert(t.wf());
        }
        Ok(t)
    } else {
        Err(TreeError::MalformedInput)
    }
}

} // verus!
