//! The scanner: locates the next node-label span in bracketed tree text.

use vstd::prelude::*;
use crate::TreeError;

verus! {

/// A character counts as a separator iff it occurs in `separators`.
pub open spec fn is_sep(separators: Seq<char>, ch: char) -> bool {
    separators.contains(ch)
}

/// `(a, b)` is the inclusive index range of the next maximal run of
/// non-separator characters beginning at or after `start`: everything from
/// `start` up to `a` is a separator, `a..=b` is a nonempty run of
/// non-separators, and the run is closed by a separator at `b + 1`.
pub open spec fn label_span_ok(
    text: Seq<char>,
    separators: Seq<char>,
    start: int,
    a: int,
    b: int,
) -> bool {
    &&& start <= a <= b
    &&& b + 1 < text.len()
    &&& (forall|i: int| start <= i < a ==> is_sep(separators, #[trigger] text[i]))
    &&& (forall|i: int| a <= i <= b ==> !is_sep(separators, #[trigger] text[i]))
    &&& is_sep(separators, text[b + 1])
}

/// Some closed label span exists at or after `start`.
pub open spec fn has_label_span(text: Seq<char>, separators: Seq<char>, start: int) -> bool {
    exists|a: int, b: int| label_span_ok(text, separators, start, a, b)
}

/// At most one span satisfies `label_span_ok` for a given start position.
pub proof fn lemma_label_span_unique(
    text: Seq<char>,
    separators: Seq<char>,
    start: int,
    a1: int,
    b1: int,
    a2: int,
    b2: int,
)
    requires
        label_span_ok(text, separators, start, a1, b1),
        label_span_ok(text, separators, start, a2, b2),
    ensures
        a1 == a2,
        b1 == b2,
{
    assert(a1 == a2) by {
        if a1 < a2 {
            assert(is_sep(separators, text[a1]));
            assert(!is_sep(separators, text[a1]));
        }
        if a2 < a1 {
            assert(is_sep(separators, text[a2]));
            assert(!is_sep(separators, text[a2]));
        }
    }
    assert(b1 == b2) by {
        if b1 < b2 {
            assert(is_sep(separators, text[b1 + 1]));
            assert(!is_sep(separators, text[b1 + 1]));
        }
        if b2 < b1 {
            assert(is_sep(separators, text[b2 + 1]));
            assert(!is_sep(separators, text[b2 + 1]));
        }
    }
}

/// Whether `ch` occurs in `separators`.
fn contains_char(separators: &[char], ch: char) -> (r: bool)
    ensures
        r == is_sep(separators@, ch),
{
    let n = separators.len();
    let mut j: usize = 0;
    while j < n
        invariant
            j <= n,
            n == separators@.len(),
            forall|k: int| 0 <= k < j ==> separators@[k] != ch,
        decreases n - j,
    {
        if separators[j] == ch {
            return true;
        }
        j += 1;
    }
    false
}

/// Returns the inclusive index range (over characters, not bytes) of the next
/// maximal run of non-separator characters beginning at or after
/// `index_start_search`, or `MalformedInput` when no such closed run exists
/// (no non-separator remains, or the run is never closed by a separator).
pub fn get_next_node_label_indices(
    tree_in: &str,
    index_start_search: usize,
    separators: &[char],
) -> (r: Result<(usize, usize), TreeError>)
    ensures
        match r {
            Ok(span) => label_span_ok(
                tree_in@,
                separators@,
                index_start_search as int,
                span.0 as int,
                span.1 as int,
            ),
            Err(e) => {
                &&& e == TreeError::MalformedInput
                &&& !has_label_span(tree_in@, separators@, index_start_search as int)
            },
        },
{
    let n = tree_in.unicode_len();
    let mut a: usize = index_start_search;
    while a < n
        invariant_except_break
            index_start_search <= a,
        invariant
            n == tree_in@.len(),
            forall|k: int| index_start_search <= k < a ==> is_sep(separators@, #[trigger] tree_in@[k]),
        ensures
            index_start_search <= a,
            a < n ==> !is_sep(separators@, tree_in@[a as int]),
        decreases n - a,
    {
        if !contains_char(separators, tree_in.get_char(a)) {
            break;
        }
        a += 1;
    }
    if a >= n {
        proof {
            assert forall|x: int, y: int| !label_span_ok(
                tree_in@,
                separators@,
                index_start_search as int,
                x,
                y,
            ) by {
                if label_span_ok(tree_in@, separators@, index_start_search as int, x, y) {
                    assert(is_sep(separators@, tree_in@[x]));
                }
            }
        }
        return Err(TreeError::MalformedInput);
    }
    let mut b: usize = a + 1;
    while b < n
        invariant_except_break
            a < b,
            b <= n,
        invariant
            n == tree_in@.len(),
            index_start_search <= a < n,
            !is_sep(separators@, tree_in@[a as int]),
            forall|k: int| index_start_search <= k < a ==> is_sep(separators@, #[trigger] tree_in@[k]),
            forall|k: int| a <= k < b ==> !is_sep(separators@, #[trigger] tree_in@[k]),
        ensures
            a < b <= n,
            b < n ==> is_sep(separators@, tree_in@[b as int]),
        decreases n - b,
    {
        if contains_char(separators, tree_in.get_char(b)) {
            break;
        }
        b += 1;
    }
    if b >= n {
        proof {
            assert forall|x: int, y: int| !label_span_ok(
                tree_in@,
                separators@,
                index_start_search as int,
                x,
                y,
            ) by {
                if label_span_ok(tree_in@, separators@, index_start_search as int, x, y) {
                    if x < a {
                        assert(is_sep(separators@, tree_in@[x]));
                    } else if a < x {
                        assert(is_sep(separators@, tree_in@[a as int]));
                    } else {
                        assert(!is_sep(separators@, tree_in@[y + 1]));
                    }
                }
            }
        }
        return Err(TreeError::MalformedInput);
    }
    Ok((a, b - 1))
}

} // verus!
