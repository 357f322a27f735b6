//! The tree builder's specification: a small-step machine that consumes
//! canonical bracketed text, and the counting law it obeys on well-formed
//! input.

use vstd::prelude::*;
use crate::scanner::{is_sep, label_span_ok, has_label_span};

verus! {

/// The mathematical content of a built tree: the node labels in creation
/// (pre-)order, the node with identifier `i` carrying `labels[i]`, and the
/// (parent, child) edges in creation order.
pub ghost struct TreeModel {
    pub labels: Seq<Seq<char>>,
    pub edges: Seq<(int, int)>,
}

/// The separator alphabet the builder scans with: the two delimiters and the
/// ASCII space.
pub open spec fn seps(o: char, c: char) -> Seq<char> {
    seq![o, c, ' ']
}

/// One run of the builder from an intermediate state: `pos` is the cursor,
/// `stack` the identifiers of the currently open nodes (bottom first),
/// `labels` and `edges` what has been built so far.
///
/// On an open-delimiter the next label span is scanned, a node created and
/// pushed; on a close-delimiter the top node is popped and an edge added from
/// the node below it, unless only the root is open, in which case the build
/// ends successfully with any trailing input ignored; a space is skipped; any
/// other character, a close-delimiter with nothing open, a failed scan, and
/// exhaustion with anything but exactly the root open are failures.
pub open spec fn build_from(
    s: Seq<char>,
    o: char,
    c: char,
    pos: int,
    stack: Seq<int>,
    labels: Seq<Seq<char>>,
    edges: Seq<(int, int)>,
) -> Option<TreeModel>
    decreases s.len() - pos,
    when 0 <= pos <= s.len()
    via build_from_decreases
{
    if pos >= s.len() {
        if stack.len() == 1 {
            Some(TreeModel { labels, edges })
        } else {
            None
        }
    } else {
        let ch = s[pos];
        if ch == o {
            if has_label_span(s, seps(o, c), pos) {
                let (a, b) = choose|a: int, b: int| label_span_ok(s, seps(o, c), pos, a, b);
                build_from(
                    s,
                    o,
                    c,
                    b + 1,
                    stack.push(labels.len() as int),
                    labels.push(s.subrange(a, b + 1)),
                    edges,
                )
            } else {
                None
            }
        } else if ch == c {
            if stack.len() >= 2 {
                build_from(
                    s,
                    o,
                    c,
                    pos + 1,
                    stack.drop_last(),
                    labels,
                    edges.push((stack[stack.len() - 2], stack.last())),
                )
            } else if stack.len() == 1 {
                Some(TreeModel { labels, edges })
            } else {
                None
            }
        } else if ch == ' ' {
            build_from(s, o, c, pos + 1, stack, labels, edges)
        } else {
            None
        }
    }
}

#[via_fn]
proof fn build_from_decreases(
    s: Seq<char>,
    o: char,
    c: char,
    pos: int,
    stack: Seq<int>,
    labels: Seq<Seq<char>>,
    edges: Seq<(int, int)>,
) {
    if 0 <= pos < s.len() && s[pos] == o && has_label_span(s, seps(o, c), pos) {
        let (a, b) = choose|a: int, b: int| label_span_ok(s, seps(o, c), pos, a, b);
        assert(label_span_ok(s, seps(o, c), pos, a, b));
        assert(seps(o, c)[0] == o);
        assert(is_sep(seps(o, c), o));
        assert(a != pos);
    }
}

/// What the tree builder produces on `s`: the machine run from the start,
/// with nothing open and nothing built.
pub open spec fn spec_build(s: Seq<char>, o: char, c: char) -> Option<TreeModel> {
    build_from(s, o, c, 0, Seq::empty(), Seq::empty(), Seq::empty())
}

/// How many of the first `n` characters of `s` equal `ch`.
pub open spec fn count_char(s: Seq<char>, n: int, ch: char) -> int
    decreases n,
{
    if n <= 0 {
        0
    } else {
        count_char(s, n - 1, ch) + if s[n - 1] == ch {
            1int
        } else {
            0int
        }
    }
}

/// Bracket depth after the first `n` characters: opens minus closes.
pub open spec fn depth(s: Seq<char>, n: int, o: char, c: char) -> int {
    count_char(s, n, o) - count_char(s, n, c)
}

/// `s` is one whole tree in canonical form over the delimiters `o` and `c`:
/// no whitespace, it starts with an open-delimiter, its brackets balance
/// exactly at its end and never before, every open-delimiter introduces a
/// nonempty label, and every label run starts right after an open-delimiter.
pub open spec fn canonical_tree(s: Seq<char>, o: char, c: char) -> bool {
    &&& o != c && o != ' ' && c != ' '
    &&& s.len() >= 1 && s[0] == o
    &&& (forall|i: int| 0 <= i < s.len() ==> s[i] != ' ')
    &&& count_char(s, s.len() as int, o) == count_char(s, s.len() as int, c)
    &&& (forall|n: int| 0 < n < s.len() ==> depth(s, n, o, c) >= 1)
    &&& (forall|i: int| 0 <= i < s.len() && #[trigger] s[i] == o ==> i + 1 < s.len() && !is_sep(
        seps(o, c),
        s[i + 1],
    ))
    &&& (forall|i: int| 0 <= i < s.len() && !is_sep(seps(o, c), #[trigger] s[i]) ==> i >= 1 && (
    s[i - 1] == o || !is_sep(seps(o, c), s[i - 1])))
}

/// A count over a stretch without `ch` does not grow.
proof fn lemma_count_constant(s: Seq<char>, m: int, n: int, ch: char)
    requires
        0 <= m <= n,
        forall|k: int| m <= k < n ==> s[k] != ch,
    ensures
        count_char(s, n, ch) == count_char(s, m, ch),
    decreases n - m,
{
    if m < n {
        lemma_count_constant(s, m, n - 1, ch);
    }
}

/// The first separator index at or after `i`, or the text length when none
/// remains.
spec fn first_sep_from(s: Seq<char>, sps: Seq<char>, i: int) -> int
    decreases s.len() - i,
    when 0 <= i <= s.len()
{
    if i >= s.len() {
        i
    } else if is_sep(sps, s[i]) {
        i
    } else {
        first_sep_from(s, sps, i + 1)
    }
}

proof fn lemma_first_sep_from(s: Seq<char>, sps: Seq<char>, i: int)
    requires
        0 <= i <= s.len(),
    ensures
        i <= first_sep_from(s, sps, i) <= s.len(),
        forall|k: int| i <= k < first_sep_from(s, sps, i) ==> !is_sep(sps, #[trigger] s[k]),
        first_sep_from(s, sps, i) < s.len() ==> is_sep(sps, s[first_sep_from(s, sps, i)]),
        forall|k: int| i <= k < s.len() && is_sep(sps, #[trigger] s[k]) ==> first_sep_from(
            s,
            sps,
            i,
        ) <= k,
    decreases s.len() - i,
{
    if i < s.len() && !is_sep(sps, s[i]) {
        lemma_first_sep_from(s, sps, i + 1);
    }
}

/// In a canonical tree the last character is the close-delimiter that
/// balances the brackets, and the text has at least three characters.
proof fn lemma_canonical_last(s: Seq<char>, o: char, c: char)
    requires
        canonical_tree(s, o, c),
    ensures
        s.len() >= 3,
        s.last() == c,
{
    let len = s.len() as int;
    assert(count_char(s, 0, o) == 0);
    assert(count_char(s, 0, c) == 0);
    assert(count_char(s, 1, o) == 1);
    assert(count_char(s, 1, c) == 0);
    if len == 1 {
        assert(depth(s, 1, o, c) == 1);
        assert(count_char(s, len, o) == count_char(s, len, c));
    }
    assert(len >= 2);
    assert(s.last() == c) by {
        if s[len - 1] == o {
            assert((len - 1) + 1 < len);
        } else if s[len - 1] != c {
            assert(s[len - 1] != ' ');
            assert(count_char(s, len, o) == count_char(s, len - 1, o));
            assert(count_char(s, len, c) == count_char(s, len - 1, c));
            assert(depth(s, len - 1, o, c) >= 1);
        }
    }
    assert(len >= 3) by {
        if len == 2 {
            assert(s[0] == o && s[1] == c);
            assert(!is_sep(seps(o, c), s[1])) by {
                assert(s[0int + 1] == s[1]);
            }
            assert(is_sep(seps(o, c), c)) by {
                assert(seps(o, c)[1] == c);
            }
        }
    }
}

/// The machine, run from any intermediate state of a canonical tree whose
/// open-node count matches the bracket depth, succeeds; it creates one node
/// per remaining open-delimiter and one edge per remaining close-delimiter,
/// the final one excepted.
proof fn lemma_run_canonical(
    s: Seq<char>,
    o: char,
    c: char,
    pos: int,
    stack: Seq<int>,
    labels: Seq<Seq<char>>,
    edges: Seq<(int, int)>,
)
    requires
        canonical_tree(s, o, c),
        0 <= pos < s.len(),
        s[pos] == o || s[pos] == c,
        stack.len() == depth(s, pos, o, c),
    ensures
        build_from(s, o, c, pos, stack, labels, edges) matches Some(m) && {
            &&& m.labels.len() == labels.len() + count_char(s, s.len() - 1, o) - count_char(
                s,
                pos,
                o,
            )
            &&& m.edges.len() == edges.len() + count_char(s, s.len() - 1, c) - count_char(
                s,
                pos,
                c,
            )
        },
    decreases s.len() - pos,
{
    let len = s.len() as int;
    let sps = seps(o, c);
    lemma_canonical_last(s, o, c);
    assert(is_sep(sps, o)) by {
        assert(sps[0] == o);
    }
    assert(is_sep(sps, c)) by {
        assert(sps[1] == c);
    }
    if s[pos] == o {
        // the label span starts right after the open-delimiter
        assert(pos + 1 < len && !is_sep(sps, s[pos + 1]));
        lemma_first_sep_from(s, sps, pos + 1);
        let f = first_sep_from(s, sps, pos + 1);
        assert(f <= len - 1) by {
            assert(is_sep(sps, s[len - 1]));
        }
        assert(f > pos + 1);
        let a = pos + 1;
        let b = f - 1;
        assert(label_span_ok(s, sps, pos, a, b));
        assert(has_label_span(s, sps, pos));
        let (a2, b2) = choose|x: int, y: int| label_span_ok(s, sps, pos, x, y);
        assert(label_span_ok(s, sps, pos, a2, b2));
        crate::scanner::lemma_label_span_unique(s, sps, pos, a2, b2, a, b);
        let pos2 = b + 1;
        // the consumed span holds no delimiter
        assert(count_char(s, pos2, o) == count_char(s, pos + 1, o)) by {
            assert(forall|k: int| pos + 1 <= k < pos2 ==> !is_sep(sps, #[trigger] s[k]));
            assert(forall|k: int| pos + 1 <= k < pos2 ==> s[k] != o);
            lemma_count_constant(s, pos + 1, pos2, o);
        }
        assert(count_char(s, pos2, c) == count_char(s, pos + 1, c)) by {
            assert(forall|k: int| pos + 1 <= k < pos2 ==> !is_sep(sps, #[trigger] s[k]));
            assert(forall|k: int| pos + 1 <= k < pos2 ==> s[k] != c);
            lemma_count_constant(s, pos + 1, pos2, c);
        }
        assert(count_char(s, pos + 1, o) == count_char(s, pos, o) + 1);
        assert(count_char(s, pos + 1, c) == count_char(s, pos, c));
        // the machine lands on a delimiter again
        assert(s[pos2] == o || s[pos2] == c) by {
            assert(is_sep(sps, s[pos2]));
            assert(sps.contains(s[pos2]));
            assert(s[pos2] != ' ');
            assert(sps[0] == o && sps[1] == c && sps[2] == ' ');
            let w = choose|w: int| 0 <= w < sps.len() && sps[w] == s[pos2];
            assert(w == 0 || w == 1 || w == 2);
        }
        assert(depth(s, pos2, o, c) == stack.len() + 1);
        lemma_run_canonical(
            s,
            o,
            c,
            pos2,
            stack.push(labels.len() as int),
            labels.push(s.subrange(a, b + 1)),
            edges,
        );
    } else {
        // a close-delimiter: the depth here is positive
        assert(pos >= 1) by {
            assert(s[0] == o);
        }
        assert(stack.len() >= 1);
        assert(count_char(s, pos + 1, c) == count_char(s, pos, c) + 1);
        assert(count_char(s, pos + 1, o) == count_char(s, pos, o));
        if pos == len - 1 {
            // the final close balances the brackets: only the root is open
            assert(depth(s, len, o, c) == 0);
            assert(stack.len() == 1);
        } else {
            assert(depth(s, pos + 1, o, c) >= 1);
            assert(stack.len() >= 2);
            assert(s[pos + 1] == o || s[pos + 1] == c) by {
                if !is_sep(sps, s[pos + 1]) {
                    assert(s[(pos + 1) - 1] == o || !is_sep(sps, s[(pos + 1) - 1]));
                }
                assert(sps.contains(s[pos + 1]));
                assert(s[pos + 1] != ' ');
                assert(sps[0] == o && sps[1] == c && sps[2] == ' ');
                let w = choose|w: int| 0 <= w < sps.len() && sps[w] == s[pos + 1];
                assert(w == 0 || w == 1 || w == 2);
            }
            lemma_run_canonical(
                s,
                o,
                c,
                pos + 1,
                stack.drop_last(),
                labels,
                edges.push((stack[stack.len() - 2], stack.last())),
            );
        }
    }
}

/// Round-trip structural size: on any whole tree in canonical form with `N`
/// label tokens (leaves and internal nodes combined) the builder succeeds and
/// produces exactly `N` nodes and `N - 1` edges.
pub proof fn lemma_build_counts(s: Seq<char>, o: char, c: char)
    requires
        canonical_tree(s, o, c),
    ensures
        spec_build(s, o, c) matches Some(m) && {
            &&& m.labels.len() == count_char(s, s.len() as int, o)
            &&& m.edges.len() == count_char(s, s.len() as int, o) - 1
        },
{
    let len = s.len() as int;
    lemma_canonical_last(s, o, c);
    assert(depth(s, 0, o, c) == 0);
    lemma_run_canonical(s, o, c, 0, Seq::empty(), Seq::empty(), Seq::empty());
    assert(s[len - 1] == c && c != o);
    assert(count_char(s, len, o) == count_char(s, len - 1, o));
    assert(count_char(s, len, c) == count_char(s, len - 1, c) + 1);
}

} // verus!
