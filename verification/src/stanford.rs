//! The normalizer: rewrites raw bracketed text so that every leaf token is
//! itself bracket-wrapped, and strips all whitespace, yielding the canonical
//! form the tree builder expects.

use vstd::prelude::*;

verus! {

/// Leaf-collection state of the normalizer's single left-to-right pass.
#[derive(Clone, Copy)]
pub enum CollectState {
    /// Not collecting: the last structural character was copied verbatim.
    Off,
    /// A whitespace separator was just seen; a leaf token may follow.
    AtStart,
    /// Inside a leaf token that has already been wrapped.
    InWord,
}

/// State transition of the normalizer on one input character.
pub open spec fn step_mode(m: CollectState, ch: char) -> CollectState {
    if ch == ' ' {
        CollectState::AtStart
    } else {
        match m {
            CollectState::Off => CollectState::Off,
            CollectState::AtStart => if ch == '(' || ch == ')' {
                CollectState::Off
            } else {
                CollectState::InWord
            },
            CollectState::InWord => if ch == '(' || ch == ')' {
                CollectState::Off
            } else {
                CollectState::InWord
            },
        }
    }
}

/// Characters the normalizer emits for one input character: a close-delimiter
/// that ends a leaf is doubled, and the first character of a leaf token is
/// preceded by a synthesized open-delimiter.
pub open spec fn step_emit(m: CollectState, ch: char) -> Seq<char> {
    if ch == ' ' {
        seq![' ']
    } else {
        match m {
            CollectState::Off => seq![ch],
            CollectState::AtStart => if ch == '(' {
                seq!['(']
            } else if ch == ')' {
                seq![')', ')']
            } else {
                seq!['(', ch]
            },
            CollectState::InWord => if ch == ')' {
                seq![')', ')']
            } else {
                seq![ch]
            },
        }
    }
}

/// Collection state after the pass has consumed `s`.
pub open spec fn prettify_mode(s: Seq<char>) -> CollectState
    decreases s.len(),
{
    if s.len() == 0 {
        CollectState::Off
    } else {
        step_mode(prettify_mode(s.drop_last()), s.last())
    }
}

/// Everything the pass has emitted after consuming `s`, whitespace included.
pub open spec fn prettify_raw(s: Seq<char>) -> Seq<char>
    decreases s.len(),
{
    if s.len() == 0 {
        Seq::empty()
    } else {
        prettify_raw(s.drop_last()) + step_emit(prettify_mode(s.drop_last()), s.last())
    }
}

/// `s` with every space character removed.
pub open spec fn strip_spaces(s: Seq<char>) -> Seq<char>
    decreases s.len(),
{
    if s.len() == 0 {
        Seq::empty()
    } else {
        strip_spaces(s.drop_last()) + (if s.last() == ' ' {
            Seq::empty()
        } else {
            seq![s.last()]
        })
    }
}

/// The canonical form of `s`: the normalizer pass, then whitespace removal.
pub open spec fn normalize_spec(s: Seq<char>) -> Seq<char> {
    strip_spaces(prettify_raw(s))
}

/// Rewrites a bracketed tree string into canonical form: wraps every leaf
/// token (a run introduced by whitespace that does not itself open a subtree)
/// in its own delimiter pair, doubling the close-delimiter that ends such a
/// leaf, and removes all whitespace.
pub fn prettify_stanford_string(tree_in: &str) -> (r: Vec<char>)
    ensures
        r@ == normalize_spec(tree_in@),
{
    let n = tree_in.unicode_len();
    let mut raw: Vec<char> = Vec::new();
    let mut mode = CollectState::Off;
    let mut i: usize = 0;
    while i < n
        invariant
            i <= n,
            n == tree_in@.len(),
            mode == prettify_mode(tree_in@.take(i as int)),
            raw@ == prettify_raw(tree_in@.take(i as int)),
        decreases n - i,
    {
        let c = tree_in.get_char(i);
        proof {
            assert(tree_in@.take(i + 1).drop_last() =~= tree_in@.take(i as int));
            assert(tree_in@.take(i + 1).last() == c);
        }
        if c == ' ' {
            raw.push(' ');
            mode = CollectState::AtStart;
        } else {
            match mode {
                CollectState::Off => {
                    raw.push(c);
                },
                CollectState::AtStart => {
                    if c == '(' {
                        raw.push('(');
                        mode = CollectState::Off;
                    } else if c == ')' {
                        raw.push(')');
                        raw.push(')');
                        mode = CollectState::Off;
                    } else {
                        raw.push('(');
                        raw.push(c);
                        mode = CollectState::InWord;
                    }
                },
                CollectState::InWord => {
                    if c == '(' {
                        raw.push('(');
                        mode = CollectState::Off;
                    } else if c == ')' {
                        raw.push(')');
                        raw.push(')');
                        mode = CollectState::Off;
                    } else {
                        raw.push(c);
                    }
                },
            }
        }
        proof {
            assert(raw@ =~= prettify_raw(tree_in@.take(i + 1)));
        }
        i += 1;
    }
    proof {
        assert(tree_in@.take(n as int) =~= tree_in@);
    }
    let m = raw.len();
    let mut out: Vec<char> = Vec::new();
    let mut j: usize = 0;
    while j < m
        invariant
            j <= m,
            m == raw@.len(),
            raw@ == prettify_raw(tree_in@),
            out@ == strip_spaces(raw@.take(j as int)),
        decreases m - j,
    {
        let c = raw[j];
        proof {
            assert(raw@.take(j + 1).drop_last() =~= raw@.take(j as int));
            assert(raw@.take(j + 1).last() == c);
        }
        if c != ' ' {
            out.push(c);
        }
        proof {
            assert(out@ =~= strip_spaces(raw@.take(j + 1)));
        }
        j += 1;
    }
    proof {
        assert(raw@.take(m as int) =~= raw@);
    }
    out
}

/// Whitespace removal leaves no space character behind.
pub proof fn lemma_strip_no_spaces(s: Seq<char>)
    ensures
        forall|i: int| 0 <= i < strip_spaces(s).len() ==> strip_spaces(s)[i] != ' ',
    decreases s.len(),
{
    if s.len() > 0 {
        lemma_strip_no_spaces(s.drop_last());
        let t = strip_spaces(s);
        let t0 = strip_spaces(s.drop_last());
        assert forall|i: int| 0 <= i < t.len() implies t[i] != ' ' by {
            if i < t0.len() {
                assert(t[i] == t0[i]);
            } else {
                assert(t[i] == s.last());
                assert(s.last() != ' ');
            }
        }
    }
}

/// On input without spaces the normalizer pass stays out of collection mode
/// and emits the input verbatim.
proof fn lemma_prettify_raw_space_free(s: Seq<char>)
    requires
        forall|i: int| 0 <= i < s.len() ==> s[i] != ' ',
    ensures
        prettify_mode(s) == CollectState::Off,
        prettify_raw(s) == s,
    decreases s.len(),
{
    if s.len() > 0 {
        lemma_prettify_raw_space_free(s.drop_last());
        assert(s.last() != ' ');
        assert(prettify_raw(s) =~= s);
    }
}

/// Whitespace removal does not change input without spaces.
proof fn lemma_strip_space_free(s: Seq<char>)
    requires
        forall|i: int| 0 <= i < s.len() ==> s[i] != ' ',
    ensures
        strip_spaces(s) == s,
    decreases s.len(),
{
    if s.len() > 0 {
        lemma_strip_space_free(s.drop_last());
        assert(strip_spaces(s) =~= s);
    }
}

/// Normalizing is idempotent: applying the normalizer to its own output
/// changes nothing, on every input.
pub proof fn lemma_normalize_idempotent(s: Seq<char>)
    ensures
        normalize_spec(normalize_spec(s)) == normalize_spec(s),
{
    let t = normalize_spec(s);
    lemma_strip_no_spaces(prettify_raw(s));
    lemma_prettify_raw_space_free(t);
    lemma_strip_space_free(t);
}

} // verus!
