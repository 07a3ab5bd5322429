//! Text normalisation for inline layout.
use vstd::prelude::*;

use crate::style::is_lit;
use crate::text::{chars_of, lower, lower_of, string_of};

verus! {

/// ASCII whitespace (`char::is_ascii_whitespace`): tab, line feed, form feed,
/// carriage return and space. No-break and other Unicode spaces are not among them.
pub open spec fn is_ascii_ws(c: char) -> bool {
    c == '\t' || c == '\n' || c == '\u{0C}' || c == '\r' || c == ' '
}

fn ascii_ws(c: char) -> (b: bool)
    ensures
        b == is_ascii_ws(c),
{
    c == '\t' || c == '\n' || c == '\u{0C}' || c == '\r' || c == ' '
}

/// `s` with each run of ASCII whitespace replaced by one space; `prev_space` says whether
/// the text before `s` ended in such a space.
pub open spec fn collapse(s: Seq<char>, prev_space: bool) -> Seq<char>
    decreases s.len(),
{
    if s.len() == 0 {
        seq![]
    } else if is_ascii_ws(s[0]) {
        if prev_space {
            collapse(s.skip(1), true)
        } else {
            seq![' '] + collapse(s.skip(1), true)
        }
    } else {
        seq![s[0]] + collapse(s.skip(1), false)
    }
}

/// Collapse runs of ASCII whitespace to single spaces (normal white-space).
pub fn collapse_ws(s: &str) -> (r: String)
    ensures
        r@ == collapse(s@, false),
{
    let c = chars_of(s);
    let mut out: Vec<char> = Vec::new();
    let mut prev_space = false;
    let mut i: usize = 0;
    assert(c@.skip(0) =~= c@);
    assert(out@ + collapse(c@, false) =~= collapse(c@, false));
    while i < c.len()
        invariant
            i <= c@.len(),
            c@ == s@,
            out@ + collapse(c@.skip(i as int), prev_space) == collapse(s@, false),
        decreases c.len() - i,
    {
        let ch = c[i];
        let ghost rest = c@.skip(i as int);
        assert(rest.skip(1) =~= c@.skip(i + 1));
        assert(rest[0] == ch);
        let ghost o0 = out@;
        if ascii_ws(ch) {
            if !prev_space {
                out.push(' ');
                assert(out@ + collapse(c@.skip(i + 1), true) =~= o0 + (seq![' '] + collapse(c@.skip(i + 1), true)));
            }
            prev_space = true;
        } else {
            out.push(ch);
            assert(out@ + collapse(c@.skip(i + 1), false) =~= o0 + (seq![ch] + collapse(c@.skip(i + 1), false)));
            prev_space = false;
        }
        i += 1;
    }
    assert(c@.skip(c@.len() as int) =~= Seq::<char>::empty());
    assert(out@ + Seq::<char>::empty() =~= out@);
    string_of(out.as_slice())
}

/// The collapsed text holds no ASCII whitespace but single spaces, never two in a row, and
/// does not start with a space after one.
pub proof fn lemma_collapse_shape(s: Seq<char>, prev_space: bool)
    ensures
        forall|i: int| 0 <= i < collapse(s, prev_space).len() && is_ascii_ws(#[trigger] collapse(s, prev_space)[i]) ==> collapse(s, prev_space)[i] == ' ',
        forall|i: int| 0 <= i < collapse(s, prev_space).len() - 1 ==> !(#[trigger] collapse(s, prev_space)[i] == ' ' && collapse(s, prev_space)[i + 1] == ' '),
        prev_space && collapse(s, prev_space).len() > 0 ==> collapse(s, prev_space)[0] != ' ',
        collapse(s, prev_space).len() > 0 && collapse(s, prev_space)[0] == ' ' ==> s.len() > 0 && is_ascii_ws(s[0]),
    decreases s.len(),
{
    if s.len() > 0 {
        let t = s.skip(1);
        lemma_collapse_shape(t, is_ascii_ws(s[0]));
        let r = collapse(s, prev_space);
        let rt = collapse(t, is_ascii_ws(s[0]));
        if is_ascii_ws(s[0]) && prev_space {
            assert(r == rt);
        } else if is_ascii_ws(s[0]) {
            assert(r == seq![' '] + rt);
            assert forall|i: int| 0 <= i < r.len() - 1 implies !(#[trigger] r[i] == ' ' && r[i + 1] == ' ') by {
                if i > 0 {
                    assert(r[i] == rt[i - 1] && r[i + 1] == rt[i]);
                } else if rt.len() > 0 {
                    assert(r[1] == rt[0]);
                }
            }
            assert forall|i: int| 0 <= i < r.len() && is_ascii_ws(#[trigger] r[i]) implies r[i] == ' ' by {
                if i > 0 {
                    assert(r[i] == rt[i - 1]);
                }
            }
        } else {
            assert(r == seq![s[0]] + rt);
            assert(' ' == ' ' && is_ascii_ws(' '));
            assert forall|i: int| 0 <= i < r.len() - 1 implies !(#[trigger] r[i] == ' ' && r[i + 1] == ' ') by {
                if i > 0 {
                    assert(r[i] == rt[i - 1] && r[i + 1] == rt[i]);
                }
            }
            assert forall|i: int| 0 <= i < r.len() && is_ascii_ws(#[trigger] r[i]) implies r[i] == ' ' by {
                if i > 0 {
                    assert(r[i] == rt[i - 1]);
                }
            }
        }
    }
}

/// Collapsing twice changes nothing more than collapsing once.
pub proof fn lemma_collapse_idempotent(s: Seq<char>)
    ensures
        collapse(collapse(s, false), false) == collapse(s, false),
{
    lemma_collapse_fixed(s, false);
}

/// Collapsed text (after a space when `prev_space`) is left as it is.
proof fn lemma_collapse_fixed(s: Seq<char>, prev_space: bool)
    ensures
        collapse(collapse(s, prev_space), prev_space) == collapse(s, prev_space),
    decreases s.len(),
{
    if s.len() > 0 {
        let t = s.skip(1);
        let w = is_ascii_ws(s[0]);
        lemma_collapse_fixed(t, w);
        lemma_collapse_shape(t, w);
        let r = collapse(s, prev_space);
        let rt = collapse(t, w);
        assert(is_ascii_ws(' '));
        if w && prev_space {
            assert(r == rt);
        } else if w {
            let a = seq![' '] + rt;
            assert(a.skip(1) =~= rt);
            assert(a[0] == ' ');
            assert(collapse(a, prev_space) == seq![' '] + collapse(rt, true));
        } else {
            let a = seq![s[0]] + rt;
            assert(a.skip(1) =~= rt);
            assert(a[0] == s[0]);
            assert(collapse(a, prev_space) == seq![s[0]] + collapse(rt, false));
        }
    }
}

/// The font family a `font-family` name asks for: a generic family, or a named font.
#[derive(Clone, Copy, PartialEq, Eq, Debug)]
pub enum FontFamily {
    Serif,
    SansSerif,
    Monospace,
    Cursive,
    Fantasy,
    Named,
}

/// The family of a (lower-cased) family name; the empty name is sans-serif.
pub open spec fn family_spec(low: Seq<char>) -> FontFamily {
    if low == "serif"@ {
        FontFamily::Serif
    } else if low == "sans-serif"@ || low.len() == 0 {
        FontFamily::SansSerif
    } else if low == "monospace"@ {
        FontFamily::Monospace
    } else if low == "cursive"@ {
        FontFamily::Cursive
    } else if low == "fantasy"@ {
        FontFamily::Fantasy
    } else {
        FontFamily::Named
    }
}

/// Which family the `font-family` name `name` selects (generic names in any case).
pub fn family_of(name: &str) -> (r: FontFamily)
    ensures
        r == family_spec(lower(name@)),
{
    let c = chars_of(name);
    let low = lower_of(c.as_slice());
    let l = low.as_slice();
    if is_lit(l, "serif") {
        FontFamily::Serif
    } else if is_lit(l, "sans-serif") || l.len() == 0 {
        FontFamily::SansSerif
    } else if is_lit(l, "monospace") {
        FontFamily::Monospace
    } else if is_lit(l, "cursive") {
        FontFamily::Cursive
    } else if is_lit(l, "fantasy") {
        FontFamily::Fantasy
    } else {
        FontFamily::Named
    }
}

} // verus!
