//! Minimal CSS scanner for `.print-format` page options: only top-level style rules
//! whose comma-split selector list contains exactly `.print-format` are read; @-rules
//! are skipped (never recursed into), and shorthands are not expanded.
use vstd::prelude::*;

use vstd::string::StringSliceAdditionalSpecFns;

use crate::number::{is_zero_literal, parses_to_zero};
use crate::text::{
    append_chars, chars_of, copy_range, find_char, find_char_from, has_suffix, lemma_find_char_props,
    lower, lower_of, occurs_at, split_chars, split_on, string_of, trim, trim_bounds, trim_end,
    trimmed, trimmed_end, ends_with, has_prefix_at, starts_with,
};

verus! {

// ----- comments -----

/// What follows the first `*/` of `r` (nothing when `r` holds no `*/`).
pub open spec fn after_comment(r: Seq<u8>) -> Seq<u8>
    decreases r.len(),
{
    if r.len() < 2 {
        seq![]
    } else if r[0] == 42u8 && r[1] == 47u8 {
        r.skip(2)
    } else {
        after_comment(r.skip(1))
    }
}

pub proof fn lemma_after_comment_len(r: Seq<u8>)
    ensures
        after_comment(r).len() <= r.len(),
    decreases r.len(),
{
    if r.len() >= 2 && !(r[0] == 42u8 && r[1] == 47u8) {
        lemma_after_comment_len(r.skip(1));
    }
}

/// The bytes of `b` with every `/* ... */` comment removed; an unterminated comment
/// runs to the end.
pub open spec fn strip_bytes(b: Seq<u8>) -> Seq<u8>
    decreases b.len(),
{
    if b.len() == 0 {
        seq![]
    } else if b.len() >= 2 && b[0] == 47u8 && b[1] == 42u8 {
        proof {
            lemma_after_comment_len(b.skip(2));
        }
        strip_bytes(after_comment(b.skip(2)))
    } else {
        seq![b[0]] + strip_bytes(b.skip(1))
    }
}

pub proof fn lemma_strip_bytes_len(b: Seq<u8>)
    ensures
        strip_bytes(b).len() <= b.len(),
    decreases b.len(),
{
    if b.len() == 0 {
    } else if b.len() >= 2 && b[0] == 47u8 && b[1] == 42u8 {
        lemma_after_comment_len(b.skip(2));
        lemma_strip_bytes_len(after_comment(b.skip(2)));
    } else {
        lemma_strip_bytes_len(b.skip(1));
    }
}

/// Each byte read as the character of the same number.
pub open spec fn latin1(b: Seq<u8>) -> Seq<char> {
    Seq::new(b.len(), |i: int| b[i] as char)
}

/// The comment-free text of a stylesheet, one character per byte of its UTF-8 encoding.
pub open spec fn stripped(css: &str) -> Seq<char> {
    latin1(strip_bytes(css.spec_bytes()))
}

pub fn strip_comment_chars(b: &[u8]) -> (r: Vec<char>)
    ensures
        r@ == latin1(strip_bytes(b@)),
{
    let n = b.len();
    let mut out: Vec<char> = Vec::new();
    let ghost mut acc: Seq<u8> = seq![];
    let mut i: usize = 0;
    assert(b@.skip(0) =~= b@);
    while i < n
        invariant
            n == b@.len(),
            i <= n,
            out@ == latin1(acc),
            strip_bytes(b@) == acc + strip_bytes(b@.skip(i as int)),
        decreases n - i,
    {
        if i + 1 < n && b[i] == 47u8 && b[i + 1] == 42u8 {
            let mut j = i + 2;
            assert(b@.skip(i as int).skip(2) =~= b@.skip(i + 2));
            while n - j > 1 && !(b[j] == 42u8 && b[j + 1] == 47u8)
                invariant
                    n == b@.len(),
                    i + 2 <= j <= n,
                    after_comment(b@.skip(i + 2)) == after_comment(b@.skip(j as int)),
                decreases n - j,
            {
                assert(b@.skip(j as int).skip(1) =~= b@.skip(j + 1));
                j += 1;
            }
            if n - j > 1 {
                assert(b@.skip(j as int).skip(2) =~= b@.skip(j + 2));
                i = j + 2;
            } else {
                assert(b@.skip(n as int) =~= Seq::<u8>::empty());
                assert(after_comment(b@.skip(j as int)) =~= b@.skip(n as int));
                i = n;
            }
        } else {
            let x = b[i];
            out.push(x as char);
            proof {
                assert(b@.skip(i as int).skip(1) =~= b@.skip(i + 1));
                assert(strip_bytes(b@.skip(i as int)) == seq![x] + strip_bytes(b@.skip(i + 1)));
                assert(acc + (seq![x] + strip_bytes(b@.skip(i + 1))) =~= acc.push(x) + strip_bytes(b@.skip(i + 1)));
                acc = acc.push(x);
                assert(out@ =~= latin1(acc));
            }
            i += 1;
        }
    }
    assert(strip_bytes(b@.skip(n as int)) =~= Seq::<u8>::empty()) by {
        assert(b@.skip(n as int).len() == 0);
    }
    assert(acc + Seq::<u8>::empty() =~= acc);
    out
}

/// Remove `/* ... */` comments. Each byte of the input becomes one character of the
/// result (bytes above 0x7F come out as the character with that number).
pub fn strip_comments(css: &str) -> (r: String)
    ensures
        r@ == stripped(css),
{
    let b = css.as_bytes();
    let v = strip_comment_chars(b);
    string_of(v.as_slice())
}

// ----- declarations -----

/// Last position at which `p` occurs in `s` (`str::rfind`).
pub open spec fn rfind(s: Seq<char>, p: Seq<char>) -> Option<int>
    decreases s.len(),
{
    if p.len() > s.len() {
        None
    } else if ends_with(s, p) {
        Some(s.len() - p.len())
    } else if s.len() == 0 {
        None
    } else {
        rfind(s.drop_last(), p)
    }
}

pub proof fn lemma_rfind_bounds(s: Seq<char>, p: Seq<char>)
    ensures
        rfind(s, p) matches Some(k) ==> 0 <= k && k + p.len() <= s.len(),
    decreases s.len(),
{
    if p.len() <= s.len() && !ends_with(s, p) && s.len() > 0 {
        lemma_rfind_bounds(s.drop_last(), p);
    }
}

/// The value before a trailing `!important` (any case), when there is one.
pub open spec fn strip_important(v: Seq<char>) -> Option<Seq<char>> {
    match rfind(lower(v), "!important"@) {
        Some(pos) => Some(trim_end(v.take(pos))),
        None => None,
    }
}

/// The magnitude part of a length: the value without its first matching unit suffix
/// among px, mm, cm, in, pt, em, rem, % (tried in that order).
pub open spec fn zero_magnitude(v: Seq<char>) -> Seq<char> {
    if ends_with(v, "px"@) {
        trim_end(v.take(v.len() - 2))
    } else if ends_with(v, "mm"@) {
        trim_end(v.take(v.len() - 2))
    } else if ends_with(v, "cm"@) {
        trim_end(v.take(v.len() - 2))
    } else if ends_with(v, "in"@) {
        trim_end(v.take(v.len() - 2))
    } else if ends_with(v, "pt"@) {
        trim_end(v.take(v.len() - 2))
    } else if ends_with(v, "em"@) {
        trim_end(v.take(v.len() - 2))
    } else if ends_with(v, "rem"@) {
        trim_end(v.take(v.len() - 3))
    } else if ends_with(v, "%"@) {
        trim_end(v.take(v.len() - 1))
    } else {
        v
    }
}

/// A zero-magnitude length becomes a bare "0" (e.g. "0mm" -> "0"); anything else is kept.
pub open spec fn normalize_zero(v: Seq<char>) -> Seq<char> {
    if parses_to_zero(zero_magnitude(v)) {
        "0"@
    } else {
        v
    }
}

/// One `name: value` declaration of a `.print-format` block.
pub open spec fn decl_entry(piece: Seq<char>) -> Option<(Seq<char>, Seq<char>)> {
    let decl = trim(piece);
    if decl.len() == 0 {
        None
    } else {
        match find_char(decl, ':') {
            None => None,
            Some(k) => {
                let name = lower(trim(decl.take(k)));
                let v0 = trim(decl.skip(k + 1));
                let v1 = match strip_important(v0) {
                    Some(x) => x,
                    None => v0,
                };
                if name.len() == 0 {
                    None
                } else {
                    Some((name, normalize_zero(trim(v1))))
                }
            },
        }
    }
}

pub open spec fn decl_entries(pieces: Seq<Seq<char>>) -> Seq<(Seq<char>, Seq<char>)>
    decreases pieces.len(),
{
    if pieces.len() == 0 {
        seq![]
    } else {
        let rest = decl_entries(pieces.drop_last());
        match decl_entry(pieces.last()) {
            Some(e) => rest.push(e),
            None => rest,
        }
    }
}

/// The declarations of a block, in order.
pub open spec fn parse_declarations(block: Seq<char>) -> Seq<(Seq<char>, Seq<char>)> {
    decl_entries(split_on(block, ';'))
}

/// The view of a list of string pairs.
pub open spec fn pairs_view(v: Seq<(String, String)>) -> Seq<(Seq<char>, Seq<char>)> {
    v.map_values(|p: (String, String)| (p.0@, p.1@))
}

pub fn rfind_exec(s: &[char], p: &[char]) -> (r: Option<usize>)
    requires
        p@.len() > 0,
    ensures
        match rfind(s@, p@) {
            Some(k) => r is Some && r->0 as int == k,
            None => r is None,
        },
{
    if p.len() > s.len() {
        return None;
    }
    let mut end = s.len();
    assert(s@.take(end as int) =~= s@);
    loop
        invariant
            p@.len() > 0,
            p@.len() <= end <= s@.len(),
            rfind(s@, p@) == rfind(s@.take(end as int), p@),
        decreases end,
    {
        let t = Ghost(s@.take(end as int));
        let at = end - p.len();
        if has_prefix_at(s, at, p) {
            assert(t@.skip(t@.len() - p@.len()) =~= s@.subrange(at as int, at + p@.len()));
            return Some(at);
        }
        assert(t@.skip(t@.len() - p@.len()) =~= s@.subrange(at as int, at + p@.len()));
        if end == p.len() {
            assert(rfind(t@.drop_last(), p@) is None);
            return None;
        }
        assert(t@.drop_last() =~= s@.take(end - 1));
        end -= 1;
    }
}

pub fn strip_important_exec(v: &[char]) -> (r: Option<Vec<char>>)
    ensures
        match strip_important(v@) {
            Some(x) => r is Some && r->0@ == x,
            None => r is None,
        },
{
    let low = lower_of(v);
    let pat = chars_of("!important");
    proof {
        reveal_strlit("!important");
        lemma_rfind_bounds(low@, pat@);
    }
    match rfind_exec(low.as_slice(), pat.as_slice()) {
        Some(pos) => {
            let head = copy_range(v, 0, pos);
            assert(head@ =~= v@.take(pos as int));
            assert(rfind(lower(v@), "!important"@) == Some(pos as int));
            Some(trimmed_end(head.as_slice()))
        },
        None => {
            assert(rfind(lower(v@), "!important"@) is None);
            None
        },
    }
}

fn ends_with_lit(v: &[char], lit: &str) -> (b: bool)
    ensures
        b == ends_with(v@, lit@),
{
    let l = chars_of(lit);
    has_suffix(v, l.as_slice())
}

fn zero_magnitude_exec(v: &[char]) -> (r: Vec<char>)
    ensures
        r@ == zero_magnitude(v@),
{
    let n = v.len();
    proof {
        reveal_strlit("px");
        reveal_strlit("mm");
        reveal_strlit("cm");
        reveal_strlit("in");
        reveal_strlit("pt");
        reveal_strlit("em");
        reveal_strlit("rem");
        reveal_strlit("%");
    }
    let cut: usize = if ends_with_lit(v, "px") || ends_with_lit(v, "mm") || ends_with_lit(v, "cm")
        || ends_with_lit(v, "in") || ends_with_lit(v, "pt") || ends_with_lit(v, "em") {
        2
    } else if ends_with_lit(v, "rem") {
        3
    } else if ends_with_lit(v, "%") {
        1
    } else {
        0
    };
    if cut == 0 {
        return copy_range(v, 0, n);
    }
    let head = copy_range(v, 0, n - cut);
    assert(head@ =~= v@.take(n - cut));
    trimmed_end(head.as_slice())
}

fn normalize_zero_exec(v: &[char]) -> (r: Vec<char>)
    ensures
        r@ == normalize_zero(v@),
{
    let m = zero_magnitude_exec(v);
    if is_zero_literal(m.as_slice()) {
        chars_of("0")
    } else {
        let r = copy_range(v, 0, v.len());
        assert(r@ =~= v@);
        r
    }
}

fn decl_entry_exec(piece: &[char]) -> (r: Option<(String, String)>)
    ensures
        match decl_entry(piece@) {
            Some(e) => r is Some && (r->0).0@ == e.0 && (r->0).1@ == e.1,
            None => r is None,
        },
{
    let decl = trimmed(piece);
    if decl.len() == 0 {
        return None;
    }
    let k = find_char_from(decl.as_slice(), 0, ':');
    assert(decl@.skip(0) =~= decl@);
    proof {
        lemma_find_char_props(decl@, ':');
    }
    if k == decl.len() {
        assert(find_char(decl@, ':') is None);
        return None;
    }
    let head = copy_range(decl.as_slice(), 0, k);
    assert(head@ =~= decl@.take(k as int));
    let name = lower_of(trimmed(head.as_slice()).as_slice());
    let tail = copy_range(decl.as_slice(), k + 1, decl.len());
    assert(tail@ =~= decl@.skip(k + 1));
    let v0 = trimmed(tail.as_slice());
    let v1 = match strip_important_exec(v0.as_slice()) {
        Some(x) => x,
        None => v0,
    };
    if name.len() == 0 {
        return None;
    }
    let value = normalize_zero_exec(trimmed(v1.as_slice()).as_slice());
    Some((string_of(name.as_slice()), string_of(value.as_slice())))
}

/// Append the declarations of `block` to `out`.
pub fn parse_declarations_into(block: &[char], out: &mut Vec<(String, String)>)
    ensures
        pairs_view(final(out)@) == pairs_view(old(out)@) + parse_declarations(block@),
{
    let pieces = split_chars(block, ';');
    let ghost all = split_on(block@, ';');
    let mut i: usize = 0;
    assert(all.take(0) =~= Seq::<Seq<char>>::empty());
    assert(pairs_view(out@) =~= pairs_view(old(out)@) + decl_entries(all.take(0)));
    while i < pieces.len()
        invariant
            pieces@.len() == all.len(),
            forall|k: int| 0 <= k < pieces@.len() ==> (#[trigger] pieces@[k])@ == all[k],
            all == split_on(block@, ';'),
            i <= pieces@.len(),
            pairs_view(out@) == pairs_view(old(out)@) + decl_entries(all.take(i as int)),
        decreases pieces.len() - i,
    {
        let e = decl_entry_exec(pieces[i].as_slice());
        let ghost before = out@;
        assert(all.take(i + 1).drop_last() =~= all.take(i as int));
        assert(all.take(i + 1).last() == all[i as int]);
        match e {
            Some(p) => {
                out.push(p);
                assert(pairs_view(out@) =~= pairs_view(before).push((out@.last().0@, out@.last().1@)));
            },
            None => {},
        }
        i += 1;
    }
    assert(all.take(pieces@.len() as int) =~= all);
}

/// Does any comma-separated selector of `prelude` read exactly `.print-format`?
pub open spec fn pf_selector_matches(prelude: Seq<char>) -> bool {
    exists|k: int| 0 <= k < split_on(prelude, ',').len() && trim(split_on(prelude, ',')[k]) == ".print-format"@
}

fn pf_selector_matches_exec(prelude: &[char]) -> (b: bool)
    ensures
        b == pf_selector_matches(prelude@),
{
    let parts = split_chars(prelude, ',');
    let target = chars_of(".print-format");
    let ghost all = split_on(prelude@, ',');
    let mut i: usize = 0;
    while i < parts.len()
        invariant
            parts@.len() == all.len(),
            forall|k: int| 0 <= k < parts@.len() ==> (#[trigger] parts@[k])@ == all[k],
            all == split_on(prelude@, ','),
            target@ == ".print-format"@,
            i <= parts@.len(),
            forall|k: int| 0 <= k < i ==> trim(all[k]) != ".print-format"@,
        decreases parts.len() - i,
    {
        let t = trimmed(parts[i].as_slice());
        if eq_chars(t.as_slice(), target.as_slice()) {
            return true;
        }
        i += 1;
    }
    false
}

pub fn eq_chars(a: &[char], b: &[char]) -> (r: bool)
    ensures
        r == (a@ == b@),
{
    if a.len() != b.len() {
        return false;
    }
    let mut i: usize = 0;
    while i < a.len()
        invariant
            i <= a.len(),
            a@.len() == b@.len(),
            forall|j: int| 0 <= j < i ==> a@[j] == b@[j],
        decreases a.len() - i,
    {
        if a[i] != b[i] {
            assert(a@[i as int] != b@[i as int]);
            return false;
        }
        i += 1;
    }
    assert(a@ =~= b@);
    true
}

// ----- the rule scanner -----

/// Position just past the block that opened before `j` with nesting `depth`, or the
/// end of the text when the block is never closed.
pub open spec fn close_scan(c: Seq<char>, j: int, depth: int) -> int
    decreases c.len() - j,
{
    if j >= c.len() || depth <= 0 || j < 0 {
        j
    } else {
        let d2 = if c[j] == '{' {
            depth + 1
        } else if c[j] == '}' {
            depth - 1
        } else {
            depth
        };
        close_scan(c, j + 1, d2)
    }
}

/// The block opened at `i` and ending before `j` can be cut out of the text: it is
/// not empty-at-end (`j > i + 1`), and its last character read is one byte wide, so
/// that cutting one byte off the end stays on a character boundary.
pub open spec fn block_cut_ok(c: Seq<char>, i: int, j: int) -> bool {
    j > i + 1 && (c[j - 1] as u32) < 128
}

pub proof fn lemma_close_scan(c: Seq<char>, j: int, depth: int)
    requires
        0 <= j <= c.len(),
    ensures
        j <= close_scan(c, j, depth) <= c.len(),
        depth > 0 && j < c.len() ==> close_scan(c, j, depth) > j,
    decreases c.len() - j,
{
    if j < c.len() && depth > 0 {
        let d2 = if c[j] == '{' {
            depth + 1
        } else if c[j] == '}' {
            depth - 1
        } else {
            depth
        };
        lemma_close_scan(c, j + 1, d2);
    }
}

/// Append two optional lists (`None` absorbs).
pub open spec fn opt_cat<T>(a: Seq<T>, o: Option<Seq<T>>) -> Option<Seq<T>> {
    match o {
        Some(x) => Some(a + x),
        None => None,
    }
}

/// The `.print-format` declarations found scanning `c` from `i`, with the current
/// rule prelude starting at `start`. `None` where a `{` is the last character read at
/// top level (its block would be the empty range past the end).
pub open spec fn pf_scan(c: Seq<char>, i: int, start: int) -> Option<Seq<(Seq<char>, Seq<char>)>>
    decreases c.len() - i,
{
    if i >= c.len() || i < 0 {
        Some(seq![])
    } else if c[i] == ';' {
        pf_scan(c, i + 1, i + 1)
    } else if c[i] == '{' {
        let j = close_scan(c, i + 1, 1);
        proof {
            lemma_close_scan(c, i + 1, 1);
        }
        if !block_cut_ok(c, i, j) {
            None
        } else {
            let prelude = trim(c.subrange(start, i));
            let decls = if !starts_with(prelude, "@"@) && pf_selector_matches(prelude) {
                parse_declarations(c.subrange(i + 1, j - 1))
            } else {
                seq![]
            };
            opt_cat(decls, pf_scan(c, j, j))
        }
    } else {
        pf_scan(c, i + 1, start)
    }
}

/// The `.print-format` declarations of a stylesheet, or `None` where the scan would
/// slice past the end of the text.
pub open spec fn print_format_spec(stylesheet: &str) -> Option<Seq<(Seq<char>, Seq<char>)>> {
    pf_scan(stripped(stylesheet), 0, 0)
}

fn starts_with_at(c: &[char], lo: usize, hi: usize) -> (b: bool)
    requires
        lo <= hi <= c@.len(),
    ensures
        b == starts_with(c@.subrange(lo as int, hi as int), "@"@),
{
    proof {
        reveal_strlit("@");
    }
    let r = lo < hi && c[lo] == '@';
    proof {
        let t = c@.subrange(lo as int, hi as int);
        if lo < hi {
            assert(t.take(1)[0] == c@[lo as int]);
            if c@[lo as int] == '@' {
                assert(t.take(1) =~= "@"@);
            }
        }
    }
    r
}

fn pf_scan_exec(c: &[char]) -> (r: Option<Vec<(String, String)>>)
    ensures
        match pf_scan(c@, 0, 0) {
            Some(x) => r is Some && pairs_view(r->0@) == x,
            None => r is None,
        },
{
    let n = c.len();
    let mut out: Vec<(String, String)> = Vec::new();
    let mut i: usize = 0;
    let mut start: usize = 0;
    assert(pf_scan(c@, 0, 0) == opt_cat(pairs_view(out@), pf_scan(c@, 0, 0))) by {
        assert(pairs_view(out@) =~= Seq::<(Seq<char>, Seq<char>)>::empty());
        match pf_scan(c@, 0, 0) {
            Some(x) => {
                assert(pairs_view(out@) + x =~= x);
            },
            None => {},
        }
    }
    while i < n
        invariant
            n == c@.len(),
            start <= i <= n,
            pf_scan(c@, 0, 0) == opt_cat(pairs_view(out@), pf_scan(c@, i as int, start as int)),
        decreases n - i,
    {
        if c[i] == ';' {
            start = i + 1;
            i += 1;
        } else if c[i] == '{' {
            let block_start = i + 1;
            let mut depth: usize = 1;
            let mut j = block_start;
            while j < n && depth > 0
                invariant
                    n == c@.len(),
                    block_start <= j <= n,
                    block_start >= 1,
                    depth <= j - block_start + 1,
                    close_scan(c@, block_start as int, 1) == close_scan(c@, j as int, depth as int),
                decreases n - j,
            {
                if c[j] == '{' {
                    depth += 1;
                } else if c[j] == '}' {
                    depth -= 1;
                }
                j += 1;
            }
            proof {
                lemma_close_scan(c@, block_start as int, 1);
            }
            if j <= block_start || (c[j - 1] as u32) >= 128 {
                return None;
            }
            let (pa, pb) = trim_bounds(c, start, i);
            let is_at = starts_with_at(c, pa, pb);
            let prelude = copy_range(c, pa, pb);
            let ghost before = pairs_view(out@);
            if !is_at && pf_selector_matches_exec(prelude.as_slice()) {
                let block = copy_range(c, block_start, j - 1);
                parse_declarations_into(block.as_slice(), &mut out);
            } else {
                assert(pairs_view(out@) =~= before + Seq::<(Seq<char>, Seq<char>)>::empty());
            }
            proof {
                match pf_scan(c@, j as int, j as int) {
                    Some(x) => {
                        assert(before + (pairs_view(out@).skip(before.len() as int) + x) =~= pairs_view(out@) + x);
                        assert(pairs_view(out@).skip(before.len() as int) =~= (if !starts_with(trim(c@.subrange(start as int, i as int)), "@"@) && pf_selector_matches(trim(c@.subrange(start as int, i as int))) {
                            parse_declarations(c@.subrange(i + 1, j - 1))
                        } else {
                            seq![]
                        }));
                    },
                    None => {},
                }
            }
            i = j;
            start = j;
        } else {
            i += 1;
        }
    }
    assert(pairs_view(out@) + Seq::<(Seq<char>, Seq<char>)>::empty() =~= pairs_view(out@));
    Some(out)
}

/// The (property-name, value) pairs declared on `.print-format` rules, in order, or
/// `None` where a block cannot be cut out of the text (see `block_cut_ok`).
pub fn try_print_format_declarations(stylesheet: &str) -> (r: Option<Vec<(String, String)>>)
    ensures
        match print_format_spec(stylesheet) {
            Some(x) => r is Some && pairs_view(r->0@) == x,
            None => r is None,
        },
{
    let b = stylesheet.as_bytes();
    let c = strip_comment_chars(b);
    pf_scan_exec(c.as_slice())
}

/// Return (property-name, value) pairs declared on `.print-format` rules, in order.
pub fn print_format_declarations(stylesheet: &str) -> (r: Vec<(String, String)>)
    requires
        print_format_spec(stylesheet) is Some,
    ensures
        pairs_view(r@) == print_format_spec(stylesheet)->0,
{
    match try_print_format_declarations(stylesheet) {
        Some(v) => v,
        None => Vec::new(),
    }
}

} // verus!
