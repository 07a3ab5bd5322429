//! Character-level text primitives shared by the CSS, selector and path code.
//!
//! Text is handled as `Seq<char>` in specifications and `Vec<char>` in code; the
//! helpers here follow the `str` operations of std (`trim`, `split`, `split_whitespace`,
//! `to_ascii_lowercase`, `strip_prefix`, ...) with their documented meaning.
use vstd::prelude::*;

verus! {

broadcast use vstd::string::axiom_spec_iter;

/// Unicode `White_Space`, the property that `char::is_whitespace` tests and that
/// `str::trim` and `str::split_whitespace` use.
pub open spec fn is_ws(c: char) -> bool {
    ||| c == '\t'
    ||| c == '\n'
    ||| c == '\u{0B}'
    ||| c == '\u{0C}'
    ||| c == '\r'
    ||| c == ' '
    ||| c == '\u{85}'
    ||| c == '\u{A0}'
    ||| c == '\u{1680}'
    ||| ('\u{2000}' <= c && c <= '\u{200A}')
    ||| c == '\u{2028}'
    ||| c == '\u{2029}'
    ||| c == '\u{202F}'
    ||| c == '\u{205F}'
    ||| c == '\u{3000}'
}

pub fn is_whitespace(c: char) -> (b: bool)
    ensures
        b == is_ws(c),
{
    c == '\t' || c == '\n' || c == '\u{0B}' || c == '\u{0C}' || c == '\r' || c == ' ' || c == '\u{85}'
        || c == '\u{A0}' || c == '\u{1680}' || ('\u{2000}' <= c && c <= '\u{200A}') || c == '\u{2028}'
        || c == '\u{2029}' || c == '\u{202F}' || c == '\u{205F}' || c == '\u{3000}'
}

pub open spec fn is_digit(c: char) -> bool {
    '0' <= c && c <= '9'
}

/// ASCII lower-casing of one character (`char::to_ascii_lowercase`).
pub open spec fn lower_char(c: char) -> char {
    if 'A' <= c && c <= 'Z' {
        ((c as u32) + 32) as char
    } else {
        c
    }
}

pub open spec fn lower(s: Seq<char>) -> Seq<char> {
    Seq::new(s.len(), |i: int| lower_char(s[i]))
}

pub fn lower_char_exec(c: char) -> (r: char)
    ensures
        r == lower_char(c),
{
    if 'A' <= c && c <= 'Z' {
        let u: u32 = (c as u32) + 32;
        assert(0x61 <= u <= 0x7A);
        char_from_ascii(u)
    } else {
        c
    }
}

fn char_from_ascii(u: u32) -> (c: char)
    requires
        u < 128,
    ensures
        c == u as char,
{
    let b: u8 = u as u8;
    b as char
}

pub fn lower_of(s: &[char]) -> (r: Vec<char>)
    ensures
        r@ == lower(s@),
{
    let mut r: Vec<char> = Vec::new();
    let mut i: usize = 0;
    while i < s.len()
        invariant
            i <= s.len(),
            r@ == lower(s@.take(i as int)),
        decreases s.len() - i,
    {
        r.push(lower_char_exec(s[i]));
        i += 1;
        assert(r@ =~= lower(s@.take(i as int)));
    }
    assert(s@.take(s@.len() as int) =~= s@);
    r
}

/// The characters of `s`, in order.
pub fn chars_of(s: &str) -> (r: Vec<char>)
    ensures
        r@ == s@,
{
    let mut r: Vec<char> = Vec::new();
    for c in it: s.chars()
        invariant
            r@ == it.seq().take(it.index() as int),
            it.seq() == s@,
    {
        r.push(c);
    }
    r
}

/// Collect characters into a `String` (`FromIterator<char>` for `String`).
#[verifier::external_body]
pub(crate) fn string_of(v: &[char]) -> (s: String)
    ensures
        s@ == v@,
{
    v.iter().collect()
}

pub fn copy_range(s: &[char], lo: usize, hi: usize) -> (r: Vec<char>)
    requires
        lo <= hi <= s@.len(),
    ensures
        r@ == s@.subrange(lo as int, hi as int),
{
    let mut r: Vec<char> = Vec::new();
    let mut i = lo;
    while i < hi
        invariant
            lo <= i <= hi,
            hi <= s@.len(),
            r@ == s@.subrange(lo as int, i as int),
        decreases hi - i,
    {
        r.push(s[i]);
        i += 1;
        assert(r@ =~= s@.subrange(lo as int, i as int));
    }
    r
}

pub fn append_chars(r: &mut Vec<char>, s: &[char])
    ensures
        final(r)@ == old(r)@ + s@,
{
    let mut i: usize = 0;
    while i < s.len()
        invariant
            i <= s.len(),
            r@ == old(r)@ + s@.take(i as int),
        decreases s.len() - i,
    {
        r.push(s[i]);
        i += 1;
        assert(r@ =~= old(r)@ + s@.take(i as int));
    }
    assert(s@.take(s@.len() as int) =~= s@);
}

/// Number of leading whitespace characters.
pub open spec fn lead_ws(s: Seq<char>) -> nat
    decreases s.len(),
{
    if s.len() > 0 && is_ws(s[0]) {
        1 + lead_ws(s.skip(1))
    } else {
        0
    }
}

/// Number of trailing whitespace characters.
pub open spec fn trail_ws(s: Seq<char>) -> nat
    decreases s.len(),
{
    if s.len() > 0 && is_ws(s.last()) {
        1 + trail_ws(s.drop_last())
    } else {
        0
    }
}

/// `str::trim_start`.
pub open spec fn trim_start(s: Seq<char>) -> Seq<char> {
    s.skip(lead_ws(s) as int)
}

/// `str::trim_end`.
pub open spec fn trim_end(s: Seq<char>) -> Seq<char> {
    s.take(s.len() - trail_ws(s))
}

/// `str::trim`.
pub open spec fn trim(s: Seq<char>) -> Seq<char> {
    trim_end(trim_start(s))
}

pub proof fn lemma_lead_ws(s: Seq<char>, k: int)
    requires
        0 <= k <= s.len(),
        forall|j: int| 0 <= j < k ==> is_ws(#[trigger] s[j]),
        k == s.len() || !is_ws(s[k]),
    ensures
        lead_ws(s) == k,
    decreases k,
{
    if k > 0 {
        lemma_lead_ws(s.skip(1), k - 1);
    }
}

pub proof fn lemma_trail_ws(s: Seq<char>, k: int)
    requires
        0 <= k <= s.len(),
        forall|j: int| s.len() - k <= j < s.len() ==> is_ws(#[trigger] s[j]),
        k == s.len() || !is_ws(s[s.len() - k - 1]),
    ensures
        trail_ws(s) == k,
    decreases k,
{
    if k > 0 {
        lemma_trail_ws(s.drop_last(), k - 1);
    }
}

pub proof fn lemma_lead_ws_bound(s: Seq<char>)
    ensures
        lead_ws(s) <= s.len(),
    decreases s.len(),
{
    if s.len() > 0 && is_ws(s[0]) {
        lemma_lead_ws_bound(s.skip(1));
    }
}

pub proof fn lemma_trail_ws_bound(s: Seq<char>)
    ensures
        trail_ws(s) <= s.len(),
    decreases s.len(),
{
    if s.len() > 0 && is_ws(s.last()) {
        lemma_trail_ws_bound(s.drop_last());
    }
}

/// Index of the first non-whitespace character of `s[lo..hi]` (or `hi`).
fn skip_ws_fwd(s: &[char], lo: usize, hi: usize) -> (k: usize)
    requires
        lo <= hi <= s@.len(),
    ensures
        lo <= k <= hi,
        k - lo == lead_ws(s@.subrange(lo as int, hi as int)),
{
    let mut k = lo;
    while k < hi && is_whitespace(s[k])
        invariant
            lo <= k <= hi,
            hi <= s@.len(),
            forall|j: int| lo <= j < k ==> is_ws(#[trigger] s@[j]),
        decreases hi - k,
    {
        k += 1;
    }
    proof {
        let t = s@.subrange(lo as int, hi as int);
        assert forall|j: int| 0 <= j < k - lo implies is_ws(#[trigger] t[j]) by {
            assert(t[j] == s@[lo + j]);
        }
        lemma_lead_ws(t, k - lo);
    }
    k
}

/// Index one past the last non-whitespace character of `s[lo..hi]` (or `lo`).
fn skip_ws_back(s: &[char], lo: usize, hi: usize) -> (k: usize)
    requires
        lo <= hi <= s@.len(),
    ensures
        lo <= k <= hi,
        hi - k == trail_ws(s@.subrange(lo as int, hi as int)),
{
    let mut k = hi;
    while k > lo && is_whitespace(s[k - 1])
        invariant
            lo <= k <= hi,
            hi <= s@.len(),
            forall|j: int| k <= j < hi ==> is_ws(#[trigger] s@[j]),
        decreases k - lo,
    {
        k -= 1;
    }
    proof {
        let t = s@.subrange(lo as int, hi as int);
        assert forall|j: int| t.len() - (hi - k) <= j < t.len() implies is_ws(#[trigger] t[j]) by {
            assert(t[j] == s@[lo + j]);
        }
        if k > lo {
            assert(t[t.len() - (hi - k) - 1] == s@[k - 1]);
        }
        lemma_trail_ws(t, hi - k);
    }
    k
}

/// Bounds `(a, b)` such that `s[a..b]` is `trim(s[lo..hi])`.
pub fn trim_bounds(s: &[char], lo: usize, hi: usize) -> (r: (usize, usize))
    requires
        lo <= hi <= s@.len(),
    ensures
        lo <= r.0 <= r.1 <= hi,
        s@.subrange(r.0 as int, r.1 as int) == trim(s@.subrange(lo as int, hi as int)),
{
    let a = skip_ws_fwd(s, lo, hi);
    let b = skip_ws_back(s, a, hi);
    proof {
        let t = s@.subrange(lo as int, hi as int);
        assert(trim_start(t) =~= s@.subrange(a as int, hi as int));
        let u = s@.subrange(a as int, hi as int);
        lemma_trail_ws_bound(u);
        assert(trim_end(u) =~= s@.subrange(a as int, b as int));
    }
    (a, b)
}

/// `trim` of a whole slice, copied.
pub fn trimmed(s: &[char]) -> (r: Vec<char>)
    ensures
        r@ == trim(s@),
{
    let (a, b) = trim_bounds(s, 0, s.len());
    assert(s@.subrange(0, s@.len() as int) =~= s@);
    copy_range(s, a, b)
}

/// `trim_end` of a whole slice, copied.
pub fn trimmed_end(s: &[char]) -> (r: Vec<char>)
    ensures
        r@ == trim_end(s@),
{
    let b = skip_ws_back(s, 0, s.len());
    assert(s@.subrange(0, s@.len() as int) =~= s@);
    proof {
        lemma_trail_ws_bound(s@);
    }
    let r = copy_range(s, 0, b);
    assert(r@ =~= trim_end(s@));
    r
}

/// `trim_start` of a whole slice, copied.
pub fn trimmed_start(s: &[char]) -> (r: Vec<char>)
    ensures
        r@ == trim_start(s@),
{
    let a = skip_ws_fwd(s, 0, s.len());
    assert(s@.subrange(0, s@.len() as int) =~= s@);
    let r = copy_range(s, a, s.len());
    assert(r@ =~= trim_start(s@));
    r
}

/// Does `s` start with `p`?
pub open spec fn starts_with(s: Seq<char>, p: Seq<char>) -> bool {
    p.len() <= s.len() && s.take(p.len() as int) == p
}

/// Does `s` end with `p`?
pub open spec fn ends_with(s: Seq<char>, p: Seq<char>) -> bool {
    p.len() <= s.len() && s.skip(s.len() - p.len()) == p
}

/// Does `p` occur in `s` at position `i`?
pub open spec fn occurs_at(s: Seq<char>, p: Seq<char>, i: int) -> bool {
    0 <= i && i + p.len() <= s.len() && s.subrange(i, i + p.len() as int) == p
}

/// `str::contains` with a string pattern.
pub open spec fn contains(s: Seq<char>, p: Seq<char>) -> bool {
    exists|i: int| occurs_at(s, p, i)
}

pub fn has_prefix_at(s: &[char], at: usize, p: &[char]) -> (b: bool)
    requires
        at <= s@.len(),
    ensures
        b == starts_with(s@.skip(at as int), p@),
        b == occurs_at(s@, p@, at as int),
{
    if p.len() > s.len() - at {
        return false;
    }
    let mut i: usize = 0;
    while i < p.len()
        invariant
            i <= p.len(),
            at + p.len() <= s.len(),
            forall|j: int| 0 <= j < i ==> s@[at + j] == p@[j],
        decreases p.len() - i,
    {
        if s[at + i] != p[i] {
            assert(s@.skip(at as int).take(p@.len() as int)[i as int] != p@[i as int]);
            assert(s@.subrange(at as int, at + p@.len())[i as int] != p@[i as int]);
            return false;
        }
        i += 1;
    }
    assert(s@.skip(at as int).take(p@.len() as int) =~= p@);
    assert(s@.subrange(at as int, at + p@.len()) =~= p@);
    true
}

pub fn has_prefix(s: &[char], p: &[char]) -> (b: bool)
    ensures
        b == starts_with(s@, p@),
{
    assert(s@.skip(0) =~= s@);
    has_prefix_at(s, 0, p)
}

pub fn has_suffix(s: &[char], p: &[char]) -> (b: bool)
    ensures
        b == ends_with(s@, p@),
{
    if p.len() > s.len() {
        return false;
    }
    let r = has_prefix_at(s, s.len() - p.len(), p);
    assert(s@.skip(s@.len() - p@.len()).take(p@.len() as int) =~= s@.skip(s@.len() - p@.len()));
    r
}

/// `str::contains` with a string pattern.
pub fn contains_exec(s: &[char], p: &[char]) -> (b: bool)
    ensures
        b == contains(s@, p@),
{
    if p.len() > s.len() {
        proof {
            assert forall|i: int| !occurs_at(s@, p@, i) by {}
        }
        return false;
    }
    let mut i: usize = 0;
    let last = s.len() - p.len();
    loop
        invariant
            p.len() <= s.len(),
            last == s.len() - p.len(),
            i <= last,
            forall|j: int| 0 <= j < i ==> !occurs_at(s@, p@, j),
        decreases last - i,
    {
        if has_prefix_at(s, i, p) {
            return true;
        }
        if i == last {
            proof {
                assert forall|j: int| !occurs_at(s@, p@, j) by {
                    if 0 <= j && j < i {
                    }
                }
            }
            return false;
        }
        i += 1;
    }
}

/// First position at which `p` occurs in `s` (`str::find` with a string pattern).
pub open spec fn find_sub(s: Seq<char>, p: Seq<char>) -> Option<int>
    decreases s.len(),
{
    if p.len() > s.len() {
        None
    } else if starts_with(s, p) {
        Some(0)
    } else if s.len() == 0 {
        None
    } else {
        match find_sub(s.skip(1), p) {
            Some(i) => Some(i + 1),
            None => None,
        }
    }
}

pub proof fn lemma_find_sub(s: Seq<char>, p: Seq<char>)
    ensures
        find_sub(s, p) matches Some(k) ==> occurs_at(s, p, k) && forall|j: int| 0 <= j < k ==> !occurs_at(s, p, j),
        find_sub(s, p) is None ==> forall|j: int| !occurs_at(s, p, j),
    decreases s.len(),
{
    if p.len() > s.len() {
    } else if starts_with(s, p) {
        assert(s.subrange(0, p.len() as int) =~= s.take(p.len() as int));
    } else if s.len() == 0 {
        assert forall|j: int| !occurs_at(s, p, j) by {
            if occurs_at(s, p, j) {
                assert(s.subrange(0, p.len() as int) =~= s.take(p.len() as int));
            }
        }
    } else {
        let t = s.skip(1);
        lemma_find_sub(t, p);
        assert(!occurs_at(s, p, 0)) by {
            if occurs_at(s, p, 0) {
                assert(s.subrange(0, p.len() as int) =~= s.take(p.len() as int));
            }
        }
        assert forall|j: int| 1 <= j implies occurs_at(s, p, j) == occurs_at(t, p, j - 1) by {
            if j + p.len() <= s.len() {
                assert(s.subrange(j, j + p.len()) =~= t.subrange(j - 1, j - 1 + p.len()));
            }
        }
        match find_sub(t, p) {
            Some(k) => {
                assert forall|j: int| 0 <= j < k + 1 implies !occurs_at(s, p, j) by {
                    if j >= 1 {
                        assert(occurs_at(s, p, j) == occurs_at(t, p, j - 1));
                    }
                }
                assert(occurs_at(s, p, k + 1) == occurs_at(t, p, k));
            },
            None => {
                assert forall|j: int| !occurs_at(s, p, j) by {
                    if j >= 1 {
                        assert(occurs_at(s, p, j) == occurs_at(t, p, j - 1));
                    }
                }
            },
        }
    }
}

/// First position at which `p` occurs in `s`.
pub fn find_sub_exec(s: &[char], p: &[char]) -> (r: Option<usize>)
    ensures
        match find_sub(s@, p@) {
            Some(k) => r is Some && r->0 as int == k,
            None => r is None,
        },
{
    proof {
        lemma_find_sub(s@, p@);
    }
    if p.len() > s.len() {
        return None;
    }
    let last = s.len() - p.len();
    let mut i: usize = 0;
    loop
        invariant
            p.len() <= s.len(),
            last == s.len() - p.len(),
            i <= last,
            forall|j: int| 0 <= j < i ==> !occurs_at(s@, p@, j),
        decreases last - i,
    {
        if has_prefix_at(s, i, p) {
            proof {
                lemma_find_sub(s@, p@);
                match find_sub(s@, p@) {
                    Some(k) => {
                        assert(k <= i);
                        assert(k >= i);
                    },
                    None => {},
                }
            }
            return Some(i);
        }
        if i == last {
            proof {
                lemma_find_sub(s@, p@);
                match find_sub(s@, p@) {
                    Some(k) => {
                        assert(occurs_at(s@, p@, k));
                        assert(k <= i);
                    },
                    None => {},
                }
            }
            return None;
        }
        i += 1;
    }
}

/// First index of `c` in `s`, as `str::find` with a `char` pattern.
pub open spec fn find_char(s: Seq<char>, c: char) -> Option<int>
    decreases s.len(),
{
    if s.len() == 0 {
        None
    } else if s[0] == c {
        Some(0)
    } else {
        match find_char(s.skip(1), c) {
            Some(i) => Some(i + 1),
            None => None,
        }
    }
}

pub proof fn lemma_find_char(s: Seq<char>, c: char, k: int)
    requires
        0 <= k <= s.len(),
        forall|j: int| 0 <= j < k ==> s[j] != c,
    ensures
        k < s.len() && s[k] == c ==> find_char(s, c) == Some(k),
        k == s.len() ==> find_char(s, c) is None,
    decreases k,
{
    if k > 0 {
        lemma_find_char(s.skip(1), c, k - 1);
    }
}

pub proof fn lemma_find_char_props(s: Seq<char>, c: char)
    ensures
        match find_char(s, c) {
            Some(i) => 0 <= i < s.len() && s[i] == c && forall|j: int| 0 <= j < i ==> s[j] != c,
            None => forall|j: int| 0 <= j < s.len() ==> s[j] != c,
        },
    decreases s.len(),
{
    if s.len() > 0 && s[0] != c {
        lemma_find_char_props(s.skip(1), c);
        match find_char(s.skip(1), c) {
            Some(i) => {
                assert forall|j: int| 0 <= j < i + 1 implies s[j] != c by {
                    if j > 0 {
                        assert(s[j] == s.skip(1)[j - 1]);
                    }
                }
            },
            None => {
                assert forall|j: int| 0 <= j < s.len() implies s[j] != c by {
                    if j > 0 {
                        assert(s[j] == s.skip(1)[j - 1]);
                    }
                }
            },
        }
    }
}

/// First index of `c` in `s[lo..]` (absolute), or `s.len()`.
pub fn find_char_from(s: &[char], lo: usize, c: char) -> (k: usize)
    requires
        lo <= s@.len(),
    ensures
        lo <= k <= s@.len(),
        forall|j: int| lo <= j < k ==> s@[j] != c,
        k < s@.len() ==> s@[k as int] == c,
        match find_char(s@.skip(lo as int), c) {
            Some(i) => k == lo + i,
            None => k == s@.len(),
        },
{
    let mut k = lo;
    while k < s.len() && s[k] != c
        invariant
            lo <= k <= s.len(),
            forall|j: int| lo <= j < k ==> s@[j] != c,
        decreases s.len() - k,
    {
        k += 1;
    }
    proof {
        let t = s@.skip(lo as int);
        assert forall|j: int| 0 <= j < k - lo implies t[j] != c by {
            assert(t[j] == s@[lo + j]);
        }
        lemma_find_char(t, c, k - lo);
    }
    k
}

/// `str::split` on a single character: the pieces between occurrences of `sep`.
pub open spec fn split_on(s: Seq<char>, sep: char) -> Seq<Seq<char>>
    decreases s.len(),
{
    match find_char(s, sep) {
        Some(i) => {
            if 0 <= i < s.len() {
                seq![s.take(i)] + split_on(s.skip(i + 1), sep)
            } else {
                seq![s]
            }
        },
        None => seq![s],
    }
}

pub fn split_chars(s: &[char], sep: char) -> (r: Vec<Vec<char>>)
    ensures
        r@.len() == split_on(s@, sep).len(),
        forall|i: int| 0 <= i < r@.len() ==> (#[trigger] r@[i])@ == split_on(s@, sep)[i],
{
    let mut r: Vec<Vec<char>> = Vec::new();
    let mut start: usize = 0;
    let ghost mut done: Seq<Seq<char>> = seq![];
    assert(s@.skip(0) =~= s@);
    assert(done + split_on(s@, sep) =~= split_on(s@, sep));
    loop
        invariant
            start <= s.len(),
            r@.len() == done.len(),
            forall|i: int| 0 <= i < r@.len() ==> (#[trigger] r@[i])@ == done[i],
            split_on(s@, sep) == done + split_on(s@.skip(start as int), sep),
        decreases s.len() - start,
    {
        let k = find_char_from(s, start, sep);
        let piece = copy_range(s, start, k);
        proof {
            let t = s@.skip(start as int);
            lemma_find_char_props(t, sep);
            assert(t.take(k - start) =~= piece@);
        }
        if k == s.len() {
            proof {
                assert(split_on(s@.skip(start as int), sep) =~= seq![piece@]);
                done = done.push(piece@);
            }
            r.push(piece);
            assert(split_on(s@, sep) =~= done);
            return r;
        }
        proof {
            let t = s@.skip(start as int);
            assert(t.skip(k - start + 1) =~= s@.skip(k + 1));
            assert(split_on(t, sep) == seq![piece@] + split_on(s@.skip(k + 1), sep));
            assert(done + split_on(t, sep) =~= done.push(piece@) + split_on(s@.skip(k + 1), sep));
            done = done.push(piece@);
        }
        r.push(piece);
        start = k + 1;
    }
}


pub proof fn lemma_lead_ws_stop(s: Seq<char>)
    ensures
        lead_ws(s) < s.len() ==> !is_ws(s[lead_ws(s) as int]),
    decreases s.len(),
{
    if s.len() > 0 && is_ws(s[0]) {
        lemma_lead_ws_stop(s.skip(1));
        if lead_ws(s) < s.len() {
            assert(s[lead_ws(s) as int] == s.skip(1)[lead_ws(s.skip(1)) as int]);
        }
    }
}

/// Number of leading non-whitespace characters.
pub open spec fn word_len(s: Seq<char>) -> nat
    decreases s.len(),
{
    if s.len() > 0 && !is_ws(s[0]) {
        1 + word_len(s.skip(1))
    } else {
        0
    }
}

pub proof fn lemma_word_len(s: Seq<char>, k: int)
    requires
        0 <= k <= s.len(),
        forall|j: int| 0 <= j < k ==> !is_ws(#[trigger] s[j]),
        k == s.len() || is_ws(s[k]),
    ensures
        word_len(s) == k,
    decreases k,
{
    if k > 0 {
        lemma_word_len(s.skip(1), k - 1);
    }
}

/// `str::split_whitespace`: the maximal runs of non-whitespace characters.
pub open spec fn split_ws(s: Seq<char>) -> Seq<Seq<char>>
    decreases s.len(),
{
    let t = trim_start(s);
    if t.len() == 0 || t.len() > s.len() {
        seq![]
    } else {
        let k = word_len(t);
        if k == 0 || k > t.len() {
            seq![]
        } else {
            seq![t.take(k as int)] + split_ws(t.skip(k as int))
        }
    }
}

pub fn split_whitespace(s: &[char]) -> (r: Vec<Vec<char>>)
    ensures
        r@.len() == split_ws(s@).len(),
        forall|i: int| 0 <= i < r@.len() ==> (#[trigger] r@[i])@ == split_ws(s@)[i],
{
    let mut r: Vec<Vec<char>> = Vec::new();
    let mut i: usize = 0;
    let ghost mut done: Seq<Seq<char>> = seq![];
    assert(s@.skip(0) =~= s@);
    assert(done + split_ws(s@) =~= split_ws(s@));
    loop
        invariant
            i <= s.len(),
            r@.len() == done.len(),
            forall|k: int| 0 <= k < r@.len() ==> (#[trigger] r@[k])@ == done[k],
            split_ws(s@) == done + split_ws(s@.skip(i as int)),
        decreases s.len() - i,
    {
        let a = skip_ws_fwd(s, i, s.len());
        proof {
            assert(s@.subrange(i as int, s@.len() as int) =~= s@.skip(i as int));
            lemma_lead_ws_bound(s@.skip(i as int));
            lemma_lead_ws_stop(s@.skip(i as int));
            assert(trim_start(s@.skip(i as int)) =~= s@.skip(a as int));
            if a < s.len() {
                assert(s@.skip(i as int)[a - i] == s@[a as int]);
            }
        }
        if a == s.len() {
            assert(split_ws(s@.skip(i as int)) =~= Seq::<Seq<char>>::empty());
            assert(done + Seq::<Seq<char>>::empty() =~= done);
            return r;
        }
        let mut b = a;
        while b < s.len() && !is_whitespace(s[b])
            invariant
                a <= b <= s.len(),
                forall|j: int| a <= j < b ==> !is_ws(#[trigger] s@[j]),
            decreases s.len() - b,
        {
            b += 1;
        }
        let word = copy_range(s, a, b);
        proof {
            let t = s@.skip(a as int);
            assert forall|j: int| 0 <= j < b - a implies !is_ws(#[trigger] t[j]) by {
                assert(t[j] == s@[a + j]);
            }
            if b < s.len() {
                assert(t[b - a] == s@[b as int]);
            }
            lemma_word_len(t, b - a);
            assert(t[0] == s@[a as int]);
            assert(b > a);
            assert(t.take(b - a) =~= word@);
            assert(t.skip(b - a) =~= s@.skip(b as int));
            assert(split_ws(s@.skip(i as int)) == seq![word@] + split_ws(s@.skip(b as int)));
            assert(done + (seq![word@] + split_ws(s@.skip(b as int))) =~= done.push(word@) + split_ws(s@.skip(b as int)));
            done = done.push(word@);
        }
        r.push(word);
        i = b;
    }
}

} // verus!
