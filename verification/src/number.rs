//! Decimal number literals as Rust's `f32`/`f64` `FromStr` accepts them, read as
//! exact decimals.
//!
//! Grammar (case-insensitive for `inf`, `infinity`, `nan` and `e`):
//! `Sign? ( 'inf' | 'infinity' | 'nan' | Number )`,
//! `Number ::= ( Digit+ | Digit+ '.' Digit* | Digit* '.' Digit+ ) Exp?`,
//! `Exp ::= 'e' Sign? Digit+`.
use vstd::prelude::*;

use crate::text::{chars_of, copy_range, is_digit, lower, lower_of};

verus! {

/// The syntactic reading of a number literal.
pub ghost enum FloatSyntax {
    Invalid,
    Inf { neg: bool },
    NaN,
    /// `whole.frac e (-)exp`; `exp` is empty when there is no exponent.
    Finite { neg: bool, whole: Seq<char>, frac: Seq<char>, exp_neg: bool, exp: Seq<char> },
}

/// Index just past the maximal run of ASCII digits starting at `i`.
pub open spec fn digit_run(s: Seq<char>, i: int) -> int
    decreases s.len() - i,
{
    if 0 <= i < s.len() && is_digit(s[i]) {
        digit_run(s, i + 1)
    } else {
        i
    }
}

pub open spec fn sign_len(s: Seq<char>) -> int {
    if s.len() > 0 && (s[0] == '+' || s[0] == '-') {
        1
    } else {
        0
    }
}

/// Length of the exponent sign after the `e` at `b`.
pub open spec fn exp_sign_len(s: Seq<char>, b: int) -> int {
    if b + 1 < s.len() && (s[b + 1] == '+' || s[b + 1] == '-') {
        1
    } else {
        0
    }
}

pub open spec fn float_syntax(s: Seq<char>) -> FloatSyntax {
    let sl = sign_len(s);
    let neg = sl == 1 && s[0] == '-';
    let body = lower(s.skip(sl));
    if body == "inf"@ || body == "infinity"@ {
        FloatSyntax::Inf { neg }
    } else if body == "nan"@ {
        FloatSyntax::NaN
    } else {
        let a = digit_run(s, sl);
        let has_dot = a < s.len() && s[a] == '.';
        let fb = if has_dot {
            a + 1
        } else {
            a
        };
        let b = if has_dot {
            digit_run(s, fb)
        } else {
            fb
        };
        if (a - sl) + (b - fb) == 0 {
            FloatSyntax::Invalid
        } else if b == s.len() {
            FloatSyntax::Finite {
                neg,
                whole: s.subrange(sl, a),
                frac: s.subrange(fb, b),
                exp_neg: false,
                exp: seq![],
            }
        } else if s[b] == 'e' || s[b] == 'E' {
            let esl = exp_sign_len(s, b);
            let eb = b + 1 + esl;
            let e_end = digit_run(s, eb);
            if e_end > eb && e_end == s.len() {
                FloatSyntax::Finite {
                    neg,
                    whole: s.subrange(sl, a),
                    frac: s.subrange(fb, b),
                    exp_neg: esl == 1 && s[b + 1] == '-',
                    exp: s.subrange(eb, e_end),
                }
            } else {
                FloatSyntax::Invalid
            }
        } else {
            FloatSyntax::Invalid
        }
    }
}

pub proof fn lemma_digit_run(s: Seq<char>, i: int)
    requires
        0 <= i <= s.len(),
    ensures
        i <= digit_run(s, i) <= s.len(),
        forall|j: int| i <= j < digit_run(s, i) ==> is_digit(#[trigger] s[j]),
    decreases s.len() - i,
{
    if i < s.len() && is_digit(s[i]) {
        lemma_digit_run(s, i + 1);
    }
}

/// The mantissa of a finite literal is made of digits.
pub proof fn lemma_finite_digits(s: Seq<char>)
    ensures
        float_syntax(s) matches FloatSyntax::Finite { whole, frac, .. } ==> (forall|i: int|
            0 <= i < whole.len() ==> is_digit(#[trigger] whole[i])) && (forall|i: int|
            0 <= i < frac.len() ==> is_digit(#[trigger] frac[i])),
{
    let sl = sign_len(s);
    lemma_digit_run(s, sl);
    let a = digit_run(s, sl);
    if a < s.len() && s[a] == '.' {
        lemma_digit_run(s, a + 1);
    }
    match float_syntax(s) {
        FloatSyntax::Finite { whole, frac, .. } => {
            assert forall|i: int| 0 <= i < whole.len() implies is_digit(#[trigger] whole[i]) by {
                assert(whole[i] == s[sl + i]);
            }
            assert forall|i: int| 0 <= i < frac.len() implies is_digit(#[trigger] frac[i]) by {
                assert(frac[i] == s[a + 1 + i]);
            }
        },
        _ => {},
    }
}

pub open spec fn all_zero(d: Seq<char>) -> bool {
    forall|i: int| 0 <= i < d.len() ==> d[i] == '0'
}

/// `s.parse::<f64>()` succeeds with the value zero (exactly: every mantissa digit is 0).
pub open spec fn parses_to_zero(s: Seq<char>) -> bool {
    match float_syntax(s) {
        FloatSyntax::Finite { whole, frac, .. } => all_zero(whole) && all_zero(frac),
        _ => false,
    }
}

/// Spans of a number literal found by `scan_float`.
pub struct FloatSpans {
    /// 0 invalid, 1 infinite, 2 not-a-number, 3 finite.
    pub kind: u8,
    pub neg: bool,
    pub int_lo: usize,
    pub int_hi: usize,
    pub frac_lo: usize,
    pub frac_hi: usize,
    pub exp_neg: bool,
    pub exp_lo: usize,
    pub exp_hi: usize,
}

impl FloatSpans {
    pub open spec fn matches(self, s: Seq<char>) -> bool {
        &&& self.int_lo <= self.int_hi <= s.len()
        &&& self.frac_lo <= self.frac_hi <= s.len()
        &&& self.exp_lo <= self.exp_hi <= s.len()
        &&& match float_syntax(s) {
            FloatSyntax::Invalid => self.kind == 0,
            FloatSyntax::Inf { neg } => self.kind == 1 && self.neg == neg,
            FloatSyntax::NaN => self.kind == 2,
            FloatSyntax::Finite { neg, whole, frac, exp_neg, exp } => {
                &&& self.kind == 3
                &&& self.neg == neg
                &&& s.subrange(self.int_lo as int, self.int_hi as int) == whole
                &&& s.subrange(self.frac_lo as int, self.frac_hi as int) == frac
                &&& self.exp_neg == exp_neg
                &&& s.subrange(self.exp_lo as int, self.exp_hi as int) == exp
            },
        }
    }
}

pub fn digit_run_exec(s: &[char], i: usize) -> (k: usize)
    requires
        i <= s@.len(),
    ensures
        i <= k <= s@.len(),
        k == digit_run(s@, i as int),
        forall|j: int| i <= j < k ==> is_digit(#[trigger] s@[j]),
{
    let mut k = i;
    while k < s.len() && '0' <= s[k] && s[k] <= '9'
        invariant
            i <= k <= s.len(),
            digit_run(s@, i as int) == digit_run(s@, k as int),
            forall|j: int| i <= j < k ==> is_digit(#[trigger] s@[j]),
        decreases s.len() - k,
    {
        k += 1;
    }
    k
}

fn eq_lit(s: &[char], lo: usize, lit: &str) -> (b: bool)
    requires
        lo <= s@.len(),
    ensures
        b == (lower(s@.skip(lo as int)) == lit@),
{
    let l = chars_of(lit);
    let rest = copy_range(s, lo, s.len());
    let low = lower_of(rest.as_slice());
    assert(rest@ =~= s@.skip(lo as int));
    if low.len() != l.len() {
        return false;
    }
    let mut i: usize = 0;
    while i < l.len()
        invariant
            i <= l.len(),
            low@.len() == l@.len(),
            low@ == lower(s@.skip(lo as int)),
            l@ == lit@,
            forall|j: int| 0 <= j < i ==> low@[j] == l@[j],
        decreases l.len() - i,
    {
        if low[i] != l[i] {
            assert(low@[i as int] != l@[i as int]);
            return false;
        }
        i += 1;
    }
    assert(low@ =~= l@);
    true
}

/// Read `s` by the number grammar.
pub fn scan_float(s: &[char]) -> (r: FloatSpans)
    ensures
        r.matches(s@),
{
    let sl: usize = if s.len() > 0 && (s[0] == '+' || s[0] == '-') {
        1
    } else {
        0
    };
    let neg = sl == 1 && s[0] == '-';
    let none = FloatSpans {
        kind: 0,
        neg,
        int_lo: 0,
        int_hi: 0,
        frac_lo: 0,
        frac_hi: 0,
        exp_neg: false,
        exp_lo: 0,
        exp_hi: 0,
    };
    proof {
        reveal_strlit("inf");
        reveal_strlit("infinity");
        reveal_strlit("nan");
    }
    if eq_lit(s, sl, "inf") || eq_lit(s, sl, "infinity") {
        return FloatSpans { kind: 1, ..none };
    }
    if eq_lit(s, sl, "nan") {
        return FloatSpans { kind: 2, ..none };
    }
    let a = digit_run_exec(s, sl);
    let has_dot = a < s.len() && s[a] == '.';
    let fb = if has_dot {
        a + 1
    } else {
        a
    };
    let b = if has_dot {
        digit_run_exec(s, fb)
    } else {
        fb
    };
    if (a - sl) + (b - fb) == 0 {
        return none;
    }
    if b == s.len() {
        assert(s@.subrange(b as int, b as int) =~= Seq::<char>::empty());
        return FloatSpans {
            kind: 3,
            neg,
            int_lo: sl,
            int_hi: a,
            frac_lo: fb,
            frac_hi: b,
            exp_neg: false,
            exp_lo: b,
            exp_hi: b,
        };
    }
    if s[b] == 'e' || s[b] == 'E' {
        let esl: usize = if b + 1 < s.len() && (s[b + 1] == '+' || s[b + 1] == '-') {
            1
        } else {
            0
        };
        let eb = b + 1 + esl;
        let e_end = digit_run_exec(s, eb);
        if e_end > eb && e_end == s.len() {
            return FloatSpans {
                kind: 3,
                neg,
                int_lo: sl,
                int_hi: a,
                frac_lo: fb,
                frac_hi: b,
                exp_neg: esl == 1 && s[b + 1] == '-',
                exp_lo: eb,
                exp_hi: e_end,
            };
        }
    }
    none
}

fn all_zero_range(s: &[char], lo: usize, hi: usize) -> (b: bool)
    requires
        lo <= hi <= s@.len(),
    ensures
        b == all_zero(s@.subrange(lo as int, hi as int)),
{
    let mut i = lo;
    while i < hi
        invariant
            lo <= i <= hi,
            hi <= s@.len(),
            forall|j: int| lo <= j < i ==> s@[j] == '0',
        decreases hi - i,
    {
        if s[i] != '0' {
            assert(s@.subrange(lo as int, hi as int)[i - lo] != '0');
            return false;
        }
        i += 1;
    }
    assert forall|j: int| 0 <= j < hi - lo implies s@.subrange(lo as int, hi as int)[j] == '0' by {
        assert(s@.subrange(lo as int, hi as int)[j] == s@[lo + j]);
    }
    true
}

/// Does `s` parse as a floating-point number equal to zero?
pub fn is_zero_literal(s: &[char]) -> (b: bool)
    ensures
        b == parses_to_zero(s@),
{
    let f = scan_float(s);
    if f.kind != 3 {
        return false;
    }
    all_zero_range(s, f.int_lo, f.int_hi) && all_zero_range(s, f.frac_lo, f.frac_hi)
}


// ----- exact values -----

/// Ten to the power `n`.
pub open spec fn pow10(n: nat) -> nat
    decreases n,
{
    if n == 0 {
        1
    } else {
        10 * pow10((n - 1) as nat)
    }
}

/// The value of a decimal digit character (other characters count as 0).
pub open spec fn digit_of(c: char) -> nat {
    if is_digit(c) {
        (c as int - 48) as nat
    } else {
        0
    }
}

/// The number a string of decimal digits denotes.
pub open spec fn dval(d: Seq<char>) -> nat
    decreases d.len(),
{
    if d.len() == 0 {
        0
    } else {
        dval(d.drop_last()) * 10 + digit_of(d.last())
    }
}

/// Exponents are read up to this magnitude; larger ones count as this.
pub open spec fn exp_cap() -> nat {
    10000
}

/// The saturation bound of scaled results.
pub open spec fn val_cap() -> nat {
    0x1000_0000_0000_0000
}

/// Bound on the multipliers that `scaled_floor_exec` accepts.
pub open spec fn mul_cap() -> nat {
    0x4000_0000_0000
}

pub open spec fn min_nat(a: nat, b: nat) -> nat {
    if a <= b {
        a
    } else {
        b
    }
}

/// The decimal exponent of `whole.frac e (-)exp`: the value is `dval(whole + frac) * 10^E`.
pub open spec fn dec_exponent(frac: Seq<char>, exp_neg: bool, exp: Seq<char>) -> int {
    let e = min_nat(dval(exp), exp_cap()) as int;
    (if exp_neg {
        -e
    } else {
        e
    }) - frac.len()
}

/// `floor(m * M * 10^E)`.
pub open spec fn scaled_floor(m: nat, mant: nat, e: int) -> nat {
    if e >= 0 {
        m * mant * pow10(e as nat)
    } else {
        (m * mant) / pow10((-e) as nat)
    }
}

/// Is `m * M * 10^E` a whole number?
pub open spec fn scaled_exact(m: nat, mant: nat, e: int) -> bool {
    e >= 0 || (m * mant) % pow10((-e) as nat) == 0
}

pub proof fn lemma_pow10_pos(n: nat)
    ensures
        pow10(n) >= 1,
    decreases n,
{
    if n > 0 {
        lemma_pow10_pos((n - 1) as nat);
    }
}

pub proof fn lemma_pow10_add(a: nat, b: nat)
    ensures
        pow10(a + b) == pow10(a) * pow10(b),
    decreases b,
{
    if b > 0 {
        lemma_pow10_add(a, (b - 1) as nat);
        assert(pow10(a + b) == 10 * pow10((a + b - 1) as nat));
        assert(pow10(b) == 10 * pow10((b - 1) as nat));
        assert((a + b - 1) as nat == a + (b - 1) as nat);
        let x = pow10(a);
        let y = pow10((b - 1) as nat);
        let z = pow10((a + b - 1) as nat);
        assert(z == x * y);
        assert(10 * z == x * (10 * y)) by (nonlinear_arith)
            requires
                z == x * y,
        ;
        assert(pow10(a) * pow10(b) == x * (10 * y));
    } else {
        assert(pow10(0) == 1);
        assert(a + b == a);
    }
}

pub proof fn lemma_pow10_mono(a: nat, b: nat)
    requires
        a <= b,
    ensures
        pow10(a) <= pow10(b),
    decreases b,
{
    if a < b {
        lemma_pow10_mono(a, (b - 1) as nat);
        lemma_pow10_pos((b - 1) as nat);
    }
}

pub proof fn lemma_pow10_20()
    ensures
        pow10(20) == 100_000_000_000_000_000_000,
{
    reveal_with_fuel(pow10, 21);
}

pub proof fn lemma_dval_bound(d: Seq<char>)
    ensures
        dval(d) < pow10(d.len()),
    decreases d.len(),
{
    if d.len() > 0 {
        lemma_dval_bound(d.drop_last());
        assert(digit_of(d.last()) <= 9);
    }
}

pub proof fn lemma_dval_append(a: Seq<char>, b: Seq<char>)
    ensures
        dval(a + b) == dval(a) * pow10(b.len()) + dval(b),
    decreases b.len(),
{
    if b.len() == 0 {
        assert(a + b =~= a);
        assert(pow10(0) == 1);
        assert(dval(b) == 0);
    } else {
        lemma_dval_append(a, b.drop_last());
        assert((a + b).drop_last() =~= a + b.drop_last());
        assert((a + b).last() == b.last());
        let p = pow10((b.len() - 1) as nat);
        assert(pow10(b.len()) == 10 * p);
        assert(dval(a + b) == dval((a + b).drop_last()) * 10 + digit_of((a + b).last()));
        assert(dval(b) == dval(b.drop_last()) * 10 + digit_of(b.last()));
        let da = dval(a);
        let db = dval(b.drop_last());
        let g = digit_of(b.last());
        assert(dval(a + b.drop_last()) == da * p + db);
        assert(dval(a + b) == (da * p + db) * 10 + g);
        assert((da * p + db) * 10 + g == da * (10 * p) + (db * 10 + g)) by (nonlinear_arith);
        assert(dval(a) * pow10(b.len()) == da * (10 * p));
    }
}

/// One digit in front: `dval(c + d) == digit(c) * 10^|d| + dval(d)`.
pub proof fn lemma_dval_prepend(c: char, d: Seq<char>)
    ensures
        dval(seq![c] + d) == digit_of(c) * pow10(d.len()) + dval(d),
{
    lemma_dval_append(seq![c], d);
    assert(seq![c].drop_last() =~= Seq::<char>::empty());
    assert(dval(seq![c]) == dval(seq![c].drop_last()) * 10 + digit_of(seq![c].last()));
    assert(dval(Seq::<char>::empty()) == 0);
}

proof fn lemma_min_step(x: nat, d: nat, cap: nat)
    requires
        cap > 0,
    ensures
        min_nat((min_nat(x, cap) * 10 + d) as nat, cap) == min_nat((x * 10 + d) as nat, cap),
{
}

proof fn lemma_min_mul(x: nat, m: nat, cap: nat)
    ensures
        min_nat(min_nat(x, cap) * m, cap) == min_nat(x * m, cap),
{
    if x > cap && m > 0 {
        assert(cap * m >= cap) by (nonlinear_arith)
            requires
                m > 0,
        ;
        assert(x * m >= cap * m) by (nonlinear_arith)
            requires
                x > cap,
        ;
    }
}

fn digit_exec(c: char) -> (v: u64)
    ensures
        v == digit_of(c),
        v <= 9,
{
    if '0' <= c && c <= '9' {
        (c as u64) - 48
    } else {
        0
    }
}

/// `min(dval(d[lo..hi]), cap)` with a small cap.
fn sat_dval(d: &[char], lo: usize, hi: usize, cap: u64) -> (r: u64)
    requires
        lo <= hi <= d@.len(),
        0 < cap <= val_cap(),
    ensures
        r == min_nat(dval(d@.subrange(lo as int, hi as int)), cap as nat),
{
    let mut acc: u64 = 0;
    let mut i = lo;
    assert(d@.subrange(lo as int, lo as int) =~= Seq::<char>::empty());
    while i < hi
        invariant
            lo <= i <= hi <= d@.len(),
            0 < cap <= val_cap(),
            acc == min_nat(dval(d@.subrange(lo as int, i as int)), cap as nat),
        decreases hi - i,
    {
        let dg = digit_exec(d[i]);
        let t = acc * 10 + dg;
        acc = if t < cap {
            t
        } else {
            cap
        };
        proof {
            let sub = d@.subrange(lo as int, i + 1);
            assert(sub.drop_last() =~= d@.subrange(lo as int, i as int));
            lemma_min_step(dval(d@.subrange(lo as int, i as int)), dg as nat, cap as nat);
        }
        i += 1;
    }
    acc
}

/// Right-to-left multiplication of the digits `d[lo..hi]` by `m`:
/// `m * dval(d[lo..hi]) == c * 10^(hi-lo) + low` with `low < 10^(hi-lo)`;
/// returns `c` and whether `low == 0`.
fn carry_mul(d: &[char], lo: usize, hi: usize, m: u64) -> (r: (u64, bool))
    requires
        lo <= hi <= d@.len(),
        m <= mul_cap(),
    ensures
        r.0 == (m as nat * dval(d@.subrange(lo as int, hi as int))) / pow10((hi - lo) as nat),
        r.1 == ((m as nat * dval(d@.subrange(lo as int, hi as int))) % pow10((hi - lo) as nat) == 0),
        r.0 <= m,
{
    let mut c: u64 = 0;
    let mut zero = true;
    let mut i = hi;
    let ghost mut low: nat = 0;
    assert(d@.subrange(hi as int, hi as int) =~= Seq::<char>::empty());
    assert(dval(Seq::<char>::empty()) == 0);
    assert(pow10(0) == 1);
    while i > lo
        invariant
            lo <= i <= hi <= d@.len(),
            m <= mul_cap(),
            c <= m,
            m * dval(d@.subrange(i as int, hi as int)) == c * pow10((hi - i) as nat) + low,
            low < pow10((hi - i) as nat),
            zero == (low == 0),
        decreases i - lo,
    {
        let dg = digit_exec(d[i - 1]);
        assert(m * dg <= 9 * mul_cap()) by (nonlinear_arith)
            requires
                m <= mul_cap(),
                dg <= 9,
        ;
        let t = m * dg + c;
        let nc = t / 10;
        let rd = t % 10;
        proof {
            let s_old = d@.subrange(i as int, hi as int);
            let s_new = d@.subrange(i - 1, hi as int);
            assert(s_new =~= seq![d@[i - 1]] + s_old);
            lemma_dval_prepend(d@[i - 1], s_old);
            let p = pow10((hi - i) as nat);
            assert(pow10((hi - i + 1) as nat) == 10 * p);
            let dv = dval(s_old);
            assert(m * (dg * p + dv) == (m * dg + c) * p + low - c * p + c * p) by (nonlinear_arith)
                requires
                    m * dv == c * p + low,
            ;
            assert(m * (dg * p + dv) == (m * dg + c) * p + low) by (nonlinear_arith)
                requires
                    m * dv == c * p + low,
            ;
            assert(t == nc * 10 + rd);
            assert((m * dg + c) * p + low == nc * (10 * p) + (rd * p + low)) by (nonlinear_arith)
                requires
                    t == m * dg + c,
                    t == nc * 10 + rd,
            ;
            assert(rd * p + low < 10 * p) by (nonlinear_arith)
                requires
                    rd <= 9,
                    low < p,
            ;
            assert(nc <= m) by (nonlinear_arith)
                requires
                    t == m * dg + c,
                    dg <= 9,
                    c <= m,
                    nc == t / 10,
            ;
            assert(rd * p + low == 0 <==> (rd == 0 && low == 0)) by (nonlinear_arith)
                requires
                    p >= 1,
                    low >= 0,
            ;
            lemma_pow10_pos((hi - i) as nat);
            low = (rd * p + low) as nat;
        }
        c = nc;
        zero = zero && rd == 0;
        i -= 1;
    }
    proof {
        lemma_pow10_pos((hi - lo) as nat);
        vstd::arithmetic::div_mod::lemma_fundamental_div_mod_converse(
            m * dval(d@.subrange(lo as int, hi as int)) as int,
            pow10((hi - lo) as nat) as int,
            c as int,
            low as int,
        );
    }
    (c, zero)
}

/// `10^n` for `n < 20`.
fn pow10_exec(n: u64) -> (r: u64)
    requires
        n < 20,
    ensures
        r == pow10(n as nat),
{
    let mut r: u64 = 1;
    let mut i: u64 = 0;
    while i < n
        invariant
            i <= n < 20,
            r == pow10(i as nat),
        decreases n - i,
    {
        proof {
            lemma_pow10_mono((i + 1) as nat, 19);
            reveal_with_fuel(pow10, 20);
            assert(pow10(19) == 10_000_000_000_000_000_000);
        }
        r = r * 10;
        i += 1;
    }
    r
}

/// The mantissa digits and decimal exponent of a finite literal read by `scan_float`.
pub open spec fn finite_mantissa(s: Seq<char>) -> nat {
    match float_syntax(s) {
        FloatSyntax::Finite { whole, frac, .. } => dval(whole + frac),
        _ => 0,
    }
}

pub open spec fn finite_exponent(s: Seq<char>) -> int {
    match float_syntax(s) {
        FloatSyntax::Finite { frac, exp_neg, exp, .. } => dec_exponent(frac, exp_neg, exp),
        _ => 0,
    }
}

/// `min(floor(m * v), val_cap())` and whether `m * v` is whole, for the finite literal
/// `v` that `f` spans in `s`.
#[verifier::rlimit(50)]
#[verifier::spinoff_prover]
pub fn scaled_floor_exec(s: &[char], f: &FloatSpans, m: u64) -> (r: (u64, bool))
    requires
        f.matches(s@),
        f.kind == 3,
        m <= mul_cap(),
    ensures
        r.0 == min_nat(scaled_floor(m as nat, finite_mantissa(s@), finite_exponent(s@)), val_cap()),
        r.1 == scaled_exact(m as nat, finite_mantissa(s@), finite_exponent(s@)),
{
    let ghost mant = finite_mantissa(s@);
    let ghost ex = finite_exponent(s@);
    let mut digits = copy_range(s, f.int_lo, f.int_hi);
    let fr = copy_range(s, f.frac_lo, f.frac_hi);
    crate::text::append_chars(&mut digits, fr.as_slice());
    let big: u64 = 0x1000_0000_0000_0000;
    let e_abs = sat_dval(s, f.exp_lo, f.exp_hi, 10000);
    let frac_len = f.frac_hi - f.frac_lo;
    let l = digits.len();
    proof {
        assert(digits@.subrange(0, l as int) =~= digits@);
        match float_syntax(s@) {
            FloatSyntax::Finite { neg, whole, frac, exp_neg, exp } => {
                assert(digits@ =~= whole + frac);
                assert(mant == dval(digits@));
                assert(frac.len() == f.frac_hi - f.frac_lo);
                assert(exp == s@.subrange(f.exp_lo as int, f.exp_hi as int));
                assert(exp_neg == f.exp_neg);
                assert(ex == dec_exponent(frac, exp_neg, exp));
            },
            _ => {},
        }
    }
    // The exponent applied to the integer `dval(digits)`.
    let pos_part: u64 = if f.exp_neg { 0 } else { e_abs };
    let neg_part: u128 = (if f.exp_neg { e_abs } else { 0 }) as u128 + frac_len as u128;
    if (pos_part as u128) >= neg_part {
        // Non-negative exponent.
        let k = ((pos_part as u128) - neg_part) as u64;
        assert(ex == k as int);
        let mut acc = sat_dval(digits.as_slice(), 0, l, big);
        let mut i: u64 = 0;
        assert(pow10(0) == 1);
        assert(mant * pow10(0) == mant);
        while i < k
            invariant
                i <= k,
                big == val_cap(),
                acc == min_nat(mant * pow10(i as nat), val_cap()),
                mant == dval(digits@),
            decreases k - i,
        {
            let t: u128 = acc as u128 * 10;
            acc = if t < big as u128 {
                t as u64
            } else {
                big
            };
            proof {
                assert(pow10((i + 1) as nat) == 10 * pow10(i as nat));
                assert(mant * pow10((i + 1) as nat) == (mant * pow10(i as nat)) * 10) by (nonlinear_arith)
                    requires
                        pow10((i + 1) as nat) == 10 * pow10(i as nat),
                ;
                lemma_min_step(mant * pow10(i as nat), 0, val_cap());
            }
            i += 1;
        }
        assert(acc as u128 * m as u128 <= 0x1000_0000_0000_0000u128 * 0x4000_0000_0000u128) by (nonlinear_arith)
            requires
                m <= mul_cap(),
                acc <= val_cap(),
        ;
        let t: u128 = acc as u128 * m as u128;
        let q = if t < big as u128 {
            t as u64
        } else {
            big
        };
        proof {
            lemma_min_mul(mant * pow10(k as nat), m as nat, val_cap());
            assert(m * mant * pow10(k as nat) == (mant * pow10(k as nat)) * m) by (nonlinear_arith);
        }
        return (q, true);
    }
    let k: u128 = neg_part - (pos_part as u128);
    assert(ex == -(k as int));
    proof {
        lemma_pow10_pos(k as nat);
    }
    if k >= l as u128 {
        let (c, lz) = carry_mul(digits.as_slice(), 0, l, m);
        let extra: u128 = k - l as u128;
        proof {
            lemma_pow10_add(l as nat, extra as nat);
            lemma_pow10_pos(l as nat);
            lemma_pow10_pos(extra as nat);
            vstd::arithmetic::div_mod::lemma_div_denominator((m * mant) as int, pow10(l as nat) as int, pow10(extra as nat) as int);
            vstd::arithmetic::div_mod::lemma_mod_breakdown((m * mant) as int, pow10(l as nat) as int, pow10(extra as nat) as int);
            let x = (m * mant) as int;
            let pl = pow10(l as nat) as int;
            assert(x % (pl * pow10(extra as nat)) == 0 <==> (x % pl == 0 && (x / pl) % pow10(extra as nat) as int == 0)) by (nonlinear_arith)
                requires
                    x % (pl * pow10(extra as nat)) == pl * ((x / pl) % pow10(extra as nat) as int) + x % pl,
                    pl >= 1,
                    0 <= x % pl < pl,
                    0 <= (x / pl) % pow10(extra as nat) as int,
            ;
        }
        if extra >= 20 {
            proof {
                lemma_pow10_mono(20, extra as nat);
                lemma_pow10_20();
                vstd::arithmetic::div_mod::lemma_basic_div(c as int, pow10(extra as nat) as int);
                vstd::arithmetic::div_mod::lemma_small_mod(c as nat, pow10(extra as nat));
            }
            return (0, lz && c == 0);
        }
        let p = pow10_exec(extra as u64);
        return (c / p, lz && c % p == 0);
    }
    let h: usize = l - (k as usize);
    let (c, lz) = carry_mul(digits.as_slice(), h, l, m);
    let hs = sat_dval(digits.as_slice(), 0, h, big);
    assert(m as u128 * hs as u128 <= 0x4000_0000_0000u128 * 0x1000_0000_0000_0000u128) by (nonlinear_arith)
        requires
            m <= mul_cap(),
            hs <= val_cap(),
    ;
    let t: u128 = m as u128 * hs as u128 + c as u128;
    let q = if t < big as u128 {
        t as u64
    } else {
        big
    };
    proof {
        let hd = digits@.subrange(0, h as int);
        let tl = digits@.subrange(h as int, l as int);
        assert(digits@ =~= hd + tl);
        lemma_dval_append(hd, tl);
        let hv = dval(hd);
        let tv = dval(tl);
        let p = pow10(k as nat);
        assert(tl.len() == k);
        assert(m * mant == (m * hv) * p + m * tv) by (nonlinear_arith)
            requires
                mant == hv * p + tv,
        ;
        vstd::arithmetic::div_mod::lemma_fundamental_div_mod((m * tv) as int, p as int);
        let qq = (m * tv) as int / p as int;
        let rr = (m * tv) as int % p as int;
        assert(m * mant == (m * hv + qq) * p + rr) by (nonlinear_arith)
            requires
                m * mant == (m * hv) * p + m * tv,
                m * tv == p * qq + rr,
        ;
        vstd::arithmetic::div_mod::lemma_fundamental_div_mod_converse((m * mant) as int, p as int, m * hv + qq, rr);
        assert(c == qq);
        assert((m as nat * mant) / p == m * hv + qq);
        if hv <= val_cap() {
            assert(hs == hv);
        } else if m > 0 {
            assert(m * hv >= hv) by (nonlinear_arith)
                requires
                    m > 0,
            ;
            assert(m * hs >= val_cap()) by (nonlinear_arith)
                requires
                    m > 0,
                    hs == val_cap(),
            ;
        } else {
            assert(m * hs == 0 && m * hv == 0) by (nonlinear_arith)
                requires
                    m == 0,
            ;
        }
    }
    (q, lz)
}

} // verus!
