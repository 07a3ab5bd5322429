//! Property values that are keywords, colors, gradients and font-family lists.
use vstd::prelude::*;

use crate::css::rfind;
use crate::number::{dval, lemma_dval_append};
use crate::style::{
    Display, Float, Gradient, Rgba, TextAlign, VerticalAlign, color_panics, color_panics_exec, is_lit, parse_color_chars,
    parse_color_spec,
};
use crate::text::{
    chars_of, contains, contains_exec, copy_range, find_sub, find_sub_exec, has_prefix, is_digit, lower, lower_of,
    split_chars, split_on, split_whitespace, split_ws, starts_with, string_of, trim, trimmed,
};

verus! {

// ----- linear gradients -----

/// Where the argument list of the first `linear-gradient(` starts and where the last
/// `)` stands.
pub open spec fn gradient_window(v: Seq<char>) -> Option<(int, int)> {
    match (find_sub(v, "linear-gradient("@), rfind(v, ")"@)) {
        (Some(a), Some(e)) => Some((a + 16, e)),
        _ => None,
    }
}

/// The comma-separated arguments, trimmed.
pub open spec fn gradient_parts(v: Seq<char>) -> Seq<Seq<char>> {
    let w = gradient_window(v)->0;
    split_on(v.subrange(w.0, w.1), ',').map_values(|p: Seq<char>| trim(p))
}

/// A first argument that gives a direction (an angle or `to ...`).
pub open spec fn is_direction(part: Seq<char>) -> bool {
    contains(part, "deg"@) || starts_with(part, "to "@)
}

/// The color word of an argument, without a trailing stop position.
pub open spec fn color_token(part: Seq<char>) -> Seq<char> {
    let w = split_ws(part);
    if w.len() > 0 {
        w[0]
    } else {
        part
    }
}

/// Whether argument `k` is read as a color (all but a leading direction).
pub open spec fn is_color_arg(parts: Seq<Seq<char>>, k: int) -> bool {
    !(k == 0 && is_direction(parts[0]))
}

/// The colors among the arguments that parse, in order.
pub open spec fn gradient_colors(parts: Seq<Seq<char>>, current: Seq<u8>) -> Seq<Seq<u8>>
    decreases parts.len(),
{
    if parts.len() == 0 {
        seq![]
    } else {
        let rest = gradient_colors(parts.drop_last(), current);
        if is_color_arg(parts, parts.len() - 1) {
            match parse_color_spec(color_token(parts.last()), current) {
                Some(c) => rest.push(c),
                None => rest,
            }
        } else {
            rest
        }
    }
}

/// A leading direction that points sideways.
pub open spec fn is_horizontal(parts: Seq<Seq<char>>) -> bool {
    parts.len() > 0 && is_direction(parts[0]) && {
        let p = lower(parts[0]);
        contains(p, "right"@) || contains(p, "left"@) || contains(p, "90deg"@) || contains(p, "270deg"@)
    }
}

/// Where reading the gradient would slice backwards (the last `)` stands before the
/// arguments) or read a color that cannot be sliced.
pub open spec fn gradient_panics(v: Seq<char>) -> bool {
    match gradient_window(v) {
        None => false,
        Some(w) => w.1 < w.0 || {
            let parts = gradient_parts(v);
            exists|k: int| 0 <= k < parts.len() && is_color_arg(parts, k) && color_panics(color_token(#[trigger] parts[k]))
        },
    }
}

/// A two-stop `linear-gradient(...)`: the first and last colors that parse, and
/// whether the direction is sideways; `None` without the function, its closing
/// parenthesis, or two colors.
pub open spec fn gradient_spec(v: Seq<char>, current: Seq<u8>) -> Option<(Seq<u8>, Seq<u8>, bool)> {
    match gradient_window(v) {
        None => None,
        Some(w) => {
            let parts = gradient_parts(v);
            let colors = gradient_colors(parts, current);
            if colors.len() < 2 {
                None
            } else {
                Some((colors[0], colors.last(), is_horizontal(parts)))
            }
        },
    }
}

pub open spec fn gradient_view(g: Gradient) -> (Seq<u8>, Seq<u8>, bool) {
    (g.from@, g.to@, g.horizontal)
}

fn rfind_close(s: &[char]) -> (r: Option<usize>)
    ensures
        match rfind(s@, ")"@) {
            Some(k) => r is Some && r->0 as int == k,
            None => r is None,
        },
{
    let p = chars_of(")");
    proof {
        reveal_strlit(")");
    }
    crate::css::rfind_exec(s, p.as_slice())
}

fn first_word(part: &[char]) -> (r: Vec<char>)
    ensures
        r@ == color_token(part@),
{
    let w = split_whitespace(part);
    if w.len() > 0 {
        copy_range(w[0].as_slice(), 0, w[0].len())
    } else {
        copy_range(part, 0, part.len())
    }
}

fn is_direction_exec(part: &[char]) -> (b: bool)
    ensures
        b == is_direction(part@),
{
    let deg = chars_of("deg");
    let to = chars_of("to ");
    contains_exec(part, deg.as_slice()) || has_prefix(part, to.as_slice())
}

fn has_word(p: &[char], w: &str) -> (b: bool)
    ensures
        b == contains(p@, w@),
{
    let c = chars_of(w);
    contains_exec(p, c.as_slice())
}

/// Parse a two-stop `linear-gradient(...)`; the direction is reduced to horizontal
/// or vertical.
pub fn parse_gradient(v: &str, current: Rgba) -> (r: Option<Gradient>)
    requires
        !gradient_panics(v@),
    ensures
        match gradient_spec(v@, current@) {
            Some(g) => r is Some && gradient_view(r->0) == g,
            None => r is None,
        },
{
    let c = chars_of(v);
    let lg = chars_of("linear-gradient(");
    proof {
        reveal_strlit("linear-gradient(");
    }
    let a = match find_sub_exec(c.as_slice(), lg.as_slice()) {
        Some(a) => a,
        None => return None,
    };
    let e = match rfind_close(c.as_slice()) {
        Some(e) => e,
        None => return None,
    };
    proof {
        crate::text::lemma_find_sub(c@, lg@);
        crate::css::lemma_rfind_bounds(c@, ")"@);
    }
    assert(gradient_window(v@) == Some((a + 16, e as int)));
    assert(lg@.len() == 16);
    let start = a + 16;
    let inner = copy_range(c.as_slice(), start, e);
    let raw = split_chars(inner.as_slice(), ',');
    let ghost parts = gradient_parts(v@);
    assert(inner@ == v@.subrange(start as int, e as int));
    assert(parts.len() == raw@.len());
    assert forall|j: int| 0 <= j < raw@.len() implies #[trigger] parts[j] == trim(raw@[j]@) by {}
    assert(forall|j: int| 0 <= j < parts.len() && is_color_arg(parts, j) ==> !color_panics(color_token(#[trigger] parts[j])));
    let mut horizontal = false;
    let mut colors: Vec<Rgba> = Vec::new();
    let mut k: usize = 0;
    while k < raw.len()
        invariant
            !gradient_panics(v@),
            parts == gradient_parts(v@),
            parts.len() == raw@.len(),
            forall|j: int| 0 <= j < raw@.len() ==> #[trigger] parts[j] == trim(raw@[j]@),
            k <= raw@.len(),
            colors@.len() == gradient_colors(parts.take(k as int), current@).len(),
            forall|j: int| 0 <= j < colors@.len() ==> (#[trigger] colors@[j])@ == gradient_colors(parts.take(k as int), current@)[j],
            horizontal == (k > 0 && is_horizontal(parts)),
            forall|j: int| 0 <= j < parts.len() && is_color_arg(parts, j) ==> !color_panics(color_token(#[trigger] parts[j])),
        decreases raw@.len() - k,
    {
        let part = trimmed(raw[k].as_slice());
        assert(part@ == parts[k as int]);
        assert(parts.take(k + 1).drop_last() =~= parts.take(k as int));
        assert(parts.take(k + 1).last() == parts[k as int]);
        if k == 0 && is_direction_exec(part.as_slice()) {
            let p = lower_of(part.as_slice());
            horizontal = has_word(p.as_slice(), "right") || has_word(p.as_slice(), "left") || has_word(p.as_slice(), "90deg")
                || has_word(p.as_slice(), "270deg");
            assert(is_color_arg(parts.take(k + 1), k as int) == is_color_arg(parts, k as int));
        } else {
            let tok = first_word(part.as_slice());
            assert(is_color_arg(parts, k as int));
            assert(is_color_arg(parts.take(k + 1), k as int));
            let ghost before = colors@;
            match parse_color_chars(tok.as_slice(), current) {
                Some(col) => {
                    colors.push(col);
                    assert(colors@.last() == col);
                },
                None => {},
            }
        }
        k += 1;
    }
    assert(parts.take(raw@.len() as int) =~= parts);
    if colors.len() < 2 {
        return None;
    }
    let last = colors.len() - 1;
    Some(Gradient { from: colors[0], to: colors[last], horizontal })
}

/// Whether reading `v` as a gradient would slice backwards or through a character.
pub fn gradient_panics_exec(v: &str) -> (b: bool)
    ensures
        b == gradient_panics(v@),
{
    let c = chars_of(v);
    let lg = chars_of("linear-gradient(");
    proof {
        reveal_strlit("linear-gradient(");
    }
    let a = match find_sub_exec(c.as_slice(), lg.as_slice()) {
        Some(a) => a,
        None => return false,
    };
    let e = match rfind_close(c.as_slice()) {
        Some(e) => e,
        None => return false,
    };
    proof {
        crate::text::lemma_find_sub(c@, lg@);
        crate::css::lemma_rfind_bounds(c@, ")"@);
    }
    assert(gradient_window(v@) == Some((a + 16, e as int)));
    assert(a + 16 <= c@.len());
    if e < a || e - a < 16 {
        return true;
    }
    let inner = copy_range(c.as_slice(), a + 16, e);
    let raw = split_chars(inner.as_slice(), ',');
    let ghost parts = gradient_parts(v@);
    assert(inner@ == v@.subrange(a + 16, e as int));
    assert(parts.len() == raw@.len());
    assert forall|j: int| 0 <= j < raw@.len() implies #[trigger] parts[j] == trim(raw@[j]@) by {}
    let mut k: usize = 0;
    while k < raw.len()
        invariant
            parts == gradient_parts(v@),
            parts.len() == raw@.len(),
            forall|j: int| 0 <= j < raw@.len() ==> #[trigger] parts[j] == trim(raw@[j]@),
            k <= raw@.len(),
            forall|j: int| 0 <= j < k && is_color_arg(parts, j) ==> !color_panics(color_token(#[trigger] parts[j])),
            gradient_window(v@) is Some,
        decreases raw@.len() - k,
    {
        let part = trimmed(raw[k].as_slice());
        assert(part@ == parts[k as int]);
        if !(k == 0 && is_direction_exec(part.as_slice())) {
            let tok = first_word(part.as_slice());
            if color_panics_exec(tok.as_slice()) {
                assert(is_color_arg(parts, k as int));
                assert(color_panics(color_token(parts[k as int])));
                return true;
            }
        }
        k += 1;
    }
    false
}

/// `parse_gradient`, or `None` where reading the gradient would slice backwards or
/// through a character.
pub fn try_parse_gradient(v: &str, current: Rgba) -> (r: Option<Option<Gradient>>)
    ensures
        r is None <==> gradient_panics(v@),
        r matches Some(x) ==> match gradient_spec(v@, current@) {
            Some(g) => x is Some && gradient_view(x->0) == g,
            None => x is None,
        },
{
    if gradient_panics_exec(v) {
        None
    } else {
        Some(parse_gradient(v, current))
    }
}

// ----- keyword properties -----

pub open spec fn display_of(v: Seq<char>, cur: Display) -> Display {
    if v == "block"@ {
        Display::Block
    } else if v == "inline"@ {
        Display::Inline
    } else if v == "inline-block"@ {
        Display::InlineBlock
    } else if v == "list-item"@ {
        Display::ListItem
    } else if v == "table"@ {
        Display::Table
    } else if v == "table-row-group"@ || v == "thead"@ || v == "tbody"@ || v == "tfoot"@ {
        Display::TableRowGroup
    } else if v == "table-row"@ {
        Display::TableRow
    } else if v == "table-cell"@ {
        Display::TableCell
    } else if v == "none"@ {
        Display::NoDisplay
    } else {
        cur
    }
}

/// The digits of a `u16` literal: the text after an optional leading `+`.
pub open spec fn u16_digits(s: Seq<char>) -> Seq<char> {
    if s.len() > 0 && s[0] == '+' {
        s.skip(1)
    } else {
        s
    }
}

/// `u16::from_str`: an optional `+`, then one or more digits, at most 65535.
pub open spec fn parse_u16(s: Seq<char>) -> Option<u16> {
    let d = u16_digits(s);
    if d.len() == 0 || !(forall|i: int| 0 <= i < u16_digits(s).len() ==> is_digit(#[trigger] u16_digits(s)[i])) || dval(d) > 65535 {
        None
    } else {
        Some(dval(d) as u16)
    }
}

pub open spec fn weight_of(v: Seq<char>, cur: u16) -> u16 {
    if v == "normal"@ {
        400
    } else if v == "bold"@ || v == "bolder"@ {
        700
    } else if v == "lighter"@ {
        300
    } else {
        match parse_u16(v) {
            Some(n) => n,
            None => cur,
        }
    }
}

pub open spec fn text_align_of(v: Seq<char>) -> TextAlign {
    if v == "right"@ {
        TextAlign::Right
    } else if v == "center"@ {
        TextAlign::Center
    } else if v == "justify"@ {
        TextAlign::Justify
    } else {
        TextAlign::Left
    }
}

pub open spec fn vertical_align_of(v: Seq<char>) -> VerticalAlign {
    if v == "top"@ {
        VerticalAlign::Top
    } else if v == "middle"@ {
        VerticalAlign::Middle
    } else if v == "bottom"@ {
        VerticalAlign::Bottom
    } else {
        VerticalAlign::Baseline
    }
}

pub open spec fn float_of(v: Seq<char>) -> Float {
    if v == "left"@ {
        Float::Left
    } else if v == "right"@ {
        Float::Right
    } else {
        Float::NoFloat
    }
}

pub open spec fn is_quote(c: char) -> bool {
    c == '"' || c == '\''
}

/// Number of quote characters at the start of `s`.
pub open spec fn lead_quotes(s: Seq<char>) -> nat
    decreases s.len(),
{
    if s.len() > 0 && is_quote(s[0]) {
        1 + lead_quotes(s.skip(1))
    } else {
        0
    }
}

/// Number of quote characters at the end of `s`.
pub open spec fn trail_quotes(s: Seq<char>) -> nat
    decreases s.len(),
{
    if s.len() > 0 && is_quote(s.last()) {
        1 + trail_quotes(s.drop_last())
    } else {
        0
    }
}

/// `trim_matches(['"', '\''])`: quotes removed from both ends.
pub open spec fn unquote(s: Seq<char>) -> Seq<char> {
    let a = lead_quotes(s);
    if a >= s.len() {
        seq![]
    } else {
        let t = s.skip(a as int);
        t.take(t.len() - trail_quotes(t))
    }
}

/// The comma-separated font families, trimmed and unquoted.
pub open spec fn family_list(v: Seq<char>) -> Seq<Seq<char>> {
    split_on(v, ',').map_values(|f: Seq<char>| unquote(trim(f)))
}

/// The properties of a computed style that take keywords, colors and lists.
#[derive(Clone, Debug)]
pub struct KeywordStyle {
    pub display: Display,
    pub font_family: Vec<String>,
    pub font_weight: u16,
    pub italic: bool,
    pub color: Rgba,
    pub background: Option<Rgba>,
    pub background_gradient: Option<Gradient>,
    pub text_align: TextAlign,
    pub vertical_align: VerticalAlign,
    pub white_space_nowrap: bool,
    pub float: Float,
    pub clear: bool,
    pub page_break_after: bool,
    pub page_break_before: bool,
}

pub ghost struct KeywordStyleV {
    pub display: Display,
    pub font_family: Seq<Seq<char>>,
    pub font_weight: u16,
    pub italic: bool,
    pub color: Seq<u8>,
    pub background: Option<Seq<u8>>,
    pub background_gradient: Option<(Seq<u8>, Seq<u8>, bool)>,
    pub text_align: TextAlign,
    pub vertical_align: VerticalAlign,
    pub white_space_nowrap: bool,
    pub float: Float,
    pub clear: bool,
    pub page_break_after: bool,
    pub page_break_before: bool,
}

pub open spec fn opt_rgba_view(o: Option<Rgba>) -> Option<Seq<u8>> {
    match o {
        Some(c) => Some(c@),
        None => None,
    }
}

pub open spec fn opt_gradient_view(o: Option<Gradient>) -> Option<(Seq<u8>, Seq<u8>, bool)> {
    match o {
        Some(g) => Some(gradient_view(g)),
        None => None,
    }
}

impl View for KeywordStyle {
    type V = KeywordStyleV;

    open spec fn view(&self) -> KeywordStyleV {
        KeywordStyleV {
            display: self.display,
            font_family: crate::style::strings_view(self.font_family@),
            font_weight: self.font_weight,
            italic: self.italic,
            color: self.color@,
            background: opt_rgba_view(self.background),
            background_gradient: opt_gradient_view(self.background_gradient),
            text_align: self.text_align,
            vertical_align: self.vertical_align,
            white_space_nowrap: self.white_space_nowrap,
            float: self.float,
            clear: self.clear,
            page_break_after: self.page_break_after,
            page_break_before: self.page_break_before,
        }
    }
}

/// The names `apply_keyword` handles.
pub open spec fn is_keyword_property(name: Seq<char>) -> bool {
    ||| name == "display"@
    ||| name == "font-family"@
    ||| name == "font-weight"@
    ||| name == "font-style"@
    ||| name == "color"@
    ||| is_background_property(name)
    ||| is_layout_keyword(name)
}

pub open spec fn is_background_property(name: Seq<char>) -> bool {
    name == "background-color"@ || name == "background"@ || name == "background-image"@
}

/// Where applying the value would slice through a character (or backwards).
pub open spec fn keyword_panics(name: Seq<char>, v: Seq<char>) -> bool {
    if name == "color"@ {
        color_panics(v)
    } else if is_background_property(name) {
        if contains(v, "linear-gradient"@) {
            gradient_panics(v)
        } else {
            !starts_with(v, "url"@) && v != "transparent"@ && v != "none"@ && color_panics(v)
        }
    } else {
        false
    }
}

/// The letters of each property name the keyword styles handle, so that names are
/// told apart.
proof fn lemma_keyword_property_names()
    ensures
        "display"@.len() == 7 && "display"@[0] == 'd' && "display"@[1] == 'i' && "display"@[2] == 's' && "display"@[3] == 'p' && "display"@[4] == 'l' && "display"@[5] == 'a' && "display"@[6] == 'y',
        "font-family"@.len() == 11 && "font-family"@[0] == 'f' && "font-family"@[1] == 'o' && "font-family"@[2] == 'n' && "font-family"@[3] == 't' && "font-family"@[4] == '-' && "font-family"@[5] == 'f' && "font-family"@[6] == 'a' && "font-family"@[7] == 'm' && "font-family"@[8] == 'i' && "font-family"@[9] == 'l' && "font-family"@[10] == 'y',
        "font-weight"@.len() == 11 && "font-weight"@[0] == 'f' && "font-weight"@[1] == 'o' && "font-weight"@[2] == 'n' && "font-weight"@[3] == 't' && "font-weight"@[4] == '-' && "font-weight"@[5] == 'w' && "font-weight"@[6] == 'e' && "font-weight"@[7] == 'i' && "font-weight"@[8] == 'g' && "font-weight"@[9] == 'h' && "font-weight"@[10] == 't',
        "font-style"@.len() == 10 && "font-style"@[0] == 'f' && "font-style"@[1] == 'o' && "font-style"@[2] == 'n' && "font-style"@[3] == 't' && "font-style"@[4] == '-' && "font-style"@[5] == 's' && "font-style"@[6] == 't' && "font-style"@[7] == 'y' && "font-style"@[8] == 'l' && "font-style"@[9] == 'e',
        "color"@.len() == 5 && "color"@[0] == 'c' && "color"@[1] == 'o' && "color"@[2] == 'l' && "color"@[3] == 'o' && "color"@[4] == 'r',
        "background-color"@.len() == 16 && "background-color"@[0] == 'b' && "background-color"@[1] == 'a' && "background-color"@[2] == 'c' && "background-color"@[3] == 'k' && "background-color"@[4] == 'g' && "background-color"@[5] == 'r' && "background-color"@[6] == 'o' && "background-color"@[7] == 'u' && "background-color"@[8] == 'n' && "background-color"@[9] == 'd' && "background-color"@[10] == '-' && "background-color"@[11] == 'c' && "background-color"@[12] == 'o' && "background-color"@[13] == 'l' && "background-color"@[14] == 'o' && "background-color"@[15] == 'r',
        "background"@.len() == 10 && "background"@[0] == 'b' && "background"@[1] == 'a' && "background"@[2] == 'c' && "background"@[3] == 'k' && "background"@[4] == 'g' && "background"@[5] == 'r' && "background"@[6] == 'o' && "background"@[7] == 'u' && "background"@[8] == 'n' && "background"@[9] == 'd',
        "background-image"@.len() == 16 && "background-image"@[0] == 'b' && "background-image"@[1] == 'a' && "background-image"@[2] == 'c' && "background-image"@[3] == 'k' && "background-image"@[4] == 'g' && "background-image"@[5] == 'r' && "background-image"@[6] == 'o' && "background-image"@[7] == 'u' && "background-image"@[8] == 'n' && "background-image"@[9] == 'd' && "background-image"@[10] == '-' && "background-image"@[11] == 'i' && "background-image"@[12] == 'm' && "background-image"@[13] == 'a' && "background-image"@[14] == 'g' && "background-image"@[15] == 'e',
        "text-align"@.len() == 10 && "text-align"@[0] == 't' && "text-align"@[1] == 'e' && "text-align"@[2] == 'x' && "text-align"@[3] == 't' && "text-align"@[4] == '-' && "text-align"@[5] == 'a' && "text-align"@[6] == 'l' && "text-align"@[7] == 'i' && "text-align"@[8] == 'g' && "text-align"@[9] == 'n',
        "vertical-align"@.len() == 14 && "vertical-align"@[0] == 'v' && "vertical-align"@[1] == 'e' && "vertical-align"@[2] == 'r' && "vertical-align"@[3] == 't' && "vertical-align"@[4] == 'i' && "vertical-align"@[5] == 'c' && "vertical-align"@[6] == 'a' && "vertical-align"@[7] == 'l' && "vertical-align"@[8] == '-' && "vertical-align"@[9] == 'a' && "vertical-align"@[10] == 'l' && "vertical-align"@[11] == 'i' && "vertical-align"@[12] == 'g' && "vertical-align"@[13] == 'n',
        "white-space"@.len() == 11 && "white-space"@[0] == 'w' && "white-space"@[1] == 'h' && "white-space"@[2] == 'i' && "white-space"@[3] == 't' && "white-space"@[4] == 'e' && "white-space"@[5] == '-' && "white-space"@[6] == 's' && "white-space"@[7] == 'p' && "white-space"@[8] == 'a' && "white-space"@[9] == 'c' && "white-space"@[10] == 'e',
        "float"@.len() == 5 && "float"@[0] == 'f' && "float"@[1] == 'l' && "float"@[2] == 'o' && "float"@[3] == 'a' && "float"@[4] == 't',
        "clear"@.len() == 5 && "clear"@[0] == 'c' && "clear"@[1] == 'l' && "clear"@[2] == 'e' && "clear"@[3] == 'a' && "clear"@[4] == 'r',
        "page-break-after"@.len() == 16 && "page-break-after"@[0] == 'p' && "page-break-after"@[1] == 'a' && "page-break-after"@[2] == 'g' && "page-break-after"@[3] == 'e' && "page-break-after"@[4] == '-' && "page-break-after"@[5] == 'b' && "page-break-after"@[6] == 'r' && "page-break-after"@[7] == 'e' && "page-break-after"@[8] == 'a' && "page-break-after"@[9] == 'k' && "page-break-after"@[10] == '-' && "page-break-after"@[11] == 'a' && "page-break-after"@[12] == 'f' && "page-break-after"@[13] == 't' && "page-break-after"@[14] == 'e' && "page-break-after"@[15] == 'r',
        "break-after"@.len() == 11 && "break-after"@[0] == 'b' && "break-after"@[1] == 'r' && "break-after"@[2] == 'e' && "break-after"@[3] == 'a' && "break-after"@[4] == 'k' && "break-after"@[5] == '-' && "break-after"@[6] == 'a' && "break-after"@[7] == 'f' && "break-after"@[8] == 't' && "break-after"@[9] == 'e' && "break-after"@[10] == 'r',
        "page-break-before"@.len() == 17 && "page-break-before"@[0] == 'p' && "page-break-before"@[1] == 'a' && "page-break-before"@[2] == 'g' && "page-break-before"@[3] == 'e' && "page-break-before"@[4] == '-' && "page-break-before"@[5] == 'b' && "page-break-before"@[6] == 'r' && "page-break-before"@[7] == 'e' && "page-break-before"@[8] == 'a' && "page-break-before"@[9] == 'k' && "page-break-before"@[10] == '-' && "page-break-before"@[11] == 'b' && "page-break-before"@[12] == 'e' && "page-break-before"@[13] == 'f' && "page-break-before"@[14] == 'o' && "page-break-before"@[15] == 'r' && "page-break-before"@[16] == 'e',
        "break-before"@.len() == 12 && "break-before"@[0] == 'b' && "break-before"@[1] == 'r' && "break-before"@[2] == 'e' && "break-before"@[3] == 'a' && "break-before"@[4] == 'k' && "break-before"@[5] == '-' && "break-before"@[6] == 'b' && "break-before"@[7] == 'e' && "break-before"@[8] == 'f' && "break-before"@[9] == 'o' && "break-before"@[10] == 'r' && "break-before"@[11] == 'e',
{
    reveal_strlit("display");
    reveal_strlit("font-family");
    reveal_strlit("font-weight");
    reveal_strlit("font-style");
    reveal_strlit("color");
    reveal_strlit("background-color");
    reveal_strlit("background");
    reveal_strlit("background-image");
    reveal_strlit("text-align");
    reveal_strlit("vertical-align");
    reveal_strlit("white-space");
    reveal_strlit("float");
    reveal_strlit("clear");
    reveal_strlit("page-break-after");
    reveal_strlit("break-after");
    reveal_strlit("page-break-before");
    reveal_strlit("break-before");
}

/// What each keyword property does with its (trimmed) value, and that it touches no
/// other property: `display` takes the box kinds (the table-row-group keywords among
/// them) and `none`, and keeps the current display for anything else; `font-weight`
/// maps `normal` to 400, `bold` and `bolder` to 700, `lighter` to 300, takes a number,
/// and otherwise keeps the weight; `font-style` is italic for `italic` and `oblique`;
/// `vertical-align` takes `top`, `middle` and `bottom`, else baseline; `white-space`
/// does not wrap for `nowrap` and `pre`; `float` takes `left` and `right`, else none;
/// `clear` clears for `both`, `left` and `right`; the page-break properties (either
/// spelling) break for `always` and `page`.
pub proof fn lemma_keyword_properties(s: KeywordStyleV, v: Seq<char>)
    ensures
        keyword_apply(s, "display"@, v) == (KeywordStyleV {
            display: if v == "block"@ {
                Display::Block
            } else if v == "inline"@ {
                Display::Inline
            } else if v == "inline-block"@ {
                Display::InlineBlock
            } else if v == "list-item"@ {
                Display::ListItem
            } else if v == "table"@ {
                Display::Table
            } else if v == "table-row-group"@ || v == "thead"@ || v == "tbody"@ || v == "tfoot"@ {
                Display::TableRowGroup
            } else if v == "table-row"@ {
                Display::TableRow
            } else if v == "table-cell"@ {
                Display::TableCell
            } else if v == "none"@ {
                Display::NoDisplay
            } else {
                s.display
            },
            ..s
        }),
        keyword_apply(s, "font-weight"@, v) == (KeywordStyleV {
            font_weight: if v == "normal"@ {
                400u16
            } else if v == "bold"@ || v == "bolder"@ {
                700u16
            } else if v == "lighter"@ {
                300u16
            } else if parse_u16(v) is Some {
                parse_u16(v)->0
            } else {
                s.font_weight
            },
            ..s
        }),
        keyword_apply(s, "font-style"@, v) == (KeywordStyleV { italic: v == "italic"@ || v == "oblique"@, ..s }),
        keyword_apply(s, "vertical-align"@, v) == (KeywordStyleV {
            vertical_align: if v == "top"@ {
                VerticalAlign::Top
            } else if v == "middle"@ {
                VerticalAlign::Middle
            } else if v == "bottom"@ {
                VerticalAlign::Bottom
            } else {
                VerticalAlign::Baseline
            },
            ..s
        }),
        keyword_apply(s, "white-space"@, v) == (KeywordStyleV { white_space_nowrap: v == "nowrap"@ || v == "pre"@, ..s }),
        keyword_apply(s, "float"@, v) == (KeywordStyleV {
            float: if v == "left"@ {
                Float::Left
            } else if v == "right"@ {
                Float::Right
            } else {
                Float::NoFloat
            },
            ..s
        }),
        keyword_apply(s, "clear"@, v) == (KeywordStyleV { clear: v == "both"@ || v == "left"@ || v == "right"@, ..s }),
        keyword_apply(s, "page-break-after"@, v) == (KeywordStyleV { page_break_after: v == "always"@ || v == "page"@, ..s }),
        keyword_apply(s, "break-after"@, v) == (KeywordStyleV { page_break_after: v == "always"@ || v == "page"@, ..s }),
        keyword_apply(s, "page-break-before"@, v) == (KeywordStyleV { page_break_before: v == "always"@ || v == "page"@, ..s }),
        keyword_apply(s, "break-before"@, v) == (KeywordStyleV { page_break_before: v == "always"@ || v == "page"@, ..s }),
{
    lemma_keyword_property_names();
}

/// `text-align` sets the alignment from its keyword and touches nothing else:
/// `right` aligns right, `center` centres, `justify` justifies, and any other value
/// (`left`, `start`, an unknown word) aligns left.
pub proof fn lemma_text_align_keywords(s: KeywordStyleV, v: Seq<char>)
    ensures
        keyword_apply(s, "text-align"@, v) == (KeywordStyleV {
            text_align: if v == "right"@ {
                TextAlign::Right
            } else if v == "center"@ {
                TextAlign::Center
            } else if v == "justify"@ {
                TextAlign::Justify
            } else {
                TextAlign::Left
            },
            ..s
        }),
        keyword_apply(s, "text-align"@, "right"@).text_align != keyword_apply(s, "text-align"@, "left"@).text_align,
        keyword_apply(s, "text-align"@, "center"@).text_align != keyword_apply(s, "text-align"@, "left"@).text_align,
        keyword_apply(s, "text-align"@, "justify"@).text_align != keyword_apply(s, "text-align"@, "left"@).text_align,
        keyword_apply(s, "text-align"@, "right"@).text_align != keyword_apply(s, "text-align"@, "center"@).text_align,
        keyword_apply(s, "text-align"@, "right"@).text_align != keyword_apply(s, "text-align"@, "justify"@).text_align,
        keyword_apply(s, "text-align"@, "center"@).text_align != keyword_apply(s, "text-align"@, "justify"@).text_align,
{
    lemma_keyword_property_names();
    reveal_strlit("right");
    reveal_strlit("center");
    reveal_strlit("justify");
    reveal_strlit("left");
    assert("left"@ != "right"@ && "left"@ != "center"@ && "left"@ != "justify"@);
    assert("center"@ != "right"@);
    assert("justify"@ != "right"@ && "justify"@ != "center"@);
}

/// The style after applying `name: v` (trimmed value), for the names it handles.
pub open spec fn keyword_apply(s: KeywordStyleV, name: Seq<char>, v: Seq<char>) -> KeywordStyleV {
    if name == "display"@ {
        KeywordStyleV { display: display_of(v, s.display), ..s }
    } else if name == "font-family"@ {
        KeywordStyleV { font_family: family_list(v), ..s }
    } else if name == "font-weight"@ {
        KeywordStyleV { font_weight: weight_of(v, s.font_weight), ..s }
    } else if name == "font-style"@ {
        KeywordStyleV { italic: v == "italic"@ || v == "oblique"@, ..s }
    } else if name == "color"@ {
        match parse_color_spec(v, s.color) {
            Some(c) => KeywordStyleV { color: c, ..s },
            None => s,
        }
    } else if is_background_property(name) {
        background_apply(s, v)
    } else {
        layout_keyword_apply(s, name, v)
    }
}

/// A `background` value: a gradient, an image (ignored), none, or a color.
pub open spec fn background_apply(s: KeywordStyleV, v: Seq<char>) -> KeywordStyleV {
    if contains(v, "linear-gradient"@) {
        KeywordStyleV { background_gradient: gradient_spec(v, s.color), ..s }
    } else if starts_with(v, "url"@) {
        s
    } else if v == "transparent"@ || v == "none"@ {
        KeywordStyleV { background: None, ..s }
    } else {
        match parse_color_spec(v, s.color) {
            Some(c) => KeywordStyleV { background: Some(c), ..s },
            None => s,
        }
    }
}

/// Alignment, white-space, float, clear and page-break keywords.
pub open spec fn layout_keyword_apply(s: KeywordStyleV, name: Seq<char>, v: Seq<char>) -> KeywordStyleV {
    if name == "text-align"@ {
        KeywordStyleV { text_align: text_align_of(v), ..s }
    } else if name == "vertical-align"@ {
        KeywordStyleV { vertical_align: vertical_align_of(v), ..s }
    } else if name == "white-space"@ {
        KeywordStyleV { white_space_nowrap: v == "nowrap"@ || v == "pre"@, ..s }
    } else if name == "float"@ {
        KeywordStyleV { float: float_of(v), ..s }
    } else if name == "clear"@ {
        KeywordStyleV { clear: v == "both"@ || v == "left"@ || v == "right"@, ..s }
    } else if name == "page-break-after"@ || name == "break-after"@ {
        KeywordStyleV { page_break_after: v == "always"@ || v == "page"@, ..s }
    } else if name == "page-break-before"@ || name == "break-before"@ {
        KeywordStyleV { page_break_before: v == "always"@ || v == "page"@, ..s }
    } else {
        s
    }
}

pub open spec fn is_layout_keyword(name: Seq<char>) -> bool {
    ||| name == "text-align"@
    ||| name == "vertical-align"@
    ||| name == "white-space"@
    ||| name == "float"@
    ||| name == "clear"@
    ||| name == "page-break-after"@
    ||| name == "break-after"@
    ||| name == "page-break-before"@
    ||| name == "break-before"@
}

pub proof fn lemma_lead_quotes(s: Seq<char>, k: int)
    requires
        0 <= k <= s.len(),
        forall|j: int| 0 <= j < k ==> is_quote(#[trigger] s[j]),
        k == s.len() || !is_quote(s[k]),
    ensures
        lead_quotes(s) == k,
    decreases k,
{
    if k > 0 {
        lemma_lead_quotes(s.skip(1), k - 1);
    }
}

pub proof fn lemma_trail_quotes(s: Seq<char>, k: int)
    requires
        0 <= k <= s.len(),
        forall|j: int| s.len() - k <= j < s.len() ==> is_quote(#[trigger] s[j]),
        k == s.len() || !is_quote(s[s.len() - k - 1]),
    ensures
        trail_quotes(s) == k,
    decreases k,
{
    if k > 0 {
        lemma_trail_quotes(s.drop_last(), k - 1);
    }
}

fn unquote_exec(s: &[char]) -> (r: Vec<char>)
    ensures
        r@ == unquote(s@),
{
    let mut a: usize = 0;
    while a < s.len() && (s[a] == '"' || s[a] == '\'')
        invariant
            a <= s.len(),
            forall|j: int| 0 <= j < a ==> is_quote(#[trigger] s@[j]),
        decreases s.len() - a,
    {
        a += 1;
    }
    proof {
        lemma_lead_quotes(s@, a as int);
    }
    if a >= s.len() {
        return Vec::new();
    }
    let t = copy_range(s, a, s.len());
    assert(t@ =~= s@.skip(a as int));
    let mut b: usize = 0;
    while b < t.len() && (t[t.len() - 1 - b] == '"' || t[t.len() - 1 - b] == '\'')
        invariant
            b <= t.len(),
            forall|j: int| t@.len() - b <= j < t@.len() ==> is_quote(#[trigger] t@[j]),
        decreases t.len() - b,
    {
        b += 1;
    }
    proof {
        lemma_trail_quotes(t@, b as int);
    }
    let r = copy_range(t.as_slice(), 0, t.len() - b);
    assert(r@ =~= t@.take(t@.len() - b));
    r
}

fn family_list_exec(v: &[char]) -> (r: Vec<String>)
    ensures
        crate::style::strings_view(r@) == family_list(v@),
{
    let parts = split_chars(v, ',');
    let ghost fl = family_list(v@);
    let mut r: Vec<String> = Vec::new();
    for k in 0..parts.len()
        invariant
            parts@.len() == split_on(v@, ',').len(),
            forall|i: int| 0 <= i < parts@.len() ==> (#[trigger] parts@[i])@ == split_on(v@, ',')[i],
            fl == family_list(v@),
            crate::style::strings_view(r@) == fl.take(k as int),
    {
        let t = trimmed(parts[k].as_slice());
        let u = unquote_exec(t.as_slice());
        let st = string_of(u.as_slice());
        let ghost r0 = r@;
        r.push(st);
        assert(fl[k as int] == u@);
        assert(crate::style::strings_view(r@) =~= crate::style::strings_view(r0).push(st@));
        assert(fl.take(k + 1) =~= fl.take(k as int).push(fl[k as int]));
    }
    assert(fl.take(parts@.len() as int) =~= fl);
    r
}

fn parse_u16_exec(s: &[char]) -> (r: Option<u16>)
    ensures
        r == parse_u16(s@),
{
    let lo: usize = if s.len() > 0 && s[0] == '+' { 1 } else { 0 };
    let ghost d = u16_digits(s@);
    assert(d =~= s@.skip(lo as int));
    if lo >= s.len() {
        return None;
    }
    let mut acc: u32 = 0;
    let mut i = lo;
    while i < s.len()
        invariant
            lo <= i <= s.len(),
            d == u16_digits(s@),
            d =~= s@.skip(lo as int),
            forall|j: int| 0 <= j < i - lo ==> is_digit(#[trigger] d[j]),
            acc == dval(d.take(i - lo)),
            acc <= 65535,
        decreases s.len() - i,
    {
        let c = s[i];
        assert(d[i - lo] == s@[i as int]);
        if !('0' <= c && c <= '9') {
            assert(!is_digit(d[i - lo]));
            return None;
        }
        proof {
            assert(d.take(i - lo + 1).drop_last() =~= d.take(i - lo));
            assert(d.take(i - lo + 1).last() == c);
            assert(dval(d.take(i - lo + 1)) == acc * 10 + (c as u32 - 48));
        }
        let next = acc * 10 + (c as u32 - 48);
        if next > 65535 {
            proof {
                lemma_dval_prefix_mono(d, i - lo + 1);
                assert(dval(d.take(i - lo + 1)) == next);
            }
            return None;
        }
        acc = next;
        i += 1;
    }
    assert(d.take(s@.len() - lo) =~= d);
    Some(acc as u16)
}

/// A longer run of digits is worth at least as much as its prefix.
proof fn lemma_dval_prefix_mono(d: Seq<char>, k: int)
    requires
        0 <= k <= d.len(),
    ensures
        dval(d.take(k)) <= dval(d),
    decreases d.len() - k,
{
    if k < d.len() {
        lemma_dval_prefix_mono(d, k + 1);
        assert(d.take(k + 1).drop_last() =~= d.take(k));
    } else {
        assert(d.take(k) =~= d);
    }
}

fn display_value(v: &[char], cur: Display) -> (r: Display)
    ensures
        r == display_of(v@, cur),
{
    if is_lit(v, "block") {
        Display::Block
    } else if is_lit(v, "inline") {
        Display::Inline
    } else if is_lit(v, "inline-block") {
        Display::InlineBlock
    } else if is_lit(v, "list-item") {
        Display::ListItem
    } else if is_lit(v, "table") {
        Display::Table
    } else if is_lit(v, "table-row-group") || is_lit(v, "thead") || is_lit(v, "tbody") || is_lit(v, "tfoot") {
        Display::TableRowGroup
    } else if is_lit(v, "table-row") {
        Display::TableRow
    } else if is_lit(v, "table-cell") {
        Display::TableCell
    } else if is_lit(v, "none") {
        Display::NoDisplay
    } else {
        cur
    }
}

fn weight_value(v: &[char], cur: u16) -> (r: u16)
    ensures
        r == weight_of(v@, cur),
{
    if is_lit(v, "normal") {
        400
    } else if is_lit(v, "bold") || is_lit(v, "bolder") {
        700
    } else if is_lit(v, "lighter") {
        300
    } else {
        match parse_u16_exec(v) {
            Some(n) => n,
            None => cur,
        }
    }
}

fn text_align_value(v: &[char]) -> (r: TextAlign)
    ensures
        r == text_align_of(v@),
{
    if is_lit(v, "right") {
        TextAlign::Right
    } else if is_lit(v, "center") {
        TextAlign::Center
    } else if is_lit(v, "justify") {
        TextAlign::Justify
    } else {
        TextAlign::Left
    }
}

fn vertical_align_value(v: &[char]) -> (r: VerticalAlign)
    ensures
        r == vertical_align_of(v@),
{
    if is_lit(v, "top") {
        VerticalAlign::Top
    } else if is_lit(v, "middle") {
        VerticalAlign::Middle
    } else if is_lit(v, "bottom") {
        VerticalAlign::Bottom
    } else {
        VerticalAlign::Baseline
    }
}

fn float_value(v: &[char]) -> (r: Float)
    ensures
        r == float_of(v@),
{
    if is_lit(v, "left") {
        Float::Left
    } else if is_lit(v, "right") {
        Float::Right
    } else {
        Float::NoFloat
    }
}

fn is_background_name(n: &[char]) -> (b: bool)
    ensures
        b == is_background_property(n@),
{
    is_lit(n, "background-color") || is_lit(n, "background") || is_lit(n, "background-image")
}

/// Whether applying `name: value` would slice through a character (or backwards).
pub fn keyword_value_panics(name: &str, value: &str) -> (b: bool)
    ensures
        b == keyword_panics(name@, trim(value@)),
{
    let n = chars_of(name);
    let vc = chars_of(value);
    let v = trimmed(vc.as_slice());
    if is_lit(n.as_slice(), "color") {
        return color_panics_exec(v.as_slice());
    }
    if is_background_name(n.as_slice()) {
        let lg = chars_of("linear-gradient");
        if contains_exec(v.as_slice(), lg.as_slice()) {
            let vs = string_of(v.as_slice());
            return gradient_panics_exec(vs.as_str());
        }
        let url = chars_of("url");
        if has_prefix(v.as_slice(), url.as_slice()) || is_lit(v.as_slice(), "transparent") || is_lit(v.as_slice(), "none") {
            return false;
        }
        return color_panics_exec(v.as_slice());
    }
    false
}

impl KeywordStyle {
    /// The initial values: inline display, no font family, weight 400, upright, black
    /// text, no background, left and baseline alignment, wrapping, no float, clear or
    /// page breaks.
    pub fn initial() -> (s: KeywordStyle)
        ensures
            s@ == KeywordStyle::initial_view(),
    {
        let s = KeywordStyle {
            display: Display::Inline,
            font_family: Vec::new(),
            font_weight: 400,
            italic: false,
            color: [0, 0, 0, 255],
            background: None,
            background_gradient: None,
            text_align: TextAlign::Left,
            vertical_align: VerticalAlign::Baseline,
            white_space_nowrap: false,
            float: Float::NoFloat,
            clear: false,
            page_break_after: false,
            page_break_before: false,
        };
        assert(s@.font_family =~= Seq::<Seq<char>>::empty());
        assert(s@.color =~= seq![0u8, 0u8, 0u8, 255u8]);
        s
    }

    /// The base style of a child of `parent`: the inherited properties (font family,
    /// weight and style, color, text alignment, white-space) copied, the rest initial.
    pub fn inherited_from(parent: &KeywordStyle) -> (s: KeywordStyle)
        ensures
            s@ == (KeywordStyleV {
                font_family: parent@.font_family,
                font_weight: parent@.font_weight,
                italic: parent@.italic,
                color: parent@.color,
                text_align: parent@.text_align,
                white_space_nowrap: parent@.white_space_nowrap,
                ..KeywordStyle::initial_view()
            }),
    {
        let mut s = KeywordStyle::initial();
        let mut fam: Vec<String> = Vec::new();
        for k in 0..parent.font_family.len()
            invariant
                crate::style::strings_view(fam@) == crate::style::strings_view(parent.font_family@.take(k as int)),
        {
            let f = parent.font_family[k].clone();
            let ghost f0 = fam@;
            fam.push(f);
            assert(crate::style::strings_view(fam@) =~= crate::style::strings_view(f0).push(f@));
            assert(parent.font_family@.take(k + 1) =~= parent.font_family@.take(k as int).push(parent.font_family@[k as int]));
            assert(crate::style::strings_view(parent.font_family@.take(k + 1)) =~= crate::style::strings_view(parent.font_family@.take(k as int)).push(f@));
        }
        assert(parent.font_family@.take(parent.font_family.len() as int) =~= parent.font_family@);
        s.font_family = fam;
        s.font_weight = parent.font_weight;
        s.italic = parent.italic;
        s.color = parent.color;
        s.text_align = parent.text_align;
        s.white_space_nowrap = parent.white_space_nowrap;
        s
    }

    pub open spec fn initial_view() -> KeywordStyleV {
        KeywordStyleV {
            display: Display::Inline,
            font_family: seq![],
            font_weight: 400,
            italic: false,
            color: seq![0u8, 0u8, 0u8, 255u8],
            background: None,
            background_gradient: None,
            text_align: TextAlign::Left,
            vertical_align: VerticalAlign::Baseline,
            white_space_nowrap: false,
            float: Float::NoFloat,
            clear: false,
            page_break_after: false,
            page_break_before: false,
        }
    }

    /// Apply the declaration `name: value` when `name` takes a keyword, color or font
    /// list; returns whether it does. Other properties are left to the caller.
    pub fn apply_keyword(&mut self, name: &str, value: &str) -> (handled: bool)
        requires
            !keyword_panics(name@, trim(value@)),
        ensures
            handled == is_keyword_property(name@),
            final(self)@ == keyword_apply(old(self)@, name@, trim(value@)),
            name@ == "text-align"@ ==> final(self)@.text_align == (if trim(value@) == "right"@ {
                TextAlign::Right
            } else if trim(value@) == "center"@ {
                TextAlign::Center
            } else if trim(value@) == "justify"@ {
                TextAlign::Justify
            } else {
                TextAlign::Left
            }),
    {
        proof {
            lemma_text_align_keywords(old(self)@, trim(value@));
        }
        let n = chars_of(name);
        let vc = chars_of(value);
        let v = trimmed(vc.as_slice());
        let vs = v.as_slice();
        let ns = n.as_slice();
        if is_lit(ns, "display") {
            self.display = display_value(vs, self.display);
            true
        } else if is_lit(ns, "font-family") {
            self.font_family = family_list_exec(vs);
            true
        } else if is_lit(ns, "font-weight") {
            self.font_weight = weight_value(vs, self.font_weight);
            true
        } else if is_lit(ns, "font-style") {
            self.italic = is_lit(vs, "italic") || is_lit(vs, "oblique");
            true
        } else if is_lit(ns, "color") {
            match parse_color_chars(vs, self.color) {
                Some(c) => {
                    self.color = c;
                },
                None => {},
            }
            true
        } else if is_background_name(ns) {
            self.apply_background(vs);
            true
        } else {
            self.apply_layout_keyword(ns, vs)
        }
    }

    fn apply_background(&mut self, vs: &[char])
        requires
            !(if contains(vs@, "linear-gradient"@) {
                gradient_panics(vs@)
            } else {
                !starts_with(vs@, "url"@) && vs@ != "transparent"@ && vs@ != "none"@ && color_panics(vs@)
            }),
        ensures
            final(self)@ == background_apply(old(self)@, vs@),
    {
        let lg = chars_of("linear-gradient");
        let url = chars_of("url");
        if contains_exec(vs, lg.as_slice()) {
            let text = string_of(vs);
            self.background_gradient = parse_gradient(text.as_str(), self.color);
        } else if has_prefix(vs, url.as_slice()) {
        } else if is_lit(vs, "transparent") || is_lit(vs, "none") {
            self.background = None;
        } else {
            match parse_color_chars(vs, self.color) {
                Some(c) => {
                    self.background = Some(c);
                },
                None => {},
            }
        }
    }

    #[verifier::rlimit(40)]
    #[verifier::spinoff_prover]
    fn apply_layout_keyword(&mut self, ns: &[char], vs: &[char]) -> (handled: bool)
        ensures
            handled == is_layout_keyword(ns@),
            final(self)@ == layout_keyword_apply(old(self)@, ns@, vs@),
    {
        if is_lit(ns, "text-align") {
            self.text_align = text_align_value(vs);
        } else if is_lit(ns, "vertical-align") {
            self.vertical_align = vertical_align_value(vs);
        } else if is_lit(ns, "white-space") {
            self.white_space_nowrap = is_lit(vs, "nowrap") || is_lit(vs, "pre");
        } else if is_lit(ns, "float") {
            self.float = float_value(vs);
        } else if is_lit(ns, "clear") {
            self.clear = is_lit(vs, "both") || is_lit(vs, "left") || is_lit(vs, "right");
        } else if is_lit(ns, "page-break-after") || is_lit(ns, "break-after") {
            self.page_break_after = is_lit(vs, "always") || is_lit(vs, "page");
        } else if is_lit(ns, "page-break-before") || is_lit(ns, "break-before") {
            self.page_break_before = is_lit(vs, "always") || is_lit(vs, "page");
        } else {
            return false;
        }
        true
    }
}

} // verus!
