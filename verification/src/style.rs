//! A pragmatic CSS reader: stylesheets and their rules, selectors and their
//! specificity, colors, lengths and media queries. Numbers in colors and lengths are read
//! as exact decimals.
use vstd::prelude::*;

use crate::css::{block_cut_ok, close_scan, eq_chars, lemma_close_scan, opt_cat, pairs_view, strip_important, strip_important_exec, stripped, strip_comments};
use crate::number::{
    finite_exponent, finite_mantissa, min_nat, pow10, scaled_exact, scaled_floor, scaled_floor_exec,
    scan_float, val_cap, FloatSyntax, float_syntax,
};
use vstd::string::StringSliceAdditionalSpecFns;

use crate::text::{
    chars_of, copy_range, ends_with, has_prefix, has_suffix, lower, lower_of, split_chars,
    split_on, starts_with, string_of, trim, trimmed,
};

verus! {

#[derive(Clone, Copy, PartialEq, Eq, Debug)]
pub enum Display {
    Block,
    Inline,
    InlineBlock,
    ListItem,
    Table,
    TableRowGroup,
    TableRow,
    TableCell,
    /// `display: none` (the name `None` is taken by `Option`).
    NoDisplay,
}

#[derive(Clone, Copy, PartialEq, Eq, Debug)]
pub enum Float {
    /// `float: none`.
    NoFloat,
    Left,
    Right,
}

#[derive(Clone, Copy, PartialEq, Eq, Debug)]
pub enum TextAlign {
    Left,
    Right,
    Center,
    Justify,
}

#[derive(Clone, Copy, PartialEq, Eq, Debug)]
pub enum VerticalAlign {
    Top,
    Middle,
    Bottom,
    Baseline,
}

/// Red, green, blue, alpha.
pub type Rgba = [u8; 4];

/// A two-stop linear gradient, horizontal or vertical.
#[derive(Clone, Copy, Debug)]
pub struct Gradient {
    pub from: Rgba,
    pub to: Rgba,
    pub horizontal: bool,
}

// ----- colors -----

/// The value of a hexadecimal digit.
pub open spec fn hexval(c: char) -> Option<nat> {
    if '0' <= c && c <= '9' {
        Some((c as int - 48) as nat)
    } else if 'a' <= c && c <= 'f' {
        Some((c as int - 87) as nat)
    } else if 'A' <= c && c <= 'F' {
        Some((c as int - 55) as nat)
    } else {
        None
    }
}

/// `u8::from_str_radix` of the two characters `a b` in base 16 (a leading `+` is a sign).
pub open spec fn hex_pair(a: char, b: char) -> Option<u8> {
    if a == '+' {
        match hexval(b) {
            Some(v) => Some(v as u8),
            None => None,
        }
    } else {
        match (hexval(a), hexval(b)) {
            (Some(x), Some(y)) => Some((x * 16 + y) as u8),
            _ => None,
        }
    }
}

pub open spec fn all_ascii(s: Seq<char>) -> bool {
    forall|i: int| 0 <= i < s.len() ==> (s[i] as u32) < 0x80
}

/// Number of UTF-8 bytes of one character.
pub open spec fn utf8_width(c: char) -> nat {
    if (c as u32) < 0x80 {
        1
    } else if (c as u32) < 0x800 {
        2
    } else if (c as u32) < 0x10000 {
        3
    } else {
        4
    }
}

/// Number of UTF-8 bytes of a text.
pub open spec fn byte_len(s: Seq<char>) -> nat
    decreases s.len(),
{
    if s.len() == 0 {
        0
    } else {
        byte_len(s.drop_last()) + utf8_width(s.last())
    }
}

/// Is byte offset `b` a character boundary of `s`?
pub open spec fn is_boundary(s: Seq<char>, b: nat) -> bool {
    exists|k: int| 0 <= k <= s.len() && byte_len(s.take(k)) == b
}

/// Where the byte slicing of a hex color would cut through a character.
pub open spec fn hex_panics(h: Seq<char>) -> bool {
    let n = byte_len(h);
    ||| (n == 3 && !all_ascii(h))
    ||| ((n == 6 || n == 8) && (!is_boundary(h, 2) || !is_boundary(h, 4) || (n == 8 && !is_boundary(h, 6))))
}

/// `#rgb`, `#rrggbb`, `#rrggbbaa` (after trimming).
pub open spec fn parse_hex_spec(hex: Seq<char>) -> Option<Seq<u8>> {
    let h = trim(hex);
    if !all_ascii(h) {
        None
    } else if h.len() == 3 {
        match (hex_pair(h[0], h[0]), hex_pair(h[1], h[1]), hex_pair(h[2], h[2])) {
            (Some(r), Some(g), Some(b)) => Some(seq![r, g, b, 255u8]),
            _ => None,
        }
    } else if h.len() == 6 {
        match (hex_pair(h[0], h[1]), hex_pair(h[2], h[3]), hex_pair(h[4], h[5])) {
            (Some(r), Some(g), Some(b)) => Some(seq![r, g, b, 255u8]),
            _ => None,
        }
    } else if h.len() == 8 {
        match (hex_pair(h[0], h[1]), hex_pair(h[2], h[3]), hex_pair(h[4], h[5]), hex_pair(h[6], h[7])) {
            (Some(r), Some(g), Some(b), Some(a)) => Some(seq![r, g, b, a]),
            _ => None,
        }
    } else {
        None
    }
}

/// A number read as by `str::parse::<f32>`, scaled by `m`, then converted with `as u8`:
/// truncated, negatives and NaN to 0, large values to 255.
pub open spec fn number_to_u8(s: Seq<char>, m: nat) -> u8 {
    match float_syntax(s) {
        FloatSyntax::Inf { neg } => if neg {
            0
        } else {
            255
        },
        FloatSyntax::Finite { neg, .. } => if neg {
            0
        } else {
            min_nat(scaled_floor(m, finite_mantissa(s), finite_exponent(s)), 255) as u8
        },
        _ => 0,
    }
}

/// The trimmed pieces that read as numbers, in order.
pub open spec fn number_pieces(pieces: Seq<Seq<char>>) -> Seq<Seq<char>>
    decreases pieces.len(),
{
    if pieces.len() == 0 {
        seq![]
    } else {
        let rest = number_pieces(pieces.drop_last());
        let t = trim(pieces.last());
        if float_syntax(t) is Invalid {
            rest
        } else {
            rest.push(t)
        }
    }
}

/// `rgb(r, g, b)` channels.
pub open spec fn rgb_spec(t: Seq<char>) -> Option<Seq<u8>> {
    if starts_with(t, "rgb("@) && ends_with(t.skip(4), ")"@) {
        let c = number_pieces(split_on(t.skip(4).drop_last(), ','));
        if c.len() == 3 {
            Some(seq![number_to_u8(c[0], 1), number_to_u8(c[1], 1), number_to_u8(c[2], 1), 255u8])
        } else {
            None
        }
    } else {
        None
    }
}

/// `rgba(r, g, b, a)` channels; alpha is a fraction of 255.
pub open spec fn rgba_spec(t: Seq<char>) -> Option<Seq<u8>> {
    if starts_with(t, "rgba("@) && ends_with(t.skip(5), ")"@) {
        let c = number_pieces(split_on(t.skip(5).drop_last(), ','));
        if c.len() == 4 {
            Some(
                seq![
                    number_to_u8(c[0], 1),
                    number_to_u8(c[1], 1),
                    number_to_u8(c[2], 1),
                    number_to_u8(c[3], 255),
                ],
            )
        } else {
            None
        }
    } else {
        None
    }
}

pub open spec fn rgb3(r: u8, g: u8, b: u8) -> Option<Seq<u8>> {
    Some(seq![r, g, b, 255u8])
}

/// The named colors (already lower-cased).
pub open spec fn named_color_spec(name: Seq<char>) -> Option<Seq<u8>> {
    if name == "black"@ {
        rgb3(0, 0, 0)
    } else if name == "white"@ {
        rgb3(255, 255, 255)
    } else if name == "red"@ {
        rgb3(255, 0, 0)
    } else if name == "green"@ {
        rgb3(0, 128, 0)
    } else if name == "blue"@ {
        rgb3(0, 0, 255)
    } else if name == "gray"@ || name == "grey"@ {
        rgb3(128, 128, 128)
    } else if name == "lightgray"@ || name == "lightgrey"@ {
        rgb3(211, 211, 211)
    } else if name == "darkgray"@ || name == "darkgrey"@ {
        rgb3(169, 169, 169)
    } else if name == "silver"@ {
        rgb3(192, 192, 192)
    } else if name == "orange"@ {
        rgb3(255, 165, 0)
    } else if name == "yellow"@ {
        rgb3(255, 255, 0)
    } else if name == "navy"@ {
        rgb3(0, 0, 128)
    } else if name == "teal"@ {
        rgb3(0, 128, 128)
    } else if name == "maroon"@ {
        rgb3(128, 0, 0)
    } else if name == "purple"@ {
        rgb3(128, 0, 128)
    } else if name == "transparent"@ {
        Some(seq![0u8, 0u8, 0u8, 0u8])
    } else {
        None
    }
}

/// A text that neither starts nor ends with whitespace is its own trim.
proof fn lemma_trim_plain(s: Seq<char>)
    requires
        s.len() > 0,
        !crate::text::is_ws(s[0]),
        !crate::text::is_ws(s[s.len() - 1]),
    ensures
        trim(s) == s,
{
    crate::text::lemma_lead_ws(s, 0);
    assert(crate::text::trim_start(s) =~= s);
    crate::text::lemma_trail_ws(s, 0);
    assert(s.take(s.len() as int) =~= s);
}

/// The letters of the color names and of their hex codes, so that they are told
/// apart and read.
proof fn lemma_color_literals()
    ensures
        "black"@.len() == 5 && "black"@[0] == 'b' && "black"@[1] == 'l' && "black"@[2] == 'a' && "black"@[3] == 'c' && "black"@[4] == 'k',
        "white"@.len() == 5 && "white"@[0] == 'w' && "white"@[1] == 'h' && "white"@[2] == 'i' && "white"@[3] == 't' && "white"@[4] == 'e',
        "red"@.len() == 3 && "red"@[0] == 'r' && "red"@[1] == 'e' && "red"@[2] == 'd',
        "green"@.len() == 5 && "green"@[0] == 'g' && "green"@[1] == 'r' && "green"@[2] == 'e' && "green"@[3] == 'e' && "green"@[4] == 'n',
        "blue"@.len() == 4 && "blue"@[0] == 'b' && "blue"@[1] == 'l' && "blue"@[2] == 'u' && "blue"@[3] == 'e',
        "gray"@.len() == 4 && "gray"@[0] == 'g' && "gray"@[1] == 'r' && "gray"@[2] == 'a' && "gray"@[3] == 'y',
        "grey"@.len() == 4 && "grey"@[0] == 'g' && "grey"@[1] == 'r' && "grey"@[2] == 'e' && "grey"@[3] == 'y',
        "lightgray"@.len() == 9 && "lightgray"@[0] == 'l' && "lightgray"@[1] == 'i' && "lightgray"@[2] == 'g' && "lightgray"@[3] == 'h' && "lightgray"@[4] == 't' && "lightgray"@[5] == 'g' && "lightgray"@[6] == 'r' && "lightgray"@[7] == 'a' && "lightgray"@[8] == 'y',
        "lightgrey"@.len() == 9 && "lightgrey"@[0] == 'l' && "lightgrey"@[1] == 'i' && "lightgrey"@[2] == 'g' && "lightgrey"@[3] == 'h' && "lightgrey"@[4] == 't' && "lightgrey"@[5] == 'g' && "lightgrey"@[6] == 'r' && "lightgrey"@[7] == 'e' && "lightgrey"@[8] == 'y',
        "darkgray"@.len() == 8 && "darkgray"@[0] == 'd' && "darkgray"@[1] == 'a' && "darkgray"@[2] == 'r' && "darkgray"@[3] == 'k' && "darkgray"@[4] == 'g' && "darkgray"@[5] == 'r' && "darkgray"@[6] == 'a' && "darkgray"@[7] == 'y',
        "darkgrey"@.len() == 8 && "darkgrey"@[0] == 'd' && "darkgrey"@[1] == 'a' && "darkgrey"@[2] == 'r' && "darkgrey"@[3] == 'k' && "darkgrey"@[4] == 'g' && "darkgrey"@[5] == 'r' && "darkgrey"@[6] == 'e' && "darkgrey"@[7] == 'y',
        "silver"@.len() == 6 && "silver"@[0] == 's' && "silver"@[1] == 'i' && "silver"@[2] == 'l' && "silver"@[3] == 'v' && "silver"@[4] == 'e' && "silver"@[5] == 'r',
        "orange"@.len() == 6 && "orange"@[0] == 'o' && "orange"@[1] == 'r' && "orange"@[2] == 'a' && "orange"@[3] == 'n' && "orange"@[4] == 'g' && "orange"@[5] == 'e',
        "yellow"@.len() == 6 && "yellow"@[0] == 'y' && "yellow"@[1] == 'e' && "yellow"@[2] == 'l' && "yellow"@[3] == 'l' && "yellow"@[4] == 'o' && "yellow"@[5] == 'w',
        "navy"@.len() == 4 && "navy"@[0] == 'n' && "navy"@[1] == 'a' && "navy"@[2] == 'v' && "navy"@[3] == 'y',
        "teal"@.len() == 4 && "teal"@[0] == 't' && "teal"@[1] == 'e' && "teal"@[2] == 'a' && "teal"@[3] == 'l',
        "maroon"@.len() == 6 && "maroon"@[0] == 'm' && "maroon"@[1] == 'a' && "maroon"@[2] == 'r' && "maroon"@[3] == 'o' && "maroon"@[4] == 'o' && "maroon"@[5] == 'n',
        "purple"@.len() == 6 && "purple"@[0] == 'p' && "purple"@[1] == 'u' && "purple"@[2] == 'r' && "purple"@[3] == 'p' && "purple"@[4] == 'l' && "purple"@[5] == 'e',
        "transparent"@.len() == 11 && "transparent"@[0] == 't' && "transparent"@[1] == 'r' && "transparent"@[2] == 'a' && "transparent"@[3] == 'n' && "transparent"@[4] == 's' && "transparent"@[5] == 'p' && "transparent"@[6] == 'a' && "transparent"@[7] == 'r' && "transparent"@[8] == 'e' && "transparent"@[9] == 'n' && "transparent"@[10] == 't',
        "000000"@.len() == 6 && "000000"@[0] == '0' && "000000"@[1] == '0' && "000000"@[2] == '0' && "000000"@[3] == '0' && "000000"@[4] == '0' && "000000"@[5] == '0',
        "00000000"@.len() == 8 && "00000000"@[0] == '0' && "00000000"@[1] == '0' && "00000000"@[2] == '0' && "00000000"@[3] == '0' && "00000000"@[4] == '0' && "00000000"@[5] == '0' && "00000000"@[6] == '0' && "00000000"@[7] == '0',
        "000080"@.len() == 6 && "000080"@[0] == '0' && "000080"@[1] == '0' && "000080"@[2] == '0' && "000080"@[3] == '0' && "000080"@[4] == '8' && "000080"@[5] == '0',
        "0000ff"@.len() == 6 && "0000ff"@[0] == '0' && "0000ff"@[1] == '0' && "0000ff"@[2] == '0' && "0000ff"@[3] == '0' && "0000ff"@[4] == 'f' && "0000ff"@[5] == 'f',
        "008000"@.len() == 6 && "008000"@[0] == '0' && "008000"@[1] == '0' && "008000"@[2] == '8' && "008000"@[3] == '0' && "008000"@[4] == '0' && "008000"@[5] == '0',
        "008080"@.len() == 6 && "008080"@[0] == '0' && "008080"@[1] == '0' && "008080"@[2] == '8' && "008080"@[3] == '0' && "008080"@[4] == '8' && "008080"@[5] == '0',
        "800000"@.len() == 6 && "800000"@[0] == '8' && "800000"@[1] == '0' && "800000"@[2] == '0' && "800000"@[3] == '0' && "800000"@[4] == '0' && "800000"@[5] == '0',
        "800080"@.len() == 6 && "800080"@[0] == '8' && "800080"@[1] == '0' && "800080"@[2] == '0' && "800080"@[3] == '0' && "800080"@[4] == '8' && "800080"@[5] == '0',
        "808080"@.len() == 6 && "808080"@[0] == '8' && "808080"@[1] == '0' && "808080"@[2] == '8' && "808080"@[3] == '0' && "808080"@[4] == '8' && "808080"@[5] == '0',
        "a9a9a9"@.len() == 6 && "a9a9a9"@[0] == 'a' && "a9a9a9"@[1] == '9' && "a9a9a9"@[2] == 'a' && "a9a9a9"@[3] == '9' && "a9a9a9"@[4] == 'a' && "a9a9a9"@[5] == '9',
        "c0c0c0"@.len() == 6 && "c0c0c0"@[0] == 'c' && "c0c0c0"@[1] == '0' && "c0c0c0"@[2] == 'c' && "c0c0c0"@[3] == '0' && "c0c0c0"@[4] == 'c' && "c0c0c0"@[5] == '0',
        "d3d3d3"@.len() == 6 && "d3d3d3"@[0] == 'd' && "d3d3d3"@[1] == '3' && "d3d3d3"@[2] == 'd' && "d3d3d3"@[3] == '3' && "d3d3d3"@[4] == 'd' && "d3d3d3"@[5] == '3',
        "ff0000"@.len() == 6 && "ff0000"@[0] == 'f' && "ff0000"@[1] == 'f' && "ff0000"@[2] == '0' && "ff0000"@[3] == '0' && "ff0000"@[4] == '0' && "ff0000"@[5] == '0',
        "ffa500"@.len() == 6 && "ffa500"@[0] == 'f' && "ffa500"@[1] == 'f' && "ffa500"@[2] == 'a' && "ffa500"@[3] == '5' && "ffa500"@[4] == '0' && "ffa500"@[5] == '0',
        "ffff00"@.len() == 6 && "ffff00"@[0] == 'f' && "ffff00"@[1] == 'f' && "ffff00"@[2] == 'f' && "ffff00"@[3] == 'f' && "ffff00"@[4] == '0' && "ffff00"@[5] == '0',
        "ffffff"@.len() == 6 && "ffffff"@[0] == 'f' && "ffffff"@[1] == 'f' && "ffffff"@[2] == 'f' && "ffffff"@[3] == 'f' && "ffffff"@[4] == 'f' && "ffffff"@[5] == 'f',
{
    reveal_strlit("black");
    reveal_strlit("white");
    reveal_strlit("red");
    reveal_strlit("green");
    reveal_strlit("blue");
    reveal_strlit("gray");
    reveal_strlit("grey");
    reveal_strlit("lightgray");
    reveal_strlit("lightgrey");
    reveal_strlit("darkgray");
    reveal_strlit("darkgrey");
    reveal_strlit("silver");
    reveal_strlit("orange");
    reveal_strlit("yellow");
    reveal_strlit("navy");
    reveal_strlit("teal");
    reveal_strlit("maroon");
    reveal_strlit("purple");
    reveal_strlit("transparent");
    reveal_strlit("000000");
    reveal_strlit("00000000");
    reveal_strlit("000080");
    reveal_strlit("0000ff");
    reveal_strlit("008000");
    reveal_strlit("008080");
    reveal_strlit("800000");
    reveal_strlit("800080");
    reveal_strlit("808080");
    reveal_strlit("a9a9a9");
    reveal_strlit("c0c0c0");
    reveal_strlit("d3d3d3");
    reveal_strlit("ff0000");
    reveal_strlit("ffa500");
    reveal_strlit("ffff00");
    reveal_strlit("ffffff");
}

/// Each named color is the color of its CSS hex code: black `000000`, white
/// `ffffff`, red `ff0000`, green `008000`, blue `0000ff`, gray `808080`, light gray
/// `d3d3d3`, dark gray `a9a9a9`, silver `c0c0c0`, orange `ffa500`, yellow `ffff00`,
/// navy `000080`, teal `008080`, maroon `800000`, purple `800080` (either spelling of
/// grey), and transparent is `00000000`.
#[verifier::spinoff_prover]
#[verifier::rlimit(60)]
pub proof fn lemma_named_colors_are_hex_codes()
    ensures
        named_color_spec("black"@) == parse_hex_spec("000000"@),
        named_color_spec("white"@) == parse_hex_spec("ffffff"@),
        named_color_spec("red"@) == parse_hex_spec("ff0000"@),
        named_color_spec("green"@) == parse_hex_spec("008000"@),
        named_color_spec("blue"@) == parse_hex_spec("0000ff"@),
        named_color_spec("gray"@) == parse_hex_spec("808080"@),
        named_color_spec("grey"@) == parse_hex_spec("808080"@),
        named_color_spec("lightgray"@) == parse_hex_spec("d3d3d3"@),
        named_color_spec("lightgrey"@) == parse_hex_spec("d3d3d3"@),
        named_color_spec("darkgray"@) == parse_hex_spec("a9a9a9"@),
        named_color_spec("darkgrey"@) == parse_hex_spec("a9a9a9"@),
        named_color_spec("silver"@) == parse_hex_spec("c0c0c0"@),
        named_color_spec("orange"@) == parse_hex_spec("ffa500"@),
        named_color_spec("yellow"@) == parse_hex_spec("ffff00"@),
        named_color_spec("navy"@) == parse_hex_spec("000080"@),
        named_color_spec("teal"@) == parse_hex_spec("008080"@),
        named_color_spec("maroon"@) == parse_hex_spec("800000"@),
        named_color_spec("purple"@) == parse_hex_spec("800080"@),
        named_color_spec("transparent"@) == parse_hex_spec("00000000"@),
{
    lemma_color_literals();
    assert(trim("000000"@) == "000000"@) by {
        lemma_trim_plain("000000"@);
    }
    assert(trim("00000000"@) == "00000000"@) by {
        lemma_trim_plain("00000000"@);
    }
    assert(trim("000080"@) == "000080"@) by {
        lemma_trim_plain("000080"@);
    }
    assert(trim("0000ff"@) == "0000ff"@) by {
        lemma_trim_plain("0000ff"@);
    }
    assert(trim("008000"@) == "008000"@) by {
        lemma_trim_plain("008000"@);
    }
    assert(trim("008080"@) == "008080"@) by {
        lemma_trim_plain("008080"@);
    }
    assert(trim("800000"@) == "800000"@) by {
        lemma_trim_plain("800000"@);
    }
    assert(trim("800080"@) == "800080"@) by {
        lemma_trim_plain("800080"@);
    }
    assert(trim("808080"@) == "808080"@) by {
        lemma_trim_plain("808080"@);
    }
    assert(trim("a9a9a9"@) == "a9a9a9"@) by {
        lemma_trim_plain("a9a9a9"@);
    }
    assert(trim("c0c0c0"@) == "c0c0c0"@) by {
        lemma_trim_plain("c0c0c0"@);
    }
    assert(trim("d3d3d3"@) == "d3d3d3"@) by {
        lemma_trim_plain("d3d3d3"@);
    }
    assert(trim("ff0000"@) == "ff0000"@) by {
        lemma_trim_plain("ff0000"@);
    }
    assert(trim("ffa500"@) == "ffa500"@) by {
        lemma_trim_plain("ffa500"@);
    }
    assert(trim("ffff00"@) == "ffff00"@) by {
        lemma_trim_plain("ffff00"@);
    }
    assert(trim("ffffff"@) == "ffffff"@) by {
        lemma_trim_plain("ffffff"@);
    }

}

/// A CSS color: `currentcolor` (any case), `#hex`, `rgb()`, `rgba()` or a named color.
pub open spec fn parse_color_spec(v: Seq<char>, current: Seq<u8>) -> Option<Seq<u8>> {
    let t = trim(v);
    if lower(t) == "currentcolor"@ {
        Some(current)
    } else if starts_with(t, "#"@) {
        parse_hex_spec(t.skip(1))
    } else if rgb_spec(t) is Some {
        rgb_spec(t)
    } else if rgba_spec(t) is Some {
        rgba_spec(t)
    } else {
        named_color_spec(lower(t))
    }
}

/// Where reading the color would slice a `#hex` value through a character.
pub open spec fn color_panics(v: Seq<char>) -> bool {
    let t = trim(v);
    lower(t) != "currentcolor"@ && starts_with(t, "#"@) && hex_panics(trim(t.skip(1)))
}

fn hexval_exec(c: char) -> (r: Option<u8>)
    ensures
        match hexval(c) {
            Some(v) => r == Some(v as u8) && v < 16,
            None => r is None,
        },
{
    if '0' <= c && c <= '9' {
        Some(((c as u32) - 48) as u8)
    } else if 'a' <= c && c <= 'f' {
        Some(((c as u32) - 87) as u8)
    } else if 'A' <= c && c <= 'F' {
        Some(((c as u32) - 55) as u8)
    } else {
        None
    }
}

fn hex_pair_exec(a: char, b: char) -> (r: Option<u8>)
    ensures
        r == hex_pair(a, b),
{
    if a == '+' {
        hexval_exec(b)
    } else {
        match (hexval_exec(a), hexval_exec(b)) {
            (Some(x), Some(y)) => Some(x * 16 + y),
            _ => None,
        }
    }
}

fn all_ascii_exec(s: &[char]) -> (b: bool)
    ensures
        b == all_ascii(s@),
{
    let mut i: usize = 0;
    while i < s.len()
        invariant
            i <= s.len(),
            forall|j: int| 0 <= j < i ==> (s@[j] as u32) < 0x80,
        decreases s.len() - i,
    {
        if (s[i] as u32) >= 0x80 {
            return false;
        }
        i += 1;
    }
    true
}

fn rgba_of(r: u8, g: u8, b: u8, a: u8) -> (c: Rgba)
    ensures
        c@ == seq![r, g, b, a],
{
    let c = [r, g, b, a];
    assert(c@ =~= seq![r, g, b, a]);
    c
}

fn parse_hex(hex: &[char]) -> (r: Option<Rgba>)
    ensures
        match parse_hex_spec(hex@) {
            Some(x) => r is Some && r->0@ == x,
            None => r is None,
        },
{
    let h = trimmed(hex);
    if !all_ascii_exec(h.as_slice()) {
        return None;
    }
    if h.len() == 3 {
        match (hex_pair_exec(h[0], h[0]), hex_pair_exec(h[1], h[1]), hex_pair_exec(h[2], h[2])) {
            (Some(r), Some(g), Some(b)) => Some(rgba_of(r, g, b, 255)),
            _ => None,
        }
    } else if h.len() == 6 {
        match (hex_pair_exec(h[0], h[1]), hex_pair_exec(h[2], h[3]), hex_pair_exec(h[4], h[5])) {
            (Some(r), Some(g), Some(b)) => Some(rgba_of(r, g, b, 255)),
            _ => None,
        }
    } else if h.len() == 8 {
        match (
            hex_pair_exec(h[0], h[1]),
            hex_pair_exec(h[2], h[3]),
            hex_pair_exec(h[4], h[5]),
            hex_pair_exec(h[6], h[7]),
        ) {
            (Some(r), Some(g), Some(b), Some(a)) => Some(rgba_of(r, g, b, a)),
            _ => None,
        }
    } else {
        None
    }
}

fn number_to_u8_exec(s: &[char], m: u64) -> (r: u8)
    requires
        1 <= m <= 255,
    ensures
        r == number_to_u8(s@, m as nat),
{
    let f = scan_float(s);
    if f.kind == 1 {
        if f.neg {
            0
        } else {
            255
        }
    } else if f.kind == 3 {
        if f.neg {
            0
        } else {
            let (q, _) = scaled_floor_exec(s, &f, m);
            if q > 255 {
                255
            } else {
                q as u8
            }
        }
    } else {
        0
    }
}

/// The trimmed pieces of `inner` (split on `,`) that read as numbers.
fn number_pieces_exec(inner: &[char]) -> (r: Vec<Vec<char>>)
    ensures
        r@.len() == number_pieces(split_on(inner@, ',')).len(),
        forall|i: int| 0 <= i < r@.len() ==> (#[trigger] r@[i])@ == number_pieces(split_on(inner@, ','))[i],
{
    let pieces = split_chars(inner, ',');
    let ghost all = split_on(inner@, ',');
    let mut r: Vec<Vec<char>> = Vec::new();
    let mut i: usize = 0;
    assert(all.take(0) =~= Seq::<Seq<char>>::empty());
    while i < pieces.len()
        invariant
            pieces@.len() == all.len(),
            forall|k: int| 0 <= k < pieces@.len() ==> (#[trigger] pieces@[k])@ == all[k],
            i <= pieces@.len(),
            r@.len() == number_pieces(all.take(i as int)).len(),
            forall|k: int| 0 <= k < r@.len() ==> (#[trigger] r@[k])@ == number_pieces(all.take(i as int))[k],
        decreases pieces.len() - i,
    {
        let t = trimmed(pieces[i].as_slice());
        let f = scan_float(t.as_slice());
        assert(all.take(i + 1).drop_last() =~= all.take(i as int));
        if f.kind != 0 {
            r.push(t);
        }
        i += 1;
    }
    assert(all.take(pieces@.len() as int) =~= all);
    r
}

fn rgb_exec(t: &[char]) -> (r: Option<Rgba>)
    ensures
        match rgb_spec(t@) {
            Some(x) => r is Some && r->0@ == x,
            None => r is None,
        },
{
    let pre = chars_of("rgb(");
    let close = chars_of(")");
    proof {
        reveal_strlit("rgb(");
        reveal_strlit(")");
    }
    if !has_prefix(t, pre.as_slice()) {
        return None;
    }
    let rest = copy_range(t, 4, t.len());
    assert(rest@ =~= t@.skip(4));
    if !has_suffix(rest.as_slice(), close.as_slice()) {
        return None;
    }
    let inner = copy_range(rest.as_slice(), 0, rest.len() - 1);
    assert(inner@ =~= rest@.drop_last());
    let c = number_pieces_exec(inner.as_slice());
    if c.len() == 3 {
        Some(
            rgba_of(
                number_to_u8_exec(c[0].as_slice(), 1),
                number_to_u8_exec(c[1].as_slice(), 1),
                number_to_u8_exec(c[2].as_slice(), 1),
                255,
            ),
        )
    } else {
        None
    }
}

fn rgba_exec(t: &[char]) -> (r: Option<Rgba>)
    ensures
        match rgba_spec(t@) {
            Some(x) => r is Some && r->0@ == x,
            None => r is None,
        },
{
    let pre = chars_of("rgba(");
    let close = chars_of(")");
    proof {
        reveal_strlit("rgba(");
        reveal_strlit(")");
    }
    if !has_prefix(t, pre.as_slice()) {
        return None;
    }
    let rest = copy_range(t, 5, t.len());
    assert(rest@ =~= t@.skip(5));
    if !has_suffix(rest.as_slice(), close.as_slice()) {
        return None;
    }
    let inner = copy_range(rest.as_slice(), 0, rest.len() - 1);
    assert(inner@ =~= rest@.drop_last());
    let c = number_pieces_exec(inner.as_slice());
    if c.len() == 4 {
        Some(
            rgba_of(
                number_to_u8_exec(c[0].as_slice(), 1),
                number_to_u8_exec(c[1].as_slice(), 1),
                number_to_u8_exec(c[2].as_slice(), 1),
                number_to_u8_exec(c[3].as_slice(), 255),
            ),
        )
    } else {
        None
    }
}

pub fn is_lit(s: &[char], lit: &str) -> (b: bool)
    ensures
        b == (s@ == lit@),
{
    let l = chars_of(lit);
    eq_chars(s, l.as_slice())
}

fn named_color(name: &[char]) -> (r: Option<Rgba>)
    ensures
        match named_color_spec(name@) {
            Some(x) => r is Some && r->0@ == x,
            None => r is None,
        },
{
    if is_lit(name, "black") {
        Some(rgba_of(0, 0, 0, 255))
    } else if is_lit(name, "white") {
        Some(rgba_of(255, 255, 255, 255))
    } else if is_lit(name, "red") {
        Some(rgba_of(255, 0, 0, 255))
    } else if is_lit(name, "green") {
        Some(rgba_of(0, 128, 0, 255))
    } else if is_lit(name, "blue") {
        Some(rgba_of(0, 0, 255, 255))
    } else if is_lit(name, "gray") || is_lit(name, "grey") {
        Some(rgba_of(128, 128, 128, 255))
    } else if is_lit(name, "lightgray") || is_lit(name, "lightgrey") {
        Some(rgba_of(211, 211, 211, 255))
    } else if is_lit(name, "darkgray") || is_lit(name, "darkgrey") {
        Some(rgba_of(169, 169, 169, 255))
    } else if is_lit(name, "silver") {
        Some(rgba_of(192, 192, 192, 255))
    } else if is_lit(name, "orange") {
        Some(rgba_of(255, 165, 0, 255))
    } else if is_lit(name, "yellow") {
        Some(rgba_of(255, 255, 0, 255))
    } else if is_lit(name, "navy") {
        Some(rgba_of(0, 0, 128, 255))
    } else if is_lit(name, "teal") {
        Some(rgba_of(0, 128, 128, 255))
    } else if is_lit(name, "maroon") {
        Some(rgba_of(128, 0, 0, 255))
    } else if is_lit(name, "purple") {
        Some(rgba_of(128, 0, 128, 255))
    } else if is_lit(name, "transparent") {
        Some(rgba_of(0, 0, 0, 0))
    } else {
        None
    }
}

pub fn parse_color_chars(v: &[char], current: Rgba) -> (r: Option<Rgba>)
    requires
        !color_panics(v@),
    ensures
        match parse_color_spec(v@, current@) {
            Some(x) => r is Some && r->0@ == x,
            None => r is None,
        },
{
    let t = trimmed(v);
    let low = lower_of(t.as_slice());
    if is_lit(low.as_slice(), "currentcolor") {
        return Some(current);
    }
    let hash = chars_of("#");
    proof {
        reveal_strlit("#");
    }
    if has_prefix(t.as_slice(), hash.as_slice()) {
        let hex = copy_range(t.as_slice(), 1, t.len());
        assert(hex@ =~= t@.skip(1));
        return parse_hex(hex.as_slice());
    }
    match rgb_exec(t.as_slice()) {
        Some(c) => return Some(c),
        None => {},
    }
    match rgba_exec(t.as_slice()) {
        Some(c) => return Some(c),
        None => {},
    }
    named_color(low.as_slice())
}

/// Read a CSS color; `current` is what `currentcolor` stands for.
proof fn lemma_byte_len_step(h: Seq<char>, k: int)
    requires
        0 <= k < h.len(),
    ensures
        byte_len(h.take(k + 1)) == byte_len(h.take(k)) + utf8_width(h[k]),
        byte_len(h.take(k)) <= byte_len(h.take(k + 1)),
{
    assert(h.take(k + 1).drop_last() =~= h.take(k));
}

fn utf8_width_exec(c: char) -> (w: usize)
    ensures
        w == utf8_width(c),
{
    let u = c as u32;
    if u < 0x80 {
        1
    } else if u < 0x800 {
        2
    } else if u < 0x10000 {
        3
    } else {
        4
    }
}

/// Whether the byte slicing of a hex color would cut through a character.
pub fn hex_panics_exec(h: &[char]) -> (b: bool)
    ensures
        b == hex_panics(h@),
{
    let ghost hs = h@;
    let mut acc: usize = 0;
    let mut at2 = false;
    let mut at4 = false;
    let mut at6 = false;
    let mut k: usize = 0;
    assert(hs.take(0) =~= Seq::<char>::empty());
    while k < h.len()
        invariant
            hs == h@,
            k <= h.len(),
            acc <= 9,
            acc == min_nat(byte_len(hs.take(k as int)), 9),
            at2 == (exists|j: int| 0 <= j <= k && byte_len(hs.take(j)) == 2),
            at4 == (exists|j: int| 0 <= j <= k && byte_len(hs.take(j)) == 4),
            at6 == (exists|j: int| 0 <= j <= k && byte_len(hs.take(j)) == 6),
            forall|a: int, b: int| 0 <= a <= b <= k ==> byte_len(hs.take(a)) <= byte_len(hs.take(b)),
        decreases h.len() - k,
    {
        proof {
            lemma_byte_len_step(hs, k as int);
        }
        let w = utf8_width_exec(h[k]);
        acc = if acc + w > 9 { 9 } else { acc + w };
        k += 1;
        proof {
            assert forall|a: int, b: int| 0 <= a <= b <= k implies byte_len(hs.take(a)) <= byte_len(hs.take(b)) by {
                if b == k && a < k {
                    assert(byte_len(hs.take(a)) <= byte_len(hs.take(k - 1)));
                }
            }
        }
        if acc == 2 {
            at2 = true;
        }
        if acc == 4 {
            at4 = true;
        }
        if acc == 6 {
            at6 = true;
        }
        proof {
            let bk = byte_len(hs.take(k as int));
            if !at2 {
                assert forall|j: int| 0 <= j <= k implies byte_len(hs.take(j)) != 2 by {
                    if j == k {
                        assert(bk != 2);
                    }
                }
            }
            if !at4 {
                assert forall|j: int| 0 <= j <= k implies byte_len(hs.take(j)) != 4 by {
                    if j == k {
                        assert(bk != 4);
                    }
                }
            }
            if !at6 {
                assert forall|j: int| 0 <= j <= k implies byte_len(hs.take(j)) != 6 by {
                    if j == k {
                        assert(bk != 6);
                    }
                }
            }
        }
    }
    assert(hs.take(hs.len() as int) =~= hs);
    proof {
        assert(at2 == is_boundary(hs, 2));
        assert(at4 == is_boundary(hs, 4));
        assert(at6 == is_boundary(hs, 6));
    }
    let ascii = all_ascii_exec(h);
    (acc == 3 && !ascii) || ((acc == 6 || acc == 8) && (!at2 || !at4 || (acc == 8 && !at6)))
}

/// Whether parsing `v` as a color would slice through a character.
pub fn color_panics_exec(v: &[char]) -> (b: bool)
    ensures
        b == color_panics(v@),
{
    let t = trimmed(v);
    let low = lower_of(t.as_slice());
    if is_lit(low.as_slice(), "currentcolor") {
        return false;
    }
    if t.len() > 0 && t[0] == '#' {
        let rest = copy_range(t.as_slice(), 1, t.len());
        let h = trimmed(rest.as_slice());
        proof {
            reveal_strlit("#");
            assert(t@.take(1) =~= seq![t@[0]]);
            assert(t@.take(1) =~= "#"@);
            assert(starts_with(t@, "#"@));
            assert(rest@ =~= t@.skip(1));
            assert(h@ == trim(t@.skip(1)));
        }
        hex_panics_exec(h.as_slice())
    } else {
        proof {
            reveal_strlit("#");
            if t@.len() > 0 {
                assert(t@.take(1)[0] == t@[0]);
            }
            assert(!starts_with(t@, "#"@));
        }
        false
    }
}

/// `parse_color`, or `None` where parsing would slice through a character.
pub fn try_parse_color(v: &str, current: Rgba) -> (r: Option<Option<Rgba>>)
    ensures
        r is None <==> color_panics(v@),
        r matches Some(x) ==> match parse_color_spec(v@, current@) {
            Some(c) => x is Some && x->0@ == c,
            None => x is None,
        },
{
    let c = chars_of(v);
    if color_panics_exec(c.as_slice()) {
        None
    } else {
        Some(parse_color_chars(c.as_slice(), current))
    }
}

pub fn parse_color(v: &str, current: Rgba) -> (r: Option<Rgba>)
    requires
        !color_panics(v@),
    ensures
        match parse_color_spec(v@, current@) {
            Some(x) => r is Some && r->0@ == x,
            None => r is None,
        },
{
    let c = chars_of(v);
    parse_color_chars(c.as_slice(), current)
}


// ----- selectors -----

/// One compound selector: tag, id and classes (all optional).
#[derive(Debug)]
pub struct Compound {
    pub tag: Option<String>,
    pub id: Option<String>,
    pub classes: Vec<String>,
}

pub ghost struct CompoundV {
    pub tag: Option<Seq<char>>,
    pub id: Option<Seq<char>>,
    pub classes: Seq<Seq<char>>,
}

pub open spec fn opt_view(o: Option<String>) -> Option<Seq<char>> {
    match o {
        Some(s) => Some(s@),
        None => None,
    }
}

pub open spec fn strings_view(v: Seq<String>) -> Seq<Seq<char>> {
    v.map_values(|s: String| s@)
}

impl View for Compound {
    type V = CompoundV;

    open spec fn view(&self) -> CompoundV {
        CompoundV { tag: opt_view(self.tag), id: opt_view(self.id), classes: strings_view(self.classes@) }
    }
}

/// A descendant chain of compounds (rightmost last) with its specificity.
#[derive(Debug)]
pub struct Selector {
    pub compounds: Vec<Compound>,
    pub spec: (u32, u32, u32),
}

pub ghost struct SelectorV {
    pub compounds: Seq<CompoundV>,
    pub spec: (u32, u32, u32),
}

impl View for Selector {
    type V = SelectorV;

    open spec fn view(&self) -> SelectorV {
        SelectorV { compounds: self.compounds@.map_values(|c: Compound| c@), spec: self.spec }
    }
}

/// Index of the first `:` or `[` (or the length).
pub open spec fn sel_cut(t: Seq<char>) -> nat
    decreases t.len(),
{
    if t.len() == 0 || t[0] == ':' || t[0] == '[' {
        0
    } else {
        1 + sel_cut(t.skip(1))
    }
}

/// The legacy single-colon pseudo-elements.
pub open spec fn is_pseudo_element(low: Seq<char>) -> bool {
    ||| starts_with(low, "::"@)
    ||| starts_with(low, ":before"@)
    ||| starts_with(low, ":after"@)
    ||| starts_with(low, ":first-line"@)
    ||| starts_with(low, ":first-letter"@)
    ||| starts_with(low, ":placeholder"@)
    ||| starts_with(low, ":selection"@)
    ||| starts_with(low, ":marker"@)
    ||| starts_with(low, ":backdrop"@)
}

pub open spec fn empty_compound() -> CompoundV {
    CompoundV { tag: None, id: None, classes: seq![] }
}

/// Store the token `cur` read after a `kind` marker (`.` class, `#` id, else tag).
pub open spec fn flush(kind: char, cur: Seq<char>, c: CompoundV) -> CompoundV {
    if cur.len() == 0 {
        c
    } else if kind == '.' {
        CompoundV { classes: c.classes.push(cur), ..c }
    } else if kind == '#' {
        CompoundV { id: Some(cur), ..c }
    } else {
        CompoundV { tag: Some(lower(cur)), ..c }
    }
}

/// The state after reading the characters of a compound's base.
pub open spec fn scan_base(b: Seq<char>) -> (char, Seq<char>, CompoundV)
    decreases b.len(),
{
    if b.len() == 0 {
        ('t', seq![], empty_compound())
    } else {
        let (k, cur, c) = scan_base(b.drop_last());
        let ch = b.last();
        if ch == '.' || ch == '#' {
            (ch, seq![], flush(k, cur, c))
        } else {
            (k, cur.push(ch), c)
        }
    }
}

pub open spec fn compound_of(base: Seq<char>) -> CompoundV {
    let (k, cur, c) = scan_base(base);
    let c2 = flush(k, cur, c);
    if c2.tag == Some("*"@) {
        CompoundV { tag: None, ..c2 }
    } else {
        c2
    }
}

/// A compound selector; `None` for an empty text, a pseudo-element, or a selector made
/// only of pseudo-classes or attribute tests.
pub open spec fn parse_compound_spec(text: Seq<char>) -> Option<CompoundV> {
    let t = trim(text);
    let cut = sel_cut(t) as int;
    let base = t.take(cut);
    let low = lower(t.skip(cut));
    if t.len() == 0 || is_pseudo_element(low) || base.len() == 0 {
        None
    } else {
        Some(compound_of(base))
    }
}

pub proof fn lemma_sel_cut(t: Seq<char>, k: int)
    requires
        0 <= k <= t.len(),
        forall|j: int| 0 <= j < k ==> t[j] != ':' && t[j] != '[',
        k == t.len() || t[k] == ':' || t[k] == '[',
    ensures
        sel_cut(t) == k,
    decreases k,
{
    if k > 0 {
        lemma_sel_cut(t.skip(1), k - 1);
    }
}

fn starts_lit(s: &[char], lit: &str) -> (b: bool)
    ensures
        b == starts_with(s@, lit@),
{
    let l = chars_of(lit);
    has_prefix(s, l.as_slice())
}

fn flush_exec(kind: char, cur: &mut Vec<char>, c: &mut Compound)
    ensures
        final(c)@ == flush(kind, old(cur)@, old(c)@),
        final(cur)@ == Seq::<char>::empty(),
{
    if cur.len() == 0 {
        return;
    }
    let token = string_of(cur.as_slice());
    if kind == '.' {
        c.classes.push(token);
        assert(strings_view(c.classes@) =~= strings_view(old(c).classes@).push(token@));
    } else if kind == '#' {
        c.id = Some(token);
    } else {
        let low = lower_of(cur.as_slice());
        c.tag = Some(string_of(low.as_slice()));
    }
    *cur = Vec::new();
}

fn compound_of_exec(base: &[char]) -> (c: Compound)
    ensures
        c@ == compound_of(base@),
{
    let mut c = Compound { tag: None, id: None, classes: Vec::new() };
    let mut cur: Vec<char> = Vec::new();
    let mut kind = 't';
    let mut i: usize = 0;
    assert(base@.take(0) =~= Seq::<char>::empty());
    assert(strings_view(c.classes@) =~= Seq::<Seq<char>>::empty());
    assert(c@ == empty_compound());
    while i < base.len()
        invariant
            i <= base.len(),
            scan_base(base@.take(i as int)) == (kind, cur@, c@),
        decreases base.len() - i,
    {
        let ch = base[i];
        assert(base@.take(i + 1).drop_last() =~= base@.take(i as int));
        if ch == '.' || ch == '#' {
            flush_exec(kind, &mut cur, &mut c);
            kind = ch;
        } else {
            cur.push(ch);
        }
        i += 1;
    }
    assert(base@.take(base@.len() as int) =~= base@);
    flush_exec(kind, &mut cur, &mut c);
    proof {
        reveal_strlit("*");
    }
    let star = chars_of("*");
    let is_star = match &c.tag {
        Some(t) => {
            let tc = chars_of(t.as_str());
            eq_chars(tc.as_slice(), star.as_slice())
        },
        None => false,
    };
    if is_star {
        c.tag = None;
    }
    c
}

fn parse_compound(text: &[char]) -> (r: Option<Compound>)
    ensures
        match parse_compound_spec(text@) {
            Some(x) => r is Some && r->0@ == x,
            None => r is None,
        },
{
    let t = trimmed(text);
    let mut cut: usize = 0;
    while cut < t.len() && t[cut] != ':' && t[cut] != '['
        invariant
            cut <= t.len(),
            forall|j: int| 0 <= j < cut ==> t@[j] != ':' && t@[j] != '[',
        decreases t.len() - cut,
    {
        cut += 1;
    }
    proof {
        lemma_sel_cut(t@, cut as int);
    }
    let base = copy_range(t.as_slice(), 0, cut);
    let suffix = copy_range(t.as_slice(), cut, t.len());
    assert(base@ =~= t@.take(cut as int));
    assert(suffix@ =~= t@.skip(cut as int));
    let low = lower_of(suffix.as_slice());
    if t.len() == 0 {
        return None;
    }
    let pe = starts_lit(low.as_slice(), "::") || starts_lit(low.as_slice(), ":before")
        || starts_lit(low.as_slice(), ":after") || starts_lit(low.as_slice(), ":first-line")
        || starts_lit(low.as_slice(), ":first-letter") || starts_lit(low.as_slice(), ":placeholder")
        || starts_lit(low.as_slice(), ":selection") || starts_lit(low.as_slice(), ":marker")
        || starts_lit(low.as_slice(), ":backdrop");
    if pe {
        return None;
    }
    if base.len() == 0 {
        return None;
    }
    Some(compound_of_exec(base.as_slice()))
}

/// Is the word a combinator (`>`, `+`, `~`)?
pub open spec fn is_combinator(w: Seq<char>) -> bool {
    w == ">"@ || w == "+"@ || w == "~"@
}

/// The compounds of the non-combinator words, or `None` when one does not parse.
pub open spec fn compounds_of(words: Seq<Seq<char>>) -> Option<Seq<CompoundV>>
    decreases words.len(),
{
    if words.len() == 0 {
        Some(seq![])
    } else {
        match compounds_of(words.drop_last()) {
            None => None,
            Some(cs) => if is_combinator(words.last()) {
                Some(cs)
            } else {
                match parse_compound_spec(words.last()) {
                    Some(c) => Some(cs.push(c)),
                    None => None,
                }
            },
        }
    }
}

pub open spec fn sat_u32(n: nat) -> u32 {
    if n > 0xffff_ffff {
        0xffff_ffff
    } else {
        n as u32
    }
}

/// Counts of ids, classes and tags over the compounds.
pub open spec fn count_ids(cs: Seq<CompoundV>) -> nat
    decreases cs.len(),
{
    if cs.len() == 0 {
        0
    } else {
        count_ids(cs.drop_last()) + if cs.last().id is Some {
            1nat
        } else {
            0nat
        }
    }
}

pub open spec fn count_classes(cs: Seq<CompoundV>) -> nat
    decreases cs.len(),
{
    if cs.len() == 0 {
        0
    } else {
        count_classes(cs.drop_last()) + cs.last().classes.len()
    }
}

pub open spec fn count_tags(cs: Seq<CompoundV>) -> nat
    decreases cs.len(),
{
    if cs.len() == 0 {
        0
    } else {
        count_tags(cs.drop_last()) + if cs.last().tag is Some {
            1nat
        } else {
            0nat
        }
    }
}

/// Specificity (ids, classes, tags); user-agent rules count no ids so that they rank
/// below author rules.
pub open spec fn specificity(cs: Seq<CompoundV>, ua: bool) -> (u32, u32, u32) {
    (if ua {
        0
    } else {
        sat_u32(count_ids(cs))
    }, sat_u32(count_classes(cs)), sat_u32(count_tags(cs)))
}

/// How a selector's specificity grows compound by compound: no compounds count
/// nothing, and each further compound adds one to the ids when it has an id (author
/// rules only: user-agent rules count no ids), its number of classes to the classes,
/// and one to the tags when it names a tag (below the `u32` ceiling, where counts stop).
pub proof fn lemma_specificity_counts(cs: Seq<CompoundV>, c: CompoundV, ua: bool)
    ensures
        specificity(seq![], ua) == (0u32, 0u32, 0u32),
        ({
            let before = specificity(cs, ua);
            let after = specificity(cs.push(c), ua);
            &&& before.0 < 0xffff_ffff ==> after.0 == before.0 + (if !ua && c.id is Some { 1int } else { 0int })
            &&& before.1 + c.classes.len() < 0xffff_ffff ==> after.1 == before.1 + c.classes.len()
            &&& before.2 < 0xffff_ffff ==> after.2 == before.2 + (if c.tag is Some { 1int } else { 0int })
        }),
{
    let n = cs.push(c);
    assert(n.drop_last() =~= cs);
    assert(n.last() == c);
}

/// A selector: words split on whitespace, combinators read as descendant.
pub open spec fn parse_selector_spec(text: Seq<char>, ua: bool) -> Option<SelectorV> {
    match compounds_of(crate::text::split_ws(text)) {
        None => None,
        Some(cs) => if cs.len() == 0 {
            None
        } else {
            Some(SelectorV { compounds: cs, spec: specificity(cs, ua) })
        },
    }
}

fn sat_add(a: u32, b: usize) -> (r: u32)
    ensures
        r == sat_u32((a + b) as nat),
{
    if b as u64 >= 0xffff_ffffu64 - a as u64 {
        0xffff_ffff
    } else {
        a + b as u32
    }
}

fn is_combinator_exec(w: &[char]) -> (b: bool)
    ensures
        b == is_combinator(w@),
{
    is_lit(w, ">") || is_lit(w, "+") || is_lit(w, "~")
}

/// Parse a selector: a descendant chain of compounds (other combinators read as
/// descendant) with its specificity; `None` when a compound cannot match elements.
pub fn parse_selector(text: &str, ua: bool) -> (r: Option<Selector>)
    ensures
        match parse_selector_spec(text@, ua) {
            Some(x) => r is Some && r->0@ == x,
            None => r is None,
        },
{
    let c = chars_of(text);
    parse_selector_chars(c.as_slice(), ua)
}

pub fn parse_selector_chars(text: &[char], ua: bool) -> (r: Option<Selector>)
    ensures
        match parse_selector_spec(text@, ua) {
            Some(x) => r is Some && r->0@ == x,
            None => r is None,
        },
{
    let words = crate::text::split_whitespace(text);
    let ghost all = crate::text::split_ws(text@);
    let mut compounds: Vec<Compound> = Vec::new();
    let mut ids: u32 = 0;
    let mut classes: u32 = 0;
    let mut tags: u32 = 0;
    let mut i: usize = 0;
    assert(all.take(0) =~= Seq::<Seq<char>>::empty());
    while i < words.len()
        invariant
            words@.len() == all.len(),
            forall|k: int| 0 <= k < words@.len() ==> (#[trigger] words@[k])@ == all[k],
            all == crate::text::split_ws(text@),
            i <= words@.len(),
            compounds_of(all.take(i as int)) == Some(compounds@.map_values(|c: Compound| c@)),
            ids == sat_u32(count_ids(compounds@.map_values(|c: Compound| c@))),
            classes == sat_u32(count_classes(compounds@.map_values(|c: Compound| c@))),
            tags == sat_u32(count_tags(compounds@.map_values(|c: Compound| c@))),
        decreases words.len() - i,
    {
        assert(all.take(i + 1).drop_last() =~= all.take(i as int));
        if !is_combinator_exec(words[i].as_slice()) {
            match parse_compound(words[i].as_slice()) {
                None => {
                    proof {
                        assert(compounds_of(all.take(i + 1)) is None);
                        lemma_compounds_of_none(all, i + 1);
                    }
                    return None;
                },
                Some(c) => {
                    let ghost before = compounds@.map_values(|c: Compound| c@);
                    if c.id.is_some() {
                        ids = sat_add(ids, 1);
                    }
                    classes = sat_add(classes, c.classes.len());
                    if c.tag.is_some() {
                        tags = sat_add(tags, 1);
                    }
                    compounds.push(c);
                    proof {
                        let after = compounds@.map_values(|c: Compound| c@);
                        assert(after =~= before.push(c@));
                        assert(after.drop_last() =~= before);
                        assert(c@.classes.len() == c.classes@.len());
                    }
                },
            }
        }
        i += 1;
    }
    assert(all.take(words@.len() as int) =~= all);
    if compounds.len() == 0 {
        return None;
    }
    let spec = (if ua {
        0
    } else {
        ids
    }, classes, tags);
    Some(Selector { compounds, spec })
}

/// A compound that starts with `[` or `:` (an attribute test or pseudo-class with no
/// tag, class or id before it) does not parse.
pub proof fn lemma_compound_needs_base(w: Seq<char>)
    requires
        trim(w).len() > 0,
        trim(w)[0] == ':' || trim(w)[0] == '[',
    ensures
        parse_compound_spec(w) is None,
{
    lemma_sel_cut(trim(w), 0);
    assert(trim(w).take(0).len() == 0);
}

/// One compound that does not parse drops the whole selector, so it matches nothing:
/// attribute-only and pseudo-class-only compounds, and pseudo-elements.
pub proof fn lemma_bad_compound_drops_selector(text: Seq<char>, ua: bool, k: int)
    requires
        0 <= k < crate::text::split_ws(text).len(),
        !is_combinator(crate::text::split_ws(text)[k]),
        parse_compound_spec(crate::text::split_ws(text)[k]) is None,
    ensures
        parse_selector_spec(text, ua) is None,
{
    lemma_bad_word_drops(crate::text::split_ws(text), k);
}

/// The pseudo-elements a selector may not target, as lower-case prefixes: the
/// double-colon form and the single-colon legacy names.
pub open spec fn pseudo_element_prefixes() -> Seq<Seq<char>> {
    seq![
        "::"@,
        ":before"@,
        ":after"@,
        ":first-line"@,
        ":first-letter"@,
        ":placeholder"@,
        ":selection"@,
        ":marker"@,
        ":backdrop"@,
    ]
}

/// A compound whose part after its base (from the first `:` on, with no `[` before
/// it) begins, in any letter case, with a pseudo-element does not parse, whatever
/// its base; and a selector with such a compound matches nothing.
pub proof fn lemma_pseudo_element_drops_selector(text: Seq<char>, ua: bool, k: int, cut: int, m: int)
    requires
        0 <= k < crate::text::split_ws(text).len(),
        0 <= m < pseudo_element_prefixes().len(),
        0 <= cut <= trim(crate::text::split_ws(text)[k]).len(),
        forall|j: int| 0 <= j < cut ==> trim(crate::text::split_ws(text)[k])[j] != ':' && trim(crate::text::split_ws(text)[k])[j] != '[',
        starts_with(lower(trim(crate::text::split_ws(text)[k]).skip(cut)), pseudo_element_prefixes()[m]),
    ensures
        parse_compound_spec(crate::text::split_ws(text)[k]) is None,
        parse_selector_spec(text, ua) is None,
{
    let w = crate::text::split_ws(text)[k];
    let t = trim(w);
    let low = lower(t.skip(cut));
    let pre = pseudo_element_prefixes()[m];
    reveal_strlit("::");
    reveal_strlit(":before");
    reveal_strlit(":after");
    reveal_strlit(":first-line");
    reveal_strlit(":first-letter");
    reveal_strlit(":placeholder");
    reveal_strlit(":selection");
    reveal_strlit(":marker");
    reveal_strlit(":backdrop");
    assert(pre.len() > 0 && pre[0] == ':');
    assert(low.take(pre.len() as int)[0] == low[0]);
    assert(cut < t.len());
    assert(t[cut] == ':') by {
        assert(low[0] == crate::text::lower_char(t[cut]));
        if 'A' <= t[cut] && t[cut] <= 'Z' {
            assert(crate::text::lower_char(t[cut]) != ':');
        }
    }
    lemma_sel_cut(t, cut);
    assert(is_pseudo_element(low));
    assert(!is_combinator(w)) by {
        reveal_strlit(">");
        reveal_strlit("+");
        reveal_strlit("~");
        if is_combinator(w) {
            assert(w.len() == 1);
            assert(!crate::text::is_ws(w[0]));
            assert(crate::text::lead_ws(w) == 0);
            assert(w.drop_last().len() == 0);
            assert(crate::text::trail_ws(w) == 0);
            assert(t =~= w);
            assert(t[cut] != ':');
        }
    }
    lemma_bad_word_drops(crate::text::split_ws(text), k);
}

proof fn lemma_bad_word_drops(words: Seq<Seq<char>>, k: int)
    requires
        0 <= k < words.len(),
        !is_combinator(words[k]),
        parse_compound_spec(words[k]) is None,
    ensures
        compounds_of(words) is None,
    decreases words.len(),
{
    if k < words.len() - 1 {
        let init = words.drop_last();
        assert(init[k] == words[k]);
        lemma_bad_word_drops(init, k);
    }
}

pub proof fn lemma_compounds_of_none(all: Seq<Seq<char>>, k: int)
    requires
        0 <= k <= all.len(),
        compounds_of(all.take(k)) is None,
    ensures
        compounds_of(all) is None,
    decreases all.len() - k,
{
    if k < all.len() {
        assert(all.take(k + 1).drop_last() =~= all.take(k));
        lemma_compounds_of_none(all, k + 1);
    } else {
        assert(all.take(k) =~= all);
    }
}


// ----- lengths -----

/// The unit a CSS length is written in.
#[derive(Clone, Copy, PartialEq, Eq, Debug)]
pub enum LengthUnit {
    Px,
    Pt,
    Mm,
    Cm,
    In,
    Q,
    Rem,
    Em,
    /// No unit: read as px.
    Bare,
}

/// A length split into its unit and the (trimmed) number in front of it.
#[derive(Debug)]
pub enum LengthSplit {
    /// The literal `0`.
    Zero,
    Number { unit: LengthUnit, num: String },
}

pub ghost enum LengthSplitV {
    Zero,
    Number { unit: LengthUnit, num: Seq<char> },
}

pub open spec fn unit_number(t: Seq<char>, unit: LengthUnit, n: int) -> LengthSplitV {
    LengthSplitV::Number { unit, num: trim(t.take(t.len() - n)) }
}

/// Units are tried in the order px, pt, mm, cm, in, q, rem, em.
pub open spec fn split_length_spec(v: Seq<char>) -> LengthSplitV {
    let t = trim(v);
    if t == "0"@ {
        LengthSplitV::Zero
    } else if ends_with(t, "px"@) {
        unit_number(t, LengthUnit::Px, 2)
    } else if ends_with(t, "pt"@) {
        unit_number(t, LengthUnit::Pt, 2)
    } else if ends_with(t, "mm"@) {
        unit_number(t, LengthUnit::Mm, 2)
    } else if ends_with(t, "cm"@) {
        unit_number(t, LengthUnit::Cm, 2)
    } else if ends_with(t, "in"@) {
        unit_number(t, LengthUnit::In, 2)
    } else if ends_with(t, "q"@) {
        unit_number(t, LengthUnit::Q, 1)
    } else if ends_with(t, "rem"@) {
        unit_number(t, LengthUnit::Rem, 3)
    } else if ends_with(t, "em"@) {
        unit_number(t, LengthUnit::Em, 2)
    } else {
        LengthSplitV::Number { unit: LengthUnit::Bare, num: t }
    }
}

impl View for LengthSplit {
    type V = LengthSplitV;

    open spec fn view(&self) -> LengthSplitV {
        match self {
            LengthSplit::Zero => LengthSplitV::Zero,
            LengthSplit::Number { unit, num } => LengthSplitV::Number { unit: *unit, num: num@ },
        }
    }
}

fn unit_number_exec(t: &[char], unit: LengthUnit, n: usize) -> (r: LengthSplit)
    requires
        n <= t@.len(),
    ensures
        r@ == unit_number(t@, unit, n as int),
{
    let head = copy_range(t, 0, t.len() - n);
    assert(head@ =~= t@.take(t@.len() - n));
    let num = trimmed(head.as_slice());
    LengthSplit::Number { unit, num: string_of(num.as_slice()) }
}

fn split_length_chars(v: &[char]) -> (r: LengthSplit)
    ensures
        r@ == split_length_spec(v@),
{
    let t = trimmed(v);
    proof {
        reveal_strlit("px");
        reveal_strlit("pt");
        reveal_strlit("mm");
        reveal_strlit("cm");
        reveal_strlit("in");
        reveal_strlit("q");
        reveal_strlit("rem");
        reveal_strlit("em");
    }
    if is_lit(t.as_slice(), "0") {
        LengthSplit::Zero
    } else if ends_lit(t.as_slice(), "px") {
        unit_number_exec(t.as_slice(), LengthUnit::Px, 2)
    } else if ends_lit(t.as_slice(), "pt") {
        unit_number_exec(t.as_slice(), LengthUnit::Pt, 2)
    } else if ends_lit(t.as_slice(), "mm") {
        unit_number_exec(t.as_slice(), LengthUnit::Mm, 2)
    } else if ends_lit(t.as_slice(), "cm") {
        unit_number_exec(t.as_slice(), LengthUnit::Cm, 2)
    } else if ends_lit(t.as_slice(), "in") {
        unit_number_exec(t.as_slice(), LengthUnit::In, 2)
    } else if ends_lit(t.as_slice(), "q") {
        unit_number_exec(t.as_slice(), LengthUnit::Q, 1)
    } else if ends_lit(t.as_slice(), "rem") {
        unit_number_exec(t.as_slice(), LengthUnit::Rem, 3)
    } else if ends_lit(t.as_slice(), "em") {
        unit_number_exec(t.as_slice(), LengthUnit::Em, 2)
    } else {
        LengthSplit::Number { unit: LengthUnit::Bare, num: string_of(t.as_slice()) }
    }
}

/// Split a CSS length into its unit and number text.
pub fn split_length(v: &str) -> (r: LengthSplit)
    ensures
        r@ == split_length_spec(v@),
{
    let c = chars_of(v);
    split_length_chars(c.as_slice())
}

fn ends_lit(s: &[char], lit: &str) -> (b: bool)
    ensures
        b == ends_with(s@, lit@),
{
    let l = chars_of(lit);
    has_suffix(s, l.as_slice())
}

/// The exact px factor of a unit as a fraction `(p, q)`, with em and rem at 16px.
pub open spec fn unit_factor(u: LengthUnit) -> (nat, nat) {
    match u {
        LengthUnit::Px => (1, 1),
        LengthUnit::Pt => (4, 3),
        LengthUnit::Mm => (480, 127),
        LengthUnit::Cm => (4800, 127),
        LengthUnit::In => (96, 1),
        LengthUnit::Q => (120, 127),
        LengthUnit::Rem => (16, 1),
        LengthUnit::Em => (16, 1),
        LengthUnit::Bare => (1, 1),
    }
}

fn unit_factor_exec(u: LengthUnit) -> (r: (u64, u64))
    ensures
        r.0 == unit_factor(u).0,
        r.1 == unit_factor(u).1,
{
    match u {
        LengthUnit::Px => (1, 1),
        LengthUnit::Pt => (4, 3),
        LengthUnit::Mm => (480, 127),
        LengthUnit::Cm => (4800, 127),
        LengthUnit::In => (96, 1),
        LengthUnit::Q => (120, 127),
        LengthUnit::Rem => (16, 1),
        LengthUnit::Em => (16, 1),
        LengthUnit::Bare => (1, 1),
    }
}

// ----- media queries -----

/// The media environment `@media` is evaluated against: print or screen, and the
/// viewport width as the exact fraction `width_num / width_den` px.
#[derive(Clone, Copy, Debug)]
pub struct MediaCtx {
    pub print: bool,
    pub width_num: u32,
    pub width_den: u32,
}

impl MediaCtx {
    pub open spec fn wf(self) -> bool {
        self.width_den > 0
    }
}

/// The default print media: an A4 viewport width of 794px.
pub fn media_none() -> (m: MediaCtx)
    ensures
        m.print,
        m.width_num == 794,
        m.width_den == 1,
{
    MediaCtx { print: true, width_num: 794, width_den: 1 }
}

/// `x >= m * mant * 10^e` over the rationals.
pub open spec fn ratio_ge(x: nat, m: nat, mant: nat, e: int) -> bool {
    if e >= 0 {
        x >= m * mant * pow10(e as nat)
    } else {
        x * pow10((-e) as nat) >= m * mant
    }
}

/// `x <= m * mant * 10^e` over the rationals.
pub open spec fn ratio_le(x: nat, m: nat, mant: nat, e: int) -> bool {
    if e >= 0 {
        x <= m * mant * pow10(e as nat)
    } else {
        x * pow10((-e) as nat) <= m * mant
    }
}

/// Compare the width `a/b` with the length `v` read at a 16px font size: `Some(a/b >= v)`
/// (or `<=` when `!ge`), `None` when `v` is not a length. NaN compares false both ways.
pub open spec fn width_test(v: Seq<char>, a: nat, b: nat, ge: bool) -> Option<bool> {
    match split_length_spec(v) {
        LengthSplitV::Zero => Some(if ge {
            true
        } else {
            a == 0
        }),
        LengthSplitV::Number { unit, num } => {
            let (p, q) = unit_factor(unit);
            match float_syntax(num) {
                FloatSyntax::Invalid => None,
                FloatSyntax::NaN => Some(false),
                FloatSyntax::Inf { neg } => Some(if ge {
                    neg
                } else {
                    !neg
                }),
                FloatSyntax::Finite { neg, .. } => {
                    let mant = finite_mantissa(num);
                    let e = finite_exponent(num);
                    if neg {
                        Some(if ge {
                            true
                        } else {
                            a == 0 && mant == 0
                        })
                    } else if ge {
                        Some(ratio_ge(a * q, b * p, mant, e))
                    } else {
                        Some(ratio_le(a * q, b * p, mant, e))
                    }
                },
            }
        },
    }
}

proof fn lemma_ratio_ge_wider(x1: nat, m1: nat, x2: nat, m2: nat, mant: nat, e: int)
    requires
        m1 > 0,
        m2 > 0,
        x1 * m2 <= x2 * m1,
        ratio_ge(x1, m1, mant, e),
    ensures
        ratio_ge(x2, m2, mant, e),
{
    if e >= 0 {
        let k = mant * pow10(e as nat);
        let pw = pow10(e as nat);
        assert(m1 * mant * pw == m1 * k) by (nonlinear_arith)
            requires
                k == mant * pw,
        ;
        let pw2 = pow10(e as nat);
        assert(m2 * mant * pw2 == m2 * k) by (nonlinear_arith)
            requires
                k == mant * pw2,
        ;
        assert(x2 >= m2 * k) by (nonlinear_arith)
            requires
                m1 > 0,
                x1 * m2 <= x2 * m1,
                x1 >= m1 * k,
        ;
    } else {
        let d = pow10((-e) as nat);
        assert(x2 * d >= m2 * mant) by (nonlinear_arith)
            requires
                m1 > 0,
                x1 * m2 <= x2 * m1,
                x1 * d >= m1 * mant,
        ;
    }
}

proof fn lemma_ratio_le_narrower(x1: nat, m1: nat, x2: nat, m2: nat, mant: nat, e: int)
    requires
        m1 > 0,
        m2 > 0,
        x1 * m2 <= x2 * m1,
        ratio_le(x2, m2, mant, e),
    ensures
        ratio_le(x1, m1, mant, e),
{
    if e >= 0 {
        let k = mant * pow10(e as nat);
        let pw = pow10(e as nat);
        assert(m1 * mant * pw == m1 * k) by (nonlinear_arith)
            requires
                k == mant * pw,
        ;
        let pw2 = pow10(e as nat);
        assert(m2 * mant * pw2 == m2 * k) by (nonlinear_arith)
            requires
                k == mant * pw2,
        ;
        assert(x1 <= m1 * k) by (nonlinear_arith)
            requires
                m2 > 0,
                x1 * m2 <= x2 * m1,
                x2 <= m2 * k,
        ;
    } else {
        let d = pow10((-e) as nat);
        assert(x1 * d <= m1 * mant) by (nonlinear_arith)
            requires
                m2 > 0,
                x1 * m2 <= x2 * m1,
                x2 * d <= m2 * mant,
        ;
    }
}

/// Width conditions are monotone in the viewport width: a `min-width` condition that
/// holds at one width holds at every wider one, and a `max-width` condition that
/// holds at one width holds at every narrower one.
pub proof fn lemma_width_conditions_monotone(v: Seq<char>, narrow: MediaCtx, wide: MediaCtx)
    requires
        narrow.wf(),
        wide.wf(),
        narrow.width_num * wide.width_den <= wide.width_num * narrow.width_den,
    ensures
        feature_ok(("min-width"@, v), narrow) ==> feature_ok(("min-width"@, v), wide),
        feature_ok(("max-width"@, v), wide) ==> feature_ok(("max-width"@, v), narrow),
{
    reveal_strlit("min-width");
    reveal_strlit("max-width");
    assert("max-width"@ != "min-width"@) by {
        assert("max-width"@[1] != "min-width"@[1]);
    }
    let a1 = narrow.width_num as nat;
    let b1 = narrow.width_den as nat;
    let a2 = wide.width_num as nat;
    let b2 = wide.width_den as nat;
    match split_length_spec(v) {
        LengthSplitV::Zero => {
            if a2 == 0 {
                assert(a1 * b2 == 0);
                assert(a1 == 0) by (nonlinear_arith)
                    requires
                        a1 * b2 == 0,
                        b2 > 0,
                ;
            }
        },
        LengthSplitV::Number { unit, num } => {
            let (p, q) = unit_factor(unit);
            assert(p >= 1 && q >= 1) by {
                match unit {
                    LengthUnit::Px => {},
                    LengthUnit::Pt => {},
                    LengthUnit::Mm => {},
                    LengthUnit::Cm => {},
                    LengthUnit::In => {},
                    LengthUnit::Q => {},
                    LengthUnit::Rem => {},
                    LengthUnit::Em => {},
                    LengthUnit::Bare => {},
                }
            }
            match float_syntax(num) {
                FloatSyntax::Finite { neg, .. } => {
                    let mant = finite_mantissa(num);
                    let e = finite_exponent(num);
                    assert((a1 * q) * (b2 * p) <= (a2 * q) * (b1 * p)) by (nonlinear_arith)
                        requires
                            a1 * b2 <= a2 * b1,
                    ;
                    assert(b1 * p > 0 && b2 * p > 0) by (nonlinear_arith)
                        requires
                            b1 > 0,
                            b2 > 0,
                            p >= 1,
                    ;
                    if neg {
                        if a2 == 0 && mant == 0 {
                            assert(a1 == 0) by (nonlinear_arith)
                                requires
                                    a1 * b2 <= a2 * b1,
                                    a2 == 0,
                                    b2 > 0,
                            ;
                        }
                    } else {
                        if ratio_ge(a1 * q, b1 * p, mant, e) {
                            lemma_ratio_ge_wider(a1 * q, b1 * p, a2 * q, b2 * p, mant, e);
                        }
                        if ratio_le(a2 * q, b2 * p, mant, e) {
                            lemma_ratio_le_narrower(a1 * q, b1 * p, a2 * q, b2 * p, mant, e);
                        }
                    }
                },
                _ => {},
            }
        },
    }
}

proof fn lemma_ratio_floor(x: nat, m: nat, mant: nat, e: int, f: nat, exact: bool)
    requires
        x < val_cap(),
        f == min_nat(scaled_floor(m, mant, e), val_cap()),
        exact == scaled_exact(m, mant, e),
    ensures
        ratio_ge(x, m, mant, e) == (if exact {
            x >= f
        } else {
            x > f
        }),
        ratio_le(x, m, mant, e) == (x <= f),
{
    if e >= 0 {
        assert(m * mant * pow10(e as nat) == scaled_floor(m, mant, e));
    } else {
        let p = pow10((-e) as nat);
        crate::number::lemma_pow10_pos((-e) as nat);
        let n = m * mant;
        vstd::arithmetic::div_mod::lemma_fundamental_div_mod(n as int, p as int);
        let f0 = n / p;
        let r = n % p;
        assert(n == f0 * p + r);
        assert(x * p >= n <==> (if r == 0 {
            x >= f0
        } else {
            x > f0
        })) by (nonlinear_arith)
            requires
                n == f0 * p + r,
                0 <= r < p,
                p >= 1,
        ;
        assert(x * p <= n <==> x <= f0) by (nonlinear_arith)
            requires
                n == f0 * p + r,
                0 <= r < p,
                p >= 1,
        ;
    }
}

fn width_test_exec(v: &[char], m: MediaCtx, ge: bool) -> (r: Option<bool>)
    requires
        m.wf(),
    ensures
        r == width_test(v@, m.width_num as nat, m.width_den as nat, ge),
{
    let split = split_length_chars(v);
    match split {
        LengthSplit::Zero => Some(if ge {
            true
        } else {
            m.width_num == 0
        }),
        LengthSplit::Number { unit, num } => {
            let (p, q) = unit_factor_exec(unit);
            let nc = chars_of(num.as_str());
            let f = scan_float(nc.as_slice());
            if f.kind == 0 {
                return None;
            }
            if f.kind == 2 {
                return Some(false);
            }
            if f.kind == 1 {
                return Some(if ge {
                    f.neg
                } else {
                    !f.neg
                });
            }
            if f.neg {
                if ge {
                    return Some(true);
                }
                if m.width_num != 0 {
                    return Some(false);
                }
                let (z, _) = scaled_floor_exec(nc.as_slice(), &f, 1);
                proof {
                    let mant = finite_mantissa(nc@);
                    let e = finite_exponent(nc@);
                    crate::number::lemma_pow10_pos((if e >= 0 { e } else { -e }) as nat);
                    if mant > 0 {
                        if e >= 0 {
                            assert(1 * mant * pow10(e as nat) >= 1) by (nonlinear_arith)
                                requires
                                    mant >= 1,
                                    pow10(e as nat) >= 1,
                            ;
                        }
                    }
                }
                // The literal is -0 exactly when its mantissa is 0.
                let zero = crate::number::is_zero_literal(nc.as_slice());
                proof {
                    lemma_mantissa_zero(nc@);
                }
                return Some(zero);
            }
            assert(p <= 4800 && q <= 127 && p >= 1 && q >= 1) by {
                match unit {
                    LengthUnit::Px => {},
                    LengthUnit::Pt => {},
                    LengthUnit::Mm => {},
                    LengthUnit::Cm => {},
                    LengthUnit::In => {},
                    LengthUnit::Q => {},
                    LengthUnit::Rem => {},
                    LengthUnit::Em => {},
                    LengthUnit::Bare => {},
                }
            }
            assert(m.width_num as u64 * q <= 0xffff_ffffu64 * 127) by (nonlinear_arith)
                requires
                    q <= 127,
                    m.width_num <= 0xffff_ffff,
            ;
            assert(m.width_den as u64 * p <= 0xffff_ffffu64 * 4800) by (nonlinear_arith)
                requires
                    p <= 4800,
                    m.width_den <= 0xffff_ffff,
            ;
            let x: u64 = m.width_num as u64 * q;
            let mm: u64 = m.width_den as u64 * p;
            let (fl, exact) = scaled_floor_exec(nc.as_slice(), &f, mm);
            proof {
                lemma_ratio_floor(x as nat, mm as nat, finite_mantissa(nc@), finite_exponent(nc@), fl as nat, exact);
            }
            if ge {
                Some(if exact {
                    x >= fl
                } else {
                    x > fl
                })
            } else {
                Some(x <= fl)
            }
        },
    }
}

/// A literal reads as zero exactly when its mantissa is zero.
pub proof fn lemma_mantissa_zero(s: Seq<char>)
    requires
        float_syntax(s) is Finite,
    ensures
        crate::number::parses_to_zero(s) == (finite_mantissa(s) == 0),
{
    match float_syntax(s) {
        FloatSyntax::Finite { whole, frac, .. } => {
            crate::number::lemma_finite_digits(s);
            assert forall|i: int| 0 <= i < (whole + frac).len() implies crate::text::is_digit(#[trigger] (whole + frac)[i]) by {
                if i < whole.len() {
                    assert((whole + frac)[i] == whole[i]);
                } else {
                    assert((whole + frac)[i] == frac[i - whole.len()]);
                }
            }
            lemma_dval_zero(whole + frac);
            if crate::number::all_zero(whole) && crate::number::all_zero(frac) {
                assert(crate::number::all_zero(whole + frac));
            }
            if crate::number::all_zero(whole + frac) {
                assert forall|i: int| 0 <= i < whole.len() implies whole[i] == '0' by {
                    assert((whole + frac)[i] == whole[i]);
                }
                assert forall|i: int| 0 <= i < frac.len() implies frac[i] == '0' by {
                    assert((whole + frac)[whole.len() + i] == frac[i]);
                }
            }
        },
        _ => {},
    }
}

/// The value of a digit string is zero exactly when every character is `0`
/// (for strings of digits).
pub proof fn lemma_dval_zero(d: Seq<char>)
    requires
        forall|i: int| 0 <= i < d.len() ==> crate::text::is_digit(#[trigger] d[i]),
    ensures
        (crate::number::dval(d) == 0) == crate::number::all_zero(d),
    decreases d.len(),
{
    if d.len() > 0 {
        lemma_dval_zero(d.drop_last());
        if crate::number::all_zero(d.drop_last()) && d.last() == '0' {
            assert(crate::number::all_zero(d)) by {
                assert forall|i: int| 0 <= i < d.len() implies d[i] == '0' by {
                    if i < d.len() - 1 {
                        assert(d[i] == d.drop_last()[i]);
                    }
                }
            }
        }
        if crate::number::all_zero(d) {
            assert forall|i: int| 0 <= i < d.drop_last().len() implies d.drop_last()[i] == '0' by {
                assert(d.drop_last()[i] == d[i]);
            }
        }
    }
}


/// `str::trim_start_matches` with a non-empty text pattern.
pub open spec fn strip_all(s: Seq<char>, pat: Seq<char>) -> Seq<char>
    decreases s.len(),
{
    if pat.len() > 0 && starts_with(s, pat) {
        strip_all(s.skip(pat.len() as int), pat)
    } else {
        s
    }
}

/// The `(name: value)` feature conditions of a media query, in order.
pub open spec fn features(rest: Seq<char>) -> Seq<(Seq<char>, Seq<char>)>
    decreases rest.len(),
{
    match crate::text::find_char(rest, '(') {
        None => seq![],
        Some(open) => {
            let after = rest.skip(open + 1);
            match crate::text::find_char(after, ')') {
                None => seq![],
                Some(close) => {
                    let inner = after.take(close);
                    let head: Seq<(Seq<char>, Seq<char>)> = match crate::text::find_char(inner, ':') {
                        Some(k) => seq![(trim(inner.take(k)), trim(inner.skip(k + 1)))],
                        None => seq![],
                    };
                    if 0 <= open < rest.len() && 0 <= close < after.len() {
                        head + features(after.skip(close + 1))
                    } else {
                        head
                    }
                },
            }
        },
    }
}

/// One feature condition: `min-width` and `max-width` compare the viewport width;
/// anything else, or a value that is not a length, holds.
pub open spec fn feature_ok(f: (Seq<char>, Seq<char>), m: MediaCtx) -> bool {
    if f.0 == "min-width"@ {
        match width_test(f.1, m.width_num as nat, m.width_den as nat, true) {
            Some(r) => r,
            None => true,
        }
    } else if f.0 == "max-width"@ {
        match width_test(f.1, m.width_num as nat, m.width_den as nat, false) {
            Some(r) => r,
            None => true,
        }
    } else {
        true
    }
}

pub open spec fn features_ok(fs: Seq<(Seq<char>, Seq<char>)>, m: MediaCtx) -> bool
    decreases fs.len(),
{
    if fs.len() == 0 {
        true
    } else {
        features_ok(fs.drop_last(), m) && feature_ok(fs.last(), m)
    }
}

/// The query after a leading `not ` / `only ` and trimming.
pub open spec fn media_body(part: Seq<char>) -> Seq<char> {
    trim(strip_all(strip_all(crate::text::trim_start(lower(part)), "not "@), "only "@))
}

/// One comma-separated part of a media query: the media type must not be screen-only
/// (print media, or `all`), and every width condition must hold; `not ` negates.
pub open spec fn eval_media_part_spec(part: Seq<char>, m: MediaCtx) -> bool {
    let negate = starts_with(crate::text::trim_start(lower(part)), "not "@);
    let p = media_body(part);
    let has_print = crate::text::contains(p, "print"@);
    let has_screen = crate::text::contains(p, "screen"@);
    let has_all = crate::text::contains(p, "all"@);
    let type_ok = if has_screen && !has_print && !has_all {
        false
    } else {
        m.print || has_all
    };
    let result = type_ok && features_ok(features(p), m);
    if negate {
        !result
    } else {
        result
    }
}

/// A media query holds when one of its comma-separated parts does.
pub open spec fn eval_media_spec(query: Seq<char>, m: MediaCtx) -> bool {
    exists|k: int| 0 <= k < split_on(query, ',').len() && eval_media_part_spec(trim(split_on(query, ',')[k]), m)
}

pub fn strip_all_exec(s: &[char], pat: &[char]) -> (r: Vec<char>)
    requires
        pat@.len() > 0,
    ensures
        r@ == strip_all(s@, pat@),
{
    let mut i: usize = 0;
    assert(s@.skip(0) =~= s@);
    loop
        invariant
            pat@.len() > 0,
            i <= s.len(),
            strip_all(s@, pat@) == strip_all(s@.skip(i as int), pat@),
        decreases s.len() - i,
    {
        if pat.len() <= s.len() - i && crate::text::has_prefix_at(s, i, pat) {
            assert(s@.skip(i as int).skip(pat@.len() as int) =~= s@.skip(i + pat@.len()));
            i = i + pat.len();
        } else {
            proof {
                if pat@.len() <= s@.skip(i as int).len() {
                    assert(!starts_with(s@.skip(i as int), pat@));
                }
            }
            let r = copy_range(s, i, s.len());
            assert(r@ =~= s@.skip(i as int));
            return r;
        }
    }
}

#[verifier::rlimit(40)]
fn features_exec(p: &[char]) -> (r: Vec<(Vec<char>, Vec<char>)>)
    ensures
        r@.len() == features(p@).len(),
        forall|k: int| 0 <= k < r@.len() ==> (#[trigger] r@[k]).0@ == features(p@)[k].0 && r@[k].1@ == features(p@)[k].1,
{
    let mut out: Vec<(Vec<char>, Vec<char>)> = Vec::new();
    let ghost mut done: Seq<(Seq<char>, Seq<char>)> = seq![];
    let mut i: usize = 0;
    assert(p@.skip(0) =~= p@);
    assert(done + features(p@) =~= features(p@));
    loop
        invariant
            i <= p.len(),
            out@.len() == done.len(),
            forall|k: int| 0 <= k < out@.len() ==> (#[trigger] out@[k]).0@ == done[k].0 && out@[k].1@ == done[k].1,
            features(p@) == done + features(p@.skip(i as int)),
        decreases p.len() - i,
    {
        let rest = Ghost(p@.skip(i as int));
        let open = crate::text::find_char_from(p, i, '(');
        if open == p.len() {
            proof {
                crate::text::lemma_find_char_props(rest@, '(');
                assert(features(rest@) =~= Seq::<(Seq<char>, Seq<char>)>::empty());
            }
            assert(done + Seq::<(Seq<char>, Seq<char>)>::empty() =~= done);
            return out;
        }
        let close = crate::text::find_char_from(p, open + 1, ')');
        proof {
            crate::text::lemma_find_char_props(rest@, '(');
            assert(rest@.skip(open - i + 1) =~= p@.skip(open + 1));
            crate::text::lemma_find_char_props(p@.skip(open + 1), ')');
        }
        if close == p.len() {
            assert(features(rest@) =~= Seq::<(Seq<char>, Seq<char>)>::empty());
            assert(done + Seq::<(Seq<char>, Seq<char>)>::empty() =~= done);
            return out;
        }
        let inner = copy_range(p, open + 1, close);
        let colon = crate::text::find_char_from(inner.as_slice(), 0, ':');
        proof {
            assert(p@.skip(open + 1).take(close - open - 1) =~= inner@);
            assert(inner@.skip(0) =~= inner@);
            crate::text::lemma_find_char_props(inner@, ':');
            assert(p@.skip(open + 1).skip(close - open) =~= p@.skip(close + 1));
        }
        if colon < inner.len() {
            let kpart = copy_range(inner.as_slice(), 0, colon);
            let vpart = copy_range(inner.as_slice(), colon + 1, inner.len());
            let k = trimmed(kpart.as_slice());
            let v = trimmed(vpart.as_slice());
            proof {
                assert(kpart@ =~= inner@.take(colon as int));
                assert(vpart@ =~= inner@.skip(colon + 1));
                let e = (k@, v@);
                assert(features(rest@) == seq![e] + features(p@.skip(close + 1)));
                assert(done + (seq![e] + features(p@.skip(close + 1))) =~= done.push(e) + features(p@.skip(close + 1)));
                done = done.push(e);
            }
            out.push((k, v));
        } else {
            proof {
                assert(features(rest@) == Seq::<(Seq<char>, Seq<char>)>::empty() + features(p@.skip(close + 1)));
                assert(Seq::<(Seq<char>, Seq<char>)>::empty() + features(p@.skip(close + 1)) =~= features(p@.skip(close + 1)));
            }
        }
        i = close + 1;
    }
}

fn eval_media_part(part: &[char], m: MediaCtx) -> (b: bool)
    requires
        m.wf(),
    ensures
        b == eval_media_part_spec(part@, m),
{
    let low = lower_of(part);
    let ts = crate::text::trimmed_start(low.as_slice());
    let not_pat = chars_of("not ");
    let only_pat = chars_of("only ");
    proof {
        reveal_strlit("not ");
        reveal_strlit("only ");
        reveal_strlit("min-width");
        reveal_strlit("max-width");
    }
    let negate = has_prefix(ts.as_slice(), not_pat.as_slice());
    let a = strip_all_exec(ts.as_slice(), not_pat.as_slice());
    let b = strip_all_exec(a.as_slice(), only_pat.as_slice());
    let p = trimmed(b.as_slice());
    let has_print = crate::text::contains_exec(p.as_slice(), chars_of("print").as_slice());
    let has_screen = crate::text::contains_exec(p.as_slice(), chars_of("screen").as_slice());
    let has_all = crate::text::contains_exec(p.as_slice(), chars_of("all").as_slice());
    let type_ok = if has_screen && !has_print && !has_all {
        false
    } else {
        m.print || has_all
    };
    let fs = features_exec(p.as_slice());
    let ghost all = features(p@);
    let mut feat_ok = true;
    let mut i: usize = 0;
    assert(all.take(0) =~= Seq::<(Seq<char>, Seq<char>)>::empty());
    while i < fs.len()
        invariant
            m.wf(),
            fs@.len() == all.len(),
            forall|k: int| 0 <= k < fs@.len() ==> (#[trigger] fs@[k]).0@ == all[k].0 && fs@[k].1@ == all[k].1,
            i <= fs@.len(),
            feat_ok == features_ok(all.take(i as int), m),
        decreases fs.len() - i,
    {
        assert(all.take(i + 1).drop_last() =~= all.take(i as int));
        let key = fs[i].0.as_slice();
        let val = fs[i].1.as_slice();
        let ok = if is_lit(key, "min-width") {
            match width_test_exec(val, m, true) {
                Some(r) => r,
                None => true,
            }
        } else if is_lit(key, "max-width") {
            match width_test_exec(val, m, false) {
                Some(r) => r,
                None => true,
            }
        } else {
            true
        };
        feat_ok = feat_ok && ok;
        i += 1;
    }
    assert(all.take(fs@.len() as int) =~= all);
    let result = type_ok && feat_ok;
    if negate {
        !result
    } else {
        result
    }
}

fn eval_media_chars(query: &[char], m: MediaCtx) -> (b: bool)
    requires
        m.wf(),
    ensures
        b == eval_media_spec(query@, m),
{
    let parts = split_chars(query, ',');
    let ghost all = split_on(query@, ',');
    let mut i: usize = 0;
    while i < parts.len()
        invariant
            m.wf(),
            parts@.len() == all.len(),
            forall|k: int| 0 <= k < parts@.len() ==> (#[trigger] parts@[k])@ == all[k],
            all == split_on(query@, ','),
            i <= parts@.len(),
            forall|k: int| 0 <= k < i ==> !eval_media_part_spec(trim(all[k]), m),
        decreases parts.len() - i,
    {
        let t = trimmed(parts[i].as_slice());
        if eval_media_part(t.as_slice(), m) {
            return true;
        }
        i += 1;
    }
    false
}

/// Evaluate an `@media` query (comma = or) against a media environment.
pub fn eval_media(query: &str, m: &MediaCtx) -> (b: bool)
    requires
        m.wf(),
    ensures
        b == eval_media_spec(query@, *m),
{
    let q = chars_of(query);
    eval_media_chars(q.as_slice(), *m)
}


// ----- stylesheets -----

/// One `name: value` declaration of a style rule (both must be non-empty).
pub open spec fn style_decl(piece: Seq<char>) -> Option<(Seq<char>, Seq<char>)> {
    match crate::text::find_char(piece, ':') {
        None => None,
        Some(k) => {
            let name = lower(trim(piece.take(k)));
            let v = trim(piece.skip(k + 1));
            let v2 = match strip_important(v) {
                Some(x) => x,
                None => v,
            };
            if name.len() > 0 && v2.len() > 0 {
                Some((name, trim(v2)))
            } else {
                None
            }
        },
    }
}

pub open spec fn style_decls(pieces: Seq<Seq<char>>) -> Seq<(Seq<char>, Seq<char>)>
    decreases pieces.len(),
{
    if pieces.len() == 0 {
        seq![]
    } else {
        let rest = style_decls(pieces.drop_last());
        match style_decl(pieces.last()) {
            Some(e) => rest.push(e),
            None => rest,
        }
    }
}

/// The declarations of a rule block, in order.
pub open spec fn parse_decls_spec(block: Seq<char>) -> Seq<(Seq<char>, Seq<char>)> {
    style_decls(split_on(block, ';'))
}

fn style_decl_exec(piece: &[char]) -> (r: Option<(String, String)>)
    ensures
        match style_decl(piece@) {
            Some(e) => r is Some && (r->0).0@ == e.0 && (r->0).1@ == e.1,
            None => r is None,
        },
{
    let k = crate::text::find_char_from(piece, 0, ':');
    proof {
        assert(piece@.skip(0) =~= piece@);
        crate::text::lemma_find_char_props(piece@, ':');
    }
    if k == piece.len() {
        return None;
    }
    let head = copy_range(piece, 0, k);
    assert(head@ =~= piece@.take(k as int));
    let name = lower_of(trimmed(head.as_slice()).as_slice());
    let tail = copy_range(piece, k + 1, piece.len());
    assert(tail@ =~= piece@.skip(k + 1));
    let v = trimmed(tail.as_slice());
    let v2 = match strip_important_exec(v.as_slice()) {
        Some(x) => x,
        None => v,
    };
    if name.len() > 0 && v2.len() > 0 {
        let t = trimmed(v2.as_slice());
        Some((string_of(name.as_slice()), string_of(t.as_slice())))
    } else {
        None
    }
}

pub fn parse_decls(block: &[char]) -> (r: Vec<(String, String)>)
    ensures
        pairs_view(r@) == parse_decls_spec(block@),
{
    let pieces = split_chars(block, ';');
    let ghost all = split_on(block@, ';');
    let mut out: Vec<(String, String)> = Vec::new();
    let mut i: usize = 0;
    assert(all.take(0) =~= Seq::<Seq<char>>::empty());
    assert(pairs_view(out@) =~= style_decls(all.take(0)));
    while i < pieces.len()
        invariant
            pieces@.len() == all.len(),
            forall|k: int| 0 <= k < pieces@.len() ==> (#[trigger] pieces@[k])@ == all[k],
            i <= pieces@.len(),
            pairs_view(out@) == style_decls(all.take(i as int)),
        decreases pieces.len() - i,
    {
        let e = style_decl_exec(pieces[i].as_slice());
        let ghost before = out@;
        assert(all.take(i + 1).drop_last() =~= all.take(i as int));
        match e {
            Some(p) => {
                out.push(p);
                assert(pairs_view(out@) =~= pairs_view(before).push((out@.last().0@, out@.last().1@)));
            },
            None => {},
        }
        i += 1;
    }
    assert(all.take(pieces@.len() as int) =~= all);
    out
}

/// The selectors of a comma-separated list that parse, in order.
pub open spec fn selectors_from(pieces: Seq<Seq<char>>, ua: bool) -> Seq<SelectorV>
    decreases pieces.len(),
{
    if pieces.len() == 0 {
        seq![]
    } else {
        let rest = selectors_from(pieces.drop_last(), ua);
        match parse_selector_spec(pieces.last(), ua) {
            Some(sel) => rest.push(sel),
            None => rest,
        }
    }
}

fn selectors_exec(prelude: &[char], ua: bool) -> (r: Vec<Selector>)
    ensures
        r@.map_values(|s: Selector| s@) == selectors_from(split_on(prelude@, ','), ua),
{
    let pieces = split_chars(prelude, ',');
    let ghost all = split_on(prelude@, ',');
    let mut out: Vec<Selector> = Vec::new();
    let mut i: usize = 0;
    assert(all.take(0) =~= Seq::<Seq<char>>::empty());
    assert(out@.map_values(|s: Selector| s@) =~= selectors_from(all.take(0), ua));
    while i < pieces.len()
        invariant
            pieces@.len() == all.len(),
            forall|k: int| 0 <= k < pieces@.len() ==> (#[trigger] pieces@[k])@ == all[k],
            i <= pieces@.len(),
            out@.map_values(|s: Selector| s@) == selectors_from(all.take(i as int), ua),
        decreases pieces.len() - i,
    {
        let ghost before = out@;
        assert(all.take(i + 1).drop_last() =~= all.take(i as int));
        match parse_selector_chars(pieces[i].as_slice(), ua) {
            Some(sel) => {
                out.push(sel);
                assert(out@.map_values(|s: Selector| s@) =~= before.map_values(|s: Selector| s@).push(out@.last()@));
            },
            None => {},
        }
        i += 1;
    }
    assert(all.take(pieces@.len() as int) =~= all);
    out
}

/// A style rule: its selectors, declarations, source order and origin.
#[derive(Debug)]
pub struct Rule {
    pub selectors: Vec<Selector>,
    pub decls: Vec<(String, String)>,
    pub order: usize,
    pub ua: bool,
}

/// What a rule holds, apart from its order and origin.
pub ghost struct RuleBody {
    pub selectors: Seq<SelectorV>,
    pub decls: Seq<(Seq<char>, Seq<char>)>,
}

impl Rule {
    pub open spec fn body(&self) -> RuleBody {
        RuleBody { selectors: self.selectors@.map_values(|s: Selector| s@), decls: pairs_view(self.decls@) }
    }
}

/// The rules found scanning `c` from `i` (prelude from `start`): style rules with at
/// least one valid selector, and the rules inside `@media` blocks whose query holds;
/// other @-rules are skipped. `None` where a `{` is the last character read.
pub open spec fn rules_scan(c: Seq<char>, i: int, start: int, ua: bool, m: MediaCtx) -> Option<Seq<RuleBody>>
    decreases c.len(), c.len() - i,
{
    if i >= c.len() || i < 0 || start < 0 || start > i {
        Some(seq![])
    } else if c[i] == '{' {
        let j = close_scan(c, i + 1, 1);
        proof {
            lemma_close_scan(c, i + 1, 1);
        }
        if !block_cut_ok(c, i, j) {
            None
        } else {
            let prelude = trim(c.subrange(start, i));
            let block = c.subrange(i + 1, j - 1);
            let here: Option<Seq<RuleBody>> = if starts_with(prelude, "@media"@) {
                if eval_media_spec(prelude.skip(6), m) {
                    rules_scan(block, 0, 0, ua, m)
                } else {
                    Some(seq![])
                }
            } else if !starts_with(prelude, "@"@) {
                let sels = selectors_from(split_on(prelude, ','), ua);
                if sels.len() > 0 {
                    Some(seq![RuleBody { selectors: sels, decls: parse_decls_spec(block) }])
                } else {
                    Some(seq![])
                }
            } else {
                Some(seq![])
            };
            match here {
                None => None,
                Some(h) => opt_cat(h, rules_scan(c, j, j, ua, m)),
            }
        }
    } else if c[i] == ';' {
        rules_scan(c, i + 1, i + 1, ua, m)
    } else {
        rules_scan(c, i + 1, start, ua, m)
    }
}

/// The rules that the block opened by the `{` at `i` contributes.
pub open spec fn block_here(c: Seq<char>, i: int, start: int, ua: bool, m: MediaCtx) -> Option<Seq<RuleBody>> {
    let j = close_scan(c, i + 1, 1);
    let prelude = trim(c.subrange(start, i));
    let block = c.subrange(i + 1, j - 1);
    if starts_with(prelude, "@media"@) {
        if eval_media_spec(prelude.skip(6), m) {
            rules_scan(block, 0, 0, ua, m)
        } else {
            Some(seq![])
        }
    } else if !starts_with(prelude, "@"@) {
        let sels = selectors_from(split_on(prelude, ','), ua);
        if sels.len() > 0 {
            Some(seq![RuleBody { selectors: sels, decls: parse_decls_spec(block) }])
        } else {
            Some(seq![])
        }
    } else {
        Some(seq![])
    }
}

/// Rules appended to `rules`, numbered on from `order`.
pub open spec fn appended(old_rules: Seq<Rule>, new_rules: Seq<Rule>, found: Seq<RuleBody>, order: nat, ua: bool) -> bool {
    &&& new_rules.len() == old_rules.len() + found.len()
    &&& forall|k: int| 0 <= k < old_rules.len() ==> new_rules[k] == old_rules[k]
    &&& forall|k: int|
        old_rules.len() <= k < new_rules.len() ==> {
            &&& (#[trigger] new_rules[k]).body() == found[k - old_rules.len()]
            &&& new_rules[k].order == order + (k - old_rules.len())
            &&& new_rules[k].ua == ua
        }
}

/// Every selector of the rule has at least one compound.
pub open spec fn body_wf(b: RuleBody) -> bool {
    forall|k: int| 0 <= k < b.selectors.len() ==> (#[trigger] b.selectors[k]).compounds.len() > 0
}

proof fn lemma_selectors_from_wf(pieces: Seq<Seq<char>>, ua: bool)
    ensures
        forall|k: int|
            0 <= k < selectors_from(pieces, ua).len() ==> (#[trigger] selectors_from(pieces, ua)[k]).compounds.len() > 0,
    decreases pieces.len(),
{
    if pieces.len() > 0 {
        let rest = selectors_from(pieces.drop_last(), ua);
        lemma_selectors_from_wf(pieces.drop_last(), ua);
        match parse_selector_spec(pieces.last(), ua) {
            Some(sel) => {
                assert forall|k: int| 0 <= k < rest.push(sel).len() implies (#[trigger] rest.push(sel)[k]).compounds.len() > 0 by {
                    if k < rest.len() {
                        assert(rest.push(sel)[k] == rest[k]);
                    }
                }
            },
            None => {},
        }
    }
}

/// The rules a scan finds all have selectors with at least one compound.
pub proof fn lemma_rules_scan_wf(c: Seq<char>, i: int, start: int, ua: bool, m: MediaCtx)
    ensures
        rules_scan(c, i, start, ua, m) matches Some(x) ==> forall|k: int| 0 <= k < x.len() ==> body_wf(#[trigger] x[k]),
    decreases c.len(), c.len() - i,
{
    if i >= c.len() || i < 0 || start < 0 || start > i {
    } else if c[i] == '{' {
        let j = close_scan(c, i + 1, 1);
        lemma_close_scan(c, i + 1, 1);
        if block_cut_ok(c, i, j) {
            let prelude = trim(c.subrange(start, i));
            let block = c.subrange(i + 1, j - 1);
            if starts_with(prelude, "@media"@) {
                if eval_media_spec(prelude.skip(6), m) {
                    lemma_rules_scan_wf(block, 0, 0, ua, m);
                }
            } else if !starts_with(prelude, "@"@) {
                lemma_selectors_from_wf(split_on(prelude, ','), ua);
            }
            lemma_rules_scan_wf(c, j, j, ua, m);
            match (block_here(c, i, start, ua, m), rules_scan(c, j, j, ua, m)) {
                (Some(h), Some(x)) => {
                    assert forall|k: int| 0 <= k < (h + x).len() implies body_wf(#[trigger] (h + x)[k]) by {
                        if k < h.len() {
                            assert((h + x)[k] == h[k]);
                        } else {
                            assert((h + x)[k] == x[k - h.len()]);
                        }
                    }
                },
                _ => {},
            }
        }
    } else if c[i] == ';' {
        lemma_rules_scan_wf(c, i + 1, i + 1, ua, m);
    } else {
        lemma_rules_scan_wf(c, i + 1, start, ua, m);
    }
}

proof fn lemma_appended_trans(r0: Seq<Rule>, r1: Seq<Rule>, r2: Seq<Rule>, a: Seq<RuleBody>, b: Seq<RuleBody>, o: nat, ua: bool)
    requires
        appended(r0, r1, a, o, ua),
        appended(r1, r2, b, o + a.len(), ua),
    ensures
        appended(r0, r2, a + b, o, ua),
{
    assert forall|k: int| r0.len() <= k < r2.len() implies {
        &&& (#[trigger] r2[k]).body() == (a + b)[k - r0.len()]
        &&& r2[k].order == o + (k - r0.len())
        &&& r2[k].ua == ua
    } by {
        if k < r1.len() {
            assert(r2[k] == r1[k]);
        }
    }
}

/// Read the block opened by the `{` at `i`; returns the position after it.
fn scan_block(c: &[char], i: usize, start: usize, ua: bool, m: MediaCtx, order: &mut usize, rules: &mut Vec<Rule>) -> (r: Option<usize>)
    requires
        m.wf(),
        start <= i < c@.len(),
        c@[i as int] == '{',
        *old(order) + (c@.len() - i) <= usize::MAX,
    ensures
        ({
            let j = close_scan(c@, i + 1, 1);
            &&& r is None <==> (!block_cut_ok(c@, i as int, j) || block_here(c@, i as int, start as int, ua, m) is None)
            &&& r is Some ==> {
                let here = block_here(c@, i as int, start as int, ua, m)->0;
                &&& r->0 == j
                &&& i + 1 < j <= c@.len()
                &&& here.len() <= j - i - 1
                &&& appended(old(rules)@, final(rules)@, here, *old(order) as nat, ua)
                &&& *final(order) == *old(order) + here.len()
            }
        }),
    decreases c@.len(), 0nat,
{
    let n = c.len();
    let block_start = i + 1;
    let mut depth: usize = 1;
    let mut j = block_start;
    while j < n && depth > 0
        invariant
            n == c@.len(),
            block_start <= j <= n,
            block_start >= 1,
            depth <= j - block_start + 1,
            close_scan(c@, block_start as int, 1) == close_scan(c@, j as int, depth as int),
        decreases n - j,
    {
        if c[j] == '{' {
            depth += 1;
        } else if c[j] == '}' {
            depth -= 1;
        }
        j += 1;
    }
    proof {
        lemma_close_scan(c@, block_start as int, 1);
    }
    if j <= block_start || (c[j - 1] as u32) >= 128 {
        return None;
    }
    let (pa, pb) = crate::text::trim_bounds(c, start, i);
    let prelude = copy_range(c, pa, pb);
    let block = copy_range(c, block_start, j - 1);
    let media = chars_of("@media");
    let at = chars_of("@");
    proof {
        reveal_strlit("@media");
        reveal_strlit("@");
        assert(prelude@ == trim(c@.subrange(start as int, i as int)));
        assert(block@ == c@.subrange(i + 1, j - 1));
    }
    let ghost r0 = rules@;
    if has_prefix(prelude.as_slice(), media.as_slice()) {
        let query = copy_range(prelude.as_slice(), 6, prelude.len());
        assert(query@ =~= prelude@.skip(6));
        if eval_media_chars(query.as_slice(), m) {
            let ok = collect_rules(block.as_slice(), ua, m, order, rules);
            if !ok {
                return None;
            }
        } else {
            assert(appended(r0, rules@, seq![], *order as nat, ua));
        }
    } else if !has_prefix(prelude.as_slice(), at.as_slice()) {
        let sels = selectors_exec(prelude.as_slice(), ua);
        if sels.len() > 0 {
            let decls = parse_decls(block.as_slice());
            let rule = Rule { selectors: sels, decls, order: *order, ua };
            let ghost body = rule.body();
            rules.push(rule);
            *order = *order + 1;
            assert(appended(r0, rules@, seq![body], *old(order) as nat, ua));
        } else {
            assert(appended(r0, rules@, seq![], *order as nat, ua));
        }
    } else {
        assert(appended(r0, rules@, seq![], *order as nat, ua));
    }
    Some(j)
}

/// Scan `c`, appending its rules (numbered from `*order`) to `rules`.
fn collect_rules(c: &[char], ua: bool, m: MediaCtx, order: &mut usize, rules: &mut Vec<Rule>) -> (ok: bool)
    requires
        m.wf(),
        *old(order) + c@.len() <= usize::MAX,
    ensures
        ok == (rules_scan(c@, 0, 0, ua, m) is Some),
        ok ==> {
            let found = rules_scan(c@, 0, 0, ua, m)->0;
            &&& found.len() <= c@.len()
            &&& appended(old(rules)@, final(rules)@, found, *old(order) as nat, ua)
            &&& *final(order) == *old(order) + found.len()
        },
    decreases c@.len(), 1nat,
{
    let n = c.len();
    let mut i: usize = 0;
    let mut start: usize = 0;
    let ghost o0 = *order;
    let ghost r0 = rules@;
    let ghost mut done: Seq<RuleBody> = seq![];
    assert(rules_scan(c@, 0, 0, ua, m) == opt_cat(done, rules_scan(c@, 0, 0, ua, m))) by {
        match rules_scan(c@, 0, 0, ua, m) {
            Some(x) => {
                assert(done + x =~= x);
            },
            None => {},
        }
    }
    assert(appended(r0, rules@, done, o0 as nat, ua));
    while i < n
        invariant
            m.wf(),
            n == c@.len(),
            start <= i <= n,
            o0 + n <= usize::MAX,
            done.len() <= i,
            rules_scan(c@, 0, 0, ua, m) == opt_cat(done, rules_scan(c@, i as int, start as int, ua, m)),
            appended(r0, rules@, done, o0 as nat, ua),
            *order == o0 + done.len(),
        decreases n - i,
    {
        if c[i] == '{' {
            let ghost r1 = rules@;
            match scan_block(c, i, start, ua, m, order, rules) {
                None => {
                    return false;
                },
                Some(j) => {
                    proof {
                        let here = block_here(c@, i as int, start as int, ua, m)->0;
                        lemma_appended_trans(r0, r1, rules@, done, here, o0 as nat, ua);
                        match rules_scan(c@, j as int, j as int, ua, m) {
                            Some(x) => {
                                assert(done + (here + x) =~= (done + here) + x);
                            },
                            None => {},
                        }
                        done = done + here;
                    }
                    i = j;
                    start = j;
                },
            }
        } else if c[i] == ';' {
            start = i + 1;
            i += 1;
        } else {
            i += 1;
        }
    }
    assert(done + Seq::<RuleBody>::empty() =~= done);
    true
}

/// A parsed stylesheet: its rules in source order.
#[derive(Debug)]
pub struct Stylesheet {
    pub rules: Vec<Rule>,
}

impl Stylesheet {
    /// Every selector of every rule has at least one compound, as parsing guarantees.
    pub open spec fn wf(&self) -> bool {
        forall|k: int| 0 <= k < self.rules@.len() ==> body_wf(#[trigger] self.rules@[k].body())
    }
}

/// Parse `css` (comments removed) into rules numbered from `start_order`, or `None`
/// where a block cannot be cut out of its text (see `block_cut_ok`).
pub fn try_parse_stylesheet(css: &str, ua: bool, start_order: usize, media: &MediaCtx) -> (r: Option<Stylesheet>)
    requires
        media.wf(),
        start_order + css@.len() * 4 <= usize::MAX,
    ensures
        match rules_scan(stripped(css), 0, 0, ua, *media) {
            Some(found) => r is Some && appended(Seq::<Rule>::empty(), r->0.rules@, found, start_order as nat, ua),
            None => r is None,
        },
        r matches Some(sheet) ==> sheet.wf(),
{
    proof {
        lemma_rules_scan_wf(stripped(css), 0, 0, ua, *media);
    }
    let b = css.as_bytes();
    proof {
        crate::css::lemma_strip_bytes_len(b@);
        lemma_spec_bytes_len(css);
    }
    let c = crate::css::strip_comment_chars(b);
    let mut rules: Vec<Rule> = Vec::new();
    let mut order = start_order;
    if collect_rules(c.as_slice(), ua, *media, &mut order, &mut rules) {
        Some(Stylesheet { rules })
    } else {
        None
    }
}

/// A text of `n` characters has at most `4n` UTF-8 bytes.
pub proof fn lemma_spec_bytes_len(s: &str)
    ensures
        s.spec_bytes().len() <= s@.len() * 4,
{
    lemma_encode_len(s@);
}

pub proof fn lemma_encode_len(c: Seq<char>)
    ensures
        vstd::utf8::encode_utf8(c).len() <= c.len() * 4,
    decreases c.len(),
{
    if c.len() > 0 {
        lemma_encode_len(c.drop_first());
        assert(vstd::utf8::encode_scalar(c[0] as u32).len() <= 4);
    }
}

/// Parse `css` (comments removed) into rules numbered from `start_order`.
pub fn parse_stylesheet(css: &str, ua: bool, start_order: usize, media: &MediaCtx) -> (r: Stylesheet)
    requires
        media.wf(),
        rules_scan(stripped(css), 0, 0, ua, *media) is Some,
        start_order + css@.len() * 4 <= usize::MAX,
    ensures
        appended(Seq::<Rule>::empty(), r.rules@, rules_scan(stripped(css), 0, 0, ua, *media)->0, start_order as nat, ua),
        r.wf(),
{
    match try_parse_stylesheet(css, ua, start_order, media) {
        Some(s) => s,
        None => Stylesheet { rules: Vec::new() },
    }
}

/// The built-in user-agent stylesheet (a minimal subset).
pub fn ua_stylesheet() -> (r: Stylesheet)
    ensures
        match rules_scan(stripped(UA_CSS), 0, 0, true, MediaCtx { print: true, width_num: 794, width_den: 1 }) {
            Some(found) => appended(Seq::<Rule>::empty(), r.rules@, found, 0, true),
            None => r.rules@.len() == 0,
        },
        r.wf(),
{
    let media = media_none();
    let css = UA_CSS;
    proof {
        lemma_spec_bytes_len(css);
        lemma_ua_css_len();
    }
    match try_parse_stylesheet(css, true, 0, &media) {
        Some(s) => s,
        None => Stylesheet { rules: Vec::new() },
    }
}


/// The user-agent stylesheet text: display roles, default margins and heading sizes.
pub const UA_CSS: &'static str = "\nhtml, body, div, p, h1, h2, h3, h4, h5, h6, table, tr, td, th, ul, ol, li, header, footer, section, article { display: block; }\nspan, a, b, strong, i, em, small, code, img, sub, sup, label { display: inline; }\ntable { display: table; }\ntr { display: table-row; }\nthead, tbody, tfoot { display: table-row-group; }\ntd, th { display: table-cell; padding: 1px; }\nbody { margin: 8px; }\np { margin-top: 16px; margin-bottom: 16px; }\nh1 { font-size: 2em; margin-top: 21px; margin-bottom: 21px; font-weight: bold; }\nh2 { font-size: 1.5em; margin-top: 20px; margin-bottom: 20px; font-weight: bold; }\nh3 { font-size: 1.17em; margin-top: 19px; margin-bottom: 19px; font-weight: bold; }\nh4 { margin-top: 21px; margin-bottom: 21px; font-weight: bold; }\nh5 { font-size: 0.83em; margin-top: 22px; margin-bottom: 22px; font-weight: bold; }\nh6 { font-size: 0.67em; margin-top: 25px; margin-bottom: 25px; font-weight: bold; }\nb, strong, th { font-weight: bold; }\ni, em { font-style: italic; }\nth { text-align: center; }\n";

proof fn lemma_ua_css_len()
    ensures
        UA_CSS@.len() < 2000,
{
    reveal_strlit("\nhtml, body, div, p, h1, h2, h3, h4, h5, h6, table, tr, td, th, ul, ol, li, header, footer, section, article { display: block; }\nspan, a, b, strong, i, em, small, code, img, sub, sup, label { display: inline; }\ntable { display: table; }\ntr { display: table-row; }\nthead, tbody, tfoot { display: table-row-group; }\ntd, th { display: table-cell; padding: 1px; }\nbody { margin: 8px; }\np { margin-top: 16px; margin-bottom: 16px; }\nh1 { font-size: 2em; margin-top: 21px; margin-bottom: 21px; font-weight: bold; }\nh2 { font-size: 1.5em; margin-top: 20px; margin-bottom: 20px; font-weight: bold; }\nh3 { font-size: 1.17em; margin-top: 19px; margin-bottom: 19px; font-weight: bold; }\nh4 { margin-top: 21px; margin-bottom: 21px; font-weight: bold; }\nh5 { font-size: 0.83em; margin-top: 22px; margin-bottom: 22px; font-weight: bold; }\nh6 { font-size: 0.67em; margin-top: 25px; margin-bottom: 25px; font-weight: bold; }\nb, strong, th { font-weight: bold; }\ni, em { font-style: italic; }\nth { text-align: center; }\n");
}

} // verus!
