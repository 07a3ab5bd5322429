//! Unit handling, the page-size table, and reading lengths out of option values.
use vstd::prelude::*;

use crate::number::digit_run;
use crate::style::is_lit;
use crate::css::pairs_view;
use crate::text::{chars_of, contains, contains_exec, copy_range, is_digit, string_of};
use vstd::string::StringExecFns;

verus! {

/// Named page sizes in millimetres (width, height).
pub open spec fn page_size_table(name: Seq<char>) -> Option<(u32, u32)> {
    if name == "A10"@ {
        Some((26, 37))
    } else if name == "A1"@ {
        Some((594, 841))
    } else if name == "A0"@ {
        Some((841, 1189))
    } else if name == "A3"@ {
        Some((297, 420))
    } else if name == "A2"@ {
        Some((420, 594))
    } else if name == "A5"@ {
        Some((148, 210))
    } else if name == "A4"@ {
        Some((210, 297))
    } else if name == "A7"@ {
        Some((74, 105))
    } else if name == "A6"@ {
        Some((105, 148))
    } else if name == "A9"@ {
        Some((37, 52))
    } else if name == "A8"@ {
        Some((52, 74))
    } else if name == "B10"@ {
        Some((44, 31))
    } else if name == "B1+"@ {
        Some((1020, 720))
    } else if name == "B4"@ {
        Some((353, 250))
    } else if name == "B5"@ {
        Some((250, 176))
    } else if name == "B6"@ {
        Some((176, 125))
    } else if name == "B7"@ {
        Some((125, 88))
    } else if name == "B0"@ {
        Some((1414, 1000))
    } else if name == "B1"@ {
        Some((1000, 707))
    } else if name == "B2"@ {
        Some((707, 500))
    } else if name == "B3"@ {
        Some((500, 353))
    } else if name == "B2+"@ {
        Some((720, 520))
    } else if name == "B8"@ {
        Some((88, 62))
    } else if name == "B9"@ {
        Some((62, 44))
    } else if name == "C10"@ {
        Some((40, 28))
    } else if name == "C9"@ {
        Some((57, 40))
    } else if name == "C8"@ {
        Some((81, 57))
    } else if name == "C3"@ {
        Some((458, 324))
    } else if name == "C2"@ {
        Some((648, 458))
    } else if name == "C1"@ {
        Some((917, 648))
    } else if name == "C0"@ {
        Some((1297, 917))
    } else if name == "C7"@ {
        Some((114, 81))
    } else if name == "C6"@ {
        Some((162, 114))
    } else if name == "C5"@ {
        Some((229, 162))
    } else if name == "C4"@ {
        Some((324, 229))
    } else if name == "Legal"@ {
        Some((216, 356))
    } else if name == "Junior Legal"@ {
        Some((127, 203))
    } else if name == "Letter"@ {
        Some((216, 279))
    } else if name == "Tabloid"@ {
        Some((279, 432))
    } else if name == "Ledger"@ {
        Some((432, 279))
    } else if name == "ANSI C"@ {
        Some((432, 559))
    } else if name == "ANSI A (letter)"@ {
        Some((216, 279))
    } else if name == "ANSI B (ledger & tabloid)"@ {
        Some((279, 432))
    } else if name == "ANSI E"@ {
        Some((864, 1118))
    } else if name == "ANSI D"@ {
        Some((559, 864))
    } else {
        None
    }
}

/// A length given in tenths of an inch, in whole millimetres (an inch is 254 tenths
/// of a millimetre), to the nearest millimetre.
pub open spec fn mm_from_tenth_inches(t: nat) -> nat {
    (t * 254 + 50) / 100
}

/// The next smaller ISO sheet of a portrait `(width, height)`: the height halved
/// (rounded down) becomes the width, the width becomes the height.
pub open spec fn halved_portrait(d: Option<(u32, u32)>) -> Option<(u32, u32)> {
    match d {
        Some((w, h)) => Some(((h / 2) as u32, w)),
        None => None,
    }
}

/// The next smaller ISO sheet of a `(long side, short side)` pair: the short side
/// becomes the long one and the long side halved (rounded down) the short one.
pub open spec fn halved_landscape(d: Option<(u32, u32)>) -> Option<(u32, u32)> {
    match d {
        Some((l, s)) => Some((s, (l / 2) as u32)),
        None => None,
    }
}

/// The letters of each size name, so that names are told apart.
proof fn lemma_page_size_names()
    ensures
        "A10"@.len() == 3 && "A10"@[0] == 'A' && "A10"@[1] == '1' && "A10"@[2] == '0',
        "A1"@.len() == 2 && "A1"@[0] == 'A' && "A1"@[1] == '1',
        "A0"@.len() == 2 && "A0"@[0] == 'A' && "A0"@[1] == '0',
        "A3"@.len() == 2 && "A3"@[0] == 'A' && "A3"@[1] == '3',
        "A2"@.len() == 2 && "A2"@[0] == 'A' && "A2"@[1] == '2',
        "A5"@.len() == 2 && "A5"@[0] == 'A' && "A5"@[1] == '5',
        "A4"@.len() == 2 && "A4"@[0] == 'A' && "A4"@[1] == '4',
        "A7"@.len() == 2 && "A7"@[0] == 'A' && "A7"@[1] == '7',
        "A6"@.len() == 2 && "A6"@[0] == 'A' && "A6"@[1] == '6',
        "A9"@.len() == 2 && "A9"@[0] == 'A' && "A9"@[1] == '9',
        "A8"@.len() == 2 && "A8"@[0] == 'A' && "A8"@[1] == '8',
        "B10"@.len() == 3 && "B10"@[0] == 'B' && "B10"@[1] == '1' && "B10"@[2] == '0',
        "B1+"@.len() == 3 && "B1+"@[0] == 'B' && "B1+"@[1] == '1' && "B1+"@[2] == '+',
        "B4"@.len() == 2 && "B4"@[0] == 'B' && "B4"@[1] == '4',
        "B5"@.len() == 2 && "B5"@[0] == 'B' && "B5"@[1] == '5',
        "B6"@.len() == 2 && "B6"@[0] == 'B' && "B6"@[1] == '6',
        "B7"@.len() == 2 && "B7"@[0] == 'B' && "B7"@[1] == '7',
        "B0"@.len() == 2 && "B0"@[0] == 'B' && "B0"@[1] == '0',
        "B1"@.len() == 2 && "B1"@[0] == 'B' && "B1"@[1] == '1',
        "B2"@.len() == 2 && "B2"@[0] == 'B' && "B2"@[1] == '2',
        "B3"@.len() == 2 && "B3"@[0] == 'B' && "B3"@[1] == '3',
        "B2+"@.len() == 3 && "B2+"@[0] == 'B' && "B2+"@[1] == '2' && "B2+"@[2] == '+',
        "B8"@.len() == 2 && "B8"@[0] == 'B' && "B8"@[1] == '8',
        "B9"@.len() == 2 && "B9"@[0] == 'B' && "B9"@[1] == '9',
        "C10"@.len() == 3 && "C10"@[0] == 'C' && "C10"@[1] == '1' && "C10"@[2] == '0',
        "C9"@.len() == 2 && "C9"@[0] == 'C' && "C9"@[1] == '9',
        "C8"@.len() == 2 && "C8"@[0] == 'C' && "C8"@[1] == '8',
        "C3"@.len() == 2 && "C3"@[0] == 'C' && "C3"@[1] == '3',
        "C2"@.len() == 2 && "C2"@[0] == 'C' && "C2"@[1] == '2',
        "C1"@.len() == 2 && "C1"@[0] == 'C' && "C1"@[1] == '1',
        "C0"@.len() == 2 && "C0"@[0] == 'C' && "C0"@[1] == '0',
        "C7"@.len() == 2 && "C7"@[0] == 'C' && "C7"@[1] == '7',
        "C6"@.len() == 2 && "C6"@[0] == 'C' && "C6"@[1] == '6',
        "C5"@.len() == 2 && "C5"@[0] == 'C' && "C5"@[1] == '5',
        "C4"@.len() == 2 && "C4"@[0] == 'C' && "C4"@[1] == '4',
        "Legal"@.len() == 5 && "Legal"@[0] == 'L' && "Legal"@[1] == 'e' && "Legal"@[2] == 'g' && "Legal"@[3] == 'a' && "Legal"@[4] == 'l',
        "Junior Legal"@.len() == 12 && "Junior Legal"@[0] == 'J' && "Junior Legal"@[1] == 'u' && "Junior Legal"@[2] == 'n' && "Junior Legal"@[3] == 'i' && "Junior Legal"@[4] == 'o' && "Junior Legal"@[5] == 'r' && "Junior Legal"@[6] == ' ' && "Junior Legal"@[7] == 'L' && "Junior Legal"@[8] == 'e' && "Junior Legal"@[9] == 'g' && "Junior Legal"@[10] == 'a' && "Junior Legal"@[11] == 'l',
        "Letter"@.len() == 6 && "Letter"@[0] == 'L' && "Letter"@[1] == 'e' && "Letter"@[2] == 't' && "Letter"@[3] == 't' && "Letter"@[4] == 'e' && "Letter"@[5] == 'r',
        "Tabloid"@.len() == 7 && "Tabloid"@[0] == 'T' && "Tabloid"@[1] == 'a' && "Tabloid"@[2] == 'b' && "Tabloid"@[3] == 'l' && "Tabloid"@[4] == 'o' && "Tabloid"@[5] == 'i' && "Tabloid"@[6] == 'd',
        "Ledger"@.len() == 6 && "Ledger"@[0] == 'L' && "Ledger"@[1] == 'e' && "Ledger"@[2] == 'd' && "Ledger"@[3] == 'g' && "Ledger"@[4] == 'e' && "Ledger"@[5] == 'r',
        "ANSI C"@.len() == 6 && "ANSI C"@[0] == 'A' && "ANSI C"@[1] == 'N' && "ANSI C"@[2] == 'S' && "ANSI C"@[3] == 'I' && "ANSI C"@[4] == ' ' && "ANSI C"@[5] == 'C',
        "ANSI A (letter)"@.len() == 15 && "ANSI A (letter)"@[0] == 'A' && "ANSI A (letter)"@[1] == 'N' && "ANSI A (letter)"@[2] == 'S' && "ANSI A (letter)"@[3] == 'I' && "ANSI A (letter)"@[4] == ' ' && "ANSI A (letter)"@[5] == 'A' && "ANSI A (letter)"@[6] == ' ' && "ANSI A (letter)"@[7] == '(' && "ANSI A (letter)"@[8] == 'l' && "ANSI A (letter)"@[9] == 'e' && "ANSI A (letter)"@[10] == 't' && "ANSI A (letter)"@[11] == 't' && "ANSI A (letter)"@[12] == 'e' && "ANSI A (letter)"@[13] == 'r' && "ANSI A (letter)"@[14] == ')',
        "ANSI B (ledger & tabloid)"@.len() == 25 && "ANSI B (ledger & tabloid)"@[0] == 'A' && "ANSI B (ledger & tabloid)"@[1] == 'N' && "ANSI B (ledger & tabloid)"@[2] == 'S' && "ANSI B (ledger & tabloid)"@[3] == 'I' && "ANSI B (ledger & tabloid)"@[4] == ' ' && "ANSI B (ledger & tabloid)"@[5] == 'B' && "ANSI B (ledger & tabloid)"@[6] == ' ' && "ANSI B (ledger & tabloid)"@[7] == '(' && "ANSI B (ledger & tabloid)"@[8] == 'l' && "ANSI B (ledger & tabloid)"@[9] == 'e' && "ANSI B (ledger & tabloid)"@[10] == 'd' && "ANSI B (ledger & tabloid)"@[11] == 'g' && "ANSI B (ledger & tabloid)"@[12] == 'e' && "ANSI B (ledger & tabloid)"@[13] == 'r' && "ANSI B (ledger & tabloid)"@[14] == ' ' && "ANSI B (ledger & tabloid)"@[15] == '&' && "ANSI B (ledger & tabloid)"@[16] == ' ' && "ANSI B (ledger & tabloid)"@[17] == 't' && "ANSI B (ledger & tabloid)"@[18] == 'a' && "ANSI B (ledger & tabloid)"@[19] == 'b' && "ANSI B (ledger & tabloid)"@[20] == 'l' && "ANSI B (ledger & tabloid)"@[21] == 'o' && "ANSI B (ledger & tabloid)"@[22] == 'i' && "ANSI B (ledger & tabloid)"@[23] == 'd' && "ANSI B (ledger & tabloid)"@[24] == ')',
        "ANSI E"@.len() == 6 && "ANSI E"@[0] == 'A' && "ANSI E"@[1] == 'N' && "ANSI E"@[2] == 'S' && "ANSI E"@[3] == 'I' && "ANSI E"@[4] == ' ' && "ANSI E"@[5] == 'E',
        "ANSI D"@.len() == 6 && "ANSI D"@[0] == 'A' && "ANSI D"@[1] == 'N' && "ANSI D"@[2] == 'S' && "ANSI D"@[3] == 'I' && "ANSI D"@[4] == ' ' && "ANSI D"@[5] == 'D',
{
    reveal_strlit("A10");
    reveal_strlit("A1");
    reveal_strlit("A0");
    reveal_strlit("A3");
    reveal_strlit("A2");
    reveal_strlit("A5");
    reveal_strlit("A4");
    reveal_strlit("A7");
    reveal_strlit("A6");
    reveal_strlit("A9");
    reveal_strlit("A8");
    reveal_strlit("B10");
    reveal_strlit("B1+");
    reveal_strlit("B4");
    reveal_strlit("B5");
    reveal_strlit("B6");
    reveal_strlit("B7");
    reveal_strlit("B0");
    reveal_strlit("B1");
    reveal_strlit("B2");
    reveal_strlit("B3");
    reveal_strlit("B2+");
    reveal_strlit("B8");
    reveal_strlit("B9");
    reveal_strlit("C10");
    reveal_strlit("C9");
    reveal_strlit("C8");
    reveal_strlit("C3");
    reveal_strlit("C2");
    reveal_strlit("C1");
    reveal_strlit("C0");
    reveal_strlit("C7");
    reveal_strlit("C6");
    reveal_strlit("C5");
    reveal_strlit("C4");
    reveal_strlit("Legal");
    reveal_strlit("Junior Legal");
    reveal_strlit("Letter");
    reveal_strlit("Tabloid");
    reveal_strlit("Ledger");
    reveal_strlit("ANSI C");
    reveal_strlit("ANSI A (letter)");
    reveal_strlit("ANSI B (ledger & tabloid)");
    reveal_strlit("ANSI E");
    reveal_strlit("ANSI D");
}

/// The ISO 216 sizes: A0 is 841 x 1189 mm, B0 1000 x 1414 mm and C0 917 x 1297 mm
/// (the B and C series listed long side first), and each next size halves the
/// previous sheet across its long side, rounding down; the B1+ and B2+ sheets are
/// 1020 x 720 and 720 x 520 mm.
pub proof fn lemma_iso_paper_sizes()
    ensures
        page_size_table("A0"@) == Some((841u32, 1189u32)),
        page_size_table("B0"@) == Some((1414u32, 1000u32)),
        page_size_table("C0"@) == Some((1297u32, 917u32)),
        page_size_table("A1"@) == halved_portrait(page_size_table("A0"@)),
        page_size_table("A2"@) == halved_portrait(page_size_table("A1"@)),
        page_size_table("A3"@) == halved_portrait(page_size_table("A2"@)),
        page_size_table("A4"@) == halved_portrait(page_size_table("A3"@)),
        page_size_table("A5"@) == halved_portrait(page_size_table("A4"@)),
        page_size_table("A6"@) == halved_portrait(page_size_table("A5"@)),
        page_size_table("A7"@) == halved_portrait(page_size_table("A6"@)),
        page_size_table("A8"@) == halved_portrait(page_size_table("A7"@)),
        page_size_table("A9"@) == halved_portrait(page_size_table("A8"@)),
        page_size_table("A10"@) == halved_portrait(page_size_table("A9"@)),
        page_size_table("B1"@) == halved_landscape(page_size_table("B0"@)),
        page_size_table("B2"@) == halved_landscape(page_size_table("B1"@)),
        page_size_table("B3"@) == halved_landscape(page_size_table("B2"@)),
        page_size_table("B4"@) == halved_landscape(page_size_table("B3"@)),
        page_size_table("B5"@) == halved_landscape(page_size_table("B4"@)),
        page_size_table("B6"@) == halved_landscape(page_size_table("B5"@)),
        page_size_table("B7"@) == halved_landscape(page_size_table("B6"@)),
        page_size_table("B8"@) == halved_landscape(page_size_table("B7"@)),
        page_size_table("B9"@) == halved_landscape(page_size_table("B8"@)),
        page_size_table("B10"@) == halved_landscape(page_size_table("B9"@)),
        page_size_table("C1"@) == halved_landscape(page_size_table("C0"@)),
        page_size_table("C2"@) == halved_landscape(page_size_table("C1"@)),
        page_size_table("C3"@) == halved_landscape(page_size_table("C2"@)),
        page_size_table("C4"@) == halved_landscape(page_size_table("C3"@)),
        page_size_table("C5"@) == halved_landscape(page_size_table("C4"@)),
        page_size_table("C6"@) == halved_landscape(page_size_table("C5"@)),
        page_size_table("C7"@) == halved_landscape(page_size_table("C6"@)),
        page_size_table("C8"@) == halved_landscape(page_size_table("C7"@)),
        page_size_table("C9"@) == halved_landscape(page_size_table("C8"@)),
        page_size_table("C10"@) == halved_landscape(page_size_table("C9"@)),
        page_size_table("B1+"@) == Some((1020u32, 720u32)),
        page_size_table("B2+"@) == Some((720u32, 520u32)),
{
    lemma_page_size_names();
}

/// The North American sizes are their inch dimensions converted to millimetres, in
/// tenths of an inch: Letter 85 x 110, Legal 85 x 140, Junior Legal 50 x 80, Tabloid
/// 110 x 170, Ledger 170 x 110, ANSI C 170 x 220, ANSI D 220 x 340, ANSI E 340 x 440
/// (ANSI A is Letter, ANSI B Tabloid). So Legal is as wide as Letter and taller, and
/// Ledger is Tabloid on its side.
pub proof fn lemma_us_paper_sizes()
    ensures
        page_size_table("Letter"@) == Some((mm_from_tenth_inches(85) as u32, mm_from_tenth_inches(110) as u32)),
        page_size_table("Legal"@) == Some((mm_from_tenth_inches(85) as u32, mm_from_tenth_inches(140) as u32)),
        page_size_table("Junior Legal"@) == Some((mm_from_tenth_inches(50) as u32, mm_from_tenth_inches(80) as u32)),
        page_size_table("Tabloid"@) == Some((mm_from_tenth_inches(110) as u32, mm_from_tenth_inches(170) as u32)),
        page_size_table("Ledger"@) == Some((mm_from_tenth_inches(170) as u32, mm_from_tenth_inches(110) as u32)),
        page_size_table("ANSI A (letter)"@) == Some((mm_from_tenth_inches(85) as u32, mm_from_tenth_inches(110) as u32)),
        page_size_table("ANSI B (ledger & tabloid)"@) == Some((mm_from_tenth_inches(110) as u32, mm_from_tenth_inches(170) as u32)),
        page_size_table("ANSI C"@) == Some((mm_from_tenth_inches(170) as u32, mm_from_tenth_inches(220) as u32)),
        page_size_table("ANSI D"@) == Some((mm_from_tenth_inches(220) as u32, mm_from_tenth_inches(340) as u32)),
        page_size_table("ANSI E"@) == Some((mm_from_tenth_inches(340) as u32, mm_from_tenth_inches(440) as u32)),
        page_size_table("Legal"@).unwrap().0 == page_size_table("Letter"@).unwrap().0,
        page_size_table("Legal"@).unwrap().1 > page_size_table("Letter"@).unwrap().1,
        page_size_table("Ledger"@).unwrap().0 == page_size_table("Tabloid"@).unwrap().1,
        page_size_table("Ledger"@).unwrap().1 == page_size_table("Tabloid"@).unwrap().0,
{
    lemma_page_size_names();
}

/// Named page sizes in millimetres (width, height); `None` for an unknown name.
pub fn page_size_mm(name: &str) -> (r: Option<(u32, u32)>)
    ensures
        r == page_size_table(name@),
{
    let c0 = chars_of(name);
    let c = c0.as_slice();
    if is_lit(c, "A10") {
        Some((26, 37))
    } else if is_lit(c, "A1") {
        Some((594, 841))
    } else if is_lit(c, "A0") {
        Some((841, 1189))
    } else if is_lit(c, "A3") {
        Some((297, 420))
    } else if is_lit(c, "A2") {
        Some((420, 594))
    } else if is_lit(c, "A5") {
        Some((148, 210))
    } else if is_lit(c, "A4") {
        Some((210, 297))
    } else if is_lit(c, "A7") {
        Some((74, 105))
    } else if is_lit(c, "A6") {
        Some((105, 148))
    } else if is_lit(c, "A9") {
        Some((37, 52))
    } else if is_lit(c, "A8") {
        Some((52, 74))
    } else if is_lit(c, "B10") {
        Some((44, 31))
    } else if is_lit(c, "B1+") {
        Some((1020, 720))
    } else if is_lit(c, "B4") {
        Some((353, 250))
    } else if is_lit(c, "B5") {
        Some((250, 176))
    } else if is_lit(c, "B6") {
        Some((176, 125))
    } else if is_lit(c, "B7") {
        Some((125, 88))
    } else if is_lit(c, "B0") {
        Some((1414, 1000))
    } else if is_lit(c, "B1") {
        Some((1000, 707))
    } else if is_lit(c, "B2") {
        Some((707, 500))
    } else if is_lit(c, "B3") {
        Some((500, 353))
    } else if is_lit(c, "B2+") {
        Some((720, 520))
    } else if is_lit(c, "B8") {
        Some((88, 62))
    } else if is_lit(c, "B9") {
        Some((62, 44))
    } else if is_lit(c, "C10") {
        Some((40, 28))
    } else if is_lit(c, "C9") {
        Some((57, 40))
    } else if is_lit(c, "C8") {
        Some((81, 57))
    } else if is_lit(c, "C3") {
        Some((458, 324))
    } else if is_lit(c, "C2") {
        Some((648, 458))
    } else if is_lit(c, "C1") {
        Some((917, 648))
    } else if is_lit(c, "C0") {
        Some((1297, 917))
    } else if is_lit(c, "C7") {
        Some((114, 81))
    } else if is_lit(c, "C6") {
        Some((162, 114))
    } else if is_lit(c, "C5") {
        Some((229, 162))
    } else if is_lit(c, "C4") {
        Some((324, 229))
    } else if is_lit(c, "Legal") {
        Some((216, 356))
    } else if is_lit(c, "Junior Legal") {
        Some((127, 203))
    } else if is_lit(c, "Letter") {
        Some((216, 279))
    } else if is_lit(c, "Tabloid") {
        Some((279, 432))
    } else if is_lit(c, "Ledger") {
        Some((432, 279))
    } else if is_lit(c, "ANSI C") {
        Some((432, 559))
    } else if is_lit(c, "ANSI A (letter)") {
        Some((216, 279))
    } else if is_lit(c, "ANSI B (ledger & tabloid)") {
        Some((279, 432))
    } else if is_lit(c, "ANSI E") {
        Some((864, 1118))
    } else if is_lit(c, "ANSI D") {
        Some((559, 864))
    } else {
        None
    }
}

// ----- numbers in option values -----

pub open spec fn is_sign(c: char) -> bool {
    c == '+' || c == '-'
}

/// A sign or dot begins a number only if a digit follows (allowing one dot after a
/// sign).
pub open spec fn starts_number_spec(s: Seq<char>, i: int) -> bool {
    let j = if is_sign(s[i]) && i + 1 < s.len() && s[i + 1] == '.' {
        i + 2
    } else {
        i + 1
    };
    j < s.len() && is_digit(s[j])
}

/// A number begins at `i`: a digit, or a sign or dot followed by one.
pub open spec fn number_start(s: Seq<char>, i: int) -> bool {
    is_digit(s[i]) || ((is_sign(s[i]) || s[i] == '.') && starts_number_spec(s, i))
}

/// Where the number starting at `st` ends: an optional sign, digits, and an optional
/// dot with more digits.
pub open spec fn number_end(s: Seq<char>, st: int) -> int {
    let a = if is_sign(s[st]) {
        st + 1
    } else {
        st
    };
    let b = digit_run(s, a);
    if b < s.len() && s[b] == '.' {
        digit_run(s, b + 1)
    } else {
        b
    }
}

/// The span of the first number at or after `i` (`[+-]?([0-9]*[.])?[0-9]+`, greedy).
pub open spec fn first_number_from(s: Seq<char>, i: int) -> Option<(int, int)>
    decreases s.len() - i,
{
    if i < 0 || i >= s.len() {
        None
    } else if number_start(s, i) {
        Some((i, number_end(s, i)))
    } else {
        first_number_from(s, i + 1)
    }
}

/// The text of the first number in `s`.
pub open spec fn first_number_spec(s: Seq<char>) -> Option<Seq<char>> {
    match first_number_from(s, 0) {
        Some((a, b)) => Some(s.subrange(a, b)),
        None => None,
    }
}

fn starts_number(s: &[char], i: usize) -> (b: bool)
    requires
        i < s@.len(),
    ensures
        b == starts_number_spec(s@, i as int),
{
    let n = s.len();
    let mut j = i + 1;
    if (s[i] == '+' || s[i] == '-') && j < s.len() && s[j] == '.' {
        j += 1;
    }
    j < s.len() && '0' <= s[j] && s[j] <= '9'
}

proof fn lemma_digit_run_bounds(s: Seq<char>, i: int)
    requires
        0 <= i <= s.len(),
    ensures
        i <= digit_run(s, i) <= s.len(),
    decreases s.len() - i,
{
    if i < s.len() && is_digit(s[i]) {
        lemma_digit_run_bounds(s, i + 1);
    }
}

/// The text of the first number in `text`, matching the pattern
/// `[+-]?([0-9]*[.])?[0-9]+`.
pub fn first_number_text(text: &str) -> (r: Option<String>)
    ensures
        match first_number_spec(text@) {
            Some(t) => r is Some && r->0@ == t,
            None => r is None,
        },
{
    let c = chars_of(text);
    let s = c.as_slice();
    let mut i: usize = 0;
    while i < s.len()
        invariant
            i <= s@.len(),
            s@ == text@,
            first_number_from(s@, 0) == first_number_from(s@, i as int),
        decreases s.len() - i,
    {
        let ch = s[i];
        if ('0' <= ch && ch <= '9') || ((ch == '+' || ch == '-' || ch == '.') && starts_number(s, i)) {
            let start = i;
            if s[i] == '+' || s[i] == '-' {
                i += 1;
            }
            let b = crate::number::digit_run_exec(s, i);
            let mut e = b;
            if b < s.len() && s[b] == '.' {
                e = crate::number::digit_run_exec(s, b + 1);
            }
            proof {
                assert(number_start(s@, start as int));
                assert(e == number_end(s@, start as int));
            }
            let t = copy_range(s, start, e);
            return Some(string_of(t.as_slice()));
        }
        i += 1;
    }
    None
}

/// The units an option value may carry.
pub open spec fn units() -> Seq<Seq<char>> {
    seq!["px"@, "mm"@, "cm"@, "in"@]
}

/// The units that occur in `s`, in table order.
pub open spec fn units_in(s: Seq<char>, k: int) -> Seq<Seq<char>>
    decreases k,
{
    if k <= 0 {
        seq![]
    } else {
        let rest = units_in(s, k - 1);
        if contains(s, units()[k - 1]) {
            rest.push(units()[k - 1])
        } else {
            rest
        }
    }
}

/// The unit of a value: the one unit it mentions, else `default_unit`.
pub open spec fn unit_of(s: Seq<char>, default_unit: Seq<char>) -> Seq<char> {
    let m = units_in(s, 4);
    if m.len() == 1 {
        m[0]
    } else {
        default_unit
    }
}

/// The first number of `input` (as text) and its unit: the single recognised unit
/// (px, mm, cm, in) it mentions, else `default_unit`; `None` without a number.
pub fn number_and_unit(input: &str, default_unit: &str) -> (r: Option<(String, String)>)
    ensures
        match first_number_spec(input@) {
            Some(t) => r matches Some((n, u)) && n@ == t && u@ == unit_of(input@, default_unit@),
            None => r is None,
        },
{
    let num = match first_number_text(input) {
        Some(n) => n,
        None => return None,
    };
    let c = chars_of(input);
    let names = ["px", "mm", "cm", "in"];
    let mut found: Vec<&str> = Vec::new();
    for k in 0..4usize
        invariant
            c@ == input@,
            names@.len() == 4,
            forall|j: int| 0 <= j < 4 ==> (#[trigger] names@[j])@ == units()[j],
            found@.len() == units_in(input@, k as int).len(),
            forall|j: int| 0 <= j < found@.len() ==> (#[trigger] found@[j])@ == units_in(input@, k as int)[j],
    {
        let u = names[k];
        let uc = chars_of(u);
        if contains_exec(c.as_slice(), uc.as_slice()) {
            found.push(u);
        }
    }
    let unit = if found.len() == 1 {
        found[0].to_string()
    } else {
        default_unit.to_string()
    };
    Some((num, unit))
}

// ----- page geometry choices -----

/// The value of the last declaration named `name`.
pub open spec fn last_decl(d: Seq<(Seq<char>, Seq<char>)>, name: Seq<char>) -> Option<Seq<char>>
    decreases d.len(),
{
    if d.len() == 0 {
        None
    } else if d.last().0 == name {
        Some(d.last().1)
    } else {
        last_decl(d.drop_last(), name)
    }
}

/// The value of the last declaration named `name`, if any.
pub fn last_declared(decls: &[(String, String)], name: &str) -> (r: Option<String>)
    ensures
        match last_decl(pairs_view(decls@), name@) {
            Some(v) => r is Some && r->0@ == v,
            None => r is None,
        },
{
    let ghost d = pairs_view(decls@);
    let mut k = decls.len();
    assert(d.take(k as int) =~= d);
    while k > 0
        invariant
            k <= decls@.len(),
            d == pairs_view(decls@),
            last_decl(d, name@) == last_decl(d.take(k as int), name@),
        decreases k,
    {
        let ghost t = d.take(k as int);
        assert(t.drop_last() =~= d.take(k - 1));
        assert(t.last() == (decls@[k - 1].0@, decls@[k - 1].1@));
        if decls[k - 1].0 == name.to_string() {
            return Some(decls[k - 1].1.clone());
        }
        k -= 1;
    }
    None
}

pub open spec fn opt_str_view(o: Option<&str>) -> Option<Seq<char>> {
    match o {
        Some(s) => Some(s@),
        None => None,
    }
}

/// The page size a layout uses: the stylesheet's value if it declares one, else the
/// options'; that value unless it is empty or `Custom`, else the default (A4 when
/// the default is empty).
pub open spec fn layout_page_size_spec(css: Option<Seq<char>>, option: Option<Seq<char>>, default_size: Seq<char>) -> Seq<char> {
    let chosen = match css {
        Some(c) => Some(c),
        None => option,
    };
    match chosen {
        Some(c) if c.len() > 0 && c != "Custom"@ => c,
        _ => if default_size.len() == 0 {
            "A4"@
        } else {
            default_size
        },
    }
}

/// How page options are chosen: a later declaration of a name overrides earlier ones
/// and declarations of other names do not touch it; a page size the stylesheet
/// declares is used whatever the options say; and a layout always gets a non-empty
/// page size.
pub proof fn lemma_page_option_choices(
    d: Seq<(Seq<char>, Seq<char>)>,
    name: Seq<char>,
    other: Seq<char>,
    v: Seq<char>,
    css: Seq<char>,
    option1: Option<Seq<char>>,
    option2: Option<Seq<char>>,
    default_size: Seq<char>,
)
    ensures
        last_decl(d.push((name, v)), name) == Some(v),
        other != name ==> last_decl(d.push((other, v)), name) == last_decl(d, name),
        layout_page_size_spec(Some(css), option1, default_size) == layout_page_size_spec(Some(css), option2, default_size),
        layout_page_size_spec(Some(css), option1, default_size).len() > 0,
        layout_page_size_spec(None, option1, default_size).len() > 0,
{
    assert(d.push((name, v)).drop_last() =~= d);
    assert(d.push((other, v)).drop_last() =~= d);
    reveal_strlit("A4");
}

/// The page size a layout uses (see `layout_page_size_spec`).
pub fn layout_page_size(css: Option<&str>, option: Option<&str>, default_size: &str) -> (r: String)
    ensures
        r@ == layout_page_size_spec(opt_str_view(css), opt_str_view(option), default_size@),
{
    let chosen = match css {
        Some(c) => Some(c),
        None => option,
    };
    match chosen {
        Some(c) => {
            let cc = chars_of(c);
            if cc.len() > 0 && !is_lit(cc.as_slice(), "Custom") {
                return String::from_str(c);
            }
        },
        None => {},
    }
    let dc = chars_of(default_size);
    if dc.len() == 0 {
        String::from_str("A4")
    } else {
        String::from_str(default_size)
    }
}

/// Whether the page is turned: the stylesheet's orientation if declared, else the
/// options', is `Landscape`.
pub fn is_landscape(css: Option<&str>, option: Option<&str>) -> (b: bool)
    ensures
        b == (match css {
            Some(c) => c@ == "Landscape"@,
            None => match option {
                Some(o) => o@ == "Landscape"@,
                None => false,
            },
        }),
{
    let chosen = match css {
        Some(c) => Some(c),
        None => option,
    };
    match chosen {
        Some(c) => {
            let cc = chars_of(c);
            is_lit(cc.as_slice(), "Landscape")
        },
        None => false,
    }
}

/// Why a page size cannot be resolved to dimensions.
#[derive(Debug, PartialEq, Eq)]
pub enum PageSizeError {
    /// No page size is set.
    Required,
    /// `CUSTOM` needs explicit page height and width.
    CustomNeedsDimensions,
    /// The name is not in the page-size table.
    Invalid,
}

/// The page size requested by the options: the `page-size` value unless it is missing
/// or empty, else the default (A4 when the default is empty).
pub fn requested_page_size(option: Option<&str>, default_size: &str) -> (r: String)
    ensures
        r@ == (match option {
            Some(o) if o@.len() > 0 => o@,
            _ => if default_size@.len() == 0 {
                "A4"@
            } else {
                default_size@
            },
        }),
{
    match option {
        Some(o) => {
            let oc = chars_of(o);
            if oc.len() > 0 {
                return String::from_str(o);
            }
        },
        None => {},
    }
    let dc = chars_of(default_size);
    if dc.len() == 0 {
        String::from_str("A4")
    } else {
        String::from_str(default_size)
    }
}

/// The dimensions (mm) of the named page size the options give, where explicit
/// dimensions are missing.
pub fn named_page_dimensions(page_size: Option<&str>) -> (r: Result<(u32, u32), PageSizeError>)
    ensures
        match page_size {
            None => r == Err::<(u32, u32), PageSizeError>(PageSizeError::Required),
            Some(n) => if n@ == "CUSTOM"@ {
                r == Err::<(u32, u32), PageSizeError>(PageSizeError::CustomNeedsDimensions)
            } else {
                match page_size_table(n@) {
                    Some(d) => r == Ok::<(u32, u32), PageSizeError>(d),
                    None => r == Err::<(u32, u32), PageSizeError>(PageSizeError::Invalid),
                }
            },
        },
{
    let name = match page_size {
        Some(n) => n,
        None => return Err(PageSizeError::Required),
    };
    let c = chars_of(name);
    if is_lit(c.as_slice(), "CUSTOM") {
        return Err(PageSizeError::CustomNeedsDimensions);
    }
    match page_size_mm(name) {
        Some(d) => Ok(d),
        None => Err(PageSizeError::Invalid),
    }
}

/// The page options a `.print-format` rule may set.
pub open spec fn page_option_names() -> Seq<Seq<char>> {
    seq![
        "margin-top"@,
        "margin-bottom"@,
        "margin-left"@,
        "margin-right"@,
        "page-size"@,
        "header-spacing"@,
        "orientation"@,
        "page-width"@,
        "page-height"@,
    ]
}

/// The declarations that set page options, in order.
pub open spec fn page_option_decls(d: Seq<(Seq<char>, Seq<char>)>) -> Seq<(Seq<char>, Seq<char>)>
    decreases d.len(),
{
    if d.len() == 0 {
        seq![]
    } else {
        let rest = page_option_decls(d.drop_last());
        if page_option_names().contains(d.last().0) {
            rest.push(d.last())
        } else {
            rest
        }
    }
}

/// The `.print-format` declarations that override page options (margins, page size
/// and dimensions, header spacing, orientation), in order.
pub fn page_option_declarations(decls: &[(String, String)]) -> (r: Vec<(String, String)>)
    ensures
        pairs_view(r@) == page_option_decls(pairs_view(decls@)),
{
    let names = [
        "margin-top", "margin-bottom", "margin-left", "margin-right", "page-size", "header-spacing", "orientation",
        "page-width", "page-height",
    ];
    let ghost d = pairs_view(decls@);
    let mut out: Vec<(String, String)> = Vec::new();
    for k in 0..decls.len()
        invariant
            d == pairs_view(decls@),
            names@.len() == 9,
            forall|j: int| 0 <= j < 9 ==> (#[trigger] names@[j])@ == page_option_names()[j],
            pairs_view(out@) == page_option_decls(d.take(k as int)),
    {
        assert(d.take(k + 1).drop_last() =~= d.take(k as int));
        assert(d.take(k + 1).last() == (decls@[k as int].0@, decls@[k as int].1@));
        let name = &decls[k].0;
        let mut found = false;
        let mut j: usize = 0;
        while j < 9
            invariant
                names@.len() == 9,
                forall|i: int| 0 <= i < 9 ==> (#[trigger] names@[i])@ == page_option_names()[i],
                j <= 9,
                found == (exists|i: int| 0 <= i < j && page_option_names()[i] == name@),
            decreases 9 - j,
        {
            if *name == names[j].to_string() {
                found = true;
            }
            j += 1;
        }
        proof {
            if page_option_names().contains(name@) {
                let i = choose|i: int| 0 <= i < page_option_names().len() && page_option_names()[i] == name@;
                assert(found);
            }
        }
        if found {
            let ghost o0 = pairs_view(out@);
            out.push((decls[k].0.clone(), decls[k].1.clone()));
            assert(pairs_view(out@) =~= o0.push((decls@[k as int].0@, decls@[k as int].1@)));
        }
    }
    assert(d.take(decls@.len() as int) =~= d);
    out
}

} // verus!
