//! The page that renders a header or footer, and the class tokens that toggle
//! content for PDF output.
use vstd::prelude::*;

use crate::text::{chars_of, split_whitespace, split_ws, string_of};
use vstd::string::StringExecFns;

verus! {

/// The fixed style of a header or footer page: no body margin, the letter-head
/// offset, and the print wrapper padding.
pub const FIXED_STYLE: &'static str = "\n\t\t\t<style>\n\t\t\t\tbody {\n\t\t\t\t\tmargin: 0 !important;\n\t\t\t\t\tborder: 0 !important;\n\t\t\t\t\tpadding-top: 1mm !important;\n\t\t\t\t}\n\t\t\t\t.letter-head,\n\t\t\t\t.letter-head-footer {\n\t\t\t\t\tmargin-top: -12mm !important;\n\t\t\t\t}\n\t\t\t\t/* Dont show explicit links for <a> tags */\n\t\t\t\t@media print {\n\t\t\t\t\t/* padding is added to simulate old wkhtmltopdf format prints */\n\t\t\t\t\t.wrapper {\n\t\t\t\t\t\tbox-sizing: border-box;\n\t\t\t\t\t\tpadding: 1mm 0 1mm !important;\n\t\t\t\t\t\tpage-break-after: always !important;\n\t\t\t\t\t}\n\t\t\t\t\t[document-status] {\n\t\t\t\t\t\tmargin-bottom: 0 !important;\n\t\t\t\t\t}\n\t\t\t\t\ta[href]:after {\n\t\t\t\t\t\tcontent: none;\n\t\t\t\t\t}\n\t\t\t\t}\n\t\t\t</style>\n";

/// The texts one after another.
pub open spec fn concat_all(v: Seq<String>) -> Seq<char>
    decreases v.len(),
{
    if v.len() == 0 {
        seq![]
    } else {
        concat_all(v.drop_last()) + v.last()@
    }
}

fn append_all(out: &mut String, v: &[String])
    ensures
        final(out)@ == old(out)@ + concat_all(v@),
{
    let ghost o0 = out@;
    for k in 0..v.len()
        invariant
            out@ == o0 + concat_all(v@.take(k as int)),
    {
        assert(v@.take(k + 1).drop_last() =~= v@.take(k as int));
        out.append(v[k].as_str());
        assert(out@ =~= o0 + concat_all(v@.take(k + 1)));
    }
    assert(v@.take(v@.len() as int) =~= v@);
}

/// The header/footer page: the document's language and direction, its head tags,
/// the fixed style, its style tags, and the content inside the print wrapper.
pub open spec fn header_footer_page(lang: Seq<char>, direction: Seq<char>, head: Seq<String>, styles: Seq<String>, content: Seq<String>) -> Seq<char> {
    "<!DOCTYPE html>\n"@ + "<html lang="@ + lang + " dir="@ + direction + ">\n\t<head>\n\t\t<meta charset=\"utf-8\">\n"@
        + concat_all(head) + FIXED_STYLE@ + concat_all(styles)
        + "\n\t</head>\n\t<body>\n\t\t<div class=\"print-format\">\n\t\t\t<div class=\"wrapper\">\n"@
        + concat_all(content) + "\t\t\t</div>\n\t\t</div>\n\t</body>\n</html>"@
}

/// Build the header/footer page HTML.
pub fn render_header_footer(lang: &str, direction: &str, head: &[String], styles: &[String], content: &[String]) -> (r: String)
    ensures
        r@ == header_footer_page(lang@, direction@, head@, styles@, content@),
{
    let mut html = String::from_str("<!DOCTYPE html>\n");
    html.append("<html lang=");
    html.append(lang);
    html.append(" dir=");
    html.append(direction);
    html.append(">\n\t<head>\n\t\t<meta charset=\"utf-8\">\n");
    append_all(&mut html, head);
    html.append(FIXED_STYLE);
    append_all(&mut html, styles);
    html.append("\n\t</head>\n\t<body>\n\t\t<div class=\"print-format\">\n\t\t\t<div class=\"wrapper\">\n");
    append_all(&mut html, content);
    html.append("\t\t\t</div>\n\t\t</div>\n\t</body>\n</html>");
    html
}

// ----- class tokens -----

/// Whether the `class` attribute value holds the token `class`.
pub fn has_class_token(class_attr: &str, class: &str) -> (b: bool)
    ensures
        b == split_ws(class_attr@).contains(class@),
{
    let c = chars_of(class_attr);
    let want = chars_of(class);
    let toks = split_whitespace(c.as_slice());
    let mut k: usize = 0;
    while k < toks.len()
        invariant
            toks@.len() == split_ws(c@).len(),
            forall|i: int| 0 <= i < toks@.len() ==> (#[trigger] toks@[i])@ == split_ws(c@)[i],
            c@ == class_attr@,
            want@ == class@,
            k <= toks@.len(),
            forall|i: int| 0 <= i < k ==> split_ws(c@)[i] != class@,
        decreases toks.len() - k,
    {
        if crate::css::eq_chars(toks[k].as_slice(), want.as_slice()) {
            assert(split_ws(c@)[k as int] == class@);
            return true;
        }
        k += 1;
    }
    false
}

/// Tokens joined with single spaces.
pub open spec fn join_spaced(toks: Seq<Seq<char>>) -> Seq<char>
    decreases toks.len(),
{
    if toks.len() == 0 {
        seq![]
    } else if toks.len() == 1 {
        toks[0]
    } else {
        join_spaced(toks.drop_last()) + seq![' '] + toks.last()
    }
}

/// The tokens other than `class`, in order.
pub open spec fn tokens_without(toks: Seq<Seq<char>>, class: Seq<char>) -> Seq<Seq<char>>
    decreases toks.len(),
{
    if toks.len() == 0 {
        seq![]
    } else {
        let rest = tokens_without(toks.drop_last(), class);
        if toks.last() == class {
            rest
        } else {
            rest.push(toks.last())
        }
    }
}

/// The `class` attribute value with every `class` token removed, the rest joined by
/// single spaces.
pub fn without_class(class_attr: &str, class: &str) -> (r: String)
    ensures
        r@ == join_spaced(tokens_without(split_ws(class_attr@), class@)),
{
    let c = chars_of(class_attr);
    let want = chars_of(class);
    let toks = split_whitespace(c.as_slice());
    let ghost all = split_ws(c@);
    let mut out: Vec<char> = Vec::new();
    let mut kept = false;
    for k in 0..toks.len()
        invariant
            toks@.len() == all.len(),
            all == split_ws(class_attr@),
            forall|i: int| 0 <= i < toks@.len() ==> (#[trigger] toks@[i])@ == all[i],
            want@ == class@,
            kept == (tokens_without(all.take(k as int), class@).len() > 0),
            out@ == join_spaced(tokens_without(all.take(k as int), class@)),
    {
        assert(all.take(k + 1).drop_last() =~= all.take(k as int));
        assert(all.take(k + 1).last() == toks@[k as int]@);
        if !crate::css::eq_chars(toks[k].as_slice(), want.as_slice()) {
            let ghost o0 = out@;
            if kept {
                out.push(' ');
            }
            crate::text::append_chars(&mut out, toks[k].as_slice());
            kept = true;
            proof {
                let t1 = tokens_without(all.take(k + 1), class@);
                assert(t1.drop_last() =~= tokens_without(all.take(k as int), class@));
                if t1.len() == 1 {
                    assert(out@ =~= t1[0]);
                } else {
                    assert(out@ =~= join_spaced(t1.drop_last()) + seq![' '] + t1.last());
                }
            }
        }
    }
    assert(all.take(toks@.len() as int) =~= all);
    string_of(out.as_slice())
}

/// The classes that show page numbers in a dynamic header or footer.
pub open spec fn page_number_classes() -> Seq<Seq<char>> {
    seq!["page"@, "frompage"@, "topage"@, "page_info_page"@, "page_info_frompage"@, "page_info_topage"@]
}

/// Whether a `class` attribute value holds one of the page-number classes.
pub fn uses_page_number(class_attr: &str) -> (b: bool)
    ensures
        b == exists|k: int| 0 <= k < 6 && split_ws(class_attr@).contains(#[trigger] page_number_classes()[k]),
{
    let names = ["page", "frompage", "topage", "page_info_page", "page_info_frompage", "page_info_topage"];
    let mut k: usize = 0;
    while k < 6
        invariant
            k <= 6,
            names@.len() == 6,
            forall|j: int| 0 <= j < 6 ==> (#[trigger] names@[j])@ == page_number_classes()[j],
            forall|j: int| 0 <= j < k ==> !split_ws(class_attr@).contains(#[trigger] page_number_classes()[j]),
        decreases 6 - k,
    {
        if has_class_token(class_attr, names[k]) {
            assert(split_ws(class_attr@).contains(page_number_classes()[k as int]));
            return true;
        }
        k += 1;
    }
    false
}

} // verus!
