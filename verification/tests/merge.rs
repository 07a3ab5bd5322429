use lopdf::{Document, Object, Stream};
use pinto::merge::{footer_index, header_index, overlay_plan, page_count, variant_index, MergeError};

#[test]
fn variant_scheme_first_odd_even_last() {
    let n = 6;
    let got: Vec<usize> = (0..n).map(|i| variant_index(i, n, 4)).collect();
    assert_eq!(got, vec![0, 1, 2, 1, 2, 3]);
    // Fewer variants than asked for: capped at the last one.
    assert_eq!(variant_index(5, 6, 2), 1);
    assert_eq!(variant_index(0, 1, 0), 0);
}

#[test]
fn dynamic_headers_follow_the_page() {
    assert_eq!(header_index(3, 5, true, false, 5), 3);
    assert_eq!(header_index(7, 9, true, false, 5), 4);
    assert_eq!(header_index(7, 9, false, false, 5), 0);
    assert_eq!(header_index(8, 9, false, true, 4), 3);
}

#[test]
fn dynamic_footers_need_more_than_one_page() {
    assert_eq!(footer_index(3, 5, true, false, 5), 3);
    assert_eq!(footer_index(3, 5, true, false, 1), 0);
    assert_eq!(footer_index(3, 5, true, true, 1), 0);
    assert_eq!(footer_index(2, 5, false, true, 4), 2);
}

#[test]
fn plan_covers_every_body_page() {
    let plan = overlay_plan(3, Some(4), None, false, false, true);
    assert_eq!(plan, vec![(Some(0), None), (Some(1), None), (Some(3), None)]);
}

#[test]
fn page_count_rejects_non_pdf() {
    assert!(matches!(page_count(b"not a pdf"), Err(MergeError::UnreadablePdf(_))));
}

#[test]
fn page_count_counts_pages() {
    let mut doc = Document::with_version("1.5");
    let pages_id = doc.new_object_id();
    let mut kids = Vec::new();
    for _ in 0..3 {
        let content_id = doc.add_object(Stream::new(lopdf::Dictionary::new(), Vec::new()));
        let mut page = lopdf::Dictionary::new();
        page.set("Type", Object::Name(b"Page".to_vec()));
        page.set("Parent", Object::Reference(pages_id));
        page.set("Contents", Object::Reference(content_id));
        let id = doc.add_object(page);
        kids.push(Object::Reference(id));
    }
    let mut pages = lopdf::Dictionary::new();
    pages.set("Type", Object::Name(b"Pages".to_vec()));
    pages.set("Count", Object::Integer(3));
    pages.set("Kids", Object::Array(kids));
    doc.objects.insert(pages_id, Object::Dictionary(pages));
    let mut catalog = lopdf::Dictionary::new();
    catalog.set("Type", Object::Name(b"Catalog".to_vec()));
    catalog.set("Pages", Object::Reference(pages_id));
    let catalog_id = doc.add_object(catalog);
    doc.trailer.set("Root", Object::Reference(catalog_id));
    let mut buf = Vec::new();
    doc.save_to(&mut buf).unwrap();
    assert_eq!(page_count(&buf).unwrap(), 3);
}
