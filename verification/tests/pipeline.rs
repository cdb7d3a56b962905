//! Tests of the whole pipeline over real byte buffers, with `lopdf` used to
//! produce the inputs and to inspect the output.

use pdf_merge::codec::parse_document;
use pdf_merge::errors::MergeError;
use pdf_merge::merge::merge;
use pdf_merge::staging::sort_by_filename;

/// Builds a one-page document whose page carries `rotate` as a tag.
fn one_page_pdf(rotate: i64) -> Vec<u8> {
    let mut doc = lopdf::Document::with_version("1.5");
    let pages_id = doc.new_object_id();

    let mut page = lopdf::Dictionary::new();
    page.set("Type", lopdf::Object::Name(b"Page".to_vec()));
    page.set("Parent", lopdf::Object::Reference(pages_id));
    page.set("Rotate", lopdf::Object::Integer(rotate));
    let page_id = doc.add_object(lopdf::Object::Dictionary(page));

    let mut pages = lopdf::Dictionary::new();
    pages.set("Type", lopdf::Object::Name(b"Pages".to_vec()));
    pages.set("Kids", lopdf::Object::Array(vec![lopdf::Object::Reference(page_id)]));
    pages.set("Count", lopdf::Object::Integer(1));
    doc.objects.insert(pages_id, lopdf::Object::Dictionary(pages));

    let mut catalog = lopdf::Dictionary::new();
    catalog.set("Type", lopdf::Object::Name(b"Catalog".to_vec()));
    catalog.set("Pages", lopdf::Object::Reference(pages_id));
    let catalog_id = doc.add_object(lopdf::Object::Dictionary(catalog));
    doc.trailer.set("Root", lopdf::Object::Reference(catalog_id));

    let mut bytes: Vec<u8> = Vec::new();
    doc.save_to(&mut bytes).expect("writing a fresh document cannot fail");
    bytes
}

/// Builds a one-page document whose catalog carries an outline tree.
fn outlined_pdf() -> Vec<u8> {
    let mut doc = lopdf::Document::load_mem(&one_page_pdf(0)).unwrap();
    let mut outlines = lopdf::Dictionary::new();
    outlines.set("Type", lopdf::Object::Name(b"Outlines".to_vec()));
    let outlines_id = doc.add_object(lopdf::Object::Dictionary(outlines));
    let catalog_id = match doc.trailer.get(b"Root").unwrap() {
        lopdf::Object::Reference(r) => *r,
        _ => panic!("the trailer root is a reference"),
    };
    match doc.objects.get_mut(&catalog_id).unwrap() {
        lopdf::Object::Dictionary(d) => {
            d.set("Outlines", lopdf::Object::Reference(outlines_id))
        }
        _ => panic!("the catalog is a dictionary"),
    }
    let mut bytes: Vec<u8> = Vec::new();
    doc.save_to(&mut bytes).unwrap();
    bytes
}

/// Whether the object is a dictionary declaring this role.
fn tagged(o: &lopdf::Object, role: &[u8]) -> bool {
    match o.as_dict() {
        Ok(d) => match d.get(b"Type") {
            Ok(lopdf::Object::Name(n)) => n.as_slice() == role,
            _ => false,
        },
        Err(_) => false,
    }
}

fn rotate_of(doc: &lopdf::Document, page_id: (u32, u16)) -> i64 {
    let page = doc.get_object(page_id).unwrap().as_dict().unwrap();
    page.get(b"Rotate").unwrap().as_i64().unwrap()
}

#[test]
fn merged_bytes_hold_every_page_in_order() {
    let merged = merge(&vec![one_page_pdf(11), one_page_pdf(22)]).expect("merge must succeed");
    let out = lopdf::Document::load_mem(&merged).expect("the output must parse");

    let pages: Vec<(u32, (u32, u16))> = out.get_pages().into_iter().collect();
    assert_eq!(pages.len(), 2);
    assert_eq!(rotate_of(&out, pages[0].1), 11);
    assert_eq!(rotate_of(&out, pages[1].1), 22);

    // Exactly one catalog and one page collection survive.
    let catalogs = out.objects.values().filter(|o| tagged(o, b"Catalog")).count();
    let collections = out.objects.values().filter(|o| tagged(o, b"Pages")).count();
    assert_eq!(catalogs, 1);
    assert_eq!(collections, 1);

    // The collection's count equals its page list's length, and every
    // page's parent references the collection.
    let catalog = out.catalog().unwrap();
    let coll_id = match catalog.get(b"Pages").unwrap() {
        lopdf::Object::Reference(r) => *r,
        _ => panic!("the catalog references the collection"),
    };
    let coll = out.get_object(coll_id).unwrap().as_dict().unwrap();
    let kids = coll.get(b"Kids").unwrap().as_array().unwrap();
    assert_eq!(coll.get(b"Count").unwrap().as_i64().unwrap(), kids.len() as i64);
    for (_, page_id) in &pages {
        let page = out.get_object(*page_id).unwrap().as_dict().unwrap();
        match page.get(b"Parent").unwrap() {
            lopdf::Object::Reference(r) => assert_eq!(*r, coll_id),
            _ => panic!("the parent is a reference"),
        }
    }
}

#[test]
fn staged_uploads_merge_the_same_whatever_their_order() {
    let a = one_page_pdf(11);
    let b = one_page_pdf(22);

    let upload_one = vec![(b"B.pdf".to_vec(), b.clone()), (b"A.pdf".to_vec(), a.clone())];
    let upload_two = vec![(b"A.pdf".to_vec(), a), (b"B.pdf".to_vec(), b)];

    let staged_one: Vec<Vec<u8>> =
        sort_by_filename(upload_one).into_iter().map(|(_, bytes)| bytes).collect();
    let staged_two: Vec<Vec<u8>> =
        sort_by_filename(upload_two).into_iter().map(|(_, bytes)| bytes).collect();

    let merged_one = merge(&staged_one).unwrap();
    let merged_two = merge(&staged_two).unwrap();
    // The sort order is the sole determinant: identical output bytes.
    assert_eq!(merged_one, merged_two);

    // And the order is the filename order: A's page first.
    let out = lopdf::Document::load_mem(&merged_one).unwrap();
    let pages: Vec<(u32, (u32, u16))> = out.get_pages().into_iter().collect();
    assert_eq!(rotate_of(&out, pages[0].1), 11);
    assert_eq!(rotate_of(&out, pages[1].1), 22);
}

#[test]
fn merging_one_document_is_an_input_error() {
    assert_eq!(merge(&vec![one_page_pdf(1)]), Err(MergeError::InputError));
    assert_eq!(merge(&Vec::new()), Err(MergeError::InputError));
}

#[test]
fn corrupt_bytes_are_a_parse_error() {
    let corrupt = b"this is not a document".to_vec();
    assert_eq!(merge(&vec![corrupt, one_page_pdf(1)]), Err(MergeError::ParseError));
}

/// A document that parses but declares no catalog.
fn untagged_catalog_pdf(rotate: i64) -> Vec<u8> {
    let mut doc = lopdf::Document::load_mem(&one_page_pdf(rotate)).unwrap();
    let catalog_id = match doc.trailer.get(b"Root").unwrap() {
        lopdf::Object::Reference(r) => *r,
        _ => panic!("the trailer root is a reference"),
    };
    match doc.objects.get_mut(&catalog_id).unwrap() {
        lopdf::Object::Dictionary(d) => {
            d.remove(b"Type");
        }
        _ => panic!("the catalog is a dictionary"),
    }
    let mut bytes: Vec<u8> = Vec::new();
    doc.save_to(&mut bytes).unwrap();
    bytes
}

#[test]
fn no_catalog_among_the_inputs_is_a_structural_error() {
    // When no input declares a catalog, the hard absence aborts the merge.
    let inputs = vec![untagged_catalog_pdf(1), untagged_catalog_pdf(2)];
    assert_eq!(merge(&inputs), Err(MergeError::StructuralError));
    // One tagged catalog anywhere among the inputs is enough.
    assert!(merge(&vec![untagged_catalog_pdf(1), one_page_pdf(2)]).is_ok());
}

#[test]
fn three_catalogs_one_survives() {
    let merged =
        merge(&vec![one_page_pdf(1), one_page_pdf(2), one_page_pdf(3)]).unwrap();
    let out = lopdf::Document::load_mem(&merged).unwrap();
    assert_eq!(out.get_pages().len(), 3);
    let catalogs = out.objects.values().filter(|o| tagged(o, b"Catalog")).count();
    let collections = out.objects.values().filter(|o| tagged(o, b"Pages")).count();
    assert_eq!(catalogs, 1);
    assert_eq!(collections, 1);
}

#[test]
fn outline_trees_are_dropped() {
    let merged = merge(&vec![outlined_pdf(), one_page_pdf(2)]).unwrap();
    let out = lopdf::Document::load_mem(&merged).unwrap();
    let catalog = out.catalog().unwrap();
    assert!(catalog.get(b"Outlines").is_err());
}

#[test]
fn every_output_reference_resolves() {
    let merged = merge(&vec![outlined_pdf(), one_page_pdf(9)]).unwrap();
    let out = lopdf::Document::load_mem(&merged).unwrap();

    fn check(doc: &lopdf::Document, o: &lopdf::Object) {
        match o {
            lopdf::Object::Reference(r) => {
                assert!(doc.objects.contains_key(r), "dangling reference");
            }
            lopdf::Object::Array(items) => {
                for it in items {
                    check(doc, it);
                }
            }
            lopdf::Object::Dictionary(d) => {
                for (_, v) in d.iter() {
                    check(doc, v);
                }
            }
            lopdf::Object::Stream(s) => {
                for (_, v) in s.dict.iter() {
                    check(doc, v);
                }
            }
            _ => {}
        }
    }
    for o in out.objects.values() {
        check(&out, o);
    }
}

#[test]
fn parsing_reads_the_page_order() {
    let parsed = parse_document(&one_page_pdf(5)).expect("a valid document parses");
    assert_eq!(parsed.pages.len(), 1);
    assert!(parsed.max_id >= 3);
    assert!(!parsed.objects.is_empty());
    assert!(parse_document(&b"garbage".to_vec()).is_none());
}
