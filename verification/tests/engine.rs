//! Tests of the merge engine over synthetic object graphs.

use pdf_merge::errors::MergeError;
use pdf_merge::graph::resolve_index;
use pdf_merge::merge::merge_documents;
use pdf_merge::model::{byte_eq, key_type, marker, Dict, Obj, ObjId, PdfDoc};
use pdf_merge::readiness::{effective_wait_bounds, wait_bounds_ordered};
use pdf_merge::renumber::{renumber_doc, shift_obj};
use pdf_merge::staging::{bytes_le_x, sort_by_filename};

fn id(num: u32) -> ObjId {
    ObjId { num, gen: 0 }
}

fn name(b: &[u8]) -> Obj {
    Obj::Name(b.to_vec())
}

fn entry(k: &[u8], v: Obj) -> (Vec<u8>, Obj) {
    (k.to_vec(), v)
}

fn dict(entries: Vec<(Vec<u8>, Obj)>) -> Dict {
    Dict { entries }
}

/// A catalog, a page collection and one page, the page marked by `tag`.
fn one_page_doc(tag: i64) -> PdfDoc {
    let catalog = dict(vec![
        entry(b"Type", name(b"Catalog")),
        entry(b"Pages", Obj::Ref(id(2))),
    ]);
    let pages = dict(vec![
        entry(b"Type", name(b"Pages")),
        entry(b"Kids", Obj::Array(vec![Obj::Ref(id(3))])),
        entry(b"Count", Obj::Integer(1)),
    ]);
    let page = dict(vec![
        entry(b"Type", name(b"Page")),
        entry(b"Parent", Obj::Ref(id(2))),
        entry(b"Rotate", Obj::Integer(tag)),
    ]);
    PdfDoc {
        objects: vec![
            (id(1), Obj::Dict(catalog)),
            (id(2), Obj::Dict(pages)),
            (id(3), Obj::Dict(page)),
        ],
        pages: vec![id(3)],
        max_id: 3,
    }
}

fn get<'a>(d: &'a Dict, k: &[u8]) -> Option<&'a Obj> {
    d.get(&k.to_vec())
}

fn marker_is(o: &Obj, role: &[u8]) -> bool {
    match marker(o) {
        Some(n) => n.as_slice() == role,
        None => false,
    }
}

/// Collects every reference inside an object.
fn refs_of(o: &Obj, out: &mut Vec<ObjId>) {
    match o {
        Obj::Array(items) => {
            for it in items {
                refs_of(it, out);
            }
        }
        Obj::Dict(d) => {
            for (_, v) in &d.entries {
                refs_of(v, out);
            }
        }
        Obj::Stream { dict, .. } => {
            for (_, v) in &dict.entries {
                refs_of(v, out);
            }
        }
        Obj::Ref(r) => out.push(*r),
        _ => {}
    }
}

#[test]
fn merge_two_documents_page_tree() {
    let docs = vec![one_page_doc(11), one_page_doc(22)];
    let m = merge_documents(&docs).expect("two valid documents must merge");

    // Two pages, one collection, one catalog: four objects, compactly
    // renumbered from 1 with generation 0.
    assert_eq!(m.objects.len(), 4);
    for (i, (oid, _)) in m.objects.iter().enumerate() {
        assert_eq!(oid.num as usize, i + 1);
        assert_eq!(oid.gen, 0);
    }

    let catalogs: Vec<&(ObjId, Obj)> =
        m.objects.iter().filter(|(_, o)| marker_is(o, b"Catalog")).collect();
    let collections: Vec<&(ObjId, Obj)> =
        m.objects.iter().filter(|(_, o)| marker_is(o, b"Pages")).collect();
    let pages: Vec<&(ObjId, Obj)> =
        m.objects.iter().filter(|(_, o)| marker_is(o, b"Page")).collect();
    assert_eq!(catalogs.len(), 1);
    assert_eq!(collections.len(), 1);
    assert_eq!(pages.len(), 2);

    // The trailer root names the catalog, and the catalog points at the
    // collection.
    assert_eq!(m.root, catalogs[0].0);
    let cat = match &catalogs[0].1 {
        Obj::Dict(d) => d,
        _ => panic!("catalog must be a dictionary"),
    };
    match get(cat, b"Pages") {
        Some(Obj::Ref(r)) => assert_eq!(*r, collections[0].0),
        _ => panic!("catalog must reference the collection"),
    }

    // The collection counts both pages and lists them in input order.
    let coll = match &collections[0].1 {
        Obj::Dict(d) => d,
        _ => panic!("collection must be a dictionary"),
    };
    match get(coll, b"Count") {
        Some(Obj::Integer(n)) => assert_eq!(*n, 2),
        _ => panic!("collection must count its pages"),
    }
    let kids = match get(coll, b"Kids") {
        Some(Obj::Array(kids)) => kids,
        _ => panic!("collection must list its pages"),
    };
    assert_eq!(kids.len(), 2);
    let mut tags = Vec::new();
    for kid in kids {
        let kid_id = match kid {
            Obj::Ref(r) => *r,
            _ => panic!("kids must be references"),
        };
        let (_, page) = m.objects.iter().find(|(oid, _)| *oid == kid_id).unwrap();
        let pd = match page {
            Obj::Dict(d) => d,
            _ => panic!("page must be a dictionary"),
        };
        // Every page's parent references the one collection.
        match get(pd, b"Parent") {
            Some(Obj::Ref(r)) => assert_eq!(*r, collections[0].0),
            _ => panic!("page must reference its collection"),
        }
        match get(pd, b"Rotate") {
            Some(Obj::Integer(t)) => tags.push(*t),
            _ => panic!("page tag lost"),
        }
    }
    // Input order is preserved: first document's page first.
    assert_eq!(tags, vec![11, 22]);

    // No dangling references anywhere in the output.
    for (_, o) in &m.objects {
        let mut rs = Vec::new();
        refs_of(o, &mut rs);
        for r in rs {
            assert!(m.objects.iter().any(|(oid, _)| *oid == r));
        }
    }
}

#[test]
fn merge_single_document_is_input_error() {
    let docs = vec![one_page_doc(1)];
    assert!(matches!(merge_documents(&docs), Err(MergeError::InputError)));
}

#[test]
fn merge_without_catalog_is_structural_error() {
    let mut a = one_page_doc(1);
    let mut b = one_page_doc(2);
    // Strip both catalogs.
    a.objects.remove(0);
    b.objects.remove(0);
    let docs = vec![a, b];
    assert!(matches!(merge_documents(&docs), Err(MergeError::StructuralError)));
}

#[test]
fn merge_without_collection_is_structural_error() {
    let mut a = one_page_doc(1);
    let mut b = one_page_doc(2);
    a.objects.remove(1);
    b.objects.remove(1);
    let docs = vec![a, b];
    assert!(matches!(merge_documents(&docs), Err(MergeError::StructuralError)));
}

#[test]
fn merge_with_bad_watermark_is_structural_error() {
    let mut a = one_page_doc(1);
    a.max_id = 2;  // the document holds an object numbered 3
    let docs = vec![a, one_page_doc(2)];
    assert!(matches!(merge_documents(&docs), Err(MergeError::StructuralError)));
}

#[test]
fn first_catalog_survives_later_dropped() {
    let mut a = one_page_doc(1);
    let mut b = one_page_doc(2);
    match &mut a.objects[0].1 {
        Obj::Dict(d) => d.set(b"Marker".to_vec(), Obj::Integer(1)),
        _ => unreachable!(),
    }
    match &mut b.objects[0].1 {
        Obj::Dict(d) => d.set(b"Marker".to_vec(), Obj::Integer(2)),
        _ => unreachable!(),
    }
    let m = merge_documents(&vec![a, b]).unwrap();
    let catalogs: Vec<&(ObjId, Obj)> =
        m.objects.iter().filter(|(_, o)| marker_is(o, b"Catalog")).collect();
    assert_eq!(catalogs.len(), 1);
    match &catalogs[0].1 {
        Obj::Dict(d) => match get(d, b"Marker") {
            Some(Obj::Integer(v)) => assert_eq!(*v, 1),
            _ => panic!("first catalog's entries must survive"),
        },
        _ => unreachable!(),
    }
}

#[test]
fn outlines_are_dropped_from_catalog() {
    let mut a = one_page_doc(1);
    match &mut a.objects[0].1 {
        Obj::Dict(d) => d.set(b"Outlines".to_vec(), Obj::Ref(id(3))),
        _ => unreachable!(),
    }
    let m = merge_documents(&vec![a, one_page_doc(2)]).unwrap();
    let catalogs: Vec<&(ObjId, Obj)> =
        m.objects.iter().filter(|(_, o)| marker_is(o, b"Catalog")).collect();
    match &catalogs[0].1 {
        Obj::Dict(d) => assert!(get(d, b"Outlines").is_none()),
        _ => unreachable!(),
    }
}

#[test]
fn later_collection_keys_overwrite_earlier() {
    let mut a = one_page_doc(1);
    let mut b = one_page_doc(2);
    match &mut a.objects[1].1 {
        Obj::Dict(d) => d.set(b"MediaNote".to_vec(), Obj::Integer(1)),
        _ => unreachable!(),
    }
    match &mut b.objects[1].1 {
        Obj::Dict(d) => d.set(b"MediaNote".to_vec(), Obj::Integer(2)),
        _ => unreachable!(),
    }
    let m = merge_documents(&vec![a, b]).unwrap();
    let collections: Vec<&(ObjId, Obj)> =
        m.objects.iter().filter(|(_, o)| marker_is(o, b"Pages")).collect();
    match &collections[0].1 {
        Obj::Dict(d) => match get(d, b"MediaNote") {
            Some(Obj::Integer(v)) => assert_eq!(*v, 2),
            _ => panic!("folded key lost"),
        },
        _ => unreachable!(),
    }
}

#[test]
fn renumber_shifts_ids_and_references() {
    let doc = one_page_doc(7);
    let shifted = renumber_doc(&doc, 10).unwrap();
    assert_eq!(shifted.max_id, 13);
    assert_eq!(shifted.pages, vec![id(13)]);
    assert_eq!(shifted.objects[0].0, id(11));
    assert_eq!(shifted.objects[1].0, id(12));
    assert_eq!(shifted.objects[2].0, id(13));
    // The catalog's pages pointer moved with the collection.
    match &shifted.objects[0].1 {
        Obj::Dict(d) => match get(d, b"Pages") {
            Some(Obj::Ref(r)) => assert_eq!(*r, id(12)),
            _ => panic!("pages pointer lost"),
        },
        _ => unreachable!(),
    }
}

#[test]
fn shift_rewrites_nested_references() {
    let o = Obj::Array(vec![
        Obj::Ref(id(1)),
        Obj::Dict(dict(vec![entry(b"Next", Obj::Array(vec![Obj::Ref(id(2))]))])),
        Obj::Integer(9),
    ]);
    let s = shift_obj(&o, 5);
    match s {
        Obj::Array(items) => {
            assert!(matches!(items[0], Obj::Ref(r) if r == id(6)));
            match &items[1] {
                Obj::Dict(d) => match get(d, b"Next") {
                    Some(Obj::Array(inner)) => {
                        assert!(matches!(inner[0], Obj::Ref(r) if r == id(7)))
                    }
                    _ => panic!("nested array lost"),
                },
                _ => panic!("nested dictionary lost"),
            }
            assert!(matches!(items[2], Obj::Integer(9)));
        }
        _ => panic!("array lost"),
    }
}

#[test]
fn dictionary_operations() {
    let mut d = dict(vec![
        entry(b"A", Obj::Integer(1)),
        entry(b"B", Obj::Integer(2)),
        entry(b"A", Obj::Integer(3)),
    ]);
    // Lookup takes the first entry with the name.
    assert!(matches!(get(&d, b"A"), Some(Obj::Integer(1))));
    // An update rewrites that first entry in place.
    d.set(b"A".to_vec(), Obj::Integer(9));
    assert!(matches!(get(&d, b"A"), Some(Obj::Integer(9))));
    assert_eq!(d.entries.len(), 3);
    // A new name is appended.
    d.set(b"C".to_vec(), Obj::Integer(4));
    assert_eq!(d.entries.len(), 4);
    assert!(matches!(get(&d, b"C"), Some(Obj::Integer(4))));
    // Removal drops every entry with the name.
    d.remove_key(&b"A".to_vec());
    assert!(get(&d, b"A").is_none());
    assert_eq!(d.entries.len(), 2);
}

#[test]
fn resolve_follows_reference_chains() {
    let objects = vec![
        (id(1), Obj::Ref(id(2))),
        (id(2), Obj::Ref(id(3))),
        (id(3), Obj::Integer(5)),
        (id(4), Obj::Ref(id(4))),
    ];
    assert_eq!(resolve_index(&objects, id(1)), Some(2));
    assert_eq!(resolve_index(&objects, id(3)), Some(2));
    // A cycle never resolves.
    assert_eq!(resolve_index(&objects, id(4)), None);
    // A missing id never resolves.
    assert_eq!(resolve_index(&objects, id(9)), None);
}

#[test]
fn byte_order_and_equality() {
    assert!(byte_eq(&b"Type".to_vec(), &key_type()));
    assert!(!byte_eq(&b"Type".to_vec(), &b"Typo".to_vec()));
    assert!(bytes_le_x(&b"A.pdf".to_vec(), &b"B.pdf".to_vec()));
    assert!(!bytes_le_x(&b"B.pdf".to_vec(), &b"A.pdf".to_vec()));
    assert!(bytes_le_x(&b"A".to_vec(), &b"A.pdf".to_vec()));
    assert!(bytes_le_x(&b"".to_vec(), &b"A".to_vec()));
    assert!(bytes_le_x(&b"A".to_vec(), &b"A".to_vec()));
}

#[test]
fn staging_sorts_by_filename_not_upload_order() {
    let uploaded_one = vec![
        (b"B.pdf".to_vec(), b"second".to_vec()),
        (b"A.pdf".to_vec(), b"first".to_vec()),
    ];
    let uploaded_two = vec![
        (b"A.pdf".to_vec(), b"first".to_vec()),
        (b"B.pdf".to_vec(), b"second".to_vec()),
    ];
    let one = sort_by_filename(uploaded_one);
    let two = sort_by_filename(uploaded_two);
    assert_eq!(one, two);
    assert_eq!(one[0].0, b"A.pdf".to_vec());
    assert_eq!(one[0].1, b"first".to_vec());
    assert_eq!(one[1].0, b"B.pdf".to_vec());
}

#[test]
fn staging_is_stable_for_equal_filenames() {
    let uploaded = vec![
        (b"B.pdf".to_vec(), b"b-one".to_vec()),
        (b"A.pdf".to_vec(), b"a-one".to_vec()),
        (b"B.pdf".to_vec(), b"b-two".to_vec()),
        (b"A.pdf".to_vec(), b"a-two".to_vec()),
    ];
    let sorted = sort_by_filename(uploaded);
    // Equal filenames keep their upload order.
    assert_eq!(sorted[0], (b"A.pdf".to_vec(), b"a-one".to_vec()));
    assert_eq!(sorted[1], (b"A.pdf".to_vec(), b"a-two".to_vec()));
    assert_eq!(sorted[2], (b"B.pdf".to_vec(), b"b-one".to_vec()));
    assert_eq!(sorted[3], (b"B.pdf".to_vec(), b"b-two".to_vec()));
}

#[test]
fn readiness_bounds() {
    assert_eq!(effective_wait_bounds(None, None), (0, 5000));
    assert_eq!(effective_wait_bounds(Some(100), None), (100, 5000));
    assert_eq!(effective_wait_bounds(None, Some(900)), (0, 900));
    assert_eq!(effective_wait_bounds(Some(100), Some(900)), (100, 900));
    assert!(wait_bounds_ordered(Some(100), Some(100)));
    assert!(wait_bounds_ordered(None, Some(0)));
    assert!(!wait_bounds_ordered(Some(101), Some(100)));
}
