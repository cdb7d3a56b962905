//! The trusted boundary to the `lopdf` crate.
//!
//! Parsing a raw byte buffer into the model and serializing the merged model
//! back to bytes are delegated to `lopdf`.  Both are functions of their
//! input alone, so their results are named by uninterpreted functions; the
//! merge pipeline is verified against those names.

use vstd::prelude::*;
use crate::model::{Dict, MergedDoc, MergedDocV, Obj, ObjId, PdfDoc, PdfDocV};

verus! {

/// Whether `lopdf` parses these bytes into a document.
pub uninterp spec fn parse_ok(raw: Seq<u8>) -> bool;

/// What `lopdf` parses these bytes into: the object map, the page order
/// found by walking the page tree, and the maximum-id watermark.
pub uninterp spec fn parse_of(raw: Seq<u8>) -> PdfDocV;

/// Whether `lopdf` can write this document to bytes.
pub uninterp spec fn serialize_ok(doc: MergedDocV) -> bool;

/// The bytes `lopdf` writes this document to, compressed.
pub uninterp spec fn serialized(doc: MergedDocV) -> Seq<u8>;

#[verifier::external_type_specification]
#[verifier::external_body]
pub struct ExLopdfObject(lopdf::Object);

#[verifier::external_type_specification]
#[verifier::external_body]
pub struct ExLopdfDictionary(lopdf::Dictionary);

#[verifier::external_type_specification]
#[verifier::external_body]
pub struct ExLopdfStream(lopdf::Stream);

#[verifier::external_type_specification]
#[verifier::external_body]
pub struct ExLopdfStringFormat(lopdf::StringFormat);

/// Converts one `lopdf` string into the model, keeping how it was written.
#[verifier::external_body]
fn text_from(s: &Vec<u8>, f: &lopdf::StringFormat) -> Obj {
    Obj::Text { bytes: s.clone(), hex: matches!(f, lopdf::StringFormat::Hexadecimal) }
}

/// Converts one `lopdf` stream into the model, keeping whether its payload
/// may be compressed.
#[verifier::external_body]
fn stream_from(s: &lopdf::Stream) -> Obj {
    Obj::Stream {
        dict: dict_from(&s.dict),
        content: s.content.clone(),
        compressible: s.allows_compression,
    }
}

/// Converts one `lopdf` array into the model, element by element.
#[verifier::external_body]
fn items_from(a: &Vec<lopdf::Object>) -> Obj {
    Obj::Array(a.iter().map(obj_from).collect())
}

/// Converts one `lopdf` object into the model, one variant to one variant.
/// A real number becomes its shortest decimal text, which reads back to the
/// same number.
#[verifier::external_body]
fn obj_from(o: &lopdf::Object) -> Obj {
    match o {
        lopdf::Object::Null => Obj::Null,
        lopdf::Object::Boolean(b) => Obj::Boolean(*b),
        lopdf::Object::Integer(i) => Obj::Integer(*i),
        lopdf::Object::Real(r) => Obj::Real(r.to_string().into_bytes()),
        lopdf::Object::Name(n) => Obj::Name(n.clone()),
        lopdf::Object::String(s, f) => text_from(s, f),
        lopdf::Object::Array(a) => items_from(a),
        lopdf::Object::Dictionary(d) => Obj::Dict(dict_from(d)),
        lopdf::Object::Stream(s) => stream_from(s),
        lopdf::Object::Reference(r) => Obj::Ref(ObjId { num: r.0, gen: r.1 }),
    }
}

/// Converts one `lopdf` dictionary into the model, entry by entry.
#[verifier::external_body]
fn dict_from(d: &lopdf::Dictionary) -> Dict {
    Dict { entries: d.iter().map(|(k, v)| (k.clone(), obj_from(v))).collect() }
}

/// Converts a model real number back to `lopdf`, reading its decimal text.
/// A parsed real always reads back exactly; the zero fallbacks can only be
/// reached by a hand-built value, and no contract rests on them.
#[verifier::external_body]
fn real_to(t: &Vec<u8>) -> lopdf::Object {
    lopdf::Object::Real(core::str::from_utf8(t).unwrap_or("0").parse().unwrap_or_default())
}

/// Converts a model string back to `lopdf`, keeping how it was written.
#[verifier::external_body]
fn text_to(bytes: &Vec<u8>, hex: bool) -> lopdf::Object {
    let f = if hex { lopdf::StringFormat::Hexadecimal } else { lopdf::StringFormat::Literal };
    lopdf::Object::String(bytes.clone(), f)
}

/// Converts one model array back to `lopdf`, element by element.
#[verifier::external_body]
fn items_to(items: &Vec<Obj>) -> lopdf::Object {
    lopdf::Object::Array(items.iter().map(obj_to).collect())
}

/// Converts one model object back to `lopdf`, one variant to one variant.
#[verifier::external_body]
fn obj_to(o: &Obj) -> lopdf::Object {
    match o {
        Obj::Null => lopdf::Object::Null,
        Obj::Boolean(b) => lopdf::Object::Boolean(*b),
        Obj::Integer(i) => lopdf::Object::Integer(*i),
        Obj::Real(t) => real_to(t),
        Obj::Name(n) => lopdf::Object::Name(n.clone()),
        Obj::Text { bytes, hex } => text_to(bytes, *hex),
        Obj::Array(items) => items_to(items),
        Obj::Dict(d) => lopdf::Object::Dictionary(dict_to(d)),
        Obj::Stream { dict, content, compressible } => stream_to(dict, content, *compressible),
        Obj::Ref(id) => lopdf::Object::Reference((id.num, id.gen)),
    }
}

/// Converts one model dictionary back to `lopdf`, entry by entry.
#[verifier::external_body]
fn dict_to(d: &Dict) -> lopdf::Dictionary {
    d.entries.iter().map(|(k, v)| (k.clone(), obj_to(v))).collect()
}

/// Converts one model stream back to `lopdf`, keeping whether its payload
/// may be compressed.
#[verifier::external_body]
fn stream_to(dict: &Dict, content: &Vec<u8>, compressible: bool) -> lopdf::Object {
    let mut s = lopdf::Stream::new(dict_to(dict), content.clone());
    s.allows_compression = compressible;
    lopdf::Object::Stream(s)
}

/// Relies on lopdf's `Document::load_mem` and `page_iter`.  The crate is
/// built without lopdf's parallel parsing feature, so objects held in
/// object streams are read in one fixed order and parsing is a function of
/// the bytes alone.  The object map comes out of an ordered map, so its ids
/// are strictly ascending, and every dictionary object comes out of a map
/// of distinct names.  The page-tree walk yields the document's own page
/// order, and yields only ids whose reference chains it could follow,
/// within its dereference budget, to a dictionary tagged as a page.
#[verifier::external_body]
pub fn parse_document(raw: &Vec<u8>) -> (r: Option<PdfDoc>)
    ensures
        r is Some <==> parse_ok(raw@),
        r matches Some(d) ==> d@ == parse_of(raw@),
        r matches Some(d) ==> crate::model::strictly_sorted(d@.objects),
        r matches Some(d) ==> forall|j: int|
            0 <= j < d@.objects.len() ==> ((#[trigger] d@.objects[j]).1 is Dict
                ==> crate::model::entries_distinct(
                crate::classify::dict_entries_v(d@.objects[j].1),
            )),
        r matches Some(d) ==> forall|i: int|
            0 <= i < d@.pages.len() ==> ((#[trigger] crate::graph::resolve_v(
                d@.objects,
                d@.pages[i],
                crate::graph::deref_fuel(),
            )) matches Some(o) && crate::classify::role_v(o) == crate::classify::Role::Page),
{
    let doc = match lopdf::Document::load_mem(raw) {
        Ok(d) => d,
        Err(_) => return None,
    };
    let pages: Vec<ObjId> = doc.page_iter().map(|(num, gen)| ObjId { num, gen }).collect();
    let objects: Vec<(ObjId, Obj)> = doc.objects.iter().map(
        |(k, v)| (ObjId { num: k.0, gen: k.1 }, obj_from(v)),
    ).collect();
    Some(PdfDoc { objects, pages, max_id: doc.max_id })
}

/// Relies on lopdf's `Document`: building the object map, compressing its
/// streams and writing them out are functions of the document alone.
#[verifier::external_body]
pub fn serialize_document(doc: &MergedDoc) -> (r: Option<Vec<u8>>)
    ensures
        r is Some <==> serialize_ok(doc@),
        r matches Some(bytes) ==> bytes@ == serialized(doc@),
{
    let mut out = lopdf::Document::with_version("1.5");
    for (id, o) in doc.objects.iter() {
        out.objects.insert((id.num, id.gen), obj_to(o));
    }
    out.max_id = doc.objects.len() as u32;
    out.trailer.set("Root", lopdf::Object::Reference((doc.root.num, doc.root.gen)));
    out.compress();
    let mut bytes: Vec<u8> = Vec::new();
    match out.save_to(&mut bytes) {
        Ok(_) => Some(bytes),
        Err(_) => None,
    }
}

} // verus!
