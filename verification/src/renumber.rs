//! The object renumberer.
//!
//! Given a document whose object numbers span `[0, max_id]` and a base
//! offset, it produces the equivalent document in which every object id, and
//! every reference pointing into the document, is shifted by the offset.
//! Rewriting recurses through arbitrarily nested dictionaries, arrays and
//! streams.  A document is only ever renumbered against its own ids, so a
//! reference whose number cannot shift without leaving the id space does not
//! point into the document and is left as it stands.

use vstd::prelude::*;
use crate::errors::MergeError;
use crate::model::{
    clone_bytes, lemma_entries_view, lemma_items_view, lemma_objmap_view, obj_view, Dict, Obj,
    ObjId, ObjV, PdfDoc, PdfDocV,
};

verus! {

/// The id shifted by `off`, where that stays an object number.
pub open spec fn shift_id(id: ObjId, off: u32) -> ObjId {
    if id.num + off <= u32::MAX {
        ObjId { num: (id.num + off) as u32, gen: id.gen }
    } else {
        id
    }
}

/// The object with every reference inside it shifted by `off`.
pub open spec fn shift_obj_v(o: ObjV, off: u32) -> ObjV
    decreases o,
{
    match o {
        ObjV::Array(items) => ObjV::Array(shift_items_v(items, off)),
        ObjV::Dict(es) => ObjV::Dict(shift_entries_v(es, off)),
        ObjV::Stream { dict, content, compressible } => ObjV::Stream {
            dict: shift_entries_v(dict, off),
            content,
            compressible,
        },
        ObjV::Ref(id) => ObjV::Ref(shift_id(id, off)),
        _ => o,
    }
}

/// Array elements, each shifted by `off`.
pub open spec fn shift_items_v(items: Seq<ObjV>, off: u32) -> Seq<ObjV>
    decreases items,
{
    if items.len() == 0 {
        Seq::<ObjV>::empty()
    } else {
        shift_items_v(items.drop_last(), off).push(shift_obj_v(items.last(), off))
    }
}

/// Dictionary entries, each value shifted by `off`.
pub open spec fn shift_entries_v(es: Seq<(Seq<u8>, ObjV)>, off: u32) -> Seq<(Seq<u8>, ObjV)>
    decreases es,
{
    if es.len() == 0 {
        Seq::<(Seq<u8>, ObjV)>::empty()
    } else {
        shift_entries_v(es.drop_last(), off).push(
            (es.last().0, shift_obj_v(es.last().1, off)),
        )
    }
}

/// Pointwise description of `shift_items_v`.
pub broadcast proof fn lemma_shift_items_v(items: Seq<ObjV>, off: u32)
    ensures
        (#[trigger] shift_items_v(items, off)).len() == items.len(),
        forall|i: int|
            0 <= i < items.len() ==> shift_items_v(items, off)[i] == shift_obj_v(items[i], off),
    decreases items,
{
    if items.len() > 0 {
        lemma_shift_items_v(items.drop_last(), off);
    }
}

/// Pointwise description of `shift_entries_v`.
pub broadcast proof fn lemma_shift_entries_v(es: Seq<(Seq<u8>, ObjV)>, off: u32)
    ensures
        (#[trigger] shift_entries_v(es, off)).len() == es.len(),
        forall|i: int|
            0 <= i < es.len() ==> shift_entries_v(es, off)[i] == (
                es[i].0,
                shift_obj_v(es[i].1, off),
            ),
    decreases es,
{
    if es.len() > 0 {
        lemma_shift_entries_v(es.drop_last(), off);
    }
}

/// The object map with every id and every object shifted by `off`.
pub open spec fn shift_objmap_v(s: Seq<(ObjId, ObjV)>, off: u32) -> Seq<(ObjId, ObjV)> {
    Seq::new(s.len(), |i: int| (shift_id(s[i].0, off), shift_obj_v(s[i].1, off)))
}

/// A page list with every id shifted by `off`.
pub open spec fn shift_ids_v(ids: Seq<ObjId>, off: u32) -> Seq<ObjId> {
    Seq::new(ids.len(), |i: int| shift_id(ids[i], off))
}

/// The whole document shifted by `off`.
pub open spec fn shift_doc_v(d: PdfDocV, off: u32) -> PdfDocV {
    PdfDocV {
        objects: shift_objmap_v(d.objects, off),
        pages: shift_ids_v(d.pages, off),
        max_id: (d.max_id + off) as u32,
    }
}

/// Every object id's number lies under the document's declared maximum.
pub open spec fn doc_ids_bounded(d: PdfDocV) -> bool {
    forall|i: int| 0 <= i < d.objects.len() ==> d.objects[i].0.num <= d.max_id
}

/// Shifts one id by `off`, where that stays an object number.
pub fn shift_id_x(id: ObjId, off: u32) -> (r: ObjId)
    ensures
        r == shift_id(id, off),
{
    if id.num <= u32::MAX - off {
        ObjId { num: id.num + off, gen: id.gen }
    } else {
        id
    }
}

/// Shifts every reference inside one object by `off`.
pub fn shift_obj(o: &Obj, off: u32) -> (r: Obj)
    ensures
        obj_view(r) == shift_obj_v(obj_view(*o), off),
    decreases *o,
{
    match o {
        Obj::Null => Obj::Null,
        Obj::Boolean(b) => Obj::Boolean(*b),
        Obj::Integer(i) => Obj::Integer(*i),
        Obj::Real(t) => Obj::Real(clone_bytes(t)),
        Obj::Name(n) => Obj::Name(clone_bytes(n)),
        Obj::Text { bytes, hex } => Obj::Text { bytes: clone_bytes(bytes), hex: *hex },
        Obj::Array(items) => Obj::Array(shift_items(items, off)),
        Obj::Dict(d) => Obj::Dict(Dict { entries: shift_entries(&d.entries, off) }),
        Obj::Stream { dict, content, compressible } => Obj::Stream {
            dict: Dict { entries: shift_entries(&dict.entries, off) },
            content: clone_bytes(content),
            compressible: *compressible,
        },
        Obj::Ref(id) => Obj::Ref(shift_id_x(*id, off)),
    }
}

/// Shifts every element of an array by `off`.
fn shift_items(items: &Vec<Obj>, off: u32) -> (r: Vec<Obj>)
    ensures
        crate::model::items_view(r@) == shift_items_v(crate::model::items_view(items@), off),
    decreases items@,
{
    let mut out: Vec<Obj> = Vec::new();
    let mut i: usize = 0;
    while i < items.len()
        invariant
            i <= items.len(),
            out@.len() == i,
            forall|j: int|
                0 <= j < i ==> obj_view(out@[j]) == shift_obj_v(obj_view(items@[j]), off),
        decreases items.len() - i,
    {
        proof {
            assert(decreases_to!(items@ => items@[i as int]));
        }
        let shifted = shift_obj(&items[i], off);
        out.push(shifted);
        i += 1;
    }
    proof {
        lemma_items_view(out@);
        lemma_items_view(items@);
        lemma_shift_items_v(crate::model::items_view(items@), off);
        assert(crate::model::items_view(out@) =~= shift_items_v(
            crate::model::items_view(items@),
            off,
        ));
    }
    out
}

/// Shifts every value of a dictionary by `off`.
fn shift_entries(es: &Vec<(Vec<u8>, Obj)>, off: u32) -> (r: Vec<(Vec<u8>, Obj)>)
    ensures
        crate::model::entries_view(r@) == shift_entries_v(crate::model::entries_view(es@), off),
    decreases es@,
{
    let mut out: Vec<(Vec<u8>, Obj)> = Vec::new();
    let mut i: usize = 0;
    while i < es.len()
        invariant
            i <= es.len(),
            out@.len() == i,
            forall|j: int|
                0 <= j < i ==> out@[j].0@ == es@[j].0@ && obj_view(out@[j].1) == shift_obj_v(
                    obj_view(es@[j].1),
                    off,
                ),
        decreases es.len() - i,
    {
        proof {
            assert(decreases_to!(es@ => es@[i as int]));
            assert(decreases_to!(es@[i as int] => es@[i as int].1));
        }
        let name = clone_bytes(&es[i].0);
        let shifted = shift_obj(&es[i].1, off);
        out.push((name, shifted));
        i += 1;
    }
    proof {
        lemma_entries_view(out@);
        lemma_entries_view(es@);
        lemma_shift_entries_v(crate::model::entries_view(es@), off);
        assert(crate::model::entries_view(out@) =~= shift_entries_v(
            crate::model::entries_view(es@),
            off,
        ));
    }
    out
}

/// Renumbers one document by `off`: every object id and every reference
/// pointing into the document is shifted, and the watermark moves with them.
/// Fails when the document's object set is inconsistent with its declared
/// maximum id.
pub fn renumber_doc(doc: &PdfDoc, off: u32) -> (r: Result<PdfDoc, MergeError>)
    requires
        doc@.max_id + off <= u32::MAX,
    ensures
        doc_ids_bounded(doc@) ==> (r matches Ok(d) && d@ == shift_doc_v(doc@, off)),
        !doc_ids_bounded(doc@) ==> (r matches Err(e) && e == MergeError::StructuralError),
{
    let ghost dv = doc@;
    proof {
        lemma_objmap_view(doc.objects@);
    }
    // The consistency check: every object number under the watermark.
    let mut c: usize = 0;
    while c < doc.objects.len()
        invariant
            c <= doc.objects.len(),
            dv == doc@,
            dv.objects.len() == doc.objects.len(),
            forall|i: int|
                0 <= i < doc.objects.len() ==> dv.objects[i] == (
                    doc.objects@[i].0,
                    obj_view(doc.objects@[i].1),
                ),
            forall|i: int| 0 <= i < c ==> dv.objects[i].0.num <= dv.max_id,
        decreases doc.objects.len() - c,
    {
        if doc.objects[c].0.num > doc.max_id {
            proof {
                assert(dv.objects[c as int].0.num > dv.max_id);
                assert(!doc_ids_bounded(dv));
            }
            return Err(MergeError::StructuralError);
        }
        c += 1;
    }

    // Shift the object map.
    let mut out: Vec<(ObjId, Obj)> = Vec::new();
    let mut i: usize = 0;
    while i < doc.objects.len()
        invariant
            i <= doc.objects.len(),
            dv == doc@,
            dv.objects.len() == doc.objects.len(),
            forall|l: int|
                0 <= l < doc.objects.len() ==> dv.objects[l] == (
                    doc.objects@[l].0,
                    obj_view(doc.objects@[l].1),
                ),
            out@.len() == i,
            forall|j: int|
                0 <= j < i ==> out@[j].0 == shift_id(dv.objects[j].0, off) && obj_view(out@[j].1)
                    == shift_obj_v(dv.objects[j].1, off),
        decreases doc.objects.len() - i,
    {
        let new_id = shift_id_x(doc.objects[i].0, off);
        let shifted = shift_obj(&doc.objects[i].1, off);
        out.push((new_id, shifted));
        i += 1;
    }

    // Shift the page list.
    let mut new_pages: Vec<ObjId> = Vec::new();
    let mut p: usize = 0;
    while p < doc.pages.len()
        invariant
            p <= doc.pages.len(),
            dv == doc@,
            new_pages@.len() == p,
            forall|j: int| 0 <= j < p ==> new_pages@[j] == shift_id(dv.pages[j], off),
        decreases doc.pages.len() - p,
    {
        new_pages.push(shift_id_x(doc.pages[p], off));
        p += 1;
    }

    let r = PdfDoc { objects: out, pages: new_pages, max_id: doc.max_id + off };
    proof {
        lemma_objmap_view(r.objects@);
        assert(r@.objects =~= shift_objmap_v(dv.objects, off));
        assert(r@.pages =~= shift_ids_v(dv.pages, off));
        assert(r@ =~= shift_doc_v(dv, off));
    }
    Ok(r)
}

} // verus!
