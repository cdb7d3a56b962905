//! The final renumbering pass.
//!
//! Discarding duplicate catalogs and page collections leaves gaps in the id
//! space.  This pass renumbers the output map to the compact ids `1..=n` in
//! the map's order, with every generation fixed to 0, and rewrites every
//! reference accordingly.  A reference that does not point at an object of
//! the output is rewritten to null, so every reference of the output
//! resolves to a present object.

use vstd::prelude::*;
use crate::graph::{find_id, find_index, lemma_find_id};
use crate::model::{
    clone_bytes, lemma_entries_view, lemma_items_view, lemma_objmap_view, obj_view, objmap_view,
    Dict, MergedDoc, MergedDocV, Obj, ObjId, ObjV,
};

verus! {

/// The compact id of the object at index `i`.
pub open spec fn compact_id(i: int) -> ObjId {
    ObjId { num: (i + 1) as u32, gen: 0 }
}

/// What a reference to `id` becomes: a reference to the compact id of the
/// object it names, or null where no object of the map has that id.
pub open spec fn compact_ref_v(s: Seq<(ObjId, ObjV)>, id: ObjId) -> ObjV {
    if find_id(s, id) < s.len() {
        ObjV::Ref(compact_id(find_id(s, id)))
    } else {
        ObjV::Null
    }
}

/// The object with every reference inside it rewritten to compact ids.
pub open spec fn compact_obj_v(s: Seq<(ObjId, ObjV)>, o: ObjV) -> ObjV
    decreases o,
{
    match o {
        ObjV::Array(items) => ObjV::Array(compact_items_v(s, items)),
        ObjV::Dict(es) => ObjV::Dict(compact_entries_v(s, es)),
        ObjV::Stream { dict, content, compressible } => ObjV::Stream {
            dict: compact_entries_v(s, dict),
            content,
            compressible,
        },
        ObjV::Ref(id) => compact_ref_v(s, id),
        _ => o,
    }
}

/// Array elements, each rewritten to compact ids.
pub open spec fn compact_items_v(s: Seq<(ObjId, ObjV)>, items: Seq<ObjV>) -> Seq<ObjV>
    decreases items,
{
    if items.len() == 0 {
        Seq::<ObjV>::empty()
    } else {
        compact_items_v(s, items.drop_last()).push(compact_obj_v(s, items.last()))
    }
}

/// Dictionary entries, each value rewritten to compact ids.
pub open spec fn compact_entries_v(
    s: Seq<(ObjId, ObjV)>,
    es: Seq<(Seq<u8>, ObjV)>,
) -> Seq<(Seq<u8>, ObjV)>
    decreases es,
{
    if es.len() == 0 {
        Seq::<(Seq<u8>, ObjV)>::empty()
    } else {
        compact_entries_v(s, es.drop_last()).push(
            (es.last().0, compact_obj_v(s, es.last().1)),
        )
    }
}

/// Pointwise description of `compact_items_v`.
pub broadcast proof fn lemma_compact_items_v(s: Seq<(ObjId, ObjV)>, items: Seq<ObjV>)
    ensures
        (#[trigger] compact_items_v(s, items)).len() == items.len(),
        forall|i: int|
            0 <= i < items.len() ==> compact_items_v(s, items)[i] == compact_obj_v(s, items[i]),
    decreases items,
{
    if items.len() > 0 {
        lemma_compact_items_v(s, items.drop_last());
    }
}

/// Pointwise description of `compact_entries_v`.
pub broadcast proof fn lemma_compact_entries_v(s: Seq<(ObjId, ObjV)>, es: Seq<(Seq<u8>, ObjV)>)
    ensures
        (#[trigger] compact_entries_v(s, es)).len() == es.len(),
        forall|i: int|
            0 <= i < es.len() ==> compact_entries_v(s, es)[i] == (
                es[i].0,
                compact_obj_v(s, es[i].1),
            ),
    decreases es,
{
    if es.len() > 0 {
        lemma_compact_entries_v(s, es.drop_last());
    }
}

/// The whole map renumbered to compact ids, in its order.
pub open spec fn compact_v(s: Seq<(ObjId, ObjV)>) -> Seq<(ObjId, ObjV)> {
    Seq::new(s.len(), |i: int| (compact_id(i), compact_obj_v(s, s[i].1)))
}

/// The compact id of the output root.
pub open spec fn compact_root_v(s: Seq<(ObjId, ObjV)>, root: ObjId) -> ObjId {
    compact_id(find_id(s, root))
}

/// Rewrites one reference to the compact id space.
fn compact_ref(objects: &Vec<(ObjId, Obj)>, id: ObjId) -> (r: Obj)
    requires
        objects@.len() <= u32::MAX,
    ensures
        obj_view(r) == compact_ref_v(objmap_view(objects@), id),
{
    let i = find_index(objects, id);
    if i < objects.len() {
        Obj::Ref(ObjId { num: (i as u32) + 1, gen: 0 })
    } else {
        Obj::Null
    }
}

/// Rewrites every reference inside one object to the compact id space.
pub fn compact_obj(objects: &Vec<(ObjId, Obj)>, o: &Obj) -> (r: Obj)
    requires
        objects@.len() <= u32::MAX,
    ensures
        obj_view(r) == compact_obj_v(objmap_view(objects@), obj_view(*o)),
    decreases *o,
{
    match o {
        Obj::Null => Obj::Null,
        Obj::Boolean(b) => Obj::Boolean(*b),
        Obj::Integer(i) => Obj::Integer(*i),
        Obj::Real(t) => Obj::Real(clone_bytes(t)),
        Obj::Name(n) => Obj::Name(clone_bytes(n)),
        Obj::Text { bytes, hex } => Obj::Text { bytes: clone_bytes(bytes), hex: *hex },
        Obj::Array(items) => Obj::Array(compact_items(objects, items)),
        Obj::Dict(d) => Obj::Dict(Dict { entries: compact_entries(objects, &d.entries) }),
        Obj::Stream { dict, content, compressible } => Obj::Stream {
            dict: Dict { entries: compact_entries(objects, &dict.entries) },
            content: clone_bytes(content),
            compressible: *compressible,
        },
        Obj::Ref(id) => compact_ref(objects, *id),
    }
}

/// Rewrites every element of an array to the compact id space.
fn compact_items(objects: &Vec<(ObjId, Obj)>, items: &Vec<Obj>) -> (r: Vec<Obj>)
    requires
        objects@.len() <= u32::MAX,
    ensures
        crate::model::items_view(r@) == compact_items_v(
            objmap_view(objects@),
            crate::model::items_view(items@),
        ),
    decreases items@,
{
    let ghost s = objmap_view(objects@);
    let mut out: Vec<Obj> = Vec::new();
    let mut i: usize = 0;
    while i < items.len()
        invariant
            i <= items.len(),
            s == objmap_view(objects@),
            objects@.len() <= u32::MAX,
            out@.len() == i,
            forall|j: int|
                0 <= j < i ==> obj_view(out@[j]) == compact_obj_v(s, obj_view(items@[j])),
        decreases items.len() - i,
    {
        proof {
            assert(decreases_to!(items@ => items@[i as int]));
        }
        let c = compact_obj(objects, &items[i]);
        out.push(c);
        i += 1;
    }
    proof {
        lemma_items_view(out@);
        lemma_items_view(items@);
        lemma_compact_items_v(s, crate::model::items_view(items@));
        assert(crate::model::items_view(out@) =~= compact_items_v(
            s,
            crate::model::items_view(items@),
        ));
    }
    out
}

/// Rewrites every value of a dictionary to the compact id space.
fn compact_entries(objects: &Vec<(ObjId, Obj)>, es: &Vec<(Vec<u8>, Obj)>) -> (r: Vec<
    (Vec<u8>, Obj),
>)
    requires
        objects@.len() <= u32::MAX,
    ensures
        crate::model::entries_view(r@) == compact_entries_v(
            objmap_view(objects@),
            crate::model::entries_view(es@),
        ),
    decreases es@,
{
    let ghost s = objmap_view(objects@);
    let mut out: Vec<(Vec<u8>, Obj)> = Vec::new();
    let mut i: usize = 0;
    while i < es.len()
        invariant
            i <= es.len(),
            s == objmap_view(objects@),
            objects@.len() <= u32::MAX,
            out@.len() == i,
            forall|j: int|
                0 <= j < i ==> out@[j].0@ == es@[j].0@ && obj_view(out@[j].1) == compact_obj_v(
                    s,
                    obj_view(es@[j].1),
                ),
        decreases es.len() - i,
    {
        proof {
            assert(decreases_to!(es@ => es@[i as int]));
            assert(decreases_to!(es@[i as int] => es@[i as int].1));
        }
        let name = clone_bytes(&es[i].0);
        let value = compact_obj(objects, &es[i].1);
        out.push((name, value));
        i += 1;
    }
    proof {
        lemma_entries_view(out@);
        lemma_entries_view(es@);
        lemma_compact_entries_v(s, crate::model::entries_view(es@));
        assert(crate::model::entries_view(out@) =~= compact_entries_v(
            s,
            crate::model::entries_view(es@),
        ));
    }
    out
}

/// Renumbers the output map to the compact ids `1..=n`, rewriting every
/// reference, and renumbers the root with it.  The root must name an object
/// of the map.
pub fn compact_document(objects: Vec<(ObjId, Obj)>, root: ObjId) -> (r: MergedDoc)
    requires
        objects@.len() <= u32::MAX,
        find_id(objmap_view(objects@), root) < objmap_view(objects@).len(),
    ensures
        r@ == (MergedDocV {
            objects: compact_v(objmap_view(objects@)),
            root: compact_root_v(objmap_view(objects@), root),
        }),
{
    let ghost s = objmap_view(objects@);
    proof {
        lemma_objmap_view(objects@);
    }
    let mut out: Vec<(ObjId, Obj)> = Vec::new();
    let mut i: usize = 0;
    while i < objects.len()
        invariant
            i <= objects.len(),
            s == objmap_view(objects@),
            s.len() == objects.len(),
            objects@.len() <= u32::MAX,
            forall|j: int|
                0 <= j < objects.len() ==> s[j] == (objects@[j].0, obj_view(objects@[j].1)),
            out@.len() == i,
            forall|j: int|
                0 <= j < i ==> out@[j].0 == compact_id(j) && obj_view(out@[j].1)
                    == compact_obj_v(s, s[j].1),
        decreases objects.len() - i,
    {
        let new_id = ObjId { num: (i as u32) + 1, gen: 0 };
        let c = compact_obj(&objects, &objects[i].1);
        out.push((new_id, c));
        i += 1;
    }
    let new_root_index = find_index(&objects, root);
    let new_root = ObjId { num: (new_root_index as u32) + 1, gen: 0 };
    let r = MergedDoc { objects: out, root: new_root };
    proof {
        lemma_objmap_view(r.objects@);
        assert(r@.objects =~= compact_v(s));
    }
    r
}

} // verus!
