//! Lookup, insertion and reference resolution over an object map, and the
//! ordered page list a document contributes to the merge.

use vstd::prelude::*;
use crate::model::{
    clone_bytes, lemma_entries_view, lemma_items_view, lemma_objmap_view, obj_view, objmap_view,
    Dict, Obj, ObjId, ObjV, PdfDoc,
};

verus! {

/// How many references a lookup follows before it gives up on a chain.
pub open spec fn deref_fuel() -> nat {
    128
}

/// The first index bound to `id`, or the number of entries.
pub open spec fn find_id(s: Seq<(ObjId, ObjV)>, id: ObjId) -> int
    decreases s.len(),
{
    if s.len() == 0 {
        0
    } else if s[0].0 == id {
        0
    } else {
        1 + find_id(s.subrange(1, s.len() as int), id)
    }
}

/// `find_id` names the first matching entry.
pub proof fn lemma_find_id(s: Seq<(ObjId, ObjV)>, id: ObjId)
    ensures
        0 <= find_id(s, id) <= s.len(),
        forall|j: int| 0 <= j < find_id(s, id) ==> s[j].0 != id,
        find_id(s, id) < s.len() ==> s[find_id(s, id)].0 == id,
    decreases s.len(),
{
    if s.len() > 0 && s[0].0 != id {
        let tail = s.subrange(1, s.len() as int);
        lemma_find_id(tail, id);
        assert forall|j: int| 0 <= j < find_id(s, id) implies s[j].0 != id by {
            if j > 0 {
                assert(s[j] == tail[j - 1]);
            }
        }
    }
}

/// The object bound to `id`, if any.
pub open spec fn map_get(s: Seq<(ObjId, ObjV)>, id: ObjId) -> Option<ObjV> {
    if find_id(s, id) < s.len() {
        Some(s[find_id(s, id)].1)
    } else {
        None
    }
}

/// The map after binding `id` to `v`: the first entry with that id is
/// rewritten in place, or the binding is appended at the end.
pub open spec fn map_set(s: Seq<(ObjId, ObjV)>, id: ObjId, v: ObjV) -> Seq<(ObjId, ObjV)> {
    if find_id(s, id) < s.len() {
        s.update(find_id(s, id), (id, v))
    } else {
        s.push((id, v))
    }
}

/// After a binding, the id names exactly the bound object.
pub proof fn lemma_map_set_find(s: Seq<(ObjId, ObjV)>, id: ObjId, v: ObjV)
    ensures
        find_id(map_set(s, id, v), id) < map_set(s, id, v).len(),
        map_get(map_set(s, id, v), id) == Some(v),
{
    let t = map_set(s, id, v);
    lemma_find_id(s, id);
    lemma_find_id(t, id);
    let f = find_id(s, id);
    if f < s.len() {
        assert(t[f].0 == id);
        assert(forall|j: int| 0 <= j < f ==> t[j].0 == s[j].0);
        let g = find_id(t, id);
        if g < f {
            assert(t[g].0 == id);
            assert(s[g].0 == id);
        }
        assert(g == f);
    } else {
        assert(t[s.len() as int].0 == id);
        let g = find_id(t, id);
        if g < s.len() {
            assert(t[g].0 == id);
            assert(s[g].0 == id);
        }
        assert(g == s.len());
    }
}

/// `find_id` looks only at ids: id-equal maps find alike.
pub proof fn lemma_find_id_same_keys(s: Seq<(ObjId, ObjV)>, t: Seq<(ObjId, ObjV)>, id: ObjId)
    requires
        s.len() == t.len(),
        forall|j: int| 0 <= j < s.len() ==> s[j].0 == t[j].0,
    ensures
        find_id(s, id) == find_id(t, id),
    decreases s.len(),
{
    if s.len() > 0 && s[0].0 != id {
        let st = s.subrange(1, s.len() as int);
        let tt = t.subrange(1, t.len() as int);
        assert forall|j: int| 0 <= j < st.len() implies st[j].0 == tt[j].0 by {
            assert(st[j] == s[j + 1]);
            assert(tt[j] == t[j + 1]);
        }
        lemma_find_id_same_keys(st, tt, id);
    }
}

/// A binding leaves every other id's object as it was.
pub proof fn lemma_map_set_get_other(s: Seq<(ObjId, ObjV)>, id: ObjId, v: ObjV, id2: ObjId)
    requires
        id2 != id,
    ensures
        map_get(map_set(s, id, v), id2) == map_get(s, id2),
{
    let t = map_set(s, id, v);
    lemma_find_id(s, id);
    let f = find_id(s, id);
    if f < s.len() {
        assert(forall|j: int| 0 <= j < s.len() ==> s[j].0 == t[j].0);
        lemma_find_id_same_keys(s, t, id2);
        lemma_find_id(s, id2);
        let g = find_id(s, id2);
        if g < s.len() {
            assert(t[g].0 == id2);
            assert(g != f);
            assert(t[g] == s[g]);
        }
    } else {
        lemma_find_id(s, id2);
        lemma_find_id(t, id2);
        let g = find_id(s, id2);
        let h = find_id(t, id2);
        if g < s.len() {
            assert(t[g].0 == id2);
            if h < g {
                assert(t[h].0 == id2);
                assert(s[h].0 == id2);
            }
            if h > g {
                assert(t[g].0 != id2);
            }
            assert(h == g);
            assert(t[g] == s[g]);
        } else {
            if h < t.len() {
                assert(t[h].0 == id2);
                if h < s.len() {
                    assert(s[h].0 == id2);
                }
                assert(h == s.len());
                assert(t[h].0 == id);
            }
        }
    }
}

/// The object `id` resolves to, following a chain of at most `fuel`
/// references.
pub open spec fn resolve_v(s: Seq<(ObjId, ObjV)>, id: ObjId, fuel: nat) -> Option<ObjV>
    decreases fuel,
{
    match map_get(s, id) {
        None => None,
        Some(o) => match o {
            ObjV::Ref(next) => if fuel == 0 {
                None
            } else {
                resolve_v(s, next, (fuel - 1) as nat)
            },
            _ => Some(o),
        },
    }
}

/// The first index of `id` in the map, or the number of entries.
pub fn find_index(objects: &Vec<(ObjId, Obj)>, id: ObjId) -> (i: usize)
    ensures
        i == find_id(objmap_view(objects@), id),
        i <= objects.len(),
        objmap_view(objects@).len() == objects.len(),
{
    let ghost mv = objmap_view(objects@);
    proof {
        lemma_objmap_view(objects@);
        lemma_find_id(mv, id);
    }
    let mut i: usize = 0;
    while i < objects.len()
        invariant
            i <= objects.len(),
            mv == objmap_view(objects@),
            mv.len() == objects.len(),
            forall|j: int| 0 <= j < objects.len() ==> mv[j].0 == objects@[j].0,
            forall|j: int| 0 <= j < i ==> mv[j].0 != id,
            0 <= find_id(mv, id) <= mv.len(),
            forall|j: int| 0 <= j < find_id(mv, id) ==> mv[j].0 != id,
            find_id(mv, id) < mv.len() ==> mv[find_id(mv, id)].0 == id,
        decreases objects.len() - i,
    {
        if objects[i].0 == id {
            proof {
                let f = find_id(mv, id);
                assert(mv[i as int].0 == id);
                if f < i {
                    assert(mv[f].0 == id);
                }
            }
            return i;
        }
        i += 1;
    }
    i
}

/// Binds `id` to `obj` in the map: rewrites the first entry with that id,
/// or appends the binding.
pub fn insert_pair(objects: &mut Vec<(ObjId, Obj)>, id: ObjId, obj: Obj)
    ensures
        objmap_view(final(objects)@) == map_set(objmap_view(old(objects)@), id, obj_view(obj)),
{
    let ghost mv = objmap_view(old(objects)@);
    let ghost ov = obj_view(obj);
    let i = find_index(objects, id);
    if i < objects.len() {
        objects.set(i, (id, obj));
        proof {
            lemma_objmap_view(old(objects)@);
            lemma_objmap_view(objects@);
            assert(objmap_view(objects@) =~= mv.update(i as int, (id, ov)));
        }
    } else {
        objects.push((id, obj));
        proof {
            lemma_objmap_view(old(objects)@);
            lemma_objmap_view(objects@);
            assert(objmap_view(objects@) =~= mv.push((id, ov)));
        }
    }
}

/// Copies one object exactly.
pub fn copy_obj(o: &Obj) -> (r: Obj)
    ensures
        obj_view(r) == obj_view(*o),
    decreases *o,
{
    match o {
        Obj::Null => Obj::Null,
        Obj::Boolean(b) => Obj::Boolean(*b),
        Obj::Integer(i) => Obj::Integer(*i),
        Obj::Real(t) => Obj::Real(clone_bytes(t)),
        Obj::Name(n) => Obj::Name(clone_bytes(n)),
        Obj::Text { bytes, hex } => Obj::Text { bytes: clone_bytes(bytes), hex: *hex },
        Obj::Array(items) => Obj::Array(copy_items(items)),
        Obj::Dict(d) => Obj::Dict(copy_dict(d)),
        Obj::Stream { dict, content, compressible } => Obj::Stream {
            dict: Dict { entries: copy_entries(&dict.entries) },
            content: clone_bytes(content),
            compressible: *compressible,
        },
        Obj::Ref(id) => Obj::Ref(*id),
    }
}

/// Copies a dictionary exactly.
pub fn copy_dict(d: &Dict) -> (r: Dict)
    ensures
        r@ == d@,
    decreases *d,
{
    Dict { entries: copy_entries(&d.entries) }
}

/// Copies the elements of an array exactly.
fn copy_items(items: &Vec<Obj>) -> (r: Vec<Obj>)
    ensures
        crate::model::items_view(r@) == crate::model::items_view(items@),
    decreases items@,
{
    let mut out: Vec<Obj> = Vec::new();
    let mut i: usize = 0;
    while i < items.len()
        invariant
            i <= items.len(),
            out@.len() == i,
            forall|j: int| 0 <= j < i ==> obj_view(out@[j]) == obj_view(items@[j]),
        decreases items.len() - i,
    {
        proof {
            assert(decreases_to!(items@ => items@[i as int]));
        }
        let c = copy_obj(&items[i]);
        out.push(c);
        i += 1;
    }
    proof {
        lemma_items_view(out@);
        lemma_items_view(items@);
        assert(crate::model::items_view(out@) =~= crate::model::items_view(items@));
    }
    out
}

/// Copies dictionary entries exactly.
fn copy_entries(es: &Vec<(Vec<u8>, Obj)>) -> (r: Vec<(Vec<u8>, Obj)>)
    ensures
        crate::model::entries_view(r@) == crate::model::entries_view(es@),
    decreases es@,
{
    let mut out: Vec<(Vec<u8>, Obj)> = Vec::new();
    let mut i: usize = 0;
    while i < es.len()
        invariant
            i <= es.len(),
            out@.len() == i,
            forall|j: int|
                0 <= j < i ==> out@[j].0@ == es@[j].0@ && obj_view(out@[j].1) == obj_view(
                    es@[j].1,
                ),
        decreases es.len() - i,
    {
        proof {
            assert(decreases_to!(es@ => es@[i as int]));
            assert(decreases_to!(es@[i as int] => es@[i as int].1));
        }
        let name = clone_bytes(&es[i].0);
        let value = copy_obj(&es[i].1);
        out.push((name, value));
        i += 1;
    }
    proof {
        lemma_entries_view(out@);
        lemma_entries_view(es@);
        assert(crate::model::entries_view(out@) =~= crate::model::entries_view(es@));
    }
    out
}

/// Follows a chain of references from `id` down to an object that is not a
/// reference, giving its index, or nothing where the chain leaves the map or
/// does not end within the fuel.
pub fn resolve_index(objects: &Vec<(ObjId, Obj)>, id: ObjId) -> (r: Option<usize>)
    ensures
        match r {
            Some(i) => i < objects.len() && objmap_view(objects@).len() == objects.len()
                && resolve_v(objmap_view(objects@), id, deref_fuel()) == Some(
                objmap_view(objects@)[i as int].1,
            ),
            None => resolve_v(objmap_view(objects@), id, deref_fuel()) is None,
        },
{
    let ghost mv = objmap_view(objects@);
    proof {
        lemma_objmap_view(objects@);
    }
    let mut cur = id;
    let mut fuel: usize = 128;
    while fuel > 0
        invariant
            mv == objmap_view(objects@),
            mv.len() == objects.len(),
            forall|j: int|
                0 <= j < objects.len() ==> mv[j] == (objects@[j].0, obj_view(objects@[j].1)),
            fuel <= 128,
            resolve_v(mv, id, deref_fuel()) == resolve_v(mv, cur, fuel as nat),
        decreases fuel,
    {
        let i = find_index(objects, cur);
        proof {
            lemma_find_id(mv, cur);
        }
        if i >= objects.len() {
            return None;
        }
        match &objects[i].1 {
            Obj::Ref(next) => {
                cur = *next;
                fuel -= 1;
            },
            _ => {
                proof {
                    crate::model::lemma_obj_view_variant(&objects@[i as int].1);
                }
                return Some(i);
            },
        }
    }
    let i = find_index(objects, cur);
    proof {
        lemma_find_id(mv, cur);
    }
    if i >= objects.len() {
        return None;
    }
    match &objects[i].1 {
        Obj::Ref(_) => None,
        _ => {
            proof {
                crate::model::lemma_obj_view_variant(&objects@[i as int].1);
            }
            Some(i)
        },
    }
}

/// The view of an ordered page list: each page's id with its dictionary.
pub open spec fn pagelist_view(s: Seq<(ObjId, Dict)>) -> Seq<(ObjId, Seq<(Seq<u8>, ObjV)>)>
    decreases s,
{
    if s.len() == 0 {
        Seq::<(ObjId, Seq<(Seq<u8>, ObjV)>)>::empty()
    } else {
        pagelist_view(s.drop_last()).push((s.last().0, s.last().1@))
    }
}

/// Pointwise description of `pagelist_view`.
pub broadcast proof fn lemma_pagelist_view(s: Seq<(ObjId, Dict)>)
    ensures
        (#[trigger] pagelist_view(s)).len() == s.len(),
        forall|i: int| 0 <= i < s.len() ==> pagelist_view(s)[i] == (s[i].0, s[i].1@),
    decreases s,
{
    if s.len() > 0 {
        lemma_pagelist_view(s.drop_last());
    }
}

/// The pages a document contributes, in the document's own page order: for
/// each page id, the dictionary it resolves to.  A page whose id does not
/// resolve to a dictionary contributes nothing.
pub open spec fn page_pairs_v(objects: Seq<(ObjId, ObjV)>, pages: Seq<ObjId>) -> Seq<
    (ObjId, Seq<(Seq<u8>, ObjV)>),
>
    decreases pages.len(),
{
    if pages.len() == 0 {
        Seq::<(ObjId, Seq<(Seq<u8>, ObjV)>)>::empty()
    } else {
        let r = page_pairs_v(objects, pages.drop_last());
        match resolve_v(objects, pages.last(), deref_fuel()) {
            Some(o) => match o {
                ObjV::Dict(es) => r.push((pages.last(), es)),
                _ => r,
            },
            None => r,
        }
    }
}

/// Collects the pages a document contributes, in the document's own page
/// order, copying each page's dictionary out of the document.
pub fn page_pairs(doc: &PdfDoc) -> (r: Vec<(ObjId, Dict)>)
    ensures
        pagelist_view(r@) == page_pairs_v(doc@.objects, doc@.pages),
{
    let ghost mv = doc@.objects;
    let ghost pv = doc@.pages;
    proof {
        lemma_objmap_view(doc.objects@);
    }
    let mut out: Vec<(ObjId, Dict)> = Vec::new();
    let mut i: usize = 0;
    while i < doc.pages.len()
        invariant
            i <= doc.pages.len(),
            mv == doc@.objects,
            pv == doc@.pages,
            pv.len() == doc.pages.len(),
            mv.len() == doc.objects.len(),
            forall|j: int|
                0 <= j < doc.objects.len() ==> mv[j] == (
                    doc.objects@[j].0,
                    obj_view(doc.objects@[j].1),
                ),
            pagelist_view(out@) == page_pairs_v(mv, pv.take(i as int)),
        decreases doc.pages.len() - i,
    {
        let pid = doc.pages[i];
        proof {
            assert(pv.take(i + 1).drop_last() =~= pv.take(i as int));
            assert(pv.take(i + 1).last() == pv[i as int]);
            lemma_pagelist_view(out@);
        }
        match resolve_index(&doc.objects, pid) {
            Some(idx) => match &doc.objects[idx].1 {
                Obj::Dict(d) => {
                    let c = copy_dict(d);
                    out.push((pid, c));
                    proof {
                        lemma_pagelist_view(out@);
                        assert(pagelist_view(out@) =~= page_pairs_v(mv, pv.take(i + 1)));
                    }
                },
                _ => {
                    proof {
                        crate::model::lemma_obj_view_variant(&doc.objects@[idx as int].1);
                    }
                },
            },
            None => {},
        }
        i += 1;
    }
    proof {
        assert(pv.take(pv.len() as int) =~= pv);
    }
    out
}

} // verus!
