//! Properties of the merged output.
//!
//! These laws state, over the spec-level pipeline, what every merged
//! document satisfies: a compact collision-free id space in which every
//! reference resolves, one surviving catalog pointed at one surviving page
//! collection, and a page list that follows the inputs' own page order.

use vstd::prelude::*;
use crate::classify::{classify_v, dict_entries_v, fold_entries, role_v, Role};
use crate::compact::{
    compact_entries_v, compact_items_v, compact_obj_v, compact_root_v, compact_v,
};
use crate::graph::{
    deref_fuel, find_id, lemma_find_id, lemma_map_set_find, lemma_map_set_get_other, map_get,
    map_set, page_pairs_v, resolve_v,
};
use crate::merge::{
    accum_objects, accum_pairs, all_ids_bounded, built_of, merge_ok_v, offset_of, offsets_fit,
    root_of, shifted_doc,
};
use crate::model::{
    dict_find, dict_get_v, dict_set_v, k_catalog, k_count, k_kids, k_outlines, k_page, k_pages,
    k_parent, k_type,
    lemma_dict_remove_get_none, lemma_dict_remove_get_other, lemma_dict_set_get,
    lemma_dict_set_get_other, strictly_sorted, ObjId, ObjV, PdfDocV,
};
use crate::renumber::{
    doc_ids_bounded, lemma_shift_entries_v, shift_doc_v, shift_entries_v, shift_id, shift_ids_v,
    shift_obj_v,
};
use crate::tree::{catalog_entries_v, insert_pages_v, kids_v, pages_entries_v};

verus! {

/// Every input's object map is a mapping with strictly ascending ids.
pub open spec fn docs_sorted(docs: Seq<PdfDocV>) -> bool {
    forall|i: int| 0 <= i < docs.len() ==> strictly_sorted(docs[i].objects)
}

/// The id of the surviving page collection.
pub open spec fn collection_of(docs: Seq<PdfDocV>) -> ObjId {
    match classify_v(accum_objects(docs, docs.len() as int)).pages {
        Some((pid, _)) => pid,
        None => ObjId { num: 0, gen: 0 },
    }
}

/// A lower id number means a lower id, whatever the generations.
pub proof fn lemma_key_order(a: ObjId, b: ObjId)
    requires
        a.num < b.num,
    ensures
        a.key() < b.key(),
{
    assert(a.key() == a.num * 0x1_0000 + a.gen);
    assert(b.key() == b.num * 0x1_0000 + b.gen);
    assert(a.num * 0x1_0000 + 0x1_0000 == (a.num + 1) * 0x1_0000) by (nonlinear_arith);
    assert((a.num + 1) * 0x1_0000 <= b.num * 0x1_0000) by (nonlinear_arith)
        requires a.num + 1 <= b.num;
}

/// Renumbering keeps a document's ids strictly ascending and moves them
/// into the window that starts at the offset.
pub proof fn lemma_shift_range(d: PdfDocV, off: u32)
    requires
        strictly_sorted(d.objects),
        doc_ids_bounded(d),
        d.max_id + off <= u32::MAX,
    ensures
        strictly_sorted(shift_doc_v(d, off).objects),
        shift_doc_v(d, off).objects.len() == d.objects.len(),
        forall|j: int|
            0 <= j < d.objects.len() ==> off <= (#[trigger] shift_doc_v(d, off).objects[j]).0.num
                <= off + d.max_id,
{
    let s = shift_doc_v(d, off).objects;
    assert forall|j: int| 0 <= j < d.objects.len() implies off <= (#[trigger] s[j]).0.num <= off
        + d.max_id by {
        assert(s[j].0 == shift_id(d.objects[j].0, off));
    }
    assert forall|i: int, j: int| 0 <= i < j < s.len() implies s[i].0.key() < s[j].0.key() by {
        assert(s[i].0 == shift_id(d.objects[i].0, off));
        assert(s[j].0 == shift_id(d.objects[j].0, off));
        assert(d.objects[i].0.key() < d.objects[j].0.key());
        if d.objects[i].0.num < d.objects[j].0.num {
            lemma_key_order(s[i].0, s[j].0);
        }
    }
}

/// Offsets never go backwards.
pub proof fn lemma_offset_nonneg(docs: Seq<PdfDocV>, i: int)
    ensures
        offset_of(docs, i) >= 0,
    decreases i,
{
    if i > 0 {
        lemma_offset_nonneg(docs, i - 1);
    }
}

/// The accumulated map of well-formed inputs is a mapping: its ids are
/// strictly ascending, all below the running offset.
pub proof fn lemma_merged_sorted(docs: Seq<PdfDocV>, n: int)
    requires
        0 <= n <= docs.len(),
        docs_sorted(docs),
        all_ids_bounded(docs),
        offsets_fit(docs),
    ensures
        strictly_sorted(accum_objects(docs, n)),
        forall|j: int|
            0 <= j < accum_objects(docs, n).len() ==> accum_objects(docs, n)[j].0.num
                < offset_of(docs, n),
    decreases n,
{
    if n > 0 {
        lemma_merged_sorted(docs, n - 1);
        lemma_offset_nonneg(docs, n - 1);
        let off = offset_of(docs, n - 1) as u32;
        lemma_shift_range(docs[n - 1], off);
        let prefix = accum_objects(docs, n - 1);
        let shifted = shifted_doc(docs, n - 1).objects;
        let whole = accum_objects(docs, n);
        assert(whole == prefix + shifted);
        assert forall|j: int| 0 <= j < whole.len() implies whole[j].0.num < offset_of(docs, n) by {
            if j < prefix.len() {
                assert(whole[j] == prefix[j]);
            } else {
                assert(whole[j] == shifted[j - prefix.len()]);
            }
        }
        assert forall|i: int, j: int| 0 <= i < j < whole.len() implies whole[i].0.key()
            < whole[j].0.key() by {
            if j < prefix.len() {
                assert(whole[i] == prefix[i]);
                assert(whole[j] == prefix[j]);
            } else if i >= prefix.len() {
                assert(whole[i] == shifted[i - prefix.len()]);
                assert(whole[j] == shifted[j - prefix.len()]);
            } else {
                assert(whole[i] == prefix[i]);
                assert(whole[j] == shifted[j - prefix.len()]);
                assert(whole[i].0.num < offset_of(docs, n - 1));
                assert(whole[j].0.num >= offset_of(docs, n - 1));
                lemma_key_order(whole[i].0, whole[j].0);
            }
        }
    }
}

/// What the classifier keeps, it found: a kept catalog id names a
/// catalog-tagged object of the map, and the kept collection id names a
/// collection-tagged one.
pub proof fn lemma_classify_witness(s: Seq<(ObjId, ObjV)>)
    ensures
        classify_v(s).catalog matches Some((cid, cat)) ==> exists|i: int|
            0 <= i < s.len() && #[trigger] s[i].0 == cid && role_v(s[i].1) == Role::Catalog
                && s[i].1 == ObjV::Dict(cat),
        classify_v(s).pages matches Some((pid, folded)) ==> exists|i: int|
            0 <= i < s.len() && #[trigger] s[i].0 == pid && role_v(s[i].1) == Role::Pages,
    decreases s.len(),
{
    if s.len() > 0 {
        let t = s.drop_last();
        lemma_classify_witness(t);
        let c = classify_v(t);
        let last_i = s.len() - 1;
        match c.catalog {
            Some((cid, cat)) => {
                let w = choose|i: int|
                    0 <= i < t.len() && #[trigger] t[i].0 == cid && role_v(t[i].1)
                        == Role::Catalog && t[i].1 == ObjV::Dict(cat);
                assert(s[w].0 == cid && role_v(s[w].1) == Role::Catalog && s[w].1 == ObjV::Dict(
                    cat,
                ));
            },
            None => {},
        }
        match c.pages {
            Some((pid, folded)) => {
                let w = choose|i: int|
                    0 <= i < t.len() && #[trigger] t[i].0 == pid && role_v(t[i].1) == Role::Pages;
                assert(s[w].0 == pid && role_v(s[w].1) == Role::Pages);
            },
            None => {},
        }
        if role_v(s.last().1) == Role::Catalog && c.catalog is None {
            lemma_role_is_dict(s.last().1);
            assert(s[last_i].0 == s.last().0 && role_v(s[last_i].1) == Role::Catalog && s[
                last_i
            ].1 == ObjV::Dict(dict_entries_v(s.last().1)));
        }
        if role_v(s.last().1) == Role::Pages && c.pages is None {
            assert(s[last_i].0 == s.last().0 && role_v(s[last_i].1) == Role::Pages);
        }
    }
}

/// Exactly one catalog and one page collection survive a merge, whatever
/// the inputs carried: the output holds the surviving catalog, pointed at
/// the surviving collection and stripped of its outline tree, and the
/// collection, its count and its ordered page list rebuilt from the kept
/// pages.
pub proof fn lemma_one_catalog_one_collection(docs: Seq<PdfDocV>)
    requires
        merge_ok_v(docs),
        docs_sorted(docs),
    ensures
        ({
            let merged = accum_objects(docs, docs.len() as int);
            let pairs = accum_pairs(docs, docs.len() as int);
            let cl = classify_v(merged);
            cl.catalog matches Some((cid, cat)) ==> (cl.pages matches Some((pid, folded)) ==> {
                let pe = pages_entries_v(folded, pairs);
                let ce = catalog_entries_v(cat, pid);
                &&& cid != pid
                &&& map_get(built_of(docs), pid) == Some(ObjV::Dict(pe))
                &&& map_get(built_of(docs), cid) == Some(ObjV::Dict(ce))
                &&& dict_get_v(pe, k_kids()) == Some(ObjV::Array(kids_v(pairs)))
                &&& dict_get_v(pe, k_count()) == Some(ObjV::Integer(pairs.len() as i64))
                &&& kids_v(pairs).len() == pairs.len()
                &&& (forall|i: int|
                    0 <= i < pairs.len() ==> kids_v(pairs)[i] == ObjV::Ref(pairs[i].0))
                &&& dict_get_v(ce, k_pages()) == Some(ObjV::Ref(pid))
                &&& dict_get_v(ce, k_outlines()) is None
            })
        }),
{
    let merged = accum_objects(docs, docs.len() as int);
    let pairs = accum_pairs(docs, docs.len() as int);
    let cl = classify_v(merged);
    match cl.catalog {
        Some((cid, cat)) => match cl.pages {
            Some((pid, folded)) => {
                let pe = pages_entries_v(folded, pairs);
                let ce = catalog_entries_v(cat, pid);

                // The two surviving ids are distinct: they name two objects
                // of the merged map with different roles, and the map's ids
                // are strictly ascending.
                lemma_classify_witness(merged);
                let wc = choose|i: int|
                    0 <= i < merged.len() && #[trigger] merged[i].0 == cid && role_v(
                        merged[i].1,
                    ) == Role::Catalog;
                let wp = choose|i: int|
                    0 <= i < merged.len() && #[trigger] merged[i].0 == pid && role_v(
                        merged[i].1,
                    ) == Role::Pages;
                lemma_merged_sorted(docs, docs.len() as int);
                assert(wc != wp);
                if cid == pid {
                    if wc < wp {
                        assert(merged[wc].0.key() < merged[wp].0.key());
                    } else {
                        assert(merged[wp].0.key() < merged[wc].0.key());
                    }
                }

                // The built map holds the collection at its id and the
                // catalog at its id.
                let inner = map_set(insert_pages_v(cl.rest, pairs, pid), pid, ObjV::Dict(pe));
                lemma_map_set_find(insert_pages_v(cl.rest, pairs, pid), pid, ObjV::Dict(pe));
                lemma_map_set_find(inner, cid, ObjV::Dict(ce));
                lemma_map_set_get_other(inner, cid, ObjV::Dict(ce), pid);

                // The collection's page list and count are rebuilt from the
                // kept pages.
                assert(k_kids()[0] != k_count()[0]);
                lemma_dict_set_get(
                    dict_set_v(folded, k_count(), ObjV::Integer(pairs.len() as i64)),
                    k_kids(),
                    ObjV::Array(kids_v(pairs)),
                );
                lemma_dict_set_get(folded, k_count(), ObjV::Integer(pairs.len() as i64));
                lemma_dict_set_get_other(
                    dict_set_v(folded, k_count(), ObjV::Integer(pairs.len() as i64)),
                    k_kids(),
                    ObjV::Array(kids_v(pairs)),
                    k_count(),
                );

                // The catalog points at the collection and its outlines are
                // gone.
                assert(k_pages()[0] != k_outlines()[0]);
                lemma_dict_set_get(cat, k_pages(), ObjV::Ref(pid));
                lemma_dict_remove_get_other(
                    dict_set_v(cat, k_pages(), ObjV::Ref(pid)),
                    k_outlines(),
                    k_pages(),
                );
                lemma_dict_remove_get_none(
                    dict_set_v(cat, k_pages(), ObjV::Ref(pid)),
                    k_outlines(),
                );
            },
            None => {},
        },
        None => {},
    }
}

/// Shifting preserves an object's declared role.
pub proof fn lemma_shift_role(o: ObjV, off: u32)
    ensures
        role_v(shift_obj_v(o, off)) == role_v(o),
{
    match o {
        ObjV::Dict(es) => {
            let t = shift_entries_v(es, off);
            lemma_shift_entries_v(es, off);
            assert forall|j: int| 0 <= j < es.len() implies es[j].0 == t[j].0 by {}
            crate::model::lemma_dict_find_same_keys(es, t, k_type());
            crate::model::lemma_dict_find(es, k_type());
        },
        _ => {},
    }
}

/// Everything the classifier passes through is untagged: no catalog, no
/// page collection and no page survives outside the one rebuilt of each.
pub proof fn lemma_classify_rest_roles(s: Seq<(ObjId, ObjV)>)
    ensures
        forall|k: int|
            0 <= k < classify_v(s).rest.len() ==> role_v(
                #[trigger] classify_v(s).rest[k].1,
            ) == Role::Other,
    decreases s.len(),
{
    if s.len() > 0 {
        lemma_classify_rest_roles(s.drop_last());
    }
}

/// What a page id of a well-formed document resolves to after renumbering:
/// the same page dictionary, shifted.
pub proof fn lemma_find_shift(d: PdfDocV, off: u32, p: ObjId)
    requires
        doc_ids_bounded(d),
        d.max_id + off <= u32::MAX,
        find_id(d.objects, p) < d.objects.len(),
    ensures
        p.num <= d.max_id,
        find_id(shift_doc_v(d, off).objects, shift_id(p, off)) == find_id(d.objects, p),
{
    let s = d.objects;
    let t = shift_doc_v(d, off).objects;
    lemma_find_id(s, p);
    let f = find_id(s, p);
    assert(s[f].0 == p);
    assert(p.num <= d.max_id);
    let q = shift_id(p, off);
    lemma_find_id(t, q);
    let g = find_id(t, q);
    assert(t[f].0 == q) by {
        assert(t[f].0 == shift_id(s[f].0, off));
    }
    if g < f {
        assert(t[g].0 == q);
        assert(t[g].0 == shift_id(s[g].0, off));
        assert(s[g].0.num <= d.max_id);
        // Shifting is injective on ids under the watermark.
        assert(s[g].0 == p);
    }
    if g > f {
        assert(t[f].0 != q);
    }
}

/// A well-formed document keeps every page through renumbering and
/// resolution: one kept pair per page, in the document's own page order,
/// holding the page dictionary its id resolves to.
pub proof fn lemma_kept_pages(d: PdfDocV, off: u32, ps: Seq<ObjId>)
    requires
        doc_ids_bounded(d),
        d.max_id + off <= u32::MAX,
        forall|i: int|
            0 <= i < ps.len() ==> ((#[trigger] resolve_v(d.objects, ps[i], deref_fuel()))
                matches Some(o) && o is Dict),
    ensures
        page_pairs_v(shift_doc_v(d, off).objects, shift_ids_v(ps, off)).len() == ps.len(),
        forall|i: int|
            0 <= i < ps.len() ==> (#[trigger] page_pairs_v(
                shift_doc_v(d, off).objects,
                shift_ids_v(ps, off),
            )[i]).0 == shift_id(ps[i], off),
        forall|i: int|
            0 <= i < ps.len() ==> (#[trigger] page_pairs_v(
                shift_doc_v(d, off).objects,
                shift_ids_v(ps, off),
            )[i]).1 == shift_entries_v(
                dict_entries_v(resolve_v(d.objects, ps[i], deref_fuel()).unwrap()),
                off,
            ),
    decreases ps.len(),
{
    let t = shift_doc_v(d, off).objects;
    let qs = shift_ids_v(ps, off);
    if ps.len() > 0 {
        let head = ps.drop_last();
        assert forall|i: int|
            0 <= i < head.len() implies ((#[trigger] resolve_v(d.objects, head[i], deref_fuel()))
                matches Some(o) && o is Dict) by {
            assert(head[i] == ps[i]);
        }
        lemma_kept_pages(d, off, head);
        assert(shift_ids_v(head, off) =~= qs.drop_last());
        assert(qs.last() == shift_id(ps.last(), off));
        let p = ps.last();
        assert(resolve_v(d.objects, p, deref_fuel()) matches Some(o) && o is Dict);
        let resolved = resolve_v(d.objects, p, deref_fuel()).unwrap();
        lemma_resolve_shift(d, off, p, deref_fuel());
        match resolved {
            ObjV::Dict(es) => {
                assert(shift_obj_v(resolved, off) == ObjV::Dict(shift_entries_v(es, off)));
                assert(resolve_v(t, qs.last(), deref_fuel()) == Some(
                    ObjV::Dict(shift_entries_v(es, off)),
                ));
                assert(dict_entries_v(resolved) == es);
            },
            _ => {
                assert(false);
            },
        }
        let r = page_pairs_v(t, qs.drop_last());
        assert(page_pairs_v(t, qs) == r.push(
            (qs.last(), shift_entries_v(dict_entries_v(resolved), off)),
        ));
        assert forall|i: int| 0 <= i < ps.len() implies (#[trigger] page_pairs_v(t, qs)[i]).0
            == shift_id(ps[i], off) && (#[trigger] page_pairs_v(t, qs)[i]).1 == shift_entries_v(
            dict_entries_v(resolve_v(d.objects, ps[i], deref_fuel()).unwrap()),
            off,
        ) by {
            if i < ps.len() - 1 {
                assert(page_pairs_v(t, qs)[i] == r[i]);
                assert(page_pairs_v(t, shift_ids_v(head, off))[i].0 == shift_id(head[i], off));
                assert(page_pairs_v(t, shift_ids_v(head, off))[i].1 == shift_entries_v(
                    dict_entries_v(resolve_v(d.objects, head[i], deref_fuel()).unwrap()),
                    off,
                ));
            }
        }
    } else {
        assert(qs.len() == 0);
    }
}

/// How many pages the first `n` inputs carry together.
pub open spec fn pages_total(docs: Seq<PdfDocV>, n: int) -> int
    decreases n,
{
    if n <= 0 {
        0
    } else {
        pages_total(docs, n - 1) + docs[n - 1].pages.len()
    }
}

/// The output page order: the inputs' own page orders, renumbered and
/// concatenated in input order.
pub open spec fn page_order(docs: Seq<PdfDocV>, n: int) -> Seq<ObjId>
    decreases n,
{
    if n <= 0 {
        Seq::<ObjId>::empty()
    } else {
        page_order(docs, n - 1) + shift_ids_v(
            docs[n - 1].pages,
            offset_of(docs, n - 1) as u32,
        )
    }
}

/// The ids of the kept pages, in their order.
pub open spec fn pair_ids(pairs: Seq<(ObjId, Seq<(Seq<u8>, ObjV)>)>) -> Seq<ObjId> {
    Seq::new(pairs.len(), |i: int| pairs[i].0)
}

/// Every input's pages resolve, within the dereference budget, to page
/// dictionaries of that input.
pub open spec fn docs_pages_wf(docs: Seq<PdfDocV>) -> bool {
    forall|i: int, j: int|
        0 <= i < docs.len() && 0 <= j < docs[i].pages.len() ==> ((#[trigger] resolve_v(
            docs[i].objects,
            docs[i].pages[j],
            deref_fuel(),
        )) matches Some(o) && o is Dict)
}

/// For well-formed inputs the merge keeps every page: the kept pages are,
/// in order, the concatenation of the inputs' own page orders, renumbered;
/// their number is the sum of the inputs' page counts.
pub proof fn lemma_page_order_and_count(docs: Seq<PdfDocV>, n: int)
    requires
        0 <= n <= docs.len(),
        all_ids_bounded(docs),
        offsets_fit(docs),
        docs_pages_wf(docs),
    ensures
        accum_pairs(docs, n).len() == pages_total(docs, n),
        pair_ids(accum_pairs(docs, n)) == page_order(docs, n),
    decreases n,
{
    if n > 0 {
        lemma_page_order_and_count(docs, n - 1);
        lemma_offset_nonneg(docs, n - 1);
        let off = offset_of(docs, n - 1) as u32;
        let d = docs[n - 1];
        assert forall|i: int|
            0 <= i < d.pages.len() implies ((#[trigger] resolve_v(
                d.objects,
                d.pages[i],
                deref_fuel(),
            )) matches Some(o) && o is Dict) by {
            assert(resolve_v(docs[n - 1].objects, docs[n - 1].pages[i], deref_fuel())
                matches Some(o) && o is Dict);
        }
        lemma_kept_pages(d, off, d.pages);
        let prev = accum_pairs(docs, n - 1);
        let seg = page_pairs_v(shifted_doc(docs, n - 1).objects, shifted_doc(docs, n - 1).pages);
        assert(accum_pairs(docs, n) == prev + seg);
        assert(pair_ids(prev + seg) =~= pair_ids(prev) + pair_ids(seg));
        assert(pair_ids(seg) =~= shift_ids_v(d.pages, off));
        assert(pair_ids(accum_pairs(docs, n)) =~= page_order(docs, n));
    }
}

/// An object with this role stands somewhere in the document.
pub open spec fn doc_has_role(d: PdfDocV, role: Role) -> bool {
    exists|j: int| 0 <= j < d.objects.len() && role_v(#[trigger] d.objects[j].1) == role
}

/// How many objects the first `n` inputs carry together.
pub open spec fn objects_total(docs: Seq<PdfDocV>, n: int) -> int
    decreases n,
{
    if n <= 0 {
        0
    } else {
        objects_total(docs, n - 1) + docs[n - 1].objects.len()
    }
}

/// The accumulated map carries one pair per input object.
pub proof fn lemma_accum_len(docs: Seq<PdfDocV>, n: int)
    requires
        0 <= n <= docs.len(),
    ensures
        accum_objects(docs, n).len() == objects_total(docs, n),
    decreases n,
{
    if n > 0 {
        lemma_accum_len(docs, n - 1);
    }
}

/// A role carried by any input is carried by the accumulated map.
pub proof fn lemma_accum_has_role(docs: Seq<PdfDocV>, n: int, role: Role)
    requires
        0 <= n <= docs.len(),
        exists|i: int| 0 <= i < n && doc_has_role(#[trigger] docs[i], role),
    ensures
        exists|k: int|
            0 <= k < accum_objects(docs, n).len() && role_v(
                #[trigger] accum_objects(docs, n)[k].1,
            ) == role,
    decreases n,
{
    let i = choose|i: int| 0 <= i < n && doc_has_role(#[trigger] docs[i], role);
    let prev = accum_objects(docs, n - 1);
    let seg = shifted_doc(docs, n - 1).objects;
    if i == n - 1 {
        let j = choose|j: int|
            0 <= j < docs[i].objects.len() && role_v(#[trigger] docs[i].objects[j].1) == role;
        let k = prev.len() + j;
        assert(accum_objects(docs, n)[k] == seg[j]);
        assert(seg[j].1 == shift_obj_v(docs[i].objects[j].1, offset_of(docs, n - 1) as u32));
        lemma_shift_role(docs[i].objects[j].1, offset_of(docs, n - 1) as u32);
        assert(role_v(accum_objects(docs, n)[k].1) == role);
    } else {
        assert(0 <= i < n - 1 && doc_has_role(docs[i], role));
        lemma_accum_has_role(docs, n - 1, role);
        let k = choose|k: int|
            0 <= k < prev.len() && role_v(#[trigger] prev[k].1) == role;
        assert(accum_objects(docs, n)[k] == prev[k]);
        assert(role_v(accum_objects(docs, n)[k].1) == role);
    }
}

/// The classifier finds what is there: a catalog-tagged object yields a
/// kept catalog, a collection-tagged object a kept collection.
pub proof fn lemma_classify_finds(s: Seq<(ObjId, ObjV)>)
    ensures
        (exists|k: int| 0 <= k < s.len() && role_v(#[trigger] s[k].1) == Role::Catalog)
            ==> classify_v(s).catalog is Some,
        (exists|k: int| 0 <= k < s.len() && role_v(#[trigger] s[k].1) == Role::Pages)
            ==> classify_v(s).pages is Some,
    decreases s.len(),
{
    if s.len() > 0 {
        let t = s.drop_last();
        lemma_classify_finds(t);
        if exists|k: int| 0 <= k < s.len() && role_v(#[trigger] s[k].1) == Role::Catalog {
            let k = choose|k: int|
                0 <= k < s.len() && role_v(#[trigger] s[k].1) == Role::Catalog;
            if k < s.len() - 1 {
                assert(t[k] == s[k]);
                assert(role_v(t[k].1) == Role::Catalog);
            }
        }
        if exists|k: int| 0 <= k < s.len() && role_v(#[trigger] s[k].1) == Role::Pages {
            let k = choose|k: int|
                0 <= k < s.len() && role_v(#[trigger] s[k].1) == Role::Pages;
            if k < s.len() - 1 {
                assert(t[k] == s[k]);
                assert(role_v(t[k].1) == Role::Pages);
            }
        }
    }
}

/// The classifier never grows the passthrough bucket beyond its input.
pub proof fn lemma_classify_rest_len(s: Seq<(ObjId, ObjV)>)
    ensures
        classify_v(s).rest.len() <= s.len(),
    decreases s.len(),
{
    if s.len() > 0 {
        lemma_classify_rest_len(s.drop_last());
    }
}

/// A binding grows a map by at most one entry.
pub proof fn lemma_map_set_len(s: Seq<(ObjId, ObjV)>, id: ObjId, v: ObjV)
    ensures
        map_set(s, id, v).len() <= s.len() + 1,
{
    lemma_find_id(s, id);
}

/// Inserting the kept pages grows the map by at most one entry per page.
pub proof fn lemma_insert_pages_len(
    base: Seq<(ObjId, ObjV)>,
    pairs: Seq<(ObjId, Seq<(Seq<u8>, ObjV)>)>,
    pid: ObjId,
)
    ensures
        insert_pages_v(base, pairs, pid).len() <= base.len() + pairs.len(),
    decreases pairs.len(),
{
    if pairs.len() > 0 {
        lemma_insert_pages_len(base, pairs.drop_last(), pid);
        lemma_map_set_len(
            insert_pages_v(base, pairs.drop_last(), pid),
            pairs.last().0,
            ObjV::Dict(dict_set_v(pairs.last().1, k_parent(), ObjV::Ref(pid))),
        );
    }
}

/// Valid inputs merge: at least two documents, consistent shiftable id
/// spaces, well-formed page lists, a catalog and a page collection among
/// the inputs, and an id space that fits the output numbering.
pub proof fn lemma_merge_succeeds(docs: Seq<PdfDocV>)
    requires
        docs.len() >= 2,
        all_ids_bounded(docs),
        offsets_fit(docs),
        docs_pages_wf(docs),
        exists|i: int| 0 <= i < docs.len() && doc_has_role(#[trigger] docs[i], Role::Catalog),
        exists|i: int| 0 <= i < docs.len() && doc_has_role(#[trigger] docs[i], Role::Pages),
        objects_total(docs, docs.len() as int) + pages_total(docs, docs.len() as int) + 2
            <= u32::MAX,
    ensures
        merge_ok_v(docs),
{
    let n = docs.len() as int;
    let merged = accum_objects(docs, n);
    let pairs = accum_pairs(docs, n);
    lemma_accum_len(docs, n);
    lemma_page_order_and_count(docs, n);
    lemma_accum_has_role(docs, n, Role::Catalog);
    lemma_accum_has_role(docs, n, Role::Pages);
    lemma_classify_finds(merged);
    let cl = classify_v(merged);
    lemma_classify_rest_len(merged);
    match cl.catalog {
        Some((cid, cat)) => match cl.pages {
            Some((pid, folded)) => {
                lemma_insert_pages_len(cl.rest, pairs, pid);
                let inner = map_set(insert_pages_v(cl.rest, pairs, pid), pid, ObjV::Dict(
                    pages_entries_v(folded, pairs),
                ));
                lemma_map_set_len(
                    insert_pages_v(cl.rest, pairs, pid),
                    pid,
                    ObjV::Dict(pages_entries_v(folded, pairs)),
                );
                lemma_map_set_len(inner, cid, ObjV::Dict(catalog_entries_v(cat, pid)));
            },
            None => {},
        },
        None => {},
    }
}

/// Shifting maps references to references and keeps every other
/// constructor.
proof fn lemma_shift_variant(o: ObjV, off: u32)
    ensures
        (shift_obj_v(o, off) is Ref) == (o is Ref),
        (shift_obj_v(o, off) is Dict) == (o is Dict),
        o matches ObjV::Ref(q) ==> shift_obj_v(o, off) == ObjV::Ref(shift_id(q, off)),
{
    match o {
        ObjV::Array(_) => {},
        ObjV::Dict(_) => {},
        ObjV::Stream { .. } => {},
        ObjV::Ref(_) => {},
        _ => {},
    }
}

/// Resolution commutes with renumbering: a chain that ends in the original
/// document ends at the same object, shifted, in the renumbered one.
pub proof fn lemma_resolve_shift(d: PdfDocV, off: u32, p: ObjId, fuel: nat)
    requires
        doc_ids_bounded(d),
        d.max_id + off <= u32::MAX,
        resolve_v(d.objects, p, fuel) is Some,
    ensures
        resolve_v(shift_doc_v(d, off).objects, shift_id(p, off), fuel) == Some(
            shift_obj_v(resolve_v(d.objects, p, fuel).unwrap(), off),
        ),
    decreases fuel,
{
    let s = d.objects;
    let t = shift_doc_v(d, off).objects;
    lemma_find_id(s, p);
    let f = find_id(s, p);
    assert(f < s.len());
    lemma_find_shift(d, off, p);
    let o = s[f].1;
    assert(t[f] == (shift_id(s[f].0, off), shift_obj_v(o, off)));
    assert(map_get(t, shift_id(p, off)) == Some(shift_obj_v(o, off)));
    lemma_shift_variant(o, off);
    match o {
        ObjV::Ref(q) => {
            assert(fuel > 0);
            lemma_resolve_shift(d, off, q, (fuel - 1) as nat);
        },
        _ => {},
    }
}

/// A page-tagged value is a dictionary value.
pub proof fn lemma_role_page_is_dict(o: ObjV)
    requires
        role_v(o) == Role::Page,
    ensures
        o is Dict,
{
    match o {
        ObjV::Dict(_) => {},
        _ => {},
    }
}

/// A tagged value is a dictionary value holding its own entries.
pub proof fn lemma_role_is_dict(o: ObjV)
    requires
        role_v(o) != Role::Other,
    ensures
        o == ObjV::Dict(dict_entries_v(o)),
{
    match o {
        ObjV::Dict(_) => {},
        _ => {},
    }
}

/// Where an element of one renumbered document stands in the accumulated
/// map: after everything the earlier documents contributed.
pub proof fn lemma_accum_index(docs: Seq<PdfDocV>, n: int, i: int, j: int)
    requires
        0 <= i < n <= docs.len(),
        0 <= j < shifted_doc(docs, i).objects.len(),
    ensures
        0 <= accum_objects(docs, i).len() + j < accum_objects(docs, n).len(),
        accum_objects(docs, n)[accum_objects(docs, i).len() + j] == shifted_doc(
            docs,
            i,
        ).objects[j],
    decreases n,
{
    if i == n - 1 {
        assert(accum_objects(docs, n) == accum_objects(docs, n - 1) + shifted_doc(
            docs,
            n - 1,
        ).objects);
    } else {
        lemma_accum_index(docs, n - 1, i, j);
        assert(accum_objects(docs, n) == accum_objects(docs, n - 1) + shifted_doc(
            docs,
            n - 1,
        ).objects);
    }
}

/// In a strictly sorted map, lookup lands on any matching position.
pub proof fn lemma_find_in_sorted(s: Seq<(ObjId, ObjV)>, k: int)
    requires
        strictly_sorted(s),
        0 <= k < s.len(),
    ensures
        find_id(s, s[k].0) == k,
{
    lemma_find_id(s, s[k].0);
    let f = find_id(s, s[k].0);
    assert(f <= k);
    if f < k {
        assert(s[f].0 == s[k].0);
        assert(s[f].0.key() < s[k].0.key());
    }
}

/// The ids of the kept pages are distinct and stay below the running
/// offset.
pub proof fn lemma_page_order_distinct(docs: Seq<PdfDocV>, n: int)
    requires
        0 <= n <= docs.len(),
        all_ids_bounded(docs),
        offsets_fit(docs),
        docs_pages_tagged(docs),
        docs_pages_distinct(docs),
    ensures
        page_order(docs, n).len() == pages_total(docs, n),
        forall|k: int|
            0 <= k < page_order(docs, n).len() ==> 0 <= (#[trigger] page_order(docs, n)[k]).num
                < offset_of(docs, n),
        forall|k: int, l: int|
            0 <= k < l < page_order(docs, n).len() ==> page_order(docs, n)[k] != page_order(
                docs,
                n,
            )[l],
    decreases n,
{
    if n > 0 {
        lemma_page_order_distinct(docs, n - 1);
        lemma_offset_nonneg(docs, n - 1);
        let off = offset_of(docs, n - 1) as u32;
        let d = docs[n - 1];
        let prev = page_order(docs, n - 1);
        let seg = shift_ids_v(d.pages, off);
        let whole = page_order(docs, n);
        assert(whole == prev + seg);
        // Every page of the last document is a key of its map, so its
        // number lies under the watermark, and its shifted number in the
        // window that starts at the offset.
        assert forall|j: int| 0 <= j < seg.len() implies off <= (#[trigger] seg[j]).num <= off
            + d.max_id && seg[j] == shift_id(d.pages[j], off) && d.pages[j].num <= d.max_id by {
            assert(resolve_v(d.objects, d.pages[j], deref_fuel()) is Some);
            assert(map_get(d.objects, d.pages[j]) is Some);
            lemma_find_id(d.objects, d.pages[j]);
            let f = find_id(d.objects, d.pages[j]);
            assert(d.objects[f].0 == d.pages[j]);
            assert(d.pages[j].num <= d.max_id);
        }
        assert forall|k: int| 0 <= k < whole.len() implies 0 <= (#[trigger] whole[k]).num
            < offset_of(docs, n) by {
            if k < prev.len() {
                assert(whole[k] == prev[k]);
            } else {
                assert(whole[k] == seg[k - prev.len()]);
            }
        }
        assert forall|k: int, l: int| 0 <= k < l < whole.len() implies whole[k] != whole[l] by {
            if l < prev.len() {
                assert(whole[k] == prev[k]);
                assert(whole[l] == prev[l]);
            } else if k >= prev.len() {
                assert(whole[k] == seg[k - prev.len()]);
                assert(whole[l] == seg[l - prev.len()]);
                // Within the document, distinct pages shift to distinct ids.
                let a = d.pages[k - prev.len()];
                let b = d.pages[l - prev.len()];
                assert(a != b);
                if shift_id(a, off) == shift_id(b, off) {
                    assert(a.num + off <= u32::MAX);
                    assert(b.num + off <= u32::MAX);
                }
            } else {
                assert(whole[k] == prev[k]);
                assert(whole[l] == seg[l - prev.len()]);
                assert(whole[k].num < offset_of(docs, n - 1));
                assert(whole[l].num >= offset_of(docs, n - 1));
            }
        }
    }
}

/// Every input's pages resolve, within the dereference budget, to
/// page-tagged dictionaries of that input.
pub open spec fn docs_pages_tagged(docs: Seq<PdfDocV>) -> bool {
    forall|i: int, j: int|
        0 <= i < docs.len() && 0 <= j < docs[i].pages.len() ==> ((#[trigger] resolve_v(
            docs[i].objects,
            docs[i].pages[j],
            deref_fuel(),
        )) matches Some(o) && role_v(o) == Role::Page)
}

/// No input lists a page twice.
pub open spec fn docs_pages_distinct(docs: Seq<PdfDocV>) -> bool {
    forall|i: int, j: int, k: int|
        0 <= i < docs.len() && 0 <= j < k < docs[i].pages.len() ==> docs[i].pages[j] != docs[
            i
        ].pages[k]
}

/// Every kept page id names an object of the accumulated map that is
/// page-tagged or a reference into its chain: never a catalog and never a
/// page collection.
pub proof fn lemma_page_ids_role(docs: Seq<PdfDocV>, n: int)
    requires
        0 <= n <= docs.len(),
        docs_sorted(docs),
        all_ids_bounded(docs),
        offsets_fit(docs),
        docs_pages_tagged(docs),
    ensures
        forall|k: int|
            0 <= k < page_order(docs, n).len() ==> ({
                let merged = accum_objects(docs, docs.len() as int);
                let f = find_id(merged, #[trigger] page_order(docs, n)[k]);
                f < merged.len() && (role_v(merged[f].1) == Role::Page || merged[f].1 is Ref)
            }),
    decreases n,
{
    let merged = accum_objects(docs, docs.len() as int);
    if n > 0 {
        lemma_page_ids_role(docs, n - 1);
        lemma_offset_nonneg(docs, n - 1);
        lemma_merged_sorted(docs, docs.len() as int);
        let off = offset_of(docs, n - 1) as u32;
        let d = docs[n - 1];
        let prev = page_order(docs, n - 1);
        let seg = shift_ids_v(d.pages, off);
        let whole = page_order(docs, n);
        assert(whole == prev + seg);
        assert forall|k: int|
            0 <= k < whole.len() implies ({
                let f = find_id(merged, #[trigger] whole[k]);
                f < merged.len() && (role_v(merged[f].1) == Role::Page || merged[f].1 is Ref)
            }) by {
            if k < prev.len() {
                assert(whole[k] == prev[k]);
            } else {
                let j = k - prev.len();
                assert(whole[k] == seg[j]);
                assert(seg[j] == shift_id(d.pages[j], off));
                assert(resolve_v(d.objects, d.pages[j], deref_fuel()) matches Some(o) && role_v(
                    o,
                ) == Role::Page);
                assert(map_get(d.objects, d.pages[j]) is Some);
                lemma_find_id(d.objects, d.pages[j]);
                let f = find_id(d.objects, d.pages[j]);
                assert(d.objects[f].0 == d.pages[j]);
                let o0 = d.objects[f].1;
                // The id's own object is either a reference into the chain
                // or the page dictionary itself.
                if !(o0 is Ref) {
                    assert(resolve_v(d.objects, d.pages[j], deref_fuel()) == Some(o0));
                    assert(role_v(o0) == Role::Page);
                }
                let sd = shifted_doc(docs, n - 1);
                assert(sd.objects[f] == (shift_id(d.objects[f].0, off), shift_obj_v(o0, off)));
                lemma_shift_role(o0, off);
                lemma_shift_variant(o0, off);
                let kk = accum_objects(docs, n - 1).len() + f;
                lemma_accum_index(docs, docs.len() as int, n - 1, f);
                assert(merged[kk] == sd.objects[f]);
                assert(merged[kk].0 == whole[k]);
                lemma_find_in_sorted(merged, kk);
            }
        }
    }
}

/// Inserting the kept pages binds each page id, when the ids are distinct,
/// to its dictionary with the parent pointer rewritten.
pub proof fn lemma_insert_pages_get(
    base: Seq<(ObjId, ObjV)>,
    pairs: Seq<(ObjId, Seq<(Seq<u8>, ObjV)>)>,
    pid: ObjId,
    i: int,
)
    requires
        0 <= i < pairs.len(),
        forall|k: int, l: int| 0 <= k < l < pairs.len() ==> pairs[k].0 != pairs[l].0,
    ensures
        map_get(insert_pages_v(base, pairs, pid), pairs[i].0) == Some(
            ObjV::Dict(dict_set_v(pairs[i].1, k_parent(), ObjV::Ref(pid))),
        ),
    decreases pairs.len(),
{
    let head = pairs.drop_last();
    let prev = insert_pages_v(base, head, pid);
    let last_v = ObjV::Dict(dict_set_v(pairs.last().1, k_parent(), ObjV::Ref(pid)));
    if i == pairs.len() - 1 {
        lemma_map_set_find(prev, pairs.last().0, last_v);
    } else {
        assert forall|k: int, l: int| 0 <= k < l < head.len() implies head[k].0 != head[l].0 by {
            assert(head[k] == pairs[k]);
            assert(head[l] == pairs[l]);
        }
        lemma_insert_pages_get(base, head, pid, i);
        assert(head[i] == pairs[i]);
        assert(pairs[i].0 != pairs.last().0);
        lemma_map_set_get_other(prev, pairs.last().0, last_v, pairs[i].0);
    }
}

/// Every kept page of the output holds its dictionary with its parent
/// pointer rewritten to the one surviving page collection.
pub proof fn lemma_parents(docs: Seq<PdfDocV>)
    requires
        merge_ok_v(docs),
        docs_sorted(docs),
        docs_pages_tagged(docs),
        docs_pages_distinct(docs),
    ensures
        ({
            let pairs = accum_pairs(docs, docs.len() as int);
            let pid = collection_of(docs);
            forall|i: int|
                0 <= i < pairs.len() ==> map_get(built_of(docs), (#[trigger] pairs[i]).0)
                    == Some(ObjV::Dict(dict_set_v(pairs[i].1, k_parent(), ObjV::Ref(pid))))
                    && dict_get_v(
                    dict_set_v(pairs[i].1, k_parent(), ObjV::Ref(pid)),
                    k_parent(),
                ) == Some(ObjV::Ref(pid))
        }),
{
    let n = docs.len() as int;
    let merged = accum_objects(docs, n);
    let pairs = accum_pairs(docs, n);
    let cl = classify_v(merged);

    // A page-tagged page is a dictionary, so the kept pages are exactly the
    // inputs' pages, in order.
    assert forall|i: int, j: int|
        0 <= i < docs.len() && 0 <= j < docs[i].pages.len() implies ((#[trigger] resolve_v(
        docs[i].objects,
        docs[i].pages[j],
        deref_fuel(),
    )) matches Some(o) && o is Dict) by {
        let o = resolve_v(docs[i].objects, docs[i].pages[j], deref_fuel()).unwrap();
        lemma_role_page_is_dict(o);
    }
    lemma_page_order_and_count(docs, n);
    lemma_page_order_distinct(docs, n);
    lemma_page_ids_role(docs, n);
    lemma_merged_sorted(docs, n);
    lemma_classify_witness(merged);

    match cl.catalog {
        Some((cid, cat)) => match cl.pages {
            Some((pid, folded)) => {
                let pe = pages_entries_v(folded, pairs);
                let ce = catalog_entries_v(cat, pid);
                let wc = choose|w: int|
                    0 <= w < merged.len() && #[trigger] merged[w].0 == cid && role_v(merged[w].1)
                        == Role::Catalog;
                let wp = choose|w: int|
                    0 <= w < merged.len() && #[trigger] merged[w].0 == pid && role_v(merged[w].1)
                        == Role::Pages;
                lemma_find_in_sorted(merged, wc);
                lemma_find_in_sorted(merged, wp);
                assert forall|i: int|
                    0 <= i < pairs.len() implies map_get(built_of(docs), (#[trigger] pairs[i]).0)
                        == Some(ObjV::Dict(dict_set_v(pairs[i].1, k_parent(), ObjV::Ref(pid))))
                        && dict_get_v(
                        dict_set_v(pairs[i].1, k_parent(), ObjV::Ref(pid)),
                        k_parent(),
                    ) == Some(ObjV::Ref(pid)) by {
                    let p = pairs[i].0;
                    assert(p == pair_ids(pairs)[i]);
                    assert(p == page_order(docs, n)[i]);
                    // The page id is neither the collection's nor the
                    // catalog's: their objects carry different roles.
                    let f = find_id(merged, p);
                    assert(f < merged.len() && (role_v(merged[f].1) == Role::Page || merged[
                        f
                    ].1 is Ref));
                    assert(role_v(merged[f].1) != Role::Pages && role_v(merged[f].1)
                        != Role::Catalog);
                    assert(p != pid);
                    assert(p != cid);
                    // Distinct page ids insert without collision.
                    assert forall|k: int, l: int|
                        0 <= k < l < pairs.len() implies pairs[k].0 != pairs[l].0 by {
                        assert(pairs[k].0 == page_order(docs, n)[k]);
                        assert(pairs[l].0 == page_order(docs, n)[l]);
                    }
                    lemma_insert_pages_get(cl.rest, pairs, pid, i);
                    let inner = map_set(insert_pages_v(cl.rest, pairs, pid), pid, ObjV::Dict(pe));
                    lemma_map_set_get_other(
                        insert_pages_v(cl.rest, pairs, pid),
                        pid,
                        ObjV::Dict(pe),
                        p,
                    );
                    lemma_map_set_get_other(inner, cid, ObjV::Dict(ce), p);
                    lemma_dict_set_get(pairs[i].1, k_parent(), ObjV::Ref(pid));
                }
            },
            None => {},
        },
        None => {},
    }
}

/// A binding only rewrites or appends that binding: every entry of the
/// result is an old entry or the new binding.
pub proof fn lemma_map_set_members(s: Seq<(ObjId, ObjV)>, id: ObjId, v: ObjV)
    ensures
        forall|k: int|
            0 <= k < map_set(s, id, v).len() ==> (#[trigger] map_set(s, id, v)[k]) == (id, v)
                || (k < s.len() && map_set(s, id, v)[k] == s[k]),
{
    lemma_find_id(s, id);
}

/// A binding keeps distinct ids distinct.
pub proof fn lemma_map_set_distinct(s: Seq<(ObjId, ObjV)>, id: ObjId, v: ObjV)
    requires
        forall|k: int, l: int| 0 <= k < l < s.len() ==> s[k].0 != s[l].0,
    ensures
        forall|k: int, l: int|
            0 <= k < l < map_set(s, id, v).len() ==> map_set(s, id, v)[k].0 != map_set(
                s,
                id,
                v,
            )[l].0,
{
    lemma_find_id(s, id);
    let t = map_set(s, id, v);
    let f = find_id(s, id);
    assert forall|k: int, l: int| 0 <= k < l < t.len() implies t[k].0 != t[l].0 by {
        if f < s.len() {
            assert(t[k].0 == s[k].0);
            assert(t[l].0 == s[l].0);
        } else {
            if l < s.len() {
                assert(t[k] == s[k]);
                assert(t[l] == s[l]);
            } else {
                assert(t[l] == (id, v));
                assert(t[k] == s[k]);
                assert(s[k].0 != id);
            }
        }
    }
}

/// The entry is a passthrough entry, or a kept page with its parent
/// rewritten.
pub open spec fn from_rest_or_pages(
    e: (ObjId, ObjV),
    base: Seq<(ObjId, ObjV)>,
    pairs: Seq<(ObjId, Seq<(Seq<u8>, ObjV)>)>,
    pid: ObjId,
) -> bool {
    (exists|l: int| 0 <= l < base.len() && e == base[l]) || (exists|i: int|
        0 <= i < pairs.len() && e == (
            pairs[i].0,
            ObjV::Dict(dict_set_v(pairs[i].1, k_parent(), ObjV::Ref(pid))),
        ))
}

/// Inserting the kept pages only rewrites or appends pages: every entry of
/// the result is a passthrough entry or a kept page with its parent
/// rewritten.
pub proof fn lemma_insert_pages_members(
    base: Seq<(ObjId, ObjV)>,
    pairs: Seq<(ObjId, Seq<(Seq<u8>, ObjV)>)>,
    pid: ObjId,
)
    ensures
        forall|k: int|
            0 <= k < insert_pages_v(base, pairs, pid).len() ==> from_rest_or_pages(
                #[trigger] insert_pages_v(base, pairs, pid)[k],
                base,
                pairs,
                pid,
            ),
    decreases pairs.len(),
{
    let t = insert_pages_v(base, pairs, pid);
    if pairs.len() > 0 {
        let head = pairs.drop_last();
        lemma_insert_pages_members(base, head, pid);
        let prev = insert_pages_v(base, head, pid);
        let last_e = (
            pairs.last().0,
            ObjV::Dict(dict_set_v(pairs.last().1, k_parent(), ObjV::Ref(pid))),
        );
        lemma_map_set_members(prev, last_e.0, last_e.1);
        assert forall|k: int|
            0 <= k < t.len() implies from_rest_or_pages(#[trigger] t[k], base, pairs, pid) by {
            if t[k] == last_e {
                assert(t[k] == (
                    pairs[pairs.len() - 1].0,
                    ObjV::Dict(dict_set_v(pairs[pairs.len() - 1].1, k_parent(), ObjV::Ref(pid))),
                ));
            } else {
                assert(k < prev.len() && t[k] == prev[k]);
                assert(from_rest_or_pages(prev[k], base, head, pid));
                if exists|l: int| 0 <= l < base.len() && prev[k] == base[l] {
                    let l = choose|l: int| 0 <= l < base.len() && prev[k] == base[l];
                    assert(t[k] == base[l]);
                } else {
                    let i = choose|i: int|
                        0 <= i < head.len() && prev[k] == (
                            head[i].0,
                            ObjV::Dict(dict_set_v(head[i].1, k_parent(), ObjV::Ref(pid))),
                        );
                    assert(head[i] == pairs[i]);
                    assert(t[k] == (
                        pairs[i].0,
                        ObjV::Dict(dict_set_v(pairs[i].1, k_parent(), ObjV::Ref(pid))),
                    ));
                }
            }
        }
    } else {
        assert forall|k: int|
            0 <= k < t.len() implies from_rest_or_pages(#[trigger] t[k], base, pairs, pid) by {
            assert(0 <= k < base.len() && t[k] == base[k]);
        }
    }
}

/// What the classifier passes through keeps the map's order: the bucket is
/// strictly sorted when the map is, and every entry of it is an entry of
/// the map.
pub proof fn lemma_classify_rest_sorted(s: Seq<(ObjId, ObjV)>)
    requires
        strictly_sorted(s),
    ensures
        strictly_sorted(classify_v(s).rest),
        forall|k: int|
            0 <= k < classify_v(s).rest.len() ==> exists|j: int|
                0 <= j < s.len() && (#[trigger] classify_v(s).rest[k]) == s[j],
    decreases s.len(),
{
    if s.len() > 0 {
        let t = s.drop_last();
        assert(strictly_sorted(t)) by {
            assert(forall|i: int, j: int|
                0 <= i < j < t.len() ==> t[i] == s[i] && t[j] == s[j]);
        }
        lemma_classify_rest_sorted(t);
        let prev = classify_v(t).rest;
        let whole = classify_v(s).rest;
        assert forall|k: int|
            0 <= k < whole.len() implies exists|j: int|
                0 <= j < s.len() && (#[trigger] whole[k]) == s[j] by {
            if k < prev.len() {
                assert(whole[k] == prev[k]);
                let j = choose|j: int| 0 <= j < t.len() && prev[k] == t[j];
                assert(whole[k] == s[j]);
            } else {
                assert(whole[k] == s.last());
                assert(whole[k] == s[s.len() - 1]);
            }
        }
        assert forall|k: int, l: int|
            0 <= k < l < whole.len() implies whole[k].0.key() < whole[l].0.key() by {
            if l < prev.len() {
                assert(whole[k] == prev[k]);
                assert(whole[l] == prev[l]);
            } else {
                assert(whole[k] == prev[k]);
                assert(whole[l] == s.last());
                let j = choose|j: int| 0 <= j < t.len() && prev[k] == t[j];
                assert(whole[k] == s[j]);
                assert(s[j].0.key() < s[s.len() - 1].0.key());
            }
        }
    }
}

/// At most one entry of the dictionary declares a role.
pub open spec fn type_unique(es: Seq<(Seq<u8>, ObjV)>) -> bool {
    forall|j: int, l: int|
        0 <= j < l < es.len() ==> !(es[j].0 == k_type() && es[l].0 == k_type())
}

/// Folding entries over a base keeps the one declared role of the folded
/// entries.
pub proof fn lemma_fold_get_unique(
    acc: Seq<(Seq<u8>, ObjV)>,
    es: Seq<(Seq<u8>, ObjV)>,
    v: ObjV,
)
    requires
        dict_get_v(es, k_type()) == Some(v),
        type_unique(es),
    ensures
        dict_get_v(fold_entries(acc, es), k_type()) == Some(v),
    decreases es.len(),
{
    crate::model::lemma_dict_find(es, k_type());
    let f = dict_find(es, k_type());
    assert(f < es.len());
    assert(es[f].0 == k_type());
    let head = es.drop_last();
    let prev = fold_entries(acc, head);
    if es.last().0 == k_type() {
        // The last entry is the one declared role.
        assert(f == es.len() - 1);
        assert(v == es.last().1);
        lemma_dict_set_get(prev, es.last().0, es.last().1);
    } else {
        assert(f < es.len() - 1);
        assert(head[f] == es[f]);
        crate::model::lemma_dict_find(head, k_type());
        let g = dict_find(head, k_type());
        if g < f {
            assert(head[g].0 == k_type());
            assert(es[g].0 == k_type());
        }
        if g > f {
            assert(head[f].0 != k_type());
        }
        assert(g == f);
        assert(dict_get_v(head, k_type()) == Some(v));
        assert forall|j: int, l: int|
            0 <= j < l < head.len() implies !(head[j].0 == k_type() && head[l].0
                == k_type()) by {
            assert(head[j] == es[j]);
            assert(head[l] == es[l]);
        }
        lemma_fold_get_unique(acc, head, v);
        lemma_dict_set_get_other(prev, es.last().0, es.last().1, k_type());
    }
}

/// The surviving collection's entries stay collection-tagged, when every
/// collection of the map declares its role exactly once.
pub proof fn lemma_classify_pages_marker(s: Seq<(ObjId, ObjV)>)
    requires
        forall|k: int|
            0 <= k < s.len() && role_v(#[trigger] s[k].1) == Role::Pages ==> type_unique(
                dict_entries_v(s[k].1),
            ),
    ensures
        classify_v(s).pages matches Some((pid, folded)) ==> dict_get_v(folded, k_type())
            == Some(ObjV::Name(k_pages())),
    decreases s.len(),
{
    if s.len() > 0 {
        let t = s.drop_last();
        assert forall|k: int|
            0 <= k < t.len() && role_v(#[trigger] t[k].1) == Role::Pages implies type_unique(
            dict_entries_v(t[k].1),
        ) by {
            assert(t[k] == s[k]);
        }
        lemma_classify_pages_marker(t);
        let c = classify_v(t);
        let o = s.last().1;
        if role_v(o) == Role::Pages {
            // A collection-tagged object declares the collection role.
            lemma_role_is_dict(o);
            let es = dict_entries_v(o);
            assert(dict_get_v(es, k_type()) == Some(ObjV::Name(k_pages())));
            assert(role_v(s[s.len() - 1].1) == Role::Pages);
            assert(type_unique(es));
            match c.pages {
                Some((pid, folded)) => {
                    lemma_fold_get_unique(folded, es, ObjV::Name(k_pages()));
                },
                None => {},
            }
        }
    }
}

/// The entry comes from one of the first `n` renumbered inputs.
pub open spec fn accum_member(e: (ObjId, ObjV), docs: Seq<PdfDocV>, n: int) -> bool {
    exists|i: int, j: int|
        0 <= i < n && 0 <= j < shifted_doc(docs, i).objects.len() && e == (
        #[trigger] shifted_doc(docs, i).objects[j])
}

/// Every entry of the accumulated map is an entry of one renumbered input.
pub proof fn lemma_accum_members(docs: Seq<PdfDocV>, n: int)
    requires
        0 <= n <= docs.len(),
    ensures
        forall|k: int|
            0 <= k < accum_objects(docs, n).len() ==> accum_member(
                #[trigger] accum_objects(docs, n)[k],
                docs,
                n,
            ),
    decreases n,
{
    if n > 0 {
        lemma_accum_members(docs, n - 1);
        let prev = accum_objects(docs, n - 1);
        let seg = shifted_doc(docs, n - 1).objects;
        let whole = accum_objects(docs, n);
        assert(whole == prev + seg);
        assert forall|k: int|
            0 <= k < whole.len() implies accum_member(#[trigger] whole[k], docs, n) by {
            if k < prev.len() {
                assert(whole[k] == prev[k]);
                assert(accum_member(prev[k], docs, n - 1));
                let (i, j) = choose|i: int, j: int|
                    0 <= i < n - 1 && 0 <= j < shifted_doc(docs, i).objects.len() && prev[k]
                        == (#[trigger] shifted_doc(docs, i).objects[j]);
                assert(whole[k] == shifted_doc(docs, i).objects[j]);
            } else {
                assert(whole[k] == seg[k - prev.len()]);
                assert(whole[k] == shifted_doc(docs, n - 1).objects[k - prev.len()]);
            }
        }
    }
}

/// Every collection of every input declares its role exactly once.
pub open spec fn docs_collections_type_unique(docs: Seq<PdfDocV>) -> bool {
    forall|i: int, k: int|
        0 <= i < docs.len() && 0 <= k < docs[i].objects.len() && role_v(
            #[trigger] docs[i].objects[k].1,
        ) == Role::Pages ==> type_unique(dict_entries_v(docs[i].objects[k].1))
}

/// Shifting keeps how often each name occurs in a dictionary.
pub proof fn lemma_shift_type_unique(es: Seq<(Seq<u8>, ObjV)>, off: u32)
    requires
        type_unique(es),
    ensures
        type_unique(shift_entries_v(es, off)),
{
    let t = shift_entries_v(es, off);
    lemma_shift_entries_v(es, off);
    assert forall|j: int, l: int|
        0 <= j < l < t.len() implies !(t[j].0 == k_type() && t[l].0 == k_type()) by {
        assert(t[j].0 == es[j].0);
        assert(t[l].0 == es[l].0);
    }
}

/// Inserting the kept pages keeps distinct ids distinct.
pub proof fn lemma_insert_pages_distinct(
    base: Seq<(ObjId, ObjV)>,
    pairs: Seq<(ObjId, Seq<(Seq<u8>, ObjV)>)>,
    pid: ObjId,
)
    requires
        forall|k: int, l: int| 0 <= k < l < base.len() ==> base[k].0 != base[l].0,
    ensures
        forall|k: int, l: int|
            0 <= k < l < insert_pages_v(base, pairs, pid).len() ==> insert_pages_v(
                base,
                pairs,
                pid,
            )[k].0 != insert_pages_v(base, pairs, pid)[l].0,
    decreases pairs.len(),
{
    if pairs.len() > 0 {
        lemma_insert_pages_distinct(base, pairs.drop_last(), pid);
        lemma_map_set_distinct(
            insert_pages_v(base, pairs.drop_last(), pid),
            pairs.last().0,
            ObjV::Dict(dict_set_v(pairs.last().1, k_parent(), ObjV::Ref(pid))),
        );
    }
}

/// Every kept page's dictionary is page-tagged.
pub proof fn lemma_pairs_role(docs: Seq<PdfDocV>, n: int)
    requires
        0 <= n <= docs.len(),
        all_ids_bounded(docs),
        offsets_fit(docs),
        docs_pages_tagged(docs),
    ensures
        forall|k: int|
            0 <= k < accum_pairs(docs, n).len() ==> role_v(
                ObjV::Dict((#[trigger] accum_pairs(docs, n)[k]).1),
            ) == Role::Page,
    decreases n,
{
    if n > 0 {
        lemma_pairs_role(docs, n - 1);
        lemma_offset_nonneg(docs, n - 1);
        let off = offset_of(docs, n - 1) as u32;
        let d = docs[n - 1];
        assert forall|i: int|
            0 <= i < d.pages.len() implies ((#[trigger] resolve_v(
                d.objects,
                d.pages[i],
                deref_fuel(),
            )) matches Some(o) && o is Dict) by {
            assert(resolve_v(docs[n - 1].objects, docs[n - 1].pages[i], deref_fuel())
                matches Some(o) && role_v(o) == Role::Page);
            lemma_role_page_is_dict(resolve_v(d.objects, d.pages[i], deref_fuel()).unwrap());
        }
        lemma_kept_pages(d, off, d.pages);
        let prev = accum_pairs(docs, n - 1);
        let seg = page_pairs_v(shifted_doc(docs, n - 1).objects, shifted_doc(docs, n - 1).pages);
        let whole = accum_pairs(docs, n);
        assert(whole == prev + seg);
        assert forall|k: int|
            0 <= k < whole.len() implies role_v(ObjV::Dict((#[trigger] whole[k]).1))
                == Role::Page by {
            if k < prev.len() {
                assert(whole[k] == prev[k]);
            } else {
                let j = k - prev.len();
                assert(whole[k] == seg[j]);
                let resolved = resolve_v(d.objects, d.pages[j], deref_fuel()).unwrap();
                assert(role_v(resolved) == Role::Page);
                lemma_role_is_dict(resolved);
                let es0 = dict_entries_v(resolved);
                assert(seg[j].1 == shift_entries_v(es0, off));
                assert(shift_obj_v(ObjV::Dict(es0), off) == ObjV::Dict(
                    shift_entries_v(es0, off),
                ));
                lemma_shift_role(ObjV::Dict(es0), off);
            }
        }
    }
}

/// The well-known names are pairwise distinct where the classifier and the
/// builder tell them apart.
proof fn lemma_keys_distinct()
    ensures
        k_catalog() != k_pages(),
        k_catalog() != k_page(),
        k_page() != k_pages(),
        k_type() != k_pages(),
        k_type() != k_parent(),
        k_type() != k_count(),
        k_type() != k_kids(),
        k_type() != k_outlines(),
{
    assert(k_catalog()[0] != k_pages()[0]);
    assert(k_catalog()[0] != k_page()[0]);
    assert(k_page().len() != k_pages().len());
    assert(k_type()[0] != k_pages()[0]);
    assert(k_type()[0] != k_parent()[0]);
    assert(k_type()[0] != k_count()[0]);
    assert(k_type()[0] != k_kids()[0]);
    assert(k_type()[0] != k_outlines()[0]);
}

/// Exactly one catalog and one page collection stand in the output,
/// whatever the inputs carried: the output's ids are distinct, an object is
/// catalog-tagged exactly at the surviving catalog's id, and
/// collection-tagged exactly at the surviving collection's id.
pub proof fn lemma_exactly_one(docs: Seq<PdfDocV>)
    requires
        merge_ok_v(docs),
        docs_sorted(docs),
        docs_pages_tagged(docs),
        docs_collections_type_unique(docs),
    ensures
        ({
            let built = built_of(docs);
            &&& (forall|k: int, l: int|
                0 <= k < l < built.len() ==> built[k].0 != built[l].0)
            &&& (forall|k: int|
                0 <= k < built.len() ==> (role_v((#[trigger] built[k]).1) == Role::Catalog
                    <==> built[k].0 == root_of(docs)))
            &&& (forall|k: int|
                0 <= k < built.len() ==> (role_v((#[trigger] built[k]).1) == Role::Pages
                    <==> built[k].0 == collection_of(docs)))
        }),
{
    let n = docs.len() as int;
    let merged = accum_objects(docs, n);
    let pairs = accum_pairs(docs, n);
    let cl = classify_v(merged);
    let built = built_of(docs);
    lemma_keys_distinct();
    lemma_merged_sorted(docs, n);
    lemma_classify_witness(merged);
    lemma_classify_rest_roles(merged);
    lemma_classify_rest_sorted(merged);
    lemma_one_catalog_one_collection(docs);
    lemma_pairs_role(docs, n);
    lemma_accum_members(docs, n);

    // Every collection of the accumulated map declares its role exactly
    // once, so the folded collection stays collection-tagged.
    assert forall|k: int|
        0 <= k < merged.len() && role_v(#[trigger] merged[k].1) == Role::Pages implies
        type_unique(dict_entries_v(merged[k].1)) by {
        assert(accum_member(merged[k], docs, n));
        let (i, j) = choose|i: int, j: int|
            0 <= i < n && 0 <= j < shifted_doc(docs, i).objects.len() && merged[k] == (
            #[trigger] shifted_doc(docs, i).objects[j]);
        let off = offset_of(docs, i) as u32;
        let orig = docs[i].objects[j].1;
        assert(merged[k].1 == shift_obj_v(orig, off));
        lemma_shift_role(orig, off);
        assert(role_v(orig) == Role::Pages);
        assert(type_unique(dict_entries_v(orig)));
        lemma_role_is_dict(orig);
        let es0 = dict_entries_v(orig);
        assert(shift_obj_v(orig, off) == ObjV::Dict(shift_entries_v(es0, off)));
        lemma_shift_type_unique(es0, off);
    }
    lemma_classify_pages_marker(merged);

    match cl.catalog {
        Some((cid, cat)) => match cl.pages {
            Some((pid, folded)) => {
                let pe = pages_entries_v(folded, pairs);
                let ce = catalog_entries_v(cat, pid);
                let inner = map_set(insert_pages_v(cl.rest, pairs, pid), pid, ObjV::Dict(pe));
                assert(built == map_set(inner, cid, ObjV::Dict(ce)));

                // The surviving catalog stays catalog-tagged.
                let wc = choose|w: int|
                    0 <= w < merged.len() && #[trigger] merged[w].0 == cid && role_v(merged[w].1)
                        == Role::Catalog && merged[w].1 == ObjV::Dict(cat);
                assert(dict_get_v(cat, k_type()) == Some(ObjV::Name(k_catalog())));
                lemma_dict_set_get_other(cat, k_pages(), ObjV::Ref(pid), k_type());
                lemma_dict_remove_get_other(
                    dict_set_v(cat, k_pages(), ObjV::Ref(pid)),
                    k_outlines(),
                    k_type(),
                );
                assert(role_v(ObjV::Dict(ce)) == Role::Catalog);

                // The rebuilt collection stays collection-tagged.
                assert(dict_get_v(folded, k_type()) == Some(ObjV::Name(k_pages())));
                lemma_dict_set_get_other(
                    folded,
                    k_count(),
                    ObjV::Integer(pairs.len() as i64),
                    k_type(),
                );
                lemma_dict_set_get_other(
                    dict_set_v(folded, k_count(), ObjV::Integer(pairs.len() as i64)),
                    k_kids(),
                    ObjV::Array(kids_v(pairs)),
                    k_type(),
                );
                assert(role_v(ObjV::Dict(pe)) == Role::Pages);

                // Every kept page stays page-tagged through the parent
                // rewrite.
                assert forall|i: int|
                    0 <= i < pairs.len() implies role_v(
                    ObjV::Dict(dict_set_v((#[trigger] pairs[i]).1, k_parent(), ObjV::Ref(pid))),
                ) == Role::Page by {
                    assert(role_v(ObjV::Dict(pairs[i].1)) == Role::Page);
                    assert(dict_get_v(pairs[i].1, k_type()) == Some(ObjV::Name(k_page())));
                    lemma_dict_set_get_other(pairs[i].1, k_parent(), ObjV::Ref(pid), k_type());
                }

                // The output ids are distinct.
                assert forall|k: int, l: int|
                    0 <= k < l < cl.rest.len() implies cl.rest[k].0 != cl.rest[l].0 by {
                    assert(cl.rest[k].0.key() < cl.rest[l].0.key());
                }
                lemma_insert_pages_distinct(cl.rest, pairs, pid);
                lemma_map_set_distinct(
                    insert_pages_v(cl.rest, pairs, pid),
                    pid,
                    ObjV::Dict(pe),
                );
                lemma_map_set_distinct(inner, cid, ObjV::Dict(ce));

                // Decompose every output entry by where it came from.
                lemma_map_set_members(inner, cid, ObjV::Dict(ce));
                lemma_map_set_members(insert_pages_v(cl.rest, pairs, pid), pid, ObjV::Dict(pe));
                lemma_insert_pages_members(cl.rest, pairs, pid);
                assert forall|k: int|
                    0 <= k < built.len() implies (role_v((#[trigger] built[k]).1)
                        == Role::Catalog <==> built[k].0 == cid) && (role_v(built[k].1)
                        == Role::Pages <==> built[k].0 == pid) by {
                    if built[k] == (cid, ObjV::Dict(ce)) {
                    } else {
                        assert(k < inner.len() && built[k] == inner[k]);
                        if inner[k] == (pid, ObjV::Dict(pe)) {
                        } else {
                            let ip = insert_pages_v(cl.rest, pairs, pid);
                            assert(k < ip.len() && inner[k] == ip[k]);
                            assert(from_rest_or_pages(ip[k], cl.rest, pairs, pid));
                            if exists|l: int| 0 <= l < cl.rest.len() && ip[k] == cl.rest[l] {
                                let l = choose|l: int|
                                    0 <= l < cl.rest.len() && ip[k] == cl.rest[l];
                                assert(role_v(built[k].1) == Role::Other);
                            } else {
                                let i = choose|i: int|
                                    0 <= i < pairs.len() && ip[k] == (
                                        pairs[i].0,
                                        ObjV::Dict(
                                            dict_set_v(pairs[i].1, k_parent(), ObjV::Ref(pid)),
                                        ),
                                    );
                                assert(role_v(built[k].1) == Role::Page);
                            }
                            // An id equal to a survivor's would collide with
                            // the survivor's own entry.
                            crate::graph::lemma_find_id(built, cid);
                            crate::graph::lemma_find_id(built, pid);
                            let fc = find_id(built, cid);
                            let fp = find_id(built, pid);
                            assert(built[fc].1 == ObjV::Dict(ce));
                            assert(built[fp].1 == ObjV::Dict(pe));
                            if built[k].0 == cid {
                                if k != fc {
                                    assert(built[k].0 != built[fc].0);
                                }
                            }
                            if built[k].0 == pid {
                                if k != fp {
                                    assert(built[k].0 != built[fp].0);
                                }
                            }
                        }
                    }
                }
            },
            None => {},
        },
        None => {},
    }
}

/// Every reference inside the object names an object number in `1..=n` with
/// generation 0.
pub open spec fn refs_in_range(o: ObjV, n: int) -> bool
    decreases o,
{
    match o {
        ObjV::Array(items) => items_refs_in_range(items, n),
        ObjV::Dict(es) => entries_refs_in_range(es, n),
        ObjV::Stream { dict, content, compressible } => entries_refs_in_range(dict, n),
        ObjV::Ref(id) => 1 <= id.num <= n && id.gen == 0,
        _ => true,
    }
}

/// Every reference inside the array elements is in range.
pub open spec fn items_refs_in_range(items: Seq<ObjV>, n: int) -> bool
    decreases items,
{
    if items.len() == 0 {
        true
    } else {
        items_refs_in_range(items.drop_last(), n) && refs_in_range(items.last(), n)
    }
}

/// Every reference inside the entry values is in range.
pub open spec fn entries_refs_in_range(es: Seq<(Seq<u8>, ObjV)>, n: int) -> bool
    decreases es,
{
    if es.len() == 0 {
        true
    } else {
        entries_refs_in_range(es.drop_last(), n) && refs_in_range(es.last().1, n)
    }
}

/// Compacting an object leaves only references into the compact id space.
pub proof fn lemma_compact_obj_refs(s: Seq<(ObjId, ObjV)>, o: ObjV)
    requires
        s.len() <= u32::MAX,
    ensures
        refs_in_range(compact_obj_v(s, o), s.len() as int),
    decreases o,
{
    match o {
        ObjV::Array(items) => {
            lemma_compact_items_refs(s, items);
        },
        ObjV::Dict(es) => {
            lemma_compact_entries_refs(s, es);
        },
        ObjV::Stream { dict, content, compressible } => {
            lemma_compact_entries_refs(s, dict);
        },
        ObjV::Ref(id) => {
            lemma_find_id(s, id);
        },
        _ => {},
    }
}

/// Compacting array elements leaves only references into the compact space.
pub proof fn lemma_compact_items_refs(s: Seq<(ObjId, ObjV)>, items: Seq<ObjV>)
    requires
        s.len() <= u32::MAX,
    ensures
        items_refs_in_range(compact_items_v(s, items), s.len() as int),
    decreases items,
{
    if items.len() > 0 {
        lemma_compact_items_refs(s, items.drop_last());
        lemma_compact_obj_refs(s, items.last());
        let c = compact_items_v(s, items);
        assert(c.drop_last() =~= compact_items_v(s, items.drop_last()));
        assert(c.last() == compact_obj_v(s, items.last()));
    }
}

/// Compacting entry values leaves only references into the compact space.
pub proof fn lemma_compact_entries_refs(s: Seq<(ObjId, ObjV)>, es: Seq<(Seq<u8>, ObjV)>)
    requires
        s.len() <= u32::MAX,
    ensures
        entries_refs_in_range(compact_entries_v(s, es), s.len() as int),
    decreases es,
{
    if es.len() > 0 {
        lemma_compact_entries_refs(s, es.drop_last());
        lemma_compact_obj_refs(s, es.last().1);
        let c = compact_entries_v(s, es);
        assert(c.drop_last() =~= compact_entries_v(s, es.drop_last()));
        assert(c.last() == (es.last().0, compact_obj_v(s, es.last().1)));
    }
}

/// Every id of `1..=n` with generation 0 is present in the compacted map.
pub proof fn lemma_compact_present(s: Seq<(ObjId, ObjV)>, id: ObjId)
    requires
        s.len() <= u32::MAX,
        1 <= id.num <= s.len(),
        id.gen == 0,
    ensures
        find_id(compact_v(s), id) < compact_v(s).len(),
        map_get(compact_v(s), id) is Some,
{
    let out = compact_v(s);
    lemma_find_id(out, id);
    let w = id.num - 1;
    assert(out[w].0 == id);
    if find_id(out, id) == out.len() {
        assert(out[w].0 != id);
    }
}

/// All object ids of the compacted output are distinct, and every reference
/// inside any of its objects, and its root, resolve to a present object: no
/// dangling references survive a merge.
pub proof fn lemma_no_dangling(s: Seq<(ObjId, ObjV)>, root: ObjId)
    requires
        s.len() <= u32::MAX,
        find_id(s, root) < s.len(),
    ensures
        compact_v(s).len() == s.len(),
        forall|i: int, j: int|
            0 <= i < j < compact_v(s).len() ==> compact_v(s)[i].0 != compact_v(s)[j].0,
        forall|i: int|
            0 <= i < compact_v(s).len() ==> refs_in_range(compact_v(s)[i].1, s.len() as int),
        forall|id: ObjId|
            1 <= id.num <= s.len() && id.gen == 0 ==> map_get(compact_v(s), id) is Some,
        map_get(compact_v(s), compact_root_v(s, root)) is Some,
{
    let out = compact_v(s);
    assert forall|i: int, j: int| 0 <= i < j < out.len() implies out[i].0 != out[j].0 by {
        assert(out[i].0.num == i + 1);
        assert(out[j].0.num == j + 1);
    }
    assert forall|i: int| 0 <= i < out.len() implies refs_in_range(out[i].1, s.len() as int) by {
        lemma_compact_obj_refs(s, s[i].1);
    }
    assert forall|id: ObjId|
        1 <= id.num <= s.len() && id.gen == 0 implies map_get(out, id) is Some by {
        lemma_compact_present(s, id);
    }
    lemma_find_id(s, root);
    lemma_compact_present(s, compact_root_v(s, root));
}

} // verus!
