//! The page tree builder and the catalog consolidator.
//!
//! The builder retargets every kept page's parent pointer to the surviving
//! page collection and inserts the page into the output map; the collection's
//! page list and count are rebuilt from scratch to follow the kept pages'
//! order exactly.  The consolidator points the surviving catalog at the
//! collection, drops its outline tree, and inserts it.  This is the sole
//! place the output page order is fixed.

use vstd::prelude::*;
use vstd::pervasive::VecAdditionalExecFns;
use crate::graph::{insert_pair, lemma_pagelist_view, map_set, pagelist_view};
use crate::model::{
    dict_remove_v, dict_set_v, key_count, key_kids, key_outlines, key_pages, key_parent,
    k_count, k_kids, k_outlines, k_pages, k_parent, lemma_items_view, lemma_objmap_view,
    obj_view, objmap_view, Dict, Obj, ObjId, ObjV,
};

verus! {

/// The output map after inserting every kept page, its parent pointer
/// rewritten to the collection id `pid`.
pub open spec fn insert_pages_v(
    base: Seq<(ObjId, ObjV)>,
    pairs: Seq<(ObjId, Seq<(Seq<u8>, ObjV)>)>,
    pid: ObjId,
) -> Seq<(ObjId, ObjV)>
    decreases pairs.len(),
{
    if pairs.len() == 0 {
        base
    } else {
        map_set(
            insert_pages_v(base, pairs.drop_last(), pid),
            pairs.last().0,
            ObjV::Dict(dict_set_v(pairs.last().1, k_parent(), ObjV::Ref(pid))),
        )
    }
}

/// The ordered page references of the output collection: one reference per
/// kept page, in the kept pages' order.
pub open spec fn kids_v(pairs: Seq<(ObjId, Seq<(Seq<u8>, ObjV)>)>) -> Seq<ObjV> {
    Seq::new(pairs.len(), |i: int| ObjV::Ref(pairs[i].0))
}

/// The entries of the output page collection: the folded entries with the
/// count and the page list rebuilt from the kept pages.
pub open spec fn pages_entries_v(
    folded: Seq<(Seq<u8>, ObjV)>,
    pairs: Seq<(ObjId, Seq<(Seq<u8>, ObjV)>)>,
) -> Seq<(Seq<u8>, ObjV)> {
    dict_set_v(
        dict_set_v(folded, k_count(), ObjV::Integer(pairs.len() as i64)),
        k_kids(),
        ObjV::Array(kids_v(pairs)),
    )
}

/// The entries of the output catalog: pointed at the collection, with the
/// outline tree removed.
pub open spec fn catalog_entries_v(
    cat: Seq<(Seq<u8>, ObjV)>,
    pid: ObjId,
) -> Seq<(Seq<u8>, ObjV)> {
    dict_remove_v(dict_set_v(cat, k_pages(), ObjV::Ref(pid)), k_outlines())
}

/// The whole output map: the passthrough objects, the kept pages, the one
/// page collection and the one catalog.
pub open spec fn build_v(
    rest: Seq<(ObjId, ObjV)>,
    pairs: Seq<(ObjId, Seq<(Seq<u8>, ObjV)>)>,
    pid: ObjId,
    folded: Seq<(Seq<u8>, ObjV)>,
    cid: ObjId,
    cat: Seq<(Seq<u8>, ObjV)>,
) -> Seq<(ObjId, ObjV)> {
    map_set(
        map_set(insert_pages_v(rest, pairs, pid), pid, ObjV::Dict(pages_entries_v(folded, pairs))),
        cid,
        ObjV::Dict(catalog_entries_v(cat, pid)),
    )
}

/// Builds the output object map from the classifier's buckets and the kept
/// pages, and names the output root.
pub fn build_document(
    rest: Vec<(ObjId, Obj)>,
    pairs: Vec<(ObjId, Dict)>,
    pages_id: ObjId,
    pages_dict: Dict,
    catalog_id: ObjId,
    catalog_dict: Dict,
) -> (r: Vec<(ObjId, Obj)>)
    requires
        pairs@.len() <= u32::MAX,
    ensures
        objmap_view(r@) == build_v(
            objmap_view(rest@),
            pagelist_view(pairs@),
            pages_id,
            pages_dict@,
            catalog_id,
            catalog_dict@,
        ),
{
    let ghost base = objmap_view(rest@);
    let ghost pv = pagelist_view(pairs@);
    let ghost foldv = pages_dict@;
    let ghost catv = catalog_dict@;
    proof {
        lemma_pagelist_view(pairs@);
    }

    // Retarget and insert every kept page, collecting the page references in
    // the kept order.
    let mut out = rest;
    let mut kids: Vec<Obj> = Vec::new();
    let mut work = pairs;
    let mut i: usize = 0;
    while i < work.len()
        invariant
            i <= work.len(),
            work@.len() == pv.len(),
            forall|j: int| i <= j < pv.len() ==> (work@[j].0, work@[j].1@) == pv[j],
            objmap_view(out@) == insert_pages_v(base, pv.take(i as int), pages_id),
            kids@.len() == i,
            forall|j: int| 0 <= j < i ==> kids@[j] == Obj::Ref(pv[j].0),
        decreases work.len() - i,
    {
        let mut tmp = (ObjId { num: 0, gen: 0 }, Dict { entries: Vec::new() });
        work.set_and_swap(i, &mut tmp);
        let (pid, mut d) = tmp;
        proof {
            assert((pid, d@) == pv[i as int]);
            assert(pv.take(i + 1).drop_last() =~= pv.take(i as int));
            assert(pv.take(i + 1).last() == pv[i as int]);
        }
        kids.push(Obj::Ref(pid));
        let kp = key_parent();
        d.set(kp, Obj::Ref(pages_id));
        insert_pair(&mut out, pid, Obj::Dict(d));
        i += 1;
    }
    proof {
        assert(pv.take(pv.len() as int) =~= pv);
    }

    // Rebuild the collection's count and page list from scratch, and insert
    // the one collection.
    let mut pd = pages_dict;
    let kc = key_count();
    let count = kids.len();
    pd.set(kc, Obj::Integer(count as i64));
    let kk = key_kids();
    proof {
        lemma_items_view(kids@);
        assert(crate::model::items_view(kids@) =~= kids_v(pv));
    }
    pd.set(kk, Obj::Array(kids));
    proof {
        assert(pd@ == pages_entries_v(foldv, pv));
    }
    insert_pair(&mut out, pages_id, Obj::Dict(pd));

    // Point the catalog at the collection, drop its outlines, and insert it.
    let mut cd = catalog_dict;
    let kg = key_pages();
    cd.set(kg, Obj::Ref(pages_id));
    let ko = key_outlines();
    cd.remove_key(&ko);
    proof {
        assert(cd@ == catalog_entries_v(catv, pages_id));
    }
    insert_pair(&mut out, catalog_id, Obj::Dict(cd));

    out
}

} // verus!
