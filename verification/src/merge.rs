//! The merge pipeline over parsed documents.
//!
//! The pipeline folds the input list: each document is renumbered by the
//! running offset and its objects and ordered pages are accumulated; the
//! accumulated map is classified; the page tree builder and the catalog
//! consolidator produce the output map; one final pass compacts the id
//! space.  Failure at any stage aborts the whole call with no output.

use vstd::prelude::*;
use crate::classify::{classify, classify_v, Classified};
use crate::codec::{parse_document, parse_of, parse_ok, serialize_document, serialize_ok, serialized};
use crate::compact::{compact_document, compact_root_v, compact_v};
use crate::errors::MergeError;
use crate::graph::{
    lemma_map_set_find, lemma_pagelist_view, page_pairs, page_pairs_v, pagelist_view,
};
use crate::model::{
    lemma_objmap_view, objmap_view, Dict, MergedDoc, MergedDocV, Obj, ObjId, ObjV, PdfDoc,
    PdfDocV,
};
use crate::renumber::{doc_ids_bounded, renumber_doc, shift_doc_v};
use crate::tree::{build_document, build_v};

verus! {

/// The views of a list of documents.
pub open spec fn doc_views(docs: Seq<PdfDoc>) -> Seq<PdfDocV> {
    Seq::new(docs.len(), |i: int| docs[i]@)
}

/// The base offset of document `i`: the next free object number after the
/// documents before it.
pub open spec fn offset_of(docs: Seq<PdfDocV>, i: int) -> int
    decreases i,
{
    if i <= 0 {
        0
    } else {
        offset_of(docs, i - 1) + docs[i - 1].max_id + 1
    }
}

/// Every document's shifted id space stays within object numbers.
pub open spec fn offsets_fit(docs: Seq<PdfDocV>) -> bool {
    forall|i: int| 0 <= i < docs.len() ==> offset_of(docs, i) + docs[i].max_id <= u32::MAX
}

/// Every document's object set is consistent with its declared maximum.
pub open spec fn all_ids_bounded(docs: Seq<PdfDocV>) -> bool {
    forall|i: int| 0 <= i < docs.len() ==> doc_ids_bounded(docs[i])
}

/// Document `i` after renumbering by its base offset.
pub open spec fn shifted_doc(docs: Seq<PdfDocV>, i: int) -> PdfDocV {
    shift_doc_v(docs[i], offset_of(docs, i) as u32)
}

/// The object maps of the first `n` renumbered documents, concatenated in
/// input order.
pub open spec fn accum_objects(docs: Seq<PdfDocV>, n: int) -> Seq<(ObjId, ObjV)>
    decreases n,
{
    if n <= 0 {
        Seq::<(ObjId, ObjV)>::empty()
    } else {
        accum_objects(docs, n - 1) + shifted_doc(docs, n - 1).objects
    }
}

/// The kept pages of the first `n` renumbered documents, concatenated in
/// input order; within each document the document's own page order is kept.
pub open spec fn accum_pairs(docs: Seq<PdfDocV>, n: int) -> Seq<(ObjId, Seq<(Seq<u8>, ObjV)>)>
    decreases n,
{
    if n <= 0 {
        Seq::<(ObjId, Seq<(Seq<u8>, ObjV)>)>::empty()
    } else {
        accum_pairs(docs, n - 1) + page_pairs_v(
            shifted_doc(docs, n - 1).objects,
            shifted_doc(docs, n - 1).pages,
        )
    }
}

/// The output map before compaction, when a catalog and a page collection
/// were found.
pub open spec fn built_of(docs: Seq<PdfDocV>) -> Seq<(ObjId, ObjV)> {
    let cl = classify_v(accum_objects(docs, docs.len() as int));
    let pairs = accum_pairs(docs, docs.len() as int);
    match (cl.catalog, cl.pages) {
        (Some((cid, cat)), Some((pid, folded))) => build_v(cl.rest, pairs, pid, folded, cid, cat),
        _ => Seq::<(ObjId, ObjV)>::empty(),
    }
}

/// The id of the surviving catalog before compaction.
pub open spec fn root_of(docs: Seq<PdfDocV>) -> ObjId {
    match classify_v(accum_objects(docs, docs.len() as int)).catalog {
        Some((cid, _)) => cid,
        None => ObjId { num: 0, gen: 0 },
    }
}

/// When a merge of these documents succeeds: at least two inputs, every id
/// space consistent and shiftable, a catalog and a page collection found,
/// and an output small enough to renumber.
pub open spec fn merge_ok_v(docs: Seq<PdfDocV>) -> bool {
    let cl = classify_v(accum_objects(docs, docs.len() as int));
    &&& docs.len() >= 2
    &&& all_ids_bounded(docs)
    &&& offsets_fit(docs)
    &&& cl.catalog is Some
    &&& cl.pages is Some
    &&& accum_pairs(docs, docs.len() as int).len() <= u32::MAX
    &&& built_of(docs).len() <= u32::MAX
}

/// The error of a failed merge: too few inputs, else a structural failure.
pub open spec fn merge_error_v(docs: Seq<PdfDocV>) -> MergeError {
    if docs.len() < 2 {
        MergeError::InputError
    } else {
        MergeError::StructuralError
    }
}

/// The merged output: the built map and its root, renumbered to the compact
/// id space.
pub open spec fn merge_result_v(docs: Seq<PdfDocV>) -> MergedDocV {
    MergedDocV {
        objects: compact_v(built_of(docs)),
        root: compact_root_v(built_of(docs), root_of(docs)),
    }
}

/// Merges a list of parsed documents into one document.
///
/// Every page of every input is kept, in input order, each document's own
/// page order preserved within its segment; exactly one catalog and one page
/// collection survive; the output's id space is compact and collision-free.
pub fn merge_documents(docs: &Vec<PdfDoc>) -> (r: Result<MergedDoc, MergeError>)
    ensures
        r is Ok <==> merge_ok_v(doc_views(docs@)),
        r matches Ok(m) ==> m@ == merge_result_v(doc_views(docs@)),
        r matches Err(e) ==> e == merge_error_v(doc_views(docs@)),
{
    let ghost dvs = doc_views(docs@);
    if docs.len() < 2 {
        return Err(MergeError::InputError);
    }

    // Renumber each document by the running offset and accumulate its
    // objects and its ordered pages.
    let mut merged: Vec<(ObjId, Obj)> = Vec::new();
    let mut pairs: Vec<(ObjId, Dict)> = Vec::new();
    let mut off: u64 = 0;
    let mut i: usize = 0;
    while i < docs.len()
        invariant
            2 <= docs.len(),
            i <= docs.len(),
            dvs == doc_views(docs@),
            dvs.len() == docs.len(),
            forall|j: int| 0 <= j < docs.len() ==> dvs[j] == docs@[j]@,
            off == offset_of(dvs, i as int),
            off <= u32::MAX as u64 + 1,
            forall|j: int| 0 <= j < i ==> offset_of(dvs, j) + dvs[j].max_id <= u32::MAX,
            forall|j: int| 0 <= j < i ==> doc_ids_bounded(dvs[j]),
            objmap_view(merged@) == accum_objects(dvs, i as int),
            pagelist_view(pairs@) == accum_pairs(dvs, i as int),
        decreases docs.len() - i,
    {
        let d = &docs[i];
        if off + (d.max_id as u64) > u32::MAX as u64 {
            proof {
                assert(offset_of(dvs, i as int) + dvs[i as int].max_id > u32::MAX);
                assert(!offsets_fit(dvs));
            }
            return Err(MergeError::StructuralError);
        }
        let off32 = off as u32;
        match renumber_doc(d, off32) {
            Ok(mut sd) => {
                let mut ps = page_pairs(&sd);
                proof {
                    lemma_objmap_view(merged@);
                    lemma_objmap_view(sd.objects@);
                    lemma_pagelist_view(pairs@);
                    lemma_pagelist_view(ps@);
                }
                let ghost old_merged = merged@;
                let ghost old_pairs = pairs@;
                merged.append(&mut sd.objects);
                pairs.append(&mut ps);
                proof {
                    lemma_objmap_view(merged@);
                    lemma_pagelist_view(pairs@);
                    assert(objmap_view(merged@) =~= accum_objects(dvs, i + 1));
                    assert(pagelist_view(pairs@) =~= accum_pairs(dvs, i + 1));
                }
            },
            Err(e) => {
                proof {
                    assert(!doc_ids_bounded(dvs[i as int]));
                    assert(!all_ids_bounded(dvs));
                }
                return Err(e);
            },
        }
        off = off + (d.max_id as u64) + 1;
        i += 1;
    }

    // Classify the accumulated map; the hard absences abort the call.
    proof {
        lemma_pagelist_view(pairs@);
    }
    let ghost clv = classify_v(accum_objects(dvs, dvs.len() as int));
    let cl = classify(merged);
    let Classified { catalog, pages, rest } = cl;
    let (pages_id, pages_dict) = match pages {
        Some(p) => p,
        None => {
            return Err(MergeError::StructuralError);
        },
    };
    let (catalog_id, catalog_dict) = match catalog {
        Some(c) => c,
        None => {
            return Err(MergeError::StructuralError);
        },
    };

    // The output id space must fit in object numbers.
    if (pairs.len() as u64) > u32::MAX as u64 {
        return Err(MergeError::StructuralError);
    }
    let ghost pairsv = pagelist_view(pairs@);
    let ghost pdv = pages_dict@;
    let ghost cdv = catalog_dict@;
    proof {
        assert(clv.pages == Some((pages_id, pdv)));
        assert(clv.catalog == Some((catalog_id, cdv)));
    }
    let built = build_document(rest, pairs, pages_id, pages_dict, catalog_id, catalog_dict);
    proof {
        assert(objmap_view(built@) == built_of(dvs));
        lemma_objmap_view(built@);
    }
    if (built.len() as u64) > u32::MAX as u64 {
        return Err(MergeError::StructuralError);
    }
    proof {
        lemma_map_set_find(
            crate::graph::map_set(
                crate::tree::insert_pages_v(clv.rest, pairsv, pages_id),
                pages_id,
                ObjV::Dict(crate::tree::pages_entries_v(pdv, pairsv)),
            ),
            catalog_id,
            ObjV::Dict(crate::tree::catalog_entries_v(cdv, pages_id)),
        );
    }
    let m = compact_document(built, catalog_id);
    Ok(m)
}

/// Whether every buffer parses.
pub open spec fn all_parse_ok(raws: Seq<Vec<u8>>) -> bool {
    forall|i: int| 0 <= i < raws.len() ==> parse_ok(raws[i]@)
}

/// The parsed views of a list of buffers.
pub open spec fn parsed_views(raws: Seq<Vec<u8>>) -> Seq<PdfDocV> {
    Seq::new(raws.len(), |i: int| parse_of(raws[i]@))
}

/// Merges an ordered list of raw documents into one raw document.
///
/// The call is pure and synchronous: the output bytes are a function of the
/// input buffers alone.  Fewer than two buffers fail with `InputError`; a
/// buffer that does not parse fails the whole call with `ParseError`; the
/// structural absences and inconsistencies of `merge_documents` fail with
/// `StructuralError`; a failing final encode fails with
/// `SerializationError`.  No partial output is ever produced.
pub fn merge(raw_documents: &Vec<Vec<u8>>) -> (r: Result<Vec<u8>, MergeError>)
    ensures
        raw_documents@.len() < 2 ==> r == Err::<Vec<u8>, MergeError>(MergeError::InputError),
        raw_documents@.len() >= 2 && !all_parse_ok(raw_documents@) ==> r == Err::<
            Vec<u8>,
            MergeError,
        >(MergeError::ParseError),
        raw_documents@.len() >= 2 && all_parse_ok(raw_documents@) ==> {
            let docs = parsed_views(raw_documents@);
            &&& (r is Ok <==> merge_ok_v(docs) && serialize_ok(merge_result_v(docs)))
            &&& (r matches Ok(bytes) ==> bytes@ == serialized(merge_result_v(docs)))
            &&& (!merge_ok_v(docs) ==> r == Err::<Vec<u8>, MergeError>(
                MergeError::StructuralError,
            ))
            &&& (merge_ok_v(docs) && !serialize_ok(merge_result_v(docs)) ==> r == Err::<
                Vec<u8>,
                MergeError,
            >(MergeError::SerializationError))
        },
{
    let ghost raws = raw_documents@;
    if raw_documents.len() < 2 {
        return Err(MergeError::InputError);
    }
    let mut docs: Vec<PdfDoc> = Vec::new();
    let mut i: usize = 0;
    while i < raw_documents.len()
        invariant
            i <= raw_documents.len(),
            raws == raw_documents@,
            raws.len() >= 2,
            docs@.len() == i,
            forall|j: int| 0 <= j < i ==> parse_ok(raws[j]@),
            forall|j: int| 0 <= j < i ==> docs@[j]@ == parse_of(raws[j]@),
        decreases raw_documents.len() - i,
    {
        match parse_document(&raw_documents[i]) {
            Some(d) => {
                docs.push(d);
            },
            None => {
                proof {
                    assert(!parse_ok(raws[i as int]@));
                    assert(!all_parse_ok(raws));
                }
                return Err(MergeError::ParseError);
            },
        }
        i += 1;
    }
    proof {
        assert(all_parse_ok(raws));
        assert(doc_views(docs@) =~= parsed_views(raws));
    }
    let merged = match merge_documents(&docs) {
        Ok(m) => m,
        Err(e) => {
            return Err(e);
        },
    };
    match serialize_document(&merged) {
        Some(bytes) => Ok(bytes),
        None => Err(MergeError::SerializationError),
    }
}

} // verus!
