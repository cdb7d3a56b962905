//! The structural classifier.
//!
//! Every object of the accumulated merged map is tagged by its declared role.
//! Exactly one catalog survives: the first one encountered, later ones are
//! dropped entirely.  All page-collection nodes are folded into one: the
//! first one's id is kept, and later nodes' entries overwrite earlier ones
//! (their page lists and counts are rebuilt from scratch afterwards).  Page
//! objects are dropped here — the page tree builder re-inserts them from the
//! ordered page list.  Everything else passes through unchanged.

use vstd::prelude::*;
use vstd::pervasive::VecAdditionalExecFns;
use crate::model::{
    byte_eq, dict_set_v, key_catalog, key_page, key_pages, key_type, k_catalog, k_page, k_pages,
    k_type, lemma_objmap_view, marker_v, obj_view, objmap_view, Dict, Obj, ObjId, ObjV,
};

verus! {

/// The role an object declares through its type marker.
#[derive(Clone, Copy, PartialEq, Eq, Structural, Debug)]
pub enum Role {
    /// A document root.
    Catalog,
    /// A page-collection node.
    Pages,
    /// A single page.
    Page,
    /// Anything else: passed through unchanged.
    Other,
}

/// The role of an object's value.
pub open spec fn role_v(o: ObjV) -> Role {
    match marker_v(o) {
        Some(m) => if m == k_catalog() {
            Role::Catalog
        } else if m == k_pages() {
            Role::Pages
        } else if m == k_page() {
            Role::Page
        } else {
            Role::Other
        },
        None => Role::Other,
    }
}

/// The entries of a dictionary value.
pub open spec fn dict_entries_v(o: ObjV) -> Seq<(Seq<u8>, ObjV)> {
    match o {
        ObjV::Dict(es) => es,
        _ => Seq::<(Seq<u8>, ObjV)>::empty(),
    }
}

/// Entries folded over a base dictionary, in order: each entry of `es`
/// overwrites the binding of its name in `acc`.
pub open spec fn fold_entries(
    acc: Seq<(Seq<u8>, ObjV)>,
    es: Seq<(Seq<u8>, ObjV)>,
) -> Seq<(Seq<u8>, ObjV)>
    decreases es.len(),
{
    if es.len() == 0 {
        acc
    } else {
        dict_set_v(fold_entries(acc, es.drop_last()), es.last().0, es.last().1)
    }
}

/// What classification has produced: the kept catalog, the kept page
/// collection, and the passthrough objects, in their order.
#[verifier::ext_equal]
pub ghost struct ClassifiedV {
    pub catalog: Option<(ObjId, Seq<(Seq<u8>, ObjV)>)>,
    pub pages: Option<(ObjId, Seq<(Seq<u8>, ObjV)>)>,
    pub rest: Seq<(ObjId, ObjV)>,
}

/// One classification step.
pub open spec fn classify_step(c: ClassifiedV, id: ObjId, o: ObjV) -> ClassifiedV {
    if role_v(o) == Role::Catalog {
        if c.catalog is None {
            ClassifiedV { catalog: Some((id, dict_entries_v(o))), pages: c.pages, rest: c.rest }
        } else {
            c
        }
    } else if role_v(o) == Role::Pages {
        match c.pages {
            None => ClassifiedV {
                catalog: c.catalog,
                pages: Some((id, dict_entries_v(o))),
                rest: c.rest,
            },
            Some((pid, acc)) => ClassifiedV {
                catalog: c.catalog,
                pages: Some((pid, fold_entries(acc, dict_entries_v(o)))),
                rest: c.rest,
            },
        }
    } else if role_v(o) == Role::Page {
        c
    } else {
        ClassifiedV { catalog: c.catalog, pages: c.pages, rest: c.rest.push((id, o)) }
    }
}

/// The classification of a whole object map, in its order.
pub open spec fn classify_v(s: Seq<(ObjId, ObjV)>) -> ClassifiedV
    decreases s.len(),
{
    if s.len() == 0 {
        ClassifiedV { catalog: None, pages: None, rest: Seq::<(ObjId, ObjV)>::empty() }
    } else {
        classify_step(classify_v(s.drop_last()), s.last().0, s.last().1)
    }
}

/// The classifier's output.
pub struct Classified {
    /// The first catalog encountered, if any, with its id.
    pub catalog: Option<(ObjId, Dict)>,
    /// The folded page collection, under the first collection's id.
    pub pages: Option<(ObjId, Dict)>,
    /// The passthrough objects, in their order.
    pub rest: Vec<(ObjId, Obj)>,
}

impl View for Classified {
    type V = ClassifiedV;

    open spec fn view(&self) -> ClassifiedV {
        ClassifiedV {
            catalog: match self.catalog {
                Some((id, d)) => Some((id, d@)),
                None => None,
            },
            pages: match self.pages {
                Some((id, d)) => Some((id, d@)),
                None => None,
            },
            rest: objmap_view(self.rest@),
        }
    }
}

/// The view of an object is a dictionary value exactly when the object is
/// a dictionary; anything else declares no role.
proof fn lemma_view_variant(o: Obj)
    ensures
        (obj_view(o) is Dict) == (o is Dict),
        !(o is Dict) ==> role_v(obj_view(o)) == Role::Other,
{
    match o {
        Obj::Null => {},
        Obj::Boolean(_) => {},
        Obj::Integer(_) => {},
        Obj::Real(_) => {},
        Obj::Name(_) => {},
        Obj::Text { .. } => {},
        Obj::Array(_) => {},
        Obj::Dict(_) => {},
        Obj::Stream { .. } => {},
        Obj::Ref(_) => {},
    }
}

/// Reads the role a dictionary declares.
pub fn dict_role(d: &Dict) -> (r: Role)
    ensures
        r == role_v(ObjV::Dict(d@)),
{
    let tk = key_type();
    match d.get(&tk) {
        Some(t) => match t {
            Obj::Name(n) => {
                let kc = key_catalog();
                if byte_eq(n, &kc) {
                    Role::Catalog
                } else {
                    let kp = key_pages();
                    if byte_eq(n, &kp) {
                        Role::Pages
                    } else {
                        let kg = key_page();
                        if byte_eq(n, &kg) {
                            Role::Page
                        } else {
                            Role::Other
                        }
                    }
                }
            },
            _ => Role::Other,
        },
        None => Role::Other,
    }
}

/// Folds the entries of `extra` into `acc`, in order: every entry of
/// `extra` overwrites the binding of its name.
fn fold_into(acc: &mut Dict, extra: Dict)
    ensures
        final(acc)@ == fold_entries(old(acc)@, extra@),
{
    let ghost base = old(acc)@;
    let ghost ev = extra@;
    let Dict { entries } = extra;
    proof {
        crate::model::lemma_entries_view(entries@);
    }
    let ghost orig = entries@;
    let mut work = entries;
    let mut i: usize = 0;
    while i < work.len()
        invariant
            i <= work.len(),
            work@.len() == orig.len(),
            forall|j: int| i <= j < orig.len() ==> work@[j] == orig[j],
            ev.len() == orig.len(),
            forall|j: int| 0 <= j < orig.len() ==> ev[j] == (orig[j].0@, obj_view(orig[j].1)),
            acc@ == fold_entries(base, ev.take(i as int)),
        decreases work.len() - i,
    {
        let mut tmp = (Vec::<u8>::new(), Obj::Null);
        work.set_and_swap(i, &mut tmp);
        let (name, value) = tmp;
        proof {
            assert(ev.take(i + 1).drop_last() =~= ev.take(i as int));
            assert(ev.take(i + 1).last() == ev[i as int]);
        }
        acc.set(name, value);
        i += 1;
    }
    proof {
        assert(ev.take(orig.len() as int) =~= ev);
    }
}

/// Classifies every object of the merged map, in order.
pub fn classify(merged: Vec<(ObjId, Obj)>) -> (r: Classified)
    ensures
        r@ == classify_v(objmap_view(merged@)),
{
    let ghost mv = objmap_view(merged@);
    proof {
        lemma_objmap_view(merged@);
    }
    let mut work = merged;
    let mut catalog: Option<(ObjId, Dict)> = None;
    let mut pages: Option<(ObjId, Dict)> = None;
    let mut rest: Vec<(ObjId, Obj)> = Vec::new();
    let mut i: usize = 0;
    while i < work.len()
        invariant
            i <= work.len(),
            work@.len() == mv.len(),
            forall|j: int| i <= j < mv.len() ==> (work@[j].0, obj_view(work@[j].1)) == mv[j],
            match catalog {
                Some((cid, cd)) => classify_v(mv.take(i as int)).catalog == Some((cid, cd@)),
                None => classify_v(mv.take(i as int)).catalog is None,
            },
            match pages {
                Some((pid, pd)) => classify_v(mv.take(i as int)).pages == Some((pid, pd@)),
                None => classify_v(mv.take(i as int)).pages is None,
            },
            objmap_view(rest@) == classify_v(mv.take(i as int)).rest,
        decreases work.len() - i,
    {
        let mut tmp = (ObjId { num: 0, gen: 0 }, Obj::Null);
        work.set_and_swap(i, &mut tmp);
        let (id, o) = tmp;
        proof {
            assert((id, obj_view(o)) == mv[i as int]);
            assert(mv.take(i + 1).drop_last() =~= mv.take(i as int));
            assert(mv.take(i + 1).last() == mv[i as int]);
        }
        let ghost prev = classify_v(mv.take(i as int));
        match o {
            Obj::Dict(d) => {
                let role = dict_role(&d);
                if matches!(role, Role::Catalog) {
                    if catalog.is_none() {
                        catalog = Some((id, d));
                    }
                } else if matches!(role, Role::Pages) {
                    pages = match pages {
                        None => Some((id, d)),
                        Some((pid, mut acc)) => {
                            fold_into(&mut acc, d);
                            Some((pid, acc))
                        },
                    };
                } else if matches!(role, Role::Page) {
                    // Dropped: the page tree builder re-inserts every page
                    // from the ordered page list.
                } else {
                    proof {
                        assert(obj_view(o) == ObjV::Dict(d@));
                        assert(role_v(mv[i as int].1) == Role::Other);
                        lemma_objmap_view(rest@);
                    }
                    rest.push((id, Obj::Dict(d)));
                    proof {
                        lemma_objmap_view(rest@);
                        assert(objmap_view(rest@) =~= classify_v(mv.take(i + 1)).rest);
                    }
                }
            },
            other => {
                proof {
                    lemma_view_variant(other);
                    assert(role_v(mv[i as int].1) == Role::Other);
                    lemma_objmap_view(rest@);
                }
                rest.push((id, other));
                proof {
                    lemma_objmap_view(rest@);
                    assert(objmap_view(rest@) =~= classify_v(mv.take(i + 1)).rest);
                }
            },
        }
        i += 1;
    }
    proof {
        assert(mv.take(mv.len() as int) =~= mv);
    }
    Classified { catalog, pages, rest }
}

} // verus!
