//! The in-memory model of a document's object graph.
//!
//! A document is a mapping from object identifiers to objects, together with
//! the document's own page order and a maximum-id watermark.  Objects form a
//! tagged union over dictionaries, arrays, references, streams and primitive
//! values; dictionaries are ordered name-to-object mappings.  Every type here
//! has a mathematical view (`ObjV` and sequences of entries) that the
//! contracts of the merge pipeline are stated over.

use vstd::prelude::*;

verus! {

/// The identifier of one object: an object number and a generation number.
/// Ids are unique within a document before a merge and unique within the
/// output after it; the output fixes the generation to 0.
#[derive(Clone, Copy, PartialEq, Eq, Structural, Debug)]
pub struct ObjId {
    pub num: u32,
    pub gen: u16,
}

impl ObjId {
    /// The total order on identifiers: by object number, then generation.
    pub open spec fn key(self) -> int {
        self.num * 0x1_0000 + self.gen
    }
}

/// A PDF object: the tagged union over primitive and structured values.
///
/// A real number is carried opaquely as its shortest decimal text, which
/// reads back to the same number, so the graph can be rebuilt exactly; the
/// merge never interprets it.
/// `Text` carries a string's bytes and whether it was written hexadecimal.
/// A stream keeps its dictionary, its raw payload, and whether the payload
/// may be compressed when the document is written out.
pub enum Obj {
    Null,
    Boolean(bool),
    Integer(i64),
    Real(Vec<u8>),
    Name(Vec<u8>),
    Text { bytes: Vec<u8>, hex: bool },
    Array(Vec<Obj>),
    Dict(Dict),
    Stream { dict: Dict, content: Vec<u8>, compressible: bool },
    Ref(ObjId),
}

/// A dictionary: an ordered sequence of name-to-object entries.
pub struct Dict {
    pub entries: Vec<(Vec<u8>, Obj)>,
}

/// The mathematical value of an object, with sequences in place of vectors.
#[verifier::ext_equal]
pub ghost enum ObjV {
    Null,
    Boolean(bool),
    Integer(i64),
    Real(Seq<u8>),
    Name(Seq<u8>),
    Text { bytes: Seq<u8>, hex: bool },
    Array(Seq<ObjV>),
    Dict(Seq<(Seq<u8>, ObjV)>),
    Stream { dict: Seq<(Seq<u8>, ObjV)>, content: Seq<u8>, compressible: bool },
    Ref(ObjId),
}

/// The view of a sequence of dictionary entries.
pub open spec fn entries_view(es: Seq<(Vec<u8>, Obj)>) -> Seq<(Seq<u8>, ObjV)>
    decreases es,
{
    if es.len() == 0 {
        Seq::<(Seq<u8>, ObjV)>::empty()
    } else {
        entries_view(es.drop_last()).push((es.last().0@, obj_view(es.last().1)))
    }
}

/// The view of a sequence of array elements.
pub open spec fn items_view(items: Seq<Obj>) -> Seq<ObjV>
    decreases items,
{
    if items.len() == 0 {
        Seq::<ObjV>::empty()
    } else {
        items_view(items.drop_last()).push(obj_view(items.last()))
    }
}

/// The view of one object.
pub open spec fn obj_view(o: Obj) -> ObjV
    decreases o,
{
    match o {
        Obj::Null => ObjV::Null,
        Obj::Boolean(b) => ObjV::Boolean(b),
        Obj::Integer(i) => ObjV::Integer(i),
        Obj::Real(t) => ObjV::Real(t@),
        Obj::Name(n) => ObjV::Name(n@),
        Obj::Text { bytes, hex } => ObjV::Text { bytes: bytes@, hex },
        Obj::Array(items) => ObjV::Array(items_view(items@)),
        Obj::Dict(d) => ObjV::Dict(entries_view(d.entries@)),
        Obj::Stream { dict, content, compressible } => ObjV::Stream {
            dict: entries_view(dict.entries@),
            content: content@,
            compressible,
        },
        Obj::Ref(id) => ObjV::Ref(id),
    }
}

/// Pointwise description of `entries_view`.
pub broadcast proof fn lemma_entries_view(es: Seq<(Vec<u8>, Obj)>)
    ensures
        (#[trigger] entries_view(es)).len() == es.len(),
        forall|i: int| 0 <= i < es.len() ==> entries_view(es)[i] == (es[i].0@, obj_view(es[i].1)),
    decreases es,
{
    if es.len() > 0 {
        lemma_entries_view(es.drop_last());
    }
}

/// Pointwise description of `items_view`.
pub broadcast proof fn lemma_items_view(items: Seq<Obj>)
    ensures
        (#[trigger] items_view(items)).len() == items.len(),
        forall|i: int| 0 <= i < items.len() ==> items_view(items)[i] == obj_view(items[i]),
    decreases items,
{
    if items.len() > 0 {
        lemma_items_view(items.drop_last());
    }
}

impl View for Obj {
    type V = ObjV;

    open spec fn view(&self) -> ObjV {
        obj_view(*self)
    }
}

impl View for Dict {
    type V = Seq<(Seq<u8>, ObjV)>;

    open spec fn view(&self) -> Seq<(Seq<u8>, ObjV)> {
        entries_view(self.entries@)
    }
}

// The well-known dictionary names that the merge reads and writes.

/// The name under which an object declares its role.
pub open spec fn k_type() -> Seq<u8> {
    seq![84u8, 121u8, 112u8, 101u8]
}

/// The role of a document's root object.
pub open spec fn k_catalog() -> Seq<u8> {
    seq![67u8, 97u8, 116u8, 97u8, 108u8, 111u8, 103u8]
}

/// The role of a page-collection node.
pub open spec fn k_pages() -> Seq<u8> {
    seq![80u8, 97u8, 103u8, 101u8, 115u8]
}

/// The role of a single page.
pub open spec fn k_page() -> Seq<u8> {
    seq![80u8, 97u8, 103u8, 101u8]
}

/// The name of a page's pointer to its page collection.
pub open spec fn k_parent() -> Seq<u8> {
    seq![80u8, 97u8, 114u8, 101u8, 110u8, 116u8]
}

/// The name of a page collection's ordered list of page references.
pub open spec fn k_kids() -> Seq<u8> {
    seq![75u8, 105u8, 100u8, 115u8]
}

/// The name of a page collection's page count.
pub open spec fn k_count() -> Seq<u8> {
    seq![67u8, 111u8, 117u8, 110u8, 116u8]
}

/// The name of a catalog's outline tree, dropped by the merge.
pub open spec fn k_outlines() -> Seq<u8> {
    seq![79u8, 117u8, 116u8, 108u8, 105u8, 110u8, 101u8, 115u8]
}

/// Builds the `Type` name.
pub fn key_type() -> (r: Vec<u8>)
    ensures
        r@ == k_type(),
{
    let r = vec![84u8, 121u8, 112u8, 101u8];
    proof {
        assert(r@ =~= k_type());
    }
    r
}

/// Builds the `Catalog` name.
pub fn key_catalog() -> (r: Vec<u8>)
    ensures
        r@ == k_catalog(),
{
    let r = vec![67u8, 97u8, 116u8, 97u8, 108u8, 111u8, 103u8];
    proof {
        assert(r@ =~= k_catalog());
    }
    r
}

/// Builds the `Pages` name.
pub fn key_pages() -> (r: Vec<u8>)
    ensures
        r@ == k_pages(),
{
    let r = vec![80u8, 97u8, 103u8, 101u8, 115u8];
    proof {
        assert(r@ =~= k_pages());
    }
    r
}

/// Builds the `Page` name.
pub fn key_page() -> (r: Vec<u8>)
    ensures
        r@ == k_page(),
{
    let r = vec![80u8, 97u8, 103u8, 101u8];
    proof {
        assert(r@ =~= k_page());
    }
    r
}

/// Builds the `Parent` name.
pub fn key_parent() -> (r: Vec<u8>)
    ensures
        r@ == k_parent(),
{
    let r = vec![80u8, 97u8, 114u8, 101u8, 110u8, 116u8];
    proof {
        assert(r@ =~= k_parent());
    }
    r
}

/// Builds the `Kids` name.
pub fn key_kids() -> (r: Vec<u8>)
    ensures
        r@ == k_kids(),
{
    let r = vec![75u8, 105u8, 100u8, 115u8];
    proof {
        assert(r@ =~= k_kids());
    }
    r
}

/// Builds the `Count` name.
pub fn key_count() -> (r: Vec<u8>)
    ensures
        r@ == k_count(),
{
    let r = vec![67u8, 111u8, 117u8, 110u8, 116u8];
    proof {
        assert(r@ =~= k_count());
    }
    r
}

/// Builds the `Outlines` name.
pub fn key_outlines() -> (r: Vec<u8>)
    ensures
        r@ == k_outlines(),
{
    let r = vec![79u8, 117u8, 116u8, 108u8, 105u8, 110u8, 101u8, 115u8];
    proof {
        assert(r@ =~= k_outlines());
    }
    r
}

/// Copies a byte string.
pub fn clone_bytes(v: &Vec<u8>) -> (r: Vec<u8>)
    ensures
        r@ == v@,
{
    let r = v.clone();
    proof {
        assert(r@ =~= v@);
    }
    r
}

/// Decides equality of two byte strings.
pub fn byte_eq(a: &Vec<u8>, b: &Vec<u8>) -> (r: bool)
    ensures
        r == (a@ == b@),
{
    if a.len() != b.len() {
        return false;
    }
    let mut i: usize = 0;
    while i < a.len()
        invariant
            i <= a.len(),
            a.len() == b.len(),
            forall|j: int| 0 <= j < i ==> a@[j] == b@[j],
        decreases a.len() - i,
    {
        if a[i] != b[i] {
            return false;
        }
        i += 1;
    }
    proof {
        assert(a@ =~= b@);
    }
    true
}

// Dictionary lookup, update and removal, at the level of views.  A parsed
// dictionary is not assumed to have unique names: a lookup takes the first
// entry with the name, an update rewrites that entry, and a removal drops
// every entry with the name.

/// The first index whose name equals `k`, or the number of entries.
pub open spec fn dict_find(es: Seq<(Seq<u8>, ObjV)>, k: Seq<u8>) -> int
    decreases es.len(),
{
    if es.len() == 0 {
        0
    } else if es[0].0 == k {
        0
    } else {
        1 + dict_find(es.subrange(1, es.len() as int), k)
    }
}

/// `dict_find` names the first matching entry.
pub proof fn lemma_dict_find(es: Seq<(Seq<u8>, ObjV)>, k: Seq<u8>)
    ensures
        0 <= dict_find(es, k) <= es.len(),
        forall|j: int| 0 <= j < dict_find(es, k) ==> es[j].0 != k,
        dict_find(es, k) < es.len() ==> es[dict_find(es, k)].0 == k,
    decreases es.len(),
{
    if es.len() > 0 && es[0].0 != k {
        let tail = es.subrange(1, es.len() as int);
        lemma_dict_find(tail, k);
        assert forall|j: int| 0 <= j < dict_find(es, k) implies es[j].0 != k by {
            if j > 0 {
                assert(es[j] == tail[j - 1]);
            }
        }
    }
}

/// The value at the first entry named `k`, if any.
pub open spec fn dict_get_v(es: Seq<(Seq<u8>, ObjV)>, k: Seq<u8>) -> Option<ObjV> {
    if dict_find(es, k) < es.len() {
        Some(es[dict_find(es, k)].1)
    } else {
        None
    }
}

/// The entries after binding `k` to `v`: the first entry named `k` is
/// rewritten in place, or the binding is appended at the end.
pub open spec fn dict_set_v(es: Seq<(Seq<u8>, ObjV)>, k: Seq<u8>, v: ObjV) -> Seq<(Seq<u8>, ObjV)> {
    if dict_find(es, k) < es.len() {
        es.update(dict_find(es, k), (k, v))
    } else {
        es.push((k, v))
    }
}

/// The entries with every entry named `k` removed, in their order.
pub open spec fn dict_remove_v(es: Seq<(Seq<u8>, ObjV)>, k: Seq<u8>) -> Seq<(Seq<u8>, ObjV)>
    decreases es.len(),
{
    if es.len() == 0 {
        Seq::<(Seq<u8>, ObjV)>::empty()
    } else {
        let r = dict_remove_v(es.drop_last(), k);
        if es.last().0 == k {
            r
        } else {
            r.push(es.last())
        }
    }
}

/// `dict_find` looks only at names: name-equal entry lists find alike.
pub proof fn lemma_dict_find_same_keys(
    s: Seq<(Seq<u8>, ObjV)>,
    t: Seq<(Seq<u8>, ObjV)>,
    k: Seq<u8>,
)
    requires
        s.len() == t.len(),
        forall|j: int| 0 <= j < s.len() ==> s[j].0 == t[j].0,
    ensures
        dict_find(s, k) == dict_find(t, k),
    decreases s.len(),
{
    if s.len() > 0 && s[0].0 != k {
        let st = s.subrange(1, s.len() as int);
        let tt = t.subrange(1, t.len() as int);
        assert forall|j: int| 0 <= j < st.len() implies st[j].0 == tt[j].0 by {
            assert(st[j] == s[j + 1]);
            assert(tt[j] == t[j + 1]);
        }
        lemma_dict_find_same_keys(st, tt, k);
    }
}

/// After a binding, the name holds exactly the bound value.
pub proof fn lemma_dict_set_get(es: Seq<(Seq<u8>, ObjV)>, k: Seq<u8>, v: ObjV)
    ensures
        dict_get_v(dict_set_v(es, k, v), k) == Some(v),
{
    let t = dict_set_v(es, k, v);
    lemma_dict_find(es, k);
    lemma_dict_find(t, k);
    let f = dict_find(es, k);
    if f < es.len() {
        assert(t[f].0 == k);
        let g = dict_find(t, k);
        if g < f {
            assert(t[g].0 == k);
            assert(t[g] == es[g]);
            assert(es[g].0 == k);
        }
        assert(g == f);
    } else {
        assert(t[es.len() as int].0 == k);
        let g = dict_find(t, k);
        if g < es.len() {
            assert(t[g].0 == k);
            assert(es[g].0 == k);
        }
        assert(g == es.len());
    }
}

/// A binding leaves every other name's value as it was.
pub proof fn lemma_dict_set_get_other(es: Seq<(Seq<u8>, ObjV)>, k: Seq<u8>, v: ObjV, k2: Seq<u8>)
    requires
        k2 != k,
    ensures
        dict_get_v(dict_set_v(es, k, v), k2) == dict_get_v(es, k2),
{
    let t = dict_set_v(es, k, v);
    lemma_dict_find(es, k);
    let f = dict_find(es, k);
    if f < es.len() {
        assert forall|j: int| 0 <= j < es.len() implies es[j].0 == t[j].0 by {}
        lemma_dict_find_same_keys(es, t, k2);
        lemma_dict_find(es, k2);
        let g = dict_find(es, k2);
        if g < es.len() {
            assert(t[g].0 == k2);
            assert(g != f);
            assert(t[g] == es[g]);
        }
    } else {
        lemma_dict_find(es, k2);
        lemma_dict_find(t, k2);
        let g = dict_find(es, k2);
        let h = dict_find(t, k2);
        if g < es.len() {
            // Found before the appended entry: unchanged.
            assert(t[g].0 == k2);
            if h < g {
                assert(t[h].0 == k2);
                assert(es[h].0 == k2);
            }
            if h > g {
                assert(t[g].0 != k2);
            }
            assert(h == g);
            assert(t[g] == es[g]);
        } else {
            // Not in the old entries; the appended name differs too.
            if h < t.len() {
                assert(t[h].0 == k2);
                if h < es.len() {
                    assert(es[h].0 == k2);
                }
                assert(h == es.len());
                assert(t[h].0 == k);
            }
        }
    }
}

/// Removing one name leaves every other name's value as it was.
pub proof fn lemma_dict_remove_get_other(es: Seq<(Seq<u8>, ObjV)>, k: Seq<u8>, k2: Seq<u8>)
    requires
        k2 != k,
    ensures
        dict_get_v(dict_remove_v(es, k), k2) == dict_get_v(es, k2),
    decreases es.len(),
{
    if es.len() > 0 {
        lemma_dict_remove_get_other(es.drop_last(), k, k2);
        let r = dict_remove_v(es.drop_last(), k);
        assert(es =~= es.drop_last().push(es.last()));
        lemma_dict_get_push(r, es.last(), k2);
        lemma_dict_get_push(es.drop_last(), es.last(), k2);
        assert(dict_get_v(es, k2) == dict_get_v(es.drop_last().push(es.last()), k2));
    }
}

/// Looking a name up in a pushed entry list: the old binding wins, else the
/// new entry answers.
pub proof fn lemma_dict_get_push(es: Seq<(Seq<u8>, ObjV)>, e: (Seq<u8>, ObjV), k: Seq<u8>)
    ensures
        dict_get_v(es.push(e), k) == if dict_get_v(es, k) is Some {
            dict_get_v(es, k)
        } else if e.0 == k {
            Some(e.1)
        } else {
            None
        },
{
    let t = es.push(e);
    lemma_dict_find(es, k);
    lemma_dict_find(t, k);
    let f = dict_find(es, k);
    let g = dict_find(t, k);
    if f < es.len() {
        assert(t[f].0 == k);
        if g < f {
            assert(t[g].0 == k);
            assert(es[g].0 == k);
        }
        assert(g == f);
        assert(t[f] == es[f]);
    } else {
        if e.0 == k {
            assert(t[es.len() as int].0 == k);
            if g < es.len() {
                assert(t[g].0 == k);
                assert(es[g].0 == k);
            }
            assert(g == es.len());
        } else {
            if g < t.len() {
                assert(t[g].0 == k);
                if g < es.len() {
                    assert(es[g].0 == k);
                }
                assert(g == es.len());
                assert(t[g].0 == e.0);
            }
        }
    }
}

/// After a removal, the name is gone.
pub proof fn lemma_dict_remove_get_none(es: Seq<(Seq<u8>, ObjV)>, k: Seq<u8>)
    ensures
        dict_get_v(dict_remove_v(es, k), k) is None,
    decreases es.len(),
{
    if es.len() > 0 {
        lemma_dict_remove_get_none(es.drop_last(), k);
        let r = dict_remove_v(es.drop_last(), k);
        if es.last().0 != k {
            lemma_dict_get_push(r, es.last(), k);
        }
    }
}

impl Dict {
    /// An empty dictionary.
    pub fn empty() -> (r: Dict)
        ensures
            r@ == Seq::<(Seq<u8>, ObjV)>::empty(),
    {
        Dict { entries: Vec::new() }
    }

    /// The first index whose name equals `key`, or the number of entries.
    pub fn find(&self, key: &Vec<u8>) -> (i: usize)
        ensures
            i == dict_find(self@, key@),
            i <= self.entries.len(),
            self@.len() == self.entries.len(),
    {
        proof {
            lemma_entries_view(self.entries@);
            lemma_dict_find(self@, key@);
        }
        let mut i: usize = 0;
        while i < self.entries.len()
            invariant
                i <= self.entries.len(),
                self@.len() == self.entries.len(),
                forall|j: int| 0 <= j < i ==> self@[j].0 != key@,
                forall|j: int| 0 <= j < self.entries.len() ==> self@[j].0 == self.entries@[j].0@,
                0 <= dict_find(self@, key@) <= self@.len(),
                forall|j: int| 0 <= j < dict_find(self@, key@) ==> self@[j].0 != key@,
                dict_find(self@, key@) < self@.len() ==> self@[dict_find(self@, key@)].0
                    == key@,
            decreases self.entries.len() - i,
        {
            if byte_eq(&self.entries[i].0, key) {
                proof {
                    let f = dict_find(self@, key@);
                    assert(self@[i as int].0 == key@);
                    if f < i {
                        assert(self@[f].0 == key@);
                    }
                }
                return i;
            }
            i += 1;
        }
        i
    }

    /// The object at the first entry named `key`, if any.
    pub fn get(&self, key: &Vec<u8>) -> (r: Option<&Obj>)
        ensures
            match r {
                Some(o) => dict_get_v(self@, key@) == Some(obj_view(*o)),
                None => dict_get_v(self@, key@) is None,
            },
    {
        proof {
            lemma_entries_view(self.entries@);
        }
        let i = self.find(key);
        if i < self.entries.len() {
            Some(&self.entries[i].1)
        } else {
            None
        }
    }

    /// Binds `key` to `value`: rewrites the first entry with that name, or
    /// appends the binding.
    pub fn set(&mut self, key: Vec<u8>, value: Obj)
        ensures
            final(self)@ == dict_set_v(old(self)@, key@, obj_view(value)),
    {
        let ghost kv = key@;
        let ghost vv = obj_view(value);
        let ghost old_es = self.entries@;
        let i = self.find(&key);
        if i < self.entries.len() {
            self.entries.set(i, (key, value));
            proof {
                lemma_entries_view(old_es);
                lemma_entries_view(self.entries@);
                assert(self@ =~= entries_view(old_es).update(i as int, (kv, vv)));
            }
        } else {
            self.entries.push((key, value));
            proof {
                assert(self.entries@.drop_last() =~= old_es);
                assert(self@ =~= entries_view(old_es).push((kv, vv)));
            }
        }
    }

    /// Removes every entry named `key`, keeping the order of the rest.
    pub fn remove_key(&mut self, key: &Vec<u8>)
        ensures
            final(self)@ == dict_remove_v(old(self)@, key@),
    {
        let ghost ov = old(self)@;
        let ghost old_es = self.entries@;
        proof {
            lemma_entries_view(old_es);
        }
        let mut i: usize = 0;
        let ghost j: int = 0;
        while i < self.entries.len()
            invariant
                0 <= j <= ov.len(),
                ov == entries_view(old_es),
                ov.len() == old_es.len(),
                forall|l: int| 0 <= l < old_es.len() ==> ov[l] == (old_es[l].0@, obj_view(
                    old_es[l].1,
                )),
                self@ =~= dict_remove_v(ov.take(j), key@) + ov.skip(j),
                i == dict_remove_v(ov.take(j), key@).len(),
                self@.len() == self.entries.len(),
                forall|l: int| 0 <= l < self.entries.len() ==> self@[l] == (
                    self.entries@[l].0@,
                    obj_view(self.entries@[l].1),
                ),
            decreases ov.len() - j,
        {
            proof {
                lemma_entries_view(self.entries@);
                assert(self@[i as int] == ov[j]);
            }
            let matches_key = byte_eq(&self.entries[i].0, key);
            proof {
                assert(ov.take(j + 1).drop_last() =~= ov.take(j));
                assert(ov.take(j + 1).last() == ov[j]);
            }
            if matches_key {
                let ghost pre = self@;
                let ghost pre_es = self.entries@;
                self.entries.remove(i);
                proof {
                    lemma_entries_view(self.entries@);
                    assert(self@ =~= pre.remove(i as int));
                    assert(ov[j].0 == key@);
                    assert(dict_remove_v(ov.take(j + 1), key@) =~= dict_remove_v(
                        ov.take(j),
                        key@,
                    ));
                    assert(ov.skip(j) =~= seq![ov[j]] + ov.skip(j + 1));
                    assert(self@ =~= dict_remove_v(ov.take(j + 1), key@) + ov.skip(j + 1));
                }
            } else {
                proof {
                    assert(ov[j].0 != key@);
                    assert(dict_remove_v(ov.take(j + 1), key@) =~= dict_remove_v(
                        ov.take(j),
                        key@,
                    ).push(ov[j]));
                    assert(ov.skip(j) =~= seq![ov[j]] + ov.skip(j + 1));
                }
                i += 1;
                proof {
                    assert(self@ =~= dict_remove_v(ov.take(j + 1), key@) + ov.skip(j + 1));
                }
            }
            proof {
                j = j + 1;
            }
        }
        proof {
            assert(ov.take(j) =~= ov);
            assert(self@ =~= dict_remove_v(ov, key@));
        }
    }
}

/// The declared role of an object: the name under its `Type` entry, for a
/// dictionary object; other objects declare no role.
pub open spec fn marker_v(o: ObjV) -> Option<Seq<u8>> {
    match o {
        ObjV::Dict(es) => match dict_get_v(es, k_type()) {
            Some(t) => match t {
                ObjV::Name(n) => Some(n),
                _ => None,
            },
            None => None,
        },
        _ => None,
    }
}

/// An object's view is a dictionary or a reference value exactly when the
/// object is one.
pub proof fn lemma_obj_view_variant(o: &Obj)
    ensures
        (obj_view(*o) is Dict) == (*o is Dict),
        (obj_view(*o) is Ref) == (*o is Ref),
{
    match o {
        Obj::Null => {},
        Obj::Boolean(_) => {},
        Obj::Integer(_) => {},
        Obj::Real(_) => {},
        Obj::Name(_) => {},
        Obj::Text { .. } => {},
        Obj::Array(_) => {},
        Obj::Dict(_) => {},
        Obj::Stream { .. } => {},
        Obj::Ref(_) => {},
    }
}

/// The view of an object map: the sequence of id-to-object pairs.
pub open spec fn objmap_view(s: Seq<(ObjId, Obj)>) -> Seq<(ObjId, ObjV)>
    decreases s,
{
    if s.len() == 0 {
        Seq::<(ObjId, ObjV)>::empty()
    } else {
        objmap_view(s.drop_last()).push((s.last().0, obj_view(s.last().1)))
    }
}

/// Pointwise description of `objmap_view`.
pub broadcast proof fn lemma_objmap_view(s: Seq<(ObjId, Obj)>)
    ensures
        (#[trigger] objmap_view(s)).len() == s.len(),
        forall|i: int| 0 <= i < s.len() ==> objmap_view(s)[i] == (s[i].0, obj_view(s[i].1)),
    decreases s,
{
    if s.len() > 0 {
        lemma_objmap_view(s.drop_last());
    }
}

/// Every entry of the dictionary has its own name.
pub open spec fn entries_distinct(es: Seq<(Seq<u8>, ObjV)>) -> bool {
    forall|k: int, l: int| 0 <= k < l < es.len() ==> es[k].0 != es[l].0
}

/// An object map is a mapping: its ids are strictly ascending, so every id
/// occurs once and lookup order is the id order.
pub open spec fn strictly_sorted(s: Seq<(ObjId, ObjV)>) -> bool {
    forall|i: int, j: int| 0 <= i < j < s.len() ==> s[i].0.key() < s[j].0.key()
}

/// One parsed input document: its object map, its own page order, and its
/// maximum-id watermark.
pub struct PdfDoc {
    /// The objects, as id-to-object pairs with strictly ascending ids.
    pub objects: Vec<(ObjId, Obj)>,
    /// The ids of the document's pages, in the document's own page order.
    pub pages: Vec<ObjId>,
    /// The declared maximum object number.
    pub max_id: u32,
}

/// The mathematical value of a parsed document.
#[verifier::ext_equal]
pub ghost struct PdfDocV {
    pub objects: Seq<(ObjId, ObjV)>,
    pub pages: Seq<ObjId>,
    pub max_id: u32,
}

impl View for PdfDoc {
    type V = PdfDocV;

    open spec fn view(&self) -> PdfDocV {
        PdfDocV {
            objects: objmap_view(self.objects@),
            pages: self.pages@,
            max_id: self.max_id,
        }
    }
}

/// The merged output before serialization: one object map and the id of its
/// root catalog.
pub struct MergedDoc {
    /// The objects, with strictly ascending ids.
    pub objects: Vec<(ObjId, Obj)>,
    /// The id of the surviving catalog, pointed to by the output trailer.
    pub root: ObjId,
}

/// The mathematical value of the merged output.
#[verifier::ext_equal]
pub ghost struct MergedDocV {
    pub objects: Seq<(ObjId, ObjV)>,
    pub root: ObjId,
}

impl View for MergedDoc {
    type V = MergedDocV;

    open spec fn view(&self) -> MergedDocV {
        MergedDocV { objects: objmap_view(self.objects@), root: self.root }
    }
}

/// Reads the declared role of an object.
pub fn marker(o: &Obj) -> (r: Option<&Vec<u8>>)
    ensures
        match r {
            Some(n) => marker_v(obj_view(*o)) == Some(n@),
            None => marker_v(obj_view(*o)) is None,
        },
{
    match o {
        Obj::Dict(d) => {
            let tk = key_type();
            match d.get(&tk) {
                Some(t) => match t {
                    Obj::Name(n) => Some(n),
                    _ => None,
                },
                None => None,
            }
        },
        _ => None,
    }
}

} // verus!
