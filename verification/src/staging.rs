//! Staging of uploaded documents.
//!
//! Uploaded documents are sorted by filename, by byte-wise lexicographic
//! comparison, before they are handed to the merge in that order.  This sort
//! order is the sole determinant of the output page order: upload order is
//! irrelevant, and with distinct filenames the sorted order — and with it
//! the merged output — is unique.  The sort is stable, so entries with
//! equal filenames keep their upload order.

use vstd::prelude::*;
use vstd::pervasive::VecAdditionalExecFns;

verus! {

/// Byte-wise lexicographic order on byte strings.
pub open spec fn bytes_le(a: Seq<u8>, b: Seq<u8>) -> bool
    decreases a.len(),
{
    if a.len() == 0 {
        true
    } else if b.len() == 0 {
        false
    } else if a[0] < b[0] {
        true
    } else if a[0] > b[0] {
        false
    } else {
        bytes_le(a.subrange(1, a.len() as int), b.subrange(1, b.len() as int))
    }
}

/// The order is total.
pub proof fn lemma_bytes_le_total(a: Seq<u8>, b: Seq<u8>)
    ensures
        bytes_le(a, b) || bytes_le(b, a),
    decreases a.len(),
{
    if a.len() > 0 && b.len() > 0 && a[0] == b[0] {
        lemma_bytes_le_total(a.subrange(1, a.len() as int), b.subrange(1, b.len() as int));
    }
}

/// The order is antisymmetric.
pub proof fn lemma_bytes_le_antisym(a: Seq<u8>, b: Seq<u8>)
    requires
        bytes_le(a, b),
        bytes_le(b, a),
    ensures
        a == b,
    decreases a.len(),
{
    if a.len() == 0 {
        assert(b.len() == 0);
        assert(a =~= b);
    } else {
        assert(b.len() > 0);
        assert(a[0] == b[0]);
        let at = a.subrange(1, a.len() as int);
        let bt = b.subrange(1, b.len() as int);
        lemma_bytes_le_antisym(at, bt);
        assert forall|i: int| 0 <= i < a.len() implies a[i] == b[i] by {
            if i > 0 {
                assert(a[i] == at[i - 1]);
                assert(b[i] == bt[i - 1]);
            }
        }
        assert(a =~= b);
    }
}

/// The order is transitive.
pub proof fn lemma_bytes_le_trans(a: Seq<u8>, b: Seq<u8>, c: Seq<u8>)
    requires
        bytes_le(a, b),
        bytes_le(b, c),
    ensures
        bytes_le(a, c),
    decreases a.len(),
{
    if a.len() > 0 && b.len() > 0 && c.len() > 0 && a[0] == b[0] && b[0] == c[0] {
        lemma_bytes_le_trans(
            a.subrange(1, a.len() as int),
            b.subrange(1, b.len() as int),
            c.subrange(1, c.len() as int),
        );
    }
}

/// Decides the byte-wise lexicographic order.
pub fn bytes_le_x(a: &Vec<u8>, b: &Vec<u8>) -> (r: bool)
    ensures
        r == bytes_le(a@, b@),
{
    proof {
        assert(a@.skip(0) =~= a@);
        assert(b@.skip(0) =~= b@);
    }
    let mut i: usize = 0;
    while i < a.len() && i < b.len()
        invariant
            i <= a.len(),
            i <= b.len(),
            bytes_le(a@, b@) == bytes_le(a@.skip(i as int), b@.skip(i as int)),
            bytes_le(b@, a@) == bytes_le(b@.skip(i as int), a@.skip(i as int)),
        decreases a.len() - i,
    {
        if a[i] < b[i] {
            return true;
        }
        if a[i] > b[i] {
            return false;
        }
        proof {
            assert(a@.skip(i as int).subrange(1, a@.skip(i as int).len() as int) =~= a@.skip(
                i + 1,
            ));
            assert(b@.skip(i as int).subrange(1, b@.skip(i as int).len() as int) =~= b@.skip(
                i + 1,
            ));
        }
        i += 1;
    }
    if i >= a.len() {
        true
    } else {
        false
    }
}

/// The view of a filename-to-payload list.
pub open spec fn files_view(s: Seq<(Vec<u8>, Vec<u8>)>) -> Seq<(Seq<u8>, Seq<u8>)> {
    Seq::new(s.len(), |i: int| (s[i].0@, s[i].1@))
}

/// Names ascending in the byte-wise lexicographic order.
pub open spec fn sorted_names(s: Seq<(Seq<u8>, Seq<u8>)>) -> bool {
    forall|i: int, j: int| 0 <= i < j < s.len() ==> bytes_le(s[i].0, s[j].0)
}

/// No two entries share a name.
pub open spec fn distinct_names(s: Seq<(Seq<u8>, Seq<u8>)>) -> bool {
    forall|i: int, j: int| 0 <= i < j < s.len() ==> s[i].0 != s[j].0
}

/// The entries named `nm`, in their order.
pub open spec fn same_named(s: Seq<(Seq<u8>, Seq<u8>)>, nm: Seq<u8>) -> Seq<(Seq<u8>, Seq<u8>)>
    decreases s.len(),
{
    if s.len() == 0 {
        Seq::<(Seq<u8>, Seq<u8>)>::empty()
    } else {
        let r = same_named(s.drop_last(), nm);
        if s.last().0 == nm {
            r.push(s.last())
        } else {
            r
        }
    }
}

/// Inserting an entry after every entry of its name appends it to its own
/// name's subsequence and leaves every other name's subsequence unchanged.
proof fn lemma_same_named_insert(
    s: Seq<(Seq<u8>, Seq<u8>)>,
    k: int,
    e: (Seq<u8>, Seq<u8>),
    nm: Seq<u8>,
)
    requires
        0 <= k <= s.len(),
        forall|j: int| k <= j < s.len() ==> s[j].0 != e.0,
    ensures
        same_named(s.insert(k, e), nm) == if nm == e.0 {
            same_named(s, nm).push(e)
        } else {
            same_named(s, nm)
        },
    decreases s.len(),
{
    let t = s.insert(k, e);
    if k == s.len() {
        assert(t =~= s.push(e));
        assert(t.drop_last() =~= s);
        assert(t.last() == e);
    } else {
        assert(s[s.len() - 1].0 != e.0);
        assert(t.last() == s.last());
        assert(t.drop_last() =~= s.drop_last().insert(k, e));
        let sd = s.drop_last();
        assert forall|j: int| k <= j < sd.len() implies sd[j].0 != e.0 by {
            assert(sd[j] == s[j]);
        }
        lemma_same_named_insert(sd, k, e, nm);
    }
}

/// Inserting an element anywhere adds it to the sequence's multiset.
proof fn lemma_insert_to_multiset(s: Seq<(Seq<u8>, Seq<u8>)>, i: int, e: (Seq<u8>, Seq<u8>))
    requires
        0 <= i <= s.len(),
    ensures
        s.insert(i, e).to_multiset() == s.to_multiset().insert(e),
{
    let t = s.insert(i, e);
    t.to_multiset_ensures();
    s.to_multiset_ensures();
    assert(t.remove(i) =~= s);
    assert(t[i] == e);
    assert(t.remove(i).to_multiset() =~= t.to_multiset().remove(e));
    assert(t.contains(e)) by {
        assert(t[i] == e);
    }
    assert(t.to_multiset().count(e) > 0);
    assert(t.to_multiset() =~= s.to_multiset().insert(e));
}

/// Sorts uploaded documents by filename, byte-wise lexicographically: the
/// result holds the same entries, with their names ascending; the sort is
/// stable, so entries with equal filenames keep their upload order.
pub fn sort_by_filename(files: Vec<(Vec<u8>, Vec<u8>)>) -> (r: Vec<(Vec<u8>, Vec<u8>)>)
    ensures
        sorted_names(files_view(r@)),
        files_view(r@).to_multiset() == files_view(files@).to_multiset(),
        forall|nm: Seq<u8>|
            #[trigger] same_named(files_view(r@), nm) == same_named(files_view(files@), nm),
{
    let ghost fv = files_view(files@);
    let mut work = files;
    let mut out: Vec<(Vec<u8>, Vec<u8>)> = Vec::new();
    let mut i: usize = 0;
    proof {
        assert(files_view(out@) =~= fv.take(0));
    }
    while i < work.len()
        invariant
            i <= work.len(),
            work@.len() == fv.len(),
            forall|j: int| i <= j < fv.len() ==> (work@[j].0@, work@[j].1@) == fv[j],
            sorted_names(files_view(out@)),
            files_view(out@).to_multiset() == fv.take(i as int).to_multiset(),
            forall|nm: Seq<u8>|
                #[trigger] same_named(files_view(out@), nm) == same_named(
                    fv.take(i as int),
                    nm,
                ),
        decreases work.len() - i,
    {
        let mut tmp = (Vec::<u8>::new(), Vec::<u8>::new());
        work.set_and_swap(i, &mut tmp);
        let ghost e = (tmp.0@, tmp.1@);
        proof {
            assert(e == fv[i as int]);
            fv.take(i as int).to_multiset_ensures();
            assert(fv.take(i + 1).drop_last() =~= fv.take(i as int));
            assert(fv.take(i + 1) =~= fv.take(i as int).push(fv[i as int]));
            fv.take(i + 1).to_multiset_ensures();
        }

        // Find the first entry that must come after the new one.
        let ghost ov = files_view(out@);
        let mut k: usize = 0;
        while k < out.len()
            invariant
                k <= out.len(),
                ov == files_view(out@),
                ov.len() == out.len(),
                e == (tmp.0@, tmp.1@),
                forall|j: int| 0 <= j < out.len() ==> (out@[j].0@, out@[j].1@) == ov[j],
                forall|j: int| 0 <= j < k ==> bytes_le(ov[j].0, e.0),
            ensures
                k <= out.len(),
                ov == files_view(out@),
                ov.len() == out.len(),
                e == (tmp.0@, tmp.1@),
                forall|j: int| 0 <= j < k ==> bytes_le(ov[j].0, e.0),
                k < out.len() ==> !bytes_le(ov[k as int].0, e.0),
            decreases out.len() - k,
        {
            if !bytes_le_x(&out[k].0, &tmp.0) {
                break;
            }
            k += 1;
        }
        proof {
            if k < out.len() {
                lemma_bytes_le_total(ov[k as int].0, e.0);
                assert(bytes_le(e.0, ov[k as int].0));
            }
            lemma_insert_to_multiset(ov, k as int, e);
        }
        let ghost inserted = ov.insert(k as int, e);
        proof {
            assert forall|p: int, q: int|
                0 <= p < q < inserted.len() implies bytes_le(inserted[p].0, inserted[q].0) by {
                let kk = k as int;
                if q < kk {
                    assert(inserted[p] == ov[p]);
                    assert(inserted[q] == ov[q]);
                } else if q == kk {
                    assert(inserted[p] == ov[p]);
                    assert(inserted[q] == e);
                } else if p < kk {
                    assert(inserted[p] == ov[p]);
                    assert(inserted[q] == ov[q - 1]);
                } else if p == kk {
                    assert(inserted[p] == e);
                    assert(inserted[q] == ov[q - 1]);
                    if q - 1 > kk {
                        lemma_bytes_le_trans(e.0, ov[kk].0, ov[q - 1].0);
                    }
                } else {
                    assert(inserted[p] == ov[p - 1]);
                    assert(inserted[q] == ov[q - 1]);
                }
            }
        }
        proof {
            // The new entry lands after every entry of its own name, so
            // every name's subsequence grows only at its end.
            assert forall|j: int| k <= j < ov.len() implies ov[j].0 != e.0 by {
                if ov[j].0 == e.0 {
                    if j > k as int {
                        assert(bytes_le(ov[k as int].0, ov[j].0));
                    }
                    lemma_bytes_le_total(e.0, e.0);
                }
            }
            assert forall|nm: Seq<u8>|
                #[trigger] same_named(inserted, nm) == same_named(fv.take(i + 1), nm) by {
                lemma_same_named_insert(ov, k as int, e, nm);
                assert(fv.take(i + 1).drop_last() =~= fv.take(i as int));
                assert(fv.take(i + 1).last() == e);
            }
        }
        out.insert(k, tmp);
        proof {
            assert(files_view(out@) =~= inserted);
        }
        i += 1;
    }
    proof {
        assert(fv.take(fv.len() as int) =~= fv);
    }
    out
}

/// With distinct filenames the sorted order is unique: any two sorted
/// arrangements of the same entries are equal.  Since the merge's output is
/// a function of the sorted list alone, the upload order of the documents
/// cannot change the merged bytes.
pub proof fn lemma_sort_deterministic(a: Seq<(Seq<u8>, Seq<u8>)>, b: Seq<(Seq<u8>, Seq<u8>)>)
    requires
        a.to_multiset() == b.to_multiset(),
        sorted_names(a),
        sorted_names(b),
        distinct_names(a),
    ensures
        a == b,
    decreases a.len(),
{
    a.to_multiset_ensures();
    b.to_multiset_ensures();
    if a.len() == 0 {
        assert(b.len() == 0);
        assert(a =~= b);
    } else {
        assert(b.len() == a.len());
        // The head of each list occurs in the other.
        assert(a.contains(a[0])) by {
            assert(a[0] == a[0]);
        }
        assert(b.to_multiset().count(a[0]) > 0);
        assert(b.contains(a[0]));
        let k = choose|k: int| 0 <= k < b.len() && b[k] == a[0];
        assert(b.contains(b[0])) by {
            assert(b[0] == b[0]);
        }
        assert(a.to_multiset().count(b[0]) > 0);
        assert(a.contains(b[0]));
        let m = choose|m: int| 0 <= m < a.len() && a[m] == b[0];
        // Each head's name bounds the other, so the heads are equal.
        assert(bytes_le(a[0].0, a[m].0)) by {
            if m > 0 {
            } else {
                lemma_bytes_le_total(a[0].0, a[0].0);
            }
        }
        assert(bytes_le(b[0].0, b[k].0)) by {
            if k > 0 {
            } else {
                lemma_bytes_le_total(b[0].0, b[0].0);
            }
        }
        lemma_bytes_le_antisym(a[0].0, b[0].0);
        if m != 0 {
            assert(a[0].0 != a[m].0);
            assert(false);
        }
        assert(b[0] == a[0]);
        // Drop the heads and recurse.
        let at = a.drop_first();
        let bt = b.drop_first();
        assert(a.remove(0) =~= at);
        assert(b.remove(0) =~= bt);
        assert(at.to_multiset() =~= a.to_multiset().remove(a[0]));
        assert(bt.to_multiset() =~= b.to_multiset().remove(b[0]));
        assert(at.to_multiset() == bt.to_multiset());
        assert forall|i: int, j: int| 0 <= i < j < at.len() implies bytes_le(
            at[i].0,
            at[j].0,
        ) by {
            assert(at[i] == a[i + 1]);
            assert(at[j] == a[j + 1]);
        }
        assert forall|i: int, j: int| 0 <= i < j < bt.len() implies bytes_le(
            bt[i].0,
            bt[j].0,
        ) by {
            assert(bt[i] == b[i + 1]);
            assert(bt[j] == b[j + 1]);
        }
        assert forall|i: int, j: int| 0 <= i < j < at.len() implies at[i].0 != at[j].0 by {
            assert(at[i] == a[i + 1]);
            assert(at[j] == a[j + 1]);
        }
        lemma_sort_deterministic(at, bt);
        assert forall|i: int| 0 <= i < a.len() implies a[i] == b[i] by {
            if i > 0 {
                assert(a[i] == at[i - 1]);
                assert(b[i] == bt[i - 1]);
            }
        }
        assert(a =~= b);
    }
}

} // verus!
