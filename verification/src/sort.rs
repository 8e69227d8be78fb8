//! The listing sort policy: a deterministic, stable order (directories
//! before files, case-insensitive names, raw-byte tie-break), the sorting
//! function itself, and the proof that the order admits exactly one sorted
//! arrangement of entries with distinct names.

use vstd::prelude::*;
use vstd::seq_lib::group_to_multiset_ensures;
use vstd::multiset::group_multiset_axioms;
use crate::entry::{DirectoryEntry, EntryView, entry_le, entry_le_exec, entry_views, bytes_le,
    name_le, folded};

verus! {

/// A sequence of entries in the listing sort order.
pub open spec fn sorted_entries(s: Seq<EntryView>) -> bool {
    forall|i: int, j: int| 0 <= i < j < s.len() ==> entry_le(s[i], s[j])
}

/// No two entries share a name, as holds of the children of one directory.
pub open spec fn distinct_names(s: Seq<EntryView>) -> bool {
    forall|i: int, j: int| 0 <= i < j < s.len() ==> s[i].name != s[j].name
}

/// The byte order is reflexive.
proof fn lemma_bytes_le_refl(a: Seq<u8>)
    ensures
        bytes_le(a, a),
    decreases a.len(),
{
    if a.len() > 0 {
        lemma_bytes_le_refl(a.drop_first());
    }
}

/// The byte order is total.
proof fn lemma_bytes_le_total(a: Seq<u8>, b: Seq<u8>)
    ensures
        bytes_le(a, b) || bytes_le(b, a),
    decreases a.len(),
{
    if a.len() > 0 && b.len() > 0 && a[0] == b[0] {
        lemma_bytes_le_total(a.drop_first(), b.drop_first());
    }
}

/// The byte order is antisymmetric.
proof fn lemma_bytes_le_antisym(a: Seq<u8>, b: Seq<u8>)
    requires
        bytes_le(a, b),
        bytes_le(b, a),
    ensures
        a == b,
    decreases a.len(),
{
    if a.len() == 0 {
        assert(b.len() == 0);
        assert(a =~= b);
    } else {
        lemma_bytes_le_antisym(a.drop_first(), b.drop_first());
        assert(a =~= Seq::empty().push(a[0]) + a.drop_first());
        assert(b =~= Seq::empty().push(b[0]) + b.drop_first());
    }
}

/// The byte order is transitive.
proof fn lemma_bytes_le_trans(a: Seq<u8>, b: Seq<u8>, c: Seq<u8>)
    requires
        bytes_le(a, b),
        bytes_le(b, c),
    ensures
        bytes_le(a, c),
    decreases a.len(),
{
    if a.len() > 0 && b.len() > 0 && c.len() > 0 && a[0] == b[0] && b[0] == c[0] {
        lemma_bytes_le_trans(a.drop_first(), b.drop_first(), c.drop_first());
    }
}

/// The name order is total.
proof fn lemma_name_le_total(a: Seq<u8>, b: Seq<u8>)
    ensures
        name_le(a, b) || name_le(b, a),
{
    lemma_bytes_le_total(a, b);
    lemma_bytes_le_total(folded(a), folded(b));
}

/// Names ordered both ways are equal.
proof fn lemma_name_le_antisym(a: Seq<u8>, b: Seq<u8>)
    requires
        name_le(a, b),
        name_le(b, a),
    ensures
        a == b,
{
    if folded(a) == folded(b) {
        lemma_bytes_le_antisym(a, b);
    } else {
        lemma_bytes_le_antisym(folded(a), folded(b));
    }
}

/// The name order is transitive.
proof fn lemma_name_le_trans(a: Seq<u8>, b: Seq<u8>, c: Seq<u8>)
    requires
        name_le(a, b),
        name_le(b, c),
    ensures
        name_le(a, c),
{
    if folded(a) == folded(b) && folded(b) == folded(c) {
        lemma_bytes_le_trans(a, b, c);
    } else if folded(a) == folded(b) {
        assert(name_le(a, c) == bytes_le(folded(a), folded(c)));
    } else if folded(b) == folded(c) {
        assert(name_le(a, c) == bytes_le(folded(a), folded(c)));
    } else {
        lemma_bytes_le_trans(folded(a), folded(b), folded(c));
        if folded(a) == folded(c) {
            lemma_bytes_le_antisym(folded(a), folded(b));
        }
    }
}

/// The entry order is total.
pub proof fn lemma_entry_le_total(a: EntryView, b: EntryView)
    ensures
        entry_le(a, b) || entry_le(b, a),
{
    lemma_name_le_total(a.name, b.name);
}

/// Entries ordered both ways agree on kind rank and have equal names.
pub proof fn lemma_entry_le_antisym(a: EntryView, b: EntryView)
    requires
        entry_le(a, b),
        entry_le(b, a),
    ensures
        a.name == b.name,
        crate::entry::rank(a.kind) == crate::entry::rank(b.kind),
{
    lemma_name_le_antisym(a.name, b.name);
}

/// The entry order is transitive.
pub proof fn lemma_entry_le_trans(a: EntryView, b: EntryView, c: EntryView)
    requires
        entry_le(a, b),
        entry_le(b, c),
    ensures
        entry_le(a, c),
{
    if crate::entry::rank(a.kind) == crate::entry::rank(b.kind)
        && crate::entry::rank(b.kind) == crate::entry::rank(c.kind) {
        lemma_name_le_trans(a.name, b.name, c.name);
    }
}

/// The entry order is reflexive.
pub proof fn lemma_entry_le_refl(a: EntryView)
    ensures
        entry_le(a, a),
{
    lemma_bytes_le_refl(a.name);
    lemma_bytes_le_refl(folded(a.name));
}

/// The views of a sequence commute with removal.
proof fn lemma_views_remove(s: Seq<DirectoryEntry>, i: int)
    requires
        0 <= i < s.len(),
    ensures
        entry_views(s.remove(i)) =~= entry_views(s).remove(i),
{
    s.remove_ensures(i);
    entry_views(s).remove_ensures(i);
}

/// The views of a sequence commute with insertion.
proof fn lemma_views_insert(s: Seq<DirectoryEntry>, i: int, e: DirectoryEntry)
    requires
        0 <= i <= s.len(),
    ensures
        entry_views(s.insert(i, e)) =~= entry_views(s).insert(i, e@),
{
    s.insert_ensures(i, e);
    entry_views(s).insert_ensures(i, e@);
}

/// Sort entries into the listing order. The result is sorted and holds
/// exactly the entries given, as a multiset.
pub fn sort_entries(entries: Vec<DirectoryEntry>) -> (r: Vec<DirectoryEntry>)
    ensures
        sorted_entries(entry_views(r@)),
        entry_views(r@).to_multiset() == entry_views(entries@).to_multiset(),
        r@.len() == entries@.len(),
{
    broadcast use group_to_multiset_ensures;
    broadcast use group_multiset_axioms;
    broadcast use vstd::seq_lib::to_multiset_insert;

    let ghost orig = entry_views(entries@);
    let n = entries.len();
    let mut v = entries;
    if n == 0 {
        return v;
    }
    let mut i: usize = 1;
    while i < n
        invariant
            1 <= i <= n,
            v@.len() == n,
            sorted_entries(entry_views(v@).take(i as int)),
            entry_views(v@).to_multiset() == orig.to_multiset(),
        decreases n - i,
    {
        let ghost whole = v@;
        let ghost before = entry_views(v@);
        let x = v.remove(i);
        proof {
            lemma_views_remove(whole, i as int);
            assert(entry_views(v@) == before.remove(i as int));
            assert(x@ == before[i as int]);
        }
        let ghost removed = entry_views(v@);
        let mut pos: usize = 0;
        while pos < i && entry_le_exec(&v[pos], &x)
            invariant
                pos <= i,
                i < n,
                v@.len() == n - 1,
                entry_views(v@) == removed,
                forall|k: int| 0 <= k < pos ==> entry_le(removed[k], x@),
            decreases i - pos,
        {
            proof {
                assert(v@[pos as int]@ == removed[pos as int]);
            }
            pos = pos + 1;
        }
        proof {
            if pos < i {
                assert(v@[pos as int]@ == removed[pos as int]);
                lemma_entry_le_total(removed[pos as int], x@);
                assert(entry_le(x@, removed[pos as int]));
            }
        }
        let ghost xv = x@;
        let ghost shrunk = v@;
        v.insert(pos, x);
        proof {
            assert(shrunk == whole.remove(i as int));
            lemma_views_insert(shrunk, pos as int, whole[i as int]);
            assert(v@ == shrunk.insert(pos as int, whole[i as int]));
            assert(entry_views(v@) == removed.insert(pos as int, xv));
            lemma_insert_step_sorted(before, xv, i as int, pos as int);
            assert(entry_views(v@).to_multiset() == orig.to_multiset()) by {
                vstd::seq_lib::to_multiset_remove(before, i as int);
                vstd::seq_lib::to_multiset_insert(removed, pos as int, xv);
                assert(removed.to_multiset() == before.to_multiset().remove(before[i as int]));
                assert(entry_views(v@).to_multiset() == removed.to_multiset().insert(xv));
                assert(before[i as int] == xv);
                assert(before.contains(xv));
                vstd::seq_lib::to_multiset_contains(before, xv);
                assert(before.to_multiset().count(xv) > 0);
                assert(before.to_multiset().remove(xv).insert(xv) =~= before.to_multiset());
            }
        }
        i = i + 1;
    }
    proof {
        assert(entry_views(v@).take(n as int) =~= entry_views(v@));
    }
    v
}

/// One step of the insertion sort keeps the growing prefix sorted.
proof fn lemma_insert_step_sorted(
    before: Seq<EntryView>,
    x: EntryView,
    i: int,
    pos: int,
)
    requires
        0 < i < before.len(),
        x == before[i],
        0 <= pos <= i,
        sorted_entries(before.take(i)),
        forall|k: int| 0 <= k < pos ==> entry_le(before.remove(i)[k], x),
        pos < i ==> entry_le(x, before.remove(i)[pos]),
    ensures
        sorted_entries(before.remove(i).insert(pos, x).take(i + 1)),
{
    let removed = before.remove(i);
    before.remove_ensures(i);
    removed.insert_ensures(pos, x);
    let result = removed.insert(pos, x);
    assert forall|a: int, b: int| 0 <= a < b < i + 1 implies #[trigger] entry_le(
        result.take(i + 1)[a],
        result.take(i + 1)[b],
    ) by {
        assert(result.take(i + 1)[a] == result[a]);
        assert(result.take(i + 1)[b] == result[b]);
        // indices below pos are untouched prefix entries; pos holds x;
        // indices above pos shift the prefix by one
        if a < pos && b < pos {
            assert(result[a] == before[a] && result[b] == before[b]);
            assert(before.take(i)[a] == before[a] && before.take(i)[b] == before[b]);
        } else if a < pos && b == pos {
            assert(result[a] == removed[a] && result[b] == x);
        } else if a < pos && b > pos {
            assert(result[a] == before[a] && result[b] == before[b - 1]);
            assert(before.take(i)[a] == before[a] && before.take(i)[b - 1] == before[b - 1]);
        } else if a == pos && b > pos {
            assert(result[a] == x && result[b] == removed[b - 1]);
            assert(removed[b - 1] == before[b - 1]);
            assert(entry_le(x, removed[pos]));
            assert(removed[pos] == before[pos]);
            if b - 1 > pos {
                assert(before.take(i)[pos] == before[pos]);
                assert(before.take(i)[b - 1] == before[b - 1]);
                assert(entry_le(before[pos], before[b - 1]));
                lemma_entry_le_trans(x, before[pos], before[b - 1]);
            }
        } else {
            assert(a > pos && b > pos);
            assert(result[a] == before[a - 1] && result[b] == before[b - 1]);
            assert(before.take(i)[a - 1] == before[a - 1] && before.take(i)[b - 1] == before[b - 1]);
        }
    }
}

/// There is exactly one sorted arrangement: two sorted sequences holding
/// the same entries (as a multiset), with no repeated name, are equal. This
/// is why loading the same directory contents twice renders identically,
/// whatever order the filesystem enumerated the children in.
pub proof fn lemma_sorted_unique(a: Seq<EntryView>, b: Seq<EntryView>)
    requires
        sorted_entries(a),
        sorted_entries(b),
        distinct_names(a),
        a.to_multiset() == b.to_multiset(),
    ensures
        a == b,
    decreases a.len(),
{
    broadcast use group_to_multiset_ensures;
    broadcast use group_multiset_axioms;

    assert(a.len() == a.to_multiset().len());
    assert(b.len() == b.to_multiset().len());
    if a.len() == 0 {
        assert(a =~= b);
    } else {
        assert(a.contains(a[0]));
        assert(b.contains(b[0]));
        assert(b.to_multiset().count(a[0]) > 0);
        assert(b.contains(a[0]));
        assert(a.to_multiset().count(b[0]) > 0);
        assert(a.contains(b[0]));
        let ia = choose|k: int| 0 <= k < a.len() && a[k] == b[0];
        let ib = choose|k: int| 0 <= k < b.len() && b[k] == a[0];
        assert(0 <= ia < a.len() && a[ia] == b[0]);
        assert(0 <= ib < b.len() && b[ib] == a[0]);
        // the heads are ordered both ways, so their names agree
        assert(entry_le(a[0], b[0])) by {
            if ia == 0 {
                lemma_entry_le_refl(a[0]);
            } else {
                assert(entry_le(a[0], a[ia]));
            }
        }
        assert(entry_le(b[0], a[0])) by {
            if ib == 0 {
                lemma_entry_le_refl(b[0]);
            } else {
                assert(entry_le(b[0], b[ib]));
            }
        }
        lemma_entry_le_antisym(a[0], b[0]);
        // distinct names force the witness of b's head to sit at a's head
        assert(ia == 0) by {
            if ia != 0 {
                assert(a[0].name != a[ia].name);
                assert(a[ia].name == b[0].name);
            }
        }
        assert(a[0] == b[0]);
        let at = a.drop_first();
        let bt = b.drop_first();
        assert(at =~= a.remove(0));
        assert(bt =~= b.remove(0));
        assert(at.to_multiset() == a.to_multiset().remove(a[0]));
        assert(bt.to_multiset() == b.to_multiset().remove(b[0]));
        assert(at.to_multiset() == bt.to_multiset());
        assert(sorted_entries(at)) by {
            assert forall|i: int, j: int| 0 <= i < j < at.len() implies entry_le(at[i], at[j]) by {
                assert(at[i] == a[i + 1] && at[j] == a[j + 1]);
            }
        }
        assert(distinct_names(at)) by {
            assert forall|i: int, j: int| 0 <= i < j < at.len() implies at[i].name != at[j].name by {
                assert(at[i] == a[i + 1] && at[j] == a[j + 1]);
            }
        }
        assert(sorted_entries(bt)) by {
            assert forall|i: int, j: int| 0 <= i < j < bt.len() implies entry_le(bt[i], bt[j]) by {
                assert(bt[i] == b[i + 1] && bt[j] == b[j + 1]);
            }
        }
        lemma_sorted_unique(at, bt);
        assert(a =~= b) by {
            assert(forall|k: int| 1 <= k < a.len() ==> a[k] == at[k - 1] && b[k] == bt[k - 1]);
        }
    }
}

} // verus!
