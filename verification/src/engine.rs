//! The sort engine: orders the entries of a bucket by their sort keys.

use crate::entry::{entry_order, key_le, models, Entry, EntryModel};
use rayon::slice::ParallelSliceMut;
use vstd::prelude::*;

verus! {

/// Every entry may stand before every entry that follows it.
pub open spec fn sorted_by_key(s: Seq<EntryModel>, numeric: bool) -> bool {
    forall|i: int, j: int| 0 <= i < j < s.len() ==> key_le(s[i], s[j], numeric)
}

/// `after` holds the entries of `before`, each as often as `before` does,
/// in sorted order.
pub open spec fn is_sorting_of(after: Seq<EntryModel>, before: Seq<EntryModel>, numeric: bool) -> bool {
    &&& after.to_multiset() == before.to_multiset()
    &&& sorted_by_key(after, numeric)
}

/// Calls rayon's `par_sort_unstable_by` on the entries, with `entry_order` as
/// the comparison. Taken on trust from rayon's documentation: the slice is
/// sorted in place by the comparison, so it holds the same entries afterwards
/// and each may stand before those that follow it. Entries with equal keys
/// may change places.
#[verifier::external_body]
fn par_sort_unstable(entries: &mut Vec<Entry>, numeric: bool)
    ensures
        is_sorting_of(models(final(entries)@), models(old(entries)@), numeric),
{
    entries.par_sort_unstable_by(|a, b| entry_order(a, b, numeric));
}

/// Sorts the entries of one bucket by their sort keys, by rank in a numeric
/// run and by the bytes of the sort field otherwise. No entry is lost or
/// made up; entries with equal keys end up in no particular order.
pub fn sort_entries(entries: &mut Vec<Entry>, numeric: bool)
    ensures
        is_sorting_of(models(final(entries)@), models(old(entries)@), numeric),
{
    par_sort_unstable(entries, numeric);
}

/// No two different entries tie: entries that may each stand before the
/// other are one and the same.
pub open spec fn tie_free(s: Seq<EntryModel>, numeric: bool) -> bool {
    forall|i: int, j: int|
        0 <= i < s.len() && 0 <= j < s.len() && key_le(s[i], s[j], numeric) && key_le(s[j], s[i], numeric)
            ==> s[i] == s[j]
}

/// A sorted run without ties has one sorted order only: sorting it again
/// gives it back as it is.
pub proof fn lemma_sorting_without_ties(after: Seq<EntryModel>, before: Seq<EntryModel>, numeric: bool)
    requires
        is_sorting_of(after, before, numeric),
        sorted_by_key(before, numeric),
        tie_free(before, numeric),
    ensures
        after == before,
    decreases before.len(),
{
    broadcast use vstd::seq_lib::group_to_multiset_ensures;

    assert(after.len() == before.len()) by {
        assert(after.to_multiset().len() == before.to_multiset().len());
    }
    if before.len() == 0 {
        assert(after =~= before);
    } else {
        assert(after.contains(after[0]));
        assert(before.to_multiset().count(after[0]) > 0);
        assert(before.contains(after[0]));
        let k = choose|k: int| 0 <= k < before.len() && before[k] == after[0];
        assert(before.contains(before[0]));
        assert(after.to_multiset().count(before[0]) > 0);
        assert(after.contains(before[0]));
        let m = choose|m: int| 0 <= m < after.len() && after[m] == before[0];
        assert(before[0] == after[0]) by {
            if k != 0 && m != 0 {
                assert(key_le(before[0], before[k], numeric));
                assert(key_le(after[0], after[m], numeric));
            }
        }
        let a1 = after.remove(0);
        let b1 = before.remove(0);
        assert(a1.to_multiset() == b1.to_multiset());
        assert forall|i: int, j: int| 0 <= i < j < a1.len() implies key_le(a1[i], a1[j], numeric) by {
            assert(key_le(after[i + 1], after[j + 1], numeric));
        }
        assert forall|i: int, j: int| 0 <= i < j < b1.len() implies key_le(b1[i], b1[j], numeric) by {
            assert(key_le(before[i + 1], before[j + 1], numeric));
        }
        assert forall|i: int, j: int|
            0 <= i < b1.len() && 0 <= j < b1.len() && key_le(b1[i], b1[j], numeric) && key_le(
                b1[j],
                b1[i],
                numeric,
            ) implies b1[i] == b1[j] by {
            assert(b1[i] == before[i + 1] && b1[j] == before[j + 1]);
        }
        lemma_sorting_without_ties(a1, b1, numeric);
        assert forall|i: int| 0 <= i < after.len() implies after[i] == before[i] by {
            if i > 0 {
                assert(after[i] == a1[i - 1]);
                assert(before[i] == b1[i - 1]);
            }
        }
        assert(after =~= before);
    }
}

} // verus!
