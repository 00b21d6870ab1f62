//! The index: entries gathered into buckets by group key.
//!
//! Buckets stand in the order in which their groups first appeared, and the
//! entries of a bucket in the order in which they came, until the bucket is
//! sorted.

use crate::engine::{
    is_sorting_of, lemma_sorting_without_ties, sort_entries, sorted_by_key, tie_free,
};
use crate::entry::{key_le, models, Entry, EntryModel, GroupKey, GroupModel};
use vstd::prelude::*;

verus! {

/// The mathematical value of a bucket: its group and its entries in order.
pub struct BucketModel {
    pub key: GroupModel,
    pub entries: Seq<EntryModel>,
}

/// Some bucket is that of group `g`.
pub open spec fn holds_group(buckets: Seq<BucketModel>, g: GroupModel) -> bool {
    exists|i: int| 0 <= i < buckets.len() && (#[trigger] buckets[i]).key == g
}

/// The bucket with `e` added at its end, if it is the bucket of `e`'s group.
pub open spec fn bucket_with(bucket: BucketModel, e: EntryModel) -> BucketModel {
    if bucket.key == e.group {
        BucketModel { key: bucket.key, entries: bucket.entries.push(e) }
    } else {
        bucket
    }
}

/// The buckets after `e` has been put in: at the end of the bucket of its
/// group, or in a new last bucket where its group has none yet.
pub open spec fn place(buckets: Seq<BucketModel>, e: EntryModel) -> Seq<BucketModel> {
    if holds_group(buckets, e.group) {
        buckets.map_values(|b: BucketModel| bucket_with(b, e))
    } else {
        buckets.push(BucketModel { key: e.group, entries: seq![e] })
    }
}

/// No bucket is empty, a bucket holds entries of its own group only, and no
/// two buckets are of the same group.
pub open spec fn well_formed(buckets: Seq<BucketModel>) -> bool {
    &&& forall|i: int| 0 <= i < buckets.len() ==> (#[trigger] buckets[i]).entries.len() > 0
    &&& forall|i: int, k: int|
        0 <= i < buckets.len() && 0 <= k < buckets[i].entries.len() ==> (
        #[trigger] buckets[i].entries[k]).group == buckets[i].key
    &&& forall|i: int, j: int|
        0 <= i < buckets.len() && 0 <= j < buckets.len() && i != j ==> (#[trigger] buckets[i]).key != (
        #[trigger] buckets[j]).key
}

/// The entries of all buckets in the order of emission: bucket after bucket,
/// each bucket from its first entry to its last.
pub open spec fn emission(buckets: Seq<BucketModel>) -> Seq<EntryModel>
    decreases buckets.len(),
{
    if buckets.len() == 0 {
        Seq::empty()
    } else {
        emission(buckets.drop_last()) + buckets.last().entries
    }
}

/// `after` has the buckets of `before`, in the same order, each one sorted.
pub open spec fn is_sorted_index(after: Seq<BucketModel>, before: Seq<BucketModel>, numeric: bool) -> bool {
    &&& after.len() == before.len()
    &&& forall|i: int|
        0 <= i < after.len() ==> (#[trigger] after[i]).key == before[i].key && is_sorting_of(
            after[i].entries,
            before[i].entries,
            numeric,
        )
}

/// The entries that share one group key.
struct Bucket {
    key: GroupKey,
    entries: Vec<Entry>,
}

impl View for Bucket {
    type V = BucketModel;

    closed spec fn view(&self) -> BucketModel {
        BucketModel { key: self.key@, entries: models(self.entries@) }
    }
}

/// The buckets of a run.
pub struct Index {
    buckets: Vec<Bucket>,
}

impl View for Index {
    type V = Seq<BucketModel>;

    closed spec fn view(&self) -> Seq<BucketModel> {
        self.buckets@.map_values(|b: Bucket| b@)
    }
}

impl Index {
    /// The index is valid: its buckets are well formed.
    pub open spec fn wf(&self) -> bool {
        well_formed(self@)
    }

    /// An index without buckets.
    pub fn new() -> (index: Index)
        ensures
            index.wf(),
            index@ == Seq::<BucketModel>::empty(),
    {
        let index = Index { buckets: Vec::new() };
        assert(index@ =~= Seq::<BucketModel>::empty());
        index
    }

    /// The number of buckets.
    pub fn bucket_count(&self) -> (n: usize)
        ensures
            n == self@.len(),
    {
        self.buckets.len()
    }

    /// The number of entries in bucket `i`.
    pub fn bucket_len(&self, i: usize) -> (n: usize)
        requires
            i < self@.len(),
        ensures
            n == self@[i as int].entries.len(),
    {
        self.buckets[i].entries.len()
    }

    /// Puts an entry in the bucket of its group, after the entries that are
    /// there, and opens a new last bucket where the group is met for the
    /// first time.
    pub fn insert(&mut self, entry: Entry)
        requires
            old(self).wf(),
        ensures
            final(self).wf(),
            final(self)@ == place(old(self)@, entry@),
    {
        let ghost before = self@;
        let n = self.buckets.len();
        let mut i: usize = 0;
        while i < n
            invariant
                n == self.buckets@.len(),
                self@ == before,
                before == old(self)@,
                well_formed(before),
                i <= n,
                forall|k: int| 0 <= k < i ==> (#[trigger] before[k]).key != entry@.group,
            decreases n - i,
        {
            if self.buckets[i].key.same(&entry.group) {
                assert(before[i as int].key == entry@.group);
                let ghost e = entry@;
                self.buckets[i].entries.push(entry);
                proof {
                    let after = self@;
                    let expected = place(before, e);
                    assert(after.len() == expected.len());
                    assert forall|k: int| 0 <= k < after.len() implies after[k] == expected[k] by {
                        if k == i {
                            assert(after[k].entries =~= before[k].entries.push(e));
                        } else {
                            assert(after[k] == before[k]);
                            assert(before[k].key != before[i as int].key);
                        }
                    }
                    assert(after =~= expected);
                }
                return;
            }
            i += 1;
        }
        let key = entry.group.duplicate();
        let ghost e = entry@;
        let mut entries: Vec<Entry> = Vec::new();
        entries.push(entry);
        self.buckets.push(Bucket { key, entries });
        proof {
            assert(!holds_group(before, e.group));
            assert(self.buckets@.last()@.entries =~= seq![e]);
            assert(self@ =~= place(before, e));
        }
    }

    /// Sorts every bucket by the sort keys of its entries. The buckets keep
    /// their places and their entries; entries with equal keys end up in no
    /// particular order.
    pub fn sort(&mut self, numeric: bool)
        requires
            old(self).wf(),
        ensures
            final(self).wf(),
            is_sorted_index(final(self)@, old(self)@, numeric),
    {
        let ghost before = self@;
        let n = self.buckets.len();
        let mut i: usize = 0;
        while i < n
            invariant
                n == self.buckets@.len(),
                before == old(self)@,
                self@.len() == before.len(),
                i <= n,
                forall|k: int|
                    0 <= k < i ==> (#[trigger] self@[k]).key == before[k].key && is_sorting_of(
                        self@[k].entries,
                        before[k].entries,
                        numeric,
                    ),
                forall|k: int| i <= k < n ==> (#[trigger] self@[k]) == before[k],
            decreases n - i,
        {
            let ghost mid = self@;
            sort_entries(&mut self.buckets[i].entries, numeric);
            proof {
                assert forall|k: int| 0 <= k < n && k != i implies (#[trigger] self@[k]) == mid[k] by {}
                assert(self@[i as int].key == mid[i as int].key);
            }
            i += 1;
        }
        proof {
            lemma_sorted_index_well_formed(self@, before, numeric);
        }
    }

    /// Hands out the entries in the order of emission: bucket after bucket in
    /// the order in which the groups first appeared, each bucket from its
    /// first entry to its last.
    pub fn into_entries(self) -> (out: Vec<Entry>)
        ensures
            models(out@) == emission(self@),
    {
        let ghost all = self@;
        let mut index = self;
        let mut out: Vec<Entry> = Vec::new();
        let n = index.buckets.len();
        let mut i: usize = 0;
        assert(all.take(0) =~= Seq::<BucketModel>::empty());
        assert(models(out@) =~= emission(all.take(0)));
        while i < n
            invariant
                n == index.buckets@.len(),
                index@.len() == all.len(),
                i <= n,
                models(out@) == emission(all.take(i as int)),
                forall|k: int| i <= k < n ==> (#[trigger] index@[k]) == all[k],
            decreases n - i,
        {
            let ghost mid = index@;
            let ghost so_far = out@;
            let ghost moved = index.buckets@[i as int].entries@;
            out.append(&mut index.buckets[i].entries);
            proof {
                assert forall|k: int| 0 <= k < n && k != i implies (#[trigger] index@[k]) == mid[k] by {}
                assert(mid[i as int] == all[i as int]);
                assert(mid[i as int].entries == models(moved));
                assert(out@ == so_far + moved);
                assert(models(so_far + moved) =~= models(so_far) + models(moved));
                assert(emission(all.take(i + 1)) == emission(all.take(i + 1).drop_last()) + all.take(
                    i + 1,
                ).last().entries);
                assert(all.take(i + 1).drop_last() =~= all.take(i as int));
                assert(all.take(i + 1).last() == all[i as int]);
            }
            i += 1;
        }
        assert(all.take(n as int) =~= all);
        out
    }
}

/// Sorting the buckets leaves the index well formed.
pub proof fn lemma_sorted_index_well_formed(after: Seq<BucketModel>, before: Seq<BucketModel>, numeric: bool)
    requires
        well_formed(before),
        is_sorted_index(after, before, numeric),
    ensures
        well_formed(after),
{
    broadcast use vstd::seq_lib::group_to_multiset_ensures;

    assert forall|i: int| 0 <= i < after.len() implies (#[trigger] after[i]).entries.len() > 0 by {
        assert(before[i].entries.len() > 0);
        assert(after[i].entries.to_multiset().len() == before[i].entries.to_multiset().len());
    }
    assert forall|i: int, k: int| 0 <= i < after.len() && 0 <= k < after[i].entries.len() implies (
    #[trigger] after[i].entries[k]).group == after[i].key by {
        let e = after[i].entries[k];
        assert(after[i].entries.contains(e));
        assert(after[i].entries.to_multiset().count(e) > 0);
        assert(before[i].entries.to_multiset().count(e) > 0);
        assert(before[i].entries.contains(e));
        let k0 = choose|k0: int| 0 <= k0 < before[i].entries.len() && before[i].entries[k0] == e;
        assert(before[i].entries[k0].group == before[i].key);
    }
    assert forall|i: int, j: int|
        0 <= i < after.len() && 0 <= j < after.len() && i != j implies (#[trigger] after[i]).key != (
    #[trigger] after[j]).key by {
        assert(before[i].key != before[j].key);
    }
}

/// The emission of buckets with one more bucket at the end is the emission
/// of the buckets followed by the entries of that bucket.
pub proof fn lemma_emission_push(buckets: Seq<BucketModel>, bucket: BucketModel)
    ensures
        emission(buckets.push(bucket)) == emission(buckets) + bucket.entries,
{
    assert(buckets.push(bucket).drop_last() =~= buckets);
}

/// Every place in the emission is a place in some bucket. The result names
/// the bucket and the place in it.
pub proof fn lemma_emission_member(buckets: Seq<BucketModel>, p: int) -> (at: (int, int))
    requires
        0 <= p < emission(buckets).len(),
    ensures
        0 <= at.0 < buckets.len(),
        0 <= at.1 < buckets[at.0].entries.len(),
        emission(buckets)[p] == buckets[at.0].entries[at.1],
    decreases buckets.len(),
{
    let front = emission(buckets.drop_last());
    if p < front.len() {
        lemma_emission_member(buckets.drop_last(), p)
    } else {
        (buckets.len() - 1, p - front.len())
    }
}

/// Two entries of a well-formed index stand in the same bucket exactly when
/// their group keys are equal.
pub proof fn lemma_same_bucket_iff_same_group(buckets: Seq<BucketModel>, i: int, k: int, j: int, l: int)
    requires
        well_formed(buckets),
        0 <= i < buckets.len(),
        0 <= k < buckets[i].entries.len(),
        0 <= j < buckets.len(),
        0 <= l < buckets[j].entries.len(),
    ensures
        i == j <==> buckets[i].entries[k].group == buckets[j].entries[l].group,
{
    assert(buckets[i].entries[k].group == buckets[i].key);
    assert(buckets[j].entries[l].group == buckets[j].key);
}

/// Adding an entry to every bucket of a group that has no bucket changes
/// nothing.
proof fn lemma_no_bucket_no_change(buckets: Seq<BucketModel>, e: EntryModel)
    requires
        !holds_group(buckets, e.group),
    ensures
        buckets.map_values(|b: BucketModel| bucket_with(b, e)) == buckets,
{
    let mapped = buckets.map_values(|b: BucketModel| bucket_with(b, e));
    assert forall|i: int| 0 <= i < buckets.len() implies mapped[i] == buckets[i] by {
        assert(buckets[i].key != e.group);
    }
    assert(mapped =~= buckets);
}

/// Where the group of an entry has a bucket, putting the entry there adds
/// just that entry to the emission.
proof fn lemma_place_in_bucket(buckets: Seq<BucketModel>, e: EntryModel)
    requires
        well_formed(buckets),
        holds_group(buckets, e.group),
    ensures
        emission(buckets.map_values(|b: BucketModel| bucket_with(b, e))).to_multiset() == emission(
            buckets,
        ).to_multiset().insert(e),
    decreases buckets.len(),
{
    broadcast use vstd::seq_lib::group_to_multiset_ensures;

    let mapped = buckets.map_values(|b: BucketModel| bucket_with(b, e));
    let front = buckets.drop_last();
    let last = buckets.last();
    assert(mapped.drop_last() =~= front.map_values(|b: BucketModel| bucket_with(b, e)));
    assert(mapped.last() == bucket_with(last, e));
    if last.key == e.group {
        assert(!holds_group(front, e.group)) by {
            if holds_group(front, e.group) {
                let i = choose|i: int| 0 <= i < front.len() && (#[trigger] front[i]).key == e.group;
                assert(buckets[i].key == buckets[buckets.len() - 1].key);
            }
        }
        lemma_no_bucket_no_change(front, e);
        assert(emission(mapped) =~= emission(buckets).push(e));
    } else {
        let i = choose|i: int| 0 <= i < buckets.len() && (#[trigger] buckets[i]).key == e.group;
        assert(front[i].key == e.group);
        assert(well_formed(front)) by {
            assert forall|a: int| 0 <= a < front.len() implies front[a] == buckets[a] by {}
        }
        lemma_place_in_bucket(front, e);
        vstd::seq_lib::lemma_multiset_commutative(emission(mapped.drop_last()), last.entries);
        vstd::seq_lib::lemma_multiset_commutative(emission(front), last.entries);
        assert(emission(mapped).to_multiset() =~= emission(buckets).to_multiset().insert(e));
    }
}

/// Putting an entry in the index keeps the index well formed and adds just
/// that entry to the emission: nothing is lost, doubled or made up.
pub proof fn lemma_place_adds_entry(buckets: Seq<BucketModel>, e: EntryModel)
    requires
        well_formed(buckets),
    ensures
        well_formed(place(buckets, e)),
        emission(place(buckets, e)).to_multiset() == emission(buckets).to_multiset().insert(e),
{
    broadcast use vstd::seq_lib::group_to_multiset_ensures;

    let placed = place(buckets, e);
    if holds_group(buckets, e.group) {
        lemma_place_in_bucket(buckets, e);
        assert forall|i: int, k: int| 0 <= i < placed.len() && 0 <= k < placed[i].entries.len() implies (
        #[trigger] placed[i].entries[k]).group == placed[i].key by {
            if k < buckets[i].entries.len() {
                assert(buckets[i].entries[k].group == buckets[i].key);
            }
        }
        assert forall|i: int| 0 <= i < placed.len() implies (#[trigger] placed[i]).entries.len() > 0 by {
            assert(buckets[i].entries.len() > 0);
        }
        assert forall|i: int, j: int|
            0 <= i < placed.len() && 0 <= j < placed.len() && i != j implies (#[trigger] placed[i]).key != (
        #[trigger] placed[j]).key by {
            assert(buckets[i].key != buckets[j].key);
        }
    } else {
        let fresh = BucketModel { key: e.group, entries: seq![e] };
        lemma_emission_push(buckets, fresh);
        assert(emission(buckets) + seq![e] =~= emission(buckets).push(e));
        assert forall|i: int, k: int| 0 <= i < placed.len() && 0 <= k < placed[i].entries.len() implies (
        #[trigger] placed[i].entries[k]).group == placed[i].key by {
            if i < buckets.len() {
                assert(buckets[i].entries[k].group == buckets[i].key);
            }
        }
        assert forall|i: int| 0 <= i < placed.len() implies (#[trigger] placed[i]).entries.len() > 0 by {
            if i < buckets.len() {
                assert(buckets[i].entries.len() > 0);
            }
        }
        assert forall|i: int, j: int|
            0 <= i < placed.len() && 0 <= j < placed.len() && i != j implies (#[trigger] placed[i]).key != (
        #[trigger] placed[j]).key by {
            if i < buckets.len() && j < buckets.len() {
                assert(buckets[i].key != buckets[j].key);
            } else if i < buckets.len() {
                assert(buckets[i].key != e.group);
            } else {
                assert(buckets[j].key != e.group);
            }
        }
    }
}

/// Sorting the buckets keeps the entries: the emission after holds each
/// entry as often as the emission before.
pub proof fn lemma_sorting_keeps_entries(after: Seq<BucketModel>, before: Seq<BucketModel>, numeric: bool)
    requires
        is_sorted_index(after, before, numeric),
    ensures
        emission(after).to_multiset() == emission(before).to_multiset(),
    decreases after.len(),
{
    if after.len() > 0 {
        let a = after.drop_last();
        let b = before.drop_last();
        assert(is_sorted_index(a, b, numeric)) by {
            assert forall|i: int| 0 <= i < a.len() implies (#[trigger] a[i]).key == b[i].key
                && is_sorting_of(a[i].entries, b[i].entries, numeric) by {
                assert(a[i] == after[i]);
            }
        }
        lemma_sorting_keeps_entries(a, b, numeric);
        assert(after[after.len() - 1].key == before[after.len() - 1].key);
        vstd::seq_lib::lemma_multiset_commutative(emission(a), after.last().entries);
        vstd::seq_lib::lemma_multiset_commutative(emission(b), before.last().entries);
    }
}

/// In the emission of sorted buckets, of two entries of one group the one
/// that comes first may stand before the other by its sort key.
pub proof fn lemma_emission_ordered_within_groups(buckets: Seq<BucketModel>, numeric: bool, p: int, q: int)
    requires
        well_formed(buckets),
        forall|i: int| 0 <= i < buckets.len() ==> sorted_by_key((#[trigger] buckets[i]).entries, numeric),
        0 <= p < q < emission(buckets).len(),
        emission(buckets)[p].group == emission(buckets)[q].group,
    ensures
        key_le(emission(buckets)[p], emission(buckets)[q], numeric),
    decreases buckets.len(),
{
    let front = buckets.drop_last();
    let last = buckets.last();
    let n = emission(front).len();
    if q < n {
        assert(well_formed(front)) by {
            assert forall|a: int| 0 <= a < front.len() implies front[a] == buckets[a] by {}
        }
        assert forall|i: int| 0 <= i < front.len() implies sorted_by_key(
            (#[trigger] front[i]).entries,
            numeric,
        ) by {
            assert(front[i] == buckets[i]);
        }
        lemma_emission_ordered_within_groups(front, numeric, p, q);
    } else if p >= n {
        assert(sorted_by_key(buckets[buckets.len() - 1].entries, numeric));
    } else {
        let at = lemma_emission_member(front, p);
        assert(front[at.0] == buckets[at.0]);
        assert(buckets[at.0].entries[at.1].group == buckets[at.0].key);
        assert(last.entries[q - n].group == buckets[buckets.len() - 1].key);
        assert(buckets[at.0].key != buckets[buckets.len() - 1].key);
    }
}

/// The index that a run of entries builds: each entry is put in, in turn.
pub open spec fn grouping(entries: Seq<EntryModel>) -> Seq<BucketModel>
    decreases entries.len(),
{
    if entries.len() == 0 {
        Seq::empty()
    } else {
        place(grouping(entries.drop_last()), entries.last())
    }
}

/// The index that a run of entries builds is well formed and holds just the
/// entries of the run, each as often as the run does.
pub proof fn lemma_grouping_keeps_entries(entries: Seq<EntryModel>)
    ensures
        well_formed(grouping(entries)),
        emission(grouping(entries)).to_multiset() == entries.to_multiset(),
    decreases entries.len(),
{
    broadcast use vstd::seq_lib::group_to_multiset_ensures;

    if entries.len() == 0 {
        assert(emission(grouping(entries)) =~= entries);
    } else {
        lemma_grouping_keeps_entries(entries.drop_last());
        lemma_place_adds_entry(grouping(entries.drop_last()), entries.last());
        assert(entries.drop_last().push(entries.last()) =~= entries);
    }
}

/// Every entry of a bucket stands in the emission.
pub proof fn lemma_bucket_entry_in_emission(buckets: Seq<BucketModel>, i: int, k: int)
    requires
        0 <= i < buckets.len(),
        0 <= k < buckets[i].entries.len(),
    ensures
        emission(buckets).contains(buckets[i].entries[k]),
    decreases buckets.len(),
{
    let front = emission(buckets.drop_last());
    if i == buckets.len() - 1 {
        assert(emission(buckets)[front.len() + k] == buckets[i].entries[k]);
    } else {
        lemma_bucket_entry_in_emission(buckets.drop_last(), i, k);
        let p = choose|p: int| 0 <= p < front.len() && front[p] == buckets.drop_last()[i].entries[k];
        assert(emission(buckets)[p] == buckets[i].entries[k]);
    }
}

/// The index built from the emission of the buckets before the last and
/// the first `j` entries of the last bucket: those buckets, and after them
/// a bucket of the `j` entries if there are any.
proof fn lemma_grouping_partial(buckets: Seq<BucketModel>, j: int)
    requires
        well_formed(buckets),
        buckets.len() > 0,
        0 <= j <= buckets.last().entries.len(),
    ensures
        grouping(emission(buckets.drop_last()) + buckets.last().entries.take(j)) == if j == 0 {
            buckets.drop_last()
        } else {
            buckets.drop_last().push(
                BucketModel { key: buckets.last().key, entries: buckets.last().entries.take(j) },
            )
        },
    decreases buckets.len(), j,
{
    let front = buckets.drop_last();
    let last = buckets.last();
    let run = emission(front) + last.entries.take(j);
    assert(well_formed(front)) by {
        assert forall|a: int| 0 <= a < front.len() implies front[a] == buckets[a] by {}
    }
    if j == 0 {
        assert(run =~= emission(front));
        if front.len() == 0 {
            assert(grouping(run) =~= front);
        } else {
            let full = front.last().entries.len() as int;
            lemma_grouping_partial(front, full);
            assert(front[front.len() - 1].entries.len() > 0);
            assert(front.last().entries.take(full) =~= front.last().entries);
            assert(front.drop_last().push(front.last()) =~= front);
        }
    } else {
        let e = last.entries[j - 1];
        assert(buckets[buckets.len() - 1].entries[j - 1].group == buckets[buckets.len() - 1].key);
        assert(run.drop_last() =~= emission(front) + last.entries.take(j - 1));
        assert(run.last() == e);
        lemma_grouping_partial(buckets, j - 1);
        let held = grouping(run.drop_last());
        if j == 1 {
            assert(!holds_group(front, e.group)) by {
                if holds_group(front, e.group) {
                    let i = choose|i: int| 0 <= i < front.len() && (#[trigger] front[i]).key == e.group;
                    assert(buckets[i].key == buckets[buckets.len() - 1].key);
                }
            }
            assert(last.entries.take(1) =~= seq![e]);
        } else {
            let partial = BucketModel { key: last.key, entries: last.entries.take(j - 1) };
            assert(held == front.push(partial));
            assert(held[front.len() as int].key == e.group);
            assert(holds_group(held, e.group));
            let placed = held.map_values(|b: BucketModel| bucket_with(b, e));
            let wanted = front.push(BucketModel { key: last.key, entries: last.entries.take(j) });
            assert forall|i: int| 0 <= i < placed.len() implies placed[i] == wanted[i] by {
                if i < front.len() {
                    assert(held[i] == buckets[i]);
                    assert(buckets[i].key != buckets[buckets.len() - 1].key);
                } else {
                    assert(last.entries.take(j - 1).push(e) =~= last.entries.take(j));
                }
            }
            assert(placed =~= wanted);
        }
    }
}

/// Building an index from the emission of a well-formed index gives that
/// index back.
pub proof fn lemma_grouping_of_emission(buckets: Seq<BucketModel>)
    requires
        well_formed(buckets),
    ensures
        grouping(emission(buckets)) == buckets,
{
    if buckets.len() == 0 {
        assert(grouping(emission(buckets)) =~= buckets);
    } else {
        let full = buckets.last().entries.len() as int;
        lemma_grouping_partial(buckets, full);
        assert(buckets[buckets.len() - 1].entries.len() > 0);
        assert(buckets.last().entries.take(full) =~= buckets.last().entries);
        assert(buckets.drop_last().push(buckets.last()) =~= buckets);
    }
}

/// Sorting buckets that are sorted and free of ties changes nothing.
pub proof fn lemma_sorting_sorted_index(after: Seq<BucketModel>, before: Seq<BucketModel>, numeric: bool)
    requires
        is_sorted_index(after, before, numeric),
        forall|i: int| 0 <= i < before.len() ==> sorted_by_key((#[trigger] before[i]).entries, numeric),
        forall|i: int| 0 <= i < before.len() ==> tie_free((#[trigger] before[i]).entries, numeric),
    ensures
        after == before,
{
    assert forall|i: int| 0 <= i < after.len() implies after[i] == before[i] by {
        assert(after[i].key == before[i].key);
        assert(sorted_by_key(before[i].entries, numeric));
        assert(tie_free(before[i].entries, numeric));
        lemma_sorting_without_ties(after[i].entries, before[i].entries, numeric);
    }
    assert(after =~= before);
}

/// The emission keeps the groups together: an entry that stands between
/// two entries of one group is of that group too.
pub proof fn lemma_emission_keeps_groups_together(buckets: Seq<BucketModel>, p: int, q: int, r: int)
    requires
        well_formed(buckets),
        0 <= p <= q <= r < emission(buckets).len(),
        emission(buckets)[p].group == emission(buckets)[r].group,
    ensures
        emission(buckets)[q].group == emission(buckets)[p].group,
    decreases buckets.len(),
{
    let front = buckets.drop_last();
    let last = buckets.last();
    let n = emission(front).len();
    if r < n {
        assert(well_formed(front)) by {
            assert forall|a: int| 0 <= a < front.len() implies front[a] == buckets[a] by {}
        }
        lemma_emission_keeps_groups_together(front, p, q, r);
    } else {
        assert(buckets[buckets.len() - 1].entries[r - n].group == buckets[buckets.len() - 1].key);
        if p < n {
            let at = lemma_emission_member(front, p);
            assert(front[at.0] == buckets[at.0]);
            assert(buckets[at.0].entries[at.1].group == buckets[at.0].key);
            assert(buckets[at.0].key != buckets[buckets.len() - 1].key);
        } else {
            assert(buckets[buckets.len() - 1].entries[q - n].group == buckets[buckets.len() - 1].key);
        }
    }
}

} // verus!
