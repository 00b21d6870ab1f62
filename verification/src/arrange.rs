//! Sorting records that are held in memory.
//!
//! The records are offered to an index one after the other, each under its
//! place in the run of records; the buckets are sorted; and the entries come
//! out bucket after bucket, the buckets in the order in which their groups
//! first appeared.

use crate::builder::{entry_of, index_record, outcome_of, Outcome, PlanModel, SortPlan};
use crate::engine::{sorted_by_key, tie_free};
use crate::entry::{key_le, models, Entry, EntryModel};
use crate::index::{
    emission, grouping, is_sorted_index, lemma_bucket_entry_in_emission,
    lemma_emission_keeps_groups_together,
    lemma_emission_ordered_within_groups, lemma_grouping_keeps_entries, lemma_grouping_of_emission,
    lemma_sorted_index_well_formed, lemma_sorting_keeps_entries, lemma_sorting_sorted_index,
    BucketModel, Index,
};
use crate::scanner::{line_models, record_models, Record, RecordModel};
use crate::writer::{all_in_range, write_records, written_lines, written_order};
use vstd::prelude::*;

verus! {

/// Why a run came to nothing.
#[derive(Debug, PartialEq, Eq, Clone, Copy, Structural)]
pub enum SortError {
    /// The run is numeric and the sort field of this record, counted from
    /// zero, is no number.
    NotNumeric { record: usize },
}

/// The outcome of a run over records held in memory.
#[derive(Debug, Clone, PartialEq, Eq)]
pub struct Arrangement {
    /// The entries in the order of emission. An entry names its record by
    /// the record's place in the run.
    pub order: Vec<Entry>,
    /// The places of the records that were skipped, in rising order.
    pub skipped: Vec<usize>,
}

/// The number that goes with record `i`; none where the run of numbers is
/// too short.
pub open spec fn number_at(numbers: Seq<Option<u64>>, i: int) -> Option<u64> {
    if 0 <= i < numbers.len() {
        numbers[i]
    } else {
        None
    }
}

/// What becomes of record `i`.
pub open spec fn outcome_at(
    records: Seq<RecordModel>,
    plan: PlanModel,
    numbers: Seq<Option<u64>>,
    i: int,
) -> Outcome {
    outcome_of(records[i].lines, plan, number_at(numbers, i))
}

/// The entries of the records that are indexed among the first `n`, in the
/// order of the records. An entry names its record by the record's place.
pub open spec fn kept_entries(
    records: Seq<RecordModel>,
    plan: PlanModel,
    numbers: Seq<Option<u64>>,
    n: int,
) -> Seq<EntryModel>
    decreases n,
{
    if n <= 0 {
        Seq::empty()
    } else if outcome_at(records, plan, numbers, n - 1) == Outcome::Indexed {
        kept_entries(records, plan, numbers, n - 1).push(
            entry_of(
                records[n - 1].lines,
                plan,
                number_at(numbers, n - 1),
                (n - 1) as u64,
                records[n - 1].size as u64,
            ),
        )
    } else {
        kept_entries(records, plan, numbers, n - 1)
    }
}

/// Every entry that is kept names one of the first `n` records.
pub proof fn lemma_kept_entries_name_records(
    records: Seq<RecordModel>,
    plan: PlanModel,
    numbers: Seq<Option<u64>>,
    n: int,
    k: int,
)
    requires
        0 <= n <= usize::MAX,
        0 <= k < kept_entries(records, plan, numbers, n).len(),
    ensures
        kept_entries(records, plan, numbers, n)[k].index < n,
    decreases n,
{
    if n > 0 {
        let before = kept_entries(records, plan, numbers, n - 1);
        if k < before.len() {
            lemma_kept_entries_name_records(records, plan, numbers, n - 1, k);
        }
    }
}

/// The places of the records that are skipped among the first `n`.
pub open spec fn skipped_among(
    records: Seq<RecordModel>,
    plan: PlanModel,
    numbers: Seq<Option<u64>>,
    n: int,
) -> Seq<usize>
    decreases n,
{
    if n <= 0 {
        Seq::empty()
    } else if outcome_at(records, plan, numbers, n - 1) == Outcome::Skipped {
        skipped_among(records, plan, numbers, n - 1).push((n - 1) as usize)
    } else {
        skipped_among(records, plan, numbers, n - 1)
    }
}

/// `order` is an arrangement of `entries`: the entries are grouped into
/// buckets, the buckets standing in the order in which their groups first
/// appear; each bucket is sorted; and the buckets are emitted one after the
/// other.
pub open spec fn is_arrangement(order: Seq<EntryModel>, entries: Seq<EntryModel>, numeric: bool) -> bool {
    exists|sorted: Seq<BucketModel>| #[trigger]
        is_sorted_index(sorted, grouping(entries), numeric) && order == emission(sorted)
}

/// Record `i` is the first that stops a numeric run: it is not skipped and
/// has no number, and no record before it is like that.
pub open spec fn fails_first_at(
    records: Seq<RecordModel>,
    plan: PlanModel,
    numbers: Seq<Option<u64>>,
    i: int,
) -> bool {
    &&& 0 <= i < records.len()
    &&& outcome_at(records, plan, numbers, i) == Outcome::NotNumeric
    &&& forall|k: int| 0 <= k < i ==> outcome_at(records, plan, numbers, k) != Outcome::NotNumeric
}

/// No record stops the run.
pub open spec fn never_fails(records: Seq<RecordModel>, plan: PlanModel, numbers: Seq<Option<u64>>) -> bool {
    forall|i: int| 0 <= i < records.len() ==> outcome_at(records, plan, numbers, i) != Outcome::NotNumeric
}

/// Groups and sorts records held in memory. `numbers[i]` holds the bits of
/// the sort field of record `i` read as a double, or nothing where the field
/// is no number; the numbers are not looked at unless the run is numeric.
///
/// Records whose atom count cannot be read are skipped and listed. A numeric
/// run fails at the first record that is not skipped and has no number.
pub fn order_records(records: &Vec<Record>, plan: &SortPlan, numbers: &Vec<Option<u64>>) -> (result:
    Result<Arrangement, SortError>)
    ensures
        match result {
            Err(SortError::NotNumeric { record }) => fails_first_at(
                record_models(records@),
                plan@,
                numbers@,
                record as int,
            ),
            Ok(done) => {
                &&& never_fails(record_models(records@), plan@, numbers@)
                &&& is_arrangement(
                    models(done.order@),
                    kept_entries(record_models(records@), plan@, numbers@, records@.len() as int),
                    plan.numeric,
                )
                &&& done.order@.len() + done.skipped@.len() == records@.len()
                &&& forall|k: int|
                    0 <= k < done.order@.len() ==> (#[trigger] done.order@[k]).index < records@.len()
                &&& done.skipped@ == skipped_among(
                    record_models(records@),
                    plan@,
                    numbers@,
                    records@.len() as int,
                )
            },
        },
{
    let ghost rs = record_models(records@);
    let n = records.len();
    let mut index = Index::new();
    let mut skipped: Vec<usize> = Vec::new();
    let mut i: usize = 0;
    while i < n
        invariant
            n == records@.len(),
            i <= n,
            rs == record_models(records@),
            index.wf(),
            index@ == grouping(kept_entries(rs, plan@, numbers@, i as int)),
            kept_entries(rs, plan@, numbers@, i as int).len() + skipped@.len() == i,
            skipped@ == skipped_among(rs, plan@, numbers@, i as int),
            forall|k: int| 0 <= k < i ==> outcome_at(rs, plan@, numbers@, k) != Outcome::NotNumeric,
        decreases n - i,
    {
        let record = &records[i];
        assert(rs[i as int] == record@);
        let number = if i < numbers.len() {
            numbers[i]
        } else {
            None
        };
        match index_record(&mut index, plan, &record.lines, i as u64, record.size, number) {
            Outcome::Indexed => {
                assert(kept_entries(rs, plan@, numbers@, i + 1).drop_last() =~= kept_entries(
                    rs,
                    plan@,
                    numbers@,
                    i as int,
                ));
            },
            Outcome::Skipped => {
                skipped.push(i);
            },
            Outcome::NotNumeric => {
                return Err(SortError::NotNumeric { record: i });
            },
        }
        i += 1;
    }
    let ghost buckets = index@;
    index.sort(plan.numeric);
    let ghost sorted = index@;
    let order = index.into_entries();
    proof {
        let kept = kept_entries(rs, plan@, numbers@, n as int);
        assert(is_sorted_index(sorted, grouping(kept), plan.numeric) && models(order@) == emission(
            sorted,
        ));
        lemma_arrangement_keeps_entries(models(order@), kept, plan.numeric);
        assert forall|k: int| 0 <= k < order@.len() implies (#[trigger] order@[k]).index < n by {
            broadcast use vstd::seq_lib::group_to_multiset_ensures;

            let e = models(order@)[k];
            assert(models(order@).contains(e));
            assert(kept.to_multiset().count(e) > 0);
            assert(kept.contains(e));
            let at = choose|at: int| 0 <= at < kept.len() && kept[at] == e;
            lemma_kept_entries_name_records(rs, plan@, numbers@, n as int, at);
        }
    }
    Ok(Arrangement { order, skipped })
}

/// What a run over records held in memory writes.
#[derive(Debug, Clone, PartialEq, Eq)]
pub struct SortedText {
    /// The lines of the records in their final order, each record closed by
    /// a `$$$$` line.
    pub lines: Vec<Vec<u8>>,
    /// The places of the records that were skipped, in rising order.
    pub skipped: Vec<usize>,
}

/// Sorts records held in memory and lays out their lines: the records are
/// grouped and sorted as [`order_records`] does, and written in that order,
/// or in the reverse of it, as [`write_records`] does.
pub fn sort_records(
    records: &Vec<Record>,
    plan: &SortPlan,
    numbers: &Vec<Option<u64>>,
    reverse: bool,
) -> (result: Result<SortedText, SortError>)
    ensures
        match result {
            Err(SortError::NotNumeric { record }) => fails_first_at(
                record_models(records@),
                plan@,
                numbers@,
                record as int,
            ),
            Ok(text) => {
                &&& never_fails(record_models(records@), plan@, numbers@)
                &&& text.skipped@ == skipped_among(
                    record_models(records@),
                    plan@,
                    numbers@,
                    records@.len() as int,
                )
                &&& exists|order: Seq<EntryModel>| #[trigger]
                    is_arrangement(
                        order,
                        kept_entries(record_models(records@), plan@, numbers@, records@.len() as int),
                        plan.numeric,
                    ) && line_models(text.lines@) == written_lines(
                        record_models(records@),
                        written_order(order, reverse),
                    )
            },
        },
{
    match order_records(records, plan, numbers) {
        Err(e) => Err(e),
        Ok(done) => {
            assert(all_in_range(record_models(records@), models(done.order@)));
            match write_records(records, &done.order, reverse) {
                Some(lines) => Ok(SortedText { lines, skipped: done.skipped }),
                None => vstd::pervasive::unreached(),
            }
        },
    }
}

/// An arrangement holds the entries it was made from, each as often as it
/// was given: no entry is lost, doubled or made up.
pub proof fn lemma_arrangement_keeps_entries(order: Seq<EntryModel>, entries: Seq<EntryModel>, numeric: bool)
    requires
        is_arrangement(order, entries, numeric),
    ensures
        order.to_multiset() == entries.to_multiset(),
        order.len() == entries.len(),
{
    broadcast use vstd::seq_lib::group_to_multiset_ensures;

    let sorted = choose|sorted: Seq<BucketModel>| #[trigger]
        is_sorted_index(sorted, grouping(entries), numeric) && order == emission(sorted);
    lemma_sorting_keeps_entries(sorted, grouping(entries), numeric);
    lemma_grouping_keeps_entries(entries);
    assert(order.to_multiset().len() == entries.to_multiset().len());
}

/// In an arrangement, of two entries of one group the one that comes first
/// may stand before the other by its sort key.
pub proof fn lemma_arrangement_ordered_within_groups(
    order: Seq<EntryModel>,
    entries: Seq<EntryModel>,
    numeric: bool,
    p: int,
    q: int,
)
    requires
        is_arrangement(order, entries, numeric),
        0 <= p < q < order.len(),
        order[p].group == order[q].group,
    ensures
        key_le(order[p], order[q], numeric),
{
    let sorted = choose|sorted: Seq<BucketModel>| #[trigger]
        is_sorted_index(sorted, grouping(entries), numeric) && order == emission(sorted);
    lemma_grouping_keeps_entries(entries);
    lemma_sorted_index_well_formed(sorted, grouping(entries), numeric);
    lemma_emission_ordered_within_groups(sorted, numeric, p, q);
}

/// No two different entries of one group tie.
pub open spec fn no_ties_within_groups(entries: Seq<EntryModel>, numeric: bool) -> bool {
    forall|i: int, j: int|
        0 <= i < entries.len() && 0 <= j < entries.len() && entries[i].group == entries[j].group && key_le(
            entries[i],
            entries[j],
            numeric,
        ) && key_le(entries[j], entries[i], numeric) ==> entries[i] == entries[j]
}

/// Arranging an arrangement again changes nothing, as long as no two
/// different entries of one group tie: where entries tie, their order is
/// left open, and a second run may settle it otherwise.
pub proof fn lemma_arranging_again_changes_nothing(
    entries: Seq<EntryModel>,
    order: Seq<EntryModel>,
    again: Seq<EntryModel>,
    numeric: bool,
)
    requires
        no_ties_within_groups(entries, numeric),
        is_arrangement(order, entries, numeric),
        is_arrangement(again, order, numeric),
    ensures
        again == order,
{
    broadcast use vstd::seq_lib::group_to_multiset_ensures;

    let first = choose|sorted: Seq<BucketModel>| #[trigger]
        is_sorted_index(sorted, grouping(entries), numeric) && order == emission(sorted);
    let second = choose|sorted: Seq<BucketModel>| #[trigger]
        is_sorted_index(sorted, grouping(order), numeric) && again == emission(sorted);
    lemma_grouping_keeps_entries(entries);
    lemma_sorted_index_well_formed(first, grouping(entries), numeric);
    lemma_sorting_keeps_entries(first, grouping(entries), numeric);
    lemma_grouping_of_emission(first);
    assert forall|b: int| 0 <= b < first.len() implies tie_free((#[trigger] first[b]).entries, numeric) by {
        let run = first[b].entries;
        assert forall|i: int, j: int|
            0 <= i < run.len() && 0 <= j < run.len() && key_le(run[i], run[j], numeric) && key_le(
                run[j],
                run[i],
                numeric,
            ) implies run[i] == run[j] by {
            lemma_bucket_entry_in_emission(first, b, i);
            lemma_bucket_entry_in_emission(first, b, j);
            assert(order.to_multiset().count(run[i]) > 0);
            assert(order.to_multiset().count(run[j]) > 0);
            assert(entries.contains(run[i]));
            assert(entries.contains(run[j]));
            let x = choose|x: int| 0 <= x < entries.len() && entries[x] == run[i];
            let y = choose|y: int| 0 <= y < entries.len() && entries[y] == run[j];
            assert(first[b].entries[i].group == first[b].key);
            assert(first[b].entries[j].group == first[b].key);
            assert(entries[x] == entries[y]);
        }
    }
    assert forall|b: int| 0 <= b < first.len() implies sorted_by_key(
        (#[trigger] first[b]).entries,
        numeric,
    ) by {}
    lemma_sorting_sorted_index(second, first, numeric);
}

/// An arrangement keeps the groups together: an entry that stands between
/// two entries of one group is of that group too.
pub proof fn lemma_arrangement_keeps_groups_together(
    order: Seq<EntryModel>,
    entries: Seq<EntryModel>,
    numeric: bool,
    p: int,
    q: int,
    r: int,
)
    requires
        is_arrangement(order, entries, numeric),
        0 <= p <= q <= r < order.len(),
        order[p].group == order[r].group,
    ensures
        order[q].group == order[p].group,
{
    let sorted = choose|sorted: Seq<BucketModel>| #[trigger]
        is_sorted_index(sorted, grouping(entries), numeric) && order == emission(sorted);
    lemma_grouping_keeps_entries(entries);
    lemma_sorted_index_well_formed(sorted, grouping(entries), numeric);
    lemma_emission_keeps_groups_together(sorted, p, q, r);
}

} // verus!
