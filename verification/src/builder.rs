//! The index builder: turns a scanned record into an index entry.
//!
//! A record whose atom count cannot be read is skipped. Of any other record
//! the sort field and the group field are read, and an entry with these keys
//! and with the record's place in its source goes into the index.

use crate::entry::{Entry, EntryModel, GroupKey, GroupModel};
use crate::field::{atom_count_of, field_of, get_atom_count, get_field, FieldValue};
use crate::index::{place, BucketModel, Index};
use crate::numeric::{numeric_rank, rank_of};
use crate::scanner::line_models;
use vstd::prelude::*;

verus! {

/// What a run sorts by and groups by.
#[derive(Debug, Clone, PartialEq, Eq)]
pub struct SortPlan {
    /// The name of the field that holds the sort key.
    pub sort_field: Vec<u8>,
    /// The name of the field that holds the group key, in a grouped run.
    pub group_field: Option<Vec<u8>>,
    /// Whether sort keys are compared as numbers.
    pub numeric: bool,
}

/// The mathematical value of a [`SortPlan`].
pub struct PlanModel {
    pub sort_field: Seq<u8>,
    pub group_field: Option<Seq<u8>>,
    pub numeric: bool,
}

impl View for SortPlan {
    type V = PlanModel;

    open spec fn view(&self) -> PlanModel {
        PlanModel {
            sort_field: self.sort_field@,
            group_field: match self.group_field {
                Some(g) => Some(g@),
                None => None,
            },
            numeric: self.numeric,
        }
    }
}

/// What became of a record that was offered to the index.
#[derive(Debug, PartialEq, Eq, Clone, Copy, Structural)]
pub enum Outcome {
    /// The record is in the index.
    Indexed,
    /// The atom count of the record cannot be read: the record is left out,
    /// and the run goes on.
    Skipped,
    /// The run is numeric and the sort field of the record is no number: the
    /// run cannot go on.
    NotNumeric,
}

/// The text of a record's sort field; empty where the record has no such
/// field, so that it sorts before every other text.
pub open spec fn sort_text_of(lines: Seq<Seq<u8>>, plan: PlanModel) -> Seq<u8> {
    match field_of(lines, plan.sort_field) {
        Some(v) => v,
        None => Seq::empty(),
    }
}

/// The group of a record under a plan.
pub open spec fn group_of(lines: Seq<Seq<u8>>, plan: PlanModel) -> GroupModel {
    match plan.group_field {
        None => GroupModel::Ungrouped,
        Some(g) => match field_of(lines, g) {
            Some(v) => GroupModel::Present(v),
            None => GroupModel::Absent,
        },
    }
}

/// What becomes of a record. `number` holds the bits of the sort field read
/// as a double, or nothing where the field is no number.
pub open spec fn outcome_of(lines: Seq<Seq<u8>>, plan: PlanModel, number: Option<u64>) -> Outcome {
    if atom_count_of(lines) is None {
        Outcome::Skipped
    } else if plan.numeric && number is None {
        Outcome::NotNumeric
    } else {
        Outcome::Indexed
    }
}

/// The entry of a record that is indexed.
pub open spec fn entry_of(
    lines: Seq<Seq<u8>>,
    plan: PlanModel,
    number: Option<u64>,
    at: u64,
    size: u64,
) -> EntryModel {
    EntryModel {
        value: sort_text_of(lines, plan),
        value_num: match number {
            Some(bits) if plan.numeric => Some(rank_of(bits)),
            _ => None,
        },
        group: group_of(lines, plan),
        index: at,
        size: size,
    }
}

/// The index after a record has been offered to it.
pub open spec fn offered(
    buckets: Seq<BucketModel>,
    lines: Seq<Seq<u8>>,
    plan: PlanModel,
    number: Option<u64>,
    at: u64,
    size: u64,
) -> Seq<BucketModel> {
    if outcome_of(lines, plan, number) == Outcome::Indexed {
        place(buckets, entry_of(lines, plan, number, at, size))
    } else {
        buckets
    }
}

/// Reads the text of the sort field off a record. A numeric run reads this
/// text as a number before it offers the record to the index.
pub fn sort_text(lines: &Vec<Vec<u8>>, plan: &SortPlan) -> (text: Vec<u8>)
    ensures
        text@ == sort_text_of(line_models(lines@), plan@),
{
    match get_field(lines, plan.sort_field.as_slice()) {
        FieldValue::Found(v) => v,
        FieldValue::NotFound => Vec::new(),
    }
}

/// Reads the group of a record.
pub fn group_key(lines: &Vec<Vec<u8>>, plan: &SortPlan) -> (key: GroupKey)
    ensures
        key@ == group_of(line_models(lines@), plan@),
{
    match &plan.group_field {
        None => GroupKey::Ungrouped,
        Some(g) => match get_field(lines, g.as_slice()) {
            FieldValue::Found(v) => GroupKey::Present(v),
            FieldValue::NotFound => GroupKey::Absent,
        },
    }
}

/// Offers a record to the index. `at` and `size` say where the record is in
/// its source; `number` holds the bits of the sort field read as a double,
/// or nothing where the field is no number, and is not looked at unless the
/// run is numeric.
///
/// A record whose atom count cannot be read is skipped, whatever its sort
/// field holds. In a numeric run a record without a number stops the run.
/// Any other record is put in the bucket of its group.
pub fn index_record(
    index: &mut Index,
    plan: &SortPlan,
    lines: &Vec<Vec<u8>>,
    at: u64,
    size: u64,
    number: Option<u64>,
) -> (outcome: Outcome)
    requires
        old(index).wf(),
    ensures
        final(index).wf(),
        outcome == outcome_of(line_models(lines@), plan@, number),
        final(index)@ == offered(old(index)@, line_models(lines@), plan@, number, at, size),
{
    if get_atom_count(lines).is_none() {
        return Outcome::Skipped;
    }
    let value_num = if plan.numeric {
        match number {
            Some(bits) => Some(numeric_rank(bits)),
            None => {
                return Outcome::NotNumeric;
            },
        }
    } else {
        None
    };
    let entry = Entry {
        value: sort_text(lines, plan),
        value_num,
        group: group_key(lines, plan),
        index: at,
        size,
    };
    index.insert(entry);
    Outcome::Indexed
}

} // verus!
