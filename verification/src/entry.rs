//! Index entries: what is kept of a record once it has been scanned.
//!
//! An entry holds the record's sort key, its group key and the place of the
//! record in its source. The record's body is not kept.

use crate::text::{bytes_equal, common_prefix_len, lex_le};
use std::cmp::Ordering;
use vstd::prelude::*;

verus! {

/// The group a record falls in.
///
/// A run without a group field puts every record in the one `Ungrouped`
/// bucket. With a group field, records that lack the field form a bucket of
/// their own, `Absent`, apart from the records whose field is there and
/// empty.
#[derive(Debug, Clone, PartialEq, Eq)]
pub enum GroupKey {
    /// No group field was asked for.
    Ungrouped,
    /// A group field was asked for and the record has none.
    Absent,
    /// The value of the record's group field.
    Present(Vec<u8>),
}

/// The mathematical value of a [`GroupKey`].
pub enum GroupModel {
    Ungrouped,
    Absent,
    Present(Seq<u8>),
}

impl View for GroupKey {
    type V = GroupModel;

    open spec fn view(&self) -> GroupModel {
        match self {
            GroupKey::Ungrouped => GroupModel::Ungrouped,
            GroupKey::Absent => GroupModel::Absent,
            GroupKey::Present(v) => GroupModel::Present(v@),
        }
    }
}

impl GroupKey {
    /// Whether two group keys name the same bucket.
    pub fn same(&self, other: &GroupKey) -> (same: bool)
        ensures
            same == (self@ == other@),
    {
        match (self, other) {
            (GroupKey::Ungrouped, GroupKey::Ungrouped) => true,
            (GroupKey::Absent, GroupKey::Absent) => true,
            (GroupKey::Present(a), GroupKey::Present(b)) => bytes_equal(
                a.as_slice(),
                b.as_slice(),
            ),
            _ => false,
        }
    }

    /// A copy of the key.
    pub fn duplicate(&self) -> (copy: GroupKey)
        ensures
            copy@ == self@,
    {
        match self {
            GroupKey::Ungrouped => GroupKey::Ungrouped,
            GroupKey::Absent => GroupKey::Absent,
            GroupKey::Present(v) => GroupKey::Present(v.clone()),
        }
    }
}

/// One indexed record.
#[derive(Debug, Clone, PartialEq, Eq)]
pub struct Entry {
    /// The text of the sort field; empty where the record has no such field.
    pub value: Vec<u8>,
    /// The rank of the sort field read as a number, in a numeric run.
    pub value_num: Option<u64>,
    /// The bucket the record belongs to.
    pub group: GroupKey,
    /// Where the record starts in its source.
    pub index: u64,
    /// How much of the source the record takes.
    pub size: u64,
}

/// The mathematical value of an [`Entry`].
pub struct EntryModel {
    pub value: Seq<u8>,
    pub value_num: Option<u64>,
    pub group: GroupModel,
    pub index: u64,
    pub size: u64,
}

impl View for Entry {
    type V = EntryModel;

    open spec fn view(&self) -> EntryModel {
        EntryModel {
            value: self.value@,
            value_num: self.value_num,
            group: self.group@,
            index: self.index,
            size: self.size,
        }
    }
}

/// The values of a run of entries, one for one.
pub open spec fn models(entries: Seq<Entry>) -> Seq<EntryModel> {
    entries.map_values(|e: Entry| e@)
}

/// The order of numeric keys: by rank, a missing rank before every rank.
pub open spec fn rank_le(a: Option<u64>, b: Option<u64>) -> bool {
    match (a, b) {
        (None, _) => true,
        (Some(_), None) => false,
        (Some(x), Some(y)) => x <= y,
    }
}

/// `a` may stand before `b` in a sorted bucket: by rank in a numeric run,
/// else by the bytes of the sort field.
pub open spec fn key_le(a: EntryModel, b: EntryModel, numeric: bool) -> bool {
    if numeric {
        rank_le(a.value_num, b.value_num)
    } else {
        lex_le(a.value, b.value)
    }
}

/// Compares two entries by their sort keys. No other field is looked at:
/// entries with equal keys compare as equal.
pub fn entry_order(a: &Entry, b: &Entry, numeric: bool) -> (o: Ordering)
    ensures
        (o == Ordering::Less || o == Ordering::Equal) <==> key_le(a@, b@, numeric),
        (o == Ordering::Greater || o == Ordering::Equal) <==> key_le(b@, a@, numeric),
{
    if numeric {
        match (&a.value_num, &b.value_num) {
            (None, None) => Ordering::Equal,
            (None, Some(_)) => Ordering::Less,
            (Some(_), None) => Ordering::Greater,
            (Some(x), Some(y)) => {
                if *x < *y {
                    Ordering::Less
                } else if *x == *y {
                    Ordering::Equal
                } else {
                    Ordering::Greater
                }
            },
        }
    } else {
        let p = common_prefix_len(a.value.as_slice(), b.value.as_slice());
        if p == a.value.len() {
            if p == b.value.len() {
                Ordering::Equal
            } else {
                Ordering::Less
            }
        } else if p == b.value.len() {
            Ordering::Greater
        } else if a.value[p] < b.value[p] {
            Ordering::Less
        } else {
            Ordering::Greater
        }
    }
}

/// Of two entries, one may stand before the other.
pub proof fn lemma_key_le_total(a: EntryModel, b: EntryModel, numeric: bool)
    ensures
        key_le(a, b, numeric) || key_le(b, a, numeric),
{
    crate::text::lemma_lex_le_total(a.value, b.value);
}

/// If `a` may stand before `b` and `b` before `c`, then `a` may stand
/// before `c`.
pub proof fn lemma_key_le_transitive(a: EntryModel, b: EntryModel, c: EntryModel, numeric: bool)
    requires
        key_le(a, b, numeric),
        key_le(b, c, numeric),
    ensures
        key_le(a, c, numeric),
{
    if !numeric {
        crate::text::lemma_lex_le_transitive(a.value, b.value, c.value);
    }
}

/// In a run by text, entries tie only where their sort fields hold the
/// same bytes; in a numeric run, only where their ranks are the same.
pub proof fn lemma_ties_have_equal_keys(a: EntryModel, b: EntryModel, numeric: bool)
    requires
        key_le(a, b, numeric),
        key_le(b, a, numeric),
    ensures
        numeric ==> a.value_num == b.value_num,
        !numeric ==> a.value == b.value,
{
    if !numeric {
        crate::text::lemma_lex_le_antisymmetric(a.value, b.value);
    }
}

} // verus!
