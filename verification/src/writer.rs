//! The writer for records held in memory: lays out the lines of the records
//! in their final order.
//!
//! Each record is written as its lines followed by the closing line `$$$$`.
//! The lines of all records are joined by line feeds.

use crate::entry::{models, Entry, EntryModel};
use crate::scanner::{line_models, record_models, sentinel, Record, RecordModel, DOLLAR, LINE_FEED};
use crate::text::append_bytes;
use vstd::prelude::*;

verus! {

/// The order in which entries are written: as they stand, or from the last
/// to the first.
pub open spec fn written_order(order: Seq<EntryModel>, reverse: bool) -> Seq<EntryModel> {
    if reverse {
        order.reverse()
    } else {
        order
    }
}

/// Every entry names a record that is there.
pub open spec fn all_in_range(records: Seq<RecordModel>, order: Seq<EntryModel>) -> bool {
    forall|k: int| 0 <= k < order.len() ==> (#[trigger] order[k]).index < records.len()
}

/// The lines written for the entries of `order`, each of which names a
/// record by its place in `records`: the lines of the first record and a
/// closing line, then those of the second, and so on.
pub open spec fn written_lines(records: Seq<RecordModel>, order: Seq<EntryModel>) -> Seq<Seq<u8>>
    decreases order.len(),
{
    if order.len() == 0 {
        Seq::empty()
    } else {
        written_lines(records, order.drop_last()) + records[order.last().index as int].lines.push(
            sentinel(),
        )
    }
}

/// The lines joined by line feeds, with no line feed after the last.
pub open spec fn joined(lines: Seq<Seq<u8>>) -> Seq<u8>
    decreases lines.len(),
{
    if lines.len() == 0 {
        Seq::empty()
    } else if lines.len() == 1 {
        lines[0]
    } else {
        joined(lines.drop_last()) + seq![LINE_FEED] + lines.last()
    }
}

/// Lays out the records that `order` names, in that order or in reverse.
/// An entry names a record by its place in `records`. There is no result
/// where an entry names a record that is not there.
pub fn write_records(records: &Vec<Record>, order: &Vec<Entry>, reverse: bool) -> (lines: Option<
    Vec<Vec<u8>>,
>)
    ensures
        lines is Some <==> all_in_range(record_models(records@), models(order@)),
        lines is Some ==> line_models(lines->0@) == written_lines(
            record_models(records@),
            written_order(models(order@), reverse),
        ),
{
    let ghost rs = record_models(records@);
    let ghost os = written_order(models(order@), reverse);
    let n = order.len();
    let mut out: Vec<Vec<u8>> = Vec::new();
    let mut k: usize = 0;
    assert(os.take(0) =~= Seq::<EntryModel>::empty());
    assert(line_models(out@) =~= Seq::<Seq<u8>>::empty());
    while k < n
        invariant
            n == order@.len(),
            k <= n,
            rs == record_models(records@),
            os == written_order(models(order@), reverse),
            os.len() == n,
            forall|j: int| 0 <= j < k ==> (#[trigger] os[j]).index < rs.len(),
            line_models(out@) == written_lines(rs, os.take(k as int)),
        decreases n - k,
    {
        let entry = if reverse {
            &order[n - 1 - k]
        } else {
            &order[k]
        };
        assert(entry@ == os[k as int]);
        if entry.index >= records.len() as u64 {
            proof {
                let at = if reverse {
                    n - 1 - k
                } else {
                    k as int
                };
                assert(models(order@)[at] == entry@);
            }
            return None;
        }
        let record = &records[entry.index as usize];
        let ghost before = line_models(out@);
        let m = record.lines.len();
        let mut j: usize = 0;
        while j < m
            invariant
                m == record.lines@.len(),
                j <= m,
                line_models(out@) == before + line_models(record.lines@).take(j as int),
            decreases m - j,
        {
            let ghost held = out@;
            let line = record.lines[j].clone();
            assert(line@ == line_models(record.lines@)[j as int]);
            out.push(line);
            assert(line_models(out@) =~= line_models(held).push(line@));
            assert(line_models(out@) =~= before + line_models(record.lines@).take(j + 1));
            j += 1;
        }
        let mut closing: Vec<u8> = Vec::new();
        closing.push(DOLLAR);
        closing.push(DOLLAR);
        closing.push(DOLLAR);
        closing.push(DOLLAR);
        assert(closing@ =~= sentinel());
        let ghost held = out@;
        out.push(closing);
        proof {
            assert(line_models(out@) =~= line_models(held).push(sentinel()));
            assert(line_models(record.lines@).take(m as int) =~= line_models(record.lines@));
            assert(rs[entry.index as int] == record@);
            assert(os.take(k + 1).drop_last() =~= os.take(k as int));
            assert(os.take(k + 1).last() == os[k as int]);
            assert(line_models(out@) =~= before + record@.lines.push(sentinel()));
        }
        k += 1;
    }
    proof {
        assert(os.take(n as int) =~= os);
        assert forall|i: int| 0 <= i < order@.len() implies (#[trigger] models(order@)[i]).index
            < rs.len() by {
            if reverse {
                assert(os[n - 1 - i] == models(order@)[i]);
            } else {
                assert(os[i] == models(order@)[i]);
            }
        }
    }
    Some(out)
}

/// Joins lines by line feeds into the bytes of a file. No line feed follows
/// the last line.
pub fn join_lines(lines: &Vec<Vec<u8>>) -> (bytes: Vec<u8>)
    ensures
        bytes@ == joined(line_models(lines@)),
{
    let ghost ls = line_models(lines@);
    let n = lines.len();
    let mut bytes: Vec<u8> = Vec::new();
    let mut i: usize = 0;
    assert(ls.take(0) =~= Seq::<Seq<u8>>::empty());
    while i < n
        invariant
            n == lines@.len(),
            i <= n,
            ls == line_models(lines@),
            bytes@ == joined(ls.take(i as int)),
        decreases n - i,
    {
        let ghost before = bytes@;
        if i > 0 {
            bytes.push(LINE_FEED);
        }
        let line = &lines[i];
        append_bytes(&mut bytes, line.as_slice());
        proof {
            assert(ls.take(i + 1).drop_last() =~= ls.take(i as int));
            assert(ls.take(i + 1).last() == line@);
            if i == 0 {
                assert(bytes@ =~= line@);
            } else {
                assert(bytes@ =~= before + seq![LINE_FEED] + line@);
            }
        }
        i += 1;
    }
    assert(ls.take(n as int) =~= ls);
    bytes
}

} // verus!
