//! The record scanner: splits a stream of lines into records.
//!
//! A record is the run of lines up to a line that holds exactly `$$$$`. The
//! scanner is fed one raw line at a time, each with its line ending, and
//! counts the bytes it is fed: a record is handed out with the place where
//! it starts and the number of bytes it takes, its closing line included.

use vstd::prelude::*;
use vstd::slice::{slice_subrange, slice_to_vec};

verus! {

/// The line feed that ends a line.
pub const LINE_FEED: u8 = 10u8;

/// The carriage return that may stand before the line feed.
pub const CARRIAGE_RETURN: u8 = 13u8;

/// The dollar sign, of which the closing line of a record holds four.
pub const DOLLAR: u8 = 36u8;

/// The contents of a run of lines, one for one.
pub open spec fn line_models(lines: Seq<Vec<u8>>) -> Seq<Seq<u8>> {
    lines.map_values(|l: Vec<u8>| l@)
}

/// The closing line of a record: `$$$$`.
pub open spec fn sentinel() -> Seq<u8> {
    seq![DOLLAR, DOLLAR, DOLLAR, DOLLAR]
}

/// `s` without its last byte, where that byte is `byte`.
pub open spec fn without_last(s: Seq<u8>, byte: u8) -> Seq<u8> {
    if s.len() > 0 && s.last() == byte {
        s.drop_last()
    } else {
        s
    }
}

/// What a raw line holds once its ending is taken off: a line feed at the
/// end goes, and then a carriage return at the end goes.
pub open spec fn line_content(raw: Seq<u8>) -> Seq<u8> {
    without_last(without_last(raw, LINE_FEED), CARRIAGE_RETURN)
}

/// The mathematical value of a scanned record.
pub struct RecordModel {
    /// The lines of the record without their endings, the closing line left out.
    pub lines: Seq<Seq<u8>>,
    /// The number of bytes fed before the record began.
    pub offset: int,
    /// The number of bytes of the record, its closing line included.
    pub size: int,
}

/// The mathematical value of a scanner: the record it is in the middle of.
pub struct ScanModel {
    /// The lines read since the last closing line.
    pub lines: Seq<Seq<u8>>,
    /// The number of bytes fed before those lines.
    pub start: int,
    /// The number of bytes of those lines.
    pub taken: int,
}

/// A scanner that has been fed nothing and stands `start` bytes into its
/// source.
pub open spec fn fresh_at(start: int) -> ScanModel {
    ScanModel { lines: Seq::empty(), start: start, taken: 0 }
}

/// A scanner that has been fed nothing and stands at the start of its source.
pub open spec fn fresh() -> ScanModel {
    fresh_at(0)
}

/// The scanner after it is fed the raw line `raw`.
pub open spec fn fed_state(s: ScanModel, raw: Seq<u8>) -> ScanModel {
    if line_content(raw) == sentinel() {
        ScanModel { lines: Seq::empty(), start: s.start + s.taken + raw.len(), taken: 0 }
    } else {
        ScanModel { lines: s.lines.push(line_content(raw)), start: s.start, taken: s.taken + raw.len() }
    }
}

/// The record that feeding `raw` completes, if `raw` is a closing line.
pub open spec fn fed_record(s: ScanModel, raw: Seq<u8>) -> Option<RecordModel> {
    if line_content(raw) == sentinel() {
        Some(RecordModel { lines: s.lines, offset: s.start, size: s.taken + raw.len() })
    } else {
        None
    }
}

/// Some line holds at least one byte.
pub open spec fn has_content(lines: Seq<Seq<u8>>) -> bool {
    exists|i: int| 0 <= i < lines.len() && (#[trigger] lines[i]).len() > 0
}

/// The record that is left when the input ends: the lines read since the
/// last closing line, if any of them holds anything.
pub open spec fn left_over(s: ScanModel) -> Option<RecordModel> {
    if has_content(s.lines) {
        Some(RecordModel { lines: s.lines, offset: s.start, size: s.taken })
    } else {
        None
    }
}

/// A scanned record: its lines, and the bytes of the source that it takes.
#[derive(Debug, Clone, PartialEq, Eq)]
pub struct Record {
    /// The lines of the record without their endings, the closing line left out.
    pub lines: Vec<Vec<u8>>,
    /// Where the record starts in the source.
    pub offset: u64,
    /// The number of bytes the record takes in the source.
    pub size: u64,
}

impl View for Record {
    type V = RecordModel;

    open spec fn view(&self) -> RecordModel {
        RecordModel { lines: line_models(self.lines@), offset: self.offset as int, size: self.size as int }
    }
}

/// The values of a run of records, one for one.
pub open spec fn record_models(records: Seq<Record>) -> Seq<RecordModel> {
    records.map_values(|r: Record| r@)
}

/// The value of an optional record.
pub open spec fn optional_model(record: Option<Record>) -> Option<RecordModel> {
    match record {
        Some(r) => Some(r@),
        None => None,
    }
}

/// Whether a line, its ending taken off, is the closing line of a record.
pub fn is_sentinel(line: &[u8]) -> (yes: bool)
    ensures
        yes == (line@ == sentinel()),
{
    let yes = line.len() == 4 && line[0] == DOLLAR && line[1] == DOLLAR && line[2] == DOLLAR && line[3]
        == DOLLAR;
    proof {
        if yes {
            assert(line@ =~= sentinel());
        }
    }
    yes
}

/// Takes the line ending off a raw line.
pub fn strip_line_ending(raw: &[u8]) -> (content: Vec<u8>)
    ensures
        content@ == line_content(raw@),
{
    let mut end: usize = raw.len();
    if end > 0 && raw[end - 1] == LINE_FEED {
        end -= 1;
    }
    assert(raw@.subrange(0, end as int) =~= without_last(raw@, LINE_FEED));
    if end > 0 && raw[end - 1] == CARRIAGE_RETURN {
        end -= 1;
    }
    assert(raw@.subrange(0, end as int) =~= line_content(raw@));
    slice_to_vec(slice_subrange(raw, 0, end))
}

/// The scanner: the lines of the record it is in the middle of, and its
/// place in the source.
pub struct RecordScanner {
    lines: Vec<Vec<u8>>,
    start: u64,
    taken: u64,
}

impl View for RecordScanner {
    type V = ScanModel;

    closed spec fn view(&self) -> ScanModel {
        ScanModel { lines: line_models(self.lines@), start: self.start as int, taken: self.taken as int }
    }
}

impl RecordScanner {
    /// The scanner is valid: its place in the source fits in 64 bits.
    pub open spec fn wf(&self) -> bool {
        0 <= self@.start && 0 <= self@.taken && self@.start + self@.taken <= u64::MAX
    }

    /// A scanner at the start of a source.
    pub fn new() -> (scanner: RecordScanner)
        ensures
            scanner.wf(),
            scanner@ == fresh(),
    {
        let scanner = RecordScanner { lines: Vec::new(), start: 0, taken: 0 };
        assert(line_models(scanner.lines@) =~= Seq::<Seq<u8>>::empty());
        scanner
    }

    /// A scanner for a source that is read from `offset` on: the records it
    /// hands out are placed as they lie in the whole source.
    pub fn starting_at(offset: u64) -> (scanner: RecordScanner)
        ensures
            scanner.wf(),
            scanner@ == fresh_at(offset as int),
    {
        let scanner = RecordScanner { lines: Vec::new(), start: offset, taken: 0 };
        assert(line_models(scanner.lines@) =~= Seq::<Seq<u8>>::empty());
        scanner
    }

    /// The place the scanner has reached in its source.
    pub fn position(&self) -> (position: u64)
        requires
            self.wf(),
        ensures
            position == self@.start + self@.taken,
    {
        self.start + self.taken
    }

    /// Feeds one raw line, with its line ending if it has one. A closing
    /// line completes the record, which is handed out; any other line is
    /// added to the record.
    pub fn feed(&mut self, raw: &[u8]) -> (record: Option<Record>)
        requires
            old(self).wf(),
            old(self)@.start + old(self)@.taken + raw@.len() <= u64::MAX,
        ensures
            final(self).wf(),
            final(self)@ == fed_state(old(self)@, raw@),
            optional_model(record) == fed_record(old(self)@, raw@),
    {
        let content = strip_line_ending(raw);
        let size: u64 = self.taken + raw.len() as u64;
        if is_sentinel(content.as_slice()) {
            let mut lines: Vec<Vec<u8>> = Vec::new();
            std::mem::swap(&mut lines, &mut self.lines);
            let record = Record { lines, offset: self.start, size };
            self.start = self.start + size;
            self.taken = 0;
            assert(line_models(self.lines@) =~= Seq::<Seq<u8>>::empty());
            Some(record)
        } else {
            let ghost before = line_models(self.lines@);
            self.lines.push(content);
            self.taken = size;
            assert(line_models(self.lines@) =~= before.push(line_content(raw@)));
            None
        }
    }

    /// Ends the input. The lines read since the last closing line are handed
    /// out as a last record if any of them holds anything; lines that are all
    /// empty belong to no record.
    pub fn finish(self) -> (record: Option<Record>)
        requires
            self.wf(),
        ensures
            optional_model(record) == left_over(self@),
    {
        let mut i: usize = 0;
        while i < self.lines.len()
            invariant
                i <= self.lines@.len(),
                forall|k: int| 0 <= k < i ==> (#[trigger] line_models(self.lines@)[k]).len() == 0,
            decreases self.lines@.len() - i,
        {
            if self.lines[i].len() > 0 {
                assert(line_models(self.lines@)[i as int].len() > 0);
                return Some(Record { lines: self.lines, offset: self.start, size: self.taken });
            }
            assert(line_models(self.lines@)[i as int].len() == 0);
            i += 1;
        }
        None
    }
}

/// Where the line that starts at `from` ends: just after the next line feed,
/// or at the end of the data where no line feed follows.
pub open spec fn line_end(data: Seq<u8>, from: int) -> int
    decreases data.len() - from,
{
    if from < 0 || from >= data.len() {
        data.len() as int
    } else if data[from] == LINE_FEED {
        from + 1
    } else {
        line_end(data, from + 1)
    }
}

/// A line that starts inside the data holds at least one byte and ends
/// inside the data.
pub proof fn lemma_line_end_bounds(data: Seq<u8>, from: int)
    requires
        0 <= from < data.len(),
    ensures
        from < line_end(data, from) <= data.len(),
    decreases data.len() - from,
{
    if data[from] != LINE_FEED {
        if from + 1 < data.len() {
            lemma_line_end_bounds(data, from + 1);
        } else {
            assert(line_end(data, from + 1) == data.len());
        }
    }
}

/// The records that are still to come from `data` once the scanner has
/// reached `state`: the data is fed line by line from the scanner's place
/// on, and what is left over at the end of the data makes the last record.
pub open spec fn records_from(data: Seq<u8>, state: ScanModel) -> Seq<RecordModel>
    decreases data.len() - (state.start + state.taken),
{
    let at = state.start + state.taken;
    if at < 0 || at >= data.len() {
        match left_over(state) {
            Some(r) => seq![r],
            None => Seq::empty(),
        }
    } else {
        proof {
            lemma_line_end_bounds(data, at);
        }
        let raw = data.subrange(at, line_end(data, at));
        let rest = records_from(data, fed_state(state, raw));
        match fed_record(state, raw) {
            Some(r) => seq![r] + rest,
            None => rest,
        }
    }
}

/// The records of `data`, in the order in which they stand in it.
pub open spec fn records_of(data: Seq<u8>) -> Seq<RecordModel> {
    records_from(data, fresh())
}

/// Finds the end of the line that starts at `from`.
pub fn find_line_end(data: &[u8], from: usize) -> (end: usize)
    requires
        from <= data@.len(),
    ensures
        end == line_end(data@, from as int),
        from <= end <= data@.len(),
{
    let mut i: usize = from;
    while i < data.len() && data[i] != LINE_FEED
        invariant
            from <= i <= data@.len(),
            line_end(data@, from as int) == line_end(data@, i as int),
        decreases data@.len() - i,
    {
        i += 1;
    }
    if i < data.len() {
        i + 1
    } else {
        i
    }
}

/// Scans a whole source held in memory and hands out its records in order.
pub fn scan_records(data: &[u8]) -> (records: Vec<Record>)
    ensures
        record_models(records@) == records_of(data@),
{
    let mut records: Vec<Record> = Vec::new();
    let mut scanner = RecordScanner::new();
    let mut at: usize = 0;
    assert(record_models(records@) =~= Seq::<RecordModel>::empty());
    while at < data.len()
        invariant
            at <= data@.len(),
            scanner.wf(),
            at == scanner@.start + scanner@.taken,
            records_of(data@) == record_models(records@) + records_from(data@, scanner@),
        decreases data@.len() - at,
    {
        let end = find_line_end(data, at);
        proof {
            lemma_line_end_bounds(data@, at as int);
        }
        let ghost before = scanner@;
        let ghost so_far = records@;
        let raw = slice_subrange(data, at, end);
        match scanner.feed(raw) {
            Some(record) => {
                records.push(record);
                assert(record_models(records@) =~= record_models(so_far) + seq![record@]);
                assert(record_models(so_far) + (seq![record@] + records_from(data@, scanner@))
                    =~= record_models(records@) + records_from(data@, scanner@));
            },
            None => {},
        }
        at = end;
    }
    let ghost so_far = records@;
    match scanner.finish() {
        Some(record) => {
            records.push(record);
            assert(record_models(records@) =~= record_models(so_far) + seq![record@]);
        },
        None => {
            assert(record_models(so_far) + Seq::<RecordModel>::empty() =~= record_models(so_far));
        },
    }
    records
}

/// The records lie one after the other in the source: `records` begins at
/// `start`, each record begins where the one before it ends, and none
/// reaches beyond `end`.
pub open spec fn tiles(records: Seq<RecordModel>, start: int, end: int) -> bool {
    &&& records.len() > 0 ==> records[0].offset == start
    &&& forall|i: int|
        0 <= i < records.len() ==> 0 <= (#[trigger] records[i]).size && records[i].offset + records[i].size
            <= end
    &&& forall|i: int|
        0 <= i < records.len() - 1 ==> (#[trigger] records[i + 1]).offset == records[i].offset
            + records[i].size
}

/// The records still to come lie one after the other from the start of the
/// record that the scanner is in the middle of.
pub proof fn lemma_records_from_tile(data: Seq<u8>, state: ScanModel)
    requires
        0 <= state.start,
        0 <= state.taken,
        state.start + state.taken <= data.len(),
    ensures
        tiles(records_from(data, state), state.start, data.len() as int),
    decreases data.len() - (state.start + state.taken),
{
    let at = state.start + state.taken;
    if at < data.len() {
        lemma_line_end_bounds(data, at);
        let raw = data.subrange(at, line_end(data, at));
        let next = fed_state(state, raw);
        lemma_records_from_tile(data, next);
        let rest = records_from(data, next);
        match fed_record(state, raw) {
            Some(r) => {
                let all = seq![r] + rest;
                assert forall|i: int| 0 <= i < all.len() - 1 implies (#[trigger] all[i + 1]).offset
                    == all[i].offset + all[i].size by {
                    if i > 0 {
                        assert(all[i + 1] == rest[i - 1 + 1]);
                        assert(all[i] == rest[i - 1]);
                    } else {
                        assert(all[1] == rest[0]);
                    }
                }
                assert forall|i: int| 0 <= i < all.len() implies 0 <= (#[trigger] all[i]).size
                    && all[i].offset + all[i].size <= data.len() by {
                    if i > 0 {
                        assert(all[i] == rest[i - 1]);
                    }
                }
            },
            None => {},
        }
    }
}

/// The records of a source lie one after the other from its start, and
/// none reaches beyond its end: the byte ranges of two records never
/// overlap, and nothing lies between one record and the next.
pub proof fn lemma_records_tile(data: Seq<u8>)
    ensures
        tiles(records_of(data), 0, data.len() as int),
{
    lemma_records_from_tile(data, fresh());
}

/// A line that ends inside a window of the data ends at the same byte when
/// the window is looked at alone.
proof fn lemma_line_end_in_window(data: Seq<u8>, a: int, b: int, from: int)
    requires
        0 <= a <= from < b <= data.len(),
        line_end(data, from) <= b,
    ensures
        line_end(data.subrange(a, b), from - a) == line_end(data, from) - a,
    decreases data.len() - from,
{
    let window = data.subrange(a, b);
    assert(window[from - a] == data[from]);
    if data[from] != LINE_FEED {
        if from + 1 < b {
            lemma_line_end_in_window(data, a, b, from + 1);
        } else if from + 1 < data.len() {
            lemma_line_end_bounds(data, from + 1);
        } else {
            assert(line_end(data, from + 1) == data.len());
            assert(line_end(window, from + 1 - a) == window.len());
        }
    }
}

/// The first record still to come ends no earlier than the place the
/// scanner has reached.
proof fn lemma_first_record_reaches(data: Seq<u8>, state: ScanModel)
    requires
        0 <= state.start,
        0 <= state.taken,
        state.start + state.taken <= data.len(),
        records_from(data, state).len() > 0,
    ensures
        records_from(data, state)[0].offset == state.start,
        records_from(data, state)[0].offset + records_from(data, state)[0].size >= state.start
            + state.taken,
        records_from(data, state)[0].offset + records_from(data, state)[0].size <= data.len(),
    decreases data.len() - (state.start + state.taken),
{
    let at = state.start + state.taken;
    if at < data.len() {
        lemma_line_end_bounds(data, at);
        let raw = data.subrange(at, line_end(data, at));
        if fed_record(state, raw) is None {
            lemma_first_record_reaches(data, fed_state(state, raw));
        }
    }
}

/// The records after the first are those that a scanner finds which starts
/// afresh where the first record ends.
proof fn lemma_records_after_first(data: Seq<u8>, state: ScanModel)
    requires
        0 <= state.start,
        0 <= state.taken,
        state.start + state.taken <= data.len(),
        records_from(data, state).len() > 0,
    ensures
        records_from(data, state).drop_first() == records_from(
            data,
            fresh_at(records_from(data, state)[0].offset + records_from(data, state)[0].size),
        ),
    decreases data.len() - (state.start + state.taken),
{
    let at = state.start + state.taken;
    let rs = records_from(data, state);
    if at < data.len() {
        lemma_line_end_bounds(data, at);
        let raw = data.subrange(at, line_end(data, at));
        match fed_record(state, raw) {
            Some(r) => {
                assert(rs.drop_first() =~= records_from(data, fed_state(state, raw)));
            },
            None => {
                lemma_records_after_first(data, fed_state(state, raw));
            },
        }
    } else {
        assert(left_over(fresh_at(at)) is None);
        assert(rs.drop_first() =~= Seq::<RecordModel>::empty());
    }
}

/// The first record still to come is what a scanner finds that is given
/// the bytes of that record alone and starts with the lines already read.
proof fn lemma_first_record_from_its_bytes(data: Seq<u8>, state: ScanModel)
    requires
        0 <= state.start,
        0 <= state.taken,
        state.start + state.taken <= data.len(),
        records_from(data, state).len() > 0,
    ensures
        ({
            let r = records_from(data, state)[0];
            records_from(
                data.subrange(r.offset, r.offset + r.size),
                ScanModel { lines: state.lines, start: 0, taken: state.taken },
            ) == seq![RecordModel { lines: r.lines, offset: 0, size: r.size }]
        }),
    decreases data.len() - (state.start + state.taken),
{
    let at = state.start + state.taken;
    let r = records_from(data, state)[0];
    lemma_first_record_reaches(data, state);
    let a = state.start;
    let b = r.offset + r.size;
    let window = data.subrange(a, b);
    let moved = ScanModel { lines: state.lines, start: 0, taken: state.taken };
    let wanted = seq![RecordModel { lines: r.lines, offset: 0, size: r.size }];
    if at < data.len() {
        lemma_line_end_bounds(data, at);
        let e = line_end(data, at);
        let raw = data.subrange(at, e);
        match fed_record(state, raw) {
            Some(first) => {
                lemma_line_end_in_window(data, a, b, at);
                assert(window.subrange(at - a, e - a) =~= raw);
                let next = fed_state(moved, raw);
                assert(next.start + next.taken == window.len());
                assert(left_over(next) is None);
                assert(records_from(window, next) =~= Seq::<RecordModel>::empty());
                assert(records_from(window, moved) =~= wanted);
            },
            None => {
                let next = fed_state(state, raw);
                lemma_first_record_reaches(data, next);
                lemma_first_record_from_its_bytes(data, next);
                lemma_line_end_in_window(data, a, b, at);
                assert(window.subrange(at - a, e - a) =~= raw);
                assert(fed_state(moved, raw) == ScanModel {
                    lines: next.lines,
                    start: 0,
                    taken: next.taken,
                });
            },
        }
    } else {
        assert(window.len() == state.taken);
    }
}

/// Every record is found again in its own bytes: a scanner that is given
/// the byte range of record `i` alone finds that one record, with the same
/// lines.
pub proof fn lemma_record_from_its_bytes(data: Seq<u8>, i: int)
    requires
        0 <= i < records_of(data).len(),
    ensures
        ({
            let r = records_of(data)[i];
            records_of(data.subrange(r.offset, r.offset + r.size)) == seq![
                RecordModel { lines: r.lines, offset: 0, size: r.size },
            ]
        }),
{
    lemma_later_record_from_its_bytes(data, 0, i);
}

/// The same of the records that a scanner finds which starts afresh at
/// `start`.
proof fn lemma_later_record_from_its_bytes(data: Seq<u8>, start: int, i: int)
    requires
        0 <= start <= data.len(),
        0 <= i < records_from(data, fresh_at(start)).len(),
    ensures
        ({
            let r = records_from(data, fresh_at(start))[i];
            records_of(data.subrange(r.offset, r.offset + r.size)) == seq![
                RecordModel { lines: r.lines, offset: 0, size: r.size },
            ]
        }),
    decreases i,
{
    let state = fresh_at(start);
    let rs = records_from(data, state);
    if i == 0 {
        lemma_first_record_from_its_bytes(data, state);
    } else {
        lemma_first_record_reaches(data, state);
        lemma_records_after_first(data, state);
        assert(rs.drop_first()[i - 1] == rs[i]);
        lemma_later_record_from_its_bytes(data, rs[0].offset + rs[0].size, i - 1);
    }
}

} // verus!
