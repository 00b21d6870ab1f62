//! Field injection: writes a new tagged field at the end of every record,
//! just before the record's closing line.
//!
//! The text is rewritten line by line. Every line is written back with a
//! bare line feed as its ending, and the new field goes in front of each
//! closing line.

use crate::scanner::{
    find_line_end, is_sentinel, lemma_line_end_bounds, line_content, line_end, sentinel,
    strip_line_ending, LINE_FEED,
};
use crate::text::append_bytes;
use vstd::prelude::*;
use vstd::slice::slice_subrange;

verus! {

/// The lines that add the field `name` with the value `value` to a record:
/// the marker line, the value, and an empty line.
pub open spec fn field_block_of(name: Seq<u8>, value: Seq<u8>) -> Seq<u8> {
    seq![62u8, 32u8, 32u8, 60u8] + name + seq![62u8, LINE_FEED] + value + seq![LINE_FEED, LINE_FEED]
}

/// What is written for one raw line: the line with a bare line feed as its
/// ending, and before it the addition where the line is a closing line.
pub open spec fn injected_line(raw: Seq<u8>, addition: Seq<u8>) -> Seq<u8> {
    if line_content(raw) == sentinel() {
        addition + line_content(raw) + seq![LINE_FEED]
    } else {
        line_content(raw) + seq![LINE_FEED]
    }
}

/// What is written for the data from `from` on, line after line.
pub open spec fn injected_from(data: Seq<u8>, addition: Seq<u8>, from: int) -> Seq<u8>
    decreases data.len() - from,
{
    if from < 0 || from >= data.len() {
        Seq::empty()
    } else {
        proof {
            lemma_line_end_bounds(data, from);
        }
        injected_line(data.subrange(from, line_end(data, from)), addition) + injected_from(
            data,
            addition,
            line_end(data, from),
        )
    }
}

/// Builds the lines that add a field to a record.
pub fn field_block(name: &[u8], value: &[u8]) -> (block: Vec<u8>)
    ensures
        block@ == field_block_of(name@, value@),
{
    let mut block: Vec<u8> = Vec::new();
    block.push(62u8);
    block.push(32u8);
    block.push(32u8);
    block.push(60u8);
    append_bytes(&mut block, name);
    block.push(62u8);
    block.push(LINE_FEED);
    append_bytes(&mut block, value);
    block.push(LINE_FEED);
    block.push(LINE_FEED);
    assert(block@ =~= field_block_of(name@, value@));
    block
}

/// Rewrites one raw line: the addition goes before a closing line, and the
/// line is written with a bare line feed as its ending.
pub fn inject_line(raw: &[u8], addition: &[u8]) -> (out: Vec<u8>)
    ensures
        out@ == injected_line(raw@, addition@),
{
    let content = strip_line_ending(raw);
    let mut out: Vec<u8> = Vec::new();
    if is_sentinel(content.as_slice()) {
        append_bytes(&mut out, addition);
    }
    append_bytes(&mut out, content.as_slice());
    out.push(LINE_FEED);
    assert(out@ =~= injected_line(raw@, addition@));
    out
}

/// Rewrites a whole text held in memory.
pub fn inject_field(data: &[u8], addition: &[u8]) -> (out: Vec<u8>)
    ensures
        out@ == injected_from(data@, addition@, 0),
{
    let mut out: Vec<u8> = Vec::new();
    let mut at: usize = 0;
    while at < data.len()
        invariant
            at <= data@.len(),
            injected_from(data@, addition@, 0) == out@ + injected_from(data@, addition@, at as int),
        decreases data@.len() - at,
    {
        let end = find_line_end(data, at);
        proof {
            lemma_line_end_bounds(data@, at as int);
        }
        let line = inject_line(slice_subrange(data, at, end), addition);
        let ghost before = out@;
        append_bytes(&mut out, line.as_slice());
        assert(before + (line@ + injected_from(data@, addition@, end as int)) =~= out@ + injected_from(
            data@,
            addition@,
            end as int,
        ));
        at = end;
    }
    assert(out@ + Seq::<u8>::empty() =~= out@);
    out
}

} // verus!
