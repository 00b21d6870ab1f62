//! The field extractor: reads a tagged field and the atom count out of the
//! lines of a record.
//!
//! A field is introduced by a marker line of the form `>  <NAME>`, and its
//! value is the line after the marker. The atom count stands in the first
//! three columns of the fourth line of the record.

use crate::scanner::line_models;
use crate::text::bytes_equal;
use vstd::prelude::*;
use vstd::slice::slice_subrange;

verus! {

/// The space that pads the atom count.
pub const SPACE: u8 = 32u8;

/// The digit zero.
pub const DIGIT_ZERO: u8 = 48u8;

/// The digit nine.
pub const DIGIT_NINE: u8 = 57u8;

/// The opening of a marker line: `>  <`.
pub open spec fn marker_open() -> Seq<u8> {
    seq![62u8, 32u8, 32u8, 60u8]
}

/// The marker line of the field `name`: `>  <`, the name, `>`.
pub open spec fn marker_of(name: Seq<u8>) -> Seq<u8> {
    marker_open() + name + seq![62u8]
}

/// Line `i` is the first marker line of the field `name`, and a line
/// follows it.
pub open spec fn is_first_marker(lines: Seq<Seq<u8>>, name: Seq<u8>, i: int) -> bool {
    &&& 0 <= i < lines.len() - 1
    &&& lines[i] == marker_of(name)
    &&& forall|k: int| 0 <= k < i ==> lines[k] != marker_of(name)
}

/// The value of the field `name` in a record: the line after the first
/// marker line of that name. A marker on the last line introduces nothing.
pub open spec fn field_of(lines: Seq<Seq<u8>>, name: Seq<u8>) -> Option<Seq<u8>> {
    if exists|i: int| is_first_marker(lines, name, i) {
        Some(lines[(choose|i: int| is_first_marker(lines, name, i)) + 1])
    } else {
        None
    }
}

/// The outcome of a field lookup.
#[derive(Debug, Clone, PartialEq, Eq)]
pub enum FieldValue {
    /// The record has the field, with this value.
    Found(Vec<u8>),
    /// The record has no such field.
    NotFound,
}

impl View for FieldValue {
    type V = Option<Seq<u8>>;

    open spec fn view(&self) -> Option<Seq<u8>> {
        match self {
            FieldValue::Found(v) => Some(v@),
            FieldValue::NotFound => None,
        }
    }
}

/// Whether a line is the marker line of the field `name`. The name must
/// match byte for byte.
pub fn is_marker(line: &[u8], name: &[u8]) -> (yes: bool)
    ensures
        yes == (line@ == marker_of(name@)),
{
    let n = line.len();
    if n < 5 || n - 5 != name.len() {
        return false;
    }
    if line[0] != 62u8 || line[1] != 32u8 || line[2] != 32u8 || line[3] != 60u8 || line[n - 1] != 62u8 {
        return false;
    }
    let inner = slice_subrange(line, 4, n - 1);
    let same = bytes_equal(inner, name);
    proof {
        let m = marker_of(name@);
        assert(m.subrange(4, n - 1) =~= name@);
        if same {
            assert(line@ =~= m);
        }
    }
    same
}

/// Looks a field up in the lines of a record. The value is the line that
/// follows the first marker line of that name; further lines of a longer
/// value are not read.
pub fn get_field(lines: &Vec<Vec<u8>>, name: &[u8]) -> (value: FieldValue)
    ensures
        value@ == field_of(line_models(lines@), name@),
{
    let ghost model = line_models(lines@);
    let n = lines.len();
    if n == 0 {
        assert forall|j: int| !is_first_marker(model, name@, j) by {}
        return FieldValue::NotFound;
    }
    let mut i: usize = 0;
    while i < n - 1
        invariant
            n == lines@.len(),
            n >= 1,
            model == line_models(lines@),
            forall|k: int| 0 <= k < i ==> model[k] != marker_of(name@),
        decreases n - i,
    {
        if is_marker(lines[i].as_slice(), name) {
            assert(is_first_marker(model, name@, i as int));
            assert forall|j: int| is_first_marker(model, name@, j) implies j == i by {}
            return FieldValue::Found(lines[i + 1].clone());
        }
        i += 1;
    }
    assert forall|j: int| !is_first_marker(model, name@, j) by {}
    FieldValue::NotFound
}

/// `s` without the spaces it begins with.
pub open spec fn trim_start(s: Seq<u8>) -> Seq<u8>
    decreases s.len(),
{
    if s.len() > 0 && s[0] == SPACE {
        trim_start(s.drop_first())
    } else {
        s
    }
}

/// `s` without the spaces it ends with.
pub open spec fn trim_end(s: Seq<u8>) -> Seq<u8>
    decreases s.len(),
{
    if s.len() > 0 && s.last() == SPACE {
        trim_end(s.drop_last())
    } else {
        s
    }
}

/// Every byte is a decimal digit.
pub open spec fn all_digits(s: Seq<u8>) -> bool {
    forall|i: int| 0 <= i < s.len() ==> DIGIT_ZERO <= #[trigger] s[i] <= DIGIT_NINE
}

/// The number that a run of decimal digits writes.
pub open spec fn decimal(s: Seq<u8>) -> nat
    decreases s.len(),
{
    if s.len() == 0 {
        0
    } else {
        decimal(s.drop_last()) * 10 + (s.last() - DIGIT_ZERO) as nat
    }
}

/// The atom count of a record: the first three bytes of its fourth line,
/// spaces at either end set aside, read as a decimal number. There is none
/// where the record has fewer than four lines, the fourth line has fewer
/// than three bytes, or what is left of them is empty or not all digits.
pub open spec fn atom_count_of(lines: Seq<Seq<u8>>) -> Option<nat> {
    if lines.len() >= 4 && lines[3].len() >= 3 {
        let digits = trim_end(trim_start(lines[3].take(3)));
        if digits.len() > 0 && all_digits(digits) {
            Some(decimal(digits))
        } else {
            None
        }
    } else {
        None
    }
}

/// Reads the atom count off the fourth line of a record, or reports that
/// the line is malformed.
pub fn get_atom_count(lines: &Vec<Vec<u8>>) -> (count: Option<u32>)
    ensures
        match count {
            Some(n) => atom_count_of(line_models(lines@)) == Some(n as nat),
            None => atom_count_of(line_models(lines@)) is None,
        },
{
    if lines.len() < 4 || lines[3].len() < 3 {
        return None;
    }
    let line = lines[3].as_slice();
    let ghost field = line@.take(3);
    assert(line_models(lines@)[3] == line@);
    let mut start: usize = 0;
    assert(field.subrange(0, 3) =~= field);
    while start < 3 && line[start] == SPACE
        invariant
            start <= 3,
            line@.len() >= 3,
            field == line@.take(3),
            trim_start(field) == trim_start(field.subrange(start as int, 3)),
        decreases 3 - start,
    {
        assert(field.subrange(start as int, 3).drop_first() =~= field.subrange(start + 1, 3));
        start += 1;
    }
    assert(trim_start(field) == field.subrange(start as int, 3));
    let mut end: usize = 3;
    while end > start && line[end - 1] == SPACE
        invariant
            start <= end <= 3,
            line@.len() >= 3,
            field == line@.take(3),
            trim_end(trim_start(field)) == trim_end(field.subrange(start as int, end as int)),
        decreases end,
    {
        assert(field.subrange(start as int, end as int).drop_last() =~= field.subrange(
            start as int,
            end - 1,
        ));
        end -= 1;
    }
    let ghost digits = field.subrange(start as int, end as int);
    assert(trim_end(trim_start(field)) == digits);
    if start == end {
        return None;
    }
    assert(atom_count_of(line_models(lines@)) == if all_digits(digits) {
        Some(decimal(digits))
    } else {
        None
    });
    let mut value: u32 = 0;
    let mut i: usize = start;
    while i < end
        invariant
            start <= i <= end <= 3,
            line@.len() >= 3,
            field == line@.take(3),
            digits == field.subrange(start as int, end as int),
            atom_count_of(line_models(lines@)) == if all_digits(digits) {
                Some(decimal(digits))
            } else {
                None
            },
            all_digits(digits.take(i - start)),
            value == decimal(digits.take(i - start)),
            i - start == 0 ==> value == 0,
            i - start == 1 ==> value <= 9,
            i - start == 2 ==> value <= 99,
        decreases end - i,
    {
        let b = line[i];
        assert(digits[i - start] == b);
        if b < DIGIT_ZERO || b > DIGIT_NINE {
            assert(!all_digits(digits));
            return None;
        }
        assert(digits.take(i - start + 1).drop_last() =~= digits.take(i - start));
        value = value * 10 + (b - DIGIT_ZERO) as u32;
        i += 1;
    }
    assert(digits.take(end - start) =~= digits);
    Some(value)
}

} // verus!
