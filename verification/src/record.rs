//! The grammar of one record, `key;value`, and of a chunk of records.
//!
//! A value is written with one or two integer digits, a decimal point and
//! exactly one fractional digit, with an optional leading minus sign. It is
//! read as a fixed-point integer scaled by ten. The key is everything before
//! the last separator of the line.

use crate::table::KEY_CAPACITY;
use vstd::prelude::*;
use vstd::slice::slice_subrange;

verus! {

/// The byte that ends every record.
pub const NEWLINE: u8 = 10;

/// The byte between a key and its value.
pub const SEPARATOR: u8 = 59;

/// The sign of a negative value.
pub const MINUS: u8 = 45;

/// The decimal point of a value.
pub const POINT: u8 = 46;

/// The largest value that the grammar can express, in tenths.
pub const VALUE_MAX: i64 = 999;

/// The ways in which input can fail to be a sequence of records.
#[derive(Clone, Copy, Debug, PartialEq, Eq, Structural)]
pub enum FormatError {
    /// The line holds no separator.
    MissingSeparator,
    /// What follows the last separator is not a value.
    UnparseableValue,
    /// Nothing stands before the separator.
    EmptyKey,
    /// The key is longer than [`KEY_CAPACITY`] bytes.
    KeyTooLong,
    /// The input does not end with a newline.
    UnterminatedRecord,
    /// A whole buffer holds no newline: a record is longer than the buffer.
    RecordTooLong,
    /// The input is more than one map can take without a count or a sum
    /// leaving the range of its integer type.
    InputTooLarge,
}

/// One parsed record.
pub struct Record {
    /// The bytes of the key.
    pub key: Seq<u8>,
    /// The value, in tenths.
    pub value: i64,
}

/// Whether `b` is an ASCII decimal digit.
pub open spec fn is_digit(b: u8) -> bool {
    48 <= b <= 57
}

/// The number that the ASCII digit `b` stands for.
pub open spec fn digit(b: u8) -> int {
    b - 48
}

/// The value written by `s` without a sign: `d.d` or `dd.d`.
pub open spec fn magnitude_of(s: Seq<u8>) -> Option<int> {
    if s.len() == 3 && is_digit(s[0]) && s[1] == POINT && is_digit(s[2]) {
        Some(10 * digit(s[0]) + digit(s[2]))
    } else if s.len() == 4 && is_digit(s[0]) && is_digit(s[1]) && s[2] == POINT && is_digit(s[3]) {
        Some(100 * digit(s[0]) + 10 * digit(s[1]) + digit(s[3]))
    } else {
        None
    }
}

/// The value written by `s`, in tenths, if `s` is a value.
pub open spec fn value_of(s: Seq<u8>) -> Option<int> {
    if s.len() > 0 && s[0] == MINUS {
        match magnitude_of(s.subrange(1, s.len() as int)) {
            Some(m) => Some(-m),
            None => None,
        }
    } else {
        magnitude_of(s)
    }
}

/// The index of the last `b` in `s`, or `-1` if `s` holds none.
pub open spec fn last_index_of(s: Seq<u8>, b: u8) -> int
    decreases s.len(),
{
    if s.len() == 0 {
        -1
    } else if s.last() == b {
        s.len() - 1
    } else {
        last_index_of(s.drop_last(), b)
    }
}

/// The record that a line holds, the line taken without its newline. The
/// last separator parts the key from the value.
pub open spec fn record_of(line: Seq<u8>) -> Result<Record, FormatError> {
    let sep = last_index_of(line, SEPARATOR);
    if sep < 0 {
        Err(FormatError::MissingSeparator)
    } else {
        match value_of(line.subrange(sep + 1, line.len() as int)) {
            None => Err(FormatError::UnparseableValue),
            Some(v) => if sep == 0 {
                Err(FormatError::EmptyKey)
            } else if sep > KEY_CAPACITY {
                Err(FormatError::KeyTooLong)
            } else {
                Ok(Record { key: line.subrange(0, sep), value: v as i64 })
            },
        }
    }
}

/// What `last_index_of` finds: the place of a `b` after which no `b`
/// follows, or `-1` where there is none at all.
pub proof fn lemma_last_index_of(s: Seq<u8>, b: u8)
    ensures
        -1 <= last_index_of(s, b) < s.len(),
        last_index_of(s, b) >= 0 ==> s[last_index_of(s, b)] == b,
        forall|i: int| last_index_of(s, b) < i < s.len() ==> s[i] != b,
    decreases s.len(),
{
    if s.len() > 0 && s.last() != b {
        let t = s.drop_last();
        lemma_last_index_of(t, b);
        assert forall|i: int| last_index_of(s, b) < i < s.len() implies s[i] != b by {
            if i < t.len() {
                assert(t[i] == s[i]);
            }
        }
    }
}

/// An index is the last place of `b` in `s` as soon as it holds `b` and
/// no `b` follows it.
pub proof fn lemma_last_index_is(s: Seq<u8>, b: u8, at: int)
    requires
        0 <= at < s.len(),
        s[at] == b,
        forall|i: int| at < i < s.len() ==> s[i] != b,
    ensures
        last_index_of(s, b) == at,
{
    lemma_last_index_of(s, b);
}

/// A sequence without `b` has no last place of it.
pub proof fn lemma_last_index_none(s: Seq<u8>, b: u8)
    requires
        forall|i: int| 0 <= i < s.len() ==> s[i] != b,
    ensures
        last_index_of(s, b) == -1,
{
    lemma_last_index_of(s, b);
}

/// What a line's record holds: a key of the grammar's lengths, which is the
/// start of the line, and a value within the grammar's range.
pub proof fn lemma_value_of_record(line: Seq<u8>)
    ensures
        record_of(line) matches Ok(r) ==> {
            &&& 1 <= r.key.len() <= KEY_CAPACITY
            &&& r.key.len() < line.len()
            &&& r.key == line.subrange(0, r.key.len() as int)
            &&& -VALUE_MAX <= r.value <= VALUE_MAX
        },
{
    lemma_last_index_of(line, SEPARATOR);
}

/// What a backward scan of a chunk yields: the records of the lines that it
/// read, in the order of the input, and the fault that stopped it, if any.
pub struct Scan {
    /// The records of the lines that were read, in the order of the input.
    pub records: Seq<Record>,
    /// The fault that stopped the scan, if one did.
    pub error: Option<FormatError>,
}

/// The backward scan of `s`. A chunk is a run of lines, each ended by a
/// newline. The scan reads them from the last to the first and stops at the
/// first line that holds no record; the records are those of the lines after
/// that one. A chunk that does not end with a newline is read no further.
pub open spec fn scan(s: Seq<u8>) -> Scan
    decreases s.len(),
    via scan_decreases
{
    if s.len() == 0 {
        Scan { records: Seq::empty(), error: None }
    } else if s.last() != NEWLINE {
        Scan { records: Seq::empty(), error: Some(FormatError::UnterminatedRecord) }
    } else {
        let body = s.drop_last();
        let start = last_index_of(body, NEWLINE) + 1;
        match record_of(body.subrange(start, body.len() as int)) {
            Err(e) => Scan { records: Seq::empty(), error: Some(e) },
            Ok(r) => {
                let before = scan(body.subrange(0, start));
                Scan { records: before.records.push(r), error: before.error }
            },
        }
    }
}

/// The scan goes on with a shorter chunk: the last line starts within it.
#[via_fn]
proof fn scan_decreases(s: Seq<u8>) {
    if s.len() > 0 {
        lemma_last_index_of(s.drop_last(), NEWLINE);
    }
}

/// The records of a chunk: those that its backward scan yields.
pub open spec fn records_of(s: Seq<u8>) -> Seq<Record> {
    scan(s).records
}

/// Whether a chunk is a run of complete records and nothing else.
pub open spec fn well_formed(s: Seq<u8>) -> bool {
    scan(s).error.is_none()
}

/// The last place of `b` in `x + y` lies in `y` if `y` holds `b`, and
/// else where it lies in `x`.
pub proof fn lemma_last_index_concat(x: Seq<u8>, y: Seq<u8>, b: u8)
    ensures
        last_index_of(x + y, b) == if last_index_of(y, b) >= 0 {
            x.len() + last_index_of(y, b)
        } else {
            last_index_of(x, b)
        },
{
    lemma_last_index_of(x, b);
    lemma_last_index_of(y, b);
    let z = x + y;
    let iy = last_index_of(y, b);
    let ix = last_index_of(x, b);
    if iy >= 0 {
        assert forall|i: int| x.len() + iy < i < z.len() implies z[i] != b by {
            assert(z[i] == y[i - x.len()]);
        }
        assert(z[x.len() + iy] == y[iy]);
        lemma_last_index_is(z, b, x.len() + iy);
    } else if ix >= 0 {
        assert forall|i: int| ix < i < z.len() implies z[i] != b by {
            if i >= x.len() {
                assert(z[i] == y[i - x.len()]);
            }
        }
        assert(z[ix] == x[ix]);
        lemma_last_index_is(z, b, ix);
    } else {
        assert forall|i: int| 0 <= i < z.len() implies z[i] != b by {
            if i >= x.len() {
                assert(z[i] == y[i - x.len()]);
            }
        }
        lemma_last_index_none(z, b);
    }
}

/// Scanning two pieces of input that meet at a line boundary is scanning
/// each on its own: the scan of `a + b` reads `b` first and goes on into `a`
/// only if `b` holds no fault.
pub proof fn lemma_scan_concat(a: Seq<u8>, b: Seq<u8>)
    requires
        a.len() == 0 || a.last() == NEWLINE,
    ensures
        scan(a + b).error == if scan(b).error.is_some() {
            scan(b).error
        } else {
            scan(a).error
        },
        scan(a + b).records == if scan(b).error.is_some() {
            scan(b).records
        } else {
            scan(a).records + scan(b).records
        },
    decreases b.len(),
{
    let z = a + b;
    if b.len() == 0 {
        assert(z =~= a);
        assert(scan(a).records + scan(b).records =~= scan(a).records);
    } else if b.last() != NEWLINE {
        assert(z.last() == b.last());
    } else {
        assert(z.last() == b.last());
        let body = b.drop_last();
        let zbody = z.drop_last();
        assert(zbody =~= a + body);
        lemma_last_index_concat(a, body, NEWLINE);
        lemma_last_index_of(a, NEWLINE);
        lemma_last_index_of(body, NEWLINE);
        let start = last_index_of(body, NEWLINE) + 1;
        let zstart = last_index_of(zbody, NEWLINE) + 1;
        if a.len() > 0 {
            lemma_last_index_is(a, NEWLINE, a.len() - 1);
        }
        assert(zstart == a.len() + start);
        assert(zbody.subrange(zstart, zbody.len() as int) =~= body.subrange(
            start,
            body.len() as int,
        ));
        assert(zbody.subrange(0, zstart) =~= a + body.subrange(0, start));
        match record_of(body.subrange(start, body.len() as int)) {
            Err(e) => {},
            Ok(r) => {
                let before = body.subrange(0, start);
                lemma_scan_concat(a, before);
                if scan(before).error.is_none() {
                    assert((scan(a).records + scan(before).records).push(r) =~= scan(a).records
                        + scan(before).records.push(r));
                }
            },
        }
    }
}

/// A well-formed chunk is empty or ends with a newline.
pub proof fn lemma_well_formed_ends(s: Seq<u8>)
    requires
        well_formed(s),
    ensures
        s.len() == 0 || s.last() == NEWLINE,
{
}

/// Whether `b` is an ASCII decimal digit.
fn is_digit_byte(b: u8) -> (r: bool)
    ensures
        r == is_digit(b),
{
    b >= 48 && b <= 57
}

/// The number that the ASCII digit `b` stands for.
fn digit_value(b: u8) -> (d: i64)
    requires
        is_digit(b),
    ensures
        d == digit(b),
{
    (b - 48) as i64
}

/// Reads the value that `s` is known to write, in tenths.
pub fn read_int(s: &[u8]) -> (v: i64)
    requires
        value_of(s@).is_some(),
    ensures
        v == value_of(s@).unwrap(),
{
    let n = s.len();
    let from: usize = if s[0] == MINUS {
        1
    } else {
        0
    };
    proof {
        let t = s@.subrange(1, n as int);
        if from == 1 {
            assert(forall|j: int| 0 <= j < t.len() ==> t[j] == s@[j + 1]);
        }
    }
    let m = if n - from == 3 {
        10 * digit_value(s[from]) + digit_value(s[from + 2])
    } else {
        100 * digit_value(s[from]) + 10 * digit_value(s[from + 1]) + digit_value(s[from + 3])
    };
    if from == 1 {
        -m
    } else {
        m
    }
}

/// Reads the value that `s` writes, in tenths, if `s` is a value.
pub fn parse_value(s: &[u8]) -> (r: Option<i64>)
    ensures
        match value_of(s@) {
            Some(v) => r == Some(v as i64),
            None => r.is_none(),
        },
{
    let n = s.len();
    let from: usize = if n > 0 && s[0] == MINUS {
        1
    } else {
        0
    };
    proof {
        let t = s@.subrange(1, n as int);
        if from == 1 {
            assert(forall|j: int| 0 <= j < t.len() ==> t[j] == s@[j + 1]);
        }
    }
    let short = n - from == 3 && is_digit_byte(s[from]) && s[from + 1] == POINT && is_digit_byte(
        s[from + 2],
    );
    let long = n - from == 4 && is_digit_byte(s[from]) && is_digit_byte(s[from + 1]) && s[from + 2]
        == POINT && is_digit_byte(s[from + 3]);
    if short || long {
        Some(read_int(s))
    } else {
        None
    }
}

/// Whether `s` holds the byte `b`.
pub fn contains_byte(s: &[u8], b: u8) -> (r: bool)
    ensures
        r == (last_index_of(s@, b) >= 0),
{
    let mut i: usize = 0;
    while i < s.len()
        invariant
            i <= s.len(),
            forall|j: int| 0 <= j < i ==> s@[j] != b,
        decreases s.len() - i,
    {
        if s[i] == b {
            proof {
                lemma_last_index_of(s@, b);
            }
            return true;
        }
        i += 1;
    }
    proof {
        lemma_last_index_none(s@, b);
    }
    false
}

/// Parses the record that `line` holds, the line taken without its newline,
/// by scanning backward from its end: the fractional digit, the decimal
/// point, one or two integer digits, an optional minus sign, the separator.
/// Returns the key, which is the start of the line, and the value in
/// tenths.
pub fn parse_record<'a>(line: &'a [u8]) -> (r: Result<(&'a [u8], i64), FormatError>)
    ensures
        match record_of(line@) {
            Ok(rec) => r matches Ok((key, value)) && key@ == rec.key && value == rec.value,
            Err(e) => r matches Err(f) && f == e,
        },
{
    let n = line.len();
    proof {
        let sep = last_index_of(line@, SEPARATOR);
        lemma_last_index_of(line@, SEPARATOR);
        if sep >= 0 {
            let tail = line@.subrange(sep + 1, n as int);
            assert(forall|j: int| 0 <= j < tail.len() ==> tail[j] == line@[sep + 1 + j]);
            if tail.len() > 0 {
                let t = tail.subrange(1, tail.len() as int);
                assert(forall|j: int| 0 <= j < t.len() ==> t[j] == tail[j + 1]);
            }
        }
    }
    if n >= 4 && is_digit_byte(line[n - 1]) && line[n - 2] == POINT && is_digit_byte(line[n - 3]) {
        let mut val: i64 = digit_value(line[n - 1]) + 10 * digit_value(line[n - 3]);
        let mut i: usize = n - 3;
        if is_digit_byte(line[i - 1]) {
            val += 100 * digit_value(line[i - 1]);
            i -= 1;
        }
        if i > 0 && line[i - 1] == MINUS {
            val = -val;
            i -= 1;
        }
        if i > 0 && line[i - 1] == SEPARATOR {
            let sep = i - 1;
            proof {
                lemma_last_index_is(line@, SEPARATOR, sep as int);
            }
            return if sep == 0 {
                Err(FormatError::EmptyKey)
            } else if sep > KEY_CAPACITY {
                Err(FormatError::KeyTooLong)
            } else {
                Ok((slice_subrange(line, 0, sep), val))
            };
        }
    }
    if contains_byte(line, SEPARATOR) {
        Err(FormatError::UnparseableValue)
    } else {
        Err(FormatError::MissingSeparator)
    }
}

/// The start of the line that ends just before index `stop`: the index
/// after the last newline among the first `stop` bytes, found by scanning
/// backward.
pub fn find_line_start(chunk: &[u8], stop: usize) -> (start: usize)
    requires
        stop <= chunk@.len(),
    ensures
        start == last_index_of(chunk@.subrange(0, stop as int), NEWLINE) + 1,
        start <= stop,
{
    let ghost body = chunk@.subrange(0, stop as int);
    let mut i = stop;
    while i > 0 && chunk[i - 1] != NEWLINE
        invariant
            i <= stop <= chunk@.len(),
            body == chunk@.subrange(0, stop as int),
            forall|j: int| i <= j < stop ==> body[j] != NEWLINE,
        decreases i,
    {
        i -= 1;
    }
    proof {
        lemma_last_index_of(body, NEWLINE);
        if i > 0 {
            lemma_last_index_is(body, NEWLINE, i - 1);
        } else {
            lemma_last_index_none(body, NEWLINE);
        }
    }
    i
}

} // verus!
