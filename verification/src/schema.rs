//! The columns of a log and how a row of fields becomes a record.
//!
//! A log names its columns in its first row. `Time`, `Function`,
//! `Duration_Sec`, `Target_PE` and `Stacktrace` must be there, and the byte
//! counts: either `Bytes_RX` and `Bytes_TX`, or the single `Size_Bytes` of
//! older logs. `Extra` and `Symboltrace` may be there. Other columns are
//! passed over; of two columns with one name the first counts.
//!
//! An older log does not say in which direction its bytes moved: they are
//! counted as sent from the process that logged the call to its target.

use crate::decimal::{as_i32, as_nanos, as_u64, parse_i32, parse_seconds, parse_u64};
use crate::event::{RawEvent, RawEventView};
use vstd::prelude::*;
use vstd::utf8::encode_utf8;

verus! {

/// Where the byte counts of a record stand.
#[derive(Clone, Copy, Debug)]
pub enum ByteColumns {
    /// Received and sent bytes in columns of their own.
    Directed { rx: usize, tx: usize },
    /// One column for all bytes of the call.
    Undirected { size: usize },
}

/// The place of each column in the rows of one log.
#[derive(Clone, Copy, Debug)]
pub struct Schema {
    pub time: usize,
    pub function: usize,
    pub duration: usize,
    pub target: usize,
    pub bytes: ByteColumns,
    pub stacktrace: usize,
    pub extra: Option<usize>,
    pub symboltrace: Option<usize>,
}

/// Whether `k` is the first place in the header that holds `name`.
pub open spec fn is_column(header: Seq<Seq<char>>, name: Seq<char>, k: int) -> bool {
    &&& 0 <= k < header.len()
    &&& header[k] == name
    &&& forall|j: int| 0 <= j < k ==> #[trigger] header[j] != name
}

/// Whether the header holds `name`.
pub open spec fn has_column(header: Seq<Seq<char>>, name: Seq<char>) -> bool {
    exists|k: int| 0 <= k < header.len() && #[trigger] header[k] == name
}

/// The first place in the header that holds `name`.
pub open spec fn column_of(header: Seq<Seq<char>>, name: Seq<char>) -> Option<usize> {
    if has_column(header, name) {
        Some((choose|k: int| is_column(header, name, k)) as usize)
    } else {
        None
    }
}

/// The columns of the byte counts: the directed pair if both are there,
/// else the undirected one.
pub open spec fn byte_columns_of(header: Seq<Seq<char>>) -> Option<ByteColumns> {
    match (column_of(header, "Bytes_RX"@), column_of(header, "Bytes_TX"@)) {
        (Some(rx), Some(tx)) => Some(ByteColumns::Directed { rx, tx }),
        _ => match column_of(header, "Size_Bytes"@) {
            Some(size) => Some(ByteColumns::Undirected { size }),
            None => None,
        },
    }
}

/// The schema that a header row declares, if it names every column that a
/// log must have.
pub open spec fn schema_of(header: Seq<Seq<char>>) -> Option<Schema> {
    match (
        column_of(header, "Time"@),
        column_of(header, "Function"@),
        column_of(header, "Duration_Sec"@),
        column_of(header, "Target_PE"@),
        byte_columns_of(header),
        column_of(header, "Stacktrace"@),
    ) {
        (Some(time), Some(function), Some(duration), Some(target), Some(bytes), Some(stacktrace)) => {
            Some(
                Schema {
                    time,
                    function,
                    duration,
                    target,
                    bytes,
                    stacktrace,
                    extra: column_of(header, "Extra"@),
                    symboltrace: column_of(header, "Symboltrace"@),
                },
            )
        },
        _ => None,
    }
}

/// Finds the first column with the given name.
pub fn find_column(header: &Vec<String>, name: &str) -> (r: Option<usize>)
    ensures
        r == column_of(header.deep_view(), name@),
{
    let wanted: String = name.to_owned();
    let ghost h = header.deep_view();
    let mut k: usize = 0;
    while k < header.len()
        invariant
            k <= header.len(),
            h == header.deep_view(),
            wanted@ == name@,
            forall|j: int| 0 <= j < k ==> #[trigger] h[j] != name@,
        decreases header.len() - k,
    {
        if header[k] == wanted {
            proof {
                assert(h[k as int] == name@);
                assert(is_column(h, name@, k as int));
                let c = choose|c: int| is_column(h, name@, c);
                if c < k {
                    assert(h[c] != name@);
                } else if k < c {
                    assert(h[k as int] != name@);
                }
            }
            return Some(k);
        }
        assert(h[k as int] == header[k as int]@);
        k = k + 1;
    }
    None
}

impl Schema {
    /// Reads the schema off the header row of a log.
    pub fn from_header(header: &Vec<String>) -> (r: Option<Schema>)
        ensures
            r == schema_of(header.deep_view()),
    {
        let time = find_column(header, "Time");
        let function = find_column(header, "Function");
        let duration = find_column(header, "Duration_Sec");
        let target = find_column(header, "Target_PE");
        let stacktrace = find_column(header, "Stacktrace");
        let rx = find_column(header, "Bytes_RX");
        let tx = find_column(header, "Bytes_TX");
        let bytes = match (rx, tx) {
            (Some(rx), Some(tx)) => Some(ByteColumns::Directed { rx, tx }),
            _ => match find_column(header, "Size_Bytes") {
                Some(size) => Some(ByteColumns::Undirected { size }),
                None => None,
            },
        };
        match (time, function, duration, target, bytes, stacktrace) {
            (
                Some(time),
                Some(function),
                Some(duration),
                Some(target),
                Some(bytes),
                Some(stacktrace),
            ) => {
                Some(
                    Schema {
                        time,
                        function,
                        duration,
                        target,
                        bytes,
                        stacktrace,
                        extra: find_column(header, "Extra"),
                        symboltrace: find_column(header, "Symboltrace"),
                    },
                )
            },
            _ => None,
        }
    }
}

/// The field in column `k` of a row, if the row is that long.
pub open spec fn field(record: Seq<Seq<char>>, k: usize) -> Option<Seq<char>> {
    if k < record.len() {
        Some(record[k as int])
    } else {
        None
    }
}

/// The text of an optional column: none where the column or the field is
/// missing, and none for an empty field.
pub open spec fn optional_text(record: Seq<Seq<char>>, column: Option<usize>) -> Option<Seq<char>> {
    match column {
        Some(k) => match field(record, k) {
            Some(text) => if text.len() > 0 {
                Some(text)
            } else {
                None
            },
            None => None,
        },
        None => None,
    }
}

/// The nanoseconds in a field that holds seconds.
pub open spec fn nanos_field(record: Seq<Seq<char>>, k: usize) -> Option<i64> {
    match field(record, k) {
        Some(text) => as_nanos(encode_utf8(text)),
        None => None,
    }
}

/// The number in a field that holds a count of bytes.
pub open spec fn count_field(record: Seq<Seq<char>>, k: usize) -> Option<u64> {
    match field(record, k) {
        Some(text) => as_u64(encode_utf8(text)),
        None => None,
    }
}

/// The number in a field that holds a process, or a negative number.
pub open spec fn target_field(record: Seq<Seq<char>>, k: usize) -> Option<i32> {
    match field(record, k) {
        Some(text) => as_i32(encode_utf8(text)),
        None => None,
    }
}

/// The received and the sent bytes of a row.
pub open spec fn bytes_of(columns: ByteColumns, record: Seq<Seq<char>>) -> Option<(u64, u64)> {
    match columns {
        ByteColumns::Directed { rx, tx } => match (count_field(record, rx), count_field(record, tx)) {
            (Some(received), Some(sent)) => Some((received, sent)),
            _ => None,
        },
        ByteColumns::Undirected { size } => match count_field(record, size) {
            Some(bytes) => Some((0u64, bytes)),
            None => None,
        },
    }
}

/// The record that a row stands for. There is none if a field that must be
/// there is missing or is no number of its kind, if the duration is
/// negative, or if the call would end after the last instant that an `i64`
/// holds.
pub open spec fn raw_event_of(schema: Schema, record: Seq<Seq<char>>) -> Option<RawEventView> {
    match (
        nanos_field(record, schema.time),
        field(record, schema.function),
        nanos_field(record, schema.duration),
        target_field(record, schema.target),
        bytes_of(schema.bytes, record),
        field(record, schema.stacktrace),
    ) {
        (Some(time), Some(function), Some(duration), Some(target_pe), Some(bytes), Some(stacktrace)) => {
            if 0 <= duration && time + duration <= i64::MAX {
                Some(
                    RawEventView {
                        time,
                        function,
                        duration,
                        target_pe,
                        bytes_rx: bytes.0,
                        bytes_tx: bytes.1,
                        stacktrace,
                        extra: optional_text(record, schema.extra),
                        symboltrace: optional_text(record, schema.symboltrace),
                    },
                )
            } else {
                None
            }
        },
        _ => None,
    }
}

/// Reads the field in column `k` as seconds.
pub fn read_nanos(record: &Vec<String>, k: usize) -> (r: Option<i64>)
    ensures
        r == nanos_field(record.deep_view(), k),
{
    if k < record.len() {
        parse_seconds(record[k].as_str().as_bytes())
    } else {
        None
    }
}

/// Reads the field in column `k` as a count of bytes.
pub fn read_count(record: &Vec<String>, k: usize) -> (r: Option<u64>)
    ensures
        r == count_field(record.deep_view(), k),
{
    if k < record.len() {
        parse_u64(record[k].as_str().as_bytes())
    } else {
        None
    }
}

/// Reads the field in column `k` as a target process.
pub fn read_target(record: &Vec<String>, k: usize) -> (r: Option<i32>)
    ensures
        r == target_field(record.deep_view(), k),
{
    if k < record.len() {
        parse_i32(record[k].as_str().as_bytes())
    } else {
        None
    }
}

/// Copies the field in column `k`.
pub fn read_text(record: &Vec<String>, k: usize) -> (r: Option<String>)
    ensures
        crate::event::text_view(r) == field(record.deep_view(), k),
{
    if k < record.len() {
        Some(record[k].clone())
    } else {
        None
    }
}

/// Copies the field of an optional column, unless it is empty.
pub fn read_optional_text(record: &Vec<String>, column: Option<usize>) -> (r: Option<String>)
    ensures
        crate::event::text_view(r) == optional_text(record.deep_view(), column),
{
    match column {
        Some(k) => {
            if k < record.len() && !record[k].as_str().is_empty() {
                Some(record[k].clone())
            } else {
                None
            }
        },
        None => None,
    }
}

/// Reads the received and the sent bytes of a row.
pub fn read_bytes(columns: &ByteColumns, record: &Vec<String>) -> (r: Option<(u64, u64)>)
    ensures
        r == bytes_of(*columns, record.deep_view()),
{
    match columns {
        ByteColumns::Directed { rx, tx } => {
            match (read_count(record, *rx), read_count(record, *tx)) {
                (Some(received), Some(sent)) => Some((received, sent)),
                _ => None,
            }
        },
        ByteColumns::Undirected { size } => {
            match read_count(record, *size) {
                Some(bytes) => Some((0u64, bytes)),
                None => None,
            }
        },
    }
}

/// Turns a row into a record.
pub fn parse_record(schema: &Schema, record: &Vec<String>) -> (r: Option<RawEvent>)
    ensures
        match r {
            Some(e) => raw_event_of(*schema, record.deep_view()) == Some(e@) && e.wf(),
            None => raw_event_of(*schema, record.deep_view()).is_none(),
        },
{
    let time = match read_nanos(record, schema.time) {
        Some(v) => v,
        None => {
            return None;
        },
    };
    let function = match read_text(record, schema.function) {
        Some(v) => v,
        None => {
            return None;
        },
    };
    let duration = match read_nanos(record, schema.duration) {
        Some(v) => v,
        None => {
            return None;
        },
    };
    let target_pe = match read_target(record, schema.target) {
        Some(v) => v,
        None => {
            return None;
        },
    };
    let bytes = match read_bytes(&schema.bytes, record) {
        Some(v) => v,
        None => {
            return None;
        },
    };
    let stacktrace = match read_text(record, schema.stacktrace) {
        Some(v) => v,
        None => {
            return None;
        },
    };
    if duration < 0 || time as i128 + duration as i128 > i64::MAX as i128 {
        return None;
    }
    let extra = read_optional_text(record, schema.extra);
    let symboltrace = read_optional_text(record, schema.symboltrace);
    Some(
        RawEvent {
            time,
            function,
            duration,
            target_pe,
            bytes_rx: bytes.0,
            bytes_tx: bytes.1,
            stacktrace,
            extra,
            symboltrace,
        },
    )
}

} // verus!
