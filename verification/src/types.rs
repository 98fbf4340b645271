//! Core data types: one index record, its ghost model, and the error taxonomy.

use vstd::prelude::*;

verus! {

/// Exclusive upper bound of a record's byte range. The sidecar format never
/// states it: it is derived from the next record's start offset, and the last
/// record's range stays open (it extends to the end of the object).
#[derive(Clone, Copy, Debug, PartialEq, Eq, Structural)]
pub enum EndOffset {
    /// Not yet resolved (state of a freshly decoded record).
    Unset,
    /// Open-ended: the range extends to the end of the object.
    Open,
    /// Resolved exclusive end offset.
    At(u64),
}

/// Failures of index construction. None is recovered from internally: either a
/// complete, consistent index is produced, or none is.
#[derive(Clone, Copy, Debug, PartialEq, Eq, Structural)]
pub enum IdxError {
    /// The underlying stream could not be read to completion (raised at the
    /// I/O edge, outside this library's verified core).
    IoFailure,
    /// A line does not match the six-field colon-delimited shape, a numeric
    /// field fails to parse, or the timestamp field lacks its `d=` marker.
    MalformedLine,
    /// Resolved offsets violate the non-decreasing invariant: the source
    /// index itself is inconsistent.
    CorruptIndex,
}

/// Mathematical model of one index record: integer fields as they are, text
/// fields as character sequences.
#[verifier::ext_equal]
pub ghost struct RecordModel {
    pub record_num: u64,
    pub start_byte: u64,
    pub stop_byte: EndOffset,
    pub timestamp: u64,
    pub parameter: Seq<char>,
    pub level: Seq<char>,
    pub forecast: Seq<char>,
}

/// One entry of the sidecar index: one variable/level record of the binary
/// file. Decoded from exactly one line; `stop_byte` starts `Unset` and is
/// filled exactly once by range resolution.
#[derive(Debug)]
pub struct GribIdxRecord {
    /// 1-based ordinal as declared in the index; traceability only.
    pub record_num: u64,
    /// Inclusive byte offset where the record's payload begins.
    pub start_byte: u64,
    /// Exclusive end of the payload, once resolved.
    pub stop_byte: EndOffset,
    /// Model run time as the raw digits of the `d=` field.
    pub timestamp: u64,
    /// Variable code of the meteorological field (opaque text).
    pub parameter: String,
    /// Vertical level or surface descriptor (opaque text).
    pub level: String,
    /// Forecast step/type descriptor (opaque text).
    pub forecast: String,
}

impl View for GribIdxRecord {
    type V = RecordModel;

    open spec fn view(&self) -> RecordModel {
        RecordModel {
            record_num: self.record_num,
            start_byte: self.start_byte,
            stop_byte: self.stop_byte,
            timestamp: self.timestamp,
            parameter: self.parameter@,
            level: self.level@,
            forecast: self.forecast@,
        }
    }
}

/// The lookup key a record contributes to the index.
pub open spec fn record_key(r: RecordModel) -> (Seq<char>, Seq<char>) {
    (r.parameter, r.level)
}

/// The byte range a record contributes to the index.
pub open spec fn record_range(r: RecordModel) -> (u64, EndOffset) {
    (r.start_byte, r.stop_byte)
}

/// The models of a sequence of records.
pub open spec fn records_view(rs: Seq<GribIdxRecord>) -> Seq<RecordModel> {
    rs.map_values(|r: GribIdxRecord| r@)
}

} // verus!
