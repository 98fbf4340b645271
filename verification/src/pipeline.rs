//! The record stream assembler and the whole pipeline: lines in, queryable
//! index out. Assembly aborts on the first malformed line — a skipped
//! record would silently corrupt the derived offsets of every record after
//! it — so either a complete, consistent index is produced, or none is.

use vstd::prelude::*;

use crate::index::{index_model, GribIndex};
use crate::parse::{line_ok, spec_decode};
use crate::resolve::{resolve, resolve_model, starts_sorted};
use crate::types::{
    EndOffset, GribIdxRecord, IdxError, RecordModel, record_key, record_range, records_view,
};

verus! {

/// The views of a sequence of owned lines.
pub open spec fn lines_view(ls: Seq<String>) -> Seq<Seq<char>> {
    ls.map_values(|s: String| s@)
}

/// Every line is well-formed.
pub open spec fn lines_ok(ls: Seq<Seq<char>>) -> bool {
    forall|i: int| 0 <= i < ls.len() ==> line_ok(#[trigger] ls[i])
}

/// The records the lines denote, in file order.
pub open spec fn decode_all(ls: Seq<Seq<char>>) -> Seq<RecordModel> {
    ls.map_values(|l: Seq<char>| spec_decode(l))
}

/// Decode every line into a record, preserving input order. Fails with
/// `MalformedLine` on the first line that does not decode, and then no
/// record sequence is produced at all.
pub fn assemble(lines: &Vec<String>) -> (r: Result<Vec<GribIdxRecord>, IdxError>)
    ensures
        match r {
            Ok(rs) => lines_ok(lines_view(lines@)) && records_view(rs@) == decode_all(
                lines_view(lines@),
            ),
            Err(e) => e == IdxError::MalformedLine && !lines_ok(lines_view(lines@)),
        },
{
    let ghost lv = lines_view(lines@);
    let n = lines.len();
    let mut rs: Vec<GribIdxRecord> = Vec::new();
    let mut i: usize = 0;
    while i < n
        invariant
            i <= n,
            n == lines.len(),
            lv == lines_view(lines@),
            rs@.len() == i,
            forall|j: int| 0 <= j < i ==> line_ok(#[trigger] lv[j]),
            forall|j: int| 0 <= j < i ==> rs@[j]@ == spec_decode(#[trigger] lv[j]),
        decreases n - i,
    {
        match GribIdxRecord::from_line(lines[i].as_str()) {
            Ok(rec) => {
                rs.push(rec);
            },
            Err(e) => {
                proof {
                    assert(!line_ok(lv[i as int]));
                }
                return Err(e);
            },
        }
        i = i + 1;
    }
    proof {
        assert(records_view(rs@) =~= decode_all(lv));
    }
    Ok(rs)
}

/// The whole pipeline: decode the lines, resolve each record's end offset
/// from its successor's start offset, and fold the result into the lookup.
/// Succeeds exactly when every line is well-formed and the start offsets
/// never decrease in file order; zero lines give an empty index, not an
/// error.
pub fn build_index(lines: &Vec<String>) -> (r: Result<GribIndex, IdxError>)
    ensures
        match r {
            Ok(idx) => {
                &&& lines_ok(lines_view(lines@))
                &&& starts_sorted(decode_all(lines_view(lines@)))
                &&& idx.wf()
                &&& idx@ == index_model(resolve_model(decode_all(lines_view(lines@))))
            },
            Err(e) => (e == IdxError::MalformedLine && !lines_ok(lines_view(lines@))) || (e
                == IdxError::CorruptIndex && lines_ok(lines_view(lines@)) && !starts_sorted(
                decode_all(lines_view(lines@)),
            )),
        },
{
    let records = match assemble(lines) {
        Ok(rs) => rs,
        Err(e) => {
            return Err(e);
        },
    };
    let resolved = match resolve(&records) {
        Ok(rs) => rs,
        Err(e) => {
            return Err(e);
        },
    };
    Ok(GribIndex::build(&resolved))
}

/// Law: zero lines are not an error — they denote the empty index.
pub proof fn lemma_empty_lines(ls: Seq<Seq<char>>)
    requires
        ls.len() == 0,
    ensures
        lines_ok(ls),
        starts_sorted(decode_all(ls)),
        index_model(resolve_model(decode_all(ls))) == Map::<
            (Seq<char>, Seq<char>),
            (u64, EndOffset),
        >::empty(),
{
    assert(resolve_model(decode_all(ls)).len() == 0);
}

/// Law: a single record resolves to an index with exactly one entry, whose
/// byte range is open-ended.
pub proof fn lemma_single_record(rs: Seq<RecordModel>)
    requires
        rs.len() == 1,
    ensures
        index_model(resolve_model(rs)) == Map::<(Seq<char>, Seq<char>), (u64, EndOffset)>::empty()
            .insert(record_key(rs[0]), (rs[0].start_byte, EndOffset::Open)),
{
    let rm = resolve_model(rs);
    assert(rm.drop_last() =~= Seq::<RecordModel>::empty());
    assert(rm.last() == rm[0]);
    assert(rm[0].stop_byte == EndOffset::Open);
    assert(rm[0].start_byte == rs[0].start_byte);
    assert(record_key(rm[0]) == record_key(rs[0]));
    assert(index_model(rm.drop_last()) == Map::<(Seq<char>, Seq<char>), (u64, EndOffset)>::empty());
    assert(record_range(rm.last()) == (rs[0].start_byte, EndOffset::Open));
    assert(index_model(rm) =~= Map::<(Seq<char>, Seq<char>), (u64, EndOffset)>::empty().insert(
        record_key(rs[0]),
        (rs[0].start_byte, EndOffset::Open),
    ));
}

} // verus!
