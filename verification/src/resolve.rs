//! The range resolver: derives each record's end offset from the start
//! offset of its immediate successor; the last record's range stays open.

use vstd::prelude::*;

use crate::types::{EndOffset, GribIdxRecord, IdxError, RecordModel, records_view};

verus! {

/// Start offsets never decrease in file order.
pub open spec fn starts_sorted(rs: Seq<RecordModel>) -> bool {
    forall|i: int| #![trigger rs[i]] 0 <= i < rs.len() - 1 ==> rs[i].start_byte <= rs[i + 1].start_byte
}

/// The resolved form of a record sequence: every record but the last ends
/// where its successor starts; the last record's range is open. All other
/// fields are untouched.
pub open spec fn resolve_model(rs: Seq<RecordModel>) -> Seq<RecordModel> {
    Seq::new(
        rs.len(),
        |i: int|
            RecordModel {
                stop_byte: if i == rs.len() - 1 {
                    EndOffset::Open
                } else {
                    EndOffset::At(rs[i + 1].start_byte)
                },
                ..rs[i]
            },
    )
}

/// Law: in a resolved sequence, every record but the last ends exactly where
/// its successor starts, and the last record's range is open.
pub proof fn lemma_resolved_ranges(rs: Seq<RecordModel>)
    ensures
        resolve_model(rs).len() == rs.len(),
        forall|i: int|
            0 <= i < rs.len() - 1 ==> resolve_model(rs)[i].stop_byte == EndOffset::At(
                rs[i + 1].start_byte,
            ),
        rs.len() > 0 ==> resolve_model(rs)[rs.len() - 1].stop_byte == EndOffset::Open,
{
}

/// Law: resolution fills the end offset and nothing else — every other
/// field of every record is untouched.
pub proof fn lemma_resolve_preserves_fields(rs: Seq<RecordModel>, i: int)
    requires
        0 <= i < rs.len(),
    ensures
        resolve_model(rs)[i].record_num == rs[i].record_num,
        resolve_model(rs)[i].start_byte == rs[i].start_byte,
        resolve_model(rs)[i].timestamp == rs[i].timestamp,
        resolve_model(rs)[i].parameter == rs[i].parameter,
        resolve_model(rs)[i].level == rs[i].level,
        resolve_model(rs)[i].forecast == rs[i].forecast,
{
}

/// Law: non-decreasing start offsets hold across the whole file order, not
/// only between neighbours.
pub proof fn lemma_sorted_global(rs: Seq<RecordModel>, i: int, j: int)
    requires
        starts_sorted(rs),
        0 <= i <= j < rs.len(),
    ensures
        rs[i].start_byte <= rs[j].start_byte,
    decreases j - i,
{
    if i < j {
        lemma_sorted_global(rs, i + 1, j);
    }
}

/// Law: when start offsets are non-decreasing, every closed resolved range
/// has non-negative width.
pub proof fn lemma_resolved_width_nonneg(rs: Seq<RecordModel>)
    requires
        starts_sorted(rs),
    ensures
        forall|i: int|
            0 <= i < rs.len() - 1 ==> resolve_model(rs)[i].stop_byte == EndOffset::At(
                rs[i + 1].start_byte,
            ) && resolve_model(rs)[i].start_byte <= rs[i + 1].start_byte,
{
}

/// Fill in every end offset in one linear pass. Succeeds exactly when the
/// start offsets are non-decreasing in file order; a decreasing offset means
/// the source index itself is inconsistent and surfaces as `CorruptIndex`.
/// An empty sequence resolves to an empty sequence; a single record resolves
/// to one open-ended record.
pub fn resolve(records: &Vec<GribIdxRecord>) -> (r: Result<Vec<GribIdxRecord>, IdxError>)
    ensures
        match r {
            Ok(out) => starts_sorted(records_view(records@)) && records_view(out@)
                == resolve_model(records_view(records@)),
            Err(e) => e == IdxError::CorruptIndex && !starts_sorted(records_view(records@)),
        },
{
    let ghost rv = records_view(records@);
    let n = records.len();
    let mut out: Vec<GribIdxRecord> = Vec::new();
    let mut i: usize = 0;
    while i < n
        invariant
            i <= n,
            n == records.len(),
            rv == records_view(records@),
            out@.len() == i,
            forall|j: int| #![trigger rv[j]] 0 <= j < i && j < n - 1 ==> rv[j].start_byte <= rv[
                j + 1
            ].start_byte,
            forall|j: int| 0 <= j < i ==> out@[j]@ == resolve_model(rv)[j],
        decreases n - i,
    {
        let stop: EndOffset = if i + 1 < n {
            if records[i + 1].start_byte < records[i].start_byte {
                proof {
                    assert(!(rv[i as int].start_byte <= rv[i + 1].start_byte));
                }
                return Err(IdxError::CorruptIndex);
            }
            EndOffset::At(records[i + 1].start_byte)
        } else {
            EndOffset::Open
        };
        let rec = GribIdxRecord {
            record_num: records[i].record_num,
            start_byte: records[i].start_byte,
            stop_byte: stop,
            timestamp: records[i].timestamp,
            parameter: records[i].parameter.clone(),
            level: records[i].level.clone(),
            forecast: records[i].forecast.clone(),
        };
        proof {
            assert(rec@ =~= resolve_model(rv)[i as int]);
        }
        out.push(rec);
        i = i + 1;
    }
    proof {
        assert(records_view(out@) =~= resolve_model(rv));
    }
    Ok(out)
}

} // verus!
