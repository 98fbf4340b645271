//! The index builder: folds resolved records into a lookup from
//! (variable, level) to byte range, the last file-order occurrence of a
//! key winning over earlier ones.

use vstd::prelude::*;

use crate::parse::str_eq;
use crate::types::{EndOffset, GribIdxRecord, RecordModel, record_key, record_range, records_view};

verus! {

/// One entry of the finished lookup: a (variable, level) key and the byte
/// range of its record inside the binary object.
#[derive(Debug)]
pub struct IndexEntry {
    pub parameter: String,
    pub level: String,
    pub start_byte: u64,
    pub stop_byte: EndOffset,
}

/// The lookup key of an entry.
pub open spec fn entry_key(e: IndexEntry) -> (Seq<char>, Seq<char>) {
    (e.parameter@, e.level@)
}

/// The byte range of an entry.
pub open spec fn entry_range(e: IndexEntry) -> (u64, EndOffset) {
    (e.start_byte, e.stop_byte)
}

/// The map denoted by a sequence of entries: later entries overwrite
/// earlier ones with the same key.
pub open spec fn entries_map(s: Seq<IndexEntry>) -> Map<(Seq<char>, Seq<char>), (u64, EndOffset)>
    decreases s.len(),
{
    if s.len() == 0 {
        Map::empty()
    } else {
        entries_map(s.drop_last()).insert(entry_key(s.last()), entry_range(s.last()))
    }
}

/// The index denoted by a record sequence: fold in file order, so that of
/// two records with the same (variable, level) key the one latest in file
/// order wins.
pub open spec fn index_model(rs: Seq<RecordModel>) -> Map<(Seq<char>, Seq<char>), (u64, EndOffset)>
    decreases rs.len(),
{
    if rs.len() == 0 {
        Map::empty()
    } else {
        index_model(rs.drop_last()).insert(record_key(rs.last()), record_range(rs.last()))
    }
}

/// A key is in the map of an entry sequence exactly when some entry has it.
proof fn lemma_entries_map_contains(s: Seq<IndexEntry>, k: (Seq<char>, Seq<char>))
    ensures
        entries_map(s).contains_key(k) <==> exists|i: int|
            0 <= i < s.len() && entry_key(#[trigger] s[i]) == k,
    decreases s.len(),
{
    if s.len() > 0 {
        lemma_entries_map_contains(s.drop_last(), k);
        if entry_key(s.last()) == k {
            assert(entry_key(s[s.len() - 1]) == k);
        } else if entries_map(s).contains_key(k) {
            let i = choose|i: int| 0 <= i < s.drop_last().len() && entry_key(
                #[trigger] s.drop_last()[i],
            ) == k;
            assert(entry_key(s[i]) == k);
        } else {
            if exists|i: int| 0 <= i < s.len() && entry_key(#[trigger] s[i]) == k {
                let i = choose|i: int| 0 <= i < s.len() && entry_key(#[trigger] s[i]) == k;
                assert(entry_key(s.drop_last()[i]) == k);
            }
        }
    }
}

/// With pairwise distinct keys, the map sends each entry's key to that
/// entry's range.
proof fn lemma_entries_map_at(s: Seq<IndexEntry>, i: int)
    requires
        0 <= i < s.len(),
        forall|p: int, q: int|
            0 <= p < q < s.len() ==> entry_key(#[trigger] s[p]) != entry_key(#[trigger] s[q]),
    ensures
        entries_map(s).contains_key(entry_key(s[i])),
        entries_map(s)[entry_key(s[i])] == entry_range(s[i]),
    decreases s.len(),
{
    if i < s.len() - 1 {
        assert(entry_key(s[i]) != entry_key(s[s.len() - 1]));
        lemma_entries_map_at(s.drop_last(), i);
    }
}

/// Overwriting the entry that holds a key updates the map at that key alone.
proof fn lemma_entries_map_update(s: Seq<IndexEntry>, i: int, e: IndexEntry)
    requires
        0 <= i < s.len(),
        entry_key(e) == entry_key(s[i]),
        forall|p: int, q: int|
            0 <= p < q < s.len() ==> entry_key(#[trigger] s[p]) != entry_key(#[trigger] s[q]),
    ensures
        entries_map(s.update(i, e)) == entries_map(s).insert(entry_key(e), entry_range(e)),
    decreases s.len(),
{
    let k = entry_key(e);
    if i == s.len() - 1 {
        assert(s.update(i, e).drop_last() =~= s.drop_last());
        assert(s.update(i, e).last() == e);
        assert(entries_map(s.drop_last()).insert(k, entry_range(e)) =~= entries_map(
            s,
        ).insert(k, entry_range(e)));
    } else {
        assert(s.update(i, e).drop_last() =~= s.drop_last().update(i, e));
        assert(s.update(i, e).last() == s.last());
        lemma_entries_map_update(s.drop_last(), i, e);
        assert(entry_key(s[i]) != entry_key(s[s.len() - 1]));
        assert(entries_map(s.drop_last()).insert(k, entry_range(e)).insert(
            entry_key(s.last()),
            entry_range(s.last()),
        ) =~= entries_map(s).insert(k, entry_range(e)));
    }
}

/// Law: when a (variable, level) key occurs more than once in a record
/// sequence, the index maps it to the byte range of the occurrence latest
/// in file order; earlier occurrences are discarded without error.
pub proof fn lemma_last_occurrence_wins(rs: Seq<RecordModel>, j: int)
    requires
        0 <= j < rs.len(),
        forall|m: int| j < m < rs.len() ==> record_key(#[trigger] rs[m]) != record_key(rs[j]),
    ensures
        index_model(rs).contains_key(record_key(rs[j])),
        index_model(rs)[record_key(rs[j])] == record_range(rs[j]),
    decreases rs.len(),
{
    if j < rs.len() - 1 {
        assert(record_key(rs[rs.len() - 1]) != record_key(rs[j]));
        assert(forall|m: int|
            j < m < rs.drop_last().len() ==> record_key(#[trigger] rs.drop_last()[m])
                != record_key(rs.drop_last()[j]));
        lemma_last_occurrence_wins(rs.drop_last(), j);
    }
}

/// The final queryable structure: a read-only lookup from (variable, level)
/// to the byte range of the corresponding record, built once per sidecar
/// file.
#[derive(Debug)]
pub struct GribIndex {
    entries: Vec<IndexEntry>,
}

impl View for GribIndex {
    type V = Map<(Seq<char>, Seq<char>), (u64, EndOffset)>;

    closed spec fn view(&self) -> Map<(Seq<char>, Seq<char>), (u64, EndOffset)> {
        entries_map(self.entries@)
    }
}

impl GribIndex {
    /// Entries carry pairwise distinct keys, so each key names one range.
    pub closed spec fn wf(&self) -> bool {
        forall|p: int, q: int|
            0 <= p < q < self.entries@.len() ==> entry_key(#[trigger] self.entries@[p])
                != entry_key(#[trigger] self.entries@[q])
    }

    /// The empty index. An index with zero records is valid, just useless
    /// downstream.
    pub fn new() -> (idx: GribIndex)
        ensures
            idx.wf(),
            idx@ == Map::<(Seq<char>, Seq<char>), (u64, EndOffset)>::empty(),
    {
        GribIndex { entries: Vec::new() }
    }

    /// Number of (variable, level) keys the index holds.
    pub fn len(&self) -> (n: usize)
        requires
            self.wf(),
        ensures
            n == self@.dom().len(),
    {
        proof {
            lemma_entries_len(self.entries@);
        }
        self.entries.len()
    }

    /// Record a byte range for a (variable, level) key, overwriting any
    /// range recorded for that key before.
    pub fn insert(&mut self, parameter: String, level: String, start_byte: u64, stop_byte: EndOffset)
        requires
            old(self).wf(),
        ensures
            final(self).wf(),
            final(self)@ == old(self)@.insert((parameter@, level@), (start_byte, stop_byte)),
    {
        let n = self.entries.len();
        let mut i: usize = 0;
        while i < n
            invariant
                i <= n,
                n == self.entries.len(),
                *self == *old(self),
                old(self).wf(),
                forall|j: int|
                    0 <= j < i ==> entry_key(#[trigger] self.entries@[j]) != (parameter@, level@),
            decreases n - i,
        {
            let same_parameter = str_eq(self.entries[i].parameter.as_str(), parameter.as_str());
            let same_level = str_eq(self.entries[i].level.as_str(), level.as_str());
            if same_parameter && same_level {
                let e = IndexEntry { parameter, level, start_byte, stop_byte };
                proof {
                    assert(entry_key(e) == entry_key(self.entries@[i as int]));
                    lemma_entries_map_update(self.entries@, i as int, e);
                }
                self.entries.set(i, e);
                proof {
                    let s2 = self.entries@;
                    assert(forall|j: int|
                        0 <= j < s2.len() ==> entry_key(#[trigger] s2[j]) == entry_key(
                            old(self).entries@[j],
                        ));
                }
                return;
            }
            i = i + 1;
        }
        let e = IndexEntry { parameter, level, start_byte, stop_byte };
        proof {
            assert(self.entries@.push(e).drop_last() =~= self.entries@);
        }
        self.entries.push(e);
    }

    /// Look up the byte range recorded for a (variable, level) key.
    pub fn get(&self, parameter: &str, level: &str) -> (r: Option<(u64, EndOffset)>)
        requires
            self.wf(),
        ensures
            match r {
                Some(v) => self@.contains_key((parameter@, level@)) && self@[(
                    parameter@,
                    level@,
                )] == v,
                None => !self@.contains_key((parameter@, level@)),
            },
    {
        let n = self.entries.len();
        let mut i: usize = 0;
        while i < n
            invariant
                i <= n,
                n == self.entries.len(),
                self.wf(),
                forall|j: int|
                    0 <= j < i ==> entry_key(#[trigger] self.entries@[j]) != (parameter@, level@),
            decreases n - i,
        {
            let same_parameter = str_eq(self.entries[i].parameter.as_str(), parameter);
            let same_level = str_eq(self.entries[i].level.as_str(), level);
            if same_parameter && same_level {
                proof {
                    lemma_entries_map_at(self.entries@, i as int);
                }
                return Some((self.entries[i].start_byte, self.entries[i].stop_byte));
            }
            i = i + 1;
        }
        proof {
            lemma_entries_map_contains(self.entries@, (parameter@, level@));
        }
        None
    }

    /// Fold a resolved record sequence into an index, in file order. The
    /// forward traversal always overwrites, which makes the record latest
    /// in file order win for a repeated (variable, level) key.
    pub fn build(records: &Vec<GribIdxRecord>) -> (idx: GribIndex)
        ensures
            idx.wf(),
            idx@ == index_model(records_view(records@)),
    {
        let ghost rv = records_view(records@);
        let mut idx = GribIndex::new();
        let n = records.len();
        let mut i: usize = 0;
        proof {
            assert(index_model(rv.take(0)) =~= Map::<(Seq<char>, Seq<char>), (u64, EndOffset)>::empty());
        }
        while i < n
            invariant
                i <= n,
                n == records.len(),
                rv == records_view(records@),
                idx.wf(),
                idx@ == index_model(rv.take(i as int)),
            decreases n - i,
        {
            idx.insert(
                records[i].parameter.clone(),
                records[i].level.clone(),
                records[i].start_byte,
                records[i].stop_byte,
            );
            proof {
                assert(rv.take(i + 1).drop_last() =~= rv.take(i as int));
                assert(rv.take(i + 1).last() == rv[i as int]);
            }
            i = i + 1;
        }
        proof {
            assert(rv.take(n as int) =~= rv);
        }
        idx
    }
}

/// With pairwise distinct keys, the map has exactly one key per entry.
proof fn lemma_entries_len(s: Seq<IndexEntry>)
    requires
        forall|p: int, q: int|
            0 <= p < q < s.len() ==> entry_key(#[trigger] s[p]) != entry_key(#[trigger] s[q]),
    ensures
        entries_map(s).dom().len() == s.len(),
        entries_map(s).dom().finite(),
    decreases s.len(),
{
    if s.len() > 0 {
        lemma_entries_len(s.drop_last());
        lemma_entries_map_contains(s.drop_last(), entry_key(s.last()));
        assert(forall|i: int|
            0 <= i < s.drop_last().len() ==> entry_key(#[trigger] s.drop_last()[i]) != entry_key(
                s.last(),
            ));
        assert(!entries_map(s.drop_last()).contains_key(entry_key(s.last())));
    }
}

} // verus!
