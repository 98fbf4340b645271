//! The line decoder: grammar of one sidecar index line, stated as spec
//! functions, and the verified parser that turns a line into a record.
//!
//! One line has six colon-separated fields in fixed order:
//! `<sequence>:<start_offset>:d=<reference_time>:<variable>:<level>:<forecast>`.
//! Trailing fields beyond the sixth are ignored (forward-compatibility slack).

use vstd::prelude::*;

use crate::types::{EndOffset, GribIdxRecord, IdxError, RecordModel};

verus! {

/// `c` is an ASCII decimal digit.
pub open spec fn is_digit(c: char) -> bool {
    48 <= c as u32 <= 57
}

/// Numeric value of a digit character.
pub open spec fn digit_val(c: char) -> int {
    c as u32 - 48
}

/// Value of `s` read as a decimal number (most significant digit first).
pub open spec fn digits_val(s: Seq<char>) -> int
    decreases s.len(),
{
    if s.len() == 0 {
        0
    } else {
        digits_val(s.drop_last()) * 10 + digit_val(s.last())
    }
}

/// A non-empty string of decimal digits.
pub open spec fn is_number(s: Seq<char>) -> bool {
    s.len() > 0 && (forall|i: int| 0 <= i < s.len() ==> is_digit(s[i]))
}

/// The colon-separated fields of `s`, in order. As with `str::split`, the
/// empty string has one empty field, and every string has one field more
/// than it has colons.
pub open spec fn spec_split(s: Seq<char>) -> Seq<Seq<char>>
    decreases s.len(),
{
    if s.len() == 0 {
        seq![Seq::<char>::empty()]
    } else if s[0] == ':' {
        seq![Seq::<char>::empty()] + spec_split(s.drop_first())
    } else {
        let rest = spec_split(s.drop_first());
        seq![seq![s[0]] + rest[0]] + rest.drop_first()
    }
}

/// The timestamp field carries a literal `d=` marker before the digits.
pub open spec fn timestamp_field_ok(f: Seq<char>) -> bool {
    &&& f.len() >= 2
    &&& f[0] == 'd'
    &&& f[1] == '='
    &&& is_number(f.skip(2))
    &&& digits_val(f.skip(2)) <= u64::MAX
}

/// A line is well-formed when it has at least six fields, its two offset
/// fields and its timestamp digits are numbers that fit the offset type,
/// and the timestamp field carries the `d=` marker.
pub open spec fn line_ok(s: Seq<char>) -> bool {
    let fs = spec_split(s);
    &&& fs.len() >= 6
    &&& is_number(fs[0]) && digits_val(fs[0]) <= u64::MAX
    &&& is_number(fs[1]) && digits_val(fs[1]) <= u64::MAX
    &&& timestamp_field_ok(fs[2])
}

/// The record a well-formed line denotes; its end offset is still unset.
pub open spec fn spec_decode(s: Seq<char>) -> RecordModel {
    let fs = spec_split(s);
    RecordModel {
        record_num: digits_val(fs[0]) as u64,
        start_byte: digits_val(fs[1]) as u64,
        stop_byte: EndOffset::Unset,
        timestamp: digits_val(fs[2].skip(2)) as u64,
        parameter: fs[3],
        level: fs[4],
        forecast: fs[5],
    }
}

/// The views of a sequence of string slices.
pub open spec fn str_views(fs: Seq<&str>) -> Seq<Seq<char>> {
    fs.map_values(|f: &str| f@)
}

// --- facts about the grammar ---

/// A string without colons is one single field.
proof fn lemma_split_no_colon(s: Seq<char>)
    requires
        !s.contains(':'),
    ensures
        spec_split(s) == seq![s],
    decreases s.len(),
{
    if s.len() == 0 {
        assert(s =~= Seq::<char>::empty());
        assert(spec_split(s) =~= seq![s]);
    } else {
        assert(s[0] != ':');
        assert(!s.drop_first().contains(':')) by {
            if s.drop_first().contains(':') {
                let i = choose|i: int| 0 <= i < s.drop_first().len() && s.drop_first()[i] == ':';
                assert(s[i + 1] == ':');
            }
        }
        lemma_split_no_colon(s.drop_first());
        assert(seq![s[0]] + s.drop_first() =~= s);
        assert(spec_split(s) =~= seq![s]);
    }
}

/// Splitting at the first colon: a colon-free prefix becomes the first
/// field and the rest splits on its own.
proof fn lemma_split_at_colon(a: Seq<char>, b: Seq<char>)
    requires
        !a.contains(':'),
    ensures
        spec_split(a + seq![':'] + b) == seq![a] + spec_split(b),
    decreases a.len(),
{
    let s = a + seq![':'] + b;
    if a.len() == 0 {
        assert(s[0] == ':');
        assert(s.drop_first() =~= b);
        assert(a =~= Seq::<char>::empty());
        assert(spec_split(s) =~= seq![a] + spec_split(b));
    } else {
        assert(s[0] == a[0]);
        assert(a[0] != ':');
        assert(!a.drop_first().contains(':')) by {
            if a.drop_first().contains(':') {
                let i = choose|i: int|
                    0 <= i < a.drop_first().len() && a.drop_first()[i] == ':';
                assert(a[i + 1] == ':');
            }
        }
        assert(s.drop_first() =~= a.drop_first() + seq![':'] + b);
        lemma_split_at_colon(a.drop_first(), b);
        let rest = spec_split(s.drop_first());
        assert(rest == seq![a.drop_first()] + spec_split(b));
        assert(rest[0] == a.drop_first());
        assert(seq![s[0]] + rest[0] =~= a);
        assert(rest.drop_first() =~= spec_split(b));
        assert(spec_split(s) =~= seq![a] + spec_split(b));
    }
}

/// The value of a digit string is non-negative.
proof fn lemma_digits_val_nonneg(s: Seq<char>)
    requires
        forall|i: int| 0 <= i < s.len() ==> is_digit(s[i]),
    ensures
        digits_val(s) >= 0,
    decreases s.len(),
{
    if s.len() > 0 {
        lemma_digits_val_nonneg(s.drop_last());
    }
}

/// Reading more digits never decreases the value: a prefix's value is a
/// lower bound for the whole string's value.
proof fn lemma_digits_val_take_le(s: Seq<char>, i: int)
    requires
        forall|j: int| 0 <= j < s.len() ==> is_digit(s[j]),
        0 <= i <= s.len(),
    ensures
        digits_val(s.take(i)) <= digits_val(s),
    decreases s.len(),
{
    if i == s.len() {
        assert(s.take(i) =~= s);
    } else {
        assert(s.drop_last().take(i) =~= s.take(i));
        lemma_digits_val_take_le(s.drop_last(), i);
        lemma_digits_val_nonneg(s.drop_last());
        assert(digits_val(s) == digits_val(s.drop_last()) * 10 + digit_val(s.last()));
        assert(digits_val(s.drop_last()) * 10 >= digits_val(s.drop_last()));
    }
}

// --- executable parsing ---

/// Decimal parser: `Some` exactly when the whole string is a non-empty
/// digit string whose value fits in `u64`.
pub fn parse_u64(s: &str) -> (r: Option<u64>)
    ensures
        match r {
            Some(v) => is_number(s@) && digits_val(s@) == v,
            None => !(is_number(s@) && digits_val(s@) <= u64::MAX),
        },
{
    let n = s.unicode_len();
    if n == 0 {
        return None;
    }
    let mut acc: u64 = 0;
    let mut i: usize = 0;
    while i < n
        invariant
            0 < n == s@.len(),
            i <= n,
            forall|j: int| 0 <= j < i ==> is_digit(s@[j]),
            acc == digits_val(s@.take(i as int)),
        decreases n - i,
    {
        let c = s.get_char(i);
        let d = c as u32;
        if d < 48 || d > 57 {
            return None;
        }
        let dv = (d - 48) as u64;
        proof {
            assert(s@.take(i + 1).drop_last() =~= s@.take(i as int));
            assert(s@.take(i + 1).last() == s@[i as int]);
        }
        let acc10 = match acc.checked_mul(10) {
            Some(x) => x,
            None => {
                proof {
                    lemma_overflow(s@, i as int);
                }
                return None;
            },
        };
        acc = match acc10.checked_add(dv) {
            Some(x) => x,
            None => {
                proof {
                    lemma_overflow(s@, i as int);
                }
                return None;
            },
        };
        i = i + 1;
    }
    proof {
        assert(s@.take(n as int) =~= s@);
    }
    Some(acc)
}

/// If the value up to and including position `i` already exceeds the offset
/// type, the whole string cannot be a number that fits.
proof fn lemma_overflow(s: Seq<char>, i: int)
    requires
        0 <= i < s.len(),
        forall|j: int| 0 <= j <= i ==> is_digit(s[j]),
        digits_val(s.take(i + 1)) > u64::MAX,
    ensures
        !(is_number(s) && digits_val(s) <= u64::MAX),
{
    if is_number(s) {
        lemma_digits_val_take_le(s, i + 1);
    }
}

/// The colon-separated fields of a line, as slices of the line.
pub fn split_fields<'a>(line: &'a str) -> (fields: Vec<&'a str>)
    ensures
        str_views(fields@) == spec_split(line@),
{
    let s = line;
    let n = s.unicode_len();
    let mut fields: Vec<&str> = Vec::new();
    let mut start: usize = 0;
    let mut i: usize = 0;
    proof {
        assert(str_views(fields@) + spec_split(s@.skip(0)) =~= spec_split(s@.skip(0)));
        assert(s@.skip(0) =~= s@);
    }
    while i < n
        invariant
            start <= i <= n,
            n == s@.len(),
            forall|j: int| start <= j < i ==> s@[j] != ':',
            spec_split(s@) == str_views(fields@) + spec_split(s@.skip(start as int)),
        decreases n - i,
    {
        let c = s.get_char(i);
        if c == ':' {
            let f = s.substring_char(start, i);
            proof {
                let a = s@.subrange(start as int, i as int);
                let b = s@.skip(i + 1);
                assert(!a.contains(':')) by {
                    if a.contains(':') {
                        let k = choose|k: int| 0 <= k < a.len() && a[k] == ':';
                        assert(s@[start + k] == ':');
                    }
                }
                assert(s@.skip(start as int) =~= a + seq![':'] + b);
                lemma_split_at_colon(a, b);
                assert(str_views(fields@.push(f)) =~= str_views(fields@) + seq![a]);
                assert(str_views(fields@) + (seq![a] + spec_split(b)) =~= (str_views(
                    fields@,
                ) + seq![a]) + spec_split(b));
            }
            fields.push(f);
            start = i + 1;
        }
        i = i + 1;
    }
    let f = s.substring_char(start, n);
    proof {
        let a = s@.subrange(start as int, n as int);
        assert(!a.contains(':')) by {
            if a.contains(':') {
                let k = choose|k: int| 0 <= k < a.len() && a[k] == ':';
                assert(s@[start + k] == ':');
            }
        }
        lemma_split_no_colon(a);
        assert(str_views(fields@.push(f)) =~= str_views(fields@) + seq![a]);
        assert(s@.skip(start as int) == a);
    }
    fields.push(f);
    fields
}

impl GribIdxRecord {
    /// Decode one index line. Returns `MalformedLine` exactly when the line
    /// is not well-formed: fewer than six fields, an offset or timestamp
    /// field that is not a number fitting the offset type, or a timestamp
    /// field without its `d=` marker. The decoded record's end offset is
    /// still unset, pending range resolution.
    pub fn from_line(line: &str) -> (r: Result<GribIdxRecord, IdxError>)
        ensures
            match r {
                Ok(rec) => line_ok(line@) && rec@ == spec_decode(line@),
                Err(e) => e == IdxError::MalformedLine && !line_ok(line@),
            },
    {
        let fields = split_fields(line);
        proof {
            assert(forall|i: int|
                0 <= i < fields@.len() ==> spec_split(line@)[i] == #[trigger] fields@[i]@);
        }
        if fields.len() < 6 {
            return Err(IdxError::MalformedLine);
        }
        let record_num = match parse_u64(fields[0]) {
            Some(v) => v,
            None => {
                return Err(IdxError::MalformedLine);
            },
        };
        let start_byte = match parse_u64(fields[1]) {
            Some(v) => v,
            None => {
                return Err(IdxError::MalformedLine);
            },
        };
        let ts_field = fields[2];
        let ts_len = ts_field.unicode_len();
        if ts_len < 2 {
            return Err(IdxError::MalformedLine);
        }
        if ts_field.get_char(0) != 'd' || ts_field.get_char(1) != '=' {
            return Err(IdxError::MalformedLine);
        }
        let ts_digits = ts_field.substring_char(2, ts_len);
        proof {
            assert(ts_digits@ =~= spec_split(line@)[2].skip(2));
        }
        let timestamp = match parse_u64(ts_digits) {
            Some(v) => v,
            None => {
                return Err(IdxError::MalformedLine);
            },
        };
        let rec = GribIdxRecord {
            record_num,
            start_byte,
            stop_byte: EndOffset::Unset,
            timestamp,
            parameter: fields[3].to_owned(),
            level: fields[4].to_owned(),
            forecast: fields[5].to_owned(),
        };
        proof {
            assert(rec@ =~= spec_decode(line@));
        }
        Ok(rec)
    }
}

/// Character-wise string equality, decided without any trusted call.
pub fn str_eq(a: &str, b: &str) -> (r: bool)
    ensures
        r == (a@ == b@),
{
    let na = a.unicode_len();
    let nb = b.unicode_len();
    if na != nb {
        return false;
    }
    let mut i: usize = 0;
    while i < na
        invariant
            i <= na,
            na == a@.len(),
            na == b@.len(),
            forall|j: int| 0 <= j < i ==> a@[j] == b@[j],
        decreases na - i,
    {
        if a.get_char(i) != b.get_char(i) {
            return false;
        }
        i = i + 1;
    }
    proof {
        assert(a@ =~= b@);
    }
    true
}

} // verus!
