use grib_idx::index::GribIndex;
use grib_idx::parse::{parse_u64, str_eq};
use grib_idx::pipeline::{assemble, build_index};
use grib_idx::resolve::resolve;
use grib_idx::types::{EndOffset, GribIdxRecord, IdxError};

fn lines(ls: &[&str]) -> Vec<String> {
    ls.iter().map(|l| l.to_string()).collect()
}

#[test]
fn round_trip_three_lines() {
    let input = lines(&[
        "1:0:d=2022120918:UGRD:10 m above ground:anl",
        "2:100:d=2022120918:VGRD:10 m above ground:anl",
        "3:250:d=2022120918:TMP:2 m above ground:anl",
    ]);
    let idx = build_index(&input).unwrap();
    assert_eq!(idx.len(), 3);
    assert_eq!(
        idx.get("UGRD", "10 m above ground"),
        Some((0, EndOffset::At(100)))
    );
    assert_eq!(
        idx.get("VGRD", "10 m above ground"),
        Some((100, EndOffset::At(250)))
    );
    assert_eq!(
        idx.get("TMP", "2 m above ground"),
        Some((250, EndOffset::Open))
    );
    assert_eq!(idx.get("TMP", "10 m above ground"), None);
    assert_eq!(idx.get("HGT", "surface"), None);
}

#[test]
fn decoded_fields() {
    let rec = GribIdxRecord::from_line("31:4530731:d=2022120918:TMP:2 m above ground:anl").unwrap();
    assert_eq!(rec.record_num, 31);
    assert_eq!(rec.start_byte, 4530731);
    assert_eq!(rec.stop_byte, EndOffset::Unset);
    assert_eq!(rec.timestamp, 2022120918);
    assert_eq!(rec.parameter, "TMP");
    assert_eq!(rec.level, "2 m above ground");
    assert_eq!(rec.forecast, "anl");
}

#[test]
fn trailing_fields_are_ignored() {
    let rec = GribIdxRecord::from_line("1:0:d=2022120918:UGRD:10 m above ground:anl:extra:slack")
        .unwrap();
    assert_eq!(rec.parameter, "UGRD");
    assert_eq!(rec.level, "10 m above ground");
    assert_eq!(rec.forecast, "anl");
}

#[test]
fn missing_field_is_malformed() {
    let r = GribIdxRecord::from_line("1:0:d=2022120918:UGRD:10 m above ground");
    assert_eq!(r.unwrap_err(), IdxError::MalformedLine);
    let input = lines(&[
        "1:0:d=2022120918:UGRD:10 m above ground:anl",
        "2:100:d=2022120918:VGRD:10 m above ground",
    ]);
    assert_eq!(build_index(&input).unwrap_err(), IdxError::MalformedLine);
}

#[test]
fn non_digit_offset_is_malformed() {
    let r = GribIdxRecord::from_line("1:1a0:d=2022120918:UGRD:10 m above ground:anl");
    assert_eq!(r.unwrap_err(), IdxError::MalformedLine);
    let r = GribIdxRecord::from_line("x:0:d=2022120918:UGRD:10 m above ground:anl");
    assert_eq!(r.unwrap_err(), IdxError::MalformedLine);
    let r = GribIdxRecord::from_line("1::d=2022120918:UGRD:10 m above ground:anl");
    assert_eq!(r.unwrap_err(), IdxError::MalformedLine);
}

#[test]
fn missing_marker_is_malformed() {
    let r = GribIdxRecord::from_line("1:0:2022120918:UGRD:10 m above ground:anl");
    assert_eq!(r.unwrap_err(), IdxError::MalformedLine);
    let r = GribIdxRecord::from_line("1:0:e=2022120918:UGRD:10 m above ground:anl");
    assert_eq!(r.unwrap_err(), IdxError::MalformedLine);
    let input = lines(&["1:0:2022120918:UGRD:10 m above ground:anl"]);
    assert_eq!(build_index(&input).unwrap_err(), IdxError::MalformedLine);
}

#[test]
fn malformed_line_aborts_whole_parse() {
    let input = lines(&[
        "1:0:d=2022120918:UGRD:10 m above ground:anl",
        "not an index line",
        "3:250:d=2022120918:TMP:2 m above ground:anl",
    ]);
    assert_eq!(build_index(&input).unwrap_err(), IdxError::MalformedLine);
}

#[test]
fn decreasing_offsets_are_corrupt() {
    let input = lines(&[
        "1:100:d=2022120918:UGRD:10 m above ground:anl",
        "2:50:d=2022120918:VGRD:10 m above ground:anl",
    ]);
    assert_eq!(build_index(&input).unwrap_err(), IdxError::CorruptIndex);
}

#[test]
fn resolver_fills_end_offsets() {
    let input = lines(&[
        "1:0:d=2022120918:UGRD:10 m above ground:anl",
        "2:100:d=2022120918:VGRD:10 m above ground:anl",
        "3:250:d=2022120918:TMP:2 m above ground:anl",
    ]);
    let records = assemble(&input).unwrap();
    let resolved = resolve(&records).unwrap();
    assert_eq!(resolved.len(), 3);
    assert_eq!(resolved[0].stop_byte, EndOffset::At(100));
    assert_eq!(resolved[1].stop_byte, EndOffset::At(250));
    assert_eq!(resolved[2].stop_byte, EndOffset::Open);
    assert_eq!(resolved[0].start_byte, 0);
    assert_eq!(resolved[1].start_byte, 100);
    assert_eq!(resolved[2].start_byte, 250);
}

#[test]
fn duplicate_pair_last_in_file_wins() {
    let input = lines(&[
        "1:0:d=2022120918:TMP:surface:anl",
        "2:10:d=2022120918:UGRD:surface:anl",
        "3:50:d=2022120918:TMP:surface:6 hour fcst",
        "4:60:d=2022120918:VGRD:surface:anl",
    ]);
    let idx = build_index(&input).unwrap();
    // The earlier TMP/surface record covered bytes 0..10; the later one,
    // bytes 50..60, is the one the index must retain.
    assert_eq!(idx.get("TMP", "surface"), Some((50, EndOffset::At(60))));
    assert_eq!(idx.len(), 3);
}

#[test]
fn single_record_is_open_ended() {
    let input = lines(&["1:0:d=2022120918:UGRD:10 m above ground:anl"]);
    let idx = build_index(&input).unwrap();
    assert_eq!(idx.len(), 1);
    assert_eq!(
        idx.get("UGRD", "10 m above ground"),
        Some((0, EndOffset::Open))
    );
}

#[test]
fn zero_lines_are_an_empty_index() {
    let input: Vec<String> = Vec::new();
    let idx = build_index(&input).unwrap();
    assert_eq!(idx.len(), 0);
    assert_eq!(idx.get("UGRD", "10 m above ground"), None);
}

#[test]
fn equal_offsets_are_not_corrupt() {
    let input = lines(&[
        "1:100:d=2022120918:UGRD:10 m above ground:anl",
        "2:100:d=2022120918:VGRD:10 m above ground:anl",
    ]);
    let idx = build_index(&input).unwrap();
    assert_eq!(
        idx.get("UGRD", "10 m above ground"),
        Some((100, EndOffset::At(100)))
    );
}

#[test]
fn insert_overwrites_same_key() {
    let mut idx = GribIndex::new();
    idx.insert("TMP".to_string(), "surface".to_string(), 0, EndOffset::At(10));
    idx.insert("TMP".to_string(), "surface".to_string(), 50, EndOffset::At(60));
    idx.insert("UGRD".to_string(), "surface".to_string(), 10, EndOffset::At(50));
    assert_eq!(idx.len(), 2);
    assert_eq!(idx.get("TMP", "surface"), Some((50, EndOffset::At(60))));
    assert_eq!(idx.get("UGRD", "surface"), Some((10, EndOffset::At(50))));
}

#[test]
fn parse_u64_accepts_digit_strings() {
    assert_eq!(parse_u64("0"), Some(0));
    assert_eq!(parse_u64("123"), Some(123));
    assert_eq!(parse_u64("18446744073709551615"), Some(u64::MAX));
}

#[test]
fn parse_u64_rejects_non_numbers() {
    assert_eq!(parse_u64(""), None);
    assert_eq!(parse_u64("12a"), None);
    assert_eq!(parse_u64("-1"), None);
    assert_eq!(parse_u64("+1"), None);
    assert_eq!(parse_u64(" 1"), None);
    assert_eq!(parse_u64("18446744073709551616"), None);
    assert_eq!(parse_u64("99999999999999999999999"), None);
}

#[test]
fn str_eq_decides_equality() {
    assert!(str_eq("10 m above ground", "10 m above ground"));
    assert!(!str_eq("10 m above ground", "2 m above ground"));
    assert!(!str_eq("TMP", "TMPX"));
    assert!(str_eq("", ""));
}
