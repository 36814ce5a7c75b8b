//! End-to-end tests over in-memory archives: parsing offsets, content
//! reading, extraction planning, filtering, and failure containment.

use bfflib::archive::{
    compare_records, extraction_plan, extraction_plan_when, Archive, ExtractAction,
    RecordDiffField,
};
use bfflib::error::Error;
use bfflib::util::copy_stream;
use chrono::{Datelike, Timelike};

/// A 72-byte file header carrying the file magic.
fn file_header() -> Vec<u8> {
    let mut h = vec![0u8; 72];
    h[0] = 0x09;
    h[1] = 0x00;
    h[2] = 0x6B;
    h[3] = 0xEA;
    h
}

fn put_u32(buf: &mut [u8], at: usize, v: u32) {
    let b = v.to_le_bytes();
    buf[at..at + 4].copy_from_slice(&b);
}

/// One whole record: header, aligned name, trailer, payload and padding.
fn record(mode: u32, magic: u16, name: &str, payload: &[u8], size: u32, mtime: u32) -> Vec<u8> {
    let mut header = vec![0u8; 64];
    header[0] = 0x0F;
    header[1] = 0x0B;
    header[2] = (magic & 0xFF) as u8;
    header[3] = (magic >> 8) as u8;
    put_u32(&mut header, 12, mode);
    put_u32(&mut header, 16, 1000); // uid
    put_u32(&mut header, 20, 1000); // gid
    put_u32(&mut header, 24, size);
    put_u32(&mut header, 28, mtime); // atime
    put_u32(&mut header, 32, mtime);
    put_u32(&mut header, 56, payload.len() as u32);
    let mut out = header;
    // NUL-terminated name, padded to whole eight-byte chunks.
    let mut name_bytes = name.as_bytes().to_vec();
    name_bytes.push(0);
    while name_bytes.len() % 8 != 0 {
        name_bytes.push(0);
    }
    out.extend_from_slice(&name_bytes);
    // Trailer.
    out.extend_from_slice(&[0u8; 40]);
    // Payload, padded to a multiple of eight bytes.
    out.extend_from_slice(payload);
    let mut pad = (8 - payload.len() % 8) % 8;
    while pad > 0 {
        out.push(0);
        pad -= 1;
    }
    out
}

/// The payload that decodes to exactly "abcd": an empty top level and four
/// two-bit codes at the deepest level, ending at the last coded bit.
fn abcd_payload() -> Vec<u8> {
    vec![2, 0, 3, 0x61, 0x62, 0x63, 0x64, 0x1B]
}

/// The whole content of a record reader.
fn content_of(reader: &mut bfflib::archive::RecordReader) -> Vec<u8> {
    let mut out = Vec::new();
    copy_stream(reader, &mut out, 1 << 20).expect("reading should succeed");
    out
}

#[test]
fn scenario_huffman_record_extracts_exactly() {
    // One regular-file record, Huffman coded, whose payload decodes to
    // "abcd"; its target under "./out" and its modify time carry through.
    let mut data = file_header();
    data.extend_from_slice(&record(
        0o100644,
        0xEA6C,
        "file.txt",
        &abcd_payload(),
        4,
        1_600_000_000,
    ));
    let archive = Archive::new(data).expect("archive should parse");
    assert_eq!(archive.records().len(), 1);
    let rec = &archive.records()[0];
    assert_eq!(rec.filename(), "file.txt");
    assert_eq!(rec.magic(), 0xEA6C);
    assert_eq!(rec.size(), 4);
    assert_eq!(rec.compressed_size(), 8);
    assert_eq!(rec.file_position(), 72 + 64 + 16 + 40);

    // The decoded content is exactly the four bytes.
    let mut reader = archive.file("file.txt").expect("reader should open");
    assert_eq!(content_of(&mut reader), b"abcd".to_vec());

    // The plan puts the file under the destination root.
    let plan = extraction_plan(archive.records(), "./out", &Vec::new());
    assert_eq!(plan.len(), 1);
    match &plan[0].1 {
        Ok(ExtractAction::File { path, parent }) => {
            assert_eq!(path, "out/file.txt");
            assert_eq!(parent, "out");
        }
        other => panic!("expected a file action, got {:?}", other.is_err()),
    }

    // The declared modify time, as the calendar crate reads it.
    let expected = chrono::DateTime::from_timestamp(1_600_000_000, 0)
        .unwrap()
        .naive_utc();
    let mdate = rec.mdate();
    assert_eq!(mdate.year as i32, expected.year());
    assert_eq!(mdate.month, expected.month());
    assert_eq!(mdate.day, expected.day());
    assert_eq!(mdate.hour, expected.hour());
    assert_eq!(mdate.minute, expected.minute());
    assert_eq!(mdate.second, expected.second());
}

#[test]
fn offsets_match_manual_computation() {
    // Three records; the middle one has a payload already a multiple of
    // eight, the last one an empty payload.
    let mut data = file_header();
    let r1 = record(0o100644, 0xEA6B, "a", b"xyz", 3, 0); // name block 8, payload 3 pad 5
    let r2 = record(0o100644, 0xEA6B, "b", b"12345678", 8, 0); // zero padding
    let r3 = record(0o100644, 0xEA6B, "c", b"", 0, 0); // no payload at all
    let l1 = r1.len() as u32;
    let l2 = r2.len() as u32;
    data.extend_from_slice(&r1);
    data.extend_from_slice(&r2);
    data.extend_from_slice(&r3);
    let archive = Archive::new(data).expect("archive should parse");
    let recs = archive.records();
    assert_eq!(recs.len(), 3);
    // Payload offset: header 72, record header 64, name block 8, trailer 40.
    assert_eq!(recs[0].file_position(), 72 + 64 + 8 + 40);
    assert_eq!(l1, 64 + 8 + 40 + 8); // 3 payload bytes padded to 8
    assert_eq!(recs[1].file_position(), 72 + l1 + 64 + 8 + 40);
    assert_eq!(l2, 64 + 8 + 40 + 8); // exactly 8 payload bytes, no padding
    // A record with no payload: the next thing after its trailer is the
    // next record header.
    assert_eq!(recs[2].file_position(), 72 + l1 + l2 + 64 + 8 + 40);
    assert_eq!(recs[2].compressed_size(), 0);
    let mut reader = archive.file("c").expect("reader should open");
    assert_eq!(content_of(&mut reader), Vec::<u8>::new());
}

#[test]
fn malformed_record_is_skipped() {
    // A record without the sentinel byte sits between two good ones; the
    // scan absorbs it header by header and finds the following record.
    let mut data = file_header();
    let good1 = record(0o100644, 0xEA6B, "one", b"11111111", 8, 0);
    data.extend_from_slice(&good1);
    // 64 bytes of garbage that is not a record header: wrong sentinel.
    let mut bad = vec![0u8; 64];
    bad[1] = 0x07;
    data.extend_from_slice(&bad);
    // From the skipped header's end, the scan tries again: give it a good
    // record there.
    data.extend_from_slice(&record(0o100644, 0xEA6B, "two", b"22222222", 8, 0));
    let archive = Archive::new(data).expect("archive should parse");
    let names: Vec<&str> = archive.records().iter().map(|r| r.filename()).collect();
    assert_eq!(names, vec!["one", "two"]);
}

#[test]
fn filter_selects_a_strict_subset() {
    let mut data = file_header();
    data.extend_from_slice(&record(0o040755, 0xEA6B, "keep", b"", 0, 0));
    data.extend_from_slice(&record(0o100644, 0xEA6B, "keep/a.txt", b"aaaaaaaa", 8, 0));
    data.extend_from_slice(&record(0o100644, 0xEA6B, "drop/b.txt", b"bbbbbbbb", 8, 0));
    let archive = Archive::new(data).expect("archive should parse");
    let filter = vec![String::from("keep")];
    let plan = extraction_plan(archive.records(), "out", &filter);
    // Only the matching records get an entry: the directory and the file
    // under it, not the third record.
    assert_eq!(plan.len(), 2);
    assert_eq!(plan[0].0, 0);
    assert_eq!(plan[1].0, 1);
    match &plan[0].1 {
        Ok(ExtractAction::Directory { path }) => assert_eq!(path, "out/keep"),
        _ => panic!("expected a directory action"),
    }
    match &plan[1].1 {
        Ok(ExtractAction::File { path, parent }) => {
            assert_eq!(path, "out/keep/a.txt");
            assert_eq!(parent, "out/keep");
        }
        _ => panic!("expected a file action"),
    }
    // An empty filter selects everything.
    let all = extraction_plan(archive.records(), "out", &Vec::new());
    assert_eq!(all.len(), 3);
}

#[test]
fn empty_filename_is_contained() {
    // A record with an empty filename among otherwise valid records: its
    // entry is the reported-and-skipped error, the others extract.
    let mut data = file_header();
    data.extend_from_slice(&record(0o100644, 0xEA6B, "ok1", b"11111111", 8, 0));
    data.extend_from_slice(&record(0o100644, 0xEA6B, "", b"xxxxxxxx", 8, 0));
    data.extend_from_slice(&record(0o100644, 0xEA6B, "ok2", b"22222222", 8, 0));
    let archive = Archive::new(data).expect("archive should parse");
    let plan = extraction_plan(archive.records(), "out", &Vec::new());
    assert_eq!(plan.len(), 3);
    assert!(matches!(&plan[0].1, Ok(ExtractAction::File { .. })));
    match &plan[1].1 {
        Err(e) => {
            assert!(matches!(e, Error::EmptyFilename));
            assert!(e.is_soft());
        }
        _ => panic!("the empty-named record must report its error"),
    }
    assert!(matches!(&plan[2].1, Ok(ExtractAction::File { .. })));
}

#[test]
fn unsupported_file_type_is_refused() {
    let mut data = file_header();
    data.extend_from_slice(&record(0o120777, 0xEA6B, "link", b"", 0, 0));
    let archive = Archive::new(data).expect("archive should parse");
    assert!(matches!(
        archive.file("link"),
        Err(Error::UnsupportedFileType)
    ));
    let plan = extraction_plan(archive.records(), "out", &Vec::new());
    assert!(matches!(&plan[0].1, Err(Error::UnsupportedFileType)));
}

#[test]
fn missing_file_is_not_found() {
    let mut data = file_header();
    data.extend_from_slice(&record(0o100644, 0xEA6B, "here", b"11111111", 8, 0));
    let archive = Archive::new(data).expect("archive should parse");
    assert!(archive.record_by_filename("here").is_some());
    assert!(archive.record_by_filename("missing").is_none());
    assert!(matches!(archive.file("missing"), Err(Error::FileNotFound)));
}

#[test]
fn wrong_file_magic_is_rejected() {
    let mut data = file_header();
    data[3] = 0x00; // break the magic
    data.extend_from_slice(&record(0o100644, 0xEA6B, "x", b"", 0, 0));
    assert!(matches!(
        Archive::new(data),
        Err(Error::InvalidFileMagic(_))
    ));
}

#[test]
fn raw_file_reads_the_payload_as_is() {
    let mut data = file_header();
    data.extend_from_slice(&record(
        0o100644,
        0xEA6C,
        "file.txt",
        &abcd_payload(),
        4,
        0,
    ));
    let archive = Archive::new(data).expect("archive should parse");
    let mut raw = archive.raw_file("file.txt").expect("reader should open");
    assert_eq!(content_of(&mut raw), abcd_payload());
}

#[test]
fn compare_records_reports_field_differences() {
    let mut left_data = file_header();
    left_data.extend_from_slice(&record(0o100644, 0xEA6B, "same", b"11111111", 8, 5));
    left_data.extend_from_slice(&record(0o100644, 0xEA6B, "only-left", b"", 0, 5));
    left_data.extend_from_slice(&record(0o100644, 0xEA6B, "differs", b"11111111", 8, 5));
    let mut right_data = file_header();
    right_data.extend_from_slice(&record(0o100644, 0xEA6B, "same", b"11111111", 8, 5));
    right_data.extend_from_slice(&record(0o100644, 0xEA6B, "differs", b"22222222", 9, 5));
    right_data.extend_from_slice(&record(0o100644, 0xEA6B, "only-right", b"", 0, 5));
    let left = Archive::new(left_data).expect("archive should parse");
    let right = Archive::new(right_data).expect("archive should parse");
    let diffs = compare_records(left.records(), right.records());
    assert_eq!(diffs.len(), 3);
    assert_eq!(diffs[0].filename, "only-left");
    assert!(matches!(
        diffs[0].diffs[0],
        RecordDiffField::Exists(true, false)
    ));
    assert_eq!(diffs[1].filename, "differs");
    assert!(matches!(diffs[1].diffs[0], RecordDiffField::Size(8, 9)));
    assert_eq!(diffs[2].filename, "only-right");
    assert!(matches!(
        diffs[2].diffs[0],
        RecordDiffField::Exists(false, true)
    ));
}

#[test]
fn raw_magic_records_pass_their_payload_through() {
    let mut data = file_header();
    data.extend_from_slice(&record(0o100644, 0xEA6B, "plain", b"plain da", 8, 0));
    data.extend_from_slice(&record(0o100644, 0xEA6D, "alt", b"alt data", 8, 0));
    let archive = Archive::new(data).expect("archive should parse");
    let mut one = archive.file("plain").expect("reader should open");
    assert_eq!(content_of(&mut one), b"plain da".to_vec());
    let mut two = archive.file("alt").expect("reader should open");
    assert_eq!(content_of(&mut two), b"alt data".to_vec());
}

#[test]
fn duplicate_filenames_find_the_first_record() {
    let mut data = file_header();
    data.extend_from_slice(&record(0o100644, 0xEA6B, "twice", b"first111", 8, 0));
    data.extend_from_slice(&record(0o100644, 0xEA6B, "twice", b"second22", 8, 0));
    let archive = Archive::new(data).expect("archive should parse");
    assert_eq!(archive.records().len(), 2);
    let mut reader = archive.file("twice").expect("reader should open");
    assert_eq!(content_of(&mut reader), b"first111".to_vec());
    let mut second = archive.file_at(1).expect("reader should open");
    assert_eq!(content_of(&mut second), b"second22".to_vec());
}

#[test]
fn planning_twice_gives_the_same_plan() {
    // The plan and each record's content are functions of the archive
    // bytes alone, so a second extraction works from identical decisions.
    let mut data = file_header();
    data.extend_from_slice(&record(0o040755, 0xEA6B, "d", b"", 0, 7));
    data.extend_from_slice(&record(0o100644, 0xEA6C, "d/f", &abcd_payload(), 4, 7));
    let archive = Archive::new(data).expect("archive should parse");
    let first = extraction_plan(archive.records(), "out", &Vec::new());
    let second = extraction_plan(archive.records(), "out", &Vec::new());
    assert_eq!(first, second);
    let mut r1 = archive.file("d/f").expect("reader should open");
    let mut r2 = archive.file("d/f").expect("reader should open");
    assert_eq!(content_of(&mut r1), content_of(&mut r2));
}

#[test]
fn a_file_at_the_root_has_no_parent() {
    let mut data = file_header();
    data.extend_from_slice(&record(0o100644, 0xEA6B, "/", b"xxxxxxxx", 8, 0));
    let archive = Archive::new(data).expect("archive should parse");
    let plan = extraction_plan(archive.records(), "out", &Vec::new());
    match &plan[0].1 {
        Err(Error::MissingParentDir(path)) => assert_eq!(path, "/"),
        _ => panic!("expected the missing-parent error"),
    }
    assert!(Error::MissingParentDir(String::from("/")).is_soft());
}

#[test]
fn unknown_record_magic_is_skipped() {
    let mut data = file_header();
    // Sentinel present but the magic is none of the three known values.
    data.extend_from_slice(&record(0o100644, 0x1234, "ghost", b"", 0, 0));
    data.extend_from_slice(&record(0o100644, 0xEA6B, "real", b"12345678", 8, 0));
    let archive = Archive::new(data).expect("archive should parse");
    // The scan skipped the bad header and resynchronized further on; only
    // the good record that starts at a skipped-header boundary is found.
    assert!(archive.record_by_filename("ghost").is_none());
}

#[test]
fn truncated_payload_ends_the_scan_after_its_record() {
    let mut data = file_header();
    data.extend_from_slice(&record(0o100644, 0xEA6B, "cut", b"1234567890", 10, 0));
    // Claim far more payload than the archive holds.
    let csize_at = 72 + 56;
    data[csize_at] = 100;
    // Drop the padding so the file really ends inside the claimed payload.
    data.truncate(72 + 64 + 8 + 40 + 10);
    let archive = Archive::new(data).expect("archive should parse");
    assert_eq!(archive.records().len(), 1);
    assert_eq!(archive.records()[0].compressed_size(), 100);
    // Reading clamps at the end of the archive.
    let mut reader = archive.file("cut").expect("reader should open");
    assert_eq!(content_of(&mut reader), b"1234567890".to_vec());
}


#[test]
fn a_caller_supplied_predicate_selects_records() {
    let mut data = file_header();
    data.extend_from_slice(&record(0o100644, 0xEA6B, "small", b"11111111", 8, 0));
    data.extend_from_slice(&record(0o100644, 0xEA6B, "large", b"2222222222222222", 16, 0));
    let archive = Archive::new(data).expect("archive should parse");
    // Plan only the records whose payload is small.
    let plan = extraction_plan_when(archive.records(), "out", |r: &bfflib::archive::Record| {
        r.compressed_size() <= 8
    });
    assert_eq!(plan.len(), 1);
    assert_eq!(plan[0].0, 0);
    match &plan[0].1 {
        Ok(ExtractAction::File { path, .. }) => assert_eq!(path, "out/small"),
        _ => panic!("expected a file action"),
    }
}
