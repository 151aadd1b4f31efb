use category_stats::chunk::{chunk_stats, line_at, read_record, Flaw, FormatError};
use category_stats::hash::to_key;

#[test]
fn line_at_finds_the_line_and_the_next_start() {
    let buf = b"a;1.0\nbb;-2.5\nccc;33.3";
    let (line, next) = line_at(buf, 0);
    assert_eq!(line, b"a;1.0");
    assert_eq!(next, 6);
    let (line, next) = line_at(buf, 6);
    assert_eq!(line, b"bb;-2.5");
    assert_eq!(next, 14);
    let (line, next) = line_at(buf, 14);
    assert_eq!(line, b"ccc;33.3");
    assert_eq!(next, 22);
}

#[test]
fn line_at_starts_anywhere() {
    let buf = b"a;1.0\n\nb;2.0\n";
    assert_eq!(line_at(buf, 3), (&b".0"[..], 6));
    assert_eq!(line_at(buf, 5), (&b""[..], 6));
    assert_eq!(line_at(buf, 6), (&b""[..], 7));
    assert_eq!(line_at(buf, 12), (&b""[..], 13));
}

#[test]
fn read_record_splits_at_the_first_semicolon() {
    let line = b"Hamburg;12.0";
    assert_eq!(read_record(line), Ok((&b"Hamburg"[..], to_key(line), 120)));
    let line = b"St. John's;-0.5";
    assert_eq!(read_record(line), Ok((&b"St. John's"[..], to_key(line), -5)));
    let line = b";1.0";
    assert_eq!(read_record(line), Ok((&b""[..], to_key(line), 10)));
}

#[test]
fn read_record_names_the_flaw() {
    assert_eq!(read_record(b"Hamburg 12.0"), Err(Flaw::MissingDelimiter));
    assert_eq!(read_record(b""), Err(Flaw::MissingDelimiter));
    assert_eq!(read_record(b"Hamburg;"), Err(Flaw::BadNumber));
    assert_eq!(read_record(b"Hamburg;12"), Err(Flaw::BadNumber));
    assert_eq!(read_record(b"Hamburg;12.34"), Err(Flaw::BadNumber));
    assert_eq!(read_record(b"Hamburg;x;1.0"), Err(Flaw::BadNumber));
    assert_eq!(read_record(b"Hamburg;100.0"), Err(Flaw::BadNumber));
}

#[test]
fn chunk_stats_counts_lines_and_tallies_by_key() {
    let buf = b"Hamburg;12.0\nPalermo;18.5\nHamburg;9.5\nHamburg;10.0\n";
    let found = chunk_stats(buf).unwrap();
    assert_eq!(found.lines(), 4);

    let long = to_key(b"Hamburg;12.0");
    let short = to_key(b"Hamburg;9.5");
    let palermo = to_key(b"Palermo;18.5");

    let s = found.stat(long).unwrap();
    assert_eq!((s.count(), s.min(), s.max(), s.sum()), (2, Some(100), Some(120), 220));
    let s = found.stat(short).unwrap();
    assert_eq!((s.count(), s.min(), s.max(), s.sum()), (1, Some(95), Some(95), 95));
    let s = found.stat(palermo).unwrap();
    assert_eq!((s.count(), s.min(), s.max(), s.sum()), (1, Some(185), Some(185), 185));

    assert_eq!(found.name(long), Some(&b"Hamburg"[..]));
    assert_eq!(found.name(short), Some(&b"Hamburg"[..]));
    assert_eq!(found.name(palermo), Some(&b"Palermo"[..]));

    assert_eq!(found.stat(12345), None);
    assert_eq!(found.name(12345), None);
}

#[test]
fn chunk_stats_lists_each_key_once() {
    let buf = b"Hamburg;12.0\nPalermo;18.5\nHamburg;9.5\nHamburg;10.0\n";
    let found = chunk_stats(buf).unwrap();
    let mut entries = found.entries();
    entries.sort_by_key(|e| e.0);
    let mut expected =
        vec![to_key(b"Hamburg;12.0"), to_key(b"Hamburg;9.5"), to_key(b"Palermo;18.5")];
    expected.sort();
    let keys: Vec<u64> = entries.iter().map(|e| e.0).collect();
    assert_eq!(keys, expected);
    let total: u64 = entries.iter().map(|e| e.1.count()).sum();
    assert_eq!(total, found.lines());
    for (key, stat) in entries.iter() {
        assert_eq!(found.stat(*key), Some(*stat));
    }
}

#[test]
fn chunk_stats_keeps_the_first_name_of_a_key() {
    // Both lines have the same first four bytes and the same length.
    let buf = b"Hamburg;12.0\nHambolo;15.0\n";
    let key = to_key(b"Hamburg;12.0");
    assert_eq!(key, to_key(b"Hambolo;15.0"));
    let found = chunk_stats(buf).unwrap();
    assert_eq!(found.name(key), Some(&b"Hamburg"[..]));
    let s = found.stat(key).unwrap();
    assert_eq!((s.count(), s.min(), s.max(), s.sum()), (2, Some(120), Some(150), 270));
    assert_eq!(found.entries().len(), 1);
}

#[test]
fn chunk_stats_names_borrow_from_the_input() {
    let buf = b"Palermo;18.5\n".to_vec();
    let found = chunk_stats(&buf).unwrap();
    let name = found.name(to_key(b"Palermo;18.5")).unwrap();
    assert_eq!(name.as_ptr(), buf.as_ptr());
    assert_eq!(name.len(), 7);
}

#[test]
fn chunk_stats_reads_a_last_line_without_line_feed() {
    let found = chunk_stats(b"a;1.0\nb;2.0").unwrap();
    assert_eq!(found.lines(), 2);
    let s = found.stat(to_key(b"b;2.0")).unwrap();
    assert_eq!((s.count(), s.sum()), (1, 20));
    let found = chunk_stats(b"only;-7.5").unwrap();
    assert_eq!(found.lines(), 1);
}

#[test]
fn chunk_stats_of_nothing_is_empty() {
    let found = chunk_stats(b"").unwrap();
    assert_eq!(found.lines(), 0);
    assert!(found.entries().is_empty());
}

#[test]
fn chunk_stats_fails_on_a_line_without_semicolon() {
    let r = chunk_stats(b"a;1.0\nb 2.0\nc;3.0\n");
    assert_eq!(r.err(), Some(FormatError { line: 1, flaw: Flaw::MissingDelimiter }));
    let r = chunk_stats(b"Hamburg\n");
    assert_eq!(r.err(), Some(FormatError { line: 0, flaw: Flaw::MissingDelimiter }));
}

#[test]
fn chunk_stats_does_not_borrow_a_semicolon_from_a_later_line() {
    let r = chunk_stats(b"a 1.0\nb;2.0\n");
    assert_eq!(r.err(), Some(FormatError { line: 0, flaw: Flaw::MissingDelimiter }));
}

#[test]
fn chunk_stats_fails_on_an_empty_line() {
    let r = chunk_stats(b"a;1.0\n\nb;2.0\n");
    assert_eq!(r.err(), Some(FormatError { line: 1, flaw: Flaw::MissingDelimiter }));
    let r = chunk_stats(b"\n");
    assert_eq!(r.err(), Some(FormatError { line: 0, flaw: Flaw::MissingDelimiter }));
}

#[test]
fn chunk_stats_fails_on_a_bad_number() {
    let r = chunk_stats(b"a;1.0\nb;2.0\nc;3\n");
    assert_eq!(r.err(), Some(FormatError { line: 2, flaw: Flaw::BadNumber }));
    let r = chunk_stats(b"a;1.0\r\nb;2.0\r\n");
    assert_eq!(r.err(), Some(FormatError { line: 0, flaw: Flaw::BadNumber }));
}

#[test]
fn chunk_stats_reports_the_first_flaw_only() {
    let r = chunk_stats(b"a;1.0\nb;x\nc\n");
    assert_eq!(r.err(), Some(FormatError { line: 1, flaw: Flaw::BadNumber }));
}
