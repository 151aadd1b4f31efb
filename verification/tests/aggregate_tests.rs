use category_stats::aggregate::aggregate;
use category_stats::chunk::{chunk_stats, Flaw, FormatError};
use category_stats::report::render_report;
use category_stats::split::split;
use category_stats::stat::Stat;
use category_stats::totals::Totals;

fn sample(rows: u32) -> Vec<u8> {
    // Names of different lengths, so that no two names share a key.
    let names: [&str; 5] = ["Oslo", "Hamburg", "St. John's", "Ouagadougou", "Xi'an"];
    let mut buf: Vec<u8> = Vec::new();
    let mut seed: u32 = 12345;
    let mut i: u32 = 0;
    while i < rows {
        seed = seed.wrapping_mul(1103515245).wrapping_add(12345);
        let name = names[((seed >> 16) % 5) as usize];
        let tenths = ((seed >> 8) % 1999) as i32 - 999;
        let sign = if tenths < 0 { "-" } else { "" };
        let size = tenths.abs();
        buf.extend_from_slice(
            format!("{};{}{}.{}\n", name, sign, size / 10, size % 10).as_bytes(),
        );
        i += 1;
    }
    buf
}

fn naive(buf: &[u8]) -> Vec<(Vec<u8>, u64, i16, i16, i64)> {
    let mut out: Vec<(Vec<u8>, u64, i16, i16, i64)> = Vec::new();
    for line in buf.split(|b| *b == b'\n') {
        if line.is_empty() {
            continue;
        }
        let text = std::str::from_utf8(line).unwrap();
        let (name, value) = text.split_once(';').unwrap();
        let tenths = (value.parse::<f64>().unwrap() * 10.0).round() as i16;
        match out.iter_mut().find(|e| e.0 == name.as_bytes()) {
            Some(e) => {
                e.1 += 1;
                e.2 = e.2.min(tenths);
                e.3 = e.3.max(tenths);
                e.4 += tenths as i64;
            }
            None => out.push((name.as_bytes().to_vec(), 1, tenths, tenths, tenths as i64)),
        }
    }
    out.sort();
    out
}

fn listing(totals: &Totals) -> Vec<(Vec<u8>, u64, i16, i16, i64)> {
    let mut out = Vec::new();
    let mut i = 0;
    while i < totals.len() {
        let s: Stat = totals.stat(i);
        out.push((
            totals.name(i).to_vec(),
            s.count(),
            s.min().unwrap(),
            s.max().unwrap(),
            s.sum(),
        ));
        i += 1;
    }
    out
}

#[test]
fn end_to_end_example() {
    let input = b"Hamburg;12.0\nPalermo;18.5\nHamburg;9.5\n";
    let totals = aggregate(input, 1).unwrap();
    let report = render_report(&totals);
    let expected = "Category: min / avg / max\n\
                    Hamburg: 9.5  / 10.8 / 12.0\n\
                    Palermo: 18.5  / 18.5 / 18.5\n\
                    \n\
                    total 3 measurements\n\
                    Category: min / avg / max, total 2 categories\n";
    assert_eq!(String::from_utf8(report).unwrap(), expected);
}

#[test]
fn end_to_end_example_with_any_number_of_workers() {
    let input = b"Hamburg;12.0\nPalermo;18.5\nHamburg;9.5\n";
    let expected = render_report(&aggregate(input, 1).unwrap());
    let mut workers = 2;
    while workers <= 8 {
        assert_eq!(render_report(&aggregate(input, workers).unwrap()), expected);
        workers += 1;
    }
}

#[test]
fn report_of_nothing() {
    let totals = aggregate(b"", 4).unwrap();
    assert_eq!(totals.len(), 0);
    assert_eq!(totals.lines(), 0);
    let expected = "Category: min / avg / max\n\
                    \n\
                    total 0 measurements\n\
                    Category: min / avg / max, total 0 categories\n";
    assert_eq!(String::from_utf8(render_report(&totals)).unwrap(), expected);
}

#[test]
fn report_writes_negative_values_and_rounded_means() {
    let totals = aggregate(b"b;-0.5\na;-12.0\na;-9.5\nb;0.0\n", 2).unwrap();
    let expected = "Category: min / avg / max\n\
                    a: -12.0  / -10.7 / -9.5\n\
                    b: -0.5  / -0.2 / 0.0\n\
                    \n\
                    total 4 measurements\n\
                    Category: min / avg / max, total 2 categories\n";
    assert_eq!(String::from_utf8(render_report(&totals)).unwrap(), expected);
}

#[test]
fn aggregate_matches_a_naive_pass() {
    let buf = sample(3000);
    let expected = naive(&buf);
    assert_eq!(expected.len(), 5);
    let mut workers = 1;
    while workers <= 16 {
        let totals = aggregate(&buf, workers).unwrap();
        assert_eq!(listing(&totals), expected);
        assert_eq!(totals.lines(), 3000);
        workers += 1;
    }
}

#[test]
fn min_mean_max_are_in_order_for_every_name() {
    let buf = sample(2000);
    let totals = aggregate(&buf, 3).unwrap();
    let mut i = 0;
    while i < totals.len() {
        let s = totals.stat(i);
        let (min, mean, max) = (s.min().unwrap(), s.mean().unwrap(), s.max().unwrap());
        assert!(min <= mean && mean <= max);
        i += 1;
    }
}

#[test]
fn one_worker_and_many_workers_agree() {
    let buf = sample(1000);
    let one = aggregate(&buf, 1).unwrap();
    let mut workers = 2;
    while workers <= 64 {
        let many = aggregate(&buf, workers).unwrap();
        assert_eq!(listing(&many), listing(&one));
        assert_eq!(many.lines(), one.lines());
        assert_eq!(render_report(&many), render_report(&one));
        workers *= 2;
    }
}

#[test]
fn chunk_line_counts_add_up_to_the_line_feeds() {
    let buf = sample(777);
    let feeds = buf.iter().filter(|b| **b == b'\n').count() as u64;
    assert_eq!(feeds, 777);
    let mut workers = 1;
    while workers <= 12 {
        let mut sum: u64 = 0;
        for (start, end) in split(&buf, workers) {
            sum += chunk_stats(&buf[start..end]).unwrap().lines();
        }
        assert_eq!(sum, feeds);
        assert_eq!(aggregate(&buf, workers).unwrap().lines(), feeds);
        workers += 1;
    }
}

#[test]
fn a_last_line_without_line_feed_counts() {
    let mut buf = sample(10);
    buf.pop();
    let feeds = buf.iter().filter(|b| **b == b'\n').count() as u64;
    assert_eq!(feeds, 9);
    let mut workers = 1;
    while workers <= 5 {
        assert_eq!(aggregate(&buf, workers).unwrap().lines(), 10);
        workers += 1;
    }
}

#[test]
fn more_workers_than_lines() {
    let totals = aggregate(b"a;1.0\nb;2.0\n", 16).unwrap();
    assert_eq!(totals.lines(), 2);
    assert_eq!(totals.len(), 2);
}

#[test]
fn names_come_out_in_ascending_order() {
    let totals = aggregate(b"b;1.0\nab;1.0\na;1.0\nB;1.0\nabc;1.0\n", 2).unwrap();
    let mut names: Vec<Vec<u8>> = Vec::new();
    let mut i = 0;
    while i < totals.len() {
        names.push(totals.name(i).to_vec());
        i += 1;
    }
    let expected: Vec<Vec<u8>> =
        vec![b"B".to_vec(), b"a".to_vec(), b"ab".to_vec(), b"abc".to_vec(), b"b".to_vec()];
    assert_eq!(names, expected);
}

#[test]
fn get_finds_a_name_and_only_a_name() {
    let totals = aggregate(b"Hamburg;12.0\nPalermo;18.5\nHamburg;9.5\n", 2).unwrap();
    let s = totals.get(b"Hamburg").unwrap();
    assert_eq!((s.count(), s.min(), s.max(), s.sum()), (2, Some(95), Some(120), 215));
    assert_eq!(s.mean(), Some(108));
    let s = totals.get(b"Palermo").unwrap();
    assert_eq!((s.count(), s.min(), s.max(), s.sum()), (1, Some(185), Some(185), 185));
    assert_eq!(totals.get(b"Hamb"), None);
    assert_eq!(totals.get(b"Palermo "), None);
    assert_eq!(totals.get(b""), None);
}

#[test]
fn absorb_merges_chunks_by_name() {
    let first = chunk_stats(b"Hamburg;12.0\nPalermo;18.5\n").unwrap();
    let second = chunk_stats(b"Hamburg;9.5\nAachen;-3.0\n").unwrap();
    let totals = Totals::new().absorb(&first).absorb(&second);
    assert_eq!(totals.lines(), 4);
    assert_eq!(
        listing(&totals),
        vec![
            (b"Aachen".to_vec(), 1, -30, -30, -30),
            (b"Hamburg".to_vec(), 2, 95, 120, 215),
            (b"Palermo".to_vec(), 1, 185, 185, 185),
        ]
    );
    let other_way = Totals::new().absorb(&second).absorb(&first);
    assert_eq!(listing(&other_way), listing(&totals));
    assert_eq!(other_way.lines(), totals.lines());
}

#[test]
fn new_totals_are_empty() {
    let totals = Totals::new();
    assert_eq!(totals.len(), 0);
    assert_eq!(totals.lines(), 0);
    assert_eq!(totals.get(b"x"), None);
}

#[test]
fn malformed_line_fails_the_run() {
    let r = aggregate(b"Hamburg;12.0\nPalermo 18.5\nHamburg;9.5\n", 1);
    assert_eq!(r.err(), Some(FormatError { line: 1, flaw: Flaw::MissingDelimiter }));
}

#[test]
fn malformed_line_fails_the_run_whatever_the_workers() {
    let input = b"a;1.0\nb;2.0\nc;3.0\nd;4.0\ne;5.0\nf 6.0\ng;7.0\nh;x\n";
    let mut workers = 1;
    while workers <= 10 {
        let r = aggregate(input, workers);
        assert_eq!(r.err(), Some(FormatError { line: 5, flaw: Flaw::MissingDelimiter }));
        workers += 1;
    }
}

#[test]
fn bad_number_fails_the_run() {
    let r = aggregate(b"a;1.0\nb;2.0\nc;3.0\nd;40\n", 3);
    assert_eq!(r.err(), Some(FormatError { line: 3, flaw: Flaw::BadNumber }));
}

#[test]
fn names_with_one_key_are_filed_under_the_first_seen() {
    // All four lines have the same first four bytes and the same length.
    let input = b"Hamburg;12.0\nHambolo;15.0\nHamburg;10.0\nHambolo;-5.0\n";
    let one = aggregate(input, 1).unwrap();
    assert_eq!(listing(&one), vec![(b"Hamburg".to_vec(), 4, -50, 150, 320)]);
    assert_eq!(split(input, 2), vec![(0, 39), (39, 52)]);
    let two = aggregate(input, 2).unwrap();
    assert_eq!(
        listing(&two),
        vec![(b"Hambolo".to_vec(), 1, -50, -50, -50), (b"Hamburg".to_vec(), 3, 100, 150, 370)]
    );
    assert_eq!(one.lines(), two.lines());
}
