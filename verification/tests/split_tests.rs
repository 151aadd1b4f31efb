use category_stats::split::split;

#[test]
fn split_cuts_behind_line_feeds() {
    let buf = b"Hamburg;12.0\nPalermo;18.5\nHamburg;9.5\n";
    assert_eq!(buf.len(), 38);
    assert_eq!(split(buf, 1), vec![(0, 38)]);
    assert_eq!(split(buf, 2), vec![(0, 26), (26, 38)]);
    assert_eq!(split(buf, 3), vec![(0, 13), (13, 26), (26, 38)]);
}

#[test]
fn split_pads_with_empty_chunks() {
    let buf = b"Hamburg;12.0\nPalermo;18.5\nHamburg;9.5\n";
    assert_eq!(split(buf, 4), vec![(0, 13), (13, 26), (26, 38), (38, 38)]);
    let many = split(buf, 50);
    assert_eq!(many.len(), 50);
    assert_eq!(&many[..3], &[(0, 13), (13, 26), (26, 38)]);
    for span in many[3..].iter() {
        assert_eq!(*span, (38, 38));
    }
}

#[test]
fn split_runs_to_the_end_where_no_line_feed_follows() {
    let buf = b"a;1.0\nbb;-2.5\nccc;33.3";
    assert_eq!(buf.len(), 22);
    assert_eq!(split(buf, 1), vec![(0, 22)]);
    assert_eq!(split(buf, 2), vec![(0, 14), (14, 22)]);
    assert_eq!(split(buf, 3), vec![(0, 14), (14, 22), (22, 22)]);
    assert_eq!(split(buf, 4), vec![(0, 6), (6, 14), (14, 22), (22, 22)]);
}

#[test]
fn split_of_nothing_is_all_empty() {
    assert_eq!(split(b"", 1), vec![(0, 0)]);
    assert_eq!(split(b"", 3), vec![(0, 0), (0, 0), (0, 0)]);
}

#[test]
fn split_gives_a_partition_at_line_ends() {
    let mut buf: Vec<u8> = Vec::new();
    let mut i: u32 = 0;
    while i < 200 {
        buf.extend_from_slice(format!("name{};{}.{}\n", i % 17, i % 100, i % 10).as_bytes());
        i += 1;
    }
    let mut workers: usize = 1;
    while workers <= 40 {
        let spans = split(&buf, workers);
        assert_eq!(spans.len(), workers);
        assert_eq!(spans[0].0, 0);
        assert_eq!(spans[workers - 1].1, buf.len());
        let mut k = 0;
        while k < workers {
            let (start, end) = spans[k];
            assert!(start <= end && end <= buf.len());
            if k + 1 < workers {
                assert_eq!(end, spans[k + 1].0);
            }
            if end < buf.len() {
                assert!(end >= 1);
                assert_eq!(buf[end - 1], b'\n');
            }
            k += 1;
        }
        workers += 1;
    }
}
