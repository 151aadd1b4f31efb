use category_stats::order::{rank, Rank};

#[test]
fn rank_orders_byte_by_byte() {
    assert_eq!(rank(b"abc", b"abd"), Rank::Before);
    assert_eq!(rank(b"abd", b"abc"), Rank::After);
    assert_eq!(rank(b"abc", b"abc"), Rank::Same);
    assert_eq!(rank(b"", b""), Rank::Same);
    assert_eq!(rank(b"B", b"a"), Rank::Before);
    assert_eq!(rank(&[200u8], &[100u8]), Rank::After);
}

#[test]
fn rank_puts_a_prefix_first() {
    assert_eq!(rank(b"ab", b"abc"), Rank::Before);
    assert_eq!(rank(b"abc", b"ab"), Rank::After);
    assert_eq!(rank(b"", b"a"), Rank::Before);
    assert_eq!(rank(b"a", b""), Rank::After);
}

#[test]
fn rank_agrees_with_the_order_of_strings() {
    let names: [&str; 6] = ["Hamburg", "Hamburg ", "Ham", "Palermo", "Zürich", "abc"];
    for a in names.iter() {
        for b in names.iter() {
            let expected = if a < b {
                Rank::Before
            } else if a > b {
                Rank::After
            } else {
                Rank::Same
            };
            assert_eq!(rank(a.as_bytes(), b.as_bytes()), expected);
        }
    }
}
