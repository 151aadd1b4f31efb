use category_stats::chunk::is_temperature_text;
use category_stats::decimal::{parse_temp, parse_temperature};
use category_stats::text::{format_tenths, push_decimal, push_tenths};

#[test]
fn parse_temperature_reads_every_shape() {
    assert_eq!(parse_temperature(b"0.0"), 0);
    assert_eq!(parse_temperature(b"1.5"), 15);
    assert_eq!(parse_temperature(b"-1.5"), -15);
    assert_eq!(parse_temperature(b"12.3"), 123);
    assert_eq!(parse_temperature(b"-12.3"), -123);
    assert_eq!(parse_temperature(b"-0.0"), 0);
    assert_eq!(parse_temperature(b"09.5"), 95);
}

#[test]
fn parse_temperature_reads_the_boundaries() {
    assert_eq!(parse_temperature(b"-99.9"), -999);
    assert_eq!(parse_temperature(b"99.9"), 999);
    assert_eq!(parse_temperature(b"0.0"), 0);
}

#[test]
fn parse_temp_agrees_with_parse_temperature() {
    let samples: [&[u8]; 8] =
        [b"0.0", b"1.5", b"-1.5", b"12.3", b"-12.3", b"-99.9", b"99.9", b"-0.1"];
    for s in samples.iter() {
        assert_eq!(parse_temp(s), parse_temperature(s) as i32);
    }
}

#[test]
fn parse_temp_reads_longer_numbers() {
    assert_eq!(parse_temp(b"123456.789"), 123456789);
    assert_eq!(parse_temp(b"-123456789"), -123456789);
    assert_eq!(parse_temp(b"1.2.3"), 123);
    assert_eq!(parse_temp(b"-"), 0);
    assert_eq!(parse_temp(b"."), 0);
    assert_eq!(parse_temp(b"7"), 7);
}

#[test]
fn only_temperatures_have_the_shape() {
    let good: [&[u8]; 6] = [b"0.0", b"9.9", b"-9.9", b"10.0", b"-10.0", b"-99.9"];
    for t in good.iter() {
        assert!(is_temperature_text(t));
    }
    let bad: [&[u8]; 16] = [
        b"", b"1", b"1.", b".5", b"-.5", b"1.55", b"123.4", b"-123.4", b"1,5", b"a.5", b"1.a",
        b"--1.5", b"+1.5", b"1 .5", b"-1-.5", b"1.5\r",
    ];
    for t in bad.iter() {
        assert!(!is_temperature_text(t));
    }
}

#[test]
fn format_tenths_writes_one_digit_behind_the_dot() {
    assert_eq!(format_tenths(0), b"0.0".to_vec());
    assert_eq!(format_tenths(5), b"0.5".to_vec());
    assert_eq!(format_tenths(-5), b"-0.5".to_vec());
    assert_eq!(format_tenths(95), b"9.5".to_vec());
    assert_eq!(format_tenths(108), b"10.8".to_vec());
    assert_eq!(format_tenths(-999), b"-99.9".to_vec());
    assert_eq!(format_tenths(999), b"99.9".to_vec());
    assert_eq!(format_tenths(1000), b"100.0".to_vec());
    assert_eq!(format_tenths(i16::MAX), b"3276.7".to_vec());
    assert_eq!(format_tenths(i16::MIN), b"-3276.8".to_vec());
}

#[test]
fn format_then_parse_gives_the_value_back() {
    let mut v: i16 = -999;
    while v <= 999 {
        let text = format_tenths(v);
        assert!(is_temperature_text(&text));
        assert_eq!(parse_temperature(&text), v);
        assert_eq!(parse_temp(&text), v as i32);
        v += 1;
    }
}

#[test]
fn push_decimal_appends_plain_digits() {
    let mut out = b"n=".to_vec();
    push_decimal(&mut out, 0);
    out.push(b',');
    push_decimal(&mut out, 7);
    out.push(b',');
    push_decimal(&mut out, 1000000000);
    out.push(b',');
    push_decimal(&mut out, u64::MAX);
    assert_eq!(out, b"n=0,7,1000000000,18446744073709551615".to_vec());
}

#[test]
fn push_tenths_appends_to_what_is_there() {
    let mut out = b"x: ".to_vec();
    push_tenths(&mut out, -123);
    assert_eq!(out, b"x: -12.3".to_vec());
}
