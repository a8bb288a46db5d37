use dc_param::number::{decimal_text, format_decimal, hex_text, parse_decimal};

#[test]
fn decimal_bytes() {
    assert_eq!(format_decimal(0), b"0".to_vec());
    assert_eq!(format_decimal(7), b"7".to_vec());
    assert_eq!(format_decimal(42), b"42".to_vec());
    assert_eq!(format_decimal(-1), b"-1".to_vec());
    assert_eq!(format_decimal(1000), b"1000".to_vec());
    assert_eq!(format_decimal(i32::MAX), b"2147483647".to_vec());
    assert_eq!(format_decimal(i32::MIN), b"-2147483648".to_vec());
}

#[test]
fn decimal_string() {
    assert_eq!(decimal_text(0), "0");
    assert_eq!(decimal_text(993), "993");
    assert_eq!(decimal_text(-25), "-25");
    assert_eq!(decimal_text(i32::MAX), "2147483647");
    assert_eq!(decimal_text(i32::MIN), "-2147483648");
}

#[test]
fn parse_plain_numbers() {
    assert_eq!(parse_decimal(b"0"), 0);
    assert_eq!(parse_decimal(b"42"), 42);
    assert_eq!(parse_decimal(b"-42"), -42);
    assert_eq!(parse_decimal(b"+42"), 42);
    assert_eq!(parse_decimal(b"007"), 7);
    assert_eq!(parse_decimal(b"2147483647"), i32::MAX);
    assert_eq!(parse_decimal(b"-2147483648"), i32::MIN);
}

#[test]
fn parse_stops_at_first_other_byte() {
    assert_eq!(parse_decimal(b"12abc"), 12);
    assert_eq!(parse_decimal(b"12 34"), 12);
    assert_eq!(parse_decimal(b" \t\n 5"), 5);
    assert_eq!(parse_decimal(b"- 5"), 0);
    assert_eq!(parse_decimal(b"--5"), 0);
    assert_eq!(parse_decimal(b"+-5"), 0);
    assert_eq!(parse_decimal(b"1.5"), 1);
}

#[test]
fn parse_without_digits_is_zero() {
    assert_eq!(parse_decimal(b""), 0);
    assert_eq!(parse_decimal(b"abc"), 0);
    assert_eq!(parse_decimal(b"-"), 0);
    assert_eq!(parse_decimal(b"   "), 0);
}

#[test]
fn parse_wraps_round() {
    assert_eq!(parse_decimal(b"2147483648"), i32::MIN);
    assert_eq!(parse_decimal(b"4294967296"), 0);
    assert_eq!(parse_decimal(b"4294967297"), 1);
    assert_eq!(parse_decimal(b"3000000000"), -1294967296);
    assert_eq!(parse_decimal(b"-2147483649"), i32::MAX);
    assert_eq!(parse_decimal(b"-4294967297"), -1);
}

#[test]
fn parse_reads_what_format_wrote() {
    for n in [0, 1, -1, 9, 10, 11, 99, 100, -100, 65535, 123456789, i32::MAX, i32::MIN] {
        assert_eq!(parse_decimal(&format_decimal(n)), n);
        assert_eq!(decimal_text(n).as_bytes(), &format_decimal(n)[..]);
    }
}

#[test]
fn hexadecimal_string() {
    assert_eq!(hex_text(0), "0x0");
    assert_eq!(hex_text(1), "0x1");
    assert_eq!(hex_text(10), "0xa");
    assert_eq!(hex_text(255), "0xff");
    assert_eq!(hex_text(0x1000), "0x1000");
    assert_eq!(hex_text(0x12abcdef), "0x12abcdef");
    assert_eq!(hex_text(i32::MAX), "0x7fffffff");
    assert_eq!(hex_text(-1), "0xffffffff");
    assert_eq!(hex_text(i32::MIN), "0x80000000");
    for n in [0, 5, 16, 4096, -7, 0x40000000, i32::MIN, i32::MAX] {
        assert_eq!(hex_text(n), format!("{:#0x}", n));
    }
}
