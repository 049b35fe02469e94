use aether_threads::decimal::{
    parse_i32, parse_u32, parse_u64, parse_usize, to_decimal, to_decimal_int,
};

const SAMPLES: [&str; 22] = [
    "",
    "+",
    "-",
    "0",
    "-0",
    "+0",
    "007",
    "+17",
    "-17",
    " 1",
    "1 ",
    "1_000",
    "12a",
    "4294967295",
    "4294967296",
    "2147483647",
    "2147483648",
    "-2147483648",
    "-2147483649",
    "18446744073709551615",
    "18446744073709551616",
    "٣",
];

#[test]
fn reading_agrees_with_std() {
    for s in SAMPLES {
        assert_eq!(parse_usize(s), s.parse::<usize>().ok(), "{}", s);
        assert_eq!(parse_u64(s), s.parse::<u64>().ok(), "{}", s);
        assert_eq!(parse_u32(s), s.parse::<u32>().ok(), "{}", s);
        assert_eq!(parse_i32(s), s.parse::<i32>().ok(), "{}", s);
    }
}

#[test]
fn writing_agrees_with_std() {
    for n in [0u64, 1, 9, 10, 99, 100, 12345678901234567890, u64::MAX] {
        assert_eq!(to_decimal(n), n.to_string());
        assert_eq!(parse_u64(&to_decimal(n)), Some(n));
    }
    for n in [0i32, 5, -5, 10, -10, i32::MAX, i32::MIN] {
        assert_eq!(to_decimal_int(n), n.to_string());
        assert_eq!(parse_i32(&to_decimal_int(n)), Some(n));
    }
}
