use blvflag::number::{format_i64, format_u64, parse_usize};

#[test]
fn parse_usize_matches_std() {
    for s in [
        "", "+", "+5", "-5", "007", "0", "18446744073709551615", "18446744073709551616", " 5",
        "5a", "-", "++1", "4294967296",
    ] {
        assert_eq!(parse_usize(s), s.parse::<usize>().ok(), "input {:?}", s);
    }
}

#[test]
fn format_matches_to_string() {
    for n in [0u64, 9, 10, 99, 100, 1234567890, u64::MAX] {
        assert_eq!(format_u64(n), n.to_string());
    }
    for n in [0i64, -1, -7, 42, i64::MIN, i64::MAX] {
        assert_eq!(format_i64(n), n.to_string());
    }
}

#[test]
fn parse_reads_back_formatted_numbers() {
    for n in [0usize, 7, 10, 65535, usize::MAX] {
        assert_eq!(parse_usize(&format_u64(n as u64)), Some(n));
    }
}
