use mempe::text::{
    ascii_lowercase, eq_ignore_case, joined, parse_number, trim, with_decimal, with_hex,
    with_wide_hex,
};

#[test]
fn shows_numbers_in_digits() {
    assert_eq!(with_decimal("n=", 0), "n=0");
    assert_eq!(with_decimal("", u64::MAX), "18446744073709551615");
    assert_eq!(with_hex("0x", 0x31A20), "0x31A20");
    assert_eq!(with_wide_hex("0x", 0x1AF, 8), "0x000001AF");
    assert_eq!(with_wide_hex("", 0x1_2345, 4), "2345");
    assert_eq!(joined("a", "b"), "ab");
}

#[test]
fn numbers_read_back() {
    let values = [0u32, 9, 10, 15, 16, 4216, u32::MAX];
    for value in values.iter() {
        let decimal = with_decimal("", u64::from(*value));
        let hex = with_hex("", u64::from(*value));
        assert_eq!(parse_number(&decimal, 10, u32::MAX), Some(*value));
        assert_eq!(parse_number(&hex, 16, u32::MAX), Some(*value));
    }
}

#[test]
fn refuses_what_is_no_number() {
    assert_eq!(parse_number("", 10, u32::MAX), None);
    assert_eq!(parse_number("+", 10, u32::MAX), None);
    assert_eq!(parse_number("-1", 10, u32::MAX), None);
    assert_eq!(parse_number("1f", 10, u32::MAX), None);
    assert_eq!(parse_number("4294967296", 10, u32::MAX), None);
    assert_eq!(parse_number("00000000000000000000000001", 10, u32::MAX), Some(1));
    assert_eq!(parse_number("+7", 10, 255), Some(7));
    assert_eq!(parse_number("256", 10, 255), None);
    assert_eq!(parse_number("fF", 16, 255), Some(255));
}

#[test]
fn only_ascii_letters_change_case() {
    assert_eq!(ascii_lowercase("KERNEL32.DLL"), "kernel32.dll");
    assert_eq!(ascii_lowercase("\u{C4}Z["), "\u{C4}z[");
    assert!(eq_ignore_case("NtDll.dll", "nTdLL.DLL"));
    assert!(!eq_ignore_case("\u{C4}", "\u{E4}"));
    assert!(!eq_ignore_case("ntdll", "ntdll.dll"));
}

#[test]
fn trims_white_space() {
    assert_eq!(trim("  r \t\r\n"), "r");
    assert_eq!(trim("\u{2003}a b\u{3000}"), "a b");
    assert_eq!(trim(" \u{A0}\u{85} "), "");
    assert_eq!(trim("\u{200B}"), "\u{200B}");
}
