//! Text, as the library reads it.
use ppe_core::text::{chars_of, decimal_of, parse_u64, white_space};

#[test]
fn white_space_is_what_unicode_says_it_is() {
    for code in 0..=0x10_ffffu32 {
        if let Some(c) = char::from_u32(code) {
            assert_eq!(white_space(c), c.is_whitespace(), "{code:x}");
        }
    }
}

#[test]
fn numbers_are_written_and_read() {
    assert_eq!(decimal_of(0), "0");
    assert_eq!(decimal_of(u64::MAX), "18446744073709551615");
    let v = chars_of("+018");
    assert_eq!(parse_u64(&v, 0, v.len()), Some(18));
    assert_eq!(parse_u64(&v, 0, 1), None);
}
