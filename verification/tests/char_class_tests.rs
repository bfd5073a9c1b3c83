use arit_lexer::chars::{
    alphabetic_char, alphanumeric_char, digit_char, numeric_char, whitespace_char,
};

/// The scanner only ever produces the 256 characters a single byte can
/// carry; on that range the library's character classes must agree with the
/// standard library's Unicode classification.
#[test]
fn classes_agree_with_std_on_all_byte_chars() {
    for b in 0..=255u8 {
        let c = b as char;
        assert_eq!(whitespace_char(c), c.is_whitespace(), "whitespace {:#x}", b);
        assert_eq!(alphabetic_char(c), c.is_alphabetic(), "alphabetic {:#x}", b);
        assert_eq!(numeric_char(c), c.is_numeric(), "numeric {:#x}", b);
        assert_eq!(
            alphanumeric_char(c),
            c.is_alphanumeric(),
            "alphanumeric {:#x}",
            b
        );
        assert_eq!(digit_char(c), c.is_ascii_digit(), "digit {:#x}", b);
    }
}
