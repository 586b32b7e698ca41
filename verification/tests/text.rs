use json_parser::decimal::{read_decimal, write_decimal};
use json_parser::text::{characters_of, text_of};
use json_parser::tokenizer::{is_hex_character, is_letter, is_number_character, is_number_start};

#[test]
fn characters_and_text() {
    assert_eq!(characters_of("aö𝄞"), vec!['a', 'ö', '𝄞']);
    assert_eq!(characters_of(""), Vec::<char>::new());
    let characters = vec!['a', 'ö', '𝄞', 'b'];
    assert_eq!(text_of(&characters, 0, 4), "aö𝄞b");
    assert_eq!(text_of(&characters, 1, 3), "ö𝄞");
    assert_eq!(text_of(&characters, 2, 2), "");
}

#[test]
fn decimal_digits_are_read_up_to_a_limit() {
    let digits = characters_of("x0123");
    assert_eq!(read_decimal(&digits, 1, 123), Some(123));
    assert_eq!(read_decimal(&digits, 1, 122), None);
    assert_eq!(read_decimal(&digits, 0, 1000), None);
    assert_eq!(read_decimal(&digits, 5, 1000), None);
    assert_eq!(read_decimal(&digits, 4, 2), None);
    assert_eq!(read_decimal(&digits, 4, 3), Some(3));
    let most = characters_of("18446744073709551615");
    assert_eq!(read_decimal(&most, 0, u64::MAX), Some(u64::MAX));
    let more = characters_of("18446744073709551616");
    assert_eq!(read_decimal(&more, 0, u64::MAX), None);
    let far_more = characters_of("99999999999999999999999999");
    assert_eq!(read_decimal(&far_more, 0, u64::MAX), None);
}

#[test]
fn decimal_digits_are_written_without_leading_zeros() {
    assert_eq!(write_decimal(0), "0");
    assert_eq!(write_decimal(9), "9");
    assert_eq!(write_decimal(10), "10");
    assert_eq!(write_decimal(1905), "1905");
    assert_eq!(write_decimal(u64::MAX), "18446744073709551615");
}

#[test]
fn character_classes() {
    assert!(is_letter('a') && is_letter('z') && is_letter('A') && is_letter('Z'));
    assert!(!is_letter('1') && !is_letter('_') && !is_letter('ö') && !is_letter('\u{0}'));
    for character in "0123456789-+.eE".chars() {
        assert!(is_number_character(character));
    }
    assert!(!is_number_character('f') && !is_number_character(' ') && !is_number_character('\u{0}'));
    for character in "0123456789-+".chars() {
        assert!(is_number_start(character));
    }
    assert!(!is_number_start('.') && !is_number_start('e') && !is_number_start('E'));
    for character in "0123456789abcdefABCDEF".chars() {
        assert!(is_hex_character(character));
    }
    assert!(!is_hex_character('g') && !is_hex_character('G') && !is_hex_character('-'));
}
