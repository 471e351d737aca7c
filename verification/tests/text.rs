use ledger_sync::text::{
    chars_of, contains_run, fold, folded_chars, is_digit_char, is_space_char, normalize,
    parse_decimal,
};

fn chars(s: &str) -> Vec<char> {
    s.chars().collect()
}

#[test]
fn normalize_trims_folds_and_collapses() {
    assert_eq!(normalize("  Coffee   Shop "), "coffee shop");
    assert_eq!(normalize("COFFEE\tSHOP"), "coffee shop");
    assert_eq!(normalize("coffee shop"), "coffee shop");
    assert_eq!(normalize("a \r\n b\u{0B}\u{0C}c"), "a b c");
}

#[test]
fn normalize_of_blank_text_is_empty() {
    assert_eq!(normalize(""), "");
    assert_eq!(normalize("   "), "");
    assert_eq!(normalize("\t\n"), "");
}

#[test]
fn normalize_keeps_single_character() {
    assert_eq!(normalize("X"), "x");
    assert_eq!(normalize(" x"), "x");
    assert_eq!(normalize("x "), "x");
}

#[test]
fn normalize_folds_only_the_letters_a_to_z() {
    assert_eq!(normalize("CAFÉ Noir"), "cafÉ noir");
    assert_eq!(normalize("Ünïcode"), "Ünïcode");
    assert_eq!(normalize("A1-B2_[Z]"), "a1-b2_[z]");
}

#[test]
fn normalize_is_idempotent_on_examples() {
    for label in ["  Coffee   Shop ", "x", "", " a  b   c ", "MiXeD\tCase"] {
        let once = normalize(label);
        assert_eq!(normalize(&once), once);
    }
}

#[test]
fn normalize_keeps_distinct_labels_distinct() {
    assert_ne!(normalize("coffee shop"), normalize("coffeeshop"));
    assert_ne!(normalize("coffee shop"), normalize("coffee shops"));
    assert_ne!(normalize("a b"), normalize("b a"));
}

#[test]
fn fold_maps_upper_case_letters_only() {
    assert_eq!(fold('A'), 'a');
    assert_eq!(fold('M'), 'm');
    assert_eq!(fold('Z'), 'z');
    assert_eq!(fold('a'), 'a');
    assert_eq!(fold('@'), '@');
    assert_eq!(fold('['), '[');
    assert_eq!(fold('0'), '0');
    assert_eq!(fold('É'), 'É');
}

#[test]
fn whitespace_characters() {
    for c in [' ', '\t', '\n', '\r', '\u{0B}', '\u{0C}'] {
        assert!(is_space_char(c));
    }
    for c in ['a', '0', '_', '\u{00A0}', '\0'] {
        assert!(!is_space_char(c));
    }
}

#[test]
fn digit_characters() {
    assert!(is_digit_char('0'));
    assert!(is_digit_char('9'));
    assert!(!is_digit_char('/'));
    assert!(!is_digit_char(':'));
    assert!(!is_digit_char('a'));
    assert!(!is_digit_char('٣'));
}

#[test]
fn chars_of_gives_the_characters_in_order() {
    assert_eq!(chars_of("héllo"), vec!['h', 'é', 'l', 'l', 'o']);
    assert_eq!(chars_of(""), Vec::<char>::new());
    assert_eq!(folded_chars("HéLLo"), vec!['h', 'é', 'l', 'l', 'o']);
}

#[test]
fn parse_decimal_reads_digits() {
    assert_eq!(parse_decimal(&chars("0042"), 0, 4, 100), Some(42));
    assert_eq!(parse_decimal(&chars("x12y"), 1, 3, 100), Some(12));
    assert_eq!(parse_decimal(&chars("100"), 0, 3, 100), Some(100));
    assert_eq!(parse_decimal(&chars("0"), 0, 1, 0), Some(0));
}

#[test]
fn parse_decimal_refuses_what_is_no_number() {
    assert_eq!(parse_decimal(&chars("101"), 0, 3, 100), None);
    assert_eq!(parse_decimal(&chars("12a"), 0, 3, 100), None);
    assert_eq!(parse_decimal(&chars("-1"), 0, 2, 100), None);
    assert_eq!(parse_decimal(&chars("12"), 1, 1, 100), None);
    assert_eq!(parse_decimal(&chars(""), 0, 0, 100), None);
}

#[test]
fn parse_decimal_at_the_limits_of_the_machine() {
    let max = "18446744073709551615";
    assert_eq!(parse_decimal(&chars(max), 0, max.len(), u64::MAX), Some(u64::MAX));
    let over = "18446744073709551616";
    assert_eq!(parse_decimal(&chars(over), 0, over.len(), u64::MAX), None);
    let long = "000000000000000000000000000000000000007";
    assert_eq!(parse_decimal(&chars(long), 0, long.len(), 9), Some(7));
    let huge = "99999999999999999999999999999999999999999";
    assert_eq!(parse_decimal(&chars(huge), 0, huge.len(), u64::MAX), None);
}

#[test]
fn contains_run_finds_adjacent_characters() {
    assert!(contains_run(&chars("coffee shop"), &chars("fee")));
    assert!(contains_run(&chars("coffee shop"), &chars("coffee shop")));
    assert!(contains_run(&chars("coffee shop"), &chars("shop")));
    assert!(contains_run(&chars("aab"), &chars("ab")));
    assert!(!contains_run(&chars("coffee shop"), &chars("cofee")));
    assert!(!contains_run(&chars("ab"), &chars("abc")));
    assert!(!contains_run(&chars("abc"), &chars("ac")));
}

#[test]
fn contains_run_with_empty_texts() {
    assert!(contains_run(&chars("abc"), &chars("")));
    assert!(contains_run(&chars(""), &chars("")));
    assert!(!contains_run(&chars(""), &chars("a")));
}
