use schema_migrations::ordinal::parse_ordinal;

#[test]
fn parses_plain_ordinals() {
    assert_eq!(parse_ordinal("1_a"), Some(1));
    assert_eq!(parse_ordinal("2_b"), Some(2));
    assert_eq!(parse_ordinal("10_c"), Some(10));
}

#[test]
fn parses_the_whole_name_when_no_underscore_occurs() {
    assert_eq!(parse_ordinal("42"), Some(42));
    assert_eq!(parse_ordinal("0"), Some(0));
}

#[test]
fn leading_zeroes_are_allowed() {
    assert_eq!(parse_ordinal("007_bond"), Some(7));
    assert_eq!(parse_ordinal("000_x"), Some(0));
}

#[test]
fn only_the_prefix_before_the_first_underscore_counts() {
    assert_eq!(parse_ordinal("3_2_1_liftoff"), Some(3));
    assert_eq!(parse_ordinal("12_mix3d_slug"), Some(12));
}

#[test]
fn rejects_non_numeric_prefixes() {
    assert_eq!(parse_ordinal("abc"), None);
    assert_eq!(parse_ordinal("abc_x"), None);
    assert_eq!(parse_ordinal("1a_x"), None);
    assert_eq!(parse_ordinal("-1_x"), None);
    assert_eq!(parse_ordinal("+1_x"), None);
    assert_eq!(parse_ordinal("1.5_x"), None);
}

#[test]
fn rejects_an_empty_prefix() {
    assert_eq!(parse_ordinal(""), None);
    assert_eq!(parse_ordinal("_x"), None);
    assert_eq!(parse_ordinal("_"), None);
}

#[test]
fn parses_up_to_the_largest_ordinal() {
    assert_eq!(parse_ordinal("18446744073709551615_max"), Some(u64::MAX));
    assert_eq!(parse_ordinal("18446744073709551616_above"), None);
    assert_eq!(parse_ordinal("99999999999999999999999_way_above"), None);
}

#[test]
fn digits_beyond_ascii_are_rejected() {
    assert_eq!(parse_ordinal("\u{0663}_arabic_indic_three"), None);
    assert_eq!(parse_ordinal("\u{2163}_roman_four"), None);
}
