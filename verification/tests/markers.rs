use glyphcull_core::layout::layout::{list_marker_text, list_style, to_alpha, to_roman};

#[test]
fn marker_text_matches_the_js_vectors() {
    assert_eq!(list_marker_text(list_style::DISC, 1), "\u{2022}");
    assert_eq!(list_marker_text(list_style::CIRCLE, 1), "\u{25e6}");
    assert_eq!(list_marker_text(list_style::SQUARE, 1), "\u{25aa}");
    assert_eq!(list_marker_text(list_style::DECIMAL, 3), "3.");
    assert_eq!(list_marker_text(list_style::LOWER_ALPHA, 1), "a.");
    assert_eq!(list_marker_text(list_style::LOWER_ALPHA, 27), "aa.");
    assert_eq!(list_marker_text(list_style::UPPER_ALPHA, 2), "B.");
    assert_eq!(list_marker_text(list_style::LOWER_ROMAN, 4), "iv.");
    assert_eq!(list_marker_text(list_style::LOWER_ROMAN, 9), "ix.");
    assert_eq!(list_marker_text(list_style::LOWER_ROMAN, 49), "xlix.");
    assert_eq!(list_marker_text(list_style::UPPER_ROMAN, 49), "XLIX.");
    assert_eq!(list_marker_text(list_style::NONE, 1), "");
    assert_eq!(list_marker_text(255, 1), "");
}

#[test]
fn alpha_counter_wraps_columns() {
    assert_eq!(to_alpha(1), "a");
    assert_eq!(to_alpha(26), "z");
    assert_eq!(to_alpha(27), "aa");
    assert_eq!(to_alpha(28), "ab");
    assert_eq!(to_alpha(703), "aaa");
}

#[test]
fn roman_counter_uses_subtractive_forms() {
    assert_eq!(to_roman(4), "iv");
    assert_eq!(to_roman(9), "ix");
    assert_eq!(to_roman(49), "xlix");
    assert_eq!(to_roman(2026), "mmxxvi");
    assert_eq!(to_roman(0), "0");
    assert_eq!(to_roman(-3), "-3");
}

#[test]
fn decimal_markers_keep_the_sign() {
    assert_eq!(list_marker_text(list_style::DECIMAL, -12), "-12.");
    assert_eq!(list_marker_text(list_style::DECIMAL, 0), "0.");
    assert_eq!(list_marker_text(list_style::DECIMAL, i64::MIN), "-9223372036854775808.");
}

#[test]
fn alpha_counter_below_one_follows_truncating_arithmetic() {
    assert_eq!(to_alpha(0), "`");
    assert_eq!(to_alpha(52), "az");
    assert_eq!(to_alpha(53), "ba");
}

#[test]
fn roman_markers_uppercase_only_letters() {
    assert_eq!(list_marker_text(list_style::UPPER_ROMAN, 0), "0.");
    assert_eq!(list_marker_text(list_style::UPPER_ROMAN, 1994), "MCMXCIV.");
    assert_eq!(list_marker_text(list_style::LOWER_ROMAN, 3999), "mmmcmxcix.");
}
