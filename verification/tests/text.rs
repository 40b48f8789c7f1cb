use sidecar_core::text::{
    eq_ignore_ascii_case, forced_language, parse_u32, same_text, trim, u32_setting,
};

#[test]
fn numeric_setting_parses_plain_decimal() {
    assert_eq!(u32_setting(Some("42"), 7), 42);
    assert_eq!(u32_setting(Some("+800"), 7), 800);
    assert_eq!(u32_setting(Some("0010"), 7), 10);
    assert_eq!(u32_setting(Some("4294967295"), 7), u32::MAX);
}

#[test]
fn numeric_setting_falls_back_to_default() {
    assert_eq!(u32_setting(None, 160), 160);
    assert_eq!(u32_setting(Some(""), 160), 160);
    assert_eq!(u32_setting(Some("+"), 160), 160);
    assert_eq!(u32_setting(Some("-1"), 160), 160);
    assert_eq!(u32_setting(Some("-0"), 160), 160);
    assert_eq!(u32_setting(Some(" 5"), 160), 160);
    assert_eq!(u32_setting(Some("5ms"), 160), 160);
    assert_eq!(u32_setting(Some("1_000"), 160), 160);
    assert_eq!(u32_setting(Some("4294967296"), 160), 160);
}

#[test]
fn ascii_case_comparison() {
    assert!(eq_ignore_ascii_case("AUTO", "auto"));
    assert!(eq_ignore_ascii_case("AuTo", "aUtO"));
    assert!(!eq_ignore_ascii_case("auto", "autos"));
    assert!(!eq_ignore_ascii_case("Äuto", "äuto"));
    assert!(eq_ignore_ascii_case("", ""));
}

#[test]
fn text_equality() {
    assert!(same_text("sidecar-rs", "sidecar-rs"));
    assert!(!same_text("sidecar-rs", "sidecar_rs"));
    assert!(!same_text("a", "ab"));
}

#[test]
fn language_defaults_to_english() {
    assert_eq!(forced_language(None), Some("English".to_string()));
}

#[test]
fn language_is_capitalized() {
    assert_eq!(forced_language(Some("spanish")), Some("Spanish".to_string()));
    assert_eq!(forced_language(Some("  gERMAN \n")), Some("German".to_string()));
    assert_eq!(forced_language(Some("ñandú")), Some("Ñandú".to_string()));
    assert_eq!(forced_language(Some("ß")), Some("SS".to_string()));
}

#[test]
fn auto_or_blank_language_means_detection() {
    assert_eq!(forced_language(Some("auto")), None);
    assert_eq!(forced_language(Some(" AUTO ")), None);
    assert_eq!(forced_language(Some("")), None);
    assert_eq!(forced_language(Some("   ")), None);
    assert_eq!(forced_language(Some("automatic")), Some("Automatic".to_string()));
}

#[test]
fn trim_removes_unicode_white_space_only() {
    assert_eq!(trim("  a b \t\n"), "a b");
    assert_eq!(trim("\u{a0}\u{2003}x\u{3000}"), "x");
    assert_eq!(trim("\u{200b}x"), "\u{200b}x");
    assert_eq!(trim(" \r\n "), "");
    assert_eq!(trim(""), "");
}

#[test]
fn parse_matches_std() {
    for s in ["0", "+0", "+", "-0", "12a", "007", "4294967295", "4294967296", "99999999999999999999", "", "١٢"] {
        assert_eq!(parse_u32(s), s.parse::<u32>().ok(), "{s:?}");
    }
}
