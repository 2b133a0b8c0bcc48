use factory_planner::relay::{parse_hello, trim_text, Role};
use factory_planner::text::{chars_of, str_contains, str_eq};

#[test]
fn str_eq_compares_characters() {
    assert!(str_eq("gear", "gear"));
    assert!(!str_eq("gear", "gears"));
    assert!(!str_eq("gear", "Gear"));
    assert!(str_eq("", ""));
    assert!(str_eq("Cam · Free", "Cam · Free"));
    assert!(!str_eq("é", "e"));
}

#[test]
fn str_contains_finds_runs() {
    assert!(str_contains("era1_raw_ferrite_ore", "ferrite"));
    assert!(str_contains("abc", ""));
    assert!(str_contains("abc", "abc"));
    assert!(!str_contains("abc", "abcd"));
    assert!(!str_contains("abc", "ac"));
    assert!(str_contains("naïve café", "é"));
}

#[test]
fn chars_of_lists_characters() {
    assert_eq!(chars_of("aé·"), vec!['a', 'é', '·']);
}

#[test]
fn whitespace_and_upper_case() {
    assert_eq!(trim_text("\u{3000}\t code \u{a0}\n"), "code");
    assert_eq!(parse_hello("JOIN|ab12cd"), Ok((Role::Join, "AB12CD".to_string())));
}
