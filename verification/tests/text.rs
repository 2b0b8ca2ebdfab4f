use dormant::number::{decimal, parse_u16};
use dormant::order::{in_order, sort};
use dormant::string_map::StringMap;
use dormant::text::{
    before, ends_with, equal, rsplit_once, split, split_once, starts_with, trim,
    trim_start_matches, white_space,
};

#[test]
fn white_space_is_that_of_unicode() {
    for n in 0u32..=0x10ffff {
        if let Some(c) = char::from_u32(n) {
            assert_eq!(white_space(c), c.is_whitespace(), "{:x}", n);
        }
    }
}

#[test]
fn trim_drops_white_space_at_both_ends() {
    assert_eq!(trim(" \t a b\u{3000}\n"), "a b");
    assert_eq!(trim("   "), "");
    assert_eq!(trim(""), "");
    assert_eq!(trim("x"), "x");
}

#[test]
fn cutting_at_a_separator() {
    assert_eq!(split_once("a:b:c", ':'), Some(("a", "b:c")));
    assert_eq!(rsplit_once("a:b:c", ':'), Some(("a:b", "c")));
    assert_eq!(split_once("abc", ':'), None);
    assert_eq!(rsplit_once("abc", ':'), None);
    assert_eq!(before("host:80", ':'), "host");
    assert_eq!(before("host", ':'), "host");
    assert_eq!(before("\u{e9}t\u{e9}:1", ':'), "\u{e9}t\u{e9}");
}

#[test]
fn pieces_between_separators() {
    assert_eq!(split("a,b\nc", &[',', '\n']), vec!["a", "b", "c"]);
    assert_eq!(split(",", &[',']), vec!["", ""]);
    assert_eq!(split("", &[',']), vec![""]);
    assert_eq!(split("\u{3042},\u{3044}", &[',']), vec!["\u{3042}", "\u{3044}"]);
}

#[test]
fn prefixes_and_suffixes() {
    assert!(starts_with("application/grpc+proto", "application/grpc"));
    assert!(!starts_with("app", "application"));
    assert!(ends_with("foo.bar", ".bar"));
    assert!(ends_with("x", ""));
    assert!(!ends_with("bar", "foo.bar"));
    assert!(equal("a", "a") && !equal("a", "b") && !equal("a", "ab"));
    assert_eq!(trim_start_matches("//a/b", '/'), "a/b");
    assert_eq!(trim_start_matches("///", '/'), "");
}

#[test]
fn numbers_are_read_as_the_standard_library_does() {
    for s in [
        "", "+", "-", "-0", "+0", "0", "00080", "80", "+80", "++80", "65535", "65536", "99999999999",
        "8 0", " 80", "8a", "a8", "\u{0661}", "-1",
    ] {
        assert_eq!(parse_u16(s), s.parse::<u16>().ok(), "{:?}", s);
    }
}

#[test]
fn written_numbers_are_read_back() {
    for n in 0u16..=65535 {
        assert_eq!(decimal(n), n.to_string());
        assert_eq!(parse_u16(&decimal(n)), Some(n));
    }
}

#[test]
fn sorting_is_that_of_strings() {
    let v: Vec<String> = ["b", "a", "", "ab", "b", "\u{e9}", "Z", "\u{1f600}", "\u{ffff}"]
        .iter()
        .map(|s| s.to_string())
        .collect();
    let mut w = v.clone();
    w.sort();
    assert_eq!(sort(&v), w);
    assert!(in_order("a", "ab") && !in_order("ab", "a") && in_order("a", "a"));
}

#[test]
fn table_keeps_the_order_of_first_insertion() {
    let mut m: StringMap<String> = StringMap::new();
    m.insert("b".to_string(), "1".to_string());
    m.insert("a".to_string(), "2".to_string());
    m.insert("b".to_string(), "3".to_string());
    assert_eq!(m.len(), 2);
    assert_eq!(m.key(0), "b");
    assert_eq!(m.value(0), "3");
    assert_eq!(m.get("a"), Some(&"2".to_string()));
    assert_eq!(m.get("c"), None);
    m.remove("b");
    assert!(!m.contains_key("b"));
    assert!(m.contains_key("a"));
    assert_eq!(m.len(), 1);
    m.remove("zzz");
    assert_eq!(m.len(), 1);
}
