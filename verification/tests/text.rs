use neomake::name_map::NameMap;
use neomake::order::{rank, same_text, Rank};
use neomake::text::{
    decimal_text, is_blank, is_whitespace, join, signed_decimal_text, split_words,
};

#[test]
fn white_space_is_that_of_unicode() {
    for code in 0..=0x10ffff_u32 {
        if let Some(c) = char::from_u32(code) {
            assert_eq!(is_whitespace(c), c.is_whitespace(), "U+{code:x}");
        }
    }
}

#[test]
fn blank_texts_hold_white_space_only() {
    assert!(is_blank(""));
    assert!(is_blank(" \t\u{a0}\r\n"));
    assert!(!is_blank(" x "));
}

#[test]
fn texts_are_split_into_words() {
    assert_eq!(split_words("  a bc\td "), ["a", "bc", "d"]);
    assert!(split_words(" \n ").is_empty());
    assert_eq!(split_words("x"), ["x"]);
}

#[test]
fn numbers_are_written_in_decimal() {
    assert_eq!(decimal_text(0), "0");
    assert_eq!(decimal_text(1090), "1090");
    assert_eq!(decimal_text(18446744073709551615), "18446744073709551615");
    assert_eq!(signed_decimal_text(-17), "-17");
    assert_eq!(signed_decimal_text(-2147483648), "-2147483648");
    assert_eq!(signed_decimal_text(2147483647), "2147483647");
}

#[test]
fn texts_are_joined() {
    let parts = vec!["a".to_string(), "".to_string(), "c".to_string()];
    assert_eq!(join(&parts, ", "), "a, , c");
    assert_eq!(join(&parts[..1], ", "), "a");
    assert_eq!(join(&[], ", "), "");
}

#[test]
fn texts_are_ranked_by_bytes() {
    assert_eq!(rank("a", "b"), Rank::Less);
    assert_eq!(rank("b", "a"), Rank::Greater);
    assert_eq!(rank("a", "ab"), Rank::Less);
    assert_eq!(rank("", ""), Rank::Equal);
    assert_eq!(rank("z", "é"), Rank::Less);
    assert_eq!(rank("\u{ffff}", "\u{10000}"), Rank::Less);
    assert!(same_text("é", "é"));
    assert!(!same_text("e", "é"));
}

#[test]
fn a_name_map_keeps_its_keys_in_order() {
    let mut map = NameMap::new();
    for key in ["b", "a", "c", "a"] {
        map.insert(key.to_string(), key.len() + map.len());
    }
    assert_eq!(map.len(), 3);
    assert_eq!(map.keys(), ["a", "b", "c"]);
    assert_eq!(map.get("a"), Some(&4));
    assert_eq!(map.get("b"), Some(&1));
    assert_eq!(map.get("d"), None);
    assert_eq!(map.entry_at(2).0, "c");
}
