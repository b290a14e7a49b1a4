use uzumibi::string_map::StringMap;
use uzumibi::text::{
    ascii_code, join_strs, latin1_string, same_bytes, same_text, split_at_first_of,
    split_first_char, split_once, split_str, strip_prefix,
};

#[test]
fn split_keeps_empty_pieces() {
    assert_eq!(split_str("/users/42", b'/'), vec!["", "users", "42"]);
    assert_eq!(split_str("", b'/'), vec![""]);
    assert_eq!(split_str("/", b'/'), vec!["", ""]);
    assert_eq!(split_str("a//b/", b'/'), vec!["a", "", "b", ""]);
    assert_eq!(split_str("abc", b'/'), vec!["abc"]);
}

#[test]
fn split_leaves_characters_of_several_bytes_whole() {
    assert_eq!(
        split_str("caf\u{e9}/\u{65e5}\u{672c}/\u{1f600}", b'/'),
        vec!["caf\u{e9}", "\u{65e5}\u{672c}", "\u{1f600}"]
    );
    // U+012F ends in the byte 0xaf, U+2F00 begins with 0xe2 0xbc: neither holds 0x2f
    assert_eq!(split_str("\u{12f}\u{2f00}", b'/'), vec!["\u{12f}\u{2f00}"]);
}

#[test]
fn join_is_the_inverse_of_split() {
    for text in ["", "/", "a/b", "/a//b/", "\u{e9}/x"] {
        let pieces = split_str(text, b'/');
        assert_eq!(join_strs(&pieces, 0, "/"), text);
    }
    let pieces = vec!["a", "b", "c"];
    assert_eq!(join_strs(&pieces, 1, "/"), "b/c");
    assert_eq!(join_strs(&pieces, 2, "/"), "c");
    assert_eq!(join_strs(&pieces, 3, "/"), "");
}

#[test]
fn split_once_cuts_at_the_first_occurrence() {
    assert_eq!(split_once("k=v=w", b'='), Some(("k", "v=w")));
    assert_eq!(split_once("=v", b'='), Some(("", "v")));
    assert_eq!(split_once("k=", b'='), Some(("k", "")));
    assert_eq!(split_once("kv", b'='), None);
    assert_eq!(split_at_first_of("a%b+c", b'+', b'%'), Some(("a", b'%', "b+c")));
    assert_eq!(split_at_first_of("a+b%c", b'+', b'%'), Some(("a", b'+', "b%c")));
    assert_eq!(split_at_first_of("\u{e9}", b'+', b'%'), None);
}

#[test]
fn strip_prefix_and_first_char() {
    assert_eq!(strip_prefix(":id", b':'), Some("id"));
    assert_eq!(strip_prefix(":", b':'), Some(""));
    assert_eq!(strip_prefix("id", b':'), None);
    assert_eq!(strip_prefix("", b':'), None);
    assert_eq!(split_first_char(""), None);
    assert_eq!(split_first_char("a"), Some(("a", "")));
    assert_eq!(split_first_char("\u{e9}b"), Some(("\u{e9}", "b")));
    assert_eq!(split_first_char("\u{65e5}b"), Some(("\u{65e5}", "b")));
    assert_eq!(split_first_char("\u{1f600}b"), Some(("\u{1f600}", "b")));
    assert_eq!(ascii_code("a"), Some(b'a'));
    assert_eq!(ascii_code("\u{7f}"), Some(0x7f));
    assert_eq!(ascii_code("\u{80}"), None);
}

#[test]
fn equality_and_latin1() {
    assert!(same_bytes(b"abc", b"abc"));
    assert!(!same_bytes(b"abc", b"abd"));
    assert!(!same_bytes(b"abc", b"ab"));
    assert!(same_bytes(b"", b""));
    assert!(same_text("\u{e9}", "\u{e9}"));
    assert!(!same_text("e", "\u{e9}"));
    assert_eq!(latin1_string(b"GET\xe9\xff\0"), "GET\u{e9}\u{ff}\0");
    assert_eq!(latin1_string(b""), "");
}

#[test]
fn string_map_binds_each_key_once() {
    let mut map = StringMap::new();
    assert!(map.is_empty());
    assert_eq!(map.len(), 0);
    assert_eq!(map.insert("a".to_string(), "1".to_string()), None);
    assert_eq!(map.insert("b".to_string(), "2".to_string()), None);
    assert_eq!(map.insert("a".to_string(), "3".to_string()), Some("1".to_string()));
    assert_eq!(map.len(), 2);
    assert!(!map.is_empty());
    assert_eq!(map.get("a").unwrap(), "3");
    assert_eq!(map.get("b").unwrap(), "2");
    assert_eq!(map.get("c"), None);
    assert!(map.contains_key("a"));
    assert!(!map.contains_key(""));
    let pairs = map.pairs();
    assert_eq!(pairs.len(), 2);
    assert_eq!(pairs[0], ("a".to_string(), "3".to_string()));
    assert_eq!(pairs[1], ("b".to_string(), "2".to_string()));
}

#[test]
fn string_map_of_pairs_takes_the_later_pair() {
    let pairs = vec![
        ("id".to_string(), "1".to_string()),
        ("x".to_string(), "y".to_string()),
        ("id".to_string(), "2".to_string()),
    ];
    let map = StringMap::from_pairs(pairs);
    assert_eq!(map.len(), 2);
    assert_eq!(map.get("id").unwrap(), "2");
    assert_eq!(map.get("x").unwrap(), "y");
    assert!(StringMap::from_pairs(Vec::new()).is_empty());
}
