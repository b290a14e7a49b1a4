use uzumibi::helpers::{parse_form, parse_x_www_form_urlencoded, url_decode};

#[test]
fn test_empty_data() {
    let result = parse_x_www_form_urlencoded(b"");
    assert!(result.is_empty());
}

#[test]
fn test_simple_pairs() {
    let data = b"key1=value1&key2=value2";
    let result = parse_x_www_form_urlencoded(data);
    assert_eq!(result.get("key1"), Some(&"value1".to_string()));
    assert_eq!(result.get("key2"), Some(&"value2".to_string()));
}

#[test]
fn test_plus_as_space() {
    let data = b"name=John+Doe&city=New+York";
    let result = parse_x_www_form_urlencoded(data);
    assert_eq!(result.get("name"), Some(&"John Doe".to_string()));
    assert_eq!(result.get("city"), Some(&"New York".to_string()));
}

#[test]
fn test_percent_encoding() {
    let data = b"name=John%20Doe&email=test%40example.com";
    let result = parse_x_www_form_urlencoded(data);
    assert_eq!(result.get("name"), Some(&"John Doe".to_string()));
    assert_eq!(result.get("email"), Some(&"test@example.com".to_string()));
}

#[test]
fn test_special_characters() {
    let data = b"text=Hello%21%20World%3F";
    let result = parse_x_www_form_urlencoded(data);
    assert_eq!(result.get("text"), Some(&"Hello! World?".to_string()));
}

#[test]
fn test_empty_value() {
    let data = b"key1=&key2=value2";
    let result = parse_x_www_form_urlencoded(data);
    assert_eq!(result.get("key1"), Some(&"".to_string()));
    assert_eq!(result.get("key2"), Some(&"value2".to_string()));
}

#[test]
fn test_key_without_value() {
    let data = b"key1&key2=value2";
    let result = parse_x_www_form_urlencoded(data);
    assert_eq!(result.get("key1"), Some(&"".to_string()));
    assert_eq!(result.get("key2"), Some(&"value2".to_string()));
}

#[test]
fn test_url_decode() {
    assert_eq!(url_decode("Hello+World"), "Hello World");
    assert_eq!(url_decode("Hello%20World"), "Hello World");
    assert_eq!(url_decode("test%40example.com"), "test@example.com");
    assert_eq!(url_decode("100%25"), "100%");
    assert_eq!(url_decode("a%2Bb%3Dc"), "a+b=c");
}

#[test]
fn test_invalid_percent_encoding() {
    // Should handle invalid sequences gracefully
    assert_eq!(url_decode("test%"), "test%");
    assert_eq!(url_decode("test%1"), "test%1");
    assert_eq!(url_decode("test%GG"), "test%GG");
}

#[test]
fn url_decode_takes_two_characters_with_each_percent() {
    // The second `%` is taken as a digit of the first and stays as it is.
    assert_eq!(url_decode("%G%41"), "%G%41");
    assert_eq!(url_decode("%4%41"), "%4%41");
    // A sign and one digit stand for a byte.
    assert_eq!(url_decode("%+A"), "\n");
    assert_eq!(url_decode("%-A"), "%-A");
    assert_eq!(url_decode("%++"), "%++");
    assert_eq!(url_decode("%1+"), "%1+");
}

#[test]
fn url_decode_makes_one_character_of_each_byte() {
    assert_eq!(url_decode("%e9"), "\u{e9}");
    assert_eq!(url_decode("%C3%A9"), "\u{c3}\u{a9}");
    assert_eq!(url_decode("%00"), "\0");
    assert_eq!(url_decode("%fF"), "\u{ff}");
}

#[test]
fn url_decode_keeps_other_text() {
    assert_eq!(url_decode(""), "");
    assert_eq!(url_decode("caf\u{e9}+\u{65e5}\u{672c}"), "caf\u{e9} \u{65e5}\u{672c}");
    assert_eq!(url_decode("%\u{e9}1x"), "%\u{e9}1x");
    assert_eq!(url_decode("%4\u{e9}x"), "%4\u{e9}x");
    assert_eq!(url_decode("a%\u{65e5}"), "a%\u{65e5}");
}

#[test]
fn parse_form_later_field_replaces_earlier() {
    let fields = parse_form("a=1&b=2&a=3");
    assert_eq!(fields.len(), 2);
    assert_eq!(fields.get("a").unwrap(), "3");
    assert_eq!(fields.get("b").unwrap(), "2");
}

#[test]
fn parse_form_skips_empty_pieces_and_cuts_at_first_equals() {
    let fields = parse_form("&&x=1=2&&y&");
    assert_eq!(fields.len(), 2);
    assert_eq!(fields.get("x").unwrap(), "1=2");
    assert_eq!(fields.get("y").unwrap(), "");
    let only_value = parse_form("=v");
    assert_eq!(only_value.len(), 1);
    assert_eq!(only_value.get("").unwrap(), "v");
}

#[test]
fn parse_form_decodes_keys_and_values() {
    let fields = parse_form("first+name=J%C3%B6rg&x%3Dy=%26");
    assert_eq!(fields.get("first name").unwrap(), "J\u{c3}\u{b6}rg");
    assert_eq!(fields.get("x=y").unwrap(), "&");
}

#[test]
fn form_data_with_invalid_bytes_gets_replacement_characters() {
    let fields = parse_x_www_form_urlencoded(b"k=\xffv&\xc3=1");
    assert_eq!(fields.get("k").unwrap(), "\u{fffd}v");
    assert_eq!(fields.get("\u{fffd}").unwrap(), "1");
    let valid = parse_x_www_form_urlencoded("k=\u{e9}".as_bytes());
    assert_eq!(valid.get("k").unwrap(), "\u{e9}");
}
