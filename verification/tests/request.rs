use uzumibi::request::{is_well_framed, parse_headers, Request};
use uzumibi::wire::{pack_request_data, response_to_bytes};

fn buffer(method: &[u8; 4], path: &[u8], headers: &[u8]) -> Vec<u8> {
    let mut buf = Vec::new();
    buf.extend_from_slice(method);
    buf.extend_from_slice(&(path.len() as u16).to_le_bytes());
    buf.extend_from_slice(path);
    buf.extend_from_slice(&(headers.len() as u16).to_le_bytes());
    buf.extend_from_slice(headers);
    buf
}

#[test]
fn request_is_read_from_buffer() {
    let buf = buffer(b"GET\0", b"/users/42", b"host\0example.com\0accept\0*/*\0");
    assert!(is_well_framed(&buf));
    let request = Request::new_from_buffer(&buf);
    assert_eq!(request.method, "GET\0");
    assert_eq!(request.path, "/users/42");
    assert_eq!(request.headers.len(), 2);
    assert_eq!(request.headers.get("host").unwrap(), "example.com");
    assert_eq!(request.headers.get("accept").unwrap(), "*/*");
}

#[test]
fn request_bytes_of_method_and_path_are_single_characters() {
    let buf = buffer(b"P\xe9ST", b"/caf\xc3\xa9", b"");
    let request = Request::new_from_buffer(&buf);
    assert_eq!(request.method, "P\u{e9}ST");
    assert_eq!(request.path, "/caf\u{c3}\u{a9}");
    assert!(request.headers.is_empty());
}

#[test]
fn request_ignores_what_follows_the_header_block() {
    let mut buf = buffer(b"GET ", b"/", b"a\0b\0");
    buf.extend_from_slice(b"trailing\0bytes\0");
    let request = Request::new_from_buffer(&buf);
    assert_eq!(request.headers.len(), 1);
    assert_eq!(request.headers.get("a").unwrap(), "b");
}

#[test]
fn short_buffers_are_not_well_framed() {
    assert!(!is_well_framed(b""));
    assert!(!is_well_framed(b"GET \x00"));
    assert!(!is_well_framed(b"GET \x00\x00"));
    assert!(!is_well_framed(b"GET \x01\x00/"));
    assert!(!is_well_framed(b"GET \x01\x00/\x01\x00"));
    assert!(is_well_framed(b"GET \x00\x00\x00\x00"));
    assert!(is_well_framed(b"GET \x01\x00/\x01\x00x"));
    assert!(!is_well_framed(b"GET \x00\x01\x00\x00"));
}

#[test]
fn headers_end_at_zero_bytes() {
    let headers = parse_headers(b"name\0value\0");
    assert_eq!(headers.len(), 1);
    assert_eq!(headers.get("name").unwrap(), "value");

    // a value may run to the end of the block
    let open_value = parse_headers(b"name\0value");
    assert_eq!(open_value.get("name").unwrap(), "value");

    // a name with nothing behind its zero byte is dropped
    assert!(parse_headers(b"name\0").is_empty());
    assert!(parse_headers(b"name").is_empty());
    assert!(parse_headers(b"").is_empty());
    let dangling = parse_headers(b"a\0b\0c\0");
    assert_eq!(dangling.len(), 1);
    assert_eq!(dangling.get("a").unwrap(), "b");

    // empty names and values
    let empty = parse_headers(b"\0\0x\0\0");
    assert_eq!(empty.len(), 2);
    assert_eq!(empty.get("").unwrap(), "");
    assert_eq!(empty.get("x").unwrap(), "");
}

#[test]
fn later_header_replaces_earlier_and_invalid_bytes_are_replaced() {
    let headers = parse_headers(b"k\0one\0k\0two\0bad\xff\0v\xc3\0");
    assert_eq!(headers.len(), 2);
    assert_eq!(headers.get("k").unwrap(), "two");
    assert_eq!(headers.get("bad\u{fffd}").unwrap(), "v\u{fffd}");
}

#[test]
fn response_goes_to_bytes() {
    let headers = vec![
        ("Content-Type".to_string(), "text/plain".to_string()),
        ("X".to_string(), "".to_string()),
    ];
    let bytes = response_to_bytes(404, &headers, "Not Found");
    let mut expected = Vec::new();
    expected.extend_from_slice(&[0x94, 0x01]);
    expected.extend_from_slice(&[2, 0]);
    expected.extend_from_slice(&[12, 0]);
    expected.extend_from_slice(b"Content-Type");
    expected.extend_from_slice(&[10, 0]);
    expected.extend_from_slice(b"text/plain");
    expected.extend_from_slice(&[1, 0]);
    expected.extend_from_slice(b"X");
    expected.extend_from_slice(&[0, 0]);
    expected.extend_from_slice(&[9, 0, 0, 0]);
    expected.extend_from_slice(b"Not Found");
    assert_eq!(bytes, expected);
}

#[test]
fn response_status_and_lengths_keep_their_low_bytes() {
    let bytes = response_to_bytes(0x1_0203, &Vec::new(), "");
    assert_eq!(bytes, vec![0x03, 0x02, 0, 0, 0, 0, 0, 0]);

    let long = "x".repeat(0x1_0002);
    let headers = vec![(long.clone(), "v".to_string())];
    let bytes = response_to_bytes(200, &headers, &long);
    assert_eq!(&bytes[0..6], &[200, 0, 1, 0, 2, 0]);
    assert_eq!(bytes.len(), 4 + 2 + 0x1_0002 + 2 + 1 + 4 + 0x1_0002);
    let body_len = 4 + 2 + 0x1_0002 + 2 + 1;
    assert_eq!(&bytes[body_len..body_len + 4], &[0x02, 0x00, 0x01, 0x00]);
}

#[test]
fn request_is_packed() {
    let headers = vec![("host".to_string(), b"a.b".to_vec()), ("x".to_string(), vec![0xff])];
    let data = pack_request_data("GET", "/p", &headers);
    let mut expected = Vec::new();
    expected.extend_from_slice(b"GET\0\0\0");
    expected.extend_from_slice(&[2, 0]);
    expected.extend_from_slice(b"/p");
    expected.extend_from_slice(&[2, 0]);
    expected.extend_from_slice(&[4, 0]);
    expected.extend_from_slice(b"host");
    expected.extend_from_slice(&[3, 0]);
    expected.extend_from_slice(b"a.b");
    expected.extend_from_slice(&[1, 0]);
    expected.extend_from_slice(b"x");
    expected.extend_from_slice(&[1, 0, 0xff]);
    assert_eq!(data, expected);
}

#[test]
fn packed_method_is_cut_to_six_bytes() {
    let data = pack_request_data("OPTIONS", "", &Vec::new());
    assert_eq!(data, b"OPTION\0\0\0\0".to_vec());
    let empty = pack_request_data("", "/", &Vec::new());
    assert_eq!(empty, b"\0\0\0\0\0\0\x01\0/\0\0".to_vec());
}
