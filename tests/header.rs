use tinyhttp::{Error, Headers, ProtoHeader};

#[test]
fn test_valid_header() {
    let data = "Host: localhost:42069\r\n\r\n";
    let (b_read, result) = ProtoHeader::new_from_bytes(data.as_bytes());
    assert_eq!(b_read, 23);
    assert!(result.is_ok());
    let proto_header = result.unwrap();
    assert!(proto_header.is_some());
    let proto_header = proto_header.unwrap();
    assert_eq!(proto_header.key, "host");
    assert_eq!(proto_header.value, "localhost:42069");
}

#[test]
fn test_invalid_spacing_header() {
    let data = "       Host : localhost:42069       \r\n\r\n";
    let (b_read, result) = ProtoHeader::new_from_bytes(data.as_bytes());
    assert_eq!(b_read, 0);
    assert!(result.is_err());
    let err = result.unwrap_err();
    assert_eq!(
        err,
        Error::MalFormedHeader("       Host : localhost:42069       ".to_string())
    );
}

#[test]
fn test_invalid_token_on_key_header() {
    let data = "H©st: localhost:42069\r\n\r\n";
    let (b_read, result) = ProtoHeader::new_from_bytes(data.as_bytes());
    assert_eq!(b_read, 0);
    assert!(result.is_err());
    let err = result.unwrap_err();
    assert_eq!(
        err,
        Error::MalFormedHeader("H©st: localhost:42069".to_string())
    );
}

#[test]
fn header_line_incomplete_needs_more() {
    let (n, r) = ProtoHeader::new_from_bytes("Host: localhost".as_bytes());
    assert_eq!(n, 0);
    assert!(matches!(r, Ok(None)));
}

#[test]
fn header_blank_line_ends_section() {
    let (n, r) = ProtoHeader::new_from_bytes("\r\nrest".as_bytes());
    assert_eq!(n, 2);
    assert!(matches!(r, Ok(None)));
}

#[test]
fn header_without_colon_is_malformed() {
    let (n, r) = ProtoHeader::new_from_bytes("  NoColonHere  \r\n".as_bytes());
    assert_eq!(n, 0);
    assert_eq!(r.unwrap_err(), Error::MalFormedHeader("NoColonHere".to_string()));
}

#[test]
fn header_empty_value_is_malformed() {
    let (n, r) = ProtoHeader::new_from_bytes("Host:\r\n".as_bytes());
    assert_eq!(n, 0);
    assert_eq!(r.unwrap_err(), Error::MalFormedHeader("Host:".to_string()));
}

#[test]
fn header_name_is_lowered_and_value_trimmed() {
    let (n, r) = ProtoHeader::new_from_bytes("X-Mixed-CASE:   some value  \r\n".as_bytes());
    assert_eq!(n, 30);
    let h = r.unwrap().unwrap();
    assert_eq!(h.key, "x-mixed-case");
    assert_eq!(h.value, "some value");
}

#[test]
fn headers_insert_folds_values() {
    let mut h = Headers::new();
    h.insert("a".to_string(), "1".to_string());
    h.insert("b".to_string(), "2".to_string());
    h.insert("a".to_string(), "3".to_string());
    assert_eq!(h.get("a"), Some(&"1, 3".to_string()));
    assert_eq!(h.get("b"), Some(&"2".to_string()));
    assert_eq!(h.len(), 2);
}

#[test]
fn headers_overwrite_and_insert_if_absent() {
    let mut h = Headers::new();
    h.insert("k".to_string(), "1".to_string());
    h.overwrite("k".to_string(), "2".to_string());
    h.insert_if_not_exists("k".to_string(), "3".to_string());
    h.insert_if_not_exists("m".to_string(), "4".to_string());
    assert_eq!(h.get("k"), Some(&"2".to_string()));
    assert_eq!(h.get("m"), Some(&"4".to_string()));
    h.remove("k");
    assert_eq!(h.get("k"), None);
}

#[test]
fn headers_write_to_and_byte_len() {
    let mut h = Headers::new();
    h.insert("Host".to_string(), "x".to_string());
    h.insert("A".to_string(), "bc".to_string());
    let mut out = Vec::new();
    h.write_to(&mut out);
    assert_eq!(out, b"Host: x\r\nA: bc\r\n\r\n".to_vec());
    assert_eq!(h.byte_len(), out.len());
    let mut fields = Vec::new();
    h.write_fields_to(&mut fields);
    assert_eq!(fields, b"Host: x\r\nA: bc\r\n".to_vec());
}

#[test]
fn headers_push_from_proto() {
    let mut h = Headers::new();
    h.push_from_proto(ProtoHeader { key: "x".to_string(), value: "1".to_string() });
    h.push_from_proto(ProtoHeader { key: "x".to_string(), value: "2".to_string() });
    assert_eq!(h.get("x"), Some(&"1, 2".to_string()));
}

#[test]
fn token_characters() {
    assert!(ProtoHeader::is_token('a'));
    assert!(ProtoHeader::is_token('Z'));
    assert!(ProtoHeader::is_token('7'));
    assert!(ProtoHeader::is_token('~'));
    assert!(!ProtoHeader::is_token(' '));
    assert!(!ProtoHeader::is_token(':'));
    assert!(!ProtoHeader::is_token('©'));
}
