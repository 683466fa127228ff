use fileshare::client_string::{ClientString, DecodeError};

#[test]
fn encode_space_and_ampersand() {
    let c = ClientString::from_client("a b&c");
    assert_eq!(c.encoded(), "a%20b%26c");
}

#[test]
fn encode_escapes_percent_itself() {
    let c = ClientString::from_client("100%20");
    assert_eq!(c.encoded(), "100%2520");
}

#[test]
fn encode_keeps_plain_names() {
    let c = ClientString::from_client("notes.txt");
    assert_eq!(c.encoded(), "notes.txt");
}

#[test]
fn encode_reserved_set() {
    let c = ClientString::from_client("<a>\"b\"`c`");
    assert_eq!(c.encoded(), "%3Ca%3E%22b%22%60c%60");
}

#[test]
fn round_trip_plain() {
    let original = "my file & \"quotes\" <tag> `tick` 100%";
    let c = ClientString::from_client(original);
    assert_eq!(c.plain().unwrap(), original);
}

#[test]
fn round_trip_non_ascii() {
    let original = "caf\u{e9} r\u{e9}sum\u{e9}";
    let c = ClientString::from_client(original);
    assert_eq!(c.plain().unwrap(), original);
}

#[test]
fn encoded_form_has_no_reserved_byte() {
    let c = ClientString::from_client("a b\"c<d>e`f&g");
    let e = c.encoded();
    for b in e.bytes() {
        assert!(b >= 0x20 && b != 0x22 && b != 0x3c && b != 0x3e && b != 0x60 && b != 0x26);
    }
}

#[test]
fn from_url_keeps_encoded_form() {
    let c = ClientString::from_url("a%20b");
    assert_eq!(c.encoded(), "a%20b");
    assert_eq!(c.plain().unwrap(), "a b");
}

#[test]
fn malformed_escape_is_reported() {
    let c = ClientString::from_url("bad%zzname");
    assert_eq!(c.plain().unwrap_err(), DecodeError::MalformedEscape);
}

#[test]
fn truncated_escape_is_reported() {
    let c = ClientString::from_url("bad%2");
    assert_eq!(c.plain().unwrap_err(), DecodeError::MalformedEscape);
}

#[test]
fn invalid_utf8_is_reported() {
    let c = ClientString::from_url("bad%FFname");
    assert_eq!(c.plain().unwrap_err(), DecodeError::InvalidUtf8);
}

#[test]
fn multi_byte_escapes_decode() {
    let c = ClientString::from_url("caf%C3%A9");
    assert_eq!(c.plain().unwrap(), "caf\u{e9}");
}

#[test]
fn empty_name() {
    let c = ClientString::from_client("");
    assert_eq!(c.encoded(), "");
    assert_eq!(c.plain().unwrap(), "");
    assert!(c.is_empty());
}

#[test]
fn name_order_and_equality() {
    let a = ClientString::from_client("alpha");
    let b = ClientString::from_client("beta");
    assert!(a.le_name(&b));
    assert!(!b.le_name(&a));
    assert!(a.le_name(&a));
    assert!(a.eq_name(&a.clone()));
    assert!(!a.eq_name(&b));
}
