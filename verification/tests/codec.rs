use comic_sync::codec::{
    disconnect_message, encode_comic_message, encode_page_message, parse_inbound, parse_object,
};

#[test]
fn encodes_page_message() {
    assert_eq!(encode_page_message("X", "5"), "{\"comic\":\"X\",\"page\":\"5\"}");
    assert_eq!(
        encode_page_message("One Piece", "ch1_p8.jpg"),
        "{\"comic\":\"One Piece\",\"page\":\"ch1_p8.jpg\"}"
    );
}

#[test]
fn encodes_comic_message() {
    assert_eq!(encode_comic_message("X"), "{\"comic\":\"X\"}");
}

#[test]
fn encodes_disconnect_notice() {
    assert_eq!(disconnect_message(), "{\"disconnect\":true}");
}

#[test]
fn escapes_special_characters() {
    assert_eq!(
        encode_page_message("a\"b", "c\\d"),
        "{\"comic\":\"a\\\"b\",\"page\":\"c\\\\d\"}"
    );
    assert_eq!(encode_comic_message("a\nb"), "{\"comic\":\"a\\u000ab\"}");
}

#[test]
fn parses_page_turn_frame() {
    let r = parse_inbound("{\"comic\":\"X\",\"page\":\"5\"}").unwrap();
    assert_eq!(r.0, "X");
    assert_eq!(r.1.as_deref(), Some("5"));
}

#[test]
fn parses_query_frame() {
    let r = parse_inbound("{\"comic\":\"X\"}").unwrap();
    assert_eq!(r.0, "X");
    assert!(r.1.is_none());
}

#[test]
fn parses_whitespace_and_escapes() {
    let r = parse_inbound(" { \"comic\" : \"\\u0041\\n\\\"\" } ").unwrap();
    assert_eq!(r.0, "A\n\"");
    assert!(r.1.is_none());
}

#[test]
fn later_binding_of_a_key_wins() {
    let r = parse_inbound("{\"comic\":\"X\",\"comic\":\"Y\"}").unwrap();
    assert_eq!(r.0, "Y");
}

#[test]
fn rejects_malformed_frames() {
    assert!(parse_inbound("").is_none());
    assert!(parse_inbound("not json").is_none());
    assert!(parse_inbound("{\"comic\":\"X\"").is_none());
    assert!(parse_inbound("{\"page\":\"5\"}").is_none());
    assert!(parse_inbound("{\"comic\":5}").is_none());
    assert!(parse_inbound("{\"comic\":\"X\",\"page\":5}").is_none());
    assert!(parse_inbound("{\"comic\":\"X\"}garbage").is_none());
    assert!(parse_inbound("{\"comic\":\"\\uD800\"}").is_none());
    assert!(parse_inbound("[\"comic\"]").is_none());
}

#[test]
fn reads_back_what_it_writes() {
    let text = encode_page_message("spaced name", "p\"41\\x");
    let pairs = parse_object(&text).unwrap();
    assert_eq!(pairs.len(), 2);
    assert_eq!(pairs[0].0, "comic");
    assert_eq!(pairs[0].1, "spaced name");
    assert_eq!(pairs[1].0, "page");
    assert_eq!(pairs[1].1, "p\"41\\x");
}

#[test]
fn parses_empty_object() {
    let pairs = parse_object("  { }  ").unwrap();
    assert!(pairs.is_empty());
}
