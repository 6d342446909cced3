use ladder_legends_uploader::query::{encode_query_value, decode_query_value};

#[test]
fn test_url_encoding_korean_player_name() {
    // Non-ASCII characters are percent-encoded, not sent as raw text.
    let encoded = encode_query_value("홍길동");
    assert!(!encoded.contains("홍길동"), "Korean chars should be encoded");
    assert!(encoded.contains("%"), "Should contain percent-encoded chars");
    // And they decode back to the exact original.
    assert_eq!(decode_query_value(&encoded), Some("홍길동".to_string()));
}

#[test]
fn test_url_encoding_special_characters() {
    // Reserved characters in the value are encoded, not taken for separators.
    let encoded = encode_query_value("Player&Name=Test");
    assert!(!encoded.contains("&"), "& should be encoded in value");
    assert!(encoded.contains("%26"), "& should be percent-encoded");
    assert!(encoded.contains("%3D"), "= should be percent-encoded");
    assert_eq!(decode_query_value(&encoded), Some("Player&Name=Test".to_string()));
}

#[test]
fn test_url_encoding_spaces() {
    let encoded = encode_query_value("Player Name");
    assert!(!encoded.contains(" "), "Spaces should be encoded");
    assert!(encoded.contains("%20"));
    assert_eq!(decode_query_value(&encoded), Some("Player Name".to_string()));
}

#[test]
fn test_url_encoding_unreserved_passthrough() {
    let encoded = encode_query_value("Lotus-2.0_~ok");
    assert_eq!(encoded, "Lotus-2.0_~ok");
    assert_eq!(decode_query_value(&encoded), Some("Lotus-2.0_~ok".to_string()));
}

#[test]
fn test_url_decoding_plus_and_invalid() {
    // A plus sign decodes as a space, as in form encoding.
    assert_eq!(decode_query_value("a+b"), Some("a b".to_string()));
    // A dangling or malformed escape is no valid encoding.
    assert_eq!(decode_query_value("%2"), None);
    assert_eq!(decode_query_value("%zz"), None);
    // Raw non-ASCII text is not a valid encoded value.
    assert_eq!(decode_query_value("홍"), None);
}

#[test]
fn test_url_round_trip_mixed() {
    let value = "Lotus 홍길동&=+%100";
    let encoded = encode_query_value(value);
    assert_eq!(decode_query_value(&encoded), Some(value.to_string()));
}
