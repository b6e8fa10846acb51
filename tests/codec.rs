use http_engine::form::decode;
use http_engine::web::form_name;

#[test]
fn decode_plus_and_percent() {
    assert_eq!(decode("a+b%41%62").unwrap(), "a bAb");
}

#[test]
fn decode_plain_text_unchanged() {
    assert_eq!(decode("hello-world_1.~").unwrap(), "hello-world_1.~");
}

#[test]
fn decode_empty() {
    assert_eq!(decode("").unwrap(), "");
}

#[test]
fn decode_high_byte_is_one_char() {
    assert_eq!(decode("%E9").unwrap(), "\u{e9}");
}

#[test]
fn decode_rejects_bad_hex() {
    assert!(decode("%zz").is_err());
    assert!(decode("ab%4").is_err());
    assert!(decode("%").is_err());
}

#[test]
fn decode_round_trip_example() {
    // "a b&c" encoded with plus for space and escapes for reserved characters
    assert_eq!(decode("a+b%26c").unwrap(), "a b&c");
    assert_eq!(decode("%00%FF+x").unwrap(), "\u{0}\u{ff} x");
}

#[test]
fn form_name_decodes_value() {
    assert_eq!(form_name("x=1&name=John+Doe%21&y=2"), "John Doe!");
}

#[test]
fn form_name_falls_back_to_raw_value() {
    assert_eq!(form_name("name=50%zz"), "50%zz");
}

#[test]
fn form_name_missing_gives_unknown() {
    assert_eq!(form_name("nick=bob"), "Unknown");
    assert_eq!(form_name(""), "Unknown");
}

#[test]
fn decode_undoes_encoding_of_every_byte() {
    let mut text = String::new();
    let mut encoded = String::new();
    for b in 0u32..256 {
        let c = char::from_u32(b).unwrap();
        text.push(c);
        if c.is_ascii_alphanumeric() || "-._~".contains(c) {
            encoded.push(c);
        } else if c == ' ' {
            encoded.push('+');
        } else {
            encoded.push_str(&format!("%{:02X}", b));
        }
    }
    assert_eq!(decode(&encoded).unwrap(), text);
}
