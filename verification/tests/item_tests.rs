use gateway_kinesis_lambda_test::item::Item;

fn decode_ok(payload: &[u8]) -> Item {
    match Item::decode(&payload.to_vec()) {
        Ok(item) => item,
        Err(_) => panic!("payload should decode"),
    }
}

fn decode_fails(payload: &[u8]) -> bool {
    Item::decode(&payload.to_vec()).is_err()
}

#[test]
fn item_deserialization() {
    let item = decode_ok(br#"{"id":1,"description":"blah","count":0}"#);
    assert_eq!(1, item.id);
    assert_eq!("blah", item.description);
    assert_eq!(0, item.count);
}

#[test]
fn decode_roundtrip_on_canonical_encoding() {
    let item = decode_ok(br#"{"id":-42,"description":"hello world","count":7}"#);
    assert_eq!(-42, item.id);
    assert_eq!("hello world", item.description);
    assert_eq!(7, item.count);
}

#[test]
fn decode_accepts_any_member_order_and_whitespace() {
    let item = decode_ok(b" { \"count\" : 5 , \"description\" : \"x\" , \"id\" : 2 } ");
    assert_eq!(2, item.id);
    assert_eq!("x", item.description);
    assert_eq!(5, item.count);
}

#[test]
fn decode_handles_escapes() {
    let item = decode_ok(br#"{"id":1,"description":"a\"b\\c\nd\t","count":2}"#);
    assert_eq!("a\"b\\c\nd\t", item.description);
}

#[test]
fn decode_ignores_unknown_scalar_members() {
    let item = decode_ok(
        br#"{"id":3,"flag":true,"description":"y","nothing":null,"count":4,"extra":"z","neg":-9}"#,
    );
    assert_eq!(3, item.id);
    assert_eq!("y", item.description);
    assert_eq!(4, item.count);
}

#[test]
fn decode_ignores_unknown_members_of_any_shape() {
    let item = decode_ok(
        br#"{"list":[1,"two",{"x":[]},null],"id":6,"obj":{"a":{"b":[false]}},"description":"y","f":-2.75e-3,"big":184467440737095516150,"count":7}"#,
    );
    assert_eq!(6, item.id);
    assert_eq!("y", item.description);
    assert_eq!(7, item.count);
}

#[test]
fn decode_accepts_full_string_content() {
    let item = decode_ok(
        "{\"id\":1,\"description\":\"caf\u{e9} \u{2603} \u{1f600}\",\"count\":2}".as_bytes(),
    );
    assert_eq!("caf\u{e9} \u{2603} \u{1f600}", item.description);
}

#[test]
fn decode_handles_unicode_escapes() {
    let item = decode_ok(br#"{"id":1,"description":"AB\u00e9\u2603\ud83d\ude00\u0000","count":2}"#);
    assert_eq!("AB\u{e9}\u{2603}\u{1f600}\u{0}", item.description);
}

#[test]
fn decode_rejects_lone_surrogate_escapes() {
    assert!(decode_fails(br#"{"id":1,"description":"\ud800","count":2}"#));
    assert!(decode_fails(br#"{"id":1,"description":"\udc00","count":2}"#));
    assert!(decode_fails(br#"{"id":1,"description":"\ud83dx","count":2}"#));
}

#[test]
fn decode_rejects_invalid_utf8_content() {
    let mut payload = br#"{"id":1,"description":""#.to_vec();
    payload.push(0xff);
    payload.extend_from_slice(br#"","count":2}"#);
    assert!(Item::decode(&payload).is_err());
}

#[test]
fn decode_rejects_malformed_unknown_members() {
    assert!(decode_fails(br#"{"e":[1,,2],"id":1,"description":"x","count":0}"#));
    assert!(decode_fails(br#"{"e":{"a":},"id":1,"description":"x","count":0}"#));
    assert!(decode_fails(br#"{"e":01,"id":1,"description":"x","count":0}"#));
    assert!(decode_fails(br#"{"e":1.,"id":1,"description":"x","count":0}"#));
}

#[test]
fn decode_extreme_identifiers() {
    let item = decode_ok(
        br#"{"id":9223372036854775807,"description":"max","count":-9223372036854775808}"#,
    );
    assert_eq!(i64::MAX, item.id);
    assert_eq!(i64::MIN, item.count);
}

#[test]
fn encode_then_decode_is_identity() {
    let item = Item {
        id: -123456789,
        description: String::from("plain text 42"),
        count: 987654321,
    };
    let payload = item.encode();
    assert_eq!(
        br#"{"id":-123456789,"description":"plain text 42","count":987654321}"#.to_vec(),
        payload
    );
    let back = decode_ok(&payload);
    assert_eq!(item.id, back.id);
    assert_eq!(item.description, back.description);
    assert_eq!(item.count, back.count);
}

#[test]
fn encode_zero_and_extremes() {
    let item = Item { id: 0, description: String::new(), count: i64::MIN };
    let payload = item.encode();
    assert_eq!(
        br#"{"id":0,"description":"","count":-9223372036854775808}"#.to_vec(),
        payload
    );
    let back = decode_ok(&payload);
    assert_eq!(0, back.id);
    assert_eq!("", back.description);
    assert_eq!(i64::MIN, back.count);
}

#[test]
fn encode_escapes_and_decodes_any_description() {
    let item = Item {
        id: 5,
        description: String::from("a\"b\\c\nd\u{e9}\u{1f600}"),
        count: 6,
    };
    let payload = item.encode();
    assert_eq!(
        br#"{"id":5,"description":"a\u0022b\u005cc\u000ad\u00e9\ud83d\ude00","count":6}"#.to_vec(),
        payload
    );
    let back = decode_ok(&payload);
    assert_eq!(item.id, back.id);
    assert_eq!(item.description, back.description);
    assert_eq!(item.count, back.count);
}

#[test]
fn decode_rejects_missing_required_members() {
    assert!(decode_fails(br#"{"bad":"data"}"#));
    assert!(decode_fails(br#"{"id":1,"count":0}"#));
    assert!(decode_fails(br#"{"id":1,"description":"x"}"#));
    assert!(decode_fails(br#"{"description":"x","count":0}"#));
    assert!(decode_fails(br#"{}"#));
}

#[test]
fn decode_rejects_malformed_payloads() {
    assert!(decode_fails(b""));
    assert!(decode_fails(b"not json"));
    assert!(decode_fails(br#"{"id":1,"description":"blah","count":0"#));
    assert!(decode_fails(br#"{"id":1,"description":"blah","count":0}x"#));
    assert!(decode_fails(br#"["id",1]"#));
}

#[test]
fn decode_rejects_mistyped_members() {
    assert!(decode_fails(br#"{"id":"1","description":"x","count":0}"#));
    assert!(decode_fails(br#"{"id":1,"description":5,"count":0}"#));
    assert!(decode_fails(br#"{"id":1,"description":"x","count":null}"#));
}

#[test]
fn decode_rejects_repeated_required_members() {
    assert!(decode_fails(br#"{"id":1,"id":2,"description":"x","count":0}"#));
    assert!(decode_fails(br#"{"id":1,"description":"x","description":"y","count":0}"#));
}

#[test]
fn decode_rejects_numbers_outside_the_wire_range() {
    assert!(decode_fails(br#"{"id":9223372036854775808,"description":"x","count":0}"#));
    assert!(decode_fails(br#"{"id":1,"description":"x","count":-9223372036854775809}"#));
    assert!(decode_fails(br#"{"id":01,"description":"x","count":0}"#));
    assert!(decode_fails(br#"{"id":1.5,"description":"x","count":0}"#));
}

#[test]
fn decode_error_message_is_descriptive() {
    let payload: Vec<u8> = b"nonsense".to_vec();
    match Item::decode(&payload) {
        Ok(_) => panic!("nonsense should not decode"),
        Err(e) => assert_eq!("payload is not a well-formed item record", e.message()),
    }
}
