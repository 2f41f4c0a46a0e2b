use exonum_core::json::{deserialize, serialize, JsonError, JsonMessage};
use exonum_core::message::{
    decode, FieldDecl, FieldKind, FieldValue, Message, MessageLayout, RawMessage, Signature,
};

fn layout() -> MessageLayout {
    MessageLayout {
        service_id: 777,
        message_id: 1,
        body_size: 17,
        fields: vec![
            FieldDecl { kind: FieldKind::Int, from: 0, to: 8 },
            FieldDecl { kind: FieldKind::Segment, from: 8, to: 16 },
            FieldDecl { kind: FieldKind::Int, from: 16, to: 17 },
        ],
    }
}

fn names() -> Vec<String> {
    vec!["first".to_string(), "memo".to_string(), "flag".to_string()]
}

fn decoded() -> Message {
    let m = Message::new_with_signature(
        &layout(),
        1,
        0,
        vec![FieldValue::Int(1), FieldValue::Bytes(b"hello".to_vec()), FieldValue::Int(255)],
        &Signature([42; 64]),
    );
    decode(&layout(), RawMessage::new(m.raw().as_bytes().clone())).ok().unwrap()
}

fn json_err(r: Result<Message, JsonError>) -> JsonError {
    match r {
        Ok(_) => panic!("accepted a mismatching message"),
        Err(e) => e,
    }
}

#[test]
fn json_round_trip_keeps_bytes_and_signature() {
    let m = decoded();
    let j = serialize(&names(), &m);
    assert_eq!(j.service_id, 777);
    assert_eq!(j.message_id, 1);
    assert_eq!(j.protocol_version, 1);
    assert_eq!(j.network_id, 0);
    assert_eq!(j.signature, vec![42u8; 64]);
    assert_eq!(j.body[1], ("memo".to_string(), FieldValue::Bytes(b"hello".to_vec())));
    let back = deserialize(&layout(), &names(), &j).ok().unwrap();
    assert_eq!(back.raw().as_bytes(), m.raw().as_bytes());
    assert_eq!(back.values(), m.values());
    assert_eq!(back.signature(), vec![42u8; 64]);
}

#[test]
fn json_body_order_does_not_matter() {
    let m = decoded();
    let mut j = serialize(&names(), &m);
    j.body.reverse();
    let back = deserialize(&layout(), &names(), &j).ok().unwrap();
    assert_eq!(back.raw().as_bytes(), m.raw().as_bytes());
}

#[test]
fn json_wrong_ids_fail() {
    let m = decoded();
    let mut j = serialize(&names(), &m);
    j.service_id = 778;
    assert_eq!(json_err(deserialize(&layout(), &names(), &j)), JsonError::ServiceIdMismatch);
    let mut j = serialize(&names(), &m);
    j.message_id = 2;
    assert_eq!(json_err(deserialize(&layout(), &names(), &j)), JsonError::MessageIdMismatch);
}

#[test]
fn json_missing_field_fails() {
    let m = decoded();
    let mut j = serialize(&names(), &m);
    j.body.remove(2);
    assert_eq!(json_err(deserialize(&layout(), &names(), &j)), JsonError::MissingField);
}

#[test]
fn json_field_of_wrong_kind_or_size_fails() {
    let m = decoded();
    let mut j = serialize(&names(), &m);
    j.body[2].1 = FieldValue::Int(256);
    assert_eq!(json_err(deserialize(&layout(), &names(), &j)), JsonError::FieldMismatch);
    let mut j = serialize(&names(), &m);
    j.body[0].1 = FieldValue::Bytes(Vec::new());
    assert_eq!(json_err(deserialize(&layout(), &names(), &j)), JsonError::FieldMismatch);
}

#[test]
fn json_short_signature_fails() {
    let j = JsonMessage {
        body: vec![
            ("first".to_string(), FieldValue::Int(1)),
            ("memo".to_string(), FieldValue::Bytes(Vec::new())),
            ("flag".to_string(), FieldValue::Int(0)),
        ],
        signature: vec![1, 2, 3],
        message_id: 1,
        service_id: 777,
        network_id: 0,
        protocol_version: 1,
    };
    assert_eq!(json_err(deserialize(&layout(), &names(), &j)), JsonError::BadSignature);
}

#[test]
fn json_signature_is_taken_as_given() {
    let m = decoded();
    let mut j = serialize(&names(), &m);
    j.signature = vec![0u8; 64];
    let back = deserialize(&layout(), &names(), &j).ok().unwrap();
    assert_eq!(back.signature(), vec![0u8; 64]);
    assert_eq!(back.values(), m.values());
}
