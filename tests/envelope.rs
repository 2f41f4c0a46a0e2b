use exonum_core::message::{
    decode, CodecError, FieldDecl, FieldKind, FieldValue, Message, MessageLayout, RawMessage,
    Signature, HEADER_SIZE, SIGNATURE_SIZE,
};

fn two_integers() -> MessageLayout {
    MessageLayout {
        service_id: 777,
        message_id: 1,
        body_size: 16,
        fields: vec![
            FieldDecl { kind: FieldKind::Int, from: 0, to: 8 },
            FieldDecl { kind: FieldKind::Int, from: 8, to: 16 },
        ],
    }
}

fn with_segments() -> MessageLayout {
    MessageLayout {
        service_id: 5,
        message_id: 2,
        body_size: 20,
        fields: vec![
            FieldDecl { kind: FieldKind::Segment, from: 0, to: 8 },
            FieldDecl { kind: FieldKind::Int, from: 8, to: 12 },
            FieldDecl { kind: FieldKind::Segment, from: 12, to: 20 },
        ],
    }
}

fn segment_values() -> Vec<FieldValue> {
    vec![
        FieldValue::Bytes(b"abc".to_vec()),
        FieldValue::Int(5),
        FieldValue::Bytes(b"xy".to_vec()),
    ]
}

fn sign_bytes() -> Signature {
    let mut s = [0u8; 64];
    for (i, b) in s.iter_mut().enumerate() {
        *b = i as u8 + 100;
    }
    Signature(s)
}

fn segment_message_bytes() -> Vec<u8> {
    let m = Message::new_with_signature(&with_segments(), 1, 0, segment_values(), &sign_bytes());
    m.raw().as_bytes().clone()
}

fn decode_bytes(layout: &MessageLayout, bytes: Vec<u8>) -> Result<Message, CodecError> {
    decode(layout, RawMessage::new(bytes))
}

fn err_of(r: Result<Message, CodecError>) -> CodecError {
    match r {
        Ok(_) => panic!("decoded a malformed envelope"),
        Err(e) => e,
    }
}

#[test]
fn two_integer_fields_decode_back() {
    let layout = two_integers();
    let m = Message::new_with_signature(
        &layout,
        1,
        0,
        vec![FieldValue::Int(1), FieldValue::Int(2)],
        &sign_bytes(),
    );
    let bytes = m.raw().as_bytes().clone();
    assert_eq!(bytes.len(), HEADER_SIZE + 16 + SIGNATURE_SIZE);
    assert_eq!(&bytes[..10], &[1, 0, 0x09, 0x03, 1, 0, 16, 0, 0, 0]);
    assert_eq!(&bytes[10..18], &[1, 0, 0, 0, 0, 0, 0, 0]);
    assert_eq!(&bytes[18..26], &[2, 0, 0, 0, 0, 0, 0, 0]);
    let d = decode_bytes(&layout, bytes.clone()).ok().unwrap();
    assert_eq!(d.values(), &vec![FieldValue::Int(1), FieldValue::Int(2)]);
    let h = d.header();
    assert_eq!(h.protocol_version, 1);
    assert_eq!(h.network_id, 0);
    assert_eq!(h.service_id, 777);
    assert_eq!(h.message_id, 1);
    assert_eq!(d.signature(), sign_bytes().0.to_vec());
    assert_eq!(d.raw().as_bytes(), &bytes);
}

#[test]
fn segments_decode_back_and_reencode_identically() {
    let layout = with_segments();
    let bytes = segment_message_bytes();
    // header, 20 bytes of slots, 5 bytes of segment data, signature
    assert_eq!(bytes.len(), 10 + 20 + 5 + 64);
    assert_eq!(&bytes[10..18], &[30, 0, 0, 0, 3, 0, 0, 0]);
    assert_eq!(&bytes[18..22], &[5, 0, 0, 0]);
    assert_eq!(&bytes[22..30], &[33, 0, 0, 0, 2, 0, 0, 0]);
    assert_eq!(&bytes[30..35], b"abcxy");
    let d = decode_bytes(&layout, bytes.clone()).ok().unwrap();
    assert_eq!(d.values(), &segment_values());
    let mut sig = [0u8; 64];
    sig.copy_from_slice(&d.signature());
    let again = Message::new_with_signature(
        &layout,
        d.header().protocol_version,
        d.header().network_id,
        d.values().clone(),
        &Signature(sig),
    );
    assert_eq!(again.raw().as_bytes(), &bytes);
}

#[test]
fn empty_segment_round_trips() {
    let layout = with_segments();
    let values = vec![
        FieldValue::Bytes(Vec::new()),
        FieldValue::Int(0xFFFF_FFFF),
        FieldValue::Bytes(Vec::new()),
    ];
    let m = Message::new_with_signature(&layout, 0, 0, values.clone(), &sign_bytes());
    let d = decode_bytes(&layout, m.raw().as_bytes().clone()).ok().unwrap();
    assert_eq!(d.values(), &values);
}

#[test]
fn overlapping_segments_are_rejected() {
    let mut bytes = segment_message_bytes();
    // the second segment now claims to start inside the first one
    bytes[22] = 32;
    assert_eq!(err_of(decode_bytes(&with_segments(), bytes)), CodecError::SegmentMisplaced);
}

#[test]
fn gap_between_segments_is_rejected() {
    let mut bytes = segment_message_bytes();
    bytes[22] = 34;
    assert_eq!(err_of(decode_bytes(&with_segments(), bytes)), CodecError::SegmentMisplaced);
}

#[test]
fn first_segment_must_start_after_body() {
    let mut bytes = segment_message_bytes();
    bytes[10] = 29;
    assert_eq!(err_of(decode_bytes(&with_segments(), bytes)), CodecError::SegmentMisplaced);
}

#[test]
fn segment_into_signature_is_rejected() {
    let mut bytes = segment_message_bytes();
    bytes[26] = 100;
    assert_eq!(err_of(decode_bytes(&with_segments(), bytes)), CodecError::SegmentOutOfBounds);
}

#[test]
fn bytes_after_segments_are_rejected() {
    let mut bytes = segment_message_bytes();
    bytes.insert(35, 0);
    assert_eq!(err_of(decode_bytes(&with_segments(), bytes)), CodecError::TrailingData);
}

#[test]
fn wrong_service_id_is_rejected() {
    let bytes = segment_message_bytes();
    let mut layout = with_segments();
    layout.service_id = 6;
    assert_eq!(err_of(decode_bytes(&layout, bytes)), CodecError::ServiceIdMismatch);
}

#[test]
fn wrong_message_id_is_rejected() {
    let bytes = segment_message_bytes();
    let mut layout = with_segments();
    layout.message_id = 3;
    assert_eq!(err_of(decode_bytes(&layout, bytes)), CodecError::MessageIdMismatch);
}

#[test]
fn wrong_body_size_is_rejected() {
    let mut bytes = segment_message_bytes();
    bytes[6] = 21;
    assert_eq!(err_of(decode_bytes(&with_segments(), bytes)), CodecError::BodySizeMismatch);
}

#[test]
fn short_buffer_is_rejected() {
    let bytes = vec![0u8; 20];
    assert_eq!(err_of(decode_bytes(&two_integers(), bytes)), CodecError::TooShort);
}

#[test]
fn signing_bytes_are_the_envelope_without_signature() {
    let layout = with_segments();
    let signed = exonum_core::message::signing_bytes(&layout, 1, 0, &segment_values());
    let whole = segment_message_bytes();
    assert_eq!(signed.len(), whole.len() - SIGNATURE_SIZE);
    assert_eq!(&whole[..signed.len()], &signed[..]);
}

#[test]
fn layout_validity() {
    assert!(two_integers().is_valid());
    assert!(with_segments().is_valid());
    let overlapping = MessageLayout {
        service_id: 777,
        message_id: 1,
        body_size: 16,
        fields: vec![
            FieldDecl { kind: FieldKind::Int, from: 0, to: 12 },
            FieldDecl { kind: FieldKind::Int, from: 8, to: 16 },
        ],
    };
    assert!(!overlapping.is_valid());
    let overlapping_segments = MessageLayout {
        service_id: 777,
        message_id: 1,
        body_size: 16,
        fields: vec![
            FieldDecl { kind: FieldKind::Segment, from: 0, to: 8 },
            FieldDecl { kind: FieldKind::Segment, from: 4, to: 12 },
        ],
    };
    assert!(!overlapping_segments.is_valid());
    let gap = MessageLayout {
        service_id: 1,
        message_id: 1,
        body_size: 9,
        fields: vec![FieldDecl { kind: FieldKind::Int, from: 1, to: 9 }],
    };
    assert!(!gap.is_valid());
    let narrow_segment = MessageLayout {
        service_id: 1,
        message_id: 1,
        body_size: 4,
        fields: vec![FieldDecl { kind: FieldKind::Segment, from: 0, to: 4 }],
    };
    assert!(!narrow_segment.is_valid());
    let empty = MessageLayout { service_id: 1, message_id: 1, body_size: 0, fields: Vec::new() };
    assert!(empty.is_valid());
}

#[test]
fn empty_layout_round_trips() {
    let layout = MessageLayout { service_id: 1, message_id: 9, body_size: 0, fields: Vec::new() };
    let m = Message::new_with_signature(&layout, 3, 4, Vec::new(), &sign_bytes());
    let bytes = m.raw().as_bytes().clone();
    assert_eq!(bytes.len(), HEADER_SIZE + SIGNATURE_SIZE);
    let d = decode_bytes(&layout, bytes).ok().unwrap();
    assert!(d.values().is_empty());
    assert_eq!(d.header().network_id, 4);
}
