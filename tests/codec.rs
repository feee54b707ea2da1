use dns_server::codec::DecodeError;
use dns_server::data::{Message, Opcode, QClass, QType, RCode};

fn label_texts(message: &Message, index: usize) -> Vec<Vec<u8>> {
    message.questions[index]
        .qname
        .labels()
        .iter()
        .map(|l| l.as_bytes().to_vec())
        .collect()
}

#[test]
fn decode_query() {
    let data: &[u8] = &[
        100, 68, 1, 0, 0, 1, 0, 0, 0, 0, 0, 1, 3, 102, 111, 111, 5, 108, 111, 99, 97, 108, 3,
        100, 101, 118, 0, 0, 255, 0, 1, 0, 0, 41, 2, 0, 0, 0, 0, 0, 0, 0,
    ];

    let message = Message::from_bytes(data).unwrap();
    println!("Message: {message:#?}");

    assert_eq!(message.header.id, 25668);
    assert_eq!(message.header.qdcount, 1);
    assert_eq!(message.header.arcount, 1);
    assert_eq!(message.header.flags.opcode, Opcode::Query);
    assert!(message.header.flags.rd);
    assert!(!message.header.flags.qr);
    assert_eq!(message.questions.len(), 1);
    assert_eq!(
        label_texts(&message, 0),
        vec![b"foo".to_vec(), b"local".to_vec(), b"dev".to_vec()]
    );
    assert_eq!(message.questions[0].qtype, QType::ANY);
    assert_eq!(message.questions[0].qclass, QClass::IN);
    assert_eq!(message.additionals.len(), 1);
    assert_eq!(message.additionals[0].qtype, QType::OPT);
    assert_eq!(message.additionals[0].qclass, QClass::NONE);
    assert_eq!(message.additionals[0].ttl, 0x0200_0000);
    assert_eq!(message.additionals[0].options_code, Some(0));
    assert_eq!(message.additionals[0].options_length, Some(0));
}

#[test]
fn decode_google() {
    let data: &[u8] = &[
        13, 208, 129, 128, 0, 1, 0, 1, 0, 0, 0, 0, 4, 110, 101, 119, 115, 11, 121, 99, 111, 109,
        98, 105, 110, 97, 116, 111, 114, 3, 99, 111, 109, 0, 0, 1, 0, 1, 192, 12, 0, 1, 0, 1, 0,
        0, 0, 1, 0, 4, 209, 216, 230, 240,
    ];

    let message = Message::from_bytes(data).unwrap();
    println!("Message: {message:#?}");

    assert_eq!(message.answers.len(), 1);
    assert_eq!(message.answers[0].name, message.questions[0].qname);
    assert_eq!(message.answers[0].data, vec![209, 216, 230, 240]);
    assert_eq!(message.header.flags.rcode, RCode::NoError);
    assert!(message.header.flags.qr);
}

#[test]
fn decode_unknown() {
    let data: &[u8] = &[
        58, 211, 129, 128, 0, 1, 0, 2, 0, 1, 0, 0, 13, 99, 111, 110, 102, 105, 103, 117, 114, 97,
        116, 105, 111, 110, 2, 108, 115, 5, 97, 112, 112, 108, 101, 3, 99, 111, 109, 0, 0, 65, 0,
        1, 192, 12, 0, 5, 0, 1, 0, 0, 13, 244, 0, 37, 10, 103, 115, 112, 101, 49, 49, 45, 115,
        115, 108, 2, 108, 115, 5, 97, 112, 112, 108, 101, 3, 99, 111, 109, 7, 101, 100, 103, 101,
        107, 101, 121, 3, 110, 101, 116, 0, 192, 56, 0, 5, 0, 1, 0, 0, 84, 68, 0, 26, 6, 101, 49,
        48, 52, 57, 57, 5, 100, 115, 99, 101, 57, 10, 97, 107, 97, 109, 97, 105, 101, 100, 103,
        101, 192, 88, 192, 112, 0, 6, 0, 1, 0, 0, 3, 204, 0, 50, 7, 110, 48, 100, 115, 99, 101,
        57, 192, 118, 10, 104, 111, 115, 116, 109, 97, 115, 116, 101, 114, 6, 97, 107, 97, 109,
        97, 105, 192, 35, 100, 43, 245, 193, 0, 0, 3, 232, 0, 0, 3, 232, 0, 0, 3, 232, 0, 0, 7, 8,
    ];

    let message = Message::from_bytes(data).unwrap();
    println!("Message: {message:#?}");

    assert_eq!(message.questions[0].qtype, QType::HTTPS);
    assert_eq!(message.answers.len(), 2);
    assert_eq!(message.authorities.len(), 1);
    assert_eq!(message.authorities[0].qtype, QType::SOA);
}

#[test]
fn truncated_header_is_rejected() {
    assert_eq!(
        Message::from_bytes(&[1, 2, 3]).unwrap_err(),
        DecodeError::Truncated
    );
}

#[test]
fn missing_question_is_truncated() {
    let data: &[u8] = &[0, 1, 1, 0, 0, 1, 0, 0, 0, 0, 0, 0];
    assert_eq!(
        Message::from_bytes(data).unwrap_err(),
        DecodeError::Truncated
    );
}

#[test]
fn unknown_opcode_is_invalid_enum() {
    // opcode 3 in bits 6..3 of the first flag byte
    let data: &[u8] = &[0, 1, 0b0001_1000, 0, 0, 0, 0, 0, 0, 0, 0, 0];
    assert_eq!(
        Message::from_bytes(data).unwrap_err(),
        DecodeError::InvalidEnum
    );
}

#[test]
fn unknown_rcode_is_invalid_enum() {
    let data: &[u8] = &[0, 1, 0, 9, 0, 0, 0, 0, 0, 0, 0, 0];
    assert_eq!(
        Message::from_bytes(data).unwrap_err(),
        DecodeError::InvalidEnum
    );
}

#[test]
fn unknown_qtype_is_invalid_enum() {
    let data: &[u8] = &[0, 1, 0, 0, 0, 1, 0, 0, 0, 0, 0, 0, 1, 97, 0, 0, 99, 0, 1];
    assert_eq!(
        Message::from_bytes(data).unwrap_err(),
        DecodeError::InvalidEnum
    );
}

#[test]
fn label_length_over_63_is_rejected() {
    let data: &[u8] = &[0, 1, 0, 0, 0, 1, 0, 0, 0, 0, 0, 0, 64, 97, 0, 0, 1, 0, 1];
    assert_eq!(
        Message::from_bytes(data).unwrap_err(),
        DecodeError::LabelTooLong
    );
    let data: &[u8] = &[0, 1, 0, 0, 0, 1, 0, 0, 0, 0, 0, 0, 191, 97, 0, 0, 1, 0, 1];
    assert_eq!(
        Message::from_bytes(data).unwrap_err(),
        DecodeError::LabelTooLong
    );
}

#[test]
fn forward_pointer_is_rejected() {
    // a pointer at offset 12 that targets offset 12 itself
    let data: &[u8] = &[0, 1, 0, 0, 0, 1, 0, 0, 0, 0, 0, 0, 192, 12, 0, 1, 0, 1];
    assert_eq!(
        Message::from_bytes(data).unwrap_err(),
        DecodeError::BadPointer
    );
    // a pointer past the end of the message
    let data: &[u8] = &[0, 1, 0, 0, 0, 1, 0, 0, 0, 0, 0, 0, 0xFF, 0xFF, 0, 1, 0, 1];
    assert_eq!(
        Message::from_bytes(data).unwrap_err(),
        DecodeError::BadPointer
    );
}

#[test]
fn pointer_loop_terminates_with_error() {
    // two names pointing at each other can only be built forward, so the second is refused
    let data: &[u8] = &[
        0, 1, 0, 0, 0, 2, 0, 0, 0, 0, 0, 0, 192, 18, 0, 1, 0, 1, 192, 12, 0, 1, 0, 1,
    ];
    assert_eq!(
        Message::from_bytes(data).unwrap_err(),
        DecodeError::BadPointer
    );
}

#[test]
fn long_name_is_rejected() {
    let mut data: Vec<u8> = vec![0, 1, 0, 0, 0, 1, 0, 0, 0, 0, 0, 0];
    for _ in 0..5 {
        data.push(63);
        data.extend(std::iter::repeat(b'a').take(63));
    }
    data.push(0);
    data.extend([0, 1, 0, 1]);
    assert_eq!(
        Message::from_bytes(&data).unwrap_err(),
        DecodeError::NameTooLong
    );
}

#[test]
fn trailing_bytes_are_ignored() {
    let data: &[u8] = &[0, 7, 0, 0, 0, 0, 0, 0, 0, 0, 0, 0, 9, 9, 9];
    let message = Message::from_bytes(data).unwrap();
    assert_eq!(message.header.id, 7);
    assert!(message.questions.is_empty());
}

#[test]
fn encode_recomputes_counts_and_round_trips() {
    let data: &[u8] = &[
        100, 68, 1, 0, 0, 1, 0, 0, 0, 0, 0, 1, 3, 102, 111, 111, 5, 108, 111, 99, 97, 108, 3,
        100, 101, 118, 0, 0, 255, 0, 1, 0, 0, 41, 2, 0, 0, 0, 0, 0, 0, 0,
    ];
    let mut message = Message::from_bytes(data).unwrap();
    assert_eq!(message.to_bytes().unwrap(), data.to_vec());

    message.header.qdcount = 9;
    message.header.arcount = 0;
    message.additionals[0].rdlength = 77;
    assert_eq!(message.to_bytes().unwrap(), data.to_vec());
}

#[test]
fn compressed_names_encode_literally() {
    let data: &[u8] = &[
        13, 208, 129, 128, 0, 1, 0, 1, 0, 0, 0, 0, 4, 110, 101, 119, 115, 11, 121, 99, 111, 109,
        98, 105, 110, 97, 116, 111, 114, 3, 99, 111, 109, 0, 0, 1, 0, 1, 192, 12, 0, 1, 0, 1, 0,
        0, 0, 1, 0, 4, 209, 216, 230, 240,
    ];
    let message = Message::from_bytes(data).unwrap();
    let bytes = message.to_bytes().unwrap();
    assert_eq!(bytes.len(), data.len() - 2 + 22);
    let again = Message::from_bytes(&bytes).unwrap();
    assert_eq!(again.answers[0].name, message.questions[0].qname);
    assert_eq!(again.answers[0].data, vec![209, 216, 230, 240]);
    assert_eq!(again.header, message.header);
}

#[test]
fn negative_ttl_round_trips() {
    let data: &[u8] = &[
        0, 1, 0, 0, 0, 0, 0, 1, 0, 0, 0, 0, 0, 0, 1, 0, 1, 0xFF, 0xFF, 0xFF, 0xFE, 0, 1, 42,
    ];
    let message = Message::from_bytes(data).unwrap();
    assert_eq!(message.answers[0].ttl, -2);
    assert_eq!(message.answers[0].data, vec![42]);
    assert_eq!(message.to_bytes().unwrap(), data.to_vec());
}
