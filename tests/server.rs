use dns_server::codec::{DecodeError, EncodeError};
use dns_server::data::{Header, Message, Name, Opcode, QClass, QType, Question, RCode};
use dns_server::db::Db;
use dns_server::record::Record;
use dns_server::server::{answer_question, dispatch, handle_message, relay, Action, ANSWER_TTL};
use dns_server::zone::parse_zone;

fn query(id: u16, names: &[&str], qtype: u16) -> Vec<u8> {
    let mut out = vec![(id >> 8) as u8, id as u8, 1, 0, 0, names.len() as u8, 0, 0, 0, 0, 0, 0];
    for name in names {
        out.extend(Name::new(name.to_string()).to_bytes());
        out.extend([(qtype >> 8) as u8, qtype as u8, 0, 1]);
    }
    out
}

fn zone() -> Db {
    parse_zone("example.com CNAME www.example.com\n*.local.dev A 127.0.0.1\n").unwrap()
}

#[test]
fn wildcard_answer_carries_address_bytes() {
    let db = zone();
    let reply = match dispatch(&db, &query(4660, &["denis.local.dev"], 1)) {
        Action::Reply(bytes) => bytes,
        other => panic!("expected a reply, got {other:?}"),
    };
    let message = Message::from_bytes(&reply).unwrap();
    assert_eq!(message.header.id, 4660);
    assert!(message.header.flags.qr);
    assert!(message.header.flags.aa);
    assert!(!message.header.flags.rd);
    assert_eq!(message.header.flags.opcode, Opcode::Query);
    assert_eq!(message.header.flags.rcode, RCode::NoError);
    assert_eq!(message.header.ancount, 1);
    assert_eq!(message.header.qdcount, 0);
    assert_eq!(message.answers.len(), 1);
    assert_eq!(message.answers[0].data, vec![127, 0, 0, 1]);
    assert_eq!(message.answers[0].qtype, QType::A);
    assert_eq!(message.answers[0].qclass, QClass::IN);
    assert_eq!(message.answers[0].ttl, ANSWER_TTL);
    assert_eq!(
        message.answers[0].name,
        Name::new("denis.local.dev".to_string())
    );
}

#[test]
fn cname_answer_carries_encoded_target() {
    let db = zone();
    let reply = match dispatch(&db, &query(1, &["example.com"], 5)) {
        Action::Reply(bytes) => bytes,
        other => panic!("expected a reply, got {other:?}"),
    };
    let message = Message::from_bytes(&reply).unwrap();
    assert_eq!(
        message.answers[0].data,
        Name::new("www.example.com".to_string()).to_bytes()
    );
    assert_eq!(
        message.answers[0].data,
        vec![3, 119, 119, 119, 7, 101, 120, 97, 109, 112, 108, 101, 3, 99, 111, 109, 0]
    );
    assert_eq!(message.answers[0].rdlength, 17);
}

#[test]
fn unknown_name_is_forwarded_and_reply_relayed_verbatim() {
    let db = zone();
    let request = query(9, &["nowhere.example.org"], 1);
    assert!(matches!(dispatch(&db, &request), Action::Forward));

    let upstream: Vec<u8> = vec![
        0, 9, 129, 128, 0, 1, 0, 1, 0, 0, 0, 0, 1, 120, 0, 0, 1, 0, 1, 192, 12, 0, 1, 0, 1, 0, 0,
        0, 60, 0, 4, 10, 0, 0, 1,
    ];
    assert_eq!(relay(&upstream), Some(upstream.clone()));
}

#[test]
fn undecodable_upstream_reply_is_not_relayed() {
    assert_eq!(relay(&[1, 2, 3]), None);
}

#[test]
fn one_missing_question_forwards_the_whole_request() {
    let db = zone();
    let request = query(2, &["denis.local.dev", "missing.dev"], 1);
    assert!(matches!(dispatch(&db, &request), Action::Forward));
}

#[test]
fn wrong_type_is_forwarded() {
    let db = zone();
    assert!(matches!(
        dispatch(&db, &query(3, &["denis.local.dev"], 5)),
        Action::Forward
    ));
}

#[test]
fn any_type_is_answered_locally() {
    let db = zone();
    assert!(matches!(
        dispatch(&db, &query(3, &["denis.local.dev"], 255)),
        Action::Reply(_)
    ));
}

#[test]
fn malformed_request_is_dropped() {
    let db = zone();
    assert!(matches!(
        dispatch(&db, &[0, 1, 2]),
        Action::Undecodable(DecodeError::Truncated)
    ));
}

#[test]
fn two_questions_get_two_answers() {
    let db = zone();
    let request = Message::from_bytes(&query(7, &["a.local.dev", "b.local.dev"], 1)).unwrap();
    let response = handle_message(&db, &request).unwrap().unwrap();
    assert_eq!(response.answers.len(), 2);
    assert_eq!(response.header.ancount, 2);
    assert_eq!(response.header.id, 7);
    assert!(response.questions.is_empty());
}

#[test]
fn status_opcode_is_kept_in_response() {
    let db = zone();
    let mut bytes = query(7, &["a.local.dev"], 1);
    bytes[2] = 2 << 3;
    let request = Message::from_bytes(&bytes).unwrap();
    let response = handle_message(&db, &request).unwrap().unwrap();
    assert_eq!(response.header.flags.opcode, Opcode::Status);
}

#[test]
fn oversized_text_record_cannot_be_answered() {
    let mut db = Db::new();
    let name = Name::new("t.dev".to_string());
    db.insert(
        &name,
        Record::TXT {
            text: "x".repeat(300),
        },
    );
    let question = Question {
        qname: name,
        qtype: QType::TXT,
        qclass: QClass::IN,
    };
    assert_eq!(
        answer_question(&db, &question).unwrap_err(),
        EncodeError::Unrepresentable
    );
}

#[test]
fn text_record_answer() {
    let mut db = Db::new();
    let name = Name::new("t.dev".to_string());
    db.insert(
        &name,
        Record::TXT {
            text: "hi".to_string(),
        },
    );
    let question = Question {
        qname: name.clone(),
        qtype: QType::TXT,
        qclass: QClass::IN,
    };
    let answer = answer_question(&db, &question).unwrap().unwrap();
    assert_eq!(answer.data, vec![2, 104, 105]);
    assert_eq!(answer.rdlength, 3);
    assert_eq!(answer.qtype, QType::TXT);
    assert_eq!(answer.name, name);
}

#[test]
fn header_counts_in_response_follow_answers() {
    let db = zone();
    let request = Message::from_bytes(&query(7, &["a.local.dev"], 1)).unwrap();
    let response = handle_message(&db, &request).unwrap().unwrap();
    let expected = Header {
        id: 7,
        flags: dns_server::data::Flags::answer(Opcode::Query),
        qdcount: 0,
        ancount: 1,
        nscount: 0,
        arcount: 0,
    };
    assert_eq!(response.header, expected);
}

#[test]
fn unencodable_answer_is_dropped() {
    let mut db = Db::new();
    db.insert(
        &Name::new("big.dev".to_string()),
        Record::TXT {
            text: "x".repeat(256),
        },
    );
    assert!(matches!(
        dispatch(&db, &query(5, &["big.dev"], 16)),
        Action::Unencodable(EncodeError::Unrepresentable)
    ));
}

#[test]
fn miss_after_unencodable_answer_still_forwards() {
    let mut db = Db::new();
    db.insert(
        &Name::new("big.dev".to_string()),
        Record::TXT {
            text: "x".repeat(300),
        },
    );
    let request = query(6, &["big.dev", "missing.dev"], 16);
    assert!(matches!(dispatch(&db, &request), Action::Forward));
    let message = Message::from_bytes(&request).unwrap();
    assert!(handle_message(&db, &message).unwrap().is_none());
}
