use dns_server::codec::EncodeError;
use dns_server::data::{
    Flags, Header, Label, Message, Name, Opcode, QClass, QType, Question, RCode, ResourceRecord,
};
use dns_server::record::{Record, RecordMap};

#[test]
fn answer_flags() {
    let flags = Flags::answer(Opcode::IQuery);
    assert!(flags.qr && flags.aa);
    assert!(!flags.tc && !flags.rd && !flags.ra);
    assert_eq!(flags.z, 0);
    assert_eq!(flags.opcode, Opcode::IQuery);
    assert_eq!(flags.rcode, RCode::NoError);
}

#[test]
fn type_and_class_codes() {
    assert_eq!(QType::AAAA.code(), 28);
    assert_eq!(QType::from_code(41), Some(QType::OPT));
    assert_eq!(QType::from_code(17), None);
    assert_eq!(QClass::from_code(255), Some(QClass::ANY));
    assert_eq!(QClass::from_code(5), None);
    assert_eq!(Opcode::from_code(2), Some(Opcode::Status));
    assert_eq!(RCode::from_code(6), None);
    assert_eq!(RCode::Refused.code(), 5);
}

#[test]
fn type_names() {
    assert_eq!(QType::from_mnemonic(b"CNAME"), Some(QType::CNAME));
    assert_eq!(QType::from_mnemonic(b"HTTPS"), Some(QType::HTTPS));
    assert_eq!(QType::from_mnemonic(b"cname"), None);
    assert_eq!(QType::MAILB.mnemonic(), b"MAILB".to_vec());
}

#[test]
fn name_text_and_wire_form() {
    let name = Name::new("www.example.com".to_string());
    assert_eq!(name.labels().len(), 3);
    assert_eq!(name.to_text(), b"www.example.com.".to_vec());
    assert_eq!(
        name.to_bytes(),
        vec![3, 119, 119, 119, 7, 101, 120, 97, 109, 112, 108, 101, 3, 99, 111, 109, 0]
    );
    assert!(!name.is_empty());
    let root = Name::root();
    assert!(root.is_empty());
    assert_eq!(root.to_text(), b".".to_vec());
    assert_eq!(root.to_bytes(), vec![0]);
}

#[test]
fn name_from_text_checks_labels() {
    let long = "y".repeat(64);
    assert!(Name::from_text(format!("a.{long}").as_bytes()).is_none());
    assert!(Name::from_text("y".repeat(63).as_bytes()).is_some());
}

#[test]
fn labels_as_text() {
    let label = Label::new("foo".to_string());
    assert_eq!(label.as_str(), Some("foo"));
    assert_eq!(label.as_bytes(), b"foo");
    assert_eq!(label.len(), 3);
    assert!(Label::new("*".to_string()).is_star());
    assert_eq!(Label::from_bytes(vec![0xff, 0xfe]).as_str(), None);
}

fn record(name: &str, data: Vec<u8>) -> ResourceRecord {
    ResourceRecord {
        name: Name::new(name.to_string()),
        qtype: QType::A,
        qclass: QClass::IN,
        ttl: 5,
        rdlength: data.len() as u16,
        data,
        options_code: None,
        options_length: None,
    }
}

fn message(answers: Vec<ResourceRecord>) -> Message {
    Message {
        header: Header {
            id: 1,
            flags: Flags::answer(Opcode::Query),
            qdcount: 0,
            ancount: 0,
            nscount: 0,
            arcount: 0,
        },
        questions: vec![Question {
            qname: Name::new("q.dev".to_string()),
            qtype: QType::A,
            qclass: QClass::IN,
        }],
        answers,
        authorities: vec![],
        additionals: vec![],
    }
}

#[test]
fn unrepresentable_messages_are_refused() {
    let empty_label = message(vec![record("a..dev", vec![1, 2, 3, 4])]);
    assert_eq!(empty_label.to_bytes(), Err(EncodeError::Unrepresentable));

    let mut reserved = message(vec![]);
    reserved.header.flags.z = 8;
    assert_eq!(reserved.to_bytes(), Err(EncodeError::Unrepresentable));

    let mut options = message(vec![record("a.dev", vec![1])]);
    options.answers[0].options_code = Some(1);
    assert_eq!(options.to_bytes(), Err(EncodeError::Unrepresentable));

    let label = "z".repeat(63);
    let long = format!("{label}.{label}.{label}.{label}");
    let too_long = message(vec![record(&long, vec![])]);
    assert_eq!(too_long.to_bytes(), Err(EncodeError::Unrepresentable));
}

#[test]
fn built_message_round_trips() {
    let m = message(vec![record("a.dev", vec![1, 2, 3, 4])]);
    let bytes = m.to_bytes().unwrap();
    let back = Message::from_bytes(&bytes).unwrap();
    assert_eq!(back.header.qdcount, 1);
    assert_eq!(back.header.ancount, 1);
    assert_eq!(back.questions[0].qname, m.questions[0].qname);
    assert_eq!(back.answers[0].name, m.answers[0].name);
    assert_eq!(back.answers[0].data, m.answers[0].data);
    assert_eq!(back.answers[0].ttl, 5);
    assert_eq!(back.header.flags, m.header.flags);
}

#[test]
fn record_rdata() {
    assert_eq!(
        Record::A {
            address: [1, 2, 3, 4]
        }
        .to_bytes(),
        vec![1, 2, 3, 4]
    );
    let cname = Record::CNAME {
        name: Name::new("a.b".to_string()),
    };
    assert_eq!(cname.to_bytes(), vec![1, 97, 1, 98, 0]);
    assert_eq!(cname.qtype(), QType::CNAME);
    assert_eq!(cname.qclass(), QClass::IN);
    let txt = Record::TXT {
        text: "abc".to_string(),
    };
    assert_eq!(txt.to_bytes(), vec![3, 97, 98, 99]);
    assert_eq!(txt.qtype(), QType::TXT);
    assert!(txt.fits_rdata());
    assert!(!Record::TXT {
        text: "q".repeat(256)
    }
    .fits_rdata());
}

#[test]
fn record_map_by_type() {
    let mut map = RecordMap::new();
    assert!(map.is_empty());
    map.insert(Record::A {
        address: [1, 1, 1, 1],
    });
    map.insert(Record::TXT {
        text: "t".to_string(),
    });
    map.insert(Record::A {
        address: [2, 2, 2, 2],
    });
    assert_eq!(
        map.get(QType::A),
        Some(&Record::A {
            address: [2, 2, 2, 2]
        })
    );
    assert_eq!(map.iter().len(), 2);
    assert_eq!(map.get(QType::CNAME), None);
    assert_eq!(
        map.remove(QType::TXT),
        Some(Record::TXT {
            text: "t".to_string()
        })
    );
    assert_eq!(map.remove(QType::TXT), None);
    assert!(!map.is_empty());
    let entries = map.iter();
    assert_eq!(entries.len(), 1);
    assert_eq!(entries[0].0, QType::A);
}

#[test]
fn parse_type_and_name_from_text() {
    assert_eq!("TXT".parse::<QType>(), Ok(QType::TXT));
    assert_eq!("txt".parse::<QType>(), Err(()));
    let name: Name = "a.b.c".parse().unwrap();
    assert_eq!(name.to_text(), b"a.b.c.".to_vec());
    assert_eq!(name.labels().len(), 3);
    let long = format!("{}.d", "e".repeat(64));
    assert_eq!(long.parse::<Name>(), Err(()));
}

#[test]
fn utf8_label_reads_back_as_text() {
    let label = Label::new("caf\u{e9}".to_string());
    assert_eq!(label.len(), 5);
    assert_eq!(label.as_str(), Some("caf\u{e9}"));
}
