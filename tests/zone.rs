use dns_server::data::{Name, QType};
use dns_server::record::Record;
use dns_server::zone::{parse_ip, parse_line, parse_zone, ZoneError};

#[test]
fn ip_dotted_quad() {
    assert_eq!(parse_ip("127.0.0.1"), Ok([127, 0, 0, 1]));
    assert_eq!(parse_ip("255.255.255.255"), Ok([255, 255, 255, 255]));
    assert_eq!(parse_ip("010.0.0.1"), Ok([10, 0, 0, 1]));
}

#[test]
fn ip_errors() {
    assert_eq!(parse_ip("256.0.0.1"), Err(ZoneError::BadAddress));
    assert_eq!(parse_ip("1.2.3"), Err(ZoneError::BadAddress));
    assert_eq!(parse_ip("1.2.3.4.5"), Err(ZoneError::BadAddress));
    assert_eq!(parse_ip("a.b.c.d"), Err(ZoneError::BadAddress));
    assert_eq!(parse_ip("1..3.4"), Err(ZoneError::BadAddress));
    assert_eq!(parse_ip("99999999999.1.1.1"), Err(ZoneError::BadAddress));
}

#[test]
fn blank_and_comment_lines() {
    assert_eq!(parse_line("").unwrap(), None);
    assert_eq!(parse_line("   \t ").unwrap(), None);
    assert_eq!(parse_line("  # a comment").unwrap(), None);
}

#[test]
fn record_lines() {
    let (name, record) = parse_line("  www.dev   A   10.1.2.3  extra").unwrap().unwrap();
    assert_eq!(name, Name::new("www.dev".to_string()));
    assert_eq!(
        record,
        Record::A {
            address: [10, 1, 2, 3]
        }
    );
    let (name, record) = parse_line("a.dev CNAME b.dev").unwrap().unwrap();
    assert_eq!(name, Name::new("a.dev".to_string()));
    assert_eq!(
        record,
        Record::CNAME {
            name: Name::new("b.dev".to_string())
        }
    );
}

#[test]
fn line_errors() {
    assert_eq!(parse_line("a.dev A").unwrap_err(), ZoneError::MissingField);
    assert_eq!(parse_line("a.dev BOGUS x").unwrap_err(), ZoneError::UnknownType);
    assert_eq!(parse_line("a.dev MX x").unwrap_err(), ZoneError::UnsupportedType);
    assert_eq!(parse_line("a.dev A 1.2.3").unwrap_err(), ZoneError::BadAddress);
    let long = "x".repeat(64);
    assert_eq!(
        parse_line(&format!("{long}.dev A 1.2.3.4")).unwrap_err(),
        ZoneError::LabelTooLong
    );
    assert_eq!(
        parse_line(&format!("a.dev CNAME {long}.dev")).unwrap_err(),
        ZoneError::LabelTooLong
    );
}

#[test]
fn zone_with_bad_line_fails() {
    assert_eq!(
        parse_zone("a.dev A 1.2.3.4\nb.dev A nope\n").unwrap_err(),
        ZoneError::BadAddress
    );
}

#[test]
fn zone_with_crlf_lines() {
    let db = parse_zone("a.dev A 1.2.3.4\r\n# note\r\nb.dev CNAME a.dev\r\n").unwrap();
    assert_eq!(
        db.lookup(&Name::new("a.dev".to_string()), QType::A),
        Some(&Record::A {
            address: [1, 2, 3, 4]
        })
    );
    assert!(db
        .lookup(&Name::new("b.dev".to_string()), QType::CNAME)
        .is_some());
}

#[test]
fn later_line_for_same_name_wins() {
    let db = parse_zone("a.dev A 1.1.1.1\nb.dev A 2.2.2.2\na.dev CNAME b.dev\n").unwrap();
    assert_eq!(db.lookup(&Name::new("a.dev".to_string()), QType::A), None);
    assert_eq!(
        db.lookup(&Name::new("a.dev".to_string()), QType::CNAME),
        Some(&Record::CNAME {
            name: Name::new("b.dev".to_string())
        })
    );
}

#[test]
fn first_bad_line_decides_the_error() {
    assert_eq!(
        parse_zone("a.dev MX x\nb.dev A nope\n").unwrap_err(),
        ZoneError::UnsupportedType
    );
}
