use dns_server::data::{Name, QType};
use dns_server::db::Db;
use dns_server::record::Record;
use dns_server::zone::parse_zone;

#[test]
fn normal() {
    let mut db = Db::new();

    let name = Name::new("example.com".to_string());
    let record = Record::A {
        address: [1, 1, 1, 1],
    };

    db.insert(&name, record.clone());

    assert_eq!(db.lookup(&name, QType::A), Some(&record));
}

#[test]
fn normal_wrong_class() {
    let mut db = Db::new();

    let name = Name::new("example.com".to_string());
    let record = Record::A {
        address: [1, 1, 1, 1],
    };

    db.insert(&name, record);

    assert_eq!(db.lookup(&name, QType::CNAME), None);
}

#[test]
fn wildcard() {
    let mut db = Db::new();

    let record = Record::A {
        address: [127, 0, 0, 1],
    };

    db.insert(&Name::new("*.local.dev".to_string()), record.clone());

    assert_eq!(
        db.lookup(&Name::new("denis.local.dev".to_string()), QType::A),
        Some(&record)
    );
}

#[test]
fn wildcard_wrong_class() {
    let mut db = Db::new();

    let record = Record::A {
        address: [127, 0, 0, 1],
    };

    db.insert(&Name::new("*.local.dev".to_string()), record);

    assert_eq!(
        db.lookup(&Name::new("denis.local.dev".to_string()), QType::CNAME),
        None
    );
}

#[test]
fn parse_db() {
    let content = r#"
            # Example domain
            example.com    CNAME    www.example.com

            # Local domains
            *.local.dev    A        127.0.0.1
            "#;

    let db = parse_zone(content).unwrap();

    assert_eq!(
        db.lookup(&Name::new("example.com".to_string()), QType::CNAME),
        Some(&Record::CNAME {
            name: Name::new("www.example.com".to_string()),
        })
    );

    assert_eq!(
        db.lookup(&Name::new("denis.local.dev".to_string()), QType::A),
        Some(&Record::A {
            address: [127, 0, 0, 1],
        })
    );
}

#[test]
fn wildcard_scope_one_label_only() {
    let mut db = Db::new();
    let record = Record::A {
        address: [127, 0, 0, 1],
    };
    db.insert(&Name::new("*.local.dev".to_string()), record.clone());

    assert_eq!(
        db.lookup(&Name::new("denis.local.dev".to_string()), QType::A),
        Some(&record)
    );
    assert_eq!(db.lookup(&Name::new("local.dev".to_string()), QType::A), None);
    assert_eq!(
        db.lookup(&Name::new("a.b.local.dev".to_string()), QType::A),
        None
    );
}

#[test]
fn lookup_any_matches_every_type() {
    let mut db = Db::new();
    let name = Name::new("example.com".to_string());
    let record = Record::CNAME {
        name: Name::new("www.example.com".to_string()),
    };
    db.insert(&name, record.clone());
    assert_eq!(db.lookup(&name, QType::ANY), Some(&record));
    assert_eq!(db.lookup(&name, QType::CNAME), Some(&record));
    assert_eq!(db.lookup(&name, QType::A), None);
}

#[test]
fn later_insert_for_same_name_replaces() {
    let mut db = Db::new();
    let name = Name::new("example.com".to_string());
    db.insert(&name, Record::A { address: [1, 2, 3, 4] });
    let cname = Record::CNAME {
        name: Name::new("other.example".to_string()),
    };
    db.insert(&name, cname.clone());
    assert_eq!(db.lookup(&name, QType::CNAME), Some(&cname));
    assert_eq!(db.lookup(&name, QType::A), None);
}

#[test]
fn partial_path_is_not_a_hit() {
    let mut db = Db::new();
    db.insert(
        &Name::new("www.example.com".to_string()),
        Record::A { address: [9, 9, 9, 9] },
    );
    assert_eq!(db.lookup(&Name::new("example.com".to_string()), QType::A), None);
    assert_eq!(
        db.lookup(&Name::new("a.www.example.com".to_string()), QType::A),
        None
    );
}

#[test]
fn insert_under_other_name_keeps_record() {
    let mut db = Db::new();
    let name = Name::new("a.dev".to_string());
    let record = Record::A { address: [1, 1, 1, 1] };
    db.insert(&name, record.clone());
    db.insert(
        &Name::new("b.a.dev".to_string()),
        Record::A { address: [2, 2, 2, 2] },
    );
    db.insert(
        &Name::new("*.dev".to_string()),
        Record::A { address: [3, 3, 3, 3] },
    );
    assert_eq!(db.lookup(&name, QType::A), Some(&record));
    assert_eq!(
        db.lookup(&Name::new("*.dev".to_string()), QType::A),
        Some(&Record::A { address: [3, 3, 3, 3] })
    );
}
