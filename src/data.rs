use vstd::prelude::*;
use vstd::string::StringSliceAdditionalSpecFns;
use vstd::utf8::{decode_utf8, encode_utf8, valid_utf8};

verus! {

/// The longest label that a name may carry, in bytes.
pub const MAX_LABEL_LEN: usize = 63;

/// The longest name on the wire, in bytes, length bytes and terminator included.
pub const MAX_NAME_LEN: usize = 255;

/// The byte `.` that separates labels in text.
pub const DOT: u8 = 46;

/// The byte `*` of a wildcard label.
pub const STAR: u8 = 42;

/// A decoded DNS message: a header and four ordered sections.
#[derive(Debug)]
pub struct Message {
    pub header: Header,
    pub questions: Vec<Question>,
    pub answers: Vec<ResourceRecord>,
    pub authorities: Vec<ResourceRecord>,
    pub additionals: Vec<ResourceRecord>,
}

/// The fixed twelve-byte message header.
#[derive(Copy, Clone, Debug, PartialEq, Eq, Structural)]
pub struct Header {
    pub id: u16,
    pub flags: Flags,
    pub qdcount: u16,
    pub ancount: u16,
    pub nscount: u16,
    pub arcount: u16,
}

/// The sixteen flag bits of the header.
#[derive(Copy, Clone, Debug, PartialEq, Eq, Structural)]
pub struct Flags {
    pub qr: bool,
    pub opcode: Opcode,
    pub aa: bool,
    pub tc: bool,
    pub rd: bool,
    pub ra: bool,
    /// Three reserved bits, kept as written.
    pub z: u8,
    pub rcode: RCode,
}

impl Flags {
    /// The flags of an authoritative answer to a request with the given opcode.
    pub fn answer(opcode: Opcode) -> (r: Self)
        ensures
            r == (Flags {
                qr: true,
                opcode,
                aa: true,
                tc: false,
                rd: false,
                ra: false,
                z: 0,
                rcode: RCode::NoError,
            }),
    {
        Flags {
            qr: true,
            opcode,
            aa: true,
            tc: false,
            rd: false,
            ra: false,
            z: 0,
            rcode: RCode::NoError,
        }
    }
}

#[derive(Copy, Clone, Debug, PartialEq, Eq, Structural)]
pub enum Opcode {
    Query,
    IQuery,
    Status,
}

impl Opcode {
    pub open spec fn spec_code(self) -> u8 {
        match self {
            Opcode::Query => 0,
            Opcode::IQuery => 1,
            Opcode::Status => 2,
        }
    }

    pub open spec fn spec_from_code(v: u8) -> Option<Opcode> {
        if v == 0 {
            Some(Opcode::Query)
        } else if v == 1 {
            Some(Opcode::IQuery)
        } else if v == 2 {
            Some(Opcode::Status)
        } else {
            None
        }
    }

    /// The four-bit wire value.
    pub fn code(self) -> (r: u8)
        ensures
            r == self.spec_code(),
            r < 16,
    {
        match self {
            Opcode::Query => 0,
            Opcode::IQuery => 1,
            Opcode::Status => 2,
        }
    }

    /// The opcode with the given wire value, if there is one.
    pub fn from_code(v: u8) -> (r: Option<Opcode>)
        ensures
            r == Self::spec_from_code(v),
    {
        if v == 0 {
            Some(Opcode::Query)
        } else if v == 1 {
            Some(Opcode::IQuery)
        } else if v == 2 {
            Some(Opcode::Status)
        } else {
            None
        }
    }
}

#[derive(Copy, Clone, Debug, PartialEq, Eq, Structural)]
pub enum RCode {
    NoError,
    FormatError,
    ServerFailure,
    NameError,
    NotImplemented,
    Refused,
}

impl RCode {
    pub open spec fn spec_code(self) -> u8 {
        match self {
            RCode::NoError => 0,
            RCode::FormatError => 1,
            RCode::ServerFailure => 2,
            RCode::NameError => 3,
            RCode::NotImplemented => 4,
            RCode::Refused => 5,
        }
    }

    pub open spec fn spec_from_code(v: u8) -> Option<RCode> {
        if v == 0 {
            Some(RCode::NoError)
        } else if v == 1 {
            Some(RCode::FormatError)
        } else if v == 2 {
            Some(RCode::ServerFailure)
        } else if v == 3 {
            Some(RCode::NameError)
        } else if v == 4 {
            Some(RCode::NotImplemented)
        } else if v == 5 {
            Some(RCode::Refused)
        } else {
            None
        }
    }

    /// The four-bit wire value.
    pub fn code(self) -> (r: u8)
        ensures
            r == self.spec_code(),
            r < 16,
    {
        match self {
            RCode::NoError => 0,
            RCode::FormatError => 1,
            RCode::ServerFailure => 2,
            RCode::NameError => 3,
            RCode::NotImplemented => 4,
            RCode::Refused => 5,
        }
    }

    /// The response code with the given wire value, if there is one.
    pub fn from_code(v: u8) -> (r: Option<RCode>)
        ensures
            r == Self::spec_from_code(v),
    {
        if v == 0 {
            Some(RCode::NoError)
        } else if v == 1 {
            Some(RCode::FormatError)
        } else if v == 2 {
            Some(RCode::ServerFailure)
        } else if v == 3 {
            Some(RCode::NameError)
        } else if v == 4 {
            Some(RCode::NotImplemented)
        } else if v == 5 {
            Some(RCode::Refused)
        } else {
            None
        }
    }
}

/// One entry of the question section.
#[derive(Debug)]
pub struct Question {
    pub qname: Name,
    pub qtype: QType,
    pub qclass: QClass,
}

/// One entry of the answer, authority or additional section.
#[derive(Debug)]
pub struct ResourceRecord {
    pub name: Name,
    pub qtype: QType,
    /// Absent on the wire for OPT records, where it reads as `NONE`.
    pub qclass: QClass,
    pub ttl: i32,
    /// The length of `data` as read; rewritten from `data` when encoding.
    pub rdlength: u16,
    pub data: Vec<u8>,
    /// Present (on the wire and here) for OPT records only.
    pub options_code: Option<u8>,
    pub options_length: Option<u8>,
}

/// Record and query types, each with its wire value.
#[allow(non_camel_case_types, clippy::upper_case_acronyms)]
#[derive(Copy, Clone, Debug, PartialEq, Eq, Hash, Structural)]
pub enum QType {
    A,
    NS,
    MD,
    MF,
    CNAME,
    SOA,
    MB,
    MG,
    MR,
    NULL,
    WKS,
    PTR,
    HINFO,
    MINFO,
    MX,
    TXT,
    AAAA,
    OPT,
    SVCB,
    HTTPS,
    AXFR,
    MAILB,
    MAILA,
    ANY,
}

impl QType {
    pub open spec fn spec_code(self) -> u16 {
        match self {
            QType::A => 1,
            QType::NS => 2,
            QType::MD => 3,
            QType::MF => 4,
            QType::CNAME => 5,
            QType::SOA => 6,
            QType::MB => 7,
            QType::MG => 8,
            QType::MR => 9,
            QType::NULL => 10,
            QType::WKS => 11,
            QType::PTR => 12,
            QType::HINFO => 13,
            QType::MINFO => 14,
            QType::MX => 15,
            QType::TXT => 16,
            QType::AAAA => 28,
            QType::OPT => 41,
            QType::SVCB => 64,
            QType::HTTPS => 65,
            QType::AXFR => 252,
            QType::MAILB => 253,
            QType::MAILA => 254,
            QType::ANY => 255,
        }
    }

    pub open spec fn spec_from_code(v: u16) -> Option<QType> {
        if v == 1 {
            Some(QType::A)
        } else if v == 2 {
            Some(QType::NS)
        } else if v == 3 {
            Some(QType::MD)
        } else if v == 4 {
            Some(QType::MF)
        } else if v == 5 {
            Some(QType::CNAME)
        } else if v == 6 {
            Some(QType::SOA)
        } else if v == 7 {
            Some(QType::MB)
        } else if v == 8 {
            Some(QType::MG)
        } else if v == 9 {
            Some(QType::MR)
        } else if v == 10 {
            Some(QType::NULL)
        } else if v == 11 {
            Some(QType::WKS)
        } else if v == 12 {
            Some(QType::PTR)
        } else if v == 13 {
            Some(QType::HINFO)
        } else if v == 14 {
            Some(QType::MINFO)
        } else if v == 15 {
            Some(QType::MX)
        } else if v == 16 {
            Some(QType::TXT)
        } else if v == 28 {
            Some(QType::AAAA)
        } else if v == 41 {
            Some(QType::OPT)
        } else if v == 64 {
            Some(QType::SVCB)
        } else if v == 65 {
            Some(QType::HTTPS)
        } else if v == 252 {
            Some(QType::AXFR)
        } else if v == 253 {
            Some(QType::MAILB)
        } else if v == 254 {
            Some(QType::MAILA)
        } else if v == 255 {
            Some(QType::ANY)
        } else {
            None
        }
    }

    /// The sixteen-bit wire value.
    pub fn code(self) -> (r: u16)
        ensures
            r == self.spec_code(),
    {
        match self {
            QType::A => 1,
            QType::NS => 2,
            QType::MD => 3,
            QType::MF => 4,
            QType::CNAME => 5,
            QType::SOA => 6,
            QType::MB => 7,
            QType::MG => 8,
            QType::MR => 9,
            QType::NULL => 10,
            QType::WKS => 11,
            QType::PTR => 12,
            QType::HINFO => 13,
            QType::MINFO => 14,
            QType::MX => 15,
            QType::TXT => 16,
            QType::AAAA => 28,
            QType::OPT => 41,
            QType::SVCB => 64,
            QType::HTTPS => 65,
            QType::AXFR => 252,
            QType::MAILB => 253,
            QType::MAILA => 254,
            QType::ANY => 255,
        }
    }

    /// The value with the given wire code, if there is one.
    pub fn from_code(v: u16) -> (r: Option<QType>)
        ensures
            r == Self::spec_from_code(v),
    {
        if v == 1 {
            Some(QType::A)
        } else if v == 2 {
            Some(QType::NS)
        } else if v == 3 {
            Some(QType::MD)
        } else if v == 4 {
            Some(QType::MF)
        } else if v == 5 {
            Some(QType::CNAME)
        } else if v == 6 {
            Some(QType::SOA)
        } else if v == 7 {
            Some(QType::MB)
        } else if v == 8 {
            Some(QType::MG)
        } else if v == 9 {
            Some(QType::MR)
        } else if v == 10 {
            Some(QType::NULL)
        } else if v == 11 {
            Some(QType::WKS)
        } else if v == 12 {
            Some(QType::PTR)
        } else if v == 13 {
            Some(QType::HINFO)
        } else if v == 14 {
            Some(QType::MINFO)
        } else if v == 15 {
            Some(QType::MX)
        } else if v == 16 {
            Some(QType::TXT)
        } else if v == 28 {
            Some(QType::AAAA)
        } else if v == 41 {
            Some(QType::OPT)
        } else if v == 64 {
            Some(QType::SVCB)
        } else if v == 65 {
            Some(QType::HTTPS)
        } else if v == 252 {
            Some(QType::AXFR)
        } else if v == 253 {
            Some(QType::MAILB)
        } else if v == 254 {
            Some(QType::MAILA)
        } else if v == 255 {
            Some(QType::ANY)
        } else {
            None
        }
    }

    /// The type's name as written in zone descriptions.
    pub open spec fn spec_mnemonic(self) -> Seq<u8> {
        match self {
            QType::A => seq![65],
            QType::NS => seq![78, 83],
            QType::MD => seq![77, 68],
            QType::MF => seq![77, 70],
            QType::CNAME => seq![67, 78, 65, 77, 69],
            QType::SOA => seq![83, 79, 65],
            QType::MB => seq![77, 66],
            QType::MG => seq![77, 71],
            QType::MR => seq![77, 82],
            QType::NULL => seq![78, 85, 76, 76],
            QType::WKS => seq![87, 75, 83],
            QType::PTR => seq![80, 84, 82],
            QType::HINFO => seq![72, 73, 78, 70, 79],
            QType::MINFO => seq![77, 73, 78, 70, 79],
            QType::MX => seq![77, 88],
            QType::TXT => seq![84, 88, 84],
            QType::AAAA => seq![65, 65, 65, 65],
            QType::OPT => seq![79, 80, 84],
            QType::SVCB => seq![83, 86, 67, 66],
            QType::HTTPS => seq![72, 84, 84, 80, 83],
            QType::AXFR => seq![65, 88, 70, 82],
            QType::MAILB => seq![77, 65, 73, 76, 66],
            QType::MAILA => seq![77, 65, 73, 76, 65],
            QType::ANY => seq![65, 78, 89],
        }
    }

    /// The type's name as bytes.
    pub fn mnemonic(self) -> (r: Vec<u8>)
        ensures
            r@ == self.spec_mnemonic(),
    {
        let r = match self {
            QType::A => vec![65],
            QType::NS => vec![78, 83],
            QType::MD => vec![77, 68],
            QType::MF => vec![77, 70],
            QType::CNAME => vec![67, 78, 65, 77, 69],
            QType::SOA => vec![83, 79, 65],
            QType::MB => vec![77, 66],
            QType::MG => vec![77, 71],
            QType::MR => vec![77, 82],
            QType::NULL => vec![78, 85, 76, 76],
            QType::WKS => vec![87, 75, 83],
            QType::PTR => vec![80, 84, 82],
            QType::HINFO => vec![72, 73, 78, 70, 79],
            QType::MINFO => vec![77, 73, 78, 70, 79],
            QType::MX => vec![77, 88],
            QType::TXT => vec![84, 88, 84],
            QType::AAAA => vec![65, 65, 65, 65],
            QType::OPT => vec![79, 80, 84],
            QType::SVCB => vec![83, 86, 67, 66],
            QType::HTTPS => vec![72, 84, 84, 80, 83],
            QType::AXFR => vec![65, 88, 70, 82],
            QType::MAILB => vec![77, 65, 73, 76, 66],
            QType::MAILA => vec![77, 65, 73, 76, 65],
            QType::ANY => vec![65, 78, 89],
        };
        proof {
            assert(r@ =~= self.spec_mnemonic());
        }
        r
    }

    /// Every type, in wire order.
    pub fn all() -> (r: Vec<QType>)
        ensures
            forall|t: QType| r@.contains(t),
    {
        let r = vec![
            QType::A,
            QType::NS,
            QType::MD,
            QType::MF,
            QType::CNAME,
            QType::SOA,
            QType::MB,
            QType::MG,
            QType::MR,
            QType::NULL,
            QType::WKS,
            QType::PTR,
            QType::HINFO,
            QType::MINFO,
            QType::MX,
            QType::TXT,
            QType::AAAA,
            QType::OPT,
            QType::SVCB,
            QType::HTTPS,
            QType::AXFR,
            QType::MAILB,
            QType::MAILA,
            QType::ANY,
        ];
        proof {
            assert forall|t: QType| r@.contains(t) by {
                match t {
                    QType::A => assert(r@[0] == t),
                    QType::NS => assert(r@[1] == t),
                    QType::MD => assert(r@[2] == t),
                    QType::MF => assert(r@[3] == t),
                    QType::CNAME => assert(r@[4] == t),
                    QType::SOA => assert(r@[5] == t),
                    QType::MB => assert(r@[6] == t),
                    QType::MG => assert(r@[7] == t),
                    QType::MR => assert(r@[8] == t),
                    QType::NULL => assert(r@[9] == t),
                    QType::WKS => assert(r@[10] == t),
                    QType::PTR => assert(r@[11] == t),
                    QType::HINFO => assert(r@[12] == t),
                    QType::MINFO => assert(r@[13] == t),
                    QType::MX => assert(r@[14] == t),
                    QType::TXT => assert(r@[15] == t),
                    QType::AAAA => assert(r@[16] == t),
                    QType::OPT => assert(r@[17] == t),
                    QType::SVCB => assert(r@[18] == t),
                    QType::HTTPS => assert(r@[19] == t),
                    QType::AXFR => assert(r@[20] == t),
                    QType::MAILB => assert(r@[21] == t),
                    QType::MAILA => assert(r@[22] == t),
                    QType::ANY => assert(r@[23] == t),
                }
            }
        }
        r
    }

    /// The type whose name is `s`, if there is one.
    pub fn from_mnemonic(s: &[u8]) -> (r: Option<QType>)
        ensures
            match r {
                Some(t) => t.spec_mnemonic() == s@,
                None => forall|t: QType| t.spec_mnemonic() != s@,
            },
    {
        let all = QType::all();
        let mut i: usize = 0;
        while i < all.len()
            invariant
                i <= all@.len(),
                forall|t: QType| all@.contains(t),
                forall|j: int| 0 <= j < i ==> (#[trigger] all@[j]).spec_mnemonic() != s@,
            decreases all@.len() - i,
        {
            let t = all[i];
            let m = t.mnemonic();
            if bytes_equal(s, m.as_slice()) {
                return Some(t);
            }
            i = i + 1;
        }
        assert forall|t: QType| t.spec_mnemonic() != s@ by {
            assert(all@.contains(t));
            let j = choose|j: int| 0 <= j < all@.len() && all@[j] == t;
            assert(all@[j].spec_mnemonic() != s@);
        }
        None
    }
}

/// Query classes, each with its wire value.
#[allow(non_camel_case_types, clippy::upper_case_acronyms)]
#[derive(Copy, Clone, Debug, PartialEq, Eq, Hash, Structural)]
pub enum QClass {
    NONE,
    IN,
    CS,
    CH,
    HS,
    ANY,
}

impl QClass {
    pub open spec fn spec_code(self) -> u16 {
        match self {
            QClass::NONE => 0,
            QClass::IN => 1,
            QClass::CS => 2,
            QClass::CH => 3,
            QClass::HS => 4,
            QClass::ANY => 255,
        }
    }

    pub open spec fn spec_from_code(v: u16) -> Option<QClass> {
        if v == 0 {
            Some(QClass::NONE)
        } else if v == 1 {
            Some(QClass::IN)
        } else if v == 2 {
            Some(QClass::CS)
        } else if v == 3 {
            Some(QClass::CH)
        } else if v == 4 {
            Some(QClass::HS)
        } else if v == 255 {
            Some(QClass::ANY)
        } else {
            None
        }
    }

    /// The sixteen-bit wire value.
    pub fn code(self) -> (r: u16)
        ensures
            r == self.spec_code(),
    {
        match self {
            QClass::NONE => 0,
            QClass::IN => 1,
            QClass::CS => 2,
            QClass::CH => 3,
            QClass::HS => 4,
            QClass::ANY => 255,
        }
    }

    /// The value with the given wire code, if there is one.
    pub fn from_code(v: u16) -> (r: Option<QClass>)
        ensures
            r == Self::spec_from_code(v),
    {
        if v == 0 {
            Some(QClass::NONE)
        } else if v == 1 {
            Some(QClass::IN)
        } else if v == 2 {
            Some(QClass::CS)
        } else if v == 3 {
            Some(QClass::CH)
        } else if v == 4 {
            Some(QClass::HS)
        } else if v == 255 {
            Some(QClass::ANY)
        } else {
            None
        }
    }
}


/// A domain name: its labels in order, the most specific first.
#[derive(Debug, PartialEq, Eq, Hash)]
pub struct Name {
    labels: Vec<Label>,
}

/// The pieces of `s` between occurrences of `sep`, in order; `s` without `sep` is one piece.
pub open spec fn pieces(s: Seq<u8>, sep: u8) -> Seq<Seq<u8>>
    decreases s.len(),
{
    if s.len() == 0 {
        seq![Seq::empty()]
    } else {
        let prev = pieces(s.drop_last(), sep);
        if s.last() == sep {
            prev.push(Seq::empty())
        } else {
            prev.update(prev.len() - 1, prev.last().push(s.last()))
        }
    }
}

/// The labels of a name written as text: the pieces between dots.
pub open spec fn split_dots(s: Seq<u8>) -> Seq<Seq<u8>> {
    pieces(s, DOT)
}

/// Splits `text` at each `sep`.
pub fn split_bytes(text: &[u8], sep: u8) -> (r: Vec<Vec<u8>>)
    ensures
        r@.map_values(|p: Vec<u8>| p@) == pieces(text@, sep),
{
    let mut parts: Vec<Vec<u8>> = Vec::new();
    let mut cur: Vec<u8> = Vec::new();
    let mut i: usize = 0;
    while i < text.len()
        invariant
            i <= text@.len(),
            pieces(text@.subrange(0, i as int), sep) == parts@.map_values(|p: Vec<u8>| p@).push(
                cur@,
            ),
        decreases text@.len() - i,
    {
        let b = text[i];
        assert(text@.subrange(0, i as int + 1).drop_last() =~= text@.subrange(0, i as int));
        if b == sep {
            let mut done: Vec<u8> = Vec::new();
            core::mem::swap(&mut cur, &mut done);
            parts.push(done);
        } else {
            cur.push(b);
        }
        i = i + 1;
        proof {
            assert(parts@.map_values(|p: Vec<u8>| p@).push(cur@) =~= pieces(
                text@.subrange(0, i as int),
                sep,
            ));
        }
    }
    assert(text@.subrange(0, i as int) =~= text@);
    parts.push(cur);
    assert(parts@.map_values(|p: Vec<u8>| p@) =~= pieces(text@, sep));
    parts
}

/// Whether every piece of the text between dots fits in a label.
pub open spec fn labels_fit(pieces: Seq<Seq<u8>>) -> bool {
    forall|i: int| 0 <= i < pieces.len() ==> (#[trigger] pieces[i]).len() <= MAX_LABEL_LEN
}

/// A name as text: `.` for the root, else each label followed by a dot.
pub open spec fn presentation(labels: Seq<Seq<u8>>) -> Seq<u8> {
    if labels.len() == 0 {
        seq![DOT]
    } else {
        labels.map_values(|l: Seq<u8>| l.push(DOT)).flatten()
    }
}

pub open spec fn label_views(labels: Seq<Label>) -> Seq<Seq<u8>> {
    labels.map_values(|l: Label| l@)
}

pub proof fn lemma_label_views_push(labels: Seq<Label>, l: Label)
    ensures
        label_views(labels.push(l)) == label_views(labels).push(l@),
{
    assert(label_views(labels.push(l)) =~= label_views(labels).push(l@));
}

impl View for Name {
    type V = Seq<Seq<u8>>;

    closed spec fn view(&self) -> Seq<Seq<u8>> {
        label_views(self.labels@)
    }
}

impl Name {
    /// The name with the given labels.
    pub fn from_labels(labels: Vec<Label>) -> (r: Name)
        ensures
            r@ == label_views(labels@),
    {
        Name { labels }
    }

    /// The root name, with no labels.
    pub fn root() -> (r: Name)
        ensures
            r@ == Seq::<Seq<u8>>::empty(),
    {
        let r = Name { labels: Vec::new() };
        assert(r@ =~= Seq::<Seq<u8>>::empty());
        r
    }

    /// The name written as `text`, split at each dot, if every piece fits in a label.
    pub fn from_text(text: &[u8]) -> (r: Option<Name>)
        ensures
            match r {
                Some(n) => labels_fit(split_dots(text@)) && n@ == split_dots(text@),
                None => !labels_fit(split_dots(text@)),
            },
    {
        let pieces = split_bytes(text, DOT);
        let ghost all = pieces@.map_values(|p: Vec<u8>| p@);
        let mut labels: Vec<Label> = Vec::new();
        let mut j: usize = 0;
        while j < pieces.len()
            invariant
                j <= pieces@.len(),
                all == pieces@.map_values(|p: Vec<u8>| p@),
                all == split_dots(text@),
                label_views(labels@) == all.subrange(0, j as int),
                forall|k: int| 0 <= k < j ==> (#[trigger] all[k]).len() <= MAX_LABEL_LEN,
            decreases pieces@.len() - j,
        {
            let piece = &pieces[j];
            if piece.len() > MAX_LABEL_LEN {
                assert(all[j as int] == piece@);
                return None;
            }
            let label = Label::from_bytes(vstd::slice::slice_to_vec(piece.as_slice()));
            proof {
                lemma_label_views_push(labels@, label);
                assert(all.subrange(0, j as int + 1) =~= all.subrange(0, j as int).push(label@));
            }
            labels.push(label);
            j = j + 1;
        }
        assert(all.subrange(0, j as int) =~= all);
        Some(Name { labels })
    }

    /// The name written as `data`, split at each dot.
    pub fn new(data: String) -> (r: Name)
        requires
            labels_fit(split_dots(encode_utf8(data@))),
        ensures
            r@ == split_dots(encode_utf8(data@)),
    {
        match Name::from_text(data.as_str().as_bytes()) {
            Some(n) => n,
            None => Name::root(),
        }
    }

    /// The name as text: `.` for the root, else each label followed by a dot.
    pub fn to_text(&self) -> (r: Vec<u8>)
        ensures
            r@ == presentation(self@),
    {
        let mut out: Vec<u8> = Vec::new();
        if self.labels.len() == 0 {
            out.push(DOT);
            assert(out@ =~= presentation(self@));
            return out;
        }
        let ghost ls = self@;
        let mut i: usize = 0;
        while i < self.labels.len()
            invariant
                i <= self.labels@.len(),
                ls == self@,
                ls.len() > 0,
                out@ == ls.subrange(0, i as int).map_values(|l: Seq<u8>| l.push(DOT)).flatten(),
            decreases self.labels@.len() - i,
        {
            let label = &self.labels[i];
            proof {
                let pre = ls.subrange(0, i as int);
                assert(ls.subrange(0, i as int + 1) =~= pre.push(label@));
                assert(pre.push(label@).map_values(|l: Seq<u8>| l.push(DOT)) =~= pre.map_values(
                    |l: Seq<u8>| l.push(DOT),
                ).push(label@.push(DOT)));
                pre.map_values(|l: Seq<u8>| l.push(DOT)).lemma_flatten_push(label@.push(DOT));
            }
            out.extend_from_slice(label.as_bytes());
            out.push(DOT);
            i = i + 1;
            proof {
                assert(out@ =~= ls.subrange(0, i as int).map_values(|l: Seq<u8>| l.push(DOT)).flatten());
            }
        }
        assert(ls.subrange(0, i as int) =~= ls);
        out
    }

    /// Whether this is the root name.
    pub fn is_empty(&self) -> (r: bool)
        ensures
            r == (self@.len() == 0),
    {
        self.labels.len() == 0
    }

    /// The labels, the most specific first.
    pub fn labels(&self) -> (r: &[Label])
        ensures
            label_views(r@) == self@,
    {
        self.labels.as_slice()
    }
}

impl Clone for Name {
    fn clone(&self) -> (r: Self)
        ensures
            r@ == self@,
    {
        let mut labels: Vec<Label> = Vec::new();
        let mut i: usize = 0;
        while i < self.labels.len()
            invariant
                i <= self.labels@.len(),
                label_views(labels@) == label_views(self.labels@).subrange(0, i as int),
            decreases self.labels@.len() - i,
        {
            let c = self.labels[i].clone();
            proof {
                lemma_label_views_push(labels@, c);
                assert(label_views(self.labels@).subrange(0, i as int + 1) =~= label_views(
                    self.labels@,
                ).subrange(0, i as int).push(c@));
            }
            labels.push(c);
            i = i + 1;
        }
        assert(label_views(self.labels@).subrange(0, i as int) =~= label_views(self.labels@));
        Name { labels }
    }
}

impl core::str::FromStr for QType {
    type Err = ();

    /// The type named `s`, as written in zone descriptions.
    fn from_str(s: &str) -> (r: Result<QType, ()>)
        ensures
            match r {
                Ok(t) => t.spec_mnemonic() == encode_utf8(s@),
                Err(_) => forall|t: QType| t.spec_mnemonic() != encode_utf8(s@),
            },
    {
        match QType::from_mnemonic(s.as_bytes()) {
            Some(t) => Ok(t),
            None => Err(()),
        }
    }
}

impl core::str::FromStr for Name {
    type Err = ();

    /// The name written as `s`, split at each dot; fails when a piece is too long for a label.
    fn from_str(s: &str) -> (r: Result<Name, ()>)
        ensures
            match r {
                Ok(n) => labels_fit(split_dots(encode_utf8(s@))) && n@ == split_dots(encode_utf8(s@)),
                Err(_) => !labels_fit(split_dots(encode_utf8(s@))),
            },
    {
        match Name::from_text(s.as_bytes()) {
            Some(n) => Ok(n),
            None => Err(()),
        }
    }
}

/// A label: up to 63 bytes of opaque text, compared byte for byte.
#[derive(Debug, Eq, Hash)]
pub struct Label {
    bytes: Vec<u8>,
}

impl View for Label {
    type V = Seq<u8>;

    closed spec fn view(&self) -> Seq<u8> {
        self.bytes@
    }
}

impl Label {
    #[verifier::type_invariant]
    spec fn inv(self) -> bool {
        self.bytes@.len() <= MAX_LABEL_LEN
    }

    /// A label of the given bytes.
    pub fn from_bytes(bytes: Vec<u8>) -> (r: Label)
        requires
            bytes@.len() <= MAX_LABEL_LEN,
        ensures
            r@ == bytes@,
    {
        Label { bytes }
    }

    /// A label of the UTF-8 bytes of `data`.
    pub fn new(data: String) -> (r: Label)
        requires
            encode_utf8(data@).len() <= MAX_LABEL_LEN,
        ensures
            r@ == encode_utf8(data@),
            valid_utf8(r@),
            decode_utf8(r@) == data@,
    {
        let bytes = vstd::slice::slice_to_vec(data.as_str().as_bytes());
        proof {
            vstd::utf8::encode_utf8_valid_utf8(data@);
            vstd::utf8::encode_utf8_decode_utf8(data@);
        }
        Label { bytes }
    }

    /// The label as text, exactly when its bytes are UTF-8: a label made from text reads
    /// back as that text, and a label of ASCII bytes always reads back.
    pub fn as_str(&self) -> (r: Option<&str>)
        ensures
            r matches Some(s) ==> s.spec_bytes() == self@ && s@ == decode_utf8(self@),
            valid_utf8(self@) ==> r is Some,
            (forall|i: int| 0 <= i < self@.len() ==> self@[i] < 128) ==> r is Some,
    {
        let bytes = self.bytes.as_slice();
        assert(bytes@ == self@);
        let r = utf8_str(bytes);
        proof {
            if let Some(s) = r {
                vstd::utf8::encode_utf8_decode_utf8(s@);
            }
        }
        r
    }

    /// The label's bytes.
    pub fn as_bytes(&self) -> (r: &[u8])
        ensures
            r@ == self@,
    {
        self.bytes.as_slice()
    }

    /// The number of bytes in the label.
    pub fn len(&self) -> (r: usize)
        ensures
            r == self@.len(),
            r <= MAX_LABEL_LEN,
    {
        proof {
            use_type_invariant(self);
        }
        self.bytes.len()
    }

    /// Whether the label is the single byte `*`.
    pub fn is_star(&self) -> (r: bool)
        ensures
            r == (self@ == seq![STAR]),
    {
        if self.bytes.len() == 1 && self.bytes[0] == STAR {
            assert(self@ =~= seq![STAR]);
            true
        } else {
            false
        }
    }
}

impl Clone for Label {
    fn clone(&self) -> (r: Self)
        ensures
            r@ == self@,
    {
        proof {
            use_type_invariant(self);
        }
        Label { bytes: self.bytes.clone() }
    }
}

impl PartialEq for Label {
    fn eq(&self, other: &Label) -> (r: bool) {
        bytes_equal(self.as_bytes(), other.as_bytes())
    }
}

impl vstd::std_specs::cmp::PartialEqSpecImpl for Label {
    open spec fn obeys_eq_spec() -> bool {
        true
    }

    open spec fn eq_spec(&self, other: &Label) -> bool {
        self@ == other@
    }
}

/// Relies on `std::str::from_utf8`: it succeeds on every valid UTF-8 slice (ASCII
/// included), and on success the string slice holds exactly the given bytes.
#[verifier::external_body]
fn utf8_str(bytes: &[u8]) -> (r: Option<&str>)
    ensures
        r matches Some(s) ==> s.spec_bytes() == bytes@,
        valid_utf8(bytes@) ==> r is Some,
        (forall|i: int| 0 <= i < bytes@.len() ==> bytes@[i] < 128) ==> r is Some,
{
    std::str::from_utf8(bytes).ok()
}

/// Whether two byte slices hold the same bytes.
pub fn bytes_equal(a: &[u8], b: &[u8]) -> (r: bool)
    ensures
        r == (a@ == b@),
{
    if a.len() != b.len() {
        return false;
    }
    let mut i: usize = 0;
    while i < a.len()
        invariant
            a@.len() == b@.len(),
            i <= a@.len(),
            a@.subrange(0, i as int) == b@.subrange(0, i as int),
        decreases a@.len() - i,
    {
        if a[i] != b[i] {
            assert(a@[i as int] != b@[i as int]);
            return false;
        }
        assert(a@.subrange(0, i as int + 1) =~= a@.subrange(0, i as int).push(a@[i as int]));
        assert(b@.subrange(0, i as int + 1) =~= b@.subrange(0, i as int).push(b@[i as int]));
        i = i + 1;
    }
    assert(a@ =~= a@.subrange(0, i as int));
    assert(b@ =~= b@.subrange(0, i as int));
    true
}

} // verus!
