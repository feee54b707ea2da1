use vstd::prelude::*;

use crate::data::{
    label_views, lemma_label_views_push, Flags, Header, Label, Message, Name, Opcode, QClass,
    QType, Question, RCode, ResourceRecord, MAX_LABEL_LEN, MAX_NAME_LEN,
};

verus! {

/// Why a message could not be read.
#[derive(Copy, Clone, Debug, PartialEq, Eq, Structural)]
pub enum DecodeError {
    /// The input ended before a field or a declared record.
    Truncated,
    /// An opcode, response code, type or class with no known value.
    InvalidEnum,
    /// A label length byte between 64 and 191.
    LabelTooLong,
    /// A compression pointer that does not point strictly backward.
    BadPointer,
    /// A name longer than 255 bytes on the wire.
    NameTooLong,
}

/// The length of the fixed header.
pub const HEADER_LEN: usize = 12;

/// A name byte with both top bits set starts a compression pointer.
pub const POINTER_TAG: u8 = 192;

// ----- the message types as plain values -----

/// A question as plain values.
pub struct QuestionView {
    pub qname: Seq<Seq<u8>>,
    pub qtype: QType,
    pub qclass: QClass,
}

/// A resource record as plain values.
pub struct RecordView {
    pub name: Seq<Seq<u8>>,
    pub qtype: QType,
    pub qclass: QClass,
    pub ttl: i32,
    pub rdlength: u16,
    pub data: Seq<u8>,
    pub options_code: Option<u8>,
    pub options_length: Option<u8>,
}

/// A message as plain values.
pub struct MessageView {
    pub header: Header,
    pub questions: Seq<QuestionView>,
    pub answers: Seq<RecordView>,
    pub authorities: Seq<RecordView>,
    pub additionals: Seq<RecordView>,
}

impl View for Question {
    type V = QuestionView;

    open spec fn view(&self) -> QuestionView {
        QuestionView { qname: self.qname@, qtype: self.qtype, qclass: self.qclass }
    }
}

impl View for ResourceRecord {
    type V = RecordView;

    open spec fn view(&self) -> RecordView {
        RecordView {
            name: self.name@,
            qtype: self.qtype,
            qclass: self.qclass,
            ttl: self.ttl,
            rdlength: self.rdlength,
            data: self.data@,
            options_code: self.options_code,
            options_length: self.options_length,
        }
    }
}

pub open spec fn question_views(qs: Seq<Question>) -> Seq<QuestionView> {
    qs.map_values(|q: Question| q@)
}

pub open spec fn record_views(rs: Seq<ResourceRecord>) -> Seq<RecordView> {
    rs.map_values(|r: ResourceRecord| r@)
}

impl View for Message {
    type V = MessageView;

    open spec fn view(&self) -> MessageView {
        MessageView {
            header: self.header,
            questions: question_views(self.questions@),
            answers: record_views(self.answers@),
            authorities: record_views(self.authorities@),
            additionals: record_views(self.additionals@),
        }
    }
}

// ----- reading: the wire format as a function of the bytes -----

pub open spec fn u16_at(buf: Seq<u8>, pos: int) -> u16 {
    (buf[pos] * 256 + buf[pos + 1]) as u16
}

pub open spec fn u32_at(buf: Seq<u8>, pos: int) -> u32 {
    (buf[pos] * 16777216 + buf[pos + 1] * 65536 + buf[pos + 2] * 256 + buf[pos + 3]) as u32
}

/// The two's-complement reading of a 32-bit word.
pub open spec fn i32_of(u: u32) -> i32 {
    if u >= 0x8000_0000 {
        (u - 0x1_0000_0000) as i32
    } else {
        u as i32
    }
}

/// The flags packed in the two flag bytes, if the opcode and response code are known.
pub open spec fn flags_of(b0: u8, b1: u8) -> Option<Flags> {
    match (Opcode::spec_from_code(((b0 / 8) % 16) as u8), RCode::spec_from_code((b1 % 16) as u8)) {
        (Some(opcode), Some(rcode)) => Some(
            Flags {
                qr: b0 >= 128,
                opcode,
                aa: (b0 / 4) % 2 == 1,
                tc: (b0 / 2) % 2 == 1,
                rd: b0 % 2 == 1,
                ra: b1 >= 128,
                z: ((b1 / 16) % 8) as u8,
                rcode,
            },
        ),
        _ => None,
    }
}

pub open spec fn header_at(buf: Seq<u8>) -> Result<Header, DecodeError> {
    if buf.len() < HEADER_LEN {
        Err(DecodeError::Truncated)
    } else {
        match flags_of(buf[2], buf[3]) {
            Some(flags) => Ok(
                Header {
                    id: u16_at(buf, 0),
                    flags,
                    qdcount: u16_at(buf, 4),
                    ancount: u16_at(buf, 6),
                    nscount: u16_at(buf, 8),
                    arcount: u16_at(buf, 10),
                },
            ),
            None => Err(DecodeError::InvalidEnum),
        }
    }
}

/// The name that starts at `pos`, and the position just after it, where `acc` bytes of
/// labels have already been gathered for the same name.
///
/// A pointer makes the rest of the name that of the pointer's target, which must lie
/// strictly before the pointer; the name then ends two bytes after the pointer.
pub open spec fn name_at(buf: Seq<u8>, pos: int, acc: int) -> Result<
    (Seq<Seq<u8>>, int),
    DecodeError,
>
    decreases MAX_NAME_LEN - acc, pos,
{
    if pos < 0 || pos >= buf.len() {
        Err(DecodeError::Truncated)
    } else if buf[pos] == 0 {
        Ok((Seq::empty(), pos + 1))
    } else if buf[pos] >= POINTER_TAG {
        if pos + 1 >= buf.len() {
            Err(DecodeError::Truncated)
        } else {
            let target = (buf[pos] - POINTER_TAG) * 256 + buf[pos + 1];
            if target >= pos {
                Err(DecodeError::BadPointer)
            } else {
                match name_at(buf, target, acc) {
                    Ok((labels, _)) => Ok((labels, pos + 2)),
                    Err(e) => Err(e),
                }
            }
        }
    } else if buf[pos] > MAX_LABEL_LEN {
        Err(DecodeError::LabelTooLong)
    } else {
        let len = buf[pos] as int;
        if pos + 1 + len > buf.len() {
            Err(DecodeError::Truncated)
        } else if acc + len + 2 > MAX_NAME_LEN {
            Err(DecodeError::NameTooLong)
        } else {
            match name_at(buf, pos + 1 + len, acc + 1 + len) {
                Ok((labels, end)) => Ok(
                    (seq![buf.subrange(pos + 1, pos + 1 + len)] + labels, end),
                ),
                Err(e) => Err(e),
            }
        }
    }
}

pub open spec fn question_at(buf: Seq<u8>, pos: int) -> Result<(QuestionView, int), DecodeError> {
    match name_at(buf, pos, 0) {
        Err(e) => Err(e),
        Ok((qname, p)) => {
            if p + 2 > buf.len() {
                Err(DecodeError::Truncated)
            } else {
                match QType::spec_from_code(u16_at(buf, p)) {
                    None => Err(DecodeError::InvalidEnum),
                    Some(qtype) => {
                        if p + 4 > buf.len() {
                            Err(DecodeError::Truncated)
                        } else {
                            match QClass::spec_from_code(u16_at(buf, p + 2)) {
                                None => Err(DecodeError::InvalidEnum),
                                Some(qclass) => Ok(
                                    (QuestionView { qname, qtype, qclass }, p + 4),
                                ),
                            }
                        }
                    },
                }
            }
        },
    }
}

/// The fields of a record after its class: ttl, rdata and, for OPT, the option bytes.
pub open spec fn record_tail_at(
    buf: Seq<u8>,
    p: int,
    name: Seq<Seq<u8>>,
    qtype: QType,
    qclass: QClass,
) -> Result<(RecordView, int), DecodeError> {
    if p + 6 > buf.len() {
        Err(DecodeError::Truncated)
    } else {
        let ttl = i32_of(u32_at(buf, p));
        let rdlength = u16_at(buf, p + 4);
        let start = p + 6;
        if start + rdlength > buf.len() {
            Err(DecodeError::Truncated)
        } else {
            let data = buf.subrange(start, start + rdlength);
            let end = start + rdlength;
            if qtype == QType::OPT {
                if end + 2 > buf.len() {
                    Err(DecodeError::Truncated)
                } else {
                    Ok(
                        (
                            RecordView {
                                name,
                                qtype,
                                qclass,
                                ttl,
                                rdlength,
                                data,
                                options_code: Some(buf[end]),
                                options_length: Some(buf[end + 1]),
                            },
                            end + 2,
                        ),
                    )
                }
            } else {
                Ok(
                    (
                        RecordView {
                            name,
                            qtype,
                            qclass,
                            ttl,
                            rdlength,
                            data,
                            options_code: None,
                            options_length: None,
                        },
                        end,
                    ),
                )
            }
        }
    }
}

/// A resource record; an OPT record has no class on the wire and reads as class `NONE`.
pub open spec fn record_at(buf: Seq<u8>, pos: int) -> Result<(RecordView, int), DecodeError> {
    match name_at(buf, pos, 0) {
        Err(e) => Err(e),
        Ok((name, p)) => {
            if p + 2 > buf.len() {
                Err(DecodeError::Truncated)
            } else {
                match QType::spec_from_code(u16_at(buf, p)) {
                    None => Err(DecodeError::InvalidEnum),
                    Some(qtype) => {
                        if qtype == QType::OPT {
                            record_tail_at(buf, p + 2, name, qtype, QClass::NONE)
                        } else if p + 4 > buf.len() {
                            Err(DecodeError::Truncated)
                        } else {
                            match QClass::spec_from_code(u16_at(buf, p + 2)) {
                                None => Err(DecodeError::InvalidEnum),
                                Some(qclass) => record_tail_at(buf, p + 4, name, qtype, qclass),
                            }
                        }
                    },
                }
            }
        },
    }
}

pub open spec fn questions_at(buf: Seq<u8>, pos: int, n: nat) -> Result<
    (Seq<QuestionView>, int),
    DecodeError,
>
    decreases n,
{
    if n == 0 {
        Ok((Seq::empty(), pos))
    } else {
        match question_at(buf, pos) {
            Err(e) => Err(e),
            Ok((q, p)) => match questions_at(buf, p, (n - 1) as nat) {
                Err(e) => Err(e),
                Ok((qs, end)) => Ok((seq![q] + qs, end)),
            },
        }
    }
}

pub open spec fn records_at(buf: Seq<u8>, pos: int, n: nat) -> Result<
    (Seq<RecordView>, int),
    DecodeError,
>
    decreases n,
{
    if n == 0 {
        Ok((Seq::empty(), pos))
    } else {
        match record_at(buf, pos) {
            Err(e) => Err(e),
            Ok((r, p)) => match records_at(buf, p, (n - 1) as nat) {
                Err(e) => Err(e),
                Ok((rs, end)) => Ok((seq![r] + rs, end)),
            },
        }
    }
}

/// The message that `buf` holds: the header, then exactly as many questions, answers,
/// authorities and additionals as the header declares, read in that order. Bytes after
/// the last record are ignored.
pub open spec fn message_of(buf: Seq<u8>) -> Result<MessageView, DecodeError> {
    match header_at(buf) {
        Err(e) => Err(e),
        Ok(header) => match questions_at(buf, HEADER_LEN as int, header.qdcount as nat) {
            Err(e) => Err(e),
            Ok((questions, after_questions)) => match records_at(buf, after_questions, header.ancount as nat) {
                Err(e) => Err(e),
                Ok((answers, after_answers)) => match records_at(buf, after_answers, header.nscount as nat) {
                    Err(e) => Err(e),
                    Ok((authorities, after_authorities)) => match records_at(buf, after_authorities, header.arcount as nat) {
                        Err(e) => Err(e),
                        Ok((additionals, _)) => Ok(
                            MessageView { header, questions, answers, authorities, additionals },
                        ),
                    },
                },
            },
        },
    }
}

// ----- reading: executable -----

fn read_u16(buf: &[u8], pos: usize) -> (r: u16)
    requires
        pos + 2 <= buf@.len(),
    ensures
        r == u16_at(buf@, pos as int),
{
    buf[pos] as u16 * 256 + buf[pos + 1] as u16
}

fn read_u32(buf: &[u8], pos: usize) -> (r: u32)
    requires
        pos + 4 <= buf@.len(),
    ensures
        r == u32_at(buf@, pos as int),
{
    buf[pos] as u32 * 16777216 + buf[pos + 1] as u32 * 65536 + buf[pos + 2] as u32 * 256
        + buf[pos + 3] as u32
}

fn to_i32(u: u32) -> (r: i32)
    ensures
        r == i32_of(u),
{
    if u >= 0x8000_0000 {
        (u as i64 - 0x1_0000_0000i64) as i32
    } else {
        u as i32
    }
}

fn read_flags(b0: u8, b1: u8) -> (r: Option<Flags>)
    ensures
        r == flags_of(b0, b1),
{
    let opcode = Opcode::from_code((b0 / 8) % 16);
    let rcode = RCode::from_code(b1 % 16);
    match (opcode, rcode) {
        (Some(opcode), Some(rcode)) => Some(
            Flags {
                qr: b0 >= 128,
                opcode,
                aa: (b0 / 4) % 2 == 1,
                tc: (b0 / 2) % 2 == 1,
                rd: b0 % 2 == 1,
                ra: b1 >= 128,
                z: (b1 / 16) % 8,
                rcode,
            },
        ),
        _ => None,
    }
}

fn read_header(buf: &[u8]) -> (r: Result<Header, DecodeError>)
    ensures
        r == header_at(buf@),
{
    if buf.len() < HEADER_LEN {
        return Err(DecodeError::Truncated);
    }
    match read_flags(buf[2], buf[3]) {
        Some(flags) => Ok(
            Header {
                id: read_u16(buf, 0),
                flags,
                qdcount: read_u16(buf, 4),
                ancount: read_u16(buf, 6),
                nscount: read_u16(buf, 8),
                arcount: read_u16(buf, 10),
            },
        ),
        None => Err(DecodeError::InvalidEnum),
    }
}

/// What is known of a name once `done` labels are read and, if a pointer was followed,
/// where the name ends, given what reading on from the current position yields.
pub open spec fn name_rest(
    done: Seq<Seq<u8>>,
    end: Option<usize>,
    rest: Result<(Seq<Seq<u8>>, int), DecodeError>,
) -> Result<(Seq<Seq<u8>>, int), DecodeError> {
    match rest {
        Ok((labels, e)) => Ok(
            (
                done + labels,
                match end {
                    Some(x) => x as int,
                    None => e,
                },
            ),
        ),
        Err(e) => Err(e),
    }
}

/// Reads the name that starts at `start`, following compression pointers.
pub fn read_name(buf: &[u8], start: usize) -> (r: Result<(Name, usize), DecodeError>)
    ensures
        match r {
            Ok((n, end)) => name_at(buf@, start as int, 0) == Ok::<_, DecodeError>(
                (n@, end as int),
            ),
            Err(e) => name_at(buf@, start as int, 0) == Err::<(Seq<Seq<u8>>, int), _>(e),
        },
{
    let mut labels: Vec<Label> = Vec::new();
    let mut pos: usize = start;
    let mut acc: usize = 0;
    let mut end: Option<usize> = None;
    loop
        invariant
            acc <= MAX_NAME_LEN,
            name_at(buf@, start as int, 0) == name_rest(
                label_views(labels@),
                end,
                name_at(buf@, pos as int, acc as int),
            ),
        decreases MAX_NAME_LEN - acc, pos,
    {
        if pos >= buf.len() {
            return Err(DecodeError::Truncated);
        }
        let b = buf[pos];
        if b == 0 {
            let e = match end {
                Some(e) => e,
                None => pos + 1,
            };
            assert(label_views(labels@) + Seq::<Seq<u8>>::empty() =~= label_views(labels@));
            return Ok((Name::from_labels(labels), e));
        }
        if b >= POINTER_TAG {
            if pos + 1 >= buf.len() {
                return Err(DecodeError::Truncated);
            }
            let target = (b - POINTER_TAG) as usize * 256 + buf[pos + 1] as usize;
            if target >= pos {
                return Err(DecodeError::BadPointer);
            }
            if end.is_none() {
                end = Some(pos + 2);
            }
            pos = target;
        } else if b as usize > MAX_LABEL_LEN {
            return Err(DecodeError::LabelTooLong);
        } else {
            let len = b as usize;
            if buf.len() - pos - 1 < len {
                return Err(DecodeError::Truncated);
            }
            if acc + len + 2 > MAX_NAME_LEN {
                return Err(DecodeError::NameTooLong);
            }
            let bytes = vstd::slice::slice_to_vec(
                vstd::slice::slice_subrange(buf, pos + 1, pos + 1 + len),
            );
            let label = Label::from_bytes(bytes);
            proof {
                let piece = buf@.subrange(pos + 1, pos + 1 + len);
                lemma_label_views_push(labels@, label);
                assert(label_views(labels@).push(piece) + Seq::empty() =~= label_views(labels@) + (
                seq![piece] + Seq::empty()));
                match name_at(buf@, pos + 1 + len, acc + 1 + len) {
                    Ok((ls, _)) => {
                        assert(label_views(labels@).push(piece) + ls =~= label_views(labels@) + (
                        seq![piece] + ls));
                    },
                    Err(_) => {},
                }
            }
            labels.push(label);
            acc = acc + 1 + len;
            pos = pos + 1 + len;
        }
    }
}

/// Reads the question that starts at `pos`.
fn read_question(buf: &[u8], pos: usize) -> (r: Result<(Question, usize), DecodeError>)
    ensures
        match r {
            Ok((q, end)) => question_at(buf@, pos as int) == Ok::<_, DecodeError>(
                (q@, end as int),
            ),
            Err(e) => question_at(buf@, pos as int) == Err::<(QuestionView, int), _>(e),
        },
{
    let (qname, p) = read_name(buf, pos)?;
    if buf.len() < 2 || p > buf.len() - 2 {
        return Err(DecodeError::Truncated);
    }
    let qtype = match QType::from_code(read_u16(buf, p)) {
        Some(t) => t,
        None => return Err(DecodeError::InvalidEnum),
    };
    if buf.len() < 4 || p > buf.len() - 4 {
        return Err(DecodeError::Truncated);
    }
    let qclass = match QClass::from_code(read_u16(buf, p + 2)) {
        Some(c) => c,
        None => return Err(DecodeError::InvalidEnum),
    };
    Ok((Question { qname, qtype, qclass }, p + 4))
}

/// Reads the fields of a record that follow its class.
fn read_record_tail(buf: &[u8], p: usize, name: Name, qtype: QType, qclass: QClass) -> (r: Result<
    (ResourceRecord, usize),
    DecodeError,
>)
    requires
        p <= buf@.len(),
    ensures
        match r {
            Ok((rec, end)) => record_tail_at(buf@, p as int, name@, qtype, qclass) == Ok::<
                _,
                DecodeError,
            >((rec@, end as int)),
            Err(e) => record_tail_at(buf@, p as int, name@, qtype, qclass) == Err::<
                (RecordView, int),
                _,
            >(e),
        },
{
    if buf.len() - p < 6 {
        return Err(DecodeError::Truncated);
    }
    let ttl = to_i32(read_u32(buf, p));
    let rdlength = read_u16(buf, p + 4);
    let start = p + 6;
    if buf.len() - start < rdlength as usize {
        return Err(DecodeError::Truncated);
    }
    let end = start + rdlength as usize;
    let data = vstd::slice::slice_to_vec(vstd::slice::slice_subrange(buf, start, end));
    if qtype == QType::OPT {
        if buf.len() - end < 2 {
            return Err(DecodeError::Truncated);
        }
        let rec = ResourceRecord {
            name,
            qtype,
            qclass,
            ttl,
            rdlength,
            data,
            options_code: Some(buf[end]),
            options_length: Some(buf[end + 1]),
        };
        Ok((rec, end + 2))
    } else {
        let rec = ResourceRecord {
            name,
            qtype,
            qclass,
            ttl,
            rdlength,
            data,
            options_code: None,
            options_length: None,
        };
        Ok((rec, end))
    }
}

/// Reads the resource record that starts at `pos`.
fn read_record(buf: &[u8], pos: usize) -> (r: Result<(ResourceRecord, usize), DecodeError>)
    ensures
        match r {
            Ok((rec, end)) => record_at(buf@, pos as int) == Ok::<_, DecodeError>(
                (rec@, end as int),
            ),
            Err(e) => record_at(buf@, pos as int) == Err::<(RecordView, int), _>(e),
        },
{
    let (name, p) = read_name(buf, pos)?;
    if buf.len() < 2 || p > buf.len() - 2 {
        return Err(DecodeError::Truncated);
    }
    let qtype = match QType::from_code(read_u16(buf, p)) {
        Some(t) => t,
        None => return Err(DecodeError::InvalidEnum),
    };
    if qtype == QType::OPT {
        return read_record_tail(buf, p + 2, name, qtype, QClass::NONE);
    }
    if buf.len() < 4 || p > buf.len() - 4 {
        return Err(DecodeError::Truncated);
    }
    let qclass = match QClass::from_code(read_u16(buf, p + 2)) {
        Some(c) => c,
        None => return Err(DecodeError::InvalidEnum),
    };
    read_record_tail(buf, p + 4, name, qtype, qclass)
}

/// What is known of a section once `done` entries are read, given what reading the
/// remaining ones yields.
pub open spec fn section_rest<A>(done: Seq<A>, rest: Result<(Seq<A>, int), DecodeError>) -> Result<
    (Seq<A>, int),
    DecodeError,
> {
    match rest {
        Ok((items, e)) => Ok((done + items, e)),
        Err(e) => Err(e),
    }
}

fn read_questions(buf: &[u8], pos: usize, n: u16) -> (r: Result<(Vec<Question>, usize), DecodeError>)
    ensures
        match r {
            Ok((qs, end)) => questions_at(buf@, pos as int, n as nat) == Ok::<_, DecodeError>(
                (question_views(qs@), end as int),
            ),
            Err(e) => questions_at(buf@, pos as int, n as nat) == Err::<
                (Seq<QuestionView>, int),
                _,
            >(e),
        },
{
    let mut qs: Vec<Question> = Vec::new();
    let mut p = pos;
    let mut i: u16 = 0;
    while i < n
        invariant
            i <= n,
            questions_at(buf@, pos as int, n as nat) == section_rest(
                question_views(qs@),
                questions_at(buf@, p as int, (n - i) as nat),
            ),
        decreases n - i,
    {
        let (q, next) = read_question(buf, p)?;
        proof {
            assert(question_views(qs@.push(q)) =~= question_views(qs@).push(q@));
            match questions_at(buf@, next as int, (n - i - 1) as nat) {
                Ok((rest, _)) => {
                    assert(question_views(qs@).push(q@) + rest =~= question_views(qs@) + (seq![q@]
                        + rest));
                },
                Err(_) => {},
            }
        }
        qs.push(q);
        p = next;
        i = i + 1;
    }
    assert(question_views(qs@) + Seq::<QuestionView>::empty() =~= question_views(qs@));
    Ok((qs, p))
}

fn read_records(buf: &[u8], pos: usize, n: u16) -> (r: Result<
    (Vec<ResourceRecord>, usize),
    DecodeError,
>)
    ensures
        match r {
            Ok((rs, end)) => records_at(buf@, pos as int, n as nat) == Ok::<_, DecodeError>(
                (record_views(rs@), end as int),
            ),
            Err(e) => records_at(buf@, pos as int, n as nat) == Err::<(Seq<RecordView>, int), _>(
                e,
            ),
        },
{
    let mut rs: Vec<ResourceRecord> = Vec::new();
    let mut p = pos;
    let mut i: u16 = 0;
    while i < n
        invariant
            i <= n,
            records_at(buf@, pos as int, n as nat) == section_rest(
                record_views(rs@),
                records_at(buf@, p as int, (n - i) as nat),
            ),
        decreases n - i,
    {
        let (rec, next) = read_record(buf, p)?;
        proof {
            assert(record_views(rs@.push(rec)) =~= record_views(rs@).push(rec@));
            match records_at(buf@, next as int, (n - i - 1) as nat) {
                Ok((rest, _)) => {
                    assert(record_views(rs@).push(rec@) + rest =~= record_views(rs@) + (seq![rec@]
                        + rest));
                },
                Err(_) => {},
            }
        }
        rs.push(rec);
        p = next;
        i = i + 1;
    }
    assert(record_views(rs@) + Seq::<RecordView>::empty() =~= record_views(rs@));
    Ok((rs, p))
}

impl Message {
    /// Decodes the message that `buf` holds.
    pub fn from_bytes(buf: &[u8]) -> (r: Result<Message, DecodeError>)
        ensures
            match r {
                Ok(m) => message_of(buf@) == Ok::<_, DecodeError>(m@),
                Err(e) => message_of(buf@) == Err::<MessageView, _>(e),
            },
    {
        let header = read_header(buf)?;
        let (questions, after_questions) = read_questions(buf, HEADER_LEN, header.qdcount)?;
        let (answers, after_answers) = read_records(buf, after_questions, header.ancount)?;
        let (authorities, after_authorities) = read_records(buf, after_answers, header.nscount)?;
        let (additionals, _) = read_records(buf, after_authorities, header.arcount)?;
        Ok(Message { header, questions, answers, authorities, additionals })
    }
}

// ----- writing: the wire format of a message -----

/// Why a message could not be written.
#[derive(Copy, Clone, Debug, PartialEq, Eq, Structural)]
pub enum EncodeError {
    /// A value with no wire form that reads back as the same value: an empty label, a
    /// name over 255 bytes, a section or rdata over 65535 entries, reserved bits over
    /// three bits, or option bytes that do not match the record type.
    Unrepresentable,
}

pub open spec fn u16_bytes(x: u16) -> Seq<u8> {
    seq![(x / 256) as u8, (x % 256) as u8]
}

pub open spec fn u32_bytes(x: u32) -> Seq<u8> {
    seq![(x / 16777216) as u8, ((x / 65536) % 256) as u8, ((x / 256) % 256) as u8, (x % 256) as u8]
}

/// The 32-bit two's-complement word of a signed value.
pub open spec fn u32_of(t: i32) -> u32 {
    if t < 0 {
        (t + 0x1_0000_0000) as u32
    } else {
        t as u32
    }
}

pub open spec fn bit(b: bool, weight: int) -> int {
    if b {
        weight
    } else {
        0
    }
}

/// The two flag bytes, the first flag in the most significant bit.
pub open spec fn flag_bytes(f: Flags) -> Seq<u8> {
    seq![
        (bit(f.qr, 128) + f.opcode.spec_code() * 8 + bit(f.aa, 4) + bit(f.tc, 2) + bit(f.rd, 1)) as u8,
        (bit(f.ra, 128) + f.z * 16 + f.rcode.spec_code()) as u8,
    ]
}

pub open spec fn header_bytes(h: Header) -> Seq<u8> {
    u16_bytes(h.id) + flag_bytes(h.flags) + u16_bytes(h.qdcount) + u16_bytes(h.ancount)
        + u16_bytes(h.nscount) + u16_bytes(h.arcount)
}

pub open spec fn label_bytes(label: Seq<u8>) -> Seq<u8> {
    seq![label.len() as u8] + label
}

/// The labels of a name, each after its length byte, without the terminator.
pub open spec fn label_run(labels: Seq<Seq<u8>>) -> Seq<u8> {
    labels.map_values(|l: Seq<u8>| label_bytes(l)).flatten()
}

/// A name written literally: its labels, then a zero byte.
pub open spec fn name_bytes(labels: Seq<Seq<u8>>) -> Seq<u8> {
    label_run(labels) + seq![0u8]
}

pub open spec fn question_bytes(q: QuestionView) -> Seq<u8> {
    name_bytes(q.qname) + u16_bytes(q.qtype.spec_code()) + u16_bytes(q.qclass.spec_code())
}

pub open spec fn option_byte(b: Option<u8>) -> u8 {
    match b {
        Some(x) => x,
        None => 0,
    }
}

/// The class of a record as written: absent for OPT records.
pub open spec fn class_bytes(r: RecordView) -> Seq<u8> {
    if r.qtype == QType::OPT {
        Seq::empty()
    } else {
        u16_bytes(r.qclass.spec_code())
    }
}

/// The fields after the class: ttl, rdata length, rdata and, for OPT, the option bytes.
pub open spec fn record_tail_bytes(r: RecordView) -> Seq<u8> {
    u32_bytes(u32_of(r.ttl)) + u16_bytes(r.data.len() as u16) + r.data + (if r.qtype
        == QType::OPT {
        seq![option_byte(r.options_code), option_byte(r.options_length)]
    } else {
        Seq::empty()
    })
}

/// A record: the class is left out for OPT records, which carry two option bytes after
/// the rdata; the rdata length is that of the rdata.
pub open spec fn record_bytes(r: RecordView) -> Seq<u8> {
    name_bytes(r.name) + u16_bytes(r.qtype.spec_code()) + class_bytes(r) + record_tail_bytes(r)
}

pub open spec fn questions_bytes(qs: Seq<QuestionView>) -> Seq<u8> {
    qs.map_values(|q: QuestionView| question_bytes(q)).flatten()
}

pub open spec fn records_bytes(rs: Seq<RecordView>) -> Seq<u8> {
    rs.map_values(|r: RecordView| record_bytes(r)).flatten()
}

/// The header with its four counts taken from the sections.
pub open spec fn counted_header(m: MessageView) -> Header {
    Header {
        qdcount: m.questions.len() as u16,
        ancount: m.answers.len() as u16,
        nscount: m.authorities.len() as u16,
        arcount: m.additionals.len() as u16,
        ..m.header
    }
}

/// The bytes of a message: its header with counts derived from the sections, then the
/// questions, answers, authorities and additionals in order.
pub open spec fn message_bytes(m: MessageView) -> Seq<u8> {
    header_bytes(counted_header(m)) + questions_bytes(m.questions) + records_bytes(m.answers)
        + records_bytes(m.authorities) + records_bytes(m.additionals)
}

pub open spec fn name_valid(labels: Seq<Seq<u8>>) -> bool {
    &&& forall|i: int|
        0 <= i < labels.len() ==> 1 <= #[trigger] labels[i].len() <= MAX_LABEL_LEN
    &&& name_bytes(labels).len() <= MAX_NAME_LEN
}

pub open spec fn question_valid(q: QuestionView) -> bool {
    name_valid(q.qname)
}

pub open spec fn record_valid(r: RecordView) -> bool {
    &&& name_valid(r.name)
    &&& r.data.len() <= u16::MAX
    &&& if r.qtype == QType::OPT {
        r.qclass == QClass::NONE && r.options_code is Some && r.options_length is Some
    } else {
        r.options_code is None && r.options_length is None
    }
}

pub open spec fn records_valid(rs: Seq<RecordView>) -> bool {
    &&& rs.len() <= u16::MAX
    &&& forall|i: int| 0 <= i < rs.len() ==> record_valid(#[trigger] rs[i])
}

/// Whether the message can be written so that it reads back as itself, up to the
/// counts and rdata lengths, which writing derives from the contents.
pub open spec fn message_valid(m: MessageView) -> bool {
    &&& m.header.flags.z < 8
    &&& m.questions.len() <= u16::MAX
    &&& forall|i: int| 0 <= i < m.questions.len() ==> question_valid(#[trigger] m.questions[i])
    &&& records_valid(m.answers)
    &&& records_valid(m.authorities)
    &&& records_valid(m.additionals)
}

pub proof fn lemma_flatten_map_push<A>(s: Seq<A>, f: spec_fn(A) -> Seq<u8>, x: A)
    ensures
        s.push(x).map_values(f).flatten() == s.map_values(f).flatten() + f(x),
{
    assert(s.push(x).map_values(f) =~= s.map_values(f).push(f(x)));
    s.map_values(f).lemma_flatten_push(f(x));
}

fn write_u16(out: &mut Vec<u8>, x: u16)
    ensures
        final(out)@ == old(out)@ + u16_bytes(x),
{
    out.push((x / 256) as u8);
    out.push((x % 256) as u8);
    assert(final(out)@ =~= old(out)@ + u16_bytes(x));
}

fn write_u32(out: &mut Vec<u8>, x: u32)
    ensures
        final(out)@ == old(out)@ + u32_bytes(x),
{
    out.push((x / 16777216) as u8);
    out.push(((x / 65536) % 256) as u8);
    out.push(((x / 256) % 256) as u8);
    out.push((x % 256) as u8);
    assert(final(out)@ =~= old(out)@ + u32_bytes(x));
}

fn to_u32(t: i32) -> (r: u32)
    ensures
        r == u32_of(t),
{
    if t < 0 {
        (t as i64 + 0x1_0000_0000i64) as u32
    } else {
        t as u32
    }
}

fn write_flags(out: &mut Vec<u8>, f: Flags)
    requires
        f.z < 8,
    ensures
        final(out)@ == old(out)@ + flag_bytes(f),
{
    let qr: u8 = if f.qr { 128 } else { 0 };
    let aa: u8 = if f.aa { 4 } else { 0 };
    let tc: u8 = if f.tc { 2 } else { 0 };
    let rd: u8 = if f.rd { 1 } else { 0 };
    let ra: u8 = if f.ra { 128 } else { 0 };
    out.push(qr + f.opcode.code() * 8 + aa + tc + rd);
    out.push(ra + f.z * 16 + f.rcode.code());
    assert(final(out)@ =~= old(out)@ + flag_bytes(f));
}

fn write_name(out: &mut Vec<u8>, name: &Name)
    ensures
        final(out)@ == old(out)@ + name_bytes(name@),
{
    let labels = name.labels();
    let mut i: usize = 0;
    while i < labels.len()
        invariant
            i <= labels@.len(),
            label_views(labels@) == name@,
            out@ == old(out)@ + label_run(name@.subrange(0, i as int)),
        decreases labels@.len() - i,
    {
        let label = &labels[i];
        let len = label.len();
        proof {
            assert(name@.subrange(0, i as int + 1) =~= name@.subrange(0, i as int).push(label@));
            lemma_flatten_map_push(name@.subrange(0, i as int), |l: Seq<u8>| label_bytes(l), label@);
        }
        out.push(len as u8);
        out.extend_from_slice(label.as_bytes());
        i = i + 1;
        proof {
            assert(out@ =~= old(out)@ + label_run(name@.subrange(0, i as int)));
        }
    }
    out.push(0);
    assert(name@.subrange(0, i as int) =~= name@);
    assert(out@ =~= old(out)@ + name_bytes(name@));
}

impl Name {
    /// The name written literally, as on the wire.
    pub fn to_bytes(&self) -> (r: Vec<u8>)
        ensures
            r@ == name_bytes(self@),
    {
        let mut out: Vec<u8> = Vec::new();
        write_name(&mut out, self);
        assert(out@ =~= name_bytes(self@));
        out
    }
}

fn name_is_valid(name: &Name) -> (r: bool)
    ensures
        r == name_valid(name@),
{
    let labels = name.labels();
    let mut i: usize = 0;
    while i < labels.len()
        invariant
            i <= labels@.len(),
            label_views(labels@) == name@,
            forall|j: int| 0 <= j < i ==> 1 <= #[trigger] name@[j].len() <= MAX_LABEL_LEN,
        decreases labels@.len() - i,
    {
        if labels[i].len() == 0 {
            assert(name@[i as int] == labels@[i as int]@);
            return false;
        }
        assert(name@[i as int] == labels@[i as int]@);
        i = i + 1;
    }
    let bytes = name.to_bytes();
    bytes.len() <= MAX_NAME_LEN
}

fn write_question(out: &mut Vec<u8>, q: &Question)
    ensures
        final(out)@ == old(out)@ + question_bytes(q@),
{
    write_name(out, &q.qname);
    write_u16(out, q.qtype.code());
    write_u16(out, q.qclass.code());
    assert(final(out)@ =~= old(out)@ + question_bytes(q@));
}

fn write_record(out: &mut Vec<u8>, r: &ResourceRecord)
    requires
        r.data@.len() <= u16::MAX,
    ensures
        final(out)@ == old(out)@ + record_bytes(r@),
{
    write_name(out, &r.name);
    write_u16(out, r.qtype.code());
    let ghost head = out@;
    if r.qtype != QType::OPT {
        write_u16(out, r.qclass.code());
    }
    let ghost with_class = out@;
    write_u32(out, to_u32(r.ttl));
    write_u16(out, r.data.len() as u16);
    out.extend_from_slice(r.data.as_slice());
    let ghost with_data = out@;
    if r.qtype == QType::OPT {
        out.push(match r.options_code {
            Some(b) => b,
            None => 0,
        });
        out.push(match r.options_length {
            Some(b) => b,
            None => 0,
        });
    }
    assert(final(out)@ =~= old(out)@ + record_bytes(r@));
}

fn record_is_valid(r: &ResourceRecord) -> (b: bool)
    ensures
        b == record_valid(r@),
{
    if !name_is_valid(&r.name) || r.data.len() > u16::MAX as usize {
        return false;
    }
    if r.qtype == QType::OPT {
        r.qclass == QClass::NONE && r.options_code.is_some() && r.options_length.is_some()
    } else {
        r.options_code.is_none() && r.options_length.is_none()
    }
}

fn records_are_valid(rs: &Vec<ResourceRecord>) -> (b: bool)
    ensures
        b == records_valid(record_views(rs@)),
{
    if rs.len() > u16::MAX as usize {
        return false;
    }
    let mut i: usize = 0;
    while i < rs.len()
        invariant
            i <= rs@.len(),
            forall|j: int| 0 <= j < i ==> record_valid(#[trigger] record_views(rs@)[j]),
        decreases rs@.len() - i,
    {
        assert(record_views(rs@)[i as int] == rs@[i as int]@);
        if !record_is_valid(&rs[i]) {
            return false;
        }
        i = i + 1;
    }
    true
}

fn write_records(out: &mut Vec<u8>, rs: &Vec<ResourceRecord>)
    requires
        records_valid(record_views(rs@)),
    ensures
        final(out)@ == old(out)@ + records_bytes(record_views(rs@)),
{
    let ghost views = record_views(rs@);
    let mut i: usize = 0;
    while i < rs.len()
        invariant
            i <= rs@.len(),
            views == record_views(rs@),
            records_valid(views),
            out@ == old(out)@ + records_bytes(views.subrange(0, i as int)),
        decreases rs@.len() - i,
    {
        proof {
            assert(record_valid(views[i as int]));
            assert(views.subrange(0, i as int + 1) =~= views.subrange(0, i as int).push(views[i as int]));
            lemma_flatten_map_push(views.subrange(0, i as int), |r: RecordView| record_bytes(r), views[i as int]);
        }
        write_record(out, &rs[i]);
        i = i + 1;
        proof {
            assert(out@ =~= old(out)@ + records_bytes(views.subrange(0, i as int)));
        }
    }
    assert(views.subrange(0, i as int) =~= views);
}

impl Message {
    /// Encodes the message, with the header counts and each rdata length derived from
    /// the contents; fails exactly when the message has no faithful wire form.
    pub fn to_bytes(&self) -> (r: Result<Vec<u8>, EncodeError>)
        ensures
            match r {
                Ok(bytes) => message_valid(self@) && bytes@ == message_bytes(self@),
                Err(_) => !message_valid(self@),
            },
    {
        let ghost m = self@;
        if self.header.flags.z >= 8 || self.questions.len() > u16::MAX as usize {
            return Err(EncodeError::Unrepresentable);
        }
        let mut i: usize = 0;
        while i < self.questions.len()
            invariant
                i <= self.questions@.len(),
                m == self@,
                forall|j: int| 0 <= j < i ==> question_valid(#[trigger] m.questions[j]),
            decreases self.questions@.len() - i,
        {
            assert(m.questions[i as int] == self.questions@[i as int]@);
            if !name_is_valid(&self.questions[i].qname) {
                return Err(EncodeError::Unrepresentable);
            }
            i = i + 1;
        }
        if !records_are_valid(&self.answers) || !records_are_valid(&self.authorities)
            || !records_are_valid(&self.additionals) {
            return Err(EncodeError::Unrepresentable);
        }
        let mut out: Vec<u8> = Vec::new();
        write_u16(&mut out, self.header.id);
        write_flags(&mut out, self.header.flags);
        write_u16(&mut out, self.questions.len() as u16);
        write_u16(&mut out, self.answers.len() as u16);
        write_u16(&mut out, self.authorities.len() as u16);
        write_u16(&mut out, self.additionals.len() as u16);
        assert(out@ =~= header_bytes(counted_header(m)));
        let mut k: usize = 0;
        while k < self.questions.len()
            invariant
                k <= self.questions@.len(),
                m == self@,
                out@ == header_bytes(counted_header(m)) + questions_bytes(
                    m.questions.subrange(0, k as int),
                ),
            decreases self.questions@.len() - k,
        {
            proof {
                assert(m.questions.subrange(0, k as int + 1) =~= m.questions.subrange(0, k as int).push(m.questions[k as int]));
                lemma_flatten_map_push(m.questions.subrange(0, k as int), |q: QuestionView| question_bytes(q), m.questions[k as int]);
            }
            write_question(&mut out, &self.questions[k]);
            k = k + 1;
            proof {
                assert(out@ =~= header_bytes(counted_header(m)) + questions_bytes(m.questions.subrange(0, k as int)));
            }
        }
        assert(m.questions.subrange(0, k as int) =~= m.questions);
        write_records(&mut out, &self.answers);
        write_records(&mut out, &self.authorities);
        write_records(&mut out, &self.additionals);
        Ok(out)
    }
}

// ----- laws of the codec -----

/// A compression pointer whose target is not strictly before it ends the name with
/// `BadPointer`, and a pointer cut off by the end of the input with `Truncated`.
pub proof fn lemma_bad_pointer_rejected(buf: Seq<u8>, pos: int, acc: int)
    requires
        0 <= pos < buf.len(),
        buf[pos] >= POINTER_TAG,
    ensures
        pos + 1 >= buf.len() ==> name_at(buf, pos, acc) == Err::<(Seq<Seq<u8>>, int), _>(
            DecodeError::Truncated,
        ),
        pos + 1 < buf.len() && (buf[pos] - POINTER_TAG) * 256 + buf[pos + 1] >= pos
            ==> name_at(buf, pos, acc) == Err::<(Seq<Seq<u8>>, int), _>(DecodeError::BadPointer),
{
}

/// A message whose first question starts with a pointer that does not point strictly
/// backward is refused with `BadPointer`.
pub proof fn lemma_message_bad_pointer(buf: Seq<u8>)
    requires
        header_at(buf) is Ok,
        header_at(buf)->Ok_0.qdcount >= 1,
        buf.len() > HEADER_LEN + 1,
        buf[HEADER_LEN as int] >= POINTER_TAG,
        (buf[HEADER_LEN as int] - POINTER_TAG) * 256 + buf[HEADER_LEN + 1] >= HEADER_LEN,
    ensures
        message_of(buf) == Err::<MessageView, _>(DecodeError::BadPointer),
{
    let n = header_at(buf)->Ok_0.qdcount as nat;
    assert(questions_at(buf, HEADER_LEN as int, n) == Err::<(Seq<QuestionView>, int), _>(
        DecodeError::BadPointer,
    ));
}

/// A length byte from 64 to 191 ends the name with `LabelTooLong`.
pub proof fn lemma_long_label_rejected(buf: Seq<u8>, pos: int, acc: int)
    requires
        0 <= pos < buf.len(),
        MAX_LABEL_LEN < buf[pos] < POINTER_TAG,
    ensures
        name_at(buf, pos, acc) == Err::<(Seq<Seq<u8>>, int), _>(DecodeError::LabelTooLong),
{
}

/// A message whose first question starts with a length byte from 64 to 191 is refused
/// with `LabelTooLong`.
pub proof fn lemma_message_long_label(buf: Seq<u8>)
    requires
        header_at(buf) is Ok,
        header_at(buf)->Ok_0.qdcount >= 1,
        buf.len() > HEADER_LEN,
        MAX_LABEL_LEN < buf[HEADER_LEN as int] < POINTER_TAG,
    ensures
        message_of(buf) == Err::<MessageView, _>(DecodeError::LabelTooLong),
{
    let n = header_at(buf)->Ok_0.qdcount as nat;
    assert(questions_at(buf, HEADER_LEN as int, n) == Err::<(Seq<QuestionView>, int), _>(
        DecodeError::LabelTooLong,
    ));
}

proof fn lemma_flatten_map_cons<A>(s: Seq<A>, f: spec_fn(A) -> Seq<u8>)
    requires
        s.len() > 0,
    ensures
        s.map_values(f).flatten() == f(s[0]) + s.drop_first().map_values(f).flatten(),
{
    assert(s.map_values(f).drop_first() =~= s.drop_first().map_values(f));
}

proof fn lemma_u16_read_back(pre: Seq<u8>, x: u16, suf: Seq<u8>)
    ensures
        u16_at(pre + u16_bytes(x) + suf, pre.len() as int) == x,
{
    let buf = pre + u16_bytes(x) + suf;
    assert(buf[pre.len() as int] == (x / 256) as u8);
    assert(buf[pre.len() as int + 1] == (x % 256) as u8);
}

proof fn lemma_u32_read_back(pre: Seq<u8>, x: u32, suf: Seq<u8>)
    ensures
        u32_at(pre + u32_bytes(x) + suf, pre.len() as int) == x,
{
    let buf = pre + u32_bytes(x) + suf;
    let p = pre.len() as int;
    assert(buf[p] == (x / 16777216) as u8);
    assert(buf[p + 1] == ((x / 65536) % 256) as u8);
    assert(buf[p + 2] == ((x / 256) % 256) as u8);
    assert(buf[p + 3] == (x % 256) as u8);
    assert((x / 16777216) * 16777216 + ((x / 65536) % 256) * 65536 + ((x / 256) % 256) * 256 + x
        % 256 == x) by (nonlinear_arith);
}

proof fn lemma_qtype_code(t: QType)
    ensures
        QType::spec_from_code(t.spec_code()) == Some(t),
{
}

proof fn lemma_qclass_code(c: QClass)
    ensures
        QClass::spec_from_code(c.spec_code()) == Some(c),
{
}

proof fn lemma_flags_read_back(f: Flags)
    requires
        f.z < 8,
    ensures
        flags_of(flag_bytes(f)[0], flag_bytes(f)[1]) == Some(f),
{
    let o = f.opcode.spec_code() as int;
    let rc = f.rcode.spec_code() as int;
    let b0 = bit(f.qr, 128) + o * 8 + bit(f.aa, 4) + bit(f.tc, 2) + bit(f.rd, 1);
    let b1 = bit(f.ra, 128) + f.z * 16 + rc;
    assert(0 <= o <= 2 && 0 <= rc <= 5);
    assert(flag_bytes(f)[0] == b0 && flag_bytes(f)[1] == b1);
    assert((b0 / 8) % 16 == o);
    assert(Opcode::spec_from_code(o as u8) == Some(f.opcode));
    assert(RCode::spec_from_code(rc as u8) == Some(f.rcode));
    assert(((b1 / 16) % 8) as u8 == f.z);
}

proof fn lemma_name_read_back(pre: Seq<u8>, labels: Seq<Seq<u8>>, suf: Seq<u8>, acc: int)
    requires
        forall|i: int| 0 <= i < labels.len() ==> 1 <= #[trigger] labels[i].len() <= MAX_LABEL_LEN,
        0 <= acc,
        acc + name_bytes(labels).len() <= MAX_NAME_LEN,
    ensures
        name_at(pre + name_bytes(labels) + suf, pre.len() as int, acc) == Ok::<_, DecodeError>(
            (labels, (pre.len() + name_bytes(labels).len()) as int),
        ),
    decreases labels.len(),
{
    let buf = pre + name_bytes(labels) + suf;
    let pos = pre.len() as int;
    if labels.len() == 0 {
        assert(label_run(labels) =~= Seq::<u8>::empty());
        assert(buf[pos] == 0);
        assert(labels =~= Seq::<Seq<u8>>::empty());
    } else {
        let l0 = labels[0];
        let rest = labels.drop_first();
        lemma_flatten_map_cons(labels, |l: Seq<u8>| label_bytes(l));
        assert(name_bytes(labels) =~= label_bytes(l0) + name_bytes(rest));
        let pre2 = pre + label_bytes(l0);
        assert(buf =~= pre2 + name_bytes(rest) + suf);
        assert(name_bytes(rest).len() >= 1);
        lemma_name_read_back(pre2, rest, suf, acc + 1 + l0.len());
        assert(buf[pos] == l0.len() as u8);
        assert(buf.subrange(pos + 1, pos + 1 + l0.len()) =~= l0);
        assert(seq![l0] + rest =~= labels);
    }
}

/// A record as it reads back: its rdata length is that of its rdata.
pub open spec fn with_rdlength(r: RecordView) -> RecordView {
    RecordView { rdlength: r.data.len() as u16, ..r }
}

/// A message as it reads back after writing: counts and rdata lengths follow the contents.
pub open spec fn normalized(m: MessageView) -> MessageView {
    MessageView {
        header: counted_header(m),
        questions: m.questions,
        answers: m.answers.map_values(|r: RecordView| with_rdlength(r)),
        authorities: m.authorities.map_values(|r: RecordView| with_rdlength(r)),
        additionals: m.additionals.map_values(|r: RecordView| with_rdlength(r)),
    }
}

proof fn lemma_question_read_back(pre: Seq<u8>, q: QuestionView, suf: Seq<u8>)
    requires
        question_valid(q),
    ensures
        question_at(pre + question_bytes(q) + suf, pre.len() as int) == Ok::<_, DecodeError>(
            (q, (pre.len() + question_bytes(q).len()) as int),
        ),
{
    let buf = pre + question_bytes(q) + suf;
    let nb = name_bytes(q.qname);
    let t = u16_bytes(q.qtype.spec_code());
    let c = u16_bytes(q.qclass.spec_code());
    assert(buf =~= pre + nb + (t + c + suf));
    lemma_name_read_back(pre, q.qname, t + c + suf, 0);
    assert(buf =~= (pre + nb) + t + (c + suf));
    lemma_u16_read_back(pre + nb, q.qtype.spec_code(), c + suf);
    assert(buf =~= (pre + nb + t) + c + suf);
    lemma_u16_read_back(pre + nb + t, q.qclass.spec_code(), suf);
    lemma_qtype_code(q.qtype);
    lemma_qclass_code(q.qclass);
}

proof fn lemma_record_tail_read_back(pre: Seq<u8>, r: RecordView, suf: Seq<u8>)
    requires
        record_valid(r),
    ensures
        record_tail_at(pre + record_tail_bytes(r) + suf, pre.len() as int, r.name, r.qtype, r.qclass)
            == Ok::<_, DecodeError>(
            (with_rdlength(r), (pre.len() + record_tail_bytes(r).len()) as int),
        ),
{
    let buf = pre + record_tail_bytes(r) + suf;
    let ttl = u32_bytes(u32_of(r.ttl));
    let len = u16_bytes(r.data.len() as u16);
    let opt: Seq<u8> = if r.qtype == QType::OPT {
        seq![option_byte(r.options_code), option_byte(r.options_length)]
    } else {
        Seq::empty()
    };
    let after = r.data + opt + suf;
    assert(buf =~= pre + ttl + (len + after));
    lemma_u32_read_back(pre, u32_of(r.ttl), len + after);
    assert(i32_of(u32_of(r.ttl)) == r.ttl);
    assert(buf =~= (pre + ttl) + len + after);
    lemma_u16_read_back(pre + ttl, r.data.len() as u16, after);
    let start = pre.len() as int + 6;
    assert(buf.subrange(start, start + r.data.len() as int) =~= r.data);
    if r.qtype == QType::OPT {
        let end = start + r.data.len() as int;
        assert(buf[end] == option_byte(r.options_code));
        assert(buf[end + 1] == option_byte(r.options_length));
    }
}

#[verifier::rlimit(100)]
#[verifier::spinoff_prover]
proof fn lemma_record_read_back(pre: Seq<u8>, r: RecordView, suf: Seq<u8>)
    requires
        record_valid(r),
    ensures
        record_at(pre + record_bytes(r) + suf, pre.len() as int) == Ok::<_, DecodeError>(
            (with_rdlength(r), (pre.len() + record_bytes(r).len()) as int),
        ),
{
    let buf = pre + record_bytes(r) + suf;
    let nb = name_bytes(r.name);
    let t = u16_bytes(r.qtype.spec_code());
    let c = class_bytes(r);
    let tail = record_tail_bytes(r);
    let pre3 = pre + nb + t + c;
    assert(buf =~= pre + nb + (t + c + tail + suf));
    lemma_name_read_back(pre, r.name, t + c + tail + suf, 0);
    assert(buf =~= (pre + nb) + t + (c + tail + suf));
    lemma_u16_read_back(pre + nb, r.qtype.spec_code(), c + tail + suf);
    lemma_qtype_code(r.qtype);
    assert(buf =~= pre3 + tail + suf);
    lemma_record_tail_read_back(pre3, r, suf);
    if r.qtype != QType::OPT {
        assert(buf =~= (pre + nb + t) + u16_bytes(r.qclass.spec_code()) + (tail + suf));
        lemma_u16_read_back(pre + nb + t, r.qclass.spec_code(), tail + suf);
        lemma_qclass_code(r.qclass);
    }
}

#[verifier::rlimit(100)]
#[verifier::spinoff_prover]
proof fn lemma_questions_read_back(pre: Seq<u8>, qs: Seq<QuestionView>, suf: Seq<u8>)
    requires
        forall|i: int| 0 <= i < qs.len() ==> question_valid(#[trigger] qs[i]),
    ensures
        questions_at(pre + questions_bytes(qs) + suf, pre.len() as int, qs.len()) == Ok::<
            _,
            DecodeError,
        >((qs, (pre.len() + questions_bytes(qs).len()) as int)),
    decreases qs.len(),
{
    if qs.len() == 0 {
        assert(questions_bytes(qs) =~= Seq::<u8>::empty());
        assert(qs =~= Seq::<QuestionView>::empty());
    } else {
        let q = qs[0];
        let rest = qs.drop_first();
        lemma_flatten_map_cons(qs, |x: QuestionView| question_bytes(x));
        let buf = pre + questions_bytes(qs) + suf;
        assert(buf =~= pre + question_bytes(q) + (questions_bytes(rest) + suf));
        lemma_question_read_back(pre, q, questions_bytes(rest) + suf);
        assert(buf =~= (pre + question_bytes(q)) + questions_bytes(rest) + suf);
        assert forall|i: int| 0 <= i < rest.len() implies question_valid(#[trigger] rest[i]) by {
            assert(rest[i] == qs[i + 1]);
        }
        lemma_questions_read_back(pre + question_bytes(q), rest, suf);
        assert(seq![q] + rest =~= qs);
    }
}

#[verifier::rlimit(100)]
#[verifier::spinoff_prover]
proof fn lemma_records_read_back(pre: Seq<u8>, rs: Seq<RecordView>, suf: Seq<u8>)
    requires
        forall|i: int| 0 <= i < rs.len() ==> record_valid(#[trigger] rs[i]),
    ensures
        records_at(pre + records_bytes(rs) + suf, pre.len() as int, rs.len()) == Ok::<
            _,
            DecodeError,
        >((rs.map_values(|r: RecordView| with_rdlength(r)), (pre.len() + records_bytes(rs).len()) as int)),
    decreases rs.len(),
{
    if rs.len() == 0 {
        assert(records_bytes(rs) =~= Seq::<u8>::empty());
        assert(rs.map_values(|r: RecordView| with_rdlength(r)) =~= Seq::<RecordView>::empty());
    } else {
        let r = rs[0];
        let rest = rs.drop_first();
        lemma_flatten_map_cons(rs, |x: RecordView| record_bytes(x));
        let buf = pre + records_bytes(rs) + suf;
        assert(buf =~= pre + record_bytes(r) + (records_bytes(rest) + suf));
        lemma_record_read_back(pre, r, records_bytes(rest) + suf);
        assert(buf =~= (pre + record_bytes(r)) + records_bytes(rest) + suf);
        assert forall|i: int| 0 <= i < rest.len() implies record_valid(#[trigger] rest[i]) by {
            assert(rest[i] == rs[i + 1]);
        }
        lemma_records_read_back(pre + record_bytes(r), rest, suf);
        assert(seq![with_rdlength(r)] + rest.map_values(|x: RecordView| with_rdlength(x))
            =~= rs.map_values(|x: RecordView| with_rdlength(x)));
    }
}

proof fn lemma_header_read_back(h: Header, suf: Seq<u8>)
    requires
        h.flags.z < 8,
    ensures
        header_at(header_bytes(h) + suf) == Ok::<_, DecodeError>(h),
{
    let buf = header_bytes(h) + suf;
    let e = Seq::<u8>::empty();
    let f = flag_bytes(h.flags);
    lemma_flags_read_back(h.flags);
    assert(buf =~= e + u16_bytes(h.id) + (f + u16_bytes(h.qdcount) + u16_bytes(h.ancount)
        + u16_bytes(h.nscount) + u16_bytes(h.arcount) + suf));
    lemma_u16_read_back(e, h.id, f + u16_bytes(h.qdcount) + u16_bytes(h.ancount) + u16_bytes(
        h.nscount,
    ) + u16_bytes(h.arcount) + suf);
    assert(buf[2] == f[0] && buf[3] == f[1]);
    let upto_qd = u16_bytes(h.id) + f;
    assert(buf =~= upto_qd + u16_bytes(h.qdcount) + (u16_bytes(h.ancount) + u16_bytes(h.nscount)
        + u16_bytes(h.arcount) + suf));
    lemma_u16_read_back(upto_qd, h.qdcount, u16_bytes(h.ancount) + u16_bytes(h.nscount) + u16_bytes(
        h.arcount,
    ) + suf);
    let upto_an = upto_qd + u16_bytes(h.qdcount);
    assert(buf =~= upto_an + u16_bytes(h.ancount) + (u16_bytes(h.nscount) + u16_bytes(h.arcount)
        + suf));
    lemma_u16_read_back(upto_an, h.ancount, u16_bytes(h.nscount) + u16_bytes(h.arcount) + suf);
    let upto_ns = upto_an + u16_bytes(h.ancount);
    assert(buf =~= upto_ns + u16_bytes(h.nscount) + (u16_bytes(h.arcount) + suf));
    lemma_u16_read_back(upto_ns, h.nscount, u16_bytes(h.arcount) + suf);
    let upto_ar = upto_ns + u16_bytes(h.nscount);
    assert(buf =~= upto_ar + u16_bytes(h.arcount) + suf);
    lemma_u16_read_back(upto_ar, h.arcount, suf);
}

/// Writing a valid message and reading the bytes back gives the message again, with
/// the header counts and rdata lengths that writing derives from the contents.
#[verifier::rlimit(100)]
#[verifier::spinoff_prover]
pub proof fn lemma_round_trip(m: MessageView)
    requires
        message_valid(m),
    ensures
        message_of(message_bytes(m)) == Ok::<_, DecodeError>(normalized(m)),
{
    let h = counted_header(m);
    let hb = header_bytes(h);
    let qb = questions_bytes(m.questions);
    let ab = records_bytes(m.answers);
    let nb = records_bytes(m.authorities);
    let rb = records_bytes(m.additionals);
    let buf = message_bytes(m);
    assert(buf == hb + qb + ab + nb + rb);
    assert(hb.len() == HEADER_LEN);
    lemma_header_read_back(h, qb + ab + nb + rb);
    assert(buf =~= hb + (qb + ab + nb + rb));
    assert(buf =~= hb + qb + (ab + nb + rb));
    lemma_questions_read_back(hb, m.questions, ab + nb + rb);
    assert(buf =~= (hb + qb) + ab + (nb + rb));
    lemma_records_read_back(hb + qb, m.answers, nb + rb);
    assert(buf =~= (hb + qb + ab) + nb + rb);
    lemma_records_read_back(hb + qb + ab, m.authorities, rb);
    assert(buf =~= (hb + qb + ab + nb) + rb + Seq::<u8>::empty());
    lemma_records_read_back(hb + qb + ab + nb, m.additionals, Seq::empty());
}

} // verus!
