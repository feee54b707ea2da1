use vstd::prelude::*;

use crate::codec::{
    message_bytes, message_of, message_valid, DecodeError, EncodeError, MessageView, QuestionView,
    RecordView,
};
use crate::data::{Flags, Header, Message, QClass, Question, ResourceRecord};
use crate::db::{zone_lookup, Db};
use crate::trie::Key;

verus! {

/// The time to live of every locally answered record, in seconds.
pub const ANSWER_TTL: i32 = 1;

/// What to do with a datagram received from a client.
#[derive(Debug)]
pub enum Action {
    /// Send these bytes back to the client.
    Reply(Vec<u8>),
    /// Send the request bytes, unchanged, to the upstream resolver and relay its reply.
    Forward,
    /// Send nothing: the request could not be decoded.
    Undecodable(DecodeError),
    /// Send nothing: the answer could not be encoded.
    Unencodable(EncodeError),
}

/// The answer record for one question, `None` when the store holds no record for it.
pub open spec fn answer_for(
    m: Map<Seq<Key<Seq<u8>>>, crate::record::Record>,
    q: QuestionView,
) -> Result<Option<RecordView>, EncodeError> {
    match zone_lookup(m, q.qname, q.qtype) {
        None => Ok(None),
        Some(rec) => if rec.has_rdata() && rec.rdata().len() <= u16::MAX {
            Ok(
                Some(
                    RecordView {
                        name: q.qname,
                        qtype: rec.spec_qtype(),
                        qclass: QClass::IN,
                        ttl: ANSWER_TTL,
                        rdlength: rec.rdata().len() as u16,
                        data: rec.rdata(),
                        options_code: None,
                        options_length: None,
                    },
                ),
            )
        } else {
            Err(EncodeError::Unrepresentable)
        },
    }
}

/// Whether the store holds a record for every question.
pub open spec fn all_found(
    m: Map<Seq<Key<Seq<u8>>>, crate::record::Record>,
    qs: Seq<QuestionView>,
) -> bool {
    forall|i: int| 0 <= i < qs.len() ==> zone_lookup(m, qs[i].qname, (#[trigger] qs[i]).qtype) is Some
}

/// The answers to the questions, taken in order: the first question that cannot be
/// answered ends the walk with `None`, the first answer that cannot be encoded with an error.
pub open spec fn answers_for(
    m: Map<Seq<Key<Seq<u8>>>, crate::record::Record>,
    qs: Seq<QuestionView>,
) -> Result<Option<Seq<RecordView>>, EncodeError>
    decreases qs.len(),
{
    if qs.len() == 0 {
        Ok(Some(Seq::empty()))
    } else {
        match answers_for(m, qs.drop_last()) {
            Err(e) => Err(e),
            Ok(None) => Ok(None),
            Ok(Some(prev)) => match answer_for(m, qs.last()) {
                Err(e) => Err(e),
                Ok(None) => Ok(None),
                Ok(Some(a)) => Ok(Some(prev.push(a))),
            },
        }
    }
}

/// The response to `request`: `None`, so that the request is forwarded whole, when some
/// question has no local record; else the authoritative answer, with the request's id and
/// opcode, fresh answer flags and the answers only, or an error when an answer cannot be
/// encoded.
pub open spec fn response_for(
    m: Map<Seq<Key<Seq<u8>>>, crate::record::Record>,
    request: MessageView,
) -> Result<Option<MessageView>, EncodeError> {
    if !all_found(m, request.questions) {
        Ok(None)
    } else if request.questions.len() > u16::MAX {
        Err(EncodeError::Unrepresentable)
    } else {
        match answers_for(m, request.questions) {
            Err(e) => Err(e),
            Ok(None) => Ok(None),
            Ok(Some(answers)) => Ok(
                Some(
                    MessageView {
                        header: Header {
                            id: request.header.id,
                            flags: Flags {
                                qr: true,
                                opcode: request.header.flags.opcode,
                                aa: true,
                                tc: false,
                                rd: false,
                                ra: false,
                                z: 0,
                                rcode: crate::data::RCode::NoError,
                            },
                            qdcount: 0,
                            ancount: answers.len() as u16,
                            nscount: 0,
                            arcount: 0,
                        },
                        questions: Seq::empty(),
                        answers,
                        authorities: Seq::empty(),
                        additionals: Seq::empty(),
                    },
                ),
            ),
        }
    }
}

/// Answers one question from the store.
pub fn answer_question(db: &Db, question: &Question) -> (r: Result<
    Option<ResourceRecord>,
    EncodeError,
>)
    requires
        db.wf(),
    ensures
        match r {
            Ok(Some(rec)) => answer_for(db@, question@) == Ok::<_, EncodeError>(Some(rec@)),
            Ok(None) => answer_for(db@, question@) == Ok::<Option<RecordView>, EncodeError>(None),
            Err(e) => answer_for(db@, question@) == Err::<Option<RecordView>, _>(e),
        },
{
    let record = match db.lookup(&question.qname, question.qtype) {
        Some(record) => record,
        None => return Ok(None),
    };
    if !record.fits_rdata() {
        return Err(EncodeError::Unrepresentable);
    }
    let data = record.to_bytes();
    if data.len() > u16::MAX as usize {
        return Err(EncodeError::Unrepresentable);
    }
    Ok(
        Some(
            ResourceRecord {
                name: question.qname.clone(),
                qtype: record.qtype(),
                qclass: record.qclass(),
                ttl: ANSWER_TTL,
                rdlength: data.len() as u16,
                data,
                options_code: None,
                options_length: None,
            },
        ),
    )
}

/// Builds the authoritative response to `message`, or `None` when some question has no
/// local answer and the request is to be forwarded.
pub fn handle_message(db: &Db, message: &Message) -> (r: Result<Option<Message>, EncodeError>)
    requires
        db.wf(),
    ensures
        match r {
            Ok(Some(resp)) => response_for(db@, message@) == Ok::<_, EncodeError>(Some(resp@)),
            Ok(None) => response_for(db@, message@) == Ok::<Option<MessageView>, EncodeError>(
                None,
            ),
            Err(e) => response_for(db@, message@) == Err::<Option<MessageView>, _>(e),
        },
{
    let ghost qs = message@.questions;
    let mut k: usize = 0;
    while k < message.questions.len()
        invariant
            db.wf(),
            qs == message@.questions,
            k <= qs.len(),
            forall|j: int| 0 <= j < k ==> zone_lookup(db@, qs[j].qname, (#[trigger] qs[j]).qtype) is Some,
        decreases qs.len() - k,
    {
        let q = &message.questions[k];
        assert(qs[k as int] == q@);
        if db.lookup(&q.qname, q.qtype).is_none() {
            return Ok(None);
        }
        k = k + 1;
    }
    assert(all_found(db@, qs));
    if message.questions.len() > u16::MAX as usize {
        return Err(EncodeError::Unrepresentable);
    }
    let mut answers: Vec<ResourceRecord> = Vec::new();
    let mut i: usize = 0;
    assert(qs.subrange(0, 0) =~= Seq::<QuestionView>::empty());
    assert(crate::codec::record_views(answers@) =~= Seq::<RecordView>::empty());
    while i < message.questions.len()
        invariant
            db.wf(),
            qs == message@.questions,
            qs.len() <= u16::MAX,
            all_found(db@, qs),
            i <= qs.len(),
            answers@.len() == i,
            answers_for(db@, qs.subrange(0, i as int)) == Ok::<_, EncodeError>(
                Some(crate::codec::record_views(answers@)),
            ),
        decreases qs.len() - i,
    {
        let q = &message.questions[i];
        assert(qs.subrange(0, i as int + 1).drop_last() =~= qs.subrange(0, i as int));
        assert(qs.subrange(0, i as int + 1).last() == q@);
        let a = match answer_question(db, q) {
            Ok(Some(a)) => a,
            Ok(None) => {
                proof {
                    lemma_answers_stop(db@, qs, i as int + 1);
                }
                return Ok(None);
            },
            Err(e) => {
                proof {
                    lemma_answers_stop(db@, qs, i as int + 1);
                }
                return Err(e);
            },
        };
        let ghost prev = answers@;
        answers.push(a);
        assert(crate::codec::record_views(answers@) =~= crate::codec::record_views(prev).push(
            a@,
        ));
        i = i + 1;
    }
    assert(qs.subrange(0, i as int) =~= qs);
    let n = answers.len();
    let header = Header {
        id: message.header.id,
        flags: Flags::answer(message.header.flags.opcode),
        qdcount: 0,
        ancount: n as u16,
        nscount: 0,
        arcount: 0,
    };
    let response = Message {
        header,
        questions: Vec::new(),
        answers,
        authorities: Vec::new(),
        additionals: Vec::new(),
    };
    assert(response@.questions =~= Seq::<QuestionView>::empty());
    assert(response@.authorities =~= Seq::<RecordView>::empty());
    assert(response@.additionals =~= Seq::<RecordView>::empty());
    Ok(Some(response))
}

/// Once the walk over the first `n` questions has stopped, it stays stopped.
proof fn lemma_answers_stop(
    m: Map<Seq<Key<Seq<u8>>>, crate::record::Record>,
    qs: Seq<QuestionView>,
    n: int,
)
    requires
        0 <= n <= qs.len(),
        !(answers_for(m, qs.subrange(0, n)) is Ok && answers_for(m, qs.subrange(0, n))->Ok_0 is Some),
    ensures
        answers_for(m, qs) == answers_for(m, qs.subrange(0, n)),
    decreases qs.len() - n,
{
    if n < qs.len() {
        let next = qs.subrange(0, n + 1);
        assert(next.drop_last() =~= qs.subrange(0, n));
        lemma_answers_stop(m, qs, n + 1);
    } else {
        assert(qs.subrange(0, n) =~= qs);
    }
}

/// Decides what to do with the datagram `request`: reply with the encoded local answer,
/// forward it when some question has no local answer, or drop it when it cannot be
/// decoded or its answer cannot be encoded.
pub fn dispatch(db: &Db, request: &[u8]) -> (r: Action)
    requires
        db.wf(),
    ensures
        match message_of(request@) {
            Err(e) => r == Action::Undecodable(e),
            Ok(m) => match response_for(db@, m) {
                Err(e) => r == Action::Unencodable(e),
                Ok(None) => r is Forward,
                Ok(Some(resp)) => if message_valid(resp) {
                    r matches Action::Reply(b) && b@ == message_bytes(resp)
                } else {
                    r == Action::Unencodable(EncodeError::Unrepresentable)
                },
            },
        },
{
    let message = match Message::from_bytes(request) {
        Ok(m) => m,
        Err(e) => return Action::Undecodable(e),
    };
    match handle_message(db, &message) {
        Err(e) => Action::Unencodable(e),
        Ok(None) => Action::Forward,
        Ok(Some(response)) => match response.to_bytes() {
            Ok(bytes) => Action::Reply(bytes),
            Err(e) => Action::Unencodable(e),
        },
    }
}

/// The bytes to relay to the client for an upstream reply: the reply itself, unchanged,
/// when it decodes as a message, and nothing otherwise.
pub fn relay(reply: &[u8]) -> (r: Option<Vec<u8>>)
    ensures
        match r {
            Some(bytes) => message_of(reply@) is Ok && bytes@ == reply@,
            None => message_of(reply@) is Err,
        },
{
    match Message::from_bytes(reply) {
        Ok(_) => Some(vstd::slice::slice_to_vec(reply)),
        Err(_) => None,
    }
}

/// A request with a question that has no local record gets no local response, whatever
/// the other questions find: it is forwarded whole, and `relay` then hands the upstream
/// reply back unchanged.
pub proof fn lemma_forwarding_fallback(
    m: Map<Seq<Key<Seq<u8>>>, crate::record::Record>,
    request: MessageView,
    j: int,
)
    requires
        0 <= j < request.questions.len(),
        zone_lookup(m, request.questions[j].qname, request.questions[j].qtype) is None,
    ensures
        response_for(m, request) == Ok::<Option<MessageView>, EncodeError>(None),
{
    assert(!all_found(m, request.questions));
}

} // verus!
