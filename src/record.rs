use vstd::prelude::*;
use vstd::utf8::encode_utf8;

use crate::codec::name_bytes;
use crate::data::{Name, QClass, QType};

verus! {

/// A record held by the zone store.
#[derive(Clone, Debug, PartialEq, Eq)]
pub enum Record {
    A { address: [u8; 4] },
    CNAME { name: Name },
    TXT { text: String },
}

impl Record {
    pub open spec fn spec_qtype(&self) -> QType {
        match self {
            Record::A { .. } => QType::A,
            Record::CNAME { .. } => QType::CNAME,
            Record::TXT { .. } => QType::TXT,
        }
    }

    /// Whether the record has an rdata form: a text record holds at most 255 bytes.
    pub open spec fn has_rdata(&self) -> bool {
        match self {
            Record::TXT { text } => encode_utf8(text@).len() <= 255,
            _ => true,
        }
    }

    /// The rdata of the record: the four address bytes, the literal wire form of the
    /// canonical name, or the text after its length byte.
    pub open spec fn rdata(&self) -> Seq<u8> {
        match self {
            Record::A { address } => address@,
            Record::CNAME { name } => name_bytes(name@),
            Record::TXT { text } => seq![encode_utf8(text@).len() as u8] + encode_utf8(text@),
        }
    }

    /// The record's type.
    pub fn qtype(&self) -> (r: QType)
        ensures
            r == self.spec_qtype(),
    {
        match self {
            Record::A { .. } => QType::A,
            Record::CNAME { .. } => QType::CNAME,
            Record::TXT { .. } => QType::TXT,
        }
    }

    /// The record's class: records held locally are always of class IN.
    pub fn qclass(&self) -> (r: QClass)
        ensures
            r == QClass::IN,
    {
        QClass::IN
    }

    /// Whether the record has an rdata form.
    pub fn fits_rdata(&self) -> (r: bool)
        ensures
            r == self.has_rdata(),
    {
        match self {
            Record::TXT { text } => text.as_str().as_bytes().len() <= 255,
            _ => true,
        }
    }

    /// The rdata that an answer with this record carries.
    pub fn to_bytes(&self) -> (r: Vec<u8>)
        requires
            self.has_rdata(),
        ensures
            r@ == self.rdata(),
    {
        match self {
            Record::A { address } => {
                let r = vec![address[0], address[1], address[2], address[3]];
                assert(r@ =~= address@);
                r
            },
            Record::CNAME { name } => name.to_bytes(),
            Record::TXT { text } => {
                let bytes = text.as_str().as_bytes();
                let mut r: Vec<u8> = Vec::new();
                r.push(bytes.len() as u8);
                r.extend_from_slice(bytes);
                assert(r@ =~= self.rdata());
                r
            },
        }
    }
}

/// Records by type, at most one of each type.
#[derive(Clone, Debug, Default)]
pub struct RecordMap {
    records: Vec<Record>,
}

impl View for RecordMap {
    type V = Map<QType, Record>;

    closed spec fn view(&self) -> Map<QType, Record> {
        Map::new(
            |t: QType| exists|i: int| 0 <= i < self.records@.len() && (#[trigger] self.records@[i]).spec_qtype() == t,
            |t: QType|
                self.records@[choose|i: int|
                    0 <= i < self.records@.len() && (#[trigger] self.records@[i]).spec_qtype() == t],
        )
    }
}

impl RecordMap {
    /// No two records share a type.
    pub closed spec fn wf(&self) -> bool {
        forall|i: int, j: int|
            0 <= i < j < self.records@.len() ==> (#[trigger] self.records@[i]).spec_qtype()
                != (#[trigger] self.records@[j]).spec_qtype()
    }

    proof fn lemma_at(&self, i: int)
        requires
            self.wf(),
            0 <= i < self.records@.len(),
        ensures
            self@.contains_key(self.records@[i].spec_qtype()),
            self@[self.records@[i].spec_qtype()] == self.records@[i],
    {
        let t = self.records@[i].spec_qtype();
        let j = choose|j: int| 0 <= j < self.records@.len() && (#[trigger] self.records@[j]).spec_qtype() == t;
        assert(j == i);
    }

    /// An empty map.
    pub fn new() -> (r: Self)
        ensures
            r.wf(),
            r@ == Map::<QType, Record>::empty(),
    {
        let r = RecordMap { records: Vec::new() };
        assert(r@ =~= Map::<QType, Record>::empty());
        r
    }

    fn position(&self, qtype: QType) -> (r: Option<usize>)
        ensures
            match r {
                Some(i) => i < self.records@.len() && self.records@[i as int].spec_qtype() == qtype,
                None => !self@.contains_key(qtype),
            },
    {
        let mut i: usize = 0;
        while i < self.records.len()
            invariant
                i <= self.records@.len(),
                forall|j: int| 0 <= j < i ==> (#[trigger] self.records@[j]).spec_qtype() != qtype,
            decreases self.records@.len() - i,
        {
            if self.records[i].qtype() == qtype {
                return Some(i);
            }
            i = i + 1;
        }
        None
    }

    /// Stores `record` under its type, replacing the record of that type, if any.
    pub fn insert(&mut self, record: Record)
        requires
            old(self).wf(),
        ensures
            final(self).wf(),
            final(self)@ == old(self)@.insert(record.spec_qtype(), record),
    {
        let ghost t = record.spec_qtype();
        match self.position(record.qtype()) {
            Some(i) => {
                self.records.set(i, record);
                proof {
                    assert forall|a: int, b: int|
                        0 <= a < b < self.records@.len() implies (#[trigger] self.records@[a]).spec_qtype()
                        != (#[trigger] self.records@[b]).spec_qtype() by {
                        assert(old(self).records@[a].spec_qtype() == self.records@[a].spec_qtype());
                        assert(old(self).records@[b].spec_qtype() == self.records@[b].spec_qtype());
                    }
                    assert forall|u: QType| #[trigger] self@.contains_key(u) == old(self)@.insert(t, record).contains_key(u)
                        && (self@.contains_key(u) ==> self@[u] == old(self)@.insert(t, record)[u]) by {
                        if u == t {
                            self.lemma_at(i as int);
                        } else if old(self)@.contains_key(u) {
                            let j = choose|j: int| 0 <= j < old(self).records@.len() && (#[trigger] old(self).records@[j]).spec_qtype() == u;
                            old(self).lemma_at(j);
                            self.lemma_at(j);
                        } else if self@.contains_key(u) {
                            let j = choose|j: int| 0 <= j < self.records@.len() && (#[trigger] self.records@[j]).spec_qtype() == u;
                            assert(old(self).records@[j].spec_qtype() == u);
                        }
                    }
                    assert(self@ =~= old(self)@.insert(t, record));
                }
            },
            None => {
                self.records.push(record);
                proof {
                    let n = old(self).records@.len() as int;
                    assert forall|a: int, b: int|
                        0 <= a < b < self.records@.len() implies (#[trigger] self.records@[a]).spec_qtype()
                        != (#[trigger] self.records@[b]).spec_qtype() by {
                        assert(old(self).records@[a] == self.records@[a]);
                        if b < n {
                            assert(old(self).records@[b] == self.records@[b]);
                        } else {
                            assert(old(self)@.contains_key(self.records@[a].spec_qtype())) by {
                                old(self).lemma_at(a);
                            }
                        }
                    }
                    assert forall|u: QType| #[trigger] self@.contains_key(u) == old(self)@.insert(t, record).contains_key(u)
                        && (self@.contains_key(u) ==> self@[u] == old(self)@.insert(t, record)[u]) by {
                        if u == t {
                            self.lemma_at(n);
                        } else if old(self)@.contains_key(u) {
                            let j = choose|j: int| 0 <= j < old(self).records@.len() && (#[trigger] old(self).records@[j]).spec_qtype() == u;
                            old(self).lemma_at(j);
                            assert(self.records@[j] == old(self).records@[j]);
                            self.lemma_at(j);
                        } else if self@.contains_key(u) {
                            let j = choose|j: int| 0 <= j < self.records@.len() && (#[trigger] self.records@[j]).spec_qtype() == u;
                            assert(j < n);
                            assert(old(self).records@[j] == self.records@[j]);
                        }
                    }
                    assert(self@ =~= old(self)@.insert(t, record));
                }
            },
        }
    }

    /// The record of the given type, if any.
    pub fn get(&self, qtype: QType) -> (r: Option<&Record>)
        requires
            self.wf(),
        ensures
            match r {
                Some(rec) => self@.contains_key(qtype) && self@[qtype] == *rec,
                None => !self@.contains_key(qtype),
            },
    {
        match self.position(qtype) {
            Some(i) => {
                proof {
                    self.lemma_at(i as int);
                }
                Some(&self.records[i])
            },
            None => None,
        }
    }

    /// Removes and returns the record of the given type, if any.
    pub fn remove(&mut self, qtype: QType) -> (r: Option<Record>)
        requires
            old(self).wf(),
        ensures
            final(self).wf(),
            final(self)@ == old(self)@.remove(qtype),
            match r {
                Some(rec) => old(self)@.contains_key(qtype) && old(self)@[qtype] == rec,
                None => !old(self)@.contains_key(qtype),
            },
    {
        match self.position(qtype) {
            Some(i) => {
                proof {
                    self.lemma_at(i as int);
                }
                let rec = self.records.remove(i);
                proof {
                    let old_rs = old(self).records@;
                    assert(self.records@ =~= old_rs.subrange(0, i as int) + old_rs.subrange(i as int + 1, old_rs.len() as int));
                    assert forall|a: int, b: int|
                        0 <= a < b < self.records@.len() implies (#[trigger] self.records@[a]).spec_qtype()
                        != (#[trigger] self.records@[b]).spec_qtype() by {
                        let a2 = if a < i { a } else { a + 1 };
                        let b2 = if b < i { b } else { b + 1 };
                        assert(self.records@[a] == old_rs[a2]);
                        assert(self.records@[b] == old_rs[b2]);
                    }
                    assert forall|u: QType| #[trigger] self@.contains_key(u) == old(self)@.remove(qtype).contains_key(u)
                        && (self@.contains_key(u) ==> self@[u] == old(self)@.remove(qtype)[u]) by {
                        if self@.contains_key(u) {
                            let j = choose|j: int| 0 <= j < self.records@.len() && (#[trigger] self.records@[j]).spec_qtype() == u;
                            let j2 = if j < i { j } else { j + 1 };
                            assert(self.records@[j] == old_rs[j2]);
                            self.lemma_at(j);
                            old(self).lemma_at(j2);
                        } else if old(self)@.contains_key(u) && u != qtype {
                            let j = choose|j: int| 0 <= j < old_rs.len() && (#[trigger] old_rs[j]).spec_qtype() == u;
                            assert(j != i);
                            let j2 = if j < i { j } else { j - 1 };
                            assert(self.records@[j2] == old_rs[j]);
                        }
                    }
                    assert(self@ =~= old(self)@.remove(qtype));
                }
                Some(rec)
            },
            None => {
                assert(self@ =~= old(self)@.remove(qtype));
                None
            },
        }
    }

    /// Each stored record with its type.
    pub fn iter(&self) -> (r: Vec<(QType, &Record)>)
        requires
            self.wf(),
        ensures
            forall|t: QType| self@.contains_key(t) <==> exists|i: int| 0 <= i < r@.len() && (#[trigger] r@[i]).0 == t,
            forall|i: int| 0 <= i < r@.len() ==> self@.contains_key((#[trigger] r@[i]).0) && self@[r@[i].0] == *r@[i].1,
            forall|i: int, j: int| 0 <= i < j < r@.len() ==> (#[trigger] r@[i]).0 != (#[trigger] r@[j]).0,
    {
        let mut r: Vec<(QType, &Record)> = Vec::new();
        let mut i: usize = 0;
        while i < self.records.len()
            invariant
                self.wf(),
                i <= self.records@.len(),
                r@.len() == i,
                forall|j: int| 0 <= j < i ==> (#[trigger] r@[j]).0 == self.records@[j].spec_qtype() && *r@[j].1 == self.records@[j],
            decreases self.records@.len() - i,
        {
            let rec = &self.records[i];
            r.push((rec.qtype(), rec));
            i = i + 1;
        }
        proof {
            assert forall|t: QType| self@.contains_key(t) implies exists|i: int| 0 <= i < r@.len() && (#[trigger] r@[i]).0 == t by {
                let j = choose|j: int| 0 <= j < self.records@.len() && (#[trigger] self.records@[j]).spec_qtype() == t;
                assert(r@[j].0 == t);
            }
            assert forall|i: int| 0 <= i < r@.len() implies self@.contains_key((#[trigger] r@[i]).0) && self@[r@[i].0] == *r@[i].1 by {
                self.lemma_at(i);
            }
        }
        r
    }

    /// Whether no record is stored.
    pub fn is_empty(&self) -> (r: bool)
        ensures
            r == (self@ == Map::<QType, Record>::empty()),
    {
        if self.records.len() == 0 {
            assert(self@ =~= Map::<QType, Record>::empty());
            true
        } else {
            assert(self@.contains_key(self.records@[0].spec_qtype()));
            false
        }
    }
}

} // verus!
