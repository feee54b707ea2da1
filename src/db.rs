use vstd::prelude::*;

use crate::data::{Label, Name, QType, STAR};
use crate::record::Record;
use crate::trie::{below, occupied, path_view, resolve, Key, Trie};

verus! {

/// The trie edge that a label of a stored name becomes: `*` is the wildcard.
pub open spec fn zone_key(label: Seq<u8>) -> Key<Seq<u8>> {
    if label == seq![STAR] {
        Key::Wildcard
    } else {
        Key::Exact(label)
    }
}

/// The trie path of a stored name: its labels from the last to the first, `*` as the
/// wildcard.
pub open spec fn zone_path(name: Seq<Seq<u8>>) -> Seq<Key<Seq<u8>>> {
    Seq::new(name.len(), |i: int| zone_key(name[name.len() - 1 - i]))
}

/// The trie path of a queried name: its labels from the last to the first, each literal.
pub open spec fn query_path(name: Seq<Seq<u8>>) -> Seq<Key<Seq<u8>>> {
    Seq::new(name.len(), |i: int| Key::Exact(name[name.len() - 1 - i]))
}

/// Whether no stored path has a literal `*` edge.
pub open spec fn no_literal_star(m: Map<Seq<Key<Seq<u8>>>, Record>) -> bool {
    forall|p: Seq<Key<Seq<u8>>>, i: int|
        m.contains_key(p) && 0 <= i < p.len() ==> p[i] != Key::<Seq<u8>>::Exact(seq![STAR])
}

/// Whether a record answers a query of the given type.
pub open spec fn answers_type(record: Record, qtype: QType) -> bool {
    qtype == QType::ANY || record.spec_qtype() == qtype
}

/// What a lookup of `name` and `qtype` finds in the store `m`: the record that the trie
/// walk reaches, if it answers the type.
pub open spec fn zone_lookup(m: Map<Seq<Key<Seq<u8>>>, Record>, name: Seq<Seq<u8>>, qtype: QType) -> Option<Record> {
    match resolve(m, query_path(name)) {
        Some(r) => if answers_type(r, qtype) {
            Some(r)
        } else {
            None
        },
        None => None,
    }
}

/// The authoritative records, in a trie keyed by reversed labels.
#[derive(Debug, Default)]
pub struct Db {
    trie: Trie<Label, Record>,
}

impl View for Db {
    type V = Map<Seq<Key<Seq<u8>>>, Record>;

    closed spec fn view(&self) -> Map<Seq<Key<Seq<u8>>>, Record> {
        self.trie@
    }
}

impl Db {
    /// The trie is well formed and holds no literal `*` edge.
    pub closed spec fn wf(&self) -> bool {
        self.trie.wf() && no_literal_star(self.trie@)
    }

    /// An empty store.
    pub fn new() -> (r: Db)
        ensures
            r.wf(),
            r@ == Map::<Seq<Key<Seq<u8>>>, Record>::empty(),
    {
        Db { trie: Trie::new() }
    }

    /// Stores `record` under `name`, replacing what the name held.
    pub fn insert(&mut self, name: &Name, record: Record)
        requires
            old(self).wf(),
        ensures
            final(self).wf(),
            final(self)@ == old(self)@.insert(zone_path(name@), record),
    {
        let labels = name.labels();
        let n = labels.len();
        let mut keys: Vec<Key<Label>> = Vec::new();
        let mut i: usize = 0;
        while i < n
            invariant
                n == labels@.len(),
                n == name@.len(),
                i <= n,
                crate::data::label_views(labels@) == name@,
                path_view(keys@) =~= zone_path(name@).subrange(0, i as int),
            decreases n - i,
        {
            let label = &labels[n - 1 - i];
            assert(label@ == name@[n - 1 - i]);
            let key = if label.is_star() {
                Key::Wildcard
            } else {
                Key::Exact(label.clone())
            };
            let ghost prev = keys@;
            assert(key@ == zone_key(name@[n - 1 - i]));
            keys.push(key);
            assert(path_view(keys@) =~= path_view(prev).push(key@));
            i = i + 1;
            assert(path_view(keys@) =~= zone_path(name@).subrange(0, i as int));
        }
        assert(zone_path(name@).subrange(0, n as int) =~= zone_path(name@));
        self.trie.insert(keys.as_slice(), record);
        proof {
            let zp = zone_path(name@);
            assert forall|p: Seq<Key<Seq<u8>>>, j: int|
                self.trie@.contains_key(p) && 0 <= j < p.len() implies p[j] != Key::<Seq<u8>>::Exact(seq![STAR]) by {
                if p == zp {
                    assert(zp[j] == zone_key(name@[name@.len() - 1 - j]));
                } else {
                    assert(old(self).trie@.contains_key(p));
                }
            }
        }
    }

    /// The record for `name` that answers `qtype`, if any; `ANY` is answered by any record.
    pub fn lookup(&self, name: &Name, qtype: QType) -> (r: Option<&Record>)
        requires
            self.wf(),
        ensures
            match r {
                Some(rec) => zone_lookup(self@, name@, qtype) == Some(*rec),
                None => zone_lookup(self@, name@, qtype) is None,
            },
    {
        let labels = name.labels();
        let n = labels.len();
        let mut keys: Vec<Key<Label>> = Vec::new();
        let mut i: usize = 0;
        while i < n
            invariant
                n == labels@.len(),
                n == name@.len(),
                i <= n,
                crate::data::label_views(labels@) == name@,
                path_view(keys@) =~= query_path(name@).subrange(0, i as int),
            decreases n - i,
        {
            let label = &labels[n - 1 - i];
            assert(label@ == name@[n - 1 - i]);
            let ghost prev = keys@;
            let key = Key::Exact(label.clone());
            assert(key@ == Key::Exact(name@[n - 1 - i]));
            keys.push(key);
            assert(path_view(keys@) =~= path_view(prev).push(key@));
            i = i + 1;
            assert(path_view(keys@) =~= query_path(name@).subrange(0, i as int));
        }
        assert(query_path(name@).subrange(0, n as int) =~= query_path(name@));
        match self.trie.lookup(keys.as_slice()) {
            Some(record) => {
                if qtype == QType::ANY || record.qtype() == qtype {
                    Some(record)
                } else {
                    None
                }
            },
            None => None,
        }
    }
}

// ----- laws of the store -----

proof fn lemma_below_insert(
    m: Map<Seq<Key<Seq<u8>>>, Record>,
    p: Seq<Key<Seq<u8>>>,
    v: Record,
    k: Key<Seq<u8>>,
)
    ensures
        below(m.insert(p, v), k) == if p.len() > 0 && p[0] == k {
            below(m, k).insert(p.drop_first(), v)
        } else {
            below(m, k)
        },
{
    if p.len() > 0 && p[0] == k {
        assert forall|q: Seq<Key<Seq<u8>>>| (seq![k] + q == p) == (q == p.drop_first()) by {
            if q == p.drop_first() {
                assert(seq![k] + q =~= p);
            }
            if seq![k] + q == p {
                assert(q =~= (seq![k] + q).drop_first());
            }
        }
        assert(below(m.insert(p, v), k) =~= below(m, k).insert(p.drop_first(), v));
    } else {
        assert forall|q: Seq<Key<Seq<u8>>>| seq![k] + q != p by {
            if p.len() > 0 {
                assert((seq![k] + q)[0] == k);
            } else {
                assert((seq![k] + q).len() > 0);
            }
        }
        assert(below(m.insert(p, v), k) =~= below(m, k));
    }
}

/// The path of a stored name leads back to its record from the literal query path.
proof fn lemma_resolve_inserted(
    m: Map<Seq<Key<Seq<u8>>>, Record>,
    zp: Seq<Key<Seq<u8>>>,
    qp: Seq<Key<Seq<u8>>>,
    v: Record,
)
    requires
        no_literal_star(m),
        zp.len() == qp.len(),
        forall|i: int|
            0 <= i < zp.len() ==> #[trigger] zp[i] == qp[i] || (zp[i] == Key::<Seq<u8>>::Wildcard
                && qp[i] == Key::<Seq<u8>>::Exact(seq![STAR])),
    ensures
        resolve(m.insert(zp, v), qp) == Some(v),
    decreases zp.len(),
{
    let m2 = m.insert(zp, v);
    if zp.len() == 0 {
        assert(zp =~= Seq::<Key<Seq<u8>>>::empty());
    } else {
        let k = qp[0];
        let rest_z = zp.drop_first();
        let rest_q = qp.drop_first();
        let sub = below(m, zp[0]);
        assert(no_literal_star(sub)) by {
            assert forall|p: Seq<Key<Seq<u8>>>, i: int|
                sub.contains_key(p) && 0 <= i < p.len() implies p[i] != Key::<Seq<u8>>::Exact(
                seq![STAR]) by {
                assert(m.contains_key(seq![zp[0]] + p));
                assert((seq![zp[0]] + p)[i + 1] == p[i]);
            }
        }
        assert forall|i: int| 0 <= i < rest_z.len() implies #[trigger] rest_z[i] == rest_q[i] || (
        rest_z[i] == Key::<Seq<u8>>::Wildcard && rest_q[i] == Key::<Seq<u8>>::Exact(seq![STAR])) by {
            assert(rest_z[i] == zp[i + 1] && rest_q[i] == qp[i + 1]);
        }
        lemma_resolve_inserted(sub, rest_z, rest_q, v);
        lemma_below_insert(m, zp, v, zp[0]);
        assert(below(m2, zp[0]).contains_key(rest_z));
        if zp[0] == k {
        } else {
            lemma_below_insert(m, zp, v, k);
            assert(!occupied(below(m2, k))) by {
                assert forall|q: Seq<Key<Seq<u8>>>| !below(m2, k).contains_key(q) by {
                    if below(m, k).contains_key(q) {
                        assert(m.contains_key(seq![k] + q));
                        assert((seq![k] + q)[0] == k);
                    }
                }
            }
        }
    }
}

/// After storing `record` under `name`, a lookup of `name` finds that record for its own
/// type and for `ANY`, and nothing for any other type.
pub proof fn lemma_insert_then_lookup(db: Db, name: Seq<Seq<u8>>, record: Record, qtype: QType)
    requires
        db.wf(),
    ensures
        zone_lookup(db@.insert(zone_path(name), record), name, qtype) == if answers_type(
            record,
            qtype,
        ) {
            Some(record)
        } else {
            None
        },
{
    let zp = zone_path(name);
    let qp = query_path(name);
    assert forall|i: int| 0 <= i < zp.len() implies #[trigger] zp[i] == qp[i] || (zp[i]
        == Key::<Seq<u8>>::Wildcard && qp[i] == Key::<Seq<u8>>::Exact(seq![STAR])) by {
        assert(zp[i] == zone_key(name[name.len() - 1 - i]));
    }
    lemma_resolve_inserted(db@, zp, qp, record);
}

/// Every record that the store holds under the path of a name is what a lookup of that
/// name finds, for the record's own type and for `ANY`; other types find nothing. Later
/// insertions under other names leave this so.
pub proof fn lemma_stored_record_found(db: Db, name: Seq<Seq<u8>>, qtype: QType)
    requires
        db.wf(),
        db@.contains_key(zone_path(name)),
    ensures
        ({
            let record = db@[zone_path(name)];
            zone_lookup(db@, name, qtype) == if answers_type(record, qtype) {
                Some(record)
            } else {
                None
            }
        }),
{
    let zp = zone_path(name);
    assert(db@.insert(zp, db@[zp]) =~= db@);
    lemma_insert_then_lookup(db, name, db@[zp], qtype);
}

/// Whether the query path `qp` reaches the stored path `zp`: the same length, and at each
/// step the same key or a wildcard in the store.
pub open spec fn path_matches(zp: Seq<Key<Seq<u8>>>, qp: Seq<Key<Seq<u8>>>) -> bool {
    zp.len() == qp.len() && forall|i: int|
        0 <= i < zp.len() ==> #[trigger] zp[i] == qp[i] || zp[i] == Key::<Seq<u8>>::Wildcard
}

pub open spec fn single(zp: Seq<Key<Seq<u8>>>, v: Record) -> Map<Seq<Key<Seq<u8>>>, Record> {
    Map::<Seq<Key<Seq<u8>>>, Record>::empty().insert(zp, v)
}

proof fn lemma_below_single(zp: Seq<Key<Seq<u8>>>, v: Record, k: Key<Seq<u8>>)
    ensures
        zp.len() > 0 && zp[0] == k ==> below(single(zp, v), k) == single(zp.drop_first(), v),
        !(zp.len() > 0 && zp[0] == k) ==> !occupied(below(single(zp, v), k)),
{
    let e = Map::<Seq<Key<Seq<u8>>>, Record>::empty();
    lemma_below_insert(e, zp, v, k);
    assert(below(e, k) =~= e);
}

proof fn lemma_path_matches_step(zp: Seq<Key<Seq<u8>>>, qp: Seq<Key<Seq<u8>>>)
    requires
        zp.len() > 0,
        qp.len() > 0,
    ensures
        path_matches(zp, qp) == ((zp[0] == qp[0] || zp[0] == Key::<Seq<u8>>::Wildcard)
            && path_matches(zp.drop_first(), qp.drop_first())),
{
    let z1 = zp.drop_first();
    let q1 = qp.drop_first();
    if path_matches(zp, qp) {
        assert forall|i: int| 0 <= i < z1.len() implies #[trigger] z1[i] == q1[i] || z1[i]
            == Key::<Seq<u8>>::Wildcard by {
            assert(z1[i] == zp[i + 1] && q1[i] == qp[i + 1]);
        }
        assert(zp[0] == qp[0] || zp[0] == Key::<Seq<u8>>::Wildcard);
    }
    if (zp[0] == qp[0] || zp[0] == Key::<Seq<u8>>::Wildcard) && path_matches(z1, q1) {
        assert forall|i: int| 0 <= i < zp.len() implies #[trigger] zp[i] == qp[i] || zp[i]
            == Key::<Seq<u8>>::Wildcard by {
            if i > 0 {
                assert(z1[i - 1] == zp[i] && q1[i - 1] == qp[i]);
            }
        }
    }
}

proof fn lemma_resolve_single(zp: Seq<Key<Seq<u8>>>, qp: Seq<Key<Seq<u8>>>, v: Record)
    ensures
        resolve(single(zp, v), qp) == if path_matches(zp, qp) {
            Some(v)
        } else {
            None
        },
    decreases qp.len(),
{
    let m = single(zp, v);
    if qp.len() == 0 {
        if zp.len() == 0 {
            assert(zp =~= Seq::<Key<Seq<u8>>>::empty());
        } else {
            assert(!m.contains_key(Seq::<Key<Seq<u8>>>::empty()));
        }
    } else if zp.len() == 0 {
        lemma_below_single(zp, v, qp[0]);
        lemma_below_single(zp, v, Key::Wildcard);
    } else {
        lemma_below_single(zp, v, qp[0]);
        lemma_below_single(zp, v, Key::Wildcard);
        lemma_resolve_single(zp.drop_first(), qp.drop_first(), v);
        lemma_path_matches_step(zp, qp);
        assert(single(zp.drop_first(), v).contains_key(zp.drop_first()));
    }
}

/// On a store that holds only a wildcard record for `*` followed by `suffix`, a name of
/// one label followed by `suffix` finds the record, while `suffix` itself and a name of
/// two labels followed by `suffix` find nothing: the wildcard stands for exactly one label.
pub proof fn lemma_wildcard_scope(
    suffix: Seq<Seq<u8>>,
    x: Seq<u8>,
    a: Seq<u8>,
    b: Seq<u8>,
    record: Record,
    qtype: QType,
)
    requires
        answers_type(record, qtype),
    ensures
        ({
            let m = single(zone_path(seq![seq![STAR]] + suffix), record);
            &&& zone_lookup(m, seq![x] + suffix, qtype) == Some(record)
            &&& zone_lookup(m, suffix, qtype) is None
            &&& zone_lookup(m, seq![a, b] + suffix, qtype) is None
        }),
{
    let zp = zone_path(seq![seq![STAR]] + suffix);
    let n = suffix.len();
    lemma_resolve_single(zp, query_path(seq![x] + suffix), record);
    lemma_resolve_single(zp, query_path(suffix), record);
    lemma_resolve_single(zp, query_path(seq![a, b] + suffix), record);
    let qp = query_path(seq![x] + suffix);
    assert(path_matches(zp, qp)) by {
        assert forall|i: int| 0 <= i < zp.len() implies #[trigger] zp[i] == qp[i] || zp[i]
            == Key::<Seq<u8>>::Wildcard by {
            let full = seq![seq![STAR]] + suffix;
            let q = seq![x] + suffix;
            if i < n {
                assert(full[n - i] == suffix[n - 1 - i]);
                assert(q[n - i] == suffix[n - 1 - i]);
            } else {
                assert(full[0] == seq![STAR]);
            }
        }
    }
}

} // verus!
