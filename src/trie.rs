use vstd::prelude::*;

use vstd::string::StringSliceAdditionalSpecFns;

use crate::data::{bytes_equal, Label};

verus! {

/// What a trie edge is labelled with, compared as bytes.
pub trait TrieKey: Sized {
    spec fn key_view(&self) -> Seq<u8>;

    fn same_key(&self, other: &Self) -> (r: bool)
        ensures
            r == (self.key_view() == other.key_view()),
    ;

    fn copy_key(&self) -> (r: Self)
        ensures
            r.key_view() == self.key_view(),
    ;
}

impl TrieKey for Label {
    open spec fn key_view(&self) -> Seq<u8> {
        self@
    }

    fn same_key(&self, other: &Self) -> (r: bool) {
        bytes_equal(self.as_bytes(), other.as_bytes())
    }

    fn copy_key(&self) -> (r: Self) {
        self.clone()
    }
}

impl<'a> TrieKey for &'a str {
    open spec fn key_view(&self) -> Seq<u8> {
        (**self).spec_bytes()
    }

    fn same_key(&self, other: &Self) -> (r: bool) {
        bytes_equal(self.as_bytes(), other.as_bytes())
    }

    fn copy_key(&self) -> (r: Self) {
        *self
    }
}

/// An edge of the trie: a literal key, or the wildcard that matches any one key.
#[derive(Clone, Debug, PartialEq, Eq, PartialOrd, Ord, Hash)]
pub enum Key<K> {
    Wildcard,
    Exact(K),
}

impl<K: TrieKey> View for Key<K> {
    type V = Key<Seq<u8>>;

    open spec fn view(&self) -> Key<Seq<u8>> {
        match self {
            Key::Wildcard => Key::Wildcard,
            Key::Exact(k) => Key::Exact(k.key_view()),
        }
    }
}

impl<K: TrieKey> Key<K> {
    /// Whether two edges carry the same key.
    pub fn same(&self, other: &Key<K>) -> (r: bool)
        ensures
            r == (self@ == other@),
    {
        match (self, other) {
            (Key::Wildcard, Key::Wildcard) => true,
            (Key::Exact(a), Key::Exact(b)) => a.same_key(b),
            _ => false,
        }
    }

    /// An edge with the same key.
    pub fn copy(&self) -> (r: Key<K>)
        ensures
            r@ == self@,
    {
        match self {
            Key::Wildcard => Key::Wildcard,
            Key::Exact(k) => Key::Exact(k.copy_key()),
        }
    }
}

/// The keys of a path of edges.
pub open spec fn path_view<K: TrieKey>(keys: Seq<Key<K>>) -> Seq<Key<Seq<u8>>> {
    keys.map_values(|k: Key<K>| k@)
}

/// The entries of `m` whose path starts with `k`, keyed by the rest of the path.
pub open spec fn below<V>(m: Map<Seq<Key<Seq<u8>>>, V>, k: Key<Seq<u8>>) -> Map<
    Seq<Key<Seq<u8>>>,
    V,
> {
    Map::new(|p: Seq<Key<Seq<u8>>>| m.contains_key(seq![k] + p), |p: Seq<Key<Seq<u8>>>| m[seq![k] + p])
}

/// Whether `m` holds any entry.
pub open spec fn occupied<V>(m: Map<Seq<Key<Seq<u8>>>, V>) -> bool {
    exists|p: Seq<Key<Seq<u8>>>| m.contains_key(p)
}

/// Looking `keys` up in the entries `m`: at each step go down the edge with the key
/// itself if any entry lies below it, else down the wildcard edge if any entry lies
/// below that, else fail; once the keys are used up, the entry at that node, if any.
pub open spec fn resolve<V>(m: Map<Seq<Key<Seq<u8>>>, V>, keys: Seq<Key<Seq<u8>>>) -> Option<V>
    decreases keys.len(),
{
    if keys.len() == 0 {
        if m.contains_key(Seq::empty()) {
            Some(m[Seq::empty()])
        } else {
            None
        }
    } else if occupied(below(m, keys[0])) {
        resolve(below(m, keys[0]), keys.drop_first())
    } else if occupied(below(m, Key::Wildcard)) {
        resolve(below(m, Key::Wildcard), keys.drop_first())
    } else {
        None
    }
}

/// A node of the trie: edges to child nodes, each key at most once, and an optional value.
#[derive(Debug)]
pub struct Node<K, V> {
    children: Vec<(Key<K>, Node<K, V>)>,
    value: Option<V>,
}

impl<K: TrieKey, V> Node<K, V> {
    /// The value at `path` below this node.
    pub closed spec fn get(self, path: Seq<Key<Seq<u8>>>) -> Option<V>
        decreases path.len(),
    {
        if path.len() == 0 {
            self.value
        } else if exists|i: int|
            0 <= i < self.children@.len() && (#[trigger] self.children@[i]).0@ == path[0] {
            let i = choose|i: int|
                0 <= i < self.children@.len() && (#[trigger] self.children@[i]).0@ == path[0];
            self.children@[i].1.get(path.drop_first())
        } else {
            None
        }
    }

    /// Whether the node holds a value or has a child.
    pub closed spec fn inhabited(self) -> bool {
        self.value is Some || self.children@.len() > 0
    }

    /// Each key labels at most one edge, and every node below holds a value somewhere.
    pub closed spec fn wf(self) -> bool
        decreases self,
    {
        &&& forall|i: int, j: int|
            0 <= i < j < self.children@.len() ==> (#[trigger] self.children@[i]).0@
                != (#[trigger] self.children@[j]).0@
        &&& forall|i: int|
            0 <= i < self.children@.len() ==> (#[trigger] self.children@[i]).1.wf()
                && self.children@[i].1.inhabited()
    }
}

impl<K: TrieKey, V> View for Node<K, V> {
    type V = Map<Seq<Key<Seq<u8>>>, V>;

    /// The values below this node, by path.
    closed spec fn view(&self) -> Map<Seq<Key<Seq<u8>>>, V> {
        Map::new(
            |p: Seq<Key<Seq<u8>>>| self.get(p) is Some,
            |p: Seq<Key<Seq<u8>>>| self.get(p)->Some_0,
        )
    }
}

impl<K: TrieKey, V> Node<K, V> {
    proof fn lemma_empty_path(self)
        ensures
            self@.contains_key(Seq::empty()) == self.value is Some,
            self.value is Some ==> self@[Seq::empty()] == self.value->Some_0,
    {
    }

    /// A well-formed node that is inhabited holds some value.
    proof fn lemma_inhabited_occupied(self)
        requires
            self.wf(),
            self.inhabited(),
        ensures
            occupied(self@),
        decreases self,
    {
        if self.value is Some {
            assert(self@.contains_key(Seq::empty()));
        } else {
            let (k, child) = self.children@[0];
            assert(child.wf() && child.inhabited());
            child.lemma_inhabited_occupied();
            let q = choose|q: Seq<Key<Seq<u8>>>| child@.contains_key(q);
            let p = seq![k@] + q;
            assert(p[0] == k@);
            assert(p.drop_first() =~= q);
            let i = choose|i: int|
                0 <= i < self.children@.len() && (#[trigger] self.children@[i]).0@ == p[0];
            assert(i == 0);
            assert(self@.contains_key(p));
        }
    }

    /// Below the key of a child lie exactly the child's values.
    proof fn lemma_below_child(self, j: int)
        requires
            self.wf(),
            0 <= j < self.children@.len(),
        ensures
            below(self@, self.children@[j].0@) == self.children@[j].1@,
    {
        let k = self.children@[j].0@;
        let child = self.children@[j].1;
        assert forall|q: Seq<Key<Seq<u8>>>| #[trigger] self.get(seq![k] + q) == child.get(q) by {
            let p = seq![k] + q;
            assert(p[0] == k);
            assert(p.drop_first() =~= q);
            assert(self.children@[j].0@ == p[0]);
            let i = choose|i: int|
                0 <= i < self.children@.len() && (#[trigger] self.children@[i]).0@ == p[0];
            assert(i == j);
        }
        assert(below(self@, k) =~= child@);
    }

    /// Nothing lies below a key that labels no edge.
    proof fn lemma_below_absent(self, k: Key<Seq<u8>>)
        requires
            forall|i: int| 0 <= i < self.children@.len() ==> (#[trigger] self.children@[i]).0@ != k,
        ensures
            !occupied(below(self@, k)),
    {
        assert forall|q: Seq<Key<Seq<u8>>>| !#[trigger] below(self@, k).contains_key(q) by {
            let p = seq![k] + q;
            assert(p[0] == k);
        }
    }

    /// An empty node.
    pub fn new() -> (r: Self)
        ensures
            r.wf(),
            r@ == Map::<Seq<Key<Seq<u8>>>, V>::empty(),
    {
        let r = Node { children: Vec::new(), value: None };
        assert(r@ =~= Map::<Seq<Key<Seq<u8>>>, V>::empty());
        r
    }

    /// The index of the edge with the given key, if there is one.
    fn find_child(&self, key: &Key<K>) -> (r: Option<usize>)
        ensures
            match r {
                Some(i) => i < self.children@.len() && self.children@[i as int].0@ == key@,
                None => forall|i: int|
                    0 <= i < self.children@.len() ==> (#[trigger] self.children@[i]).0@ != key@,
            },
    {
        let mut i: usize = 0;
        while i < self.children.len()
            invariant
                i <= self.children@.len(),
                forall|j: int| 0 <= j < i ==> (#[trigger] self.children@[j]).0@ != key@,
            decreases self.children@.len() - i,
        {
            if self.children[i].0.same(key) {
                return Some(i);
            }
            i = i + 1;
        }
        None
    }

    /// Looks `keys` up below this node, preferring at each step the edge with the key
    /// itself to the wildcard edge.
    pub fn lookup(&self, keys: &[Key<K>]) -> (r: Option<&V>)
        requires
            self.wf(),
        ensures
            match r {
                Some(v) => resolve(self@, path_view(keys@)) == Some(*v),
                None => resolve(self@, path_view(keys@)) is None,
            },
    {
        let ghost path = path_view(keys@);
        let mut node = self;
        let mut i: usize = 0;
        assert(path.subrange(0, path.len() as int) =~= path);
        while i < keys.len()
            invariant
                i <= keys@.len(),
                path == path_view(keys@),
                node.wf(),
                resolve(self@, path) == resolve(node@, path.subrange(i as int, path.len() as int)),
            decreases keys@.len() - i,
        {
            let ghost rest = path.subrange(i as int, path.len() as int);
            assert(rest[0] == keys@[i as int]@);
            assert(rest.drop_first() =~= path.subrange(i as int + 1, path.len() as int));
            match node.find_child(&keys[i]) {
                Some(j) => {
                    proof {
                        node.lemma_below_child(j as int);
                        node.children@[j as int].1.lemma_inhabited_occupied();
                    }
                    node = &node.children[j].1;
                },
                None => {
                    proof {
                        node.lemma_below_absent(keys@[i as int]@);
                    }
                    match node.find_child(&Key::Wildcard) {
                        Some(j) => {
                            proof {
                                node.lemma_below_child(j as int);
                                node.children@[j as int].1.lemma_inhabited_occupied();
                            }
                            node = &node.children[j].1;
                        },
                        None => {
                            proof {
                                node.lemma_below_absent(Key::Wildcard);
                            }
                            return None;
                        },
                    }
                },
            }
            i = i + 1;
        }
        proof {
            node.lemma_empty_path();
        }
        node.value.as_ref()
    }

    /// Adding an empty child under a fresh key leaves every value where it was.
    proof fn lemma_push_empty(self, mid: Self, k: Key<Seq<u8>>)
        requires
            self.wf(),
            forall|i: int| 0 <= i < self.children@.len() ==> (#[trigger] self.children@[i]).0@ != k,
            mid.value == self.value,
            mid.children@.len() == self.children@.len() + 1,
            forall|i: int| 0 <= i < self.children@.len() ==> mid.children@[i] == self.children@[i],
            mid.children@.last().0@ == k,
            mid.children@.last().1@ == Map::<Seq<Key<Seq<u8>>>, V>::empty(),
        ensures
            mid@ == self@,
    {
        assert forall|p: Seq<Key<Seq<u8>>>| #[trigger] mid.get(p) == self.get(p) by {
            if p.len() > 0 {
                let last = self.children@.len() as int;
                if p[0] == k {
                    assert(mid.children@[last].0@ == p[0]);
                    let i = choose|i: int|
                        0 <= i < mid.children@.len() && (#[trigger] mid.children@[i]).0@ == p[0];
                    assert(i == last);
                    assert(!mid.children@[last].1@.contains_key(p.drop_first()));
                } else {
                    if exists|i: int|
                        0 <= i < self.children@.len() && (#[trigger] self.children@[i]).0@ == p[0] {
                        let i = choose|i: int|
                            0 <= i < self.children@.len() && (#[trigger] self.children@[i]).0@
                                == p[0];
                        assert(mid.children@[i].0@ == p[0]);
                        let i2 = choose|i: int|
                            0 <= i < mid.children@.len() && (#[trigger] mid.children@[i]).0@
                                == p[0];
                        assert(i2 < self.children@.len());
                        assert(self.children@[i2].0@ == p[0]);
                    } else {
                        if exists|i: int|
                            0 <= i < mid.children@.len() && (#[trigger] mid.children@[i]).0@
                                == p[0] {
                            let i2 = choose|i: int|
                                0 <= i < mid.children@.len() && (#[trigger] mid.children@[i]).0@
                                    == p[0];
                            assert(self.children@[i2].0@ == p[0]);
                        }
                    }
                }
            }
        }
        assert(mid@ =~= self@);
    }

    /// Replacing the node below one edge changes the values below that edge only.
    proof fn lemma_replace_child(self, fin: Self, j: int)
        requires
            forall|a: int, b: int|
                0 <= a < b < self.children@.len() ==> (#[trigger] self.children@[a]).0@
                    != (#[trigger] self.children@[b]).0@,
            0 <= j < self.children@.len(),
            fin.value == self.value,
            fin.children@.len() == self.children@.len(),
            forall|i: int| 0 <= i < self.children@.len() && i != j ==> fin.children@[i] == self.children@[i],
            fin.children@[j].0@ == self.children@[j].0@,
        ensures
            forall|p: Seq<Key<Seq<u8>>>| #[trigger] fin.get(p) == if p.len() > 0 && p[0] == self.children@[j].0@ {
                fin.children@[j].1.get(p.drop_first())
            } else {
                self.get(p)
            },
    {
        let k = self.children@[j].0@;
        assert forall|p: Seq<Key<Seq<u8>>>| #[trigger] fin.get(p) == if p.len() > 0 && p[0] == k {
            fin.children@[j].1.get(p.drop_first())
        } else {
            self.get(p)
        } by {
            if p.len() > 0 {
                if p[0] == k {
                    assert(fin.children@[j].0@ == p[0]);
                    let i = choose|i: int|
                        0 <= i < fin.children@.len() && (#[trigger] fin.children@[i]).0@ == p[0];
                    if i != j {
                        assert(self.children@[i].0@ == p[0]);
                    }
                } else {
                    if exists|i: int|
                        0 <= i < self.children@.len() && (#[trigger] self.children@[i]).0@ == p[0] {
                        let i = choose|i: int|
                            0 <= i < self.children@.len() && (#[trigger] self.children@[i]).0@
                                == p[0];
                        assert(i != j);
                        assert(fin.children@[i].0@ == p[0]);
                        let i2 = choose|i: int|
                            0 <= i < fin.children@.len() && (#[trigger] fin.children@[i]).0@
                                == p[0];
                        assert(i2 != j);
                        assert(self.children@[i2].0@ == p[0]);
                    } else {
                        if exists|i: int|
                            0 <= i < fin.children@.len() && (#[trigger] fin.children@[i]).0@
                                == p[0] {
                            let i2 = choose|i: int|
                                0 <= i < fin.children@.len() && (#[trigger] fin.children@[i]).0@
                                    == p[0];
                            assert(i2 != j);
                            assert(self.children@[i2].0@ == p[0]);
                        }
                    }
                }
            }
        }
    }

    fn insert_from(&mut self, keys: &[Key<K>], i: usize, val: V)
        requires
            old(self).wf(),
            i <= keys@.len(),
        ensures
            final(self).wf(),
            final(self).inhabited(),
            final(self)@ == old(self)@.insert(
                path_view(keys@).subrange(i as int, keys@.len() as int),
                val,
            ),
        decreases keys@.len() - i,
    {
        let ghost path = path_view(keys@).subrange(i as int, keys@.len() as int);
        if i == keys.len() {
            self.value = Some(val);
            proof {
                assert(path =~= Seq::<Key<Seq<u8>>>::empty());
                assert forall|p: Seq<Key<Seq<u8>>>| #[trigger] self.get(p) == if p == path {
                    Some(val)
                } else {
                    old(self).get(p)
                } by {
                    if p.len() > 0 {
                        assert(p != path);
                    } else {
                        assert(p =~= path);
                    }
                }
                assert(self@ =~= old(self)@.insert(path, val));
            }
            return;
        }
        let ghost k = keys@[i as int]@;
        assert(path[0] == k);
        let j = match self.find_child(&keys[i]) {
            Some(j) => j,
            None => {
                let ghost before = *self;
                self.children.push((keys[i].copy(), Node::new()));
                proof {
                    before.lemma_push_empty(*self, k);
                }
                self.children.len() - 1
            },
        };
        let ghost mid = *self;
        let ghost child = mid.children@[j as int].1;
        proof {
            assert forall|a: int, b: int|
                0 <= a < b < mid.children@.len() implies (#[trigger] mid.children@[a]).0@
                != (#[trigger] mid.children@[b]).0@ by {
                if b == old(self).children@.len() {
                    assert(old(self).children@[a] == mid.children@[a]);
                } else {
                    assert(old(self).children@[a] == mid.children@[a]);
                    assert(old(self).children@[b] == mid.children@[b]);
                }
            }
            if j < old(self).children@.len() {
                assert(old(self).children@[j as int] == mid.children@[j as int]);
            }
            assert(mid@ == old(self)@);
            assert(child.wf());
        }
        self.children[j].1.insert_from(keys, i + 1, val);
        proof {
            let rest = path_view(keys@).subrange(i as int + 1, keys@.len() as int);
            let fresh = self.children@[j as int].1;
            assert(fresh@ == child@.insert(rest, val));
            assert(path.drop_first() =~= rest);
            mid.lemma_replace_child(*self, j as int);
            assert forall|p: Seq<Key<Seq<u8>>>| #[trigger] self.get(p) == if p == path {
                Some(val)
            } else {
                mid.get(p)
            } by {
                if p.len() > 0 && p[0] == k {
                    let q = p.drop_first();
                    fresh.lemma_get_view(q);
                    child.lemma_get_view(q);
                    mid.lemma_below_child_get(j as int, p);
                    if q == rest {
                        assert forall|x: int| 0 <= x < p.len() implies p[x] == path[x] by {
                            if x > 0 {
                                assert(p[x] == q[x - 1]);
                                assert(path[x] == path.drop_first()[x - 1]);
                            }
                        }
                        assert(p =~= path);
                    } else {
                        assert(p != path);
                    }
                } else {
                    assert(p != path);
                }
            }
            assert(self@ =~= old(self)@.insert(path, val));
            assert forall|a: int, b: int|
                0 <= a < b < self.children@.len() implies (#[trigger] self.children@[a]).0@
                != (#[trigger] self.children@[b]).0@ by {
                assert(self.children@[a].0@ == mid.children@[a].0@);
                assert(self.children@[b].0@ == mid.children@[b].0@);
            }
            assert forall|a: int| 0 <= a < self.children@.len() implies (#[trigger] self.children@[a]).1.wf()
                && self.children@[a].1.inhabited() by {
                if a != j {
                    assert(self.children@[a] == mid.children@[a]);
                    assert(old(self).children@[a] == mid.children@[a]);
                }
            }
        }
    }

    proof fn lemma_get_view(self, q: Seq<Key<Seq<u8>>>)
        ensures
            self.get(q) == if self@.contains_key(q) {
                Some(self@[q])
            } else {
                None::<V>
            },
    {
    }

    /// The value below a child reached through its key.
    proof fn lemma_below_child_get(self, j: int, p: Seq<Key<Seq<u8>>>)
        requires
            forall|a: int, b: int|
                0 <= a < b < self.children@.len() ==> (#[trigger] self.children@[a]).0@
                    != (#[trigger] self.children@[b]).0@,
            0 <= j < self.children@.len(),
            p.len() > 0,
            p[0] == self.children@[j].0@,
        ensures
            self.get(p) == self.children@[j].1.get(p.drop_first()),
    {
        let i = choose|i: int|
            0 <= i < self.children@.len() && (#[trigger] self.children@[i]).0@ == p[0];
        assert(self.children@[j].0@ == p[0]);
    }

    /// Stores `val` at the path `keys` below this node, replacing what was there.
    pub fn insert(&mut self, keys: &[Key<K>], val: V)
        requires
            old(self).wf(),
        ensures
            final(self).wf(),
            final(self)@ == old(self)@.insert(path_view(keys@), val),
    {
        self.insert_from(keys, 0, val);
        assert(path_view(keys@).subrange(0, keys@.len() as int) =~= path_view(keys@));
    }
}

impl<K: TrieKey, V> Default for Node<K, V> {
    fn default() -> (r: Self)
        ensures
            r.wf(),
            r@ == Map::<Seq<Key<Seq<u8>>>, V>::empty(),
    {
        Node::new()
    }
}

/// A trie of values keyed by paths of edges, with wildcard edges.
#[derive(Debug)]
pub struct Trie<K, V> {
    root: Node<K, V>,
}

impl<K: TrieKey, V> Trie<K, V> {
    /// Each key labels at most one edge of a node, and every node below the root holds
    /// a value somewhere.
    pub closed spec fn wf(&self) -> bool {
        self.root.wf()
    }
}

impl<K: TrieKey, V> View for Trie<K, V> {
    type V = Map<Seq<Key<Seq<u8>>>, V>;

    /// The stored values, by path.
    closed spec fn view(&self) -> Map<Seq<Key<Seq<u8>>>, V> {
        self.root@
    }
}

impl<K: TrieKey, V> Trie<K, V> {
    /// An empty trie.
    pub fn new() -> (r: Self)
        ensures
            r.wf(),
            r@ == Map::<Seq<Key<Seq<u8>>>, V>::empty(),
    {
        Trie { root: Node::new() }
    }

    /// Stores `val` at the path `keys`, replacing what was there.
    pub fn insert(&mut self, keys: &[Key<K>], val: V)
        requires
            old(self).wf(),
        ensures
            final(self).wf(),
            final(self)@ == old(self)@.insert(path_view(keys@), val),
    {
        self.root.insert(keys, val);
    }

    /// Looks `keys` up, preferring at each step the edge with the key itself to the
    /// wildcard edge; a path that ends above or below a stored value finds nothing.
    pub fn lookup(&self, keys: &[Key<K>]) -> (r: Option<&V>)
        requires
            self.wf(),
        ensures
            match r {
                Some(v) => resolve(self@, path_view(keys@)) == Some(*v),
                None => resolve(self@, path_view(keys@)) is None,
            },
    {
        self.root.lookup(keys)
    }
}

impl<K: TrieKey, V> Default for Trie<K, V> {
    fn default() -> (r: Self)
        ensures
            r.wf(),
            r@ == Map::<Seq<Key<Seq<u8>>>, V>::empty(),
    {
        Trie::new()
    }
}

} // verus!
