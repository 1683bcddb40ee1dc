//! A plain, uncompressed trie over arbitrary key sequences: one key
//! element per node, children scanned in insertion order.

use vstd::prelude::*;
use vstd::std_specs::cmp::PartialEqSpec;

verus! {

/// The mathematical shape of a trie node.
pub ghost struct TrieModel<K, V> {
    pub key: K,
    pub value: Option<V>,
    pub children: Seq<TrieModel<K, V>>,
}

/// One node of the trie, holding one key element, an optional value,
/// and its children in insertion order.
pub struct TrieNode<K, V> {
    pub key: K,
    pub value: Option<V>,
    pub children: Vec<TrieNode<K, V>>,
}

pub open spec fn t_model<K, V>(t: TrieNode<K, V>) -> TrieModel<K, V>
    decreases t,
{
    TrieModel { key: t.key, value: t.value, children: t_models(t.children@) }
}

pub open spec fn t_models<K, V>(cs: Seq<TrieNode<K, V>>) -> Seq<TrieModel<K, V>>
    decreases cs,
{
    if cs.len() == 0 {
        Seq::empty()
    } else {
        seq![t_model(cs[0])] + t_models(cs.skip(1))
    }
}

impl<K, V> View for TrieNode<K, V> {
    type V = TrieModel<K, V>;

    open spec fn view(&self) -> TrieModel<K, V> {
        t_model(*self)
    }
}

pub proof fn lemma_t_models<K, V>(cs: Seq<TrieNode<K, V>>)
    ensures
        t_models(cs).len() == cs.len(),
        forall|i: int| 0 <= i < cs.len() ==> t_models(cs)[i] == t_model(cs[i]),
    decreases cs.len(),
{
    if cs.len() > 0 {
        lemma_t_models(cs.skip(1));
        assert forall|i: int| 0 <= i < cs.len() implies t_models(cs)[i] == t_model(cs[i]) by {
            if i > 0 {
                assert(cs.skip(1)[i - 1] == cs[i]);
                assert(t_models(cs)[i] == t_models(cs.skip(1))[i - 1]);
            }
        }
    }
}

/// First index at or after `i` of a child whose key equals `k`, under
/// the key type's own equality.
pub open spec fn t_find<K: PartialEqSpec, V>(cs: Seq<TrieModel<K, V>>, k: K, i: int) -> Option<int>
    decreases cs.len() - i,
{
    if i < 0 || i >= cs.len() {
        None
    } else if cs[i].key.eq_spec(&k) {
        Some(i)
    } else {
        t_find(cs, k, i + 1)
    }
}

pub proof fn lemma_t_find<K: PartialEqSpec, V>(cs: Seq<TrieModel<K, V>>, k: K, i: int)
    requires
        0 <= i,
    ensures
        match t_find(cs, k, i) {
            Some(j) => i <= j < cs.len() && cs[j].key.eq_spec(&k) && (forall|l: int|
                i <= l < j ==> !(#[trigger] cs[l]).key.eq_spec(&k)),
            None => forall|l: int| i <= l < cs.len() ==> !(#[trigger] cs[l]).key.eq_spec(&k),
        },
    decreases cs.len() - i,
{
    if i < cs.len() && !cs[i].key.eq_spec(&k) {
        lemma_t_find(cs, k, i + 1);
    }
}

pub proof fn lemma_t_find_is<K: PartialEqSpec, V>(cs: Seq<TrieModel<K, V>>, k: K, j: int)
    requires
        0 <= j < cs.len(),
        cs[j].key.eq_spec(&k),
        forall|l: int| 0 <= l < j ==> !(#[trigger] cs[l]).key.eq_spec(&k),
    ensures
        t_find(cs, k, 0) == Some(j),
{
    lemma_t_find(cs, k, 0);
}

pub proof fn lemma_t_find_none<K: PartialEqSpec, V>(cs: Seq<TrieModel<K, V>>, k: K)
    requires
        forall|l: int| 0 <= l < cs.len() ==> !(#[trigger] cs[l]).key.eq_spec(&k),
    ensures
        t_find(cs, k, 0) is None,
{
    lemma_t_find(cs, k, 0);
}

/// The value stored under the key sequence `ks`, walking one element
/// per level from this node's children down.
pub open spec fn t_get<K: PartialEqSpec, V>(m: TrieModel<K, V>, ks: Seq<K>) -> Option<V>
    decreases ks.len(),
{
    if ks.len() == 0 {
        m.value
    } else {
        match t_find(m.children, ks[0], 0) {
            None => None,
            Some(i) => t_get(m.children[i], ks.skip(1)),
        }
    }
}

/// The fresh branch insertion appends for `ks`: one node per element,
/// the value at the last.
pub open spec fn t_chain<K, V>(ks: Seq<K>, v: V) -> TrieModel<K, V>
    recommends
        ks.len() > 0,
    decreases ks.len(),
{
    if ks.len() <= 1 {
        TrieModel { key: ks[0], value: Some(v), children: Seq::empty() }
    } else {
        TrieModel { key: ks[0], value: None, children: seq![t_chain(ks.skip(1), v)] }
    }
}

/// What inserting `v` under `ks` does to a subtree, and the value it
/// replaces: descend matching children, start a fresh branch where none
/// matches.
pub open spec fn t_insert<K: PartialEqSpec, V>(m: TrieModel<K, V>, ks: Seq<K>, v: V) -> (TrieModel<
    K,
    V,
>, Option<V>)
    decreases ks.len(),
{
    if ks.len() == 0 {
        (TrieModel { key: m.key, value: Some(v), children: m.children }, m.value)
    } else {
        match t_find(m.children, ks[0], 0) {
            Some(i) => {
                let r = t_insert(m.children[i], ks.skip(1), v);
                (TrieModel { key: m.key, value: m.value, children: m.children.update(i, r.0) }, r.1)
            },
            None => (
                TrieModel {
                    key: m.key,
                    value: m.value,
                    children: m.children.push(t_chain(ks, v)),
                },
                None,
            ),
        }
    }
}

/// What removal does: descend exact matches; at the end, pruning
/// detaches the subtree and hands it back, otherwise only the stored
/// value moves out, into a copy of the node without its children.
pub open spec fn t_remove<K: PartialEqSpec, V>(m: TrieModel<K, V>, ks: Seq<K>, prune: bool) -> (
    TrieModel<K, V>,
    Option<TrieModel<K, V>>,
)
    decreases ks.len(),
{
    if ks.len() == 0 {
        (m, None)
    } else {
        match t_find(m.children, ks[0], 0) {
            None => (m, None),
            Some(i) => {
                let c = m.children[i];
                if ks.len() == 1 {
                    if prune {
                        (
                            TrieModel {
                                key: m.key,
                                value: m.value,
                                children: m.children.remove(i),
                            },
                            Some(c),
                        )
                    } else {
                        (
                            TrieModel {
                                key: m.key,
                                value: m.value,
                                children: m.children.update(
                                    i,
                                    TrieModel { key: c.key, value: None, children: c.children },
                                ),
                            },
                            Some(
                                TrieModel { key: c.key, value: c.value, children: Seq::empty() },
                            ),
                        )
                    }
                } else {
                    let r = t_remove(c, ks.skip(1), prune);
                    (
                        TrieModel { key: m.key, value: m.value, children: m.children.update(i, r.0) },
                        r.1,
                    )
                }
            },
        }
    }
}

impl<K: PartialEqSpec + Copy, V> TrieNode<K, V> {
    /// A node holding `key` and nothing else.
    pub fn new(key: K) -> (t: Self)
        ensures
            t@ == (TrieModel::<K, V> { key, value: None, children: Seq::empty() }),
    {
        let t = TrieNode { key, value: None, children: Vec::new() };
        proof {
            assert(t_models(t.children@) =~= Seq::<TrieModel<K, V>>::empty());
        }
        t
    }

    /// A leaf holding `key` and `value`.
    pub fn from(key: K, value: V) -> (t: Self)
        ensures
            t@ == (TrieModel::<K, V> { key, value: Some(value), children: Seq::empty() }),
    {
        let t = TrieNode { key, value: Some(value), children: Vec::new() };
        proof {
            assert(t_models(t.children@) =~= Seq::<TrieModel<K, V>>::empty());
        }
        t
    }

    /// Drop the stored value and every child.
    pub fn clear(&mut self)
        ensures
            final(self)@ == (TrieModel::<K, V> {
                key: old(self)@.key,
                value: None,
                children: Seq::empty(),
            }),
    {
        self.children = Vec::new();
        self.value = None;
        proof {
            assert(t_models(self.children@) =~= Seq::<TrieModel<K, V>>::empty());
        }
    }

    pub fn key(&self) -> (r: &K)
        ensures
            *r == self@.key,
    {
        &self.key
    }

    pub fn value(&self) -> (r: Option<&V>)
        ensures
            match r {
                Some(v) => self@.value == Some(*v),
                None => self@.value is None,
            },
    {
        self.value.as_ref()
    }

    pub fn children(&self) -> (r: &Vec<TrieNode<K, V>>)
        ensures
            r == &self.children,
    {
        &self.children
    }

    /// Look the key sequence up, per `t_get`.
    pub fn get(&self, key: &[K]) -> (r: Option<&V>)
        requires
            K::obeys_eq_spec(),
            key@.len() > 0,
        ensures
            match r {
                Some(v) => t_get(self@, key@) == Some(*v),
                None => t_get(self@, key@) is None,
            },
    {
        proof {
            assert(key@.skip(0) =~= key@);
        }
        self.get_from(key, 0)
    }

    /// The walk behind `get`, from position `from` of the key.
    #[verifier::loop_isolation(false)]
    fn get_from(&self, key: &[K], from: usize) -> (r: Option<&V>)
        requires
            K::obeys_eq_spec(),
            from <= key@.len(),
        ensures
            match r {
                Some(v) => t_get(self@, key@.skip(from as int)) == Some(*v),
                None => t_get(self@, key@.skip(from as int)) is None,
            },
        decreases key@.len() - from,
    {
        let ghost ks = key@.skip(from as int);
        proof {
            lemma_t_models(self.children@);
        }
        if from == key.len() {
            return self.value.as_ref();
        }
        proof {
            assert(ks[0] == key@[from as int]);
        }
        let n = self.children.len();
        let mut i: usize = 0;
        while i < n
            invariant
                i <= n,
                forall|l: int| 0 <= l < i ==> !(#[trigger] self@.children[l]).key.eq_spec(
                    &key@[from as int],
                ),
            decreases n - i,
        {
            let child = &self.children[i];
            proof {
                assert(self@.children[i as int] == t_model(*child));
            }
            if child.key == key[from] {
                proof {
                    lemma_t_find_is(self@.children, key@[from as int], i as int);
                    assert(ks.skip(1) =~= key@.skip(from as int + 1));
                }
                return child.get_from(key, from + 1);
            }
            i += 1;
        }
        proof {
            lemma_t_find_none(self@.children, key@[from as int]);
        }
        None
    }

    /// Insert `value` under the key sequence, per `t_insert`, and hand
    /// back the value it replaced.  Never fails; the `Result` shape is
    /// shared with the other tries.
    pub fn insert(&mut self, key: &[K], value: V) -> (res: Result<Option<V>, ()>)
        requires
            K::obeys_eq_spec(),
        ensures
            res matches Ok(prev) && final(self)@ == t_insert(old(self)@, key@, value).0 && prev
                == t_insert(old(self)@, key@, value).1,
    {
        proof {
            assert(key@.skip(0) =~= key@);
        }
        Ok(self.insert_from(key, 0, value))
    }

    #[verifier::loop_isolation(false)]
    fn insert_from(&mut self, key: &[K], from: usize, value: V) -> (prev: Option<V>)
        requires
            K::obeys_eq_spec(),
            from <= key@.len(),
        ensures
            final(self)@ == t_insert(old(self)@, key@.skip(from as int), value).0,
            prev == t_insert(old(self)@, key@.skip(from as int), value).1,
            final(self)@.key == old(self)@.key,
        decreases key@.len() - from,
    {
        let ghost ks = key@.skip(from as int);
        let ghost m0 = old(self)@;
        proof {
            lemma_t_models(self.children@);
        }
        if from == key.len() {
            let prev = self.value.take();
            self.value = Some(value);
            return prev;
        }
        proof {
            assert(ks[0] == key@[from as int]);
        }
        let n = self.children.len();
        let mut i: usize = 0;
        while i < n
            invariant
                i <= n,
                *self == *old(self),
                forall|l: int| 0 <= l < i ==> !(#[trigger] m0.children[l]).key.eq_spec(
                    &key@[from as int],
                ),
            decreases n - i,
        {
            let hit = self.children[i].key == key[from];
            proof {
                assert(m0.children[i as int] == t_model(self.children@[i as int]));
            }
            if hit {
                proof {
                    lemma_t_find_is(m0.children, key@[from as int], i as int);
                    assert(ks.skip(1) =~= key@.skip(from as int + 1));
                    assert(decreases_to!(*self => self.children));
                    assert(decreases_to!(self.children => self.children@));
                    assert(decreases_to!(self.children@ => self.children@[i as int]));
                }
                let prev = self.children[i].insert_from(key, from + 1, value);
                proof {
                    lemma_t_models(self.children@);
                    assert(t_models(self.children@) =~= m0.children.update(
                        i as int,
                        t_model(self.children@[i as int]),
                    ));
                }
                return prev;
            }
            i += 1;
        }
        proof {
            lemma_t_find_none(m0.children, key@[from as int]);
        }
        let node = Self::mk_chain(key, from, value);
        let ghost node_m = node@;
        self.children.push(node);
        proof {
            lemma_t_models(self.children@);
            assert(t_models(self.children@) =~= m0.children.push(node_m)) by {
                assert forall|j: int|
                    0 <= j < self.children@.len() implies t_models(self.children@)[j]
                    == m0.children.push(node_m)[j] by {
                    if j < m0.children.len() {
                        assert(self.children@[j] == old(self).children@[j]);
                    }
                }
            }
        }
        None
    }

    /// Build the fresh branch for `key[from..]`.
    fn mk_chain(key: &[K], from: usize, value: V) -> (t: Self)
        requires
            from < key@.len(),
        ensures
            t@ == t_chain(key@.skip(from as int), value),
        decreases key@.len() - from,
    {
        let ghost ks = key@.skip(from as int);
        let klen = key.len();
        proof {
            assert(ks[0] == key@[from as int]);
        }
        if from + 1 == klen {
            Self::from(key[from], value)
        } else {
            let child = Self::mk_chain(key, from + 1, value);
            let ghost child_m = child@;
            let mut children: Vec<TrieNode<K, V>> = Vec::new();
            children.push(child);
            let t = TrieNode { key: key[from], value: None, children };
            proof {
                lemma_t_models(t.children@);
                assert(t.children@.len() == 1);
                assert(t_model(t.children@[0]) == child_m);
                assert(t_models(t.children@) =~= seq![child_m]);
                assert(ks.skip(1) =~= key@.skip(from as int + 1));
            }
            t
        }
    }

    /// Remove the key sequence, per `t_remove`: with `prune` the whole
    /// subtree under it comes back detached; without, only its value
    /// moves out, carried by a childless copy of its node.  An unknown
    /// sequence changes nothing and returns nothing.
    pub fn remove(&mut self, key: &[K], prune: bool) -> (removed: Option<TrieNode<K, V>>)
        requires
            K::obeys_eq_spec(),
            key@.len() > 0,
        ensures
            final(self)@ == t_remove(old(self)@, key@, prune).0,
            match (removed, t_remove(old(self)@, key@, prune).1) {
                (Some(node), Some(mn)) => node@ == mn,
                (None, None) => true,
                _ => false,
            },
    {
        proof {
            assert(key@.skip(0) =~= key@);
        }
        self.remove_from(key, 0, prune)
    }

    #[verifier::loop_isolation(false)]
    fn remove_from(&mut self, key: &[K], from: usize, prune: bool) -> (removed: Option<
        TrieNode<K, V>,
    >)
        requires
            K::obeys_eq_spec(),
            from < key@.len(),
        ensures
            final(self)@ == t_remove(old(self)@, key@.skip(from as int), prune).0,
            match (removed, t_remove(old(self)@, key@.skip(from as int), prune).1) {
                (Some(node), Some(mn)) => node@ == mn,
                (None, None) => true,
                _ => false,
            },
            final(self)@.key == old(self)@.key,
        decreases key@.len() - from,
    {
        let ghost ks = key@.skip(from as int);
        let ghost m0 = old(self)@;
        proof {
            lemma_t_models(self.children@);
            assert(ks[0] == key@[from as int]);
        }
        let n = self.children.len();
        let mut i: usize = 0;
        while i < n
            invariant
                i <= n,
                *self == *old(self),
                forall|l: int| 0 <= l < i ==> !(#[trigger] m0.children[l]).key.eq_spec(
                    &key@[from as int],
                ),
            decreases n - i,
        {
            let hit = self.children[i].key == key[from];
            proof {
                assert(m0.children[i as int] == t_model(self.children@[i as int]));
            }
            if hit {
                proof {
                    lemma_t_find_is(m0.children, key@[from as int], i as int);
                }
                if from + 1 == key.len() {
                    proof {
                        assert(ks.len() == 1);
                    }
                    if prune {
                        let node = self.children.remove(i);
                        proof {
                            lemma_t_models(self.children@);
                            assert(t_models(self.children@) =~= m0.children.remove(i as int)) by {
                                assert forall|j: int|
                                    0 <= j < self.children@.len() implies t_models(
                                    self.children@,
                                )[j] == m0.children.remove(i as int)[j] by {
                                    if j < i as int {
                                        assert(self.children@[j] == old(self).children@[j]);
                                    } else {
                                        assert(self.children@[j] == old(self).children@[j + 1]);
                                    }
                                }
                            }
                        }
                        return Some(node);
                    }
                    let k = self.children[i].key;
                    let taken = self.children[i].value.take();
                    let node = TrieNode { key: k, value: taken, children: Vec::new() };
                    proof {
                        lemma_t_models(self.children@);
                        assert(node.children@.len() == 0);
                        assert(t_models(node.children@) =~= Seq::<TrieModel<K, V>>::empty());
                        assert(t_models(self.children@) =~= m0.children.update(
                            i as int,
                            t_model(self.children@[i as int]),
                        ));
                    }
                    return Some(node);
                }
                proof {
                    assert(ks.skip(1) =~= key@.skip(from as int + 1));
                    assert(decreases_to!(*self => self.children));
                    assert(decreases_to!(self.children => self.children@));
                    assert(decreases_to!(self.children@ => self.children@[i as int]));
                }
                let removed = self.children[i].remove_from(key, from + 1, prune);
                proof {
                    lemma_t_models(self.children@);
                    assert(t_models(self.children@) =~= m0.children.update(
                        i as int,
                        t_model(self.children@[i as int]),
                    ));
                }
                return removed;
            }
            i += 1;
        }
        proof {
            lemma_t_find_none(m0.children, key@[from as int]);
        }
        None
    }
}

} // verus!
