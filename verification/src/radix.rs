//! A generic radix tree over arbitrary key sequences: edges carry runs
//! of key elements, shared prefixes split on divergence, and removal
//! re-merges a node left with a single child.

use crate::TrieExt;
use vstd::prelude::*;
use vstd::std_specs::cmp::PartialEqSpec;

verus! {

/// The mathematical shape of a radix node.
pub ghost struct RadixModel<K, V> {
    pub key: Seq<K>,
    pub value: Option<V>,
    pub children: Seq<RadixModel<K, V>>,
}

/// One node of the radix tree: a run of key elements on the edge from
/// its parent, an optional value, and its children in insertion order.
#[derive(Debug, PartialEq, Eq)]
pub struct RadixNode<K, V> {
    pub key: Vec<K>,
    pub value: Option<V>,
    pub children: Vec<RadixNode<K, V>>,
}

pub open spec fn r_model<K, V>(t: RadixNode<K, V>) -> RadixModel<K, V>
    decreases t,
{
    RadixModel { key: t.key@, value: t.value, children: r_models(t.children@) }
}

pub open spec fn r_models<K, V>(cs: Seq<RadixNode<K, V>>) -> Seq<RadixModel<K, V>>
    decreases cs,
{
    if cs.len() == 0 {
        Seq::empty()
    } else {
        seq![r_model(cs[0])] + r_models(cs.skip(1))
    }
}

impl<K, V> View for RadixNode<K, V> {
    type V = RadixModel<K, V>;

    open spec fn view(&self) -> RadixModel<K, V> {
        r_model(*self)
    }
}

pub proof fn lemma_r_models<K, V>(cs: Seq<RadixNode<K, V>>)
    ensures
        r_models(cs).len() == cs.len(),
        forall|i: int| 0 <= i < cs.len() ==> r_models(cs)[i] == r_model(cs[i]),
    decreases cs.len(),
{
    if cs.len() > 0 {
        lemma_r_models(cs.skip(1));
        assert forall|i: int| 0 <= i < cs.len() implies r_models(cs)[i] == r_model(cs[i]) by {
            if i > 0 {
                assert(cs.skip(1)[i - 1] == cs[i]);
                assert(r_models(cs)[i] == r_models(cs.skip(1))[i - 1]);
            }
        }
    }
}

/// Number of equal leading elements of two runs, under the key type's
/// own equality.
pub open spec fn match_len<K: PartialEqSpec>(a: Seq<K>, b: Seq<K>) -> int
    decreases a.len(),
{
    if a.len() == 0 || b.len() == 0 {
        0
    } else if !a[0].eq_spec(&b[0]) {
        0
    } else {
        1 + match_len(a.skip(1), b.skip(1))
    }
}

pub proof fn lemma_match_len_unique<K: PartialEqSpec>(a: Seq<K>, b: Seq<K>, n: int)
    requires
        0 <= n <= a.len(),
        n <= b.len(),
        forall|j: int| 0 <= j < n ==> a[j].eq_spec(&b[j]),
        n < a.len() && n < b.len() ==> !a[n].eq_spec(&b[n]),
    ensures
        n == match_len(a, b),
    decreases a.len(),
{
    if a.len() == 0 || b.len() == 0 {
    } else if !a[0].eq_spec(&b[0]) {
        assert(n == 0);
    } else {
        assert(n >= 1) by {
            if n == 0 {
                assert(!a[0].eq_spec(&b[0]));
            }
        }
        assert forall|j: int| 0 <= j < n - 1 implies a.skip(1)[j].eq_spec(&b.skip(1)[j]) by {
            assert(a.skip(1)[j] == a[j + 1]);
            assert(b.skip(1)[j] == b[j + 1]);
        }
        if n - 1 < a.skip(1).len() && n - 1 < b.skip(1).len() {
            assert(a.skip(1)[n - 1] == a[n]);
            assert(b.skip(1)[n - 1] == b[n]);
        }
        lemma_match_len_unique(a.skip(1), b.skip(1), n - 1);
    }
}

pub proof fn lemma_match_len<K: PartialEqSpec>(a: Seq<K>, b: Seq<K>)
    ensures
        0 <= match_len(a, b) <= a.len(),
        match_len(a, b) <= b.len(),
    decreases a.len(),
{
    if a.len() > 0 && b.len() > 0 && a[0].eq_spec(&b[0]) {
        lemma_match_len(a.skip(1), b.skip(1));
    }
}

/// The value stored under `ks`, scanning this node list from index `i`:
/// a child whose whole run is consumed either holds the value (run and
/// key exhausted together) or continues the walk below; a child sharing
/// only part of its run, or nothing, is passed over.
pub open spec fn r_get_from<K: PartialEqSpec, V>(
    cs: Seq<RadixModel<K, V>>,
    ks: Seq<K>,
    i: int,
) -> Option<V>
    decreases ks.len(), cs.len() - i,
{
    if i < 0 || i >= cs.len() {
        None
    } else {
        let c = cs[i];
        let l = match_len(c.key, ks);
        if l > 0 && l == c.key.len() && l == ks.len() {
            c.value
        } else if l > 0 && l == c.key.len() && ks.len() > l {
            r_get_from(c.children, ks.skip(l), 0)
        } else {
            r_get_from(cs, ks, i + 1)
        }
    }
}

/// What inserting `v` under `ks` does to a node list, scanned from `i`,
/// and the value it replaces: the first child sharing a prefix is
/// entered when its run is fully consumed, or split at the divergence
/// point; with no sharing anywhere a fresh leaf is appended.
pub open spec fn r_ins_from<K: PartialEqSpec, V>(
    cs: Seq<RadixModel<K, V>>,
    ks: Seq<K>,
    i: int,
    v: V,
) -> (Seq<RadixModel<K, V>>, Option<V>)
    decreases ks.len(), cs.len() - i,
    via r_ins_from_dec::<K, V>
{
    if i < 0 || i >= cs.len() {
        (cs.push(RadixModel { key: ks, value: Some(v), children: Seq::empty() }), None)
    } else {
        let c = cs[i];
        let l = match_len(c.key, ks);
        if l == 0 {
            r_ins_from(cs, ks, i + 1, v)
        } else if l == c.key.len() {
            if ks.len() == l {
                (
                    cs.update(i, RadixModel { key: c.key, value: Some(v), children: c.children }),
                    c.value,
                )
            } else {
                let r = r_ins_from(c.children, ks.skip(l), 0, v);
                (
                    cs.update(i, RadixModel { key: c.key, value: c.value, children: r.0 }),
                    r.1,
                )
            }
        } else {
            // split the child's run at the point of divergence
            let moved = RadixModel { key: c.key.skip(l), value: c.value, children: c.children };
            if ks.len() == l {
                (
                    cs.update(
                        i,
                        RadixModel {
                            key: c.key.take(l),
                            value: Some(v),
                            children: seq![moved],
                        },
                    ),
                    None,
                )
            } else {
                (
                    cs.update(
                        i,
                        RadixModel {
                            key: c.key.take(l),
                            value: None,
                            children: seq![
                                moved,
                                RadixModel {
                                    key: ks.skip(l),
                                    value: Some(v),
                                    children: Seq::empty(),
                                },
                            ],
                        },
                    ),
                    None,
                )
            }
        }
    }
}

#[via_fn]
proof fn r_ins_from_dec<K: PartialEqSpec, V>(cs: Seq<RadixModel<K, V>>, ks: Seq<K>, i: int, v: V) {
    if 0 <= i < cs.len() {
        lemma_match_len(cs[i].key, ks);
    }
}

/// What removal does to a node list, scanned from `i`, and the node it
/// hands back.  A child whose run equals the rest of the key is the
/// target: pruning detaches it whole, as does clearing a leaf; a node
/// with one child merges with it, the two runs joined, and a node with
/// more keeps its children, in each case handing back a childless copy
/// carrying the value.  A key matching nothing changes nothing.
pub open spec fn r_rem_from<K: PartialEqSpec, V>(
    cs: Seq<RadixModel<K, V>>,
    ks: Seq<K>,
    i: int,
    prune: bool,
) -> (Seq<RadixModel<K, V>>, Option<RadixModel<K, V>>)
    decreases ks.len(), cs.len() - i,
{
    if i < 0 || i >= cs.len() {
        (cs, None)
    } else {
        let c = cs[i];
        let l = match_len(c.key, ks);
        if l > 0 && l == c.key.len() && l == ks.len() {
            if prune {
                (cs.remove(i), Some(c))
            } else if c.children.len() == 0 {
                (cs.remove(i), Some(c))
            } else if c.children.len() == 1 {
                (
                    cs.update(
                        i,
                        RadixModel {
                            key: c.key + c.children[0].key,
                            value: c.children[0].value,
                            children: c.children[0].children,
                        },
                    ),
                    Some(RadixModel { key: c.key, value: c.value, children: Seq::empty() }),
                )
            } else {
                (
                    cs.update(i, RadixModel { key: c.key, value: None, children: c.children }),
                    Some(RadixModel { key: c.key, value: c.value, children: Seq::empty() }),
                )
            }
        } else if l > 0 && l == c.key.len() && ks.len() > l {
            let r = r_rem_from(c.children, ks.skip(l), 0, prune);
            (cs.update(i, RadixModel { key: c.key, value: c.value, children: r.0 }), r.1)
        } else {
            r_rem_from(cs, ks, i + 1, prune)
        }
    }
}

/// Copy a slice tail into a fresh vector.
fn tail_vec<K: Copy>(key: &[K], from: usize) -> (v: Vec<K>)
    requires
        from <= key@.len(),
    ensures
        v@ == key@.skip(from as int),
{
    let mut v: Vec<K> = Vec::new();
    let n = key.len();
    let mut j: usize = from;
    while j < n
        invariant
            from <= j <= n,
            n == key@.len(),
            v@.len() == j - from,
            forall|l: int| 0 <= l < v@.len() ==> v@[l] == key@[from + l],
        decreases n - j,
    {
        v.push(key[j]);
        j += 1;
    }
    proof {
        assert(v@ =~= key@.skip(from as int));
    }
    v
}

/// Copy a vector of key elements.
fn copy_vec<K: Copy>(a: &Vec<K>) -> (v: Vec<K>)
    ensures
        v@ == a@,
{
    let mut v: Vec<K> = Vec::new();
    let n = a.len();
    let mut j: usize = 0;
    while j < n
        invariant
            j <= n,
            n == a@.len(),
            v@.len() == j,
            forall|l: int| 0 <= l < v@.len() ==> v@[l] == a@[l],
        decreases n - j,
    {
        v.push(a[j]);
        j += 1;
    }
    proof {
        assert(v@ =~= a@);
    }
    v
}

/// Count the equal leading elements of a run and of `key[from..]`.
#[verifier::loop_isolation(false)]
fn match_len_run<K: PartialEqSpec + Copy>(a: &Vec<K>, key: &[K], from: usize) -> (l: usize)
    requires
        K::obeys_eq_spec(),
        from <= key@.len(),
    ensures
        l == match_len(a@, key@.skip(from as int)),
        l <= a@.len(),
        from + l <= key@.len(),
{
    let ghost av = a@;
    let ghost bv = key@.skip(from as int);
    let rest = key.len() - from;
    let max = if a.len() < rest {
        a.len()
    } else {
        rest
    };
    let mut j: usize = 0;
    while j < max
        invariant
            j <= max,
            forall|l: int| 0 <= l < j ==> av[l].eq_spec(&bv[l]),
        decreases max - j,
    {
        proof {
            assert(bv[j as int] == key@[from + j]);
        }
        if !(a[j] == key[from + j]) {
            proof {
                lemma_match_len_unique(av, bv, j as int);
            }
            return j;
        }
        j += 1;
    }
    proof {
        lemma_match_len_unique(av, bv, max as int);
    }
    max
}

impl<K: PartialEqSpec + Copy, V> RadixNode<K, V> {
    /// An empty root: no run, no value, no children.
    pub fn new() -> (t: Self)
        ensures
            t@ == (RadixModel::<K, V> {
                key: Seq::empty(),
                value: None,
                children: Seq::empty(),
            }),
    {
        let t = RadixNode { key: Vec::new(), value: None, children: Vec::new() };
        proof {
            assert(r_models(t.children@) =~= Seq::<RadixModel<K, V>>::empty());
        }
        t
    }

    /// A leaf carrying `key` and `value`.
    pub fn from(key: &[K], value: V) -> (t: Self)
        ensures
            t@ == (RadixModel::<K, V> { key: key@, value: Some(value), children: Seq::empty() }),
    {
        let t = RadixNode { key: tail_vec(key, 0), value: Some(value), children: Vec::new() };
        proof {
            assert(key@.skip(0) =~= key@);
            assert(r_models(t.children@) =~= Seq::<RadixModel<K, V>>::empty());
        }
        t
    }

    /// A valueless node carrying `key`.
    pub fn from_key(key: &[K]) -> (t: Self)
        ensures
            t@ == (RadixModel::<K, V> { key: key@, value: None, children: Seq::empty() }),
    {
        let t = RadixNode { key: tail_vec(key, 0), value: None, children: Vec::new() };
        proof {
            assert(key@.skip(0) =~= key@);
            assert(r_models(t.children@) =~= Seq::<RadixModel<K, V>>::empty());
        }
        t
    }

    /// The run of key elements on this node's edge.
    pub fn key(&self) -> (r: &[K])
        ensures
            r@ == self@.key,
    {
        self.key.as_slice()
    }

    /// The value stored at this node, if any.
    pub fn value(&self) -> (r: Option<&V>)
        ensures
            match r {
                Some(v) => self@.value == Some(*v),
                None => self@.value is None,
            },
    {
        self.value.as_ref()
    }

    /// The children of this node, in insertion order.
    pub fn children(&self) -> (r: &Vec<RadixNode<K, V>>)
        ensures
            r == &self.children,
    {
        &self.children
    }

    /// Take the node apart into run, value and children.
    pub fn to_parts(self) -> (r: (Vec<K>, Option<V>, Vec<RadixNode<K, V>>))
        ensures
            r.0@ == self@.key,
            r.1 == self@.value,
            r_models(r.2@) == self@.children,
    {
        let RadixNode { key, value, children } = self;
        (key, value, children)
    }

    /// The walk behind lookup, over `key[from..]`.
    #[verifier::loop_isolation(false)]
    fn get_from(&self, key: &[K], from: usize) -> (r: Option<&V>)
        requires
            K::obeys_eq_spec(),
            from <= key@.len(),
        ensures
            match r {
                Some(v) => r_get_from(self@.children, key@.skip(from as int), 0) == Some(*v),
                None => r_get_from(self@.children, key@.skip(from as int), 0) is None,
            },
        decreases key@.len() - from, 0int,
    {
        let ghost ks = key@.skip(from as int);
        let klen = key.len();
        proof {
            lemma_r_models(self.children@);
        }
        let n = self.children.len();
        let mut i: usize = 0;
        while i < n
            invariant
                i <= n,
                r_get_from(self@.children, ks, 0) == r_get_from(self@.children, ks, i as int),
            decreases n - i,
        {
            let child = &self.children[i];
            proof {
                assert(self@.children[i as int] == r_model(*child));
            }
            let l = match_len_run(&child.key, key, from);
            proof {
                lemma_match_len(r_model(*child).key, ks);
            }
            if l > 0 && l == child.key.len() {
                if from + l == klen {
                    proof {
                        assert(ks.len() == l);
                    }
                    return child.value.as_ref();
                }
                proof {
                    assert(ks.skip(l as int) =~= key@.skip(from + l));
                    assert(decreases_to!(*self => self.children));
                    assert(decreases_to!(self.children => self.children@));
                    assert(decreases_to!(self.children@ => self.children@[i as int]));
                }
                return child.get_from(key, from + l);
            }
            i += 1;
        }
        None
    }

    /// Look the key sequence up, per `r_get_from` over this node's
    /// children.
    pub fn get(&self, key: &[K]) -> (r: Option<&V>)
        requires
            K::obeys_eq_spec(),
            key@.len() > 0,
        ensures
            match r {
                Some(v) => r_get_from(self@.children, key@, 0) == Some(*v),
                None => r_get_from(self@.children, key@, 0) is None,
            },
    {
        proof {
            assert(key@.skip(0) =~= key@);
        }
        self.get_from(key, 0)
    }

    /// The walk behind insertion, over `key[from..]`.
    #[verifier::loop_isolation(false)]
    #[verifier::rlimit(100)]
    fn insert_from(&mut self, key: &[K], from: usize, value: V) -> (prev: Option<V>)
        requires
            K::obeys_eq_spec(),
            from <= key@.len(),
        ensures
            ({
                let r = r_ins_from(old(self)@.children, key@.skip(from as int), 0, value);
                &&& final(self)@ == (RadixModel {
                    key: old(self)@.key,
                    value: old(self)@.value,
                    children: r.0,
                })
                &&& prev == r.1
            }),
        decreases key@.len() - from, 0int,
    {
        let ghost ks = key@.skip(from as int);
        let ghost m0 = old(self)@;
        let klen = key.len();
        proof {
            lemma_r_models(self.children@);
        }
        let n = self.children.len();
        let mut i: usize = 0;
        while i < n
            invariant
                i <= n,
                *self == *old(self),
                r_ins_from(m0.children, ks, 0, value) == r_ins_from(
                    m0.children,
                    ks,
                    i as int,
                    value,
                ),
            decreases n - i,
        {
            let ghost c = m0.children[i as int];
            proof {
                assert(c == r_model(self.children@[i as int]));
            }
            let l = match_len_run(&self.children[i].key, key, from);
            proof {
                lemma_match_len(c.key, ks);
            }
            if l > 0 && l == self.children[i].key.len() {
                if from + l == klen {
                    proof {
                        assert(ks.len() == l);
                    }
                    let prev = self.children[i].value.take();
                    self.children[i].value = Some(value);
                    proof {
                        lemma_r_models(self.children@);
                        assert(r_models(self.children@) =~= m0.children.update(
                            i as int,
                            RadixModel { key: c.key, value: Some(value), children: c.children },
                        ));
                    }
                    return prev;
                }
                proof {
                    assert(ks.skip(l as int) =~= key@.skip(from + l));
                    assert(decreases_to!(*self => self.children));
                    assert(decreases_to!(self.children => self.children@));
                    assert(decreases_to!(self.children@ => self.children@[i as int]));
                }
                let prev = self.children[i].insert_from(key, from + l, value);
                proof {
                    lemma_r_models(self.children@);
                    assert(r_models(self.children@) =~= m0.children.update(
                        i as int,
                        r_model(self.children@[i as int]),
                    ));
                }
                return prev;
            }
            if l > 0 {
                // split the child's run at the point of divergence
                proof {
                    assert(l < c.key.len());
                }
                let tail = self.children[i].key.split_off(l);
                let old_val = self.children[i].value.take();
                let mut old_children: Vec<RadixNode<K, V>> = Vec::new();
                core::mem::swap(&mut old_children, &mut self.children[i].children);
                let moved = RadixNode { key: tail, value: old_val, children: old_children };
                let ghost moved_m = moved@;
                let ghost moved_snap = moved;
                proof {
                    assert(moved_m == (RadixModel {
                        key: c.key.skip(l as int),
                        value: c.value,
                        children: c.children,
                    }));
                    assert(self.children@[i as int].key@ =~= c.key.take(l as int));
                }
                self.children[i].children.push(moved);
                if from + l == klen {
                    self.children[i].value = Some(value);
                    proof {
                        assert(ks.len() == l);
                        let cur = self.children@[i as int];
                        assert(cur.children@ =~= seq![moved_snap]);
                        lemma_r_models(cur.children@);
                        assert(r_models(cur.children@) =~= seq![moved_m]);
                        lemma_r_models(self.children@);
                        assert(r_models(self.children@) =~= m0.children.update(
                            i as int,
                            RadixModel {
                                key: c.key.take(l as int),
                                value: Some(value),
                                children: seq![moved_m],
                            },
                        ));
                    }
                    return None;
                }
                let leaf = RadixNode {
                    key: tail_vec(key, from + l),
                    value: Some(value),
                    children: Vec::new(),
                };
                let ghost leaf_m = leaf@;
                proof {
                    assert(r_models(leaf.children@) =~= Seq::<RadixModel<K, V>>::empty());
                    assert(leaf_m == (RadixModel {
                        key: ks.skip(l as int),
                        value: Some(value),
                        children: Seq::<RadixModel<K, V>>::empty(),
                    })) by {
                        assert(key@.skip(from + l) =~= ks.skip(l as int));
                    }
                }
                self.children[i].children.push(leaf);
                proof {
                    let cur = self.children@[i as int];
                    lemma_r_models(cur.children@);
                    assert(cur.children@.len() == 2);
                    assert(cur.children@[0] == moved_snap);
                    assert(r_models(cur.children@) =~= seq![moved_m, leaf_m]);
                    lemma_r_models(self.children@);
                    assert(r_models(self.children@) =~= m0.children.update(
                        i as int,
                        RadixModel {
                            key: c.key.take(l as int),
                            value: None,
                            children: seq![moved_m, leaf_m],
                        },
                    ));
                }
                return None;
            }
            i += 1;
        }
        let leaf = RadixNode { key: tail_vec(key, from), value: Some(value), children: Vec::new() };
        let ghost leaf_m = leaf@;
        proof {
            assert(r_models(leaf.children@) =~= Seq::<RadixModel<K, V>>::empty());
        }
        self.children.push(leaf);
        proof {
            lemma_r_models(self.children@);
            assert(r_models(self.children@) =~= m0.children.push(leaf_m)) by {
                assert forall|j: int|
                    0 <= j < self.children@.len() implies r_models(self.children@)[j]
                    == m0.children.push(leaf_m)[j] by {
                    if j < m0.children.len() {
                        assert(self.children@[j] == old(self).children@[j]);
                    }
                }
            }
        }
        None
    }

    /// Insert `value` under the key sequence, per `r_ins_from` over this
    /// node's children, and hand back the value it replaced.  Never
    /// fails; the `Result` shape is shared with the other tries.
    pub fn insert(&mut self, key: &[K], value: V) -> (res: Result<Option<V>, ()>)
        requires
            K::obeys_eq_spec(),
        ensures
            ({
                let r = r_ins_from(old(self)@.children, key@, 0, value);
                &&& res matches Ok(prev)
                &&& final(self)@ == (RadixModel {
                    key: old(self)@.key,
                    value: old(self)@.value,
                    children: r.0,
                })
                &&& prev == r.1
            }),
    {
        proof {
            assert(key@.skip(0) =~= key@);
        }
        Ok(self.insert_from(key, 0, value))
    }

    /// The walk behind removal, over `key[from..]`.
    #[verifier::loop_isolation(false)]
    #[verifier::rlimit(100)]
    fn remove_from(&mut self, key: &[K], from: usize, prune: bool) -> (removed: Option<
        RadixNode<K, V>,
    >)
        requires
            K::obeys_eq_spec(),
            from <= key@.len(),
        ensures
            ({
                let r = r_rem_from(old(self)@.children, key@.skip(from as int), 0, prune);
                &&& final(self)@ == (RadixModel {
                    key: old(self)@.key,
                    value: old(self)@.value,
                    children: r.0,
                })
                &&& match (removed, r.1) {
                    (Some(node), Some(mn)) => node@ == mn,
                    (None, None) => true,
                    _ => false,
                }
            }),
        decreases key@.len() - from, 0int,
    {
        let ghost ks = key@.skip(from as int);
        let ghost m0 = old(self)@;
        let klen = key.len();
        proof {
            lemma_r_models(self.children@);
        }
        let n = self.children.len();
        let mut i: usize = 0;
        while i < n
            invariant
                i <= n,
                *self == *old(self),
                r_rem_from(m0.children, ks, 0, prune) == r_rem_from(
                    m0.children,
                    ks,
                    i as int,
                    prune,
                ),
            decreases n - i,
        {
            let ghost c = m0.children[i as int];
            proof {
                assert(c == r_model(self.children@[i as int]));
            }
            let l = match_len_run(&self.children[i].key, key, from);
            proof {
                lemma_match_len(c.key, ks);
            }
            if l > 0 && l == self.children[i].key.len() {
                if from + l == klen {
                    proof {
                        assert(ks.len() == l);
                    }
                    let cnum = self.children[i].children.len();
                    proof {
                        lemma_r_models(self.children@[i as int].children@);
                        assert(c.children.len() == cnum);
                    }
                    if prune || cnum == 0 {
                        let node = self.children.remove(i);
                        proof {
                            lemma_r_models(self.children@);
                            assert(r_models(self.children@) =~= m0.children.remove(i as int)) by {
                                assert forall|j: int|
                                    0 <= j < self.children@.len() implies r_models(
                                    self.children@,
                                )[j] == m0.children.remove(i as int)[j] by {
                                    if j < i as int {
                                        assert(self.children@[j] == old(self).children@[j]);
                                    } else {
                                        assert(self.children@[j] == old(self).children@[j + 1]);
                                    }
                                }
                            }
                        }
                        return Some(node);
                    }
                    if cnum == 1 {
                        // merge the lone grandchild into the node's run
                        let k_copy = copy_vec(&self.children[i].key);
                        let taken = self.children[i].value.take();
                        let grand = self.children[i].children.remove(0);
                        let ghost grand_m = grand@;
                        let RadixNode { key: gkey, value: gval, children: gchildren } = grand;
                        let mut gk = gkey;
                        self.children[i].key.append(&mut gk);
                        self.children[i].value = gval;
                        self.children[i].children = gchildren;
                        let node = RadixNode { key: k_copy, value: taken, children: Vec::new() };
                        proof {
                            assert(c.children[0] == grand_m);
                            assert(self.children@[i as int].key@ =~= c.key + grand_m.key);
                            assert(r_models(node.children@) =~= Seq::<RadixModel<K, V>>::empty());
                            lemma_r_models(self.children@);
                            assert(r_models(self.children@) =~= m0.children.update(
                                i as int,
                                RadixModel {
                                    key: c.key + c.children[0].key,
                                    value: c.children[0].value,
                                    children: c.children[0].children,
                                },
                            ));
                        }
                        return Some(node);
                    }
                    let k_copy = copy_vec(&self.children[i].key);
                    let taken = self.children[i].value.take();
                    let node = RadixNode { key: k_copy, value: taken, children: Vec::new() };
                    proof {
                        assert(r_models(node.children@) =~= Seq::<RadixModel<K, V>>::empty());
                        lemma_r_models(self.children@);
                        assert(r_models(self.children@) =~= m0.children.update(
                            i as int,
                            RadixModel { key: c.key, value: None, children: c.children },
                        ));
                    }
                    return Some(node);
                }
                proof {
                    assert(ks.skip(l as int) =~= key@.skip(from + l));
                    assert(decreases_to!(*self => self.children));
                    assert(decreases_to!(self.children => self.children@));
                    assert(decreases_to!(self.children@ => self.children@[i as int]));
                }
                let removed = self.children[i].remove_from(key, from + l, prune);
                proof {
                    lemma_r_models(self.children@);
                    assert(r_models(self.children@) =~= m0.children.update(
                        i as int,
                        r_model(self.children@[i as int]),
                    ));
                }
                return removed;
            }
            i += 1;
        }
        None
    }

    /// Remove the key sequence, per `r_rem_from` over this node's
    /// children, handing back the detached or emptied node.
    pub fn remove(&mut self, key: &[K], prune: bool) -> (removed: Option<RadixNode<K, V>>)
        requires
            K::obeys_eq_spec(),
            key@.len() > 0,
        ensures
            ({
                let r = r_rem_from(old(self)@.children, key@, 0, prune);
                &&& final(self)@ == (RadixModel {
                    key: old(self)@.key,
                    value: old(self)@.value,
                    children: r.0,
                })
                &&& match (removed, r.1) {
                    (Some(node), Some(mn)) => node@ == mn,
                    (None, None) => true,
                    _ => false,
                }
            }),
    {
        proof {
            assert(key@.skip(0) =~= key@);
        }
        self.remove_from(key, 0, prune)
    }
}

impl<K: PartialEqSpec + Copy, V> TrieExt<K, V> for RadixNode<K, V> {
    fn get(&self, key: &[K]) -> Option<&V> {
        RadixNode::get(self, key)
    }

    fn insert(&mut self, key: &[K], value: V) -> Result<Option<V>, ()> {
        RadixNode::insert(self, key, value)
    }

    fn remove(&mut self, key: &[K], prune: bool) -> Option<RadixNode<K, V>> {
        RadixNode::remove(self, key, prune)
    }
}

} // verus!
