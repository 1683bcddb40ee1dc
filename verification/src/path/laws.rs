//! Laws of the trie engine, proved over the models that the engine's
//! contracts speak of.

use super::node::e_match;
use super::node::find_kind;
use super::node::find_static;
use super::node::lemma_find_static;
use super::node::find_unit;
use super::node::first_nonstatic;
use super::node::join_label;
use super::node::kind_of;
use super::node::lemma_find_exact_is;
use super::node::lemma_find_kind;
use super::node::lemma_find_kind_is;
use super::node::lemma_find_kind_none;
use super::node::lemma_find_static_is;
use super::node::lemma_find_static_none;
use super::node::lemma_find_unit;
use super::node::lemma_find_unit_is;
use super::node::lemma_first_nonstatic;
use super::node::lemma_m_chain;
use super::node::lemma_m_compress_children;
use super::node::lemma_m_compress_wf;
use super::node::lemma_m_size_children;
use super::node::lemma_merge_size;
use super::node::lemma_merge_wf;
use super::node::m_compress;
use super::node::m_compress_children;
use super::node::m_size;
use super::node::m_size_children;
use super::node::mergeable;
use super::node::merge_step;
use super::node::wf_at;
use super::node::wf_label;
use super::node::lemma_m_insert_wf;
use super::node::lemma_m_wf_children;
use super::node::lemma_share;
use super::node::lemma_share_unique;
use super::node::lemma_split_wf;
use super::node::lemma_valid_units_skip;
use super::node::m_chain;
use super::node::m_insert;
use super::node::m_lookup;
use super::node::m_remove;
use super::node::m_wf;
use super::node::s_match;
use super::node::share;
use super::node::u_match;
use super::node::unit_kind;
use super::node::Captures;
use super::node::Kind;
use super::node::Model;
use super::segs;
use vstd::prelude::*;

verus! {

/// Inserting the rest of a pattern into the fresh branch made for that
/// same pattern only overwrites the value at its end.
proof fn lemma_insert_into_chain<T>(ks: Seq<Seq<char>>, v1: T, v2: T)
    requires
        segs::valid_units(ks),
        ks.len() >= 1,
    ensures
        m_insert(m_chain(ks, v1), ks.skip(1), v2).0 == m_chain(ks, v2),
    decreases ks.len(),
{
    let c1 = m_chain(ks, v1);
    if ks.len() == 1 {
        assert(m_insert(c1, ks.skip(1), v2).0 == Model {
            label: c1.label,
            data: Some(v2),
            children: c1.children,
        });
    } else {
        let u = ks[1];
        assert(ks.skip(1)[0] == u);
        assert(segs::valid_unit(u)) by {
            assert(ks[1] == u);
        }
        lemma_valid_units_skip(ks, 1);
        let inner1 = m_chain(ks.skip(1), v1);
        lemma_m_chain(ks.skip(1), v1);
        assert(c1.children == seq![inner1]);
        assert(c1.children[0] == inner1);
        assert(inner1.label == seq![u]);
        lemma_insert_into_chain(ks.skip(1), v1, v2);
        assert(ks.skip(1).skip(1) =~= ks.skip(2));
        let r = m_insert(inner1, ks.skip(2), v2);
        match unit_kind(u) {
            Kind::Static => {
                assert(u_match(c1.children[0], u)) by {
                    assert(kind_of(inner1.label) == unit_kind(u));
                }
                lemma_find_unit_is(c1.children, u, 0);
                lemma_share(inner1.label, ks.skip(1));
                assert(share(inner1.label, ks.skip(1)) == 1) by {
                    assert(inner1.label[0] == ks.skip(1)[0]);
                    lemma_share_unique(inner1.label, ks.skip(1), 1);
                }
                assert(m_insert(c1, ks.skip(1), v2).0 == Model {
                    label: c1.label,
                    data: c1.data,
                    children: c1.children.update(0, r.0),
                });
                assert(c1.children.update(0, m_chain(ks.skip(1), v2)) =~= seq![
                    m_chain(ks.skip(1), v2),
                ]);
                assert(m_chain(ks, v2).children == seq![m_chain(ks.skip(1), v2)]);
            },
            Kind::Param => {
                assert(kind_of(inner1.label) == Kind::Param);
                lemma_find_kind_is(c1.children, Kind::Param, 0);
                assert(inner1.label == seq![u]);
                assert(m_insert(c1, ks.skip(1), v2).0 == Model {
                    label: c1.label,
                    data: c1.data,
                    children: c1.children.update(0, r.0),
                });
                assert(c1.children.update(0, m_chain(ks.skip(1), v2)) =~= seq![
                    m_chain(ks.skip(1), v2),
                ]);
            },
            Kind::Wildcard => {
                assert(kind_of(inner1.label) == Kind::Wildcard);
                lemma_find_kind_is(c1.children, Kind::Wildcard, 0);
                assert(m_insert(c1, ks.skip(1), v2).0 == Model {
                    label: c1.label,
                    data: c1.data,
                    children: c1.children.update(0, r.0),
                });
                assert(c1.children.update(0, m_chain(ks.skip(1), v2)) =~= seq![
                    m_chain(ks.skip(1), v2),
                ]);
            },
        }
        assert(m_insert(c1, ks.skip(1), v2).0 =~~= m_chain(ks, v2));
    }
}

/// Idempotent insert: storing a pattern twice, with `v1` then `v2`,
/// leaves the trie exactly as storing it once with `v2` would — one
/// route for the pattern, holding the later value.
#[verifier::rlimit(100)]
pub proof fn lemma_insert_idempotent<T>(m: Model<T>, ks: Seq<Seq<char>>, v1: T, v2: T)
    requires
        m_wf(m),
        segs::valid_units(ks),
        kind_of(m.label) == Kind::Wildcard ==> ks.len() == 0,
    ensures
        m_insert(m_insert(m, ks, v1).0, ks, v2).0 == m_insert(m, ks, v2).0,
    decreases ks.len(),
{
    let m1 = m_insert(m, ks, v1).0;
    lemma_m_insert_wf(m, ks, v1);
    lemma_m_wf_children(m.children);
    if ks.len() == 0 {
    } else {
        let u = ks[0];
        assert(segs::valid_unit(u));
        lemma_valid_units_skip(ks, 1);
        match unit_kind(u) {
            Kind::Static => {
                lemma_find_unit(m.children, u, 0);
                match find_unit(m.children, u, 0) {
                    Some(i) => {
                        let c = m.children[i];
                        lemma_share(c.label, ks);
                        let sh = share(c.label, ks);
                        lemma_valid_units_skip(ks, sh);
                        if sh == c.label.len() {
                            let ca = m_insert(c, ks.skip(sh), v1).0;
                            lemma_m_insert_wf(c, ks.skip(sh), v1);
                            assert(m1.children == m.children.update(i, ca));
                            assert(u_match(m1.children[i], u)) by {
                                assert(ca.label == c.label);
                            }
                            assert forall|l: int| 0 <= l < i implies !u_match(
                                #[trigger] m1.children[l],
                                u,
                            ) by {
                                assert(m1.children[l] == m.children[l]);
                            }
                            lemma_find_unit_is(m1.children, u, i);
                            assert(share(ca.label, ks) == sh) by {
                                lemma_share_unique(ca.label, ks, sh);
                            }
                            lemma_insert_idempotent(c, ks.skip(sh), v1, v2);
                            assert(m_insert(m1, ks, v2).0.children == m1.children.update(
                                i,
                                m_insert(ca, ks.skip(sh), v2).0,
                            ));
                            assert(m.children.update(i, ca).update(
                                i,
                                m_insert(c, ks.skip(sh), v2).0,
                            ) =~= m.children.update(i, m_insert(c, ks.skip(sh), v2).0));
                            assert(m_insert(m1, ks, v2).0 =~~= m_insert(m, ks, v2).0);
                        } else {
                            let suffix = Model {
                                label: c.label.skip(sh),
                                data: c.data,
                                children: c.children,
                            };
                            let csplit = Model {
                                label: c.label.take(sh),
                                data: None,
                                children: seq![suffix],
                            };
                            lemma_split_wf(c, sh);
                            let ca = m_insert(csplit, ks.skip(sh), v1).0;
                            lemma_m_insert_wf(csplit, ks.skip(sh), v1);
                            assert(m1.children == m.children.update(i, ca));
                            assert(u_match(m1.children[i], u)) by {
                                assert(ca.label == csplit.label);
                                assert(csplit.label[0] == c.label[0]);
                            }
                            assert forall|l: int| 0 <= l < i implies !u_match(
                                #[trigger] m1.children[l],
                                u,
                            ) by {
                                assert(m1.children[l] == m.children[l]);
                            }
                            lemma_find_unit_is(m1.children, u, i);
                            assert(share(ca.label, ks) == sh) by {
                                assert(ca.label.len() == sh);
                                assert forall|j: int| 0 <= j < sh implies ca.label[j] == ks[j] by {
                                    assert(ca.label[j] == c.label[j]);
                                }
                                lemma_share_unique(ca.label, ks, sh);
                            }
                            lemma_insert_idempotent(csplit, ks.skip(sh), v1, v2);
                            assert(m_insert(m1, ks, v2).0.children == m1.children.update(
                                i,
                                m_insert(ca, ks.skip(sh), v2).0,
                            ));
                            assert(m.children.update(i, ca).update(
                                i,
                                m_insert(csplit, ks.skip(sh), v2).0,
                            ) =~= m.children.update(i, m_insert(csplit, ks.skip(sh), v2).0));
                            assert(m_insert(m1, ks, v2).0 =~~= m_insert(m, ks, v2).0);
                        }
                    },
                    None => {
                        lemma_m_chain(ks, v1);
                        lemma_m_chain(ks, v2);
                        lemma_first_nonstatic(m.children, 0);
                        let pos = super::node::first_nonstatic(m.children, 0);
                        let ch1 = m_chain(ks, v1);
                        assert(m1.children == m.children.insert(pos, ch1));
                        assert(m1.children[pos] == ch1);
                        assert(u_match(ch1, u)) by {
                            assert(ch1.label == seq![u]);
                            assert(ch1.label[0] == u);
                        }
                        assert forall|l: int| 0 <= l < pos implies !u_match(
                            #[trigger] m1.children[l],
                            u,
                        ) by {
                            assert(m1.children[l] == m.children[l]);
                        }
                        lemma_find_unit_is(m1.children, u, pos);
                        assert(share(ch1.label, ks) == 1) by {
                            assert(ch1.label[0] == ks[0]);
                            lemma_share_unique(ch1.label, ks, 1);
                        }
                        lemma_insert_into_chain(ks, v1, v2);
                        assert(m_insert(m1, ks, v2).0.children == m1.children.update(
                            pos,
                            m_chain(ks, v2),
                        ));
                        assert(m.children.insert(pos, ch1).update(pos, m_chain(ks, v2)) =~= m
                            .children.insert(pos, m_chain(ks, v2)));
                        assert(m_insert(m1, ks, v2).0 =~~= m_insert(m, ks, v2).0);
                    },
                }
            },
            Kind::Param => {
                lemma_find_kind(m.children, Kind::Param, 0);
                lemma_find_kind(m.children, Kind::Wildcard, 0);
                match find_kind(m.children, Kind::Param, 0) {
                    Some(i) => {
                        let c = m.children[i];
                        if c.label == seq![u] {
                            let ca = m_insert(c, ks.skip(1), v1).0;
                            lemma_m_insert_wf(c, ks.skip(1), v1);
                            assert(m1.children == m.children.update(i, ca));
                            assert(kind_of(m1.children[i].label) == Kind::Param) by {
                                assert(ca.label == c.label);
                            }
                            assert forall|l: int| 0 <= l < i implies kind_of(
                                (#[trigger] m1.children[l]).label,
                            ) != Kind::Param by {
                                assert(m1.children[l] == m.children[l]);
                            }
                            lemma_find_kind_is(m1.children, Kind::Param, i);
                            lemma_insert_idempotent(c, ks.skip(1), v1, v2);
                            assert(m.children.update(i, ca).update(
                                i,
                                m_insert(c, ks.skip(1), v2).0,
                            ) =~= m.children.update(i, m_insert(c, ks.skip(1), v2).0));
                            assert(m_insert(m1, ks, v2).0 =~~= m_insert(m, ks, v2).0);
                        } else {
                            let ch1 = m_chain(ks, v1);
                            lemma_m_chain(ks, v1);
                            lemma_m_chain(ks, v2);
                            assert(m1.children == m.children.update(i, ch1));
                            assert(kind_of(m1.children[i].label) == Kind::Param) by {
                                assert(ch1.label == seq![u]);
                            }
                            assert forall|l: int| 0 <= l < i implies kind_of(
                                (#[trigger] m1.children[l]).label,
                            ) != Kind::Param by {
                                assert(m1.children[l] == m.children[l]);
                            }
                            lemma_find_kind_is(m1.children, Kind::Param, i);
                            assert(m1.children[i].label == seq![u]);
                            lemma_insert_into_chain(ks, v1, v2);
                            assert(m.children.update(i, ch1).update(i, m_chain(ks, v2)) =~= m
                                .children.update(i, m_chain(ks, v2)));
                            assert(m_insert(m1, ks, v2).0 =~~= m_insert(m, ks, v2).0);
                        }
                    },
                    None => {
                        let ch1 = m_chain(ks, v1);
                        lemma_m_chain(ks, v1);
                        lemma_m_chain(ks, v2);
                        lemma_insert_into_chain(ks, v1, v2);
                        match find_kind(m.children, Kind::Wildcard, 0) {
                            Some(i) => {
                                assert(m1.children == m.children.update(i, ch1));
                                assert(kind_of(m1.children[i].label) == Kind::Param) by {
                                    assert(ch1.label == seq![u]);
                                }
                                assert forall|l: int| 0 <= l < i implies kind_of(
                                    (#[trigger] m1.children[l]).label,
                                ) != Kind::Param by {
                                    assert(m1.children[l] == m.children[l]);
                                }
                                lemma_find_kind_is(m1.children, Kind::Param, i);
                                assert(m1.children[i].label == seq![u]);
                                assert(m.children.update(i, ch1).update(i, m_chain(ks, v2)) =~= m
                                    .children.update(i, m_chain(ks, v2)));
                                assert(m_insert(m1, ks, v2).0 =~~= m_insert(m, ks, v2).0);
                            },
                            None => {
                                let pos = m.children.len() as int;
                                assert(m1.children == m.children.push(ch1));
                                assert(m1.children[pos] == ch1);
                                assert(kind_of(m1.children[pos].label) == Kind::Param) by {
                                    assert(ch1.label == seq![u]);
                                }
                                assert forall|l: int| 0 <= l < pos implies kind_of(
                                    (#[trigger] m1.children[l]).label,
                                ) != Kind::Param by {
                                    assert(m1.children[l] == m.children[l]);
                                }
                                lemma_find_kind_is(m1.children, Kind::Param, pos);
                                assert(m1.children[pos].label == seq![u]);
                                assert(m.children.push(ch1).update(pos, m_chain(ks, v2)) =~= m
                                    .children.push(m_chain(ks, v2)));
                                assert(m_insert(m1, ks, v2).0 =~~= m_insert(m, ks, v2).0);
                            },
                        }
                    },
                }
            },
            Kind::Wildcard => {
                assert(u == segs::wild());
                assert(ks.len() == 1);
                assert(ks.skip(1).len() == 0);
                lemma_find_kind(m.children, Kind::Wildcard, 0);
                lemma_find_kind(m.children, Kind::Param, 0);
                match find_kind(m.children, Kind::Wildcard, 0) {
                    Some(i) => {
                        let c = m.children[i];
                        let ca = m_insert(c, ks.skip(1), v1).0;
                        assert(ca == Model { label: c.label, data: Some(v1), children: c.children });
                        assert(m1.children == m.children.update(i, ca));
                        assert(kind_of(m1.children[i].label) == Kind::Wildcard);
                        assert forall|l: int| 0 <= l < i implies kind_of(
                            (#[trigger] m1.children[l]).label,
                        ) != Kind::Wildcard by {
                            assert(m1.children[l] == m.children[l]);
                        }
                        lemma_find_kind_is(m1.children, Kind::Wildcard, i);
                        assert(m1.children[i] == ca);
                        assert(m_insert(ca, ks.skip(1), v2).0 == m_insert(c, ks.skip(1), v2).0);
                        assert(m_insert(m1, ks, v2).0.children == m1.children.update(
                            i,
                            m_insert(ca, ks.skip(1), v2).0,
                        ));
                        assert(m.children.update(i, ca).update(
                            i,
                            m_insert(c, ks.skip(1), v2).0,
                        ) =~= m.children.update(i, m_insert(c, ks.skip(1), v2).0));
                        assert(m_insert(m1, ks, v2).0 =~~= m_insert(m, ks, v2).0);
                    },
                    None => {
                        let ch1 = m_chain(ks, v1);
                        lemma_m_chain(ks, v1);
                        lemma_m_chain(ks, v2);
                        assert(ch1 == Model {
                            label: ks,
                            data: Some(v1),
                            children: Seq::<Model<T>>::empty(),
                        });
                        assert(ch1.label =~= seq![u]);
                        assert(m_chain(ks, v2) == Model {
                            label: ks,
                            data: Some(v2),
                            children: Seq::<Model<T>>::empty(),
                        });
                        match find_kind(m.children, Kind::Param, 0) {
                            Some(i) => {
                                assert(m1.children == m.children.update(i, ch1));
                                assert(kind_of(m1.children[i].label) == Kind::Wildcard);
                                assert forall|l: int| 0 <= l < i implies kind_of(
                                    (#[trigger] m1.children[l]).label,
                                ) != Kind::Wildcard by {
                                    assert(m1.children[l] == m.children[l]);
                                }
                                lemma_find_kind_is(m1.children, Kind::Wildcard, i);
                                assert(m_insert(ch1, ks.skip(1), v2).0 == m_chain(ks, v2));
                                assert(m.children.update(i, ch1).update(i, m_chain(ks, v2)) =~= m
                                    .children.update(i, m_chain(ks, v2)));
                                assert(m_insert(m1, ks, v2).0 =~~= m_insert(m, ks, v2).0);
                            },
                            None => {
                                let pos = m.children.len() as int;
                                assert(m1.children == m.children.push(ch1));
                                assert(m1.children[pos] == ch1);
                                assert(kind_of(m1.children[pos].label) == Kind::Wildcard);
                                assert forall|l: int| 0 <= l < pos implies kind_of(
                                    (#[trigger] m1.children[l]).label,
                                ) != Kind::Wildcard by {
                                    assert(m1.children[l] == m.children[l]);
                                }
                                lemma_find_kind_is(m1.children, Kind::Wildcard, pos);
                                assert(m_insert(ch1, ks.skip(1), v2).0 == m_chain(ks, v2));
                                assert(m.children.push(ch1).update(pos, m_chain(ks, v2)) =~= m
                                    .children.push(m_chain(ks, v2)));
                                assert(m_insert(m1, ks, v2).0 =~~= m_insert(m, ks, v2).0);
                            },
                        }
                    },
                }
            },
        }
    }
}

/// A concrete instantiation of a pattern: static units stand for
/// themselves, a parameter unit for one nonempty slash-free component,
/// the wildcard for one nonempty suffix (not beginning with `/`).
pub open spec fn inst_ok(ks: Seq<Seq<char>>, vs: Seq<Seq<char>>) -> bool {
    &&& vs.len() == ks.len()
    &&& forall|i: int|
        0 <= i < ks.len() ==> match unit_kind(#[trigger] ks[i]) {
            Kind::Static => vs[i] == ks[i],
            Kind::Param => vs[i].len() > 0 && (forall|j: int|
                0 <= j < vs[i].len() ==> vs[i][j] != '/'),
            Kind::Wildcard => vs[i].len() > 0 && vs[i][0] != '/',
        }
}

/// The captures such an instantiation produces, in capture order.
pub open spec fn inst_captures(ks: Seq<Seq<char>>, vs: Seq<Seq<char>>) -> Captures
    decreases ks.len(),
{
    if ks.len() == 0 {
        Seq::empty()
    } else {
        match unit_kind(ks[0]) {
            Kind::Static => inst_captures(ks.skip(1), vs.skip(1)),
            Kind::Param => seq![(ks[0].skip(1), vs[0])] + inst_captures(ks.skip(1), vs.skip(1)),
            Kind::Wildcard => seq![(segs::wild(), vs[0])],
        }
    }
}

/// Looking an instantiation up in the single fresh branch made for its
/// pattern finds the branch's value and captures.
proof fn lemma_chain_lookup<T>(
    plabel: Seq<Seq<char>>,
    ks: Seq<Seq<char>>,
    vs: Seq<Seq<char>>,
    v: T,
    key: Seq<char>,
)
    requires
        segs::valid_units(ks),
        ks.len() >= 1,
        inst_ok(ks, vs),
        segs::strip(key) == join_label(vs),
    ensures
        m_lookup(
            Model { label: plabel, data: None, children: seq![m_chain(ks, v)] },
            key,
        ) == Some((v, inst_captures(ks, vs))),
    decreases ks.len(),
{
    let m = Model { label: plabel, data: None, children: seq![m_chain(ks, v)] };
    let ch = m_chain(ks, v);
    lemma_m_chain(ks, v);
    assert(segs::valid_unit(ks[0]));
    assert(ch.label =~= seq![ks[0]]);
    assert(m.children[0] == ch);
    let rem = segs::strip(key);
    let v0 = vs[0];
    assert(v0.len() > 0 && v0[0] != '/') by {
        match unit_kind(ks[0]) {
            Kind::Static => {
                assert(vs[0] == ks[0]);
            },
            Kind::Param => {},
            Kind::Wildcard => {},
        }
    }
    let n0 = v0.len() as int;
    if vs.len() == 1 {
        assert(rem == v0);
    } else {
        assert(rem == v0 + seq!['/'] + join_label(vs.skip(1)));
        assert(rem.len() > n0);
        assert(rem[n0] == '/');
        assert(forall|j: int| 0 <= j < n0 ==> rem[j] == v0[j]);
    }
    assert(rem.len() > 0);
    assert(rem[0] != '/');
    match unit_kind(ks[0]) {
        Kind::Static => {
            assert(forall|j: int| 0 <= j < n0 ==> rem[j] != '/');
            segs::lemma_comp_len_unique(rem, n0);
            assert(segs::comp(rem) =~= v0);
            assert(segs::eats(ch.label, rem) == Some(rem.skip(n0))) by {
                assert(segs::comp(rem) == ch.label[0]);
            }
            assert(s_match(ch, rem)) by {
                assert(kind_of(ch.label) == Kind::Static);
            }
            lemma_find_static_is(m.children, rem, 0);
            let r = rem.skip(n0);
            if ks.len() == 1 {
                assert(r =~= Seq::<char>::empty());
                assert(segs::strip(r).len() == 0);
                assert(ch.data == Some(v));
                assert(m_lookup(ch, r) == Some((v, Seq::<(Seq<char>, Seq<char>)>::empty())));
                assert(inst_captures(ks, vs) =~= Seq::<(Seq<char>, Seq<char>)>::empty());
            } else {
                assert(r =~= seq!['/'] + join_label(vs.skip(1)));
                assert(r[0] == '/');
                assert(segs::strip(r) =~= join_label(vs.skip(1)));
                lemma_valid_units_skip(ks, 1);
                assert(inst_ok(ks.skip(1), vs.skip(1))) by {
                    assert forall|i: int| 0 <= i < ks.skip(1).len() implies match unit_kind(
                        #[trigger] ks.skip(1)[i],
                    ) {
                        Kind::Static => vs.skip(1)[i] == ks.skip(1)[i],
                        Kind::Param => vs.skip(1)[i].len() > 0 && (forall|j: int|
                            0 <= j < vs.skip(1)[i].len() ==> vs.skip(1)[i][j] != '/'),
                        Kind::Wildcard => vs.skip(1)[i].len() > 0 && vs.skip(1)[i][0] != '/',
                    } by {
                        assert(ks.skip(1)[i] == ks[i + 1]);
                        assert(vs.skip(1)[i] == vs[i + 1]);
                    }
                }
                assert(ch == (Model {
                    label: seq![ks[0]],
                    data: None,
                    children: seq![m_chain(ks.skip(1), v)],
                })) by {
                    assert(ch.label =~= seq![ks[0]]);
                }
                lemma_chain_lookup(seq![ks[0]], ks.skip(1), vs.skip(1), v, r);
                assert(m_lookup(ch, r) == Some((v, inst_captures(ks.skip(1), vs.skip(1)))));
            }
        },
        Kind::Param => {
            assert(!s_match(ch, rem)) by {
                assert(kind_of(ch.label) == Kind::Param);
            }
            assert forall|l: int| 0 <= l < m.children.len() implies !s_match(
                #[trigger] m.children[l],
                rem,
            ) by {
                assert(m.children[l] == ch);
            }
            lemma_find_static_none(m.children, rem);
            lemma_find_kind_is(m.children, Kind::Param, 0);
            assert(forall|j: int| 0 <= j < n0 ==> rem[j] != '/');
            segs::lemma_comp_len_unique(rem, n0);
            assert(segs::comp(rem) =~= v0);
            assert(ch.label[0].skip(1) == ks[0].skip(1));
            let r = rem.skip(n0);
            if ks.len() == 1 {
                assert(r =~= Seq::<char>::empty());
                assert(ch.data == Some(v));
                assert(m_lookup(ch, r) == Some((v, Seq::<(Seq<char>, Seq<char>)>::empty())));
                assert(inst_captures(ks.skip(1), vs.skip(1)) =~= Seq::<(
                    Seq<char>,
                    Seq<char>,
                )>::empty());
                assert(seq![(ks[0].skip(1), v0)] + Seq::<(Seq<char>, Seq<char>)>::empty() =~= seq![
                    (ks[0].skip(1), v0),
                ]);
                assert(inst_captures(ks, vs) =~= seq![(ks[0].skip(1), v0)]);
            } else {
                assert(r =~= seq!['/'] + join_label(vs.skip(1)));
                assert(r[0] == '/');
                assert(segs::strip(r) =~= join_label(vs.skip(1)));
                lemma_valid_units_skip(ks, 1);
                assert(inst_ok(ks.skip(1), vs.skip(1))) by {
                    assert forall|i: int| 0 <= i < ks.skip(1).len() implies match unit_kind(
                        #[trigger] ks.skip(1)[i],
                    ) {
                        Kind::Static => vs.skip(1)[i] == ks.skip(1)[i],
                        Kind::Param => vs.skip(1)[i].len() > 0 && (forall|j: int|
                            0 <= j < vs.skip(1)[i].len() ==> vs.skip(1)[i][j] != '/'),
                        Kind::Wildcard => vs.skip(1)[i].len() > 0 && vs.skip(1)[i][0] != '/',
                    } by {
                        assert(ks.skip(1)[i] == ks[i + 1]);
                        assert(vs.skip(1)[i] == vs[i + 1]);
                    }
                }
                assert(ch == (Model {
                    label: seq![ks[0]],
                    data: None,
                    children: seq![m_chain(ks.skip(1), v)],
                })) by {
                    assert(ch.label =~= seq![ks[0]]);
                }
                lemma_chain_lookup(seq![ks[0]], ks.skip(1), vs.skip(1), v, r);
                assert(m_lookup(ch, r) == Some((v, inst_captures(ks.skip(1), vs.skip(1)))));
            }
        },
        Kind::Wildcard => {
            assert(ks[0] == segs::wild());
            assert(ks.len() == 1);
            assert(vs.len() == 1);
            assert(rem == v0);
            assert(!s_match(ch, rem)) by {
                assert(kind_of(ch.label) == Kind::Wildcard);
            }
            assert forall|l: int| 0 <= l < m.children.len() implies !s_match(
                #[trigger] m.children[l],
                rem,
            ) && kind_of((#[trigger] m.children[l]).label) != Kind::Param by {
                assert(m.children[l] == ch);
            }
            lemma_find_static_none(m.children, rem);
            lemma_find_kind_none(m.children, Kind::Param);
            lemma_find_kind_is(m.children, Kind::Wildcard, 0);
            assert(ch.data == Some(v));
        },
    }
}

/// Round-trip: a pattern stored in a fresh trie is found again by every
/// concrete instantiation of it — static segments verbatim, parameters
/// replaced by nonempty slash-free components, the wildcard by a
/// nonempty suffix — yielding the stored value and the captures of the
/// replaced segments.  In a trie holding further routes a higher-
/// precedence sibling may claim the instantiation instead, so the law
/// is stated for the single-pattern trie.
pub proof fn lemma_round_trip<T>(ks: Seq<Seq<char>>, vs: Seq<Seq<char>>, v: T)
    requires
        segs::valid_units(ks),
        ks.len() >= 1,
        inst_ok(ks, vs),
    ensures
        ({
            let root = Model::<T> { label: Seq::empty(), data: None, children: Seq::empty() };
            m_lookup(m_insert(root, ks, v).0, join_label(vs)) == Some((v, inst_captures(ks, vs)))
        }),
{
    let root = Model::<T> { label: Seq::empty(), data: None, children: Seq::empty() };
    let t = m_insert(root, ks, v).0;
    lemma_m_chain(ks, v);
    assert(t == (Model { label: Seq::<Seq<char>>::empty(), data: None, children: seq![m_chain(ks, v)] }))
        by {
        let u = ks[0];
        match unit_kind(u) {
            Kind::Static => {
                assert(find_unit(root.children, u, 0) is None);
                assert(first_nonstatic(root.children, 0) == 0);
                assert(root.children.insert(0, m_chain(ks, v)) =~= seq![m_chain(ks, v)]);
            },
            Kind::Param => {
                assert(find_kind(root.children, Kind::Param, 0) is None);
                assert(find_kind(root.children, Kind::Wildcard, 0) is None);
                assert(root.children.push(m_chain(ks, v)) =~= seq![m_chain(ks, v)]);
            },
            Kind::Wildcard => {
                assert(find_kind(root.children, Kind::Wildcard, 0) is None);
                assert(find_kind(root.children, Kind::Param, 0) is None);
                assert(root.children.push(m_chain(ks, v)) =~= seq![m_chain(ks, v)]);
            },
        }
    }
    assert(segs::strip(join_label(vs)) == join_label(vs)) by {
        assert(vs[0].len() > 0 && vs[0][0] != '/') by {
            match unit_kind(ks[0]) {
                Kind::Static => {
                    assert(vs[0] == ks[0]);
                    assert(segs::valid_unit(ks[0]));
                },
                Kind::Param => {},
                Kind::Wildcard => {},
            }
        }
        if vs.len() == 1 {
            assert(join_label(vs)[0] == vs[0][0]);
        } else {
            assert(join_label(vs)[0] == vs[0][0]);
        }
    }
    lemma_chain_lookup(Seq::<Seq<char>>::empty(), ks, vs, v, join_label(vs));
}

/// Removing a pattern from the fresh branch made for it takes the whole
/// branch down, under either flag.
proof fn lemma_remove_chain<T>(
    plabel: Seq<Seq<char>>,
    ks: Seq<Seq<char>>,
    v: T,
    prune: bool,
)
    requires
        segs::valid_units(ks),
        ks.len() >= 1,
    ensures
        m_remove(
            Model { label: plabel, data: None, children: seq![m_chain(ks, v)] },
            ks,
            prune,
        ) == (
            Model { label: plabel, data: None, children: Seq::<Model<T>>::empty() },
            Some(v),
        ),
    decreases ks.len(),
{
    let m = Model { label: plabel, data: None, children: seq![m_chain(ks, v)] };
    let ch = m_chain(ks, v);
    lemma_m_chain(ks, v);
    assert(ch.label =~= seq![ks[0]]);
    assert(m.children[0] == ch);
    assert(e_match(ch, ks)) by {
        assert(ks.take(1) =~= seq![ks[0]]);
    }
    lemma_find_exact_is(m.children, ks, 0);
    let rest = ks.skip(ch.label.len() as int);
    assert(rest =~= ks.skip(1));
    if ks.len() == 1 {
        assert(rest.len() == 0);
        assert(ch.data == Some(v));
        assert(ch.children.len() == 0);
        assert(m.children.remove(0) =~= Seq::<Model<T>>::empty());
    } else {
        lemma_valid_units_skip(ks, 1);
        assert(ch == (Model {
            label: seq![ks[0]],
            data: None,
            children: seq![m_chain(ks.skip(1), v)],
        })) by {
            assert(ch.label =~= seq![ks[0]]);
        }
        lemma_remove_chain(seq![ks[0]], ks.skip(1), v, prune);
        let r = m_remove(ch, rest, prune);
        assert(r.0.children.len() == 0 && r.0.data is None);
        assert(m.children.remove(0) =~= Seq::<Model<T>>::empty());
    }
}

/// Prune semantics, in equational form for a fresh trie: storing one
/// pattern and then removing it — with or without pruning — hands the
/// stored value back and restores the empty trie, so neither the
/// pattern nor anything under it stays reachable and no dead branch
/// lingers.  In a trie holding further routes a removed static child
/// can expose a parameter or wildcard sibling, so a lookup of the
/// removed pattern need not miss there.
pub proof fn lemma_remove_undoes_insert<T>(ks: Seq<Seq<char>>, v: T, prune: bool)
    requires
        segs::valid_units(ks),
        ks.len() >= 1,
    ensures
        ({
            let root = Model::<T> { label: Seq::empty(), data: None, children: Seq::empty() };
            m_remove(m_insert(root, ks, v).0, ks, prune) == (root, Some(v))
        }),
{
    let root = Model::<T> { label: Seq::empty(), data: None, children: Seq::empty() };
    let t = m_insert(root, ks, v).0;
    lemma_m_chain(ks, v);
    assert(t == (Model {
        label: Seq::<Seq<char>>::empty(),
        data: None,
        children: seq![m_chain(ks, v)],
    })) by {
        let u = ks[0];
        match unit_kind(u) {
            Kind::Static => {
                assert(find_unit(root.children, u, 0) is None);
                assert(first_nonstatic(root.children, 0) == 0);
                assert(root.children.insert(0, m_chain(ks, v)) =~= seq![m_chain(ks, v)]);
            },
            Kind::Param => {
                assert(find_kind(root.children, Kind::Param, 0) is None);
                assert(find_kind(root.children, Kind::Wildcard, 0) is None);
                assert(root.children.push(m_chain(ks, v)) =~= seq![m_chain(ks, v)]);
            },
            Kind::Wildcard => {
                assert(find_kind(root.children, Kind::Wildcard, 0) is None);
                assert(find_kind(root.children, Kind::Param, 0) is None);
                assert(root.children.push(m_chain(ks, v)) =~= seq![m_chain(ks, v)]);
            },
        }
    }
    lemma_remove_chain(Seq::<Seq<char>>::empty(), ks, v, prune);
}

/// A subtree holding static nodes only: no parameter or wildcard child
/// anywhere.
pub open spec fn static_only<T>(m: Model<T>) -> bool
    decreases m,
{
    &&& forall|i: int|
        0 <= i < m.children.len() ==> kind_of((#[trigger] m.children[i]).label) == Kind::Static
    &&& static_only_children(m.children)
}

pub open spec fn static_only_children<T>(cs: Seq<Model<T>>) -> bool
    decreases cs,
{
    cs.len() == 0 || (static_only(cs[0]) && static_only_children(cs.skip(1)))
}

proof fn lemma_static_only_children<T>(cs: Seq<Model<T>>)
    ensures
        static_only_children(cs) <==> (forall|i: int|
            0 <= i < cs.len() ==> static_only(#[trigger] cs[i])),
    decreases cs.len(),
{
    if cs.len() > 0 {
        lemma_static_only_children(cs.skip(1));
        assert forall|i: int| 0 <= i < cs.len() && static_only_children(cs) implies static_only(
            cs[i],
        ) by {
            if i > 0 {
                assert(cs.skip(1)[i - 1] == cs[i]);
            }
        }
        if forall|i: int| 0 <= i < cs.len() ==> static_only(#[trigger] cs[i]) {
            assert forall|i: int| 0 <= i < cs.skip(1).len() implies static_only(
                #[trigger] cs.skip(1)[i],
            ) by {
                assert(cs.skip(1)[i] == cs[i + 1]);
            }
            assert(static_only(cs[0]));
        }
    }
}

/// A label consumes the remainder run by run: a concatenation eats what
/// its first part leaves, after the separating slash.
proof fn lemma_eats_append(l1: Seq<Seq<char>>, l2: Seq<Seq<char>>, rem: Seq<char>)
    requires
        l1.len() >= 1,
    ensures
        segs::eats(l1 + l2, rem) == (match segs::eats(l1, rem) {
            None => None::<Seq<char>>,
            Some(r) => if l2.len() == 0 {
                Some(r)
            } else if r.len() > 0 {
                segs::eats(l2, r.skip(1))
            } else {
                None
            },
        }),
    decreases l1.len(),
{
    let lb = l1 + l2;
    assert(lb[0] == l1[0]);
    let n = segs::comp_len(rem);
    if segs::comp(rem) != l1[0] {
    } else {
        let r1 = rem.skip(n);
        if l1.len() == 1 {
            if l2.len() == 0 {
                assert(lb =~= l1);
            } else {
                assert(lb.len() > 1);
                assert(lb.skip(1) =~= l2);
            }
        } else {
            assert(lb.len() > 1);
            assert(lb.skip(1) =~= l1.skip(1) + l2);
            if r1.len() > 0 {
                lemma_eats_append(l1.skip(1), l2, r1.skip(1));
            }
        }
    }
}

/// What a nonempty label leaves of the remainder is empty or starts at
/// a slash.
proof fn lemma_eats_boundary(ls: Seq<Seq<char>>, rem: Seq<char>)
    requires
        ls.len() >= 1,
    ensures
        segs::eats(ls, rem) matches Some(r) ==> (r.len() == 0 || r[0] == '/') && r.len()
            <= rem.len(),
    decreases ls.len(),
{
    segs::lemma_comp_len(rem);
    let n = segs::comp_len(rem);
    if segs::comp(rem) == ls[0] {
        let r1 = rem.skip(n);
        if ls.len() == 1 {
            if r1.len() > 0 {
                assert(r1[0] == rem[n]);
            }
        } else if r1.len() > 0 {
            lemma_eats_boundary(ls.skip(1), r1.skip(1));
        }
    }
}

/// A lookup never reads the node's own label, only its value and its
/// children.
proof fn lemma_lookup_ignores_label<T>(a: Model<T>, b: Model<T>, key: Seq<char>)
    requires
        a.data == b.data,
        a.children == b.children,
    ensures
        m_lookup(a, key) == m_lookup(b, key),
{
    let rem = segs::strip(key);
    if rem.len() == 0 {
    } else if a.children.len() == 0 {
    } else {
        assert(m_lookup(a, key) == m_lookup(b, key));
    }
}

/// Compression only ever appends to a label.
proof fn lemma_compress_label_prefix<T>(m: Model<T>)
    requires
        m_wf(m),
        m.label.len() > 0 ==> wf_label(m.label),
        kind_of(m.label) == Kind::Wildcard ==> m.children.len() == 0,
    ensures
        m_compress(m).label.len() >= m.label.len(),
        m_compress(m).label.take(m.label.len() as int) == m.label,
    decreases m_size(m),
{
    if mergeable(m) {
        lemma_m_wf_children(m.children);
        lemma_merge_wf(m);
        lemma_merge_size(m);
        let mm = merge_step(m);
        lemma_compress_label_prefix(mm);
        assert(mm.label.take(m.label.len() as int) =~= m.label);
        assert(m_compress(m).label.take(m.label.len() as int) =~= m.label) by {
            assert forall|j: int| 0 <= j < m.label.len() implies m_compress(m).label[j]
                == m.label[j] by {
                assert(m_compress(mm).label.take(mm.label.len() as int)[j] == mm.label[j]);
                assert(mm.label[j] == m.label[j]);
            }
        }
    } else {
        assert(m_compress(m).label == m.label);
        assert(m.label.take(m.label.len() as int) =~= m.label);
    }
}

/// The outcome of trying one static child: what its labelled run
/// leaves of the remainder, looked up below it.
pub open spec fn try_static_child<T>(c: Model<T>, rem: Seq<char>) -> Option<(T, Captures)> {
    match segs::eats(c.label, rem) {
        Some(r) => m_lookup(c, r),
        None => None,
    }
}

/// Compressing a static subtree does not change what trying it yields.
proof fn lemma_compress_try<T>(c: Model<T>, rem: Seq<char>)
    requires
        m_wf(c),
        static_only(c),
        wf_label(c.label),
        kind_of(c.label) == Kind::Static,
    ensures
        try_static_child(m_compress(c), rem) == try_static_child(c, rem),
    decreases m_size(c), 2int,
{
    lemma_m_wf_children(c.children);
    lemma_static_only_children(c.children);
    if mergeable(c) {
        lemma_merge_wf(c);
        lemma_merge_size(c);
        let d = c.children[0];
        let mm = merge_step(c);
        assert(static_only(d));
        assert(static_only(mm)) by {
            assert(mm.children == d.children);
        }
        lemma_compress_try(mm, rem);
        assert(wf_label(d.label));
        assert(kind_of(d.label) == Kind::Static);
        lemma_eats_append(c.label, d.label, rem);
        lemma_eats_boundary(c.label, rem);
        match segs::eats(c.label, rem) {
            None => {},
            Some(r) => {
                if r.len() == 0 {
                    assert(segs::strip(r).len() == 0);
                    assert(m_lookup(c, r) is None);
                } else {
                    assert(r[0] == '/');
                    let rem2 = r.skip(1);
                    assert(segs::strip(r) == rem2);
                    match segs::eats(d.label, rem2) {
                        Some(r3) => {
                            assert(s_match(d, rem2));
                            lemma_find_static_is(c.children, rem2, 0);
                            assert(m_lookup(c, r) == m_lookup(d, r3));
                            lemma_lookup_ignores_label(mm, d, r3);
                        },
                        None => {
                            assert(!s_match(d, rem2));
                            assert forall|l: int| 0 <= l < c.children.len() implies !s_match(
                                #[trigger] c.children[l],
                                rem2,
                            ) && kind_of((#[trigger] c.children[l]).label) != Kind::Param
                                && kind_of((#[trigger] c.children[l]).label) != Kind::Wildcard by {
                                assert(c.children[l] == d);
                            }
                            lemma_find_static_none(c.children, rem2);
                            lemma_find_kind_none(c.children, Kind::Param);
                            lemma_find_kind_none(c.children, Kind::Wildcard);
                            assert(m_lookup(c, r) is None);
                        },
                    }
                }
            },
        }
    } else {
        match segs::eats(c.label, rem) {
            None => {},
            Some(r) => {
                lemma_compress_transparent(c, r);
            },
        }
    }
}

/// Compression transparency: in a trie of static routes, lookups in
/// the compressed trie return exactly what they return in the
/// uncompressed one, so the pass is observably a space optimization
/// only.  With parameter or wildcard children the two can differ: a
/// lookup that dead-ends inside an unmerged chain has already passed
/// the marker child by, while the merged label rejects the input up
/// front and lets the marker child catch it.
pub proof fn lemma_compress_transparent<T>(m: Model<T>, key: Seq<char>)
    requires
        m_wf(m),
        static_only(m),
    ensures
        m_lookup(
            Model { label: m.label, data: m.data, children: m_compress_children(m.children) },
            key,
        ) == m_lookup(m, key),
    decreases m_size(m), 1int,
{
    let cs2 = m_compress_children(m.children);
    let ct = Model { label: m.label, data: m.data, children: cs2 };
    let rem = segs::strip(key);
    lemma_m_compress_children(m.children);
    lemma_m_wf_children(m.children);
    lemma_static_only_children(m.children);
    lemma_m_size_children(m.children);
    if rem.len() == 0 {
    } else if m.children.len() == 0 {
        assert(cs2.len() == 0);
    } else {
        assert forall|i: int| 0 <= i < m.children.len() implies {
            let ci = #[trigger] m.children[i];
            &&& cs2[i] == m_compress(ci)
            &&& cs2[i].label.len() >= ci.label.len()
            &&& cs2[i].label.take(ci.label.len() as int) == ci.label
            &&& kind_of(cs2[i].label) == Kind::Static
            &&& cs2[i].label[0] == ci.label[0]
            &&& ci.label.len() > 0
        } by {
            let ci = m.children[i];
            assert(wf_label(ci.label));
            assert(kind_of(ci.label) == Kind::Static);
            lemma_m_compress_wf(ci);
            lemma_compress_label_prefix(ci);
            assert(cs2[i].label.take(ci.label.len() as int)[0] == cs2[i].label[0]);
        }
        lemma_find_static(m.children, rem, 0);
        match find_static(m.children, rem, 0) {
            Some(i) => {
                let ci = m.children[i];
                assert(segs::eats(ci.label, rem) is Some);
                assert(ci.label[0] == segs::comp(rem)) by {
                    if segs::comp(rem) != ci.label[0] {
                        assert(segs::eats(ci.label, rem) is None);
                    }
                }
                assert(m_size(ci) < m_size(m));
                assert(static_only(ci));
                lemma_compress_try(ci, rem);
                match segs::eats(cs2[i].label, rem) {
                    Some(r2) => {
                        assert(s_match(cs2[i], rem));
                        assert forall|l: int| 0 <= l < i implies !s_match(
                            #[trigger] cs2[l],
                            rem,
                        ) by {
                            if s_match(cs2[l], rem) {
                                assert(cs2[l].label[0] == segs::comp(rem)) by {
                                    if segs::comp(rem) != cs2[l].label[0] {
                                        assert(segs::eats(cs2[l].label, rem) is None);
                                    }
                                }
                                assert(m.children[l].label[0] == m.children[i].label[0]);
                                assert(false);
                            }
                        }
                        lemma_find_static_is(cs2, rem, i);
                        assert(m_lookup(ct, key) == m_lookup(cs2[i], r2));
                        assert(m_lookup(cs2[i], r2) == try_static_child(cs2[i], rem));
                    },
                    None => {
                        assert forall|j: int| 0 <= j < cs2.len() implies !s_match(
                            #[trigger] cs2[j],
                            rem,
                        ) && kind_of((#[trigger] cs2[j]).label) != Kind::Param && kind_of(
                            (#[trigger] cs2[j]).label,
                        ) != Kind::Wildcard by {
                            if j != i && s_match(cs2[j], rem) {
                                assert(cs2[j].label[0] == segs::comp(rem)) by {
                                    if segs::comp(rem) != cs2[j].label[0] {
                                        assert(segs::eats(cs2[j].label, rem) is None);
                                    }
                                }
                                assert(m.children[j].label[0] == m.children[i].label[0]);
                                if j < i {
                                    assert(false);
                                } else {
                                    assert(false);
                                }
                            }
                        }
                        lemma_find_static_none(cs2, rem);
                        lemma_find_kind_none(cs2, Kind::Param);
                        lemma_find_kind_none(cs2, Kind::Wildcard);
                        assert(m_lookup(ct, key) is None);
                        assert(try_static_child(ci, rem) is None);
                    },
                }
            },
            None => {
                assert forall|j: int| 0 <= j < cs2.len() implies !s_match(
                    #[trigger] cs2[j],
                    rem,
                ) && kind_of((#[trigger] cs2[j]).label) != Kind::Param && kind_of(
                    (#[trigger] cs2[j]).label,
                ) != Kind::Wildcard by {
                    let cj = m.children[j];
                    assert(!s_match(cj, rem));
                    if s_match(cs2[j], rem) {
                        let lab = cs2[j].label;
                        let l2 = lab.skip(cj.label.len() as int);
                        assert(lab =~= cj.label + l2) by {
                            assert forall|x: int| 0 <= x < cj.label.len() implies lab[x]
                                == cj.label[x] by {
                                assert(lab.take(cj.label.len() as int)[x] == lab[x]);
                            }
                        }
                        lemma_eats_append(cj.label, l2, rem);
                        assert(segs::eats(cj.label, rem) is Some);
                        assert(s_match(cj, rem));
                        assert(false);
                    }
                }
                lemma_find_static_none(cs2, rem);
                lemma_find_kind_none(cs2, Kind::Param);
                lemma_find_kind_none(cs2, Kind::Wildcard);
                assert forall|j: int| 0 <= j < m.children.len() implies kind_of(
                    (#[trigger] m.children[j]).label,
                ) != Kind::Param && kind_of((#[trigger] m.children[j]).label) != Kind::Wildcard
                    by {}
                lemma_find_kind_none(m.children, Kind::Param);
                lemma_find_kind_none(m.children, Kind::Wildcard);
            },
        }
    }
}

} // verus!
