//! Parameter captures produced by a lookup.
//!
//! `Params` is an ordered list of `(name, value)` pairs in capture order
//! (outer route segments first).  Duplicate names are kept; `get` returns
//! the first match.  A small fixed number of captures is stored inline,
//! with overflow into a growable list.

use vstd::prelude::*;

verus! {

/// Inline capacity of `Params` before it overflows to a `Vec`.
pub const SMALL: usize = 4;

/// One captured pair: a parameter name and the path component (or, for
/// the wildcard, the path remainder) it captured.
pub struct Param {
    pub key: String,
    pub value: String,
}

impl Param {
    /// The pair as the mathematical pair of its two character sequences.
    pub open spec fn pair(self) -> (Seq<char>, Seq<char>) {
        (self.key@, self.value@)
    }

    #[inline]
    pub fn new(key: &str, value: &str) -> (p: Self)
        ensures
            p.pair() == (key@, value@),
    {
        Self { key: key.to_owned(), value: value.to_owned() }
    }

    #[inline]
    pub fn key(&self) -> (r: &str)
        ensures
            r@ == self.key@,
    {
        self.key.as_str()
    }

    #[inline]
    pub fn value(&self) -> (r: &str)
        ensures
            r@ == self.value@,
    {
        self.value.as_str()
    }
}

impl Default for Param {
    fn default() -> (p: Self)
        ensures
            p.pair() == (Seq::<char>::empty(), Seq::<char>::empty()),
    {
        Self { key: String::new(), value: String::new() }
    }
}

/// The captured pairs of one lookup, in capture order.
pub enum Params {
    Small([Param; 4], usize),
    Large(Vec<Param>),
}

/// View of a capture list: the pairs in order.
pub open spec fn pairs_of(s: Seq<Param>) -> Seq<(Seq<char>, Seq<char>)> {
    s.map_values(|p: Param| p.pair())
}

/// First value captured under `k`, scanning in capture order.
pub open spec fn first_capture(ps: Seq<(Seq<char>, Seq<char>)>, k: Seq<char>) -> Option<Seq<char>>
    decreases ps.len(),
{
    if ps.len() == 0 {
        None
    } else if ps[0].0 == k {
        Some(ps[0].1)
    } else {
        first_capture(ps.skip(1), k)
    }
}

/// Scanning may start past any prefix known to hold no match.
pub proof fn lemma_first_capture_skip(ps: Seq<(Seq<char>, Seq<char>)>, k: Seq<char>, i: int)
    requires
        0 <= i <= ps.len(),
        forall|j: int| 0 <= j < i ==> (#[trigger] ps[j]).0 != k,
    ensures
        first_capture(ps, k) == first_capture(ps.skip(i), k),
    decreases i,
{
    if i == 0 {
        assert(ps.skip(0) =~= ps);
    } else {
        lemma_first_capture_skip(ps, k, i - 1);
        assert(ps.skip(i - 1).len() > 0);
        assert(ps.skip(i - 1)[0] == ps[i - 1]);
        assert(ps[i - 1].0 != k);
        assert(first_capture(ps.skip(i - 1), k) == first_capture(ps.skip(i - 1).skip(1), k));
        assert(ps.skip(i - 1).skip(1) =~= ps.skip(i));
    }
}

impl View for Params {
    type V = Seq<(Seq<char>, Seq<char>)>;

    open spec fn view(&self) -> Seq<(Seq<char>, Seq<char>)> {
        match self {
            Params::Small(arr, count) => pairs_of(arr@.take(*count as int)),
            Params::Large(v) => pairs_of(v@),
        }
    }
}

impl Params {
    /// The inline count never exceeds the inline capacity.
    pub open spec fn inv(&self) -> bool {
        match self {
            Params::Small(_, count) => *count <= 4,
            Params::Large(_) => true,
        }
    }

    pub fn new() -> (r: Self)
        ensures
            r@ == Seq::<(Seq<char>, Seq<char>)>::empty(),
            r.inv(),
    {
        let r = Params::Small(
            [Param::default(), Param::default(), Param::default(), Param::default()],
            0,
        );
        proof {
            if let Params::Small(arr, count) = &r {
                assert(arr@.take(0) =~= Seq::<Param>::empty());
                assert(r@ =~= Seq::<(Seq<char>, Seq<char>)>::empty());
            }
        }
        r
    }

    /// Append one captured pair.
    pub fn insert(&mut self, key: &str, value: &str)
        requires
            old(self).inv(),
        ensures
            final(self).inv(),
            final(self)@ == old(self)@.push((key@, value@)),
    {
        let p = Param::new(key, value);
        match self {
            Params::Small(arr, count) => {
                if *count == SMALL {
                    let mut xs: Vec<Param> = Vec::new();
                    let mut i: usize = 0;
                    while i < SMALL
                        invariant
                            i <= 4,
                            xs@.len() == i,
                            forall|j: int|
                                0 <= j < i ==> (#[trigger] xs@[j]).pair() == arr@[j].pair(),
                        decreases 4 - i,
                    {
                        let q = Param::new(arr[i].key.as_str(), arr[i].value.as_str());
                        proof {
                            assert(q.pair() == arr@[i as int].pair());
                        }
                        xs.push(q);
                        i += 1;
                    }
                    xs.push(p);
                    proof {
                        assert(pairs_of(xs@) =~= pairs_of(arr@.take(4)).push((key@, value@)));
                    }
                    *self = Params::Large(xs);
                } else {
                    let c = *count;
                    arr[c] = p;
                    *count = c + 1;
                    proof {
                        if let Params::Small(arr2, count2) = self {
                            assert(pairs_of(arr2@.take(*count2 as int)) =~= pairs_of(
                                old(self)->Small_0@.take(c as int),
                            ).push((key@, value@)));
                        }
                    }
                }
            },
            Params::Large(v) => {
                v.push(p);
                proof {
                    if let Params::Large(v2) = self {
                        assert(pairs_of(v2@) =~= pairs_of(old(self)->Large_0@).push(
                            (key@, value@),
                        ));
                    }
                }
            },
        }
    }

    /// The first value captured under `key`, if any.
    pub fn get(&self, key: &str) -> (r: Option<&str>)
        requires
            self.inv(),
        ensures
            match r {
                Some(v) => first_capture(self@, key@) == Some(v@),
                None => first_capture(self@, key@) is None,
            },
    {
        match self {
            Params::Small(arr, count) => {
                let n = *count;
                let mut i: usize = 0;
                while i < n
                    invariant
                        i <= n,
                        n <= 4,
                        self == Params::Small(*arr, n),
                        self.inv(),
                        forall|j: int| 0 <= j < i ==> (#[trigger] self@[j]).0 != key@,
                    decreases n - i,
                {
                    proof {
                        assert(self@[i as int] == arr@[i as int].pair());
                    }
                    if str_eq_at(arr, i, key) {
                        proof {
                            lemma_first_capture_skip(self@, key@, i as int);
                        }
                        return Some(arr[i].value.as_str());
                    }
                    i += 1;
                }
                proof {
                    lemma_first_capture_skip(self@, key@, n as int);
                    assert(self@.skip(n as int).len() == 0);
                }
                None
            },
            Params::Large(v) => {
                let n = v.len();
                let mut i: usize = 0;
                while i < n
                    invariant
                        i <= n,
                        self == Params::Large(*v),
                        n == v@.len(),
                        forall|j: int| 0 <= j < i ==> (#[trigger] self@[j]).0 != key@,
                    decreases n - i,
                {
                    proof {
                        assert(self@[i as int] == v@[i as int].pair());
                    }
                    if super::segs::str_eq(v[i].key.as_str(), key) {
                        proof {
                            lemma_first_capture_skip(self@, key@, i as int);
                        }
                        return Some(v[i].value.as_str());
                    }
                    i += 1;
                }
                proof {
                    lemma_first_capture_skip(self@, key@, n as int);
                    assert(self@.skip(n as int).len() == 0);
                }
                None
            },
        }
    }
}

/// Compare the key of an inline slot with a query key.
fn str_eq_at(arr: &[Param; 4], i: usize, key: &str) -> (r: bool)
    requires
        i < 4,
    ensures
        r == (arr@[i as int].key@ == key@),
{
    super::segs::str_eq(arr[i].key.as_str(), key)
}

} // verus!
