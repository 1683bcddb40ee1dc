//! Segment-level model of paths and patterns.
//!
//! A path is a sequence of characters; `/` separates its components.  The
//! spec functions here define what a leading component is, how a pattern
//! string parses into segment units, and how a node label (a run of
//! segments) consumes a prefix of a queried path.  The executable string
//! helpers at the bottom are verified against these definitions.

use vstd::prelude::*;

verus! {

/// Length of the leading component of `s`: the number of characters
/// before the first `/` (all of `s` if it has no `/`).
pub open spec fn comp_len(s: Seq<char>) -> int
    decreases s.len(),
{
    if s.len() == 0 {
        0
    } else if s[0] == '/' {
        0
    } else {
        1 + comp_len(s.skip(1))
    }
}

/// The leading component of `s` itself.
pub open spec fn comp(s: Seq<char>) -> Seq<char> {
    s.take(comp_len(s))
}

/// `s` with one leading `/` removed, if it has one.
pub open spec fn strip(s: Seq<char>) -> Seq<char> {
    if s.len() > 0 && s[0] == '/' {
        s.skip(1)
    } else {
        s
    }
}

/// The single-character wildcard unit.
pub open spec fn wild() -> Seq<char> {
    seq!['*']
}

pub proof fn lemma_comp_len(s: Seq<char>)
    ensures
        0 <= comp_len(s) <= s.len(),
        forall|j: int| 0 <= j < comp_len(s) ==> s[j] != '/',
        comp_len(s) < s.len() ==> s[comp_len(s)] == '/',
    decreases s.len(),
{
    if s.len() == 0 {
    } else if s[0] == '/' {
    } else {
        lemma_comp_len(s.skip(1));
        assert forall|j: int| 0 <= j < comp_len(s) implies s[j] != '/' by {
            if j > 0 {
                assert(s.skip(1)[j - 1] == s[j]);
            }
        }
        if comp_len(s) < s.len() {
            assert(s.skip(1)[comp_len(s) - 1] == s[comp_len(s)]);
        }
    }
}

/// Any cut with the properties of `comp_len` is `comp_len`.
pub proof fn lemma_comp_len_unique(s: Seq<char>, n: int)
    requires
        0 <= n <= s.len(),
        forall|j: int| 0 <= j < n ==> s[j] != '/',
        n < s.len() ==> s[n] == '/',
    ensures
        n == comp_len(s),
    decreases s.len(),
{
    if s.len() == 0 {
    } else if s[0] == '/' {
        assert(n == 0);
    } else {
        assert(n >= 1);
        assert forall|j: int| 0 <= j < n - 1 implies s.skip(1)[j] != '/' by {
            assert(s.skip(1)[j] == s[j + 1]);
        }
        if n - 1 < s.skip(1).len() {
            assert(s.skip(1)[n - 1] == s[n]);
        }
        lemma_comp_len_unique(s.skip(1), n - 1);
    }
}

/// A node label is a sequence of segment units; `eats(ls, rem)` says
/// whether the label consumes a prefix of `rem`, component by component
/// with a `/` between consecutive units, and if so what remains.  The
/// remainder is empty or begins with `/`, so a match always ends on a
/// component boundary.
pub open spec fn eats(ls: Seq<Seq<char>>, rem: Seq<char>) -> Option<Seq<char>>
    decreases ls.len(),
{
    if ls.len() == 0 {
        Some(rem)
    } else {
        let n = comp_len(rem);
        if comp(rem) != ls[0] {
            None
        } else {
            let r = rem.skip(n);
            if ls.len() == 1 {
                Some(r)
            } else if r.len() > 0 {
                eats(ls.skip(1), r.skip(1))
            } else {
                None
            }
        }
    }
}

/// Construction-time pattern errors.
pub ghost enum ParseErr {
    /// A parameter marker with no name after it.
    Insufficient,
    /// A segment after the wildcard, carrying that segment.
    Unexpected(Seq<char>),
}

/// First nonempty component of `s`, if any.
pub open spec fn next_seg(s: Seq<char>) -> Option<Seq<char>>
    decreases s.len(),
{
    if s.len() == 0 {
        None
    } else if s[0] == '/' {
        next_seg(s.skip(1))
    } else {
        Some(comp(s))
    }
}

/// Parse a pattern string into its segment units.  Empty components are
/// discarded; a bare `:` fails; a component after a `*` unit fails.
pub open spec fn parse_m(s: Seq<char>) -> Result<Seq<Seq<char>>, ParseErr>
    decreases s.len(),
    via parse_m_dec
{
    if s.len() == 0 {
        Ok(seq![])
    } else if s[0] == '/' {
        parse_m(s.skip(1))
    } else {
        let n = comp_len(s);
        let c = comp(s);
        let r = s.skip(n);
        if c[0] == ':' && c.len() == 1 {
            Err(ParseErr::Insufficient)
        } else if c == wild() {
            match next_seg(r) {
                Some(t) => Err(ParseErr::Unexpected(t)),
                None => Ok(seq![c]),
            }
        } else {
            match parse_m(r) {
                Ok(v) => Ok(seq![c] + v),
                Err(e) => Err(e),
            }
        }
    }
}

#[via_fn]
proof fn parse_m_dec(s: Seq<char>) {
    lemma_comp_len(s);
}

/// A single unit as insertion accepts it: nonempty, free of `/`, and a
/// parameter marker is followed by a nonempty name.
pub open spec fn valid_unit(u: Seq<char>) -> bool {
    &&& u.len() > 0
    &&& forall|j: int| 0 <= j < u.len() ==> u[j] != '/'
    &&& u[0] == ':' ==> u.len() >= 2
}

/// A unit sequence as insertion accepts it: every unit valid, and the
/// wildcard only as the final unit.
pub open spec fn valid_units(ks: Seq<Seq<char>>) -> bool {
    &&& forall|i: int| 0 <= i < ks.len() ==> valid_unit(#[trigger] ks[i])
    &&& forall|i: int| 0 <= i < ks.len() && #[trigger] ks[i] == wild() ==> i == ks.len() - 1
}

/// Whatever `parse_m` accepts is fit for insertion.
pub proof fn lemma_parse_valid(s: Seq<char>)
    ensures
        parse_m(s) matches Ok(v) ==> valid_units(v),
    decreases s.len(),
{
    lemma_comp_len(s);
    if s.len() == 0 {
    } else if s[0] == '/' {
        lemma_parse_valid(s.skip(1));
    } else {
        let n = comp_len(s);
        let c = comp(s);
        let r = s.skip(n);
        assert(c.len() == n);
        if c[0] == ':' && c.len() == 1 {
        } else if c == wild() {
        } else {
            lemma_parse_valid(r);
            match parse_m(r) {
                Ok(v) => {
                    let all = seq![c] + v;
                    assert(all[0] == c);
                    assert(valid_unit(c));
                    assert forall|i: int| 0 <= i < all.len() implies valid_unit(
                        #[trigger] all[i],
                    ) by {
                        if i > 0 {
                            assert(all[i] == v[i - 1]);
                        }
                    }
                    assert forall|i: int| 0 <= i < all.len() && #[trigger] all[i] == wild()
                        implies i == all.len() - 1 by {
                        if i > 0 {
                            assert(all[i] == v[i - 1]);
                        }
                    }
                },
                Err(_) => {},
            }
        }
    }
}

/// Exact character-wise equality of two string slices.
pub fn str_eq(a: &str, b: &str) -> (r: bool)
    ensures
        r == (a@ == b@),
{
    let n = a.unicode_len();
    if n != b.unicode_len() {
        assert(a@ != b@);
        return false;
    }
    let mut i: usize = 0;
    while i < n
        invariant
            i <= n,
            n == a@.len(),
            n == b@.len(),
            forall|j: int| 0 <= j < i ==> a@[j] == b@[j],
        decreases n - i,
    {
        if a.get_char(i) != b.get_char(i) {
            assert(a@ != b@);
            return false;
        }
        i += 1;
    }
    proof {
        assert(a@ =~= b@);
    }
    true
}

/// Index just past the leading component of `s`: the position of the
/// first `/`, or the length if there is none.
pub fn seg_end(s: &str) -> (n: usize)
    ensures
        n == comp_len(s@),
        n <= s@.len(),
{
    let len = s.unicode_len();
    let mut i: usize = 0;
    while i < len
        invariant
            i <= len,
            len == s@.len(),
            forall|j: int| 0 <= j < i ==> s@[j] != '/',
        decreases len - i,
    {
        if s.get_char(i) == '/' {
            proof {
                lemma_comp_len_unique(s@, i as int);
            }
            return i;
        }
        i += 1;
    }
    proof {
        lemma_comp_len_unique(s@, len as int);
    }
    len
}

} // verus!
