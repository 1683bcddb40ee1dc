//! The path trie engine: pattern parsing, insertion with prefix
//! splitting, precedence-resolving lookup, removal, and the compression
//! pass, together with the string helpers the engine's callers use.

use super::params::Params;
use super::segs;
use super::segs::ParseErr;
use vstd::prelude::*;

verus! {

/// Construction-time pattern errors, reported by `parse_key` and by
/// insertion; lookups never fail.
#[derive(Debug)]
pub enum PathParseError {
    /// A parameter segment had no name after its `:` marker.
    InsufficientLength,
    /// A segment (the carried one) appeared after a wildcard segment.
    UnexpectedToken(String),
}

/// Relates the executable error to the model-level one.
pub open spec fn err_matches(e: PathParseError, m: ParseErr) -> bool {
    match (e, m) {
        (PathParseError::InsufficientLength, ParseErr::Insufficient) => true,
        (PathParseError::UnexpectedToken(s), ParseErr::Unexpected(t)) => s@ == t,
        _ => false,
    }
}

/// `b` occurs in `a` at position `i`.
pub open spec fn occurs_at(a: Seq<char>, b: Seq<char>, i: int) -> bool {
    &&& 0 <= i
    &&& i + b.len() <= a.len()
    &&& a.subrange(i, i + b.len()) == b
}

/// First position in `i..end` where `b` occurs in `a`, if any.
pub open spec fn first_occ(a: Seq<char>, b: Seq<char>, i: int, end: int) -> Option<int>
    decreases end - i,
{
    if i >= end {
        None
    } else if occurs_at(a, b, i) {
        Some(i)
    } else {
        first_occ(a, b, i + 1, end)
    }
}

/// Scanning may start past any prefix known to hold no occurrence.
proof fn lemma_first_occ_skip(a: Seq<char>, b: Seq<char>, i: int, end: int)
    requires
        0 <= i <= end,
        forall|j: int| 0 <= j < i ==> !occurs_at(a, b, j),
    ensures
        first_occ(a, b, 0, end) == first_occ(a, b, i, end),
    decreases i,
{
    if i > 0 {
        lemma_first_occ_skip(a, b, i - 1, end);
    }
}

/// `b` occurs at `i` in `a`.
fn occurs_here(a: &str, b: &str, i: usize, a_len: usize, b_len: usize) -> (r: bool)
    requires
        a_len == a@.len(),
        b_len == b@.len(),
        i <= a_len,
    ensures
        r == occurs_at(a@, b@, i as int),
{
    if b_len > a_len - i {
        return false;
    }
    let mut j: usize = 0;
    while j < b_len
        invariant
            j <= b_len,
            i + b_len <= a_len,
            a_len == a@.len(),
            b_len == b@.len(),
            forall|k: int| 0 <= k < j ==> a@[i + k] == b@[k],
        decreases b_len - j,
    {
        if a.get_char(i + j) != b.get_char(j) {
            assert(!occurs_at(a@, b@, i as int)) by {
                assert(a@.subrange(i as int, i + b@.len())[j as int] == a@[i + j]);
            }
            return false;
        }
        j += 1;
    }
    proof {
        assert(a@.subrange(i as int, i + b@.len()) =~= b@);
    }
    true
}

/// The prefix of `a` before the first occurrence of `b`; all of `a` when
/// `b` does not occur before the end of `a`.
pub fn substr<'a>(a: &'a str, b: &str) -> (r: &'a str)
    ensures
        match first_occ(a@, b@, 0, a@.len() as int) {
            Some(i) => r@ == a@.take(i),
            None => r@ == a@,
        },
{
    let a_len = a.unicode_len();
    let b_len = b.unicode_len();
    let mut i: usize = 0;
    while i < a_len
        invariant
            i <= a_len,
            a_len == a@.len(),
            b_len == b@.len(),
            forall|j: int| 0 <= j < i ==> !occurs_at(a@, b@, j),
        decreases a_len - i,
    {
        if occurs_here(a, b, i, a_len, b_len) {
            proof {
                lemma_first_occ_skip(a@, b@, i as int, a@.len() as int);
            }
            return a.substring_char(0, i);
        }
        i += 1;
    }
    proof {
        lemma_first_occ_skip(a@, b@, a@.len() as int, a@.len() as int);
    }
    a
}

/// The suffix of `a` from the first occurrence of `b` that starts before
/// the final `b@.len()` characters; empty when there is none.
pub fn after<'a>(a: &'a str, b: &str) -> (r: &'a str)
    requires
        b@.len() <= a@.len(),
    ensures
        match first_occ(a@, b@, 0, a@.len() - b@.len()) {
            Some(i) => r@ == a@.skip(i),
            None => r@ == Seq::<char>::empty(),
        },
{
    let a_len = a.unicode_len();
    let b_len = b.unicode_len();
    let end = a_len - b_len;
    let mut i: usize = 0;
    while i < end
        invariant
            i <= end,
            end == a_len - b_len,
            a_len == a@.len(),
            b_len == b@.len(),
            forall|j: int| 0 <= j < i ==> !occurs_at(a@, b@, j),
        decreases end - i,
    {
        if occurs_here(a, b, i, a_len, b_len) {
            proof {
                lemma_first_occ_skip(a@, b@, i as int, a@.len() - b@.len());
            }
            return a.substring_char(i, a_len);
        }
        i += 1;
    }
    proof {
        lemma_first_occ_skip(a@, b@, end as int, a@.len() - b@.len());
    }
    a.substring_char(a_len, a_len)
}

/// Length of the longest common prefix of two character sequences.
pub open spec fn lcp(a: Seq<char>, b: Seq<char>) -> int
    decreases a.len(),
{
    if a.len() == 0 || b.len() == 0 {
        0
    } else if a[0] != b[0] {
        0
    } else {
        1 + lcp(a.skip(1), b.skip(1))
    }
}

proof fn lemma_lcp_unique(a: Seq<char>, b: Seq<char>, n: int)
    requires
        0 <= n <= a.len(),
        n <= b.len(),
        forall|j: int| 0 <= j < n ==> a[j] == b[j],
        n < a.len() && n < b.len() ==> a[n] != b[n],
    ensures
        n == lcp(a, b),
    decreases a.len(),
{
    if a.len() == 0 || b.len() == 0 {
    } else if a[0] != b[0] {
        assert(n == 0);
    } else {
        assert(a[0] == b[0]);
        assert(n >= 1) by {
            if n == 0 {
                assert(a[0] != b[0]);
            }
        }
        assert forall|j: int| 0 <= j < n - 1 implies a.skip(1)[j] == b.skip(1)[j] by {
            assert(a.skip(1)[j] == a[j + 1]);
            assert(b.skip(1)[j] == b[j + 1]);
        }
        if n - 1 < a.skip(1).len() && n - 1 < b.skip(1).len() {
            assert(a.skip(1)[n - 1] == a[n]);
            assert(b.skip(1)[n - 1] == b[n]);
        }
        lemma_lcp_unique(a.skip(1), b.skip(1), n - 1);
    }
}

/// Length of the longest common character prefix of `a` and `b`.
pub fn lcs(a: &str, b: &str) -> (r: usize)
    ensures
        r == lcp(a@, b@),
{
    let a_len = a.unicode_len();
    let b_len = b.unicode_len();
    let min = if a_len < b_len {
        a_len
    } else {
        b_len
    };
    let mut i: usize = 0;
    while i < min
        invariant
            i <= min,
            min == if a_len < b_len {
                a_len
            } else {
                b_len
            },
            a_len == a@.len(),
            b_len == b@.len(),
            forall|j: int| 0 <= j < i ==> a@[j] == b@[j],
        decreases min - i,
    {
        if a.get_char(i) != b.get_char(i) {
            proof {
                lemma_lcp_unique(a@, b@, i as int);
            }
            return i;
        }
        i += 1;
    }
    proof {
        lemma_lcp_unique(a@, b@, min as int);
    }
    min
}

/// Combine an already-parsed prefix with the parse of the rest.
pub open spec fn parse_combine(
    pre: Seq<Seq<char>>,
    rest: Result<Seq<Seq<char>>, ParseErr>,
) -> Result<Seq<Seq<char>>, ParseErr> {
    match rest {
        Ok(v) => Ok(pre + v),
        Err(e) => Err(e),
    }
}

/// Split a pattern into its segment units: components between `/`s,
/// empty ones discarded.  A bare `:` is refused, as is any component
/// after a `*` unit; a rejected pattern yields the error and nothing
/// else.
#[verifier::loop_isolation(false)]
pub fn parse_key(key: &str) -> (r: Result<Vec<String>, PathParseError>)
    ensures
        match (r, segs::parse_m(key@)) {
            (Ok(v), Ok(m)) => v.deep_view() == m,
            (Err(e), Err(m)) => err_matches(e, m),
            _ => false,
        },
{
    let len = key.unicode_len();
    let mut pos: usize = 0;
    let mut acc: Vec<String> = Vec::new();
    proof {
        assert(key@.skip(0) =~= key@);
        assert(acc.deep_view() =~= Seq::<Seq<char>>::empty());
        match segs::parse_m(key@) {
            Ok(v) => {
                assert(acc.deep_view() + v =~= v);
            },
            Err(_) => {},
        }
    }
    while pos < len
        invariant
            pos <= len,
            len == key@.len(),
            segs::parse_m(key@) == parse_combine(
                acc.deep_view(),
                segs::parse_m(key@.skip(pos as int)),
            ),
        decreases len - pos,
    {
        let ghost rem = key@.skip(pos as int);
        if key.get_char(pos) == '/' {
            proof {
                assert(rem[0] == key@[pos as int]);
                assert(rem.skip(1) =~= key@.skip(pos as int + 1));
            }
            pos += 1;
        } else {
            let suffix = key.substring_char(pos, len);
            proof {
                assert(suffix@ =~= rem);
            }
            let n = segs::seg_end(suffix);
            proof {
                segs::lemma_comp_len(rem);
            }
            let c = key.substring_char(pos, pos + n);
            proof {
                assert(c@ =~= segs::comp(rem));
            }
            if n == 1 && key.get_char(pos) == ':' {
                proof {
                    assert(segs::comp(rem)[0] == rem[0]);
                }
                return Err(PathParseError::InsufficientLength);
            }
            if n == 1 && key.get_char(pos) == '*' {
                proof {
                    assert(rem[0] == key@[pos as int]);
                    assert(segs::comp(rem)[0] == rem[0]);
                    assert(c@ =~= segs::wild());
                    assert(segs::comp(rem) == segs::wild());
                }
                // A wildcard ends the pattern: any later component is an error.
                let mut j: usize = pos + 1;
                while j < len
                    invariant
                        pos + 1 <= j <= len,
                        len == key@.len(),
                        segs::next_seg(key@.skip(pos as int + 1)) == segs::next_seg(
                            key@.skip(j as int),
                        ),
                    decreases len - j,
                {
                    if key.get_char(j) != '/' {
                        let suf = key.substring_char(j, len);
                        proof {
                            assert(suf@ =~= key@.skip(j as int));
                            segs::lemma_comp_len(key@.skip(j as int));
                        }
                        let m = segs::seg_end(suf);
                        let tok = key.substring_char(j, j + m);
                        proof {
                            assert(tok@ =~= segs::comp(key@.skip(j as int)));
                            assert(key@.skip(j as int)[0] == key@[j as int]);
                            assert(segs::next_seg(key@.skip(j as int)) == Some(tok@));
                            assert(rem.skip(1) =~= key@.skip(pos as int + 1));
                            assert(segs::parse_m(rem) == Err::<
                                Seq<Seq<char>>,
                                ParseErr,
                            >(ParseErr::Unexpected(tok@)));
                        }
                        return Err(PathParseError::UnexpectedToken(tok.to_owned()));
                    }
                    proof {
                        assert(key@.skip(j as int)[0] == key@[j as int]);
                        assert(key@.skip(j as int).skip(1) =~= key@.skip(j as int + 1));
                    }
                    j += 1;
                }
                proof {
                    assert(key@.skip(len as int).len() == 0);
                    assert(segs::next_seg(key@.skip(len as int)) is None);
                    assert(rem.skip(1) =~= key@.skip(pos as int + 1));
                    assert(segs::parse_m(rem) == Ok::<Seq<Seq<char>>, ParseErr>(
                        seq![segs::wild()],
                    ));
                }
                let mut out = acc;
                out.push(c.to_owned());
                proof {
                    assert(out.deep_view() =~= acc.deep_view() + seq![segs::wild()]);
                    match segs::parse_m(key@) {
                        Ok(v) => {
                            assert(v =~= out.deep_view());
                        },
                        Err(_) => {},
                    }
                }
                return Ok(out);
            }
            proof {
                assert(segs::comp(rem)[0] == rem[0]);
                assert(n >= 1);
                assert(rem.skip(n as int) =~= key@.skip(pos + n));
                if segs::comp(rem) == segs::wild() {
                    assert(rem[0] == '*');
                    assert(segs::comp(rem).len() == 1);
                }
            }
            let ghost old_acc = acc.deep_view();
            acc.push(c.to_owned());
            proof {
                assert(acc.deep_view() =~= old_acc.push(segs::comp(rem)));
                assert(old_acc.push(segs::comp(rem)) =~= old_acc + seq![segs::comp(rem)]);
                match segs::parse_m(key@.skip(pos + n)) {
                    Ok(v) => {
                        assert(old_acc + (seq![segs::comp(rem)] + v) =~= acc.deep_view() + v);
                    },
                    Err(_) => {},
                }
            }
            pos += n;
        }
    }
    proof {
        assert(key@.skip(len as int).len() == 0);
        match segs::parse_m(key@) {
            Ok(v) => {
                assert(v =~= acc.deep_view());
            },
            Err(_) => {},
        }
    }
    Ok(acc)
}

/// The three kinds of segment a node can hold, fixed at construction.
#[derive(Clone, Copy, Debug, PartialEq, Eq, Structural)]
pub enum Kind {
    Static,
    Param,
    Wildcard,
}

/// Precedence rank of a kind: static children come first, then the
/// parameter child, then the wildcard child.
pub open spec fn prec(k: Kind) -> int {
    match k {
        Kind::Static => 0,
        Kind::Param => 1,
        Kind::Wildcard => 2,
    }
}

/// Kind of a single pattern unit, read off its first character.
pub open spec fn unit_kind(u: Seq<char>) -> Kind {
    if u.len() > 0 && u[0] == ':' {
        Kind::Param
    } else if u == segs::wild() {
        Kind::Wildcard
    } else {
        Kind::Static
    }
}

/// Kind of a node label; the root's empty label counts as static.
pub open spec fn kind_of(label: Seq<Seq<char>>) -> Kind {
    if label.len() == 0 {
        Kind::Static
    } else {
        unit_kind(label[0])
    }
}

/// A unit a static node may hold: valid and not a marker unit.
pub open spec fn static_unit(u: Seq<char>) -> bool {
    segs::valid_unit(u) && unit_kind(u) == Kind::Static
}

/// Shape of a non-root node label: a static node holds a nonempty run
/// of static units; a parameter or wildcard node holds its one unit.
pub open spec fn wf_label(label: Seq<Seq<char>>) -> bool {
    &&& label.len() > 0
    &&& match kind_of(label) {
        Kind::Static => forall|j: int| 0 <= j < label.len() ==> static_unit(#[trigger] label[j]),
        Kind::Param => label.len() == 1 && segs::valid_unit(label[0]),
        Kind::Wildcard => label.len() == 1,
    }
}

/// The mathematical shape of a trie node: its label (a run of segment
/// units), its optional value, and its children in order.
pub ghost struct Model<T> {
    pub label: Seq<Seq<char>>,
    pub data: Option<T>,
    pub children: Seq<Model<T>>,
}

/// One node of the path trie.  `segs` is the label: the run of segment
/// units on the edge from the parent (several joined units after
/// compression; the root's is empty).  `kind` tags the label's kind,
/// set at construction.  `index` holds the first character of each
/// child's label, kept in step with `children`.
pub struct PathTrie<T> {
    pub segs: Vec<String>,
    pub kind: Kind,
    pub data: Option<T>,
    pub children: Vec<PathTrie<T>>,
    pub index: Vec<char>,
}

/// The model of a node.
pub open spec fn model_of<T>(t: PathTrie<T>) -> Model<T>
    decreases t,
{
    Model { label: t.segs.deep_view(), data: t.data, children: models_of(t.children@) }
}

/// The models of a node sequence, in order.
pub open spec fn models_of<T>(cs: Seq<PathTrie<T>>) -> Seq<Model<T>>
    decreases cs,
{
    if cs.len() == 0 {
        Seq::empty()
    } else {
        seq![model_of(cs[0])] + models_of(cs.skip(1))
    }
}

impl<T> View for PathTrie<T> {
    type V = Model<T>;

    open spec fn view(&self) -> Model<T> {
        model_of(*self)
    }
}

pub broadcast proof fn lemma_models_of<T>(cs: Seq<PathTrie<T>>)
    ensures
        (#[trigger] models_of(cs)).len() == cs.len(),
        forall|i: int| 0 <= i < cs.len() ==> models_of(cs)[i] == model_of(cs[i]),
    decreases cs.len(),
{
    if cs.len() > 0 {
        lemma_models_of(cs.skip(1));
        assert forall|i: int| 0 <= i < cs.len() implies models_of(cs)[i] == model_of(cs[i]) by {
            if i > 0 {
                assert(cs.skip(1)[i - 1] == cs[i]);
                assert(models_of(cs)[i] == models_of(cs.skip(1))[i - 1]);
            }
        }
    }
}

/// Structural invariants of a node, per the data model: children's
/// labels are well formed, a wildcard child is a leaf, children stand
/// in precedence order, the parameter and wildcard child are unique,
/// and static children have pairwise distinct first units.
pub open spec fn wf_at<T>(m: Model<T>) -> bool {
    &&& forall|i: int|
        0 <= i < m.children.len() ==> wf_label((#[trigger] m.children[i]).label)
    &&& forall|i: int|
        0 <= i < m.children.len() && kind_of((#[trigger] m.children[i]).label) == Kind::Wildcard
            ==> m.children[i].children.len() == 0
    &&& forall|i: int, j: int|
        #![trigger m.children[i], m.children[j]]
        0 <= i < j < m.children.len() ==> prec(kind_of(m.children[i].label)) <= prec(
            kind_of(m.children[j].label),
        )
    &&& forall|i: int, j: int|
        #![trigger m.children[i], m.children[j]]
        0 <= i < j < m.children.len() && kind_of(m.children[i].label) != Kind::Static ==> kind_of(
            m.children[i].label,
        ) != kind_of(m.children[j].label)
    &&& forall|i: int, j: int|
        #![trigger m.children[i], m.children[j]]
        0 <= i < j < m.children.len() && kind_of(m.children[i].label) == Kind::Static && kind_of(
            m.children[j].label,
        ) == Kind::Static ==> m.children[i].label[0] != m.children[j].label[0]
}

/// Well-formedness of a whole model subtree.
pub open spec fn m_wf<T>(m: Model<T>) -> bool
    decreases m,
{
    wf_at(m) && m_wf_children(m.children)
}

pub open spec fn m_wf_children<T>(cs: Seq<Model<T>>) -> bool
    decreases cs,
{
    cs.len() == 0 || (m_wf(cs[0]) && m_wf_children(cs.skip(1)))
}

pub broadcast proof fn lemma_m_wf_children<T>(cs: Seq<Model<T>>)
    ensures
        #[trigger] m_wf_children(cs) <==> (forall|i: int|
            0 <= i < cs.len() ==> m_wf(#[trigger] cs[i])),
    decreases cs.len(),
{
    if cs.len() > 0 {
        lemma_m_wf_children(cs.skip(1));
        assert forall|i: int| 0 <= i < cs.len() && m_wf_children(cs) implies m_wf(cs[i]) by {
            if i > 0 {
                assert(cs.skip(1)[i - 1] == cs[i]);
            }
        }
        if forall|i: int| 0 <= i < cs.len() ==> m_wf(#[trigger] cs[i]) {
            assert forall|i: int| 0 <= i < cs.skip(1).len() implies m_wf(#[trigger] cs.skip(1)[i])
                by {
                assert(cs.skip(1)[i] == cs[i + 1]);
            }
            assert(m_wf(cs[0]));
        }
    }
}

/// First character of a node's label, the entry `index` holds for it.
pub open spec fn first_char_of<T>(t: PathTrie<T>) -> char
    recommends
        t.segs.deep_view().len() > 0,
        t.segs.deep_view()[0].len() > 0,
{
    t.segs.deep_view()[0][0]
}

/// Representation invariants beyond the model: the `kind` tag agrees
/// with the label, and `index` mirrors the children's first characters.
pub open spec fn x_inv<T>(t: PathTrie<T>) -> bool
    decreases t,
{
    &&& t.kind == kind_of(t.segs.deep_view())
    &&& t.index@.len() == t.children@.len()
    &&& forall|i: int|
        0 <= i < t.children@.len() ==> t.index@[i] == first_char_of(#[trigger] t.children@[i])
    &&& x_inv_children(t.children@)
}

pub open spec fn x_inv_children<T>(cs: Seq<PathTrie<T>>) -> bool
    decreases cs,
{
    cs.len() == 0 || (x_inv(cs[0]) && x_inv_children(cs.skip(1)))
}

pub broadcast proof fn lemma_x_inv_children<T>(cs: Seq<PathTrie<T>>)
    ensures
        #[trigger] x_inv_children(cs) <==> (forall|i: int|
            0 <= i < cs.len() ==> x_inv(#[trigger] cs[i])),
    decreases cs.len(),
{
    if cs.len() > 0 {
        lemma_x_inv_children(cs.skip(1));
        assert forall|i: int| 0 <= i < cs.len() && x_inv_children(cs) implies x_inv(cs[i]) by {
            if i > 0 {
                assert(cs.skip(1)[i - 1] == cs[i]);
            }
        }
        if forall|i: int| 0 <= i < cs.len() ==> x_inv(#[trigger] cs[i]) {
            assert forall|i: int| 0 <= i < cs.skip(1).len() implies x_inv(#[trigger] cs.skip(1)[i])
                by {
                assert(cs.skip(1)[i] == cs[i + 1]);
            }
            assert(x_inv(cs[0]));
        }
    }
}

/// Captured pairs, name then value, in capture order.
pub type Captures = Seq<(Seq<char>, Seq<char>)>;

/// A static child whose label consumes a prefix of `rem`.
pub open spec fn s_match<T>(c: Model<T>, rem: Seq<char>) -> bool {
    kind_of(c.label) == Kind::Static && segs::eats(c.label, rem) is Some
}

/// First index at or after `i` of a static child matching `rem`.
pub open spec fn find_static<T>(cs: Seq<Model<T>>, rem: Seq<char>, i: int) -> Option<int>
    decreases cs.len() - i,
{
    if i < 0 || i >= cs.len() {
        None
    } else if s_match(cs[i], rem) {
        Some(i)
    } else {
        find_static(cs, rem, i + 1)
    }
}

/// First index at or after `i` of a child of kind `k`.
pub open spec fn find_kind<T>(cs: Seq<Model<T>>, k: Kind, i: int) -> Option<int>
    decreases cs.len() - i,
{
    if i < 0 || i >= cs.len() {
        None
    } else if kind_of(cs[i].label) == k {
        Some(i)
    } else {
        find_kind(cs, k, i + 1)
    }
}

pub proof fn lemma_find_static<T>(cs: Seq<Model<T>>, rem: Seq<char>, i: int)
    requires
        0 <= i,
    ensures
        match find_static(cs, rem, i) {
            Some(j) => i <= j < cs.len() && s_match(cs[j], rem) && (forall|l: int|
                i <= l < j ==> !s_match(#[trigger] cs[l], rem)),
            None => forall|l: int| i <= l < cs.len() ==> !s_match(#[trigger] cs[l], rem),
        },
    decreases cs.len() - i,
{
    if i < cs.len() && !s_match(cs[i], rem) {
        lemma_find_static(cs, rem, i + 1);
    }
}

pub proof fn lemma_find_kind<T>(cs: Seq<Model<T>>, k: Kind, i: int)
    requires
        0 <= i,
    ensures
        match find_kind(cs, k, i) {
            Some(j) => i <= j < cs.len() && kind_of(cs[j].label) == k && (forall|l: int|
                i <= l < j ==> kind_of((#[trigger] cs[l]).label) != k),
            None => forall|l: int| i <= l < cs.len() ==> kind_of((#[trigger] cs[l]).label) != k,
        },
    decreases cs.len() - i,
{
    if i < cs.len() && kind_of(cs[i].label) != k {
        lemma_find_kind(cs, k, i + 1);
    }
}

/// A scan that saw no static match up to a matching `j` found the first.
pub proof fn lemma_find_static_is<T>(cs: Seq<Model<T>>, rem: Seq<char>, j: int)
    requires
        0 <= j < cs.len(),
        s_match(cs[j], rem),
        forall|l: int| 0 <= l < j ==> !s_match(#[trigger] cs[l], rem),
    ensures
        find_static(cs, rem, 0) == Some(j),
{
    lemma_find_static(cs, rem, 0);
}

pub proof fn lemma_find_static_none<T>(cs: Seq<Model<T>>, rem: Seq<char>)
    requires
        forall|l: int| 0 <= l < cs.len() ==> !s_match(#[trigger] cs[l], rem),
    ensures
        find_static(cs, rem, 0) is None,
{
    lemma_find_static(cs, rem, 0);
}

pub proof fn lemma_find_kind_is<T>(cs: Seq<Model<T>>, k: Kind, j: int)
    requires
        0 <= j < cs.len(),
        kind_of(cs[j].label) == k,
        forall|l: int| 0 <= l < j ==> kind_of((#[trigger] cs[l]).label) != k,
    ensures
        find_kind(cs, k, 0) == Some(j),
{
    lemma_find_kind(cs, k, 0);
}

pub proof fn lemma_find_kind_none<T>(cs: Seq<Model<T>>, k: Kind)
    requires
        forall|l: int| 0 <= l < cs.len() ==> kind_of((#[trigger] cs[l]).label) != k,
    ensures
        find_kind(cs, k, 0) is None,
{
    lemma_find_kind(cs, k, 0);
}

/// What a lookup returns: the value stored at the best match for `key`
/// under the fixed precedence, together with the captures made on the
/// way down.  One leading `/` is consumed at each step; an exhausted
/// input reads the current node's value; otherwise the first matching
/// static child wins, else the parameter child captures one component,
/// else the wildcard child captures the whole remainder and ends the
/// walk.
pub open spec fn m_lookup<T>(m: Model<T>, key: Seq<char>) -> Option<(T, Captures)>
    decreases m,
    via m_lookup_dec::<T>
{
    let rem = segs::strip(key);
    if rem.len() == 0 {
        match m.data {
            Some(v) => Some((v, Seq::empty())),
            None => None,
        }
    } else if m.children.len() == 0 {
        None
    } else {
        match find_static(m.children, rem, 0) {
            Some(i) => match segs::eats(m.children[i].label, rem) {
                Some(r2) => m_lookup(m.children[i], r2),
                None => None,
            },
            None => match find_kind(m.children, Kind::Param, 0) {
                Some(i) => {
                    let c = segs::comp(rem);
                    let r2 = rem.skip(segs::comp_len(rem));
                    match m_lookup(m.children[i], r2) {
                        Some((v, ps)) => Some(
                            (v, seq![(m.children[i].label[0].skip(1), c)] + ps),
                        ),
                        None => None,
                    }
                },
                None => match find_kind(m.children, Kind::Wildcard, 0) {
                    Some(i) => match m.children[i].data {
                        Some(v) => Some((v, seq![(segs::wild(), rem)])),
                        None => None,
                    },
                    None => None,
                },
            },
        }
    }
}

#[via_fn]
proof fn m_lookup_dec<T>(m: Model<T>, key: Seq<char>) {
    let rem = segs::strip(key);
    lemma_find_static(m.children, rem, 0);
    lemma_find_kind(m.children, Kind::Param, 0);
    assert forall|i: int| 0 <= i < m.children.len() implies decreases_to!(m => m.children[i]) by {
        assert(decreases_to!(m => m.children));
        assert(decreases_to!(m.children => m.children[i]));
    }
}

/// Consume the labelled run `label[from..]` from the front of `rem`,
/// returning what remains of `rem` when every unit matches.
fn try_eats<'b>(label: &Vec<String>, from: usize, rem: &'b str) -> (res: Option<&'b str>)
    requires
        from <= label.len(),
    ensures
        match res {
            Some(r) => segs::eats(label.deep_view().skip(from as int), rem@) == Some(r@),
            None => segs::eats(label.deep_view().skip(from as int), rem@) is None,
        },
    decreases label.len() - from,
{
    if from == label.len() {
        proof {
            assert(label.deep_view().skip(from as int) =~= Seq::<Seq<char>>::empty());
        }
        return Some(rem);
    }
    let ghost ls = label.deep_view().skip(from as int);
    proof {
        assert(ls[0] == label.deep_view()[from as int]);
        assert(label.deep_view()[from as int] == label@[from as int]@);
    }
    let n = segs::seg_end(rem);
    let rlen = rem.unicode_len();
    let c = rem.substring_char(0, n);
    proof {
        assert(c@ =~= segs::comp(rem@));
    }
    if !segs::str_eq(c, label[from].as_str()) {
        return None;
    }
    let r = rem.substring_char(n, rlen);
    proof {
        assert(r@ =~= rem@.skip(n as int));
    }
    if from + 1 == label.len() {
        proof {
            assert(ls.len() == 1);
        }
        return Some(r);
    }
    if rlen - n > 0 {
        let rr = r.substring_char(1, rlen - n);
        proof {
            assert(rr@ =~= r@.skip(1));
            assert(ls.skip(1) =~= label.deep_view().skip(from as int + 1));
        }
        try_eats(label, from + 1, rr)
    } else {
        None
    }
}

impl<T> PathTrie<T> {
    /// Representation invariant plus structural well-formedness of the
    /// whole subtree.
    pub open spec fn wf(&self) -> bool {
        x_inv(*self) && m_wf(self@)
    }

    /// A whole trie: a well-formed root carrying the empty label.
    pub open spec fn wf_root(&self) -> bool {
        self.wf() && self.segs.deep_view().len() == 0
    }

    /// A fresh trie holding no routes: just the root node.
    pub fn new() -> (t: PathTrie<T>)
        ensures
            t.wf_root(),
            t@ == (Model::<T> { label: Seq::empty(), data: None, children: Seq::empty() }),
    {
        let t = PathTrie {
            segs: Vec::new(),
            kind: Kind::Static,
            data: None,
            children: Vec::new(),
            index: Vec::new(),
        };
        proof {
            assert(t.segs.deep_view() =~= Seq::<Seq<char>>::empty());
            assert(models_of(t.children@) =~= Seq::<Model<T>>::empty());
        }
        t
    }

    /// Look `key` up and return the stored value with the captured
    /// parameters, per the precedence rules of `m_lookup`.
    pub fn get<'a>(&'a self, key: &str) -> (r: Option<(&'a T, Params)>)
        requires
            self.wf(),
        ensures
            match m_lookup(self@, key@) {
                None => r is None,
                Some((v, ps)) => {
                    &&& r matches Some(p)
                    &&& *p.0 == v
                    &&& p.1@ == ps
                    &&& p.1.inv()
                },
            },
    {
        let mut params = Params::new();
        match self.get_params(&mut params, key) {
            Some(data) => {
                proof {
                    match m_lookup(self@, key@) {
                        Some((v, ps)) => {
                            assert(Seq::<(Seq<char>, Seq<char>)>::empty() + ps =~= ps);
                        },
                        None => {},
                    }
                }
                Some((data, params))
            },
            None => None,
        }
    }

    /// The lookup walk itself, appending captures to `params`.  On a
    /// miss the appended captures are meaningless and the caller
    /// discards them, as the contract reflects.
    #[verifier::loop_isolation(false)]
    #[verifier::rlimit(60)]
    fn get_params<'a>(&'a self, params: &mut Params, key: &str) -> (r: Option<&'a T>)
        requires
            self.wf(),
            old(params).inv(),
        ensures
            final(params).inv(),
            match m_lookup(self@, key@) {
                None => r is None,
                Some((v, ps)) => {
                    &&& r matches Some(rv)
                    &&& *rv == v
                    &&& final(params)@ == old(params)@ + ps
                },
            },
        decreases *self,
    {
        broadcast use lemma_models_of, lemma_m_wf_children, lemma_x_inv_children;

        let klen = key.unicode_len();
        let rem = if klen > 0 && key.get_char(0) == '/' {
            key.substring_char(1, klen)
        } else {
            key
        };
        proof {
            assert(rem@ =~= segs::strip(key@));
        }
        let rlen = rem.unicode_len();
        if rlen == 0 {
            proof {
                match m_lookup(self@, key@) {
                    Some((v, ps)) => {
                        assert(old(params)@ + ps =~= old(params)@);
                    },
                    None => {},
                }
            }
            return self.data.as_ref();
        }
        if self.children.len() == 0 {
            return None;
        }
        let n = self.children.len();
        proof {
            lemma_models_of(self.children@);
            lemma_x_inv_children(self.children@);
            lemma_m_wf_children(models_of(self.children@));
            assert(self@.children == models_of(self.children@));
        }
        let ghost remv = rem@;
        let mut i: usize = 0;
        while i < n
            invariant
                i <= n,
                *params == *old(params),
                forall|l: int| 0 <= l < i ==> !s_match(#[trigger] self@.children[l], remv),
            decreases n - i,
        {
            let child = &self.children[i];
            proof {
                assert(*child == self.children@[i as int]);
                assert(self@.children[i as int] == model_of(*child));
                assert(x_inv(*child));
                assert(m_wf(model_of(*child)));
            }
            if child.kind == Kind::Static {
                match try_eats(&child.segs, 0, rem) {
                    Some(r2) => {
                        proof {
                            assert(child.segs.deep_view().skip(0) =~= child.segs.deep_view());
                            lemma_find_static_is(self@.children, remv, i as int);
                            assert(decreases_to!(*self => self.children));
                            assert(decreases_to!(self.children => self.children@));
                            assert(decreases_to!(self.children@ => self.children@[i as int]));
                        }
                        let res = child.get_params(params, r2);
                        return res;
                    },
                    None => {
                        proof {
                            assert(child.segs.deep_view().skip(0) =~= child.segs.deep_view());
                            assert(!s_match(self@.children[i as int], remv));
                        }
                    },
                }
            } else {
                proof {
                    assert(kind_of(model_of(*child).label) != Kind::Static);
                    assert(!s_match(self@.children[i as int], remv));
                }
            }
            i += 1;
        }
        proof {
            lemma_find_static_none(self@.children, remv);
        }
        let mut p: usize = 0;
        while p < n
            invariant
                p <= n,
                *params == *old(params),
                forall|l: int|
                    0 <= l < p ==> kind_of((#[trigger] self@.children[l]).label) != Kind::Param,
            decreases n - p,
        {
            let child = &self.children[p];
            proof {
                assert(self@.children[p as int] == model_of(*child));
                assert(x_inv(*child));
                assert(m_wf(model_of(*child)));
            }
            if child.kind == Kind::Param {
                proof {
                    lemma_find_kind_is(self@.children, Kind::Param, p as int);
                    assert(wf_label(model_of(*child).label));
                    assert(model_of(*child).label[0] == child.segs@[0]@);
                }
                let clen = segs::seg_end(rem);
                let cval = rem.substring_char(0, clen);
                let seg0 = child.segs[0].as_str();
                let name = seg0.substring_char(1, seg0.unicode_len());
                proof {
                    assert(cval@ =~= segs::comp(remv));
                    assert(name@ =~= model_of(*child).label[0].skip(1));
                }
                let ghost before = params@;
                params.insert(name, cval);
                let r2 = rem.substring_char(clen, rlen);
                proof {
                    assert(r2@ =~= remv.skip(segs::comp_len(remv)));
                    assert(decreases_to!(*self => self.children));
                    assert(decreases_to!(self.children => self.children@));
                    assert(decreases_to!(self.children@ => self.children@[p as int]));
                }
                let res = child.get_params(params, r2);
                proof {
                    match m_lookup(model_of(*child), r2@) {
                        Some((v, ps)) => {
                            assert(final(params)@ == before.push((name@, cval@)) + ps);
                            assert(before.push((name@, cval@)) + ps =~= before + (seq![
                                (name@, cval@),
                            ] + ps));
                        },
                        None => {},
                    }
                }
                return res;
            }
            p += 1;
        }
        proof {
            lemma_find_kind_none(self@.children, Kind::Param);
        }
        let mut w: usize = 0;
        while w < n
            invariant
                w <= n,
                *params == *old(params),
                forall|l: int|
                    0 <= l < w ==> kind_of((#[trigger] self@.children[l]).label) != Kind::Wildcard,
            decreases n - w,
        {
            let child = &self.children[w];
            proof {
                assert(self@.children[w as int] == model_of(*child));
                assert(x_inv(*child));
            }
            if child.kind == Kind::Wildcard {
                proof {
                    lemma_find_kind_is(self@.children, Kind::Wildcard, w as int);
                }
                let ghost before = params@;
                params.insert("*", rem);
                proof {
                    reveal_strlit("*");
                    assert("*"@ =~= segs::wild());
                    assert(before.push((segs::wild(), remv)) =~= before + seq![
                        (segs::wild(), remv),
                    ]);
                }
                return child.data.as_ref();
            }
            w += 1;
        }
        proof {
            lemma_find_kind_none(self@.children, Kind::Wildcard);
        }
        None
    }
}

/// Number of equal leading units of two unit runs.
pub open spec fn share(a: Seq<Seq<char>>, b: Seq<Seq<char>>) -> int
    decreases a.len(),
{
    if a.len() == 0 || b.len() == 0 {
        0
    } else if a[0] != b[0] {
        0
    } else {
        1 + share(a.skip(1), b.skip(1))
    }
}

pub proof fn lemma_share(a: Seq<Seq<char>>, b: Seq<Seq<char>>)
    ensures
        0 <= share(a, b) <= a.len(),
        share(a, b) <= b.len(),
        forall|j: int| 0 <= j < share(a, b) ==> a[j] == b[j],
        share(a, b) < a.len() && share(a, b) < b.len() ==> a[share(a, b)] != b[share(a, b)],
        a.len() > 0 && b.len() > 0 && a[0] == b[0] ==> share(a, b) >= 1,
    decreases a.len(),
{
    if a.len() == 0 || b.len() == 0 {
    } else if a[0] != b[0] {
    } else {
        lemma_share(a.skip(1), b.skip(1));
        let sh = share(a, b);
        assert forall|j: int| 0 <= j < sh implies a[j] == b[j] by {
            if j > 0 {
                assert(a.skip(1)[j - 1] == a[j]);
                assert(b.skip(1)[j - 1] == b[j]);
            }
        }
        if sh < a.len() && sh < b.len() {
            assert(a.skip(1)[sh - 1] == a[sh]);
            assert(b.skip(1)[sh - 1] == b[sh]);
        }
    }
}

pub proof fn lemma_share_unique(a: Seq<Seq<char>>, b: Seq<Seq<char>>, n: int)
    requires
        0 <= n <= a.len(),
        n <= b.len(),
        forall|j: int| 0 <= j < n ==> a[j] == b[j],
        n < a.len() && n < b.len() ==> a[n] != b[n],
    ensures
        n == share(a, b),
    decreases a.len(),
{
    if a.len() == 0 || b.len() == 0 {
    } else if a[0] != b[0] {
        assert(n == 0);
    } else {
        assert(n >= 1) by {
            if n == 0 {
                assert(a[0] != b[0]);
            }
        }
        assert forall|j: int| 0 <= j < n - 1 implies a.skip(1)[j] == b.skip(1)[j] by {
            assert(a.skip(1)[j] == a[j + 1]);
            assert(b.skip(1)[j] == b[j + 1]);
        }
        if n - 1 < a.skip(1).len() && n - 1 < b.skip(1).len() {
            assert(a.skip(1)[n - 1] == a[n]);
            assert(b.skip(1)[n - 1] == b[n]);
        }
        lemma_share_unique(a.skip(1), b.skip(1), n - 1);
    }
}

/// The fresh branch insertion appends for the units `ks`: one node per
/// unit, the value at the last.
pub open spec fn m_chain<T>(ks: Seq<Seq<char>>, v: T) -> Model<T>
    recommends
        ks.len() > 0,
    decreases ks.len(),
{
    if ks.len() <= 1 {
        Model { label: ks, data: Some(v), children: Seq::empty() }
    } else {
        Model { label: seq![ks[0]], data: None, children: seq![m_chain(ks.skip(1), v)] }
    }
}

pub proof fn lemma_m_chain<T>(ks: Seq<Seq<char>>, v: T)
    requires
        segs::valid_units(ks),
        ks.len() > 0,
    ensures
        m_wf(m_chain(ks, v)),
        wf_label(m_chain(ks, v).label),
        m_chain(ks, v).label =~= seq![ks[0]],
        kind_of(m_chain(ks, v).label) == unit_kind(ks[0]),
        unit_kind(ks[0]) == Kind::Wildcard ==> m_chain(ks, v).children.len() == 0,
    decreases ks.len(),
{
    let c = m_chain(ks, v);
    assert(c.label =~= seq![ks[0]]);
    assert(segs::valid_unit(ks[0]));
    if ks.len() <= 1 {
        assert(c.children =~= Seq::<Model<T>>::empty());
        assert(m_wf_children(c.children));
    } else {
        assert forall|i: int| 0 <= i < ks.skip(1).len() implies segs::valid_unit(
            #[trigger] ks.skip(1)[i],
        ) by {
            assert(ks.skip(1)[i] == ks[i + 1]);
        }
        assert forall|i: int|
            0 <= i < ks.skip(1).len() && #[trigger] ks.skip(1)[i] == segs::wild() implies i
            == ks.skip(1).len() - 1 by {
            assert(ks.skip(1)[i] == ks[i + 1]);
        }
        lemma_m_chain(ks.skip(1), v);
        if unit_kind(ks[0]) == Kind::Wildcard {
            assert(ks[0] == segs::wild());
            assert(ks.len() - 1 == 0);
        }
        let inner = m_chain(ks.skip(1), v);
        assert(c.children == seq![inner]);
        assert(c.children[0] == inner);
        assert(m_wf_children(c.children.skip(1)));
        assert(m_wf_children(c.children));
        assert(wf_label(c.label)) by {
            assert(c.label[0] == ks[0]);
            if unit_kind(ks[0]) == Kind::Static {
                assert forall|j: int| 0 <= j < c.label.len() implies static_unit(
                    #[trigger] c.label[j],
                ) by {
                    assert(c.label[j] == ks[0]);
                }
            }
        }
        assert(wf_at(c)) by {
            assert(forall|i: int| 0 <= i < c.children.len() ==> c.children[i] == inner);
            if kind_of(inner.label) == Kind::Wildcard {
                assert(unit_kind(ks.skip(1)[0]) == Kind::Wildcard);
            }
        }
    }
}

/// A static child whose first unit is `u`.
pub open spec fn u_match<T>(c: Model<T>, u: Seq<char>) -> bool {
    kind_of(c.label) == Kind::Static && c.label.len() > 0 && c.label[0] == u
}

/// First index at or after `i` of a static child whose first unit is `u`.
pub open spec fn find_unit<T>(cs: Seq<Model<T>>, u: Seq<char>, i: int) -> Option<int>
    decreases cs.len() - i,
{
    if i < 0 || i >= cs.len() {
        None
    } else if u_match(cs[i], u) {
        Some(i)
    } else {
        find_unit(cs, u, i + 1)
    }
}

pub proof fn lemma_find_unit<T>(cs: Seq<Model<T>>, u: Seq<char>, i: int)
    requires
        0 <= i,
    ensures
        match find_unit(cs, u, i) {
            Some(j) => i <= j < cs.len() && u_match(cs[j], u) && (forall|l: int|
                i <= l < j ==> !u_match(#[trigger] cs[l], u)),
            None => forall|l: int| i <= l < cs.len() ==> !u_match(#[trigger] cs[l], u),
        },
    decreases cs.len() - i,
{
    if i < cs.len() && !u_match(cs[i], u) {
        lemma_find_unit(cs, u, i + 1);
    }
}

pub proof fn lemma_find_unit_is<T>(cs: Seq<Model<T>>, u: Seq<char>, j: int)
    requires
        0 <= j < cs.len(),
        u_match(cs[j], u),
        forall|l: int| 0 <= l < j ==> !u_match(#[trigger] cs[l], u),
    ensures
        find_unit(cs, u, 0) == Some(j),
{
    lemma_find_unit(cs, u, 0);
}

pub proof fn lemma_find_unit_none<T>(cs: Seq<Model<T>>, u: Seq<char>)
    requires
        forall|l: int| 0 <= l < cs.len() ==> !u_match(#[trigger] cs[l], u),
    ensures
        find_unit(cs, u, 0) is None,
{
    lemma_find_unit(cs, u, 0);
}

/// Index of the first non-static child at or after `i`, or the length:
/// the place a fresh static child is inserted at.
pub open spec fn first_nonstatic<T>(cs: Seq<Model<T>>, i: int) -> int
    decreases cs.len() - i,
{
    if i < 0 || i >= cs.len() {
        cs.len() as int
    } else if kind_of(cs[i].label) != Kind::Static {
        i
    } else {
        first_nonstatic(cs, i + 1)
    }
}

pub proof fn lemma_first_nonstatic<T>(cs: Seq<Model<T>>, i: int)
    requires
        0 <= i <= cs.len(),
    ensures
        i <= first_nonstatic(cs, i) <= cs.len(),
        forall|l: int|
            i <= l < first_nonstatic(cs, i) ==> kind_of((#[trigger] cs[l]).label) == Kind::Static,
        first_nonstatic(cs, i) < cs.len() ==> kind_of(cs[first_nonstatic(cs, i)].label)
            != Kind::Static,
    decreases cs.len() - i,
{
    if i < cs.len() && kind_of(cs[i].label) == Kind::Static {
        lemma_first_nonstatic(cs, i + 1);
    }
}

pub proof fn lemma_first_nonstatic_is<T>(cs: Seq<Model<T>>, p: int)
    requires
        0 <= p <= cs.len(),
        forall|l: int| 0 <= l < p ==> kind_of((#[trigger] cs[l]).label) == Kind::Static,
        p < cs.len() ==> kind_of(cs[p].label) != Kind::Static,
    ensures
        first_nonstatic(cs, 0) == p,
{
    lemma_first_nonstatic(cs, 0);
    let q = first_nonstatic(cs, 0);
    if q < p {
        assert(kind_of(cs[q].label) == Kind::Static);
    }
    if p < q {
        assert(kind_of(cs[p].label) == Kind::Static);
    }
}

/// What inserting the units `ks` with value `v` does to a subtree, and
/// the value it replaces.  An exhausted `ks` stores `v` at the node; a
/// static unit descends into the static child sharing its first unit,
/// splitting that child at the point of divergence, or starts a fresh
/// branch before the non-static children; a parameter or wildcard unit
/// descends into the child of its own kind when the name agrees, and
/// otherwise replaces the colliding parameter or wildcard child and its
/// whole subtree by the fresh branch.
pub open spec fn m_insert<T>(m: Model<T>, ks: Seq<Seq<char>>, v: T) -> (Model<T>, Option<T>)
    decreases ks.len(),
    via m_insert_dec::<T>
{
    if ks.len() == 0 {
        (Model { label: m.label, data: Some(v), children: m.children }, m.data)
    } else {
        let u = ks[0];
        match unit_kind(u) {
            Kind::Static => match find_unit(m.children, u, 0) {
                Some(i) => {
                    let c = m.children[i];
                    let sh = share(c.label, ks);
                    if sh == c.label.len() {
                        let r = m_insert(c, ks.skip(sh), v);
                        (
                            Model {
                                label: m.label,
                                data: m.data,
                                children: m.children.update(i, r.0),
                            },
                            r.1,
                        )
                    } else {
                        let csplit = Model {
                            label: c.label.take(sh),
                            data: None,
                            children: seq![
                                Model {
                                    label: c.label.skip(sh),
                                    data: c.data,
                                    children: c.children,
                                },
                            ],
                        };
                        let r = m_insert(csplit, ks.skip(sh), v);
                        (
                            Model {
                                label: m.label,
                                data: m.data,
                                children: m.children.update(i, r.0),
                            },
                            r.1,
                        )
                    }
                },
                None => (
                    Model {
                        label: m.label,
                        data: m.data,
                        children: m.children.insert(first_nonstatic(m.children, 0), m_chain(ks, v)),
                    },
                    None,
                ),
            },
            Kind::Param => match find_kind(m.children, Kind::Param, 0) {
                Some(i) => {
                    if m.children[i].label == seq![u] {
                        let r = m_insert(m.children[i], ks.skip(1), v);
                        (
                            Model {
                                label: m.label,
                                data: m.data,
                                children: m.children.update(i, r.0),
                            },
                            r.1,
                        )
                    } else {
                        (
                            Model {
                                label: m.label,
                                data: m.data,
                                children: m.children.update(i, m_chain(ks, v)),
                            },
                            None,
                        )
                    }
                },
                None => match find_kind(m.children, Kind::Wildcard, 0) {
                    Some(i) => (
                        Model {
                            label: m.label,
                            data: m.data,
                            children: m.children.update(i, m_chain(ks, v)),
                        },
                        None,
                    ),
                    None => (
                        Model {
                            label: m.label,
                            data: m.data,
                            children: m.children.push(m_chain(ks, v)),
                        },
                        None,
                    ),
                },
            },
            Kind::Wildcard => match find_kind(m.children, Kind::Wildcard, 0) {
                Some(i) => {
                    let r = m_insert(m.children[i], ks.skip(1), v);
                    (
                        Model { label: m.label, data: m.data, children: m.children.update(i, r.0) },
                        r.1,
                    )
                },
                None => match find_kind(m.children, Kind::Param, 0) {
                    Some(i) => (
                        Model {
                            label: m.label,
                            data: m.data,
                            children: m.children.update(i, m_chain(ks, v)),
                        },
                        None,
                    ),
                    None => (
                        Model {
                            label: m.label,
                            data: m.data,
                            children: m.children.push(m_chain(ks, v)),
                        },
                        None,
                    ),
                },
            },
        }
    }
}

#[via_fn]
proof fn m_insert_dec<T>(m: Model<T>, ks: Seq<Seq<char>>, v: T) {
    if ks.len() > 0 {
        let u = ks[0];
        lemma_find_unit(m.children, u, 0);
        match find_unit(m.children, u, 0) {
            Some(i) => {
                lemma_share(m.children[i].label, ks);
                lemma_share(m.children[i].label.take(share(m.children[i].label, ks)), ks);
            },
            None => {},
        }
    }
}

pub proof fn lemma_valid_units_skip(ks: Seq<Seq<char>>, n: int)
    requires
        segs::valid_units(ks),
        0 <= n <= ks.len(),
    ensures
        segs::valid_units(ks.skip(n)),
{
    assert forall|i: int| 0 <= i < ks.skip(n).len() implies segs::valid_unit(
        #[trigger] ks.skip(n)[i],
    ) by {
        assert(ks.skip(n)[i] == ks[i + n]);
    }
    assert forall|i: int|
        0 <= i < ks.skip(n).len() && #[trigger] ks.skip(n)[i] == segs::wild() implies i == ks.skip(
        n,
    ).len() - 1 by {
        assert(ks.skip(n)[i] == ks[i + n]);
    }
}

/// Replacing a child by one of the same kind, same first unit where it
/// is static, keeps the node well formed.
proof fn lemma_wf_update_same<T>(m: Model<T>, i: int, c2: Model<T>)
    requires
        m_wf(m),
        0 <= i < m.children.len(),
        m_wf(c2),
        wf_label(c2.label),
        kind_of(c2.label) == kind_of(m.children[i].label),
        kind_of(c2.label) == Kind::Wildcard ==> c2.children.len() == 0,
        kind_of(c2.label) == Kind::Static ==> c2.label[0] == m.children[i].label[0],
    ensures
        m_wf(Model { label: m.label, data: m.data, children: m.children.update(i, c2) }),
{
    let m2 = Model { label: m.label, data: m.data, children: m.children.update(i, c2) };
    lemma_m_wf_children(m.children);
    assert forall|j: int| 0 <= j < m2.children.len() implies m_wf(#[trigger] m2.children[j]) by {
        if j != i {
            assert(m2.children[j] == m.children[j]);
        }
    }
    lemma_m_wf_children(m2.children);
    assert(wf_at(m2)) by {
        assert(forall|j: int|
            0 <= j < m2.children.len() && j != i ==> #[trigger] m2.children[j] == m.children[j]);
        assert(m2.children[i] == c2);
    }
}

/// Replacing the parameter or wildcard child by a fresh branch of a
/// marker kind keeps the node well formed, provided either the kind is
/// unchanged or every other child is static.
proof fn lemma_wf_replace_marker<T>(m: Model<T>, i: int, c2: Model<T>)
    requires
        m_wf(m),
        0 <= i < m.children.len(),
        m_wf(c2),
        wf_label(c2.label),
        prec(kind_of(c2.label)) >= 1,
        prec(kind_of(m.children[i].label)) >= 1,
        kind_of(c2.label) == Kind::Wildcard ==> c2.children.len() == 0,
        kind_of(c2.label) == kind_of(m.children[i].label) || (forall|j: int|
            0 <= j < m.children.len() && j != i ==> kind_of(
                (#[trigger] m.children[j]).label,
            ) == Kind::Static),
    ensures
        m_wf(Model { label: m.label, data: m.data, children: m.children.update(i, c2) }),
{
    let m2 = Model { label: m.label, data: m.data, children: m.children.update(i, c2) };
    lemma_m_wf_children(m.children);
    assert forall|j: int| 0 <= j < m2.children.len() implies m_wf(#[trigger] m2.children[j]) by {
        if j != i {
            assert(m2.children[j] == m.children[j]);
        }
    }
    lemma_m_wf_children(m2.children);
    assert(wf_at(m2)) by {
        assert(forall|j: int|
            0 <= j < m2.children.len() && j != i ==> #[trigger] m2.children[j] == m.children[j]);
        assert(m2.children[i] == c2);
        if kind_of(c2.label) != kind_of(m.children[i].label) {
            assert forall|j: int, l: int|
                #![trigger m2.children[j], m2.children[l]]
                0 <= j < l < m2.children.len() implies prec(kind_of(m2.children[j].label)) <= prec(
                kind_of(m2.children[l].label),
            ) by {
                if j != i && l != i {
                    assert(m2.children[j] == m.children[j]);
                    assert(m2.children[l] == m.children[l]);
                } else if j == i {
                    assert(kind_of(m2.children[l].label) == Kind::Static || l == i);
                    if l != i {
                        assert(prec(kind_of(m.children[i].label)) <= prec(
                            kind_of(m.children[l].label),
                        ));
                        assert(false);
                    }
                }
            }
        }
    }
}

/// Appending a parameter or wildcard branch after purely static
/// children keeps the node well formed.
proof fn lemma_wf_push_marker<T>(m: Model<T>, c2: Model<T>)
    requires
        m_wf(m),
        m_wf(c2),
        wf_label(c2.label),
        prec(kind_of(c2.label)) >= 1,
        kind_of(c2.label) == Kind::Wildcard ==> c2.children.len() == 0,
        forall|j: int|
            0 <= j < m.children.len() ==> kind_of((#[trigger] m.children[j]).label) == Kind::Static,
    ensures
        m_wf(Model { label: m.label, data: m.data, children: m.children.push(c2) }),
{
    let m2 = Model { label: m.label, data: m.data, children: m.children.push(c2) };
    lemma_m_wf_children(m.children);
    assert forall|j: int| 0 <= j < m2.children.len() implies m_wf(#[trigger] m2.children[j]) by {
        if j < m.children.len() {
            assert(m2.children[j] == m.children[j]);
        } else {
            assert(m2.children[j] == c2);
        }
    }
    lemma_m_wf_children(m2.children);
    assert(wf_at(m2)) by {
        assert(forall|j: int|
            0 <= j < m.children.len() ==> #[trigger] m2.children[j] == m.children[j]);
        assert(m2.children[m.children.len() as int] == c2);
    }
}

/// Inserting a static branch before the first non-static child keeps
/// the node well formed, provided no static child shares its first unit.
proof fn lemma_wf_insert_static<T>(m: Model<T>, c2: Model<T>)
    requires
        m_wf(m),
        m_wf(c2),
        wf_label(c2.label),
        kind_of(c2.label) == Kind::Static,
        forall|l: int|
            0 <= l < m.children.len() && kind_of((#[trigger] m.children[l]).label) == Kind::Static
                ==> m.children[l].label[0] != c2.label[0],
    ensures
        m_wf(
            Model {
                label: m.label,
                data: m.data,
                children: m.children.insert(first_nonstatic(m.children, 0), c2),
            },
        ),
{
    lemma_first_nonstatic(m.children, 0);
    let pos = first_nonstatic(m.children, 0);
    let cs2 = m.children.insert(pos, c2);
    let m2 = Model { label: m.label, data: m.data, children: cs2 };
    lemma_m_wf_children(m.children);
    assert(cs2.len() == m.children.len() + 1);
    assert(forall|j: int| 0 <= j < pos ==> #[trigger] cs2[j] == m.children[j]);
    assert(cs2[pos] == c2);
    assert forall|j: int| pos < j < cs2.len() implies #[trigger] cs2[j] == m.children[j - 1] by {}
    assert forall|j: int| 0 <= j < cs2.len() implies m_wf(#[trigger] cs2[j]) by {
        if j < pos {
            assert(cs2[j] == m.children[j]);
        } else if j == pos {
        } else {
            assert(cs2[j] == m.children[j - 1]);
        }
    }
    lemma_m_wf_children(cs2);
    assert(wf_at(m2)) by {
        assert forall|j: int, l: int|
            #![trigger cs2[j], cs2[l]]
            0 <= j < l < cs2.len() implies prec(kind_of(cs2[j].label)) <= prec(
            kind_of(cs2[l].label),
        ) && (kind_of(cs2[j].label) != Kind::Static ==> kind_of(cs2[j].label) != kind_of(
            cs2[l].label,
        )) && (kind_of(cs2[j].label) == Kind::Static && kind_of(cs2[l].label) == Kind::Static
            ==> cs2[j].label[0] != cs2[l].label[0]) by {
            if j < pos {
                assert(cs2[j] == m.children[j]);
                assert(kind_of(cs2[j].label) == Kind::Static);
            }
            if l > pos {
                assert(cs2[l] == m.children[l - 1]);
            }
            if l < pos {
                assert(cs2[l] == m.children[l]);
                assert(kind_of(cs2[l].label) == Kind::Static);
            }
            if j > pos {
                assert(cs2[j] == m.children[j - 1]);
                assert(kind_of(cs2[j].label) != Kind::Static);
                assert(prec(kind_of(m.children[j - 1].label)) <= prec(
                    kind_of(m.children[l - 1].label),
                ));
            }
        }
    }
}

/// Splitting a static child at `sh` yields a well-formed prefix node
/// over a well-formed suffix node.
pub proof fn lemma_split_wf<T>(c: Model<T>, sh: int)
    requires
        m_wf(c),
        wf_label(c.label),
        kind_of(c.label) == Kind::Static,
        1 <= sh < c.label.len(),
    ensures
        ({
            let suffix = Model { label: c.label.skip(sh), data: c.data, children: c.children };
            let csplit = Model { label: c.label.take(sh), data: None, children: seq![suffix] };
            &&& m_wf(csplit)
            &&& wf_label(csplit.label)
            &&& kind_of(csplit.label) == Kind::Static
            &&& csplit.label[0] == c.label[0]
        }),
{
    let suffix = Model { label: c.label.skip(sh), data: c.data, children: c.children };
    let csplit = Model { label: c.label.take(sh), data: None, children: seq![suffix] };
    assert(c.label.take(sh)[0] == c.label[0]);
    assert(kind_of(c.label.take(sh)) == Kind::Static);
    assert(c.label.skip(sh)[0] == c.label[sh]);
    assert(static_unit(c.label[sh]));
    assert(kind_of(c.label.skip(sh)) == Kind::Static);
    assert(wf_label(csplit.label)) by {
        assert forall|j: int| 0 <= j < sh implies static_unit(#[trigger] c.label.take(sh)[j]) by {
            assert(c.label.take(sh)[j] == c.label[j]);
        }
    }
    assert(wf_label(suffix.label)) by {
        assert forall|j: int| 0 <= j < c.label.skip(sh).len() implies static_unit(
            #[trigger] c.label.skip(sh)[j],
        ) by {
            assert(c.label.skip(sh)[j] == c.label[j + sh]);
        }
    }
    assert(m_wf(suffix)) by {
        assert(wf_at(suffix) == wf_at(c));
        assert(suffix.children == c.children);
    }
    assert(m_wf(csplit)) by {
        assert(csplit.children[0] == suffix);
        assert(m_wf_children(csplit.children.skip(1)));
        assert(m_wf_children(csplit.children));
        assert(wf_at(csplit));
    }
}

/// Insertion keeps a subtree well formed and never changes its label.
pub proof fn lemma_m_insert_wf<T>(m: Model<T>, ks: Seq<Seq<char>>, v: T)
    requires
        m_wf(m),
        segs::valid_units(ks),
        kind_of(m.label) == Kind::Wildcard ==> ks.len() == 0,
    ensures
        m_wf(m_insert(m, ks, v).0),
        m_insert(m, ks, v).0.label == m.label,
    decreases ks.len(),
{
    lemma_m_wf_children(m.children);
    if ks.len() == 0 {
        let m2 = m_insert(m, ks, v).0;
        assert(m2.children == m.children);
        assert(wf_at(m2));
    } else {
        let u = ks[0];
        assert(segs::valid_unit(u));
        match unit_kind(u) {
            Kind::Static => {
                lemma_find_unit(m.children, u, 0);
                match find_unit(m.children, u, 0) {
                    Some(i) => {
                        let c = m.children[i];
                        lemma_share(c.label, ks);
                        let sh = share(c.label, ks);
                        lemma_valid_units_skip(ks, sh);
                        if sh == c.label.len() {
                            lemma_m_insert_wf(c, ks.skip(sh), v);
                            lemma_wf_update_same(m, i, m_insert(c, ks.skip(sh), v).0);
                        } else {
                            let suffix = Model {
                                label: c.label.skip(sh),
                                data: c.data,
                                children: c.children,
                            };
                            let csplit = Model {
                                label: c.label.take(sh),
                                data: None,
                                children: seq![suffix],
                            };
                            lemma_split_wf(c, sh);
                            lemma_m_insert_wf(csplit, ks.skip(sh), v);
                            let c2 = m_insert(csplit, ks.skip(sh), v).0;
                            assert(c2.label[0] == c.label[0]) by {
                                assert(c.label.take(sh)[0] == c.label[0]);
                            }
                            lemma_wf_update_same(m, i, c2);
                        }
                    },
                    None => {
                        lemma_m_chain(ks, v);
                        lemma_wf_insert_static(m, m_chain(ks, v));
                    },
                }
            },
            Kind::Param => {
                lemma_find_kind(m.children, Kind::Param, 0);
                lemma_find_kind(m.children, Kind::Wildcard, 0);
                match find_kind(m.children, Kind::Param, 0) {
                    Some(i) => {
                        let c = m.children[i];
                        if c.label == seq![u] {
                            lemma_valid_units_skip(ks, 1);
                            lemma_m_insert_wf(c, ks.skip(1), v);
                            lemma_wf_update_same(m, i, m_insert(c, ks.skip(1), v).0);
                        } else {
                            lemma_m_chain(ks, v);
                            lemma_wf_replace_marker(m, i, m_chain(ks, v));
                        }
                    },
                    None => match find_kind(m.children, Kind::Wildcard, 0) {
                        Some(i) => {
                            lemma_m_chain(ks, v);
                            assert forall|j: int|
                                0 <= j < m.children.len() && j != i implies kind_of(
                                (#[trigger] m.children[j]).label,
                            ) == Kind::Static by {
                                if kind_of(m.children[j].label) == Kind::Param {
                                    assert(false);
                                } else if kind_of(m.children[j].label) == Kind::Wildcard {
                                    if j < i {
                                        assert(kind_of(m.children[j].label) != kind_of(
                                            m.children[i].label,
                                        ));
                                    } else {
                                        assert(kind_of(m.children[i].label) != kind_of(
                                            m.children[j].label,
                                        ));
                                    }
                                    assert(false);
                                }
                            }
                            lemma_wf_replace_marker(m, i, m_chain(ks, v));
                        },
                        None => {
                            lemma_m_chain(ks, v);
                            assert forall|j: int| 0 <= j < m.children.len() implies kind_of(
                                (#[trigger] m.children[j]).label,
                            ) == Kind::Static by {}
                            lemma_wf_push_marker(m, m_chain(ks, v));
                        },
                    },
                }
            },
            Kind::Wildcard => {
                assert(u == segs::wild());
                assert(ks.len() == 1);
                lemma_find_kind(m.children, Kind::Wildcard, 0);
                lemma_find_kind(m.children, Kind::Param, 0);
                match find_kind(m.children, Kind::Wildcard, 0) {
                    Some(i) => {
                        let c = m.children[i];
                        lemma_valid_units_skip(ks, 1);
                        lemma_m_insert_wf(c, ks.skip(1), v);
                        let c2 = m_insert(c, ks.skip(1), v).0;
                        assert(c2.children == c.children);
                        lemma_wf_update_same(m, i, c2);
                    },
                    None => match find_kind(m.children, Kind::Param, 0) {
                        Some(i) => {
                            lemma_m_chain(ks, v);
                            assert forall|j: int|
                                0 <= j < m.children.len() && j != i implies kind_of(
                                (#[trigger] m.children[j]).label,
                            ) == Kind::Static by {
                                if kind_of(m.children[j].label) == Kind::Wildcard {
                                    assert(false);
                                } else if kind_of(m.children[j].label) == Kind::Param {
                                    if j < i {
                                        assert(kind_of(m.children[j].label) != kind_of(
                                            m.children[i].label,
                                        ));
                                    } else {
                                        assert(kind_of(m.children[i].label) != kind_of(
                                            m.children[j].label,
                                        ));
                                    }
                                    assert(false);
                                }
                            }
                            lemma_wf_replace_marker(m, i, m_chain(ks, v));
                        },
                        None => {
                            lemma_m_chain(ks, v);
                            lemma_wf_push_marker(m, m_chain(ks, v));
                        },
                    },
                }
            },
        }
    }
}

/// Kind of a single pattern unit, from its first character.
fn unit_kind_of(u: &str) -> (k: Kind)
    requires
        segs::valid_unit(u@),
    ensures
        k == unit_kind(u@),
{
    let ulen = u.unicode_len();
    let c0 = u.get_char(0);
    if c0 == ':' {
        Kind::Param
    } else if ulen == 1 && c0 == '*' {
        proof {
            assert(u@ =~= segs::wild());
        }
        Kind::Wildcard
    } else {
        proof {
            if u@ == segs::wild() {
                assert(u@.len() == segs::wild().len());
                assert(u@[0] == segs::wild()[0]);
            }
        }
        Kind::Static
    }
}

/// Count the equal leading units of a label and of `keys[from..]`.
#[verifier::loop_isolation(false)]
fn share_units(a: &Vec<String>, keys: &Vec<String>, from: usize) -> (sh: usize)
    requires
        from <= keys.len(),
    ensures
        sh == share(a.deep_view(), keys.deep_view().skip(from as int)),
        sh <= a.len(),
        from + sh <= keys.len(),
{
    let ghost av = a.deep_view();
    let ghost bv = keys.deep_view().skip(from as int);
    proof {
        assert(av.len() == a@.len());
        assert(bv.len() == keys@.len() - from);
    }
    let rest = keys.len() - from;
    let max = if a.len() < rest {
        a.len()
    } else {
        rest
    };
    let mut j: usize = 0;
    while j < max
        invariant
            j <= max,
            max <= a.len(),
            from + max <= keys.len(),
            max == if a.len() < rest {
                a.len()
            } else {
                rest
            },
            forall|l: int| 0 <= l < j ==> av[l] == bv[l],
        decreases max - j,
    {
        proof {
            assert(av[j as int] == a@[j as int]@);
            assert(bv[j as int] == keys.deep_view()[from + j] && keys.deep_view()[from + j]
                == keys@[from + j]@);
        }
        if !segs::str_eq(a[j].as_str(), keys[from + j].as_str()) {
            proof {
                lemma_share_unique(av, bv, j as int);
            }
            return j;
        }
        j += 1;
    }
    proof {
        lemma_share_unique(av, bv, max as int);
    }
    max
}

/// Index of the first child of kind `k`, or the number of children.
#[verifier::loop_isolation(false)]
fn find_child_kind<T>(cs: &Vec<PathTrie<T>>, k: Kind) -> (p: usize)
    requires
        x_inv_children(cs@),
    ensures
        p <= cs@.len(),
        forall|l: int| 0 <= l < p ==> kind_of((#[trigger] models_of(cs@)[l]).label) != k,
        p < cs@.len() ==> kind_of(models_of(cs@)[p as int].label) == k,
{
    proof {
        lemma_x_inv_children(cs@);
        lemma_models_of(cs@);
    }
    let n = cs.len();
    let mut p: usize = 0;
    while p < n
        invariant
            p <= n,
            n == cs@.len(),
            forall|l: int| 0 <= l < p ==> kind_of((#[trigger] models_of(cs@)[l]).label) != k,
        decreases n - p,
    {
        if cs[p].kind == k {
            proof {
                assert(x_inv(cs@[p as int]));
            }
            return p;
        }
        proof {
            assert(x_inv(cs@[p as int]));
            assert(kind_of(models_of(cs@)[p as int].label) != k);
        }
        p += 1;
    }
    n
}

/// Index of the first non-static child, or the number of children: the
/// place a fresh static child goes.
#[verifier::loop_isolation(false)]
fn find_child_nonstatic<T>(cs: &Vec<PathTrie<T>>) -> (p: usize)
    requires
        x_inv_children(cs@),
    ensures
        p <= cs@.len(),
        forall|l: int|
            0 <= l < p ==> kind_of((#[trigger] models_of(cs@)[l]).label) == Kind::Static,
        p < cs@.len() ==> kind_of(models_of(cs@)[p as int].label) != Kind::Static,
        p == first_nonstatic(models_of(cs@), 0),
{
    proof {
        lemma_x_inv_children(cs@);
        lemma_models_of(cs@);
    }
    let n = cs.len();
    let mut p: usize = 0;
    while p < n
        invariant
            p <= n,
            n == cs@.len(),
            forall|l: int|
                0 <= l < p ==> kind_of((#[trigger] models_of(cs@)[l]).label) == Kind::Static,
        decreases n - p,
    {
        if cs[p].kind != Kind::Static {
            proof {
                assert(x_inv(cs@[p as int]));
                lemma_first_nonstatic_is(models_of(cs@), p as int);
            }
            return p;
        }
        proof {
            assert(x_inv(cs@[p as int]));
            assert(kind_of(models_of(cs@)[p as int].label) == Kind::Static);
        }
        p += 1;
    }
    proof {
        lemma_first_nonstatic_is(models_of(cs@), n as int);
    }
    n
}

/// Build the fresh branch for `keys[from..]`: one node per unit, the
/// value at the last.
fn mk_chain<T>(keys: &Vec<String>, from: usize, value: T) -> (t: PathTrie<T>)
    requires
        from < keys.len(),
        segs::valid_units(keys.deep_view().skip(from as int)),
    ensures
        t@ == m_chain(keys.deep_view().skip(from as int), value),
        t.wf(),
    decreases keys.len() - from,
{
    let ghost ks = keys.deep_view().skip(from as int);
    let u = &keys[from];
    proof {
        assert(ks[0] == keys.deep_view()[from as int]);
        assert(keys.deep_view()[from as int] == keys@[from as int]@);
        assert(segs::valid_unit(u@));
        lemma_m_chain(ks, value);
    }
    let k = unit_kind_of(u.as_str());
    let mut segs_v: Vec<String> = Vec::new();
    segs_v.push(u.clone());
    proof {
        assert(segs_v.deep_view() =~= seq![u@]);
    }
    if from + 1 == keys.len() {
        let t = PathTrie {
            segs: segs_v,
            kind: k,
            data: Some(value),
            children: Vec::new(),
            index: Vec::new(),
        };
        proof {
            assert(models_of(t.children@) =~= Seq::<Model<T>>::empty());
            assert(ks =~= seq![u@]);
            assert(t@ == m_chain(ks, value));
            assert(x_inv_children(t.children@));
            assert(x_inv(t));
        }
        t
    } else {
        proof {
            lemma_valid_units_skip(ks, 1);
            assert(ks.skip(1) =~= keys.deep_view().skip(from as int + 1));
        }
        let child = mk_chain(keys, from + 1, value);
        proof {
            assert(wf_label(child@.label));
            assert(child@.label == child.segs.deep_view());
            assert(child.segs@.len() > 0);
            assert(child.segs.deep_view()[0] == child.segs@[0]@);
            assert(child.segs.deep_view()[0].len() > 0);
        }
        let cc0 = child.segs[0].as_str().get_char(0);
        let mut children_v: Vec<PathTrie<T>> = Vec::new();
        let mut index_v: Vec<char> = Vec::new();
        proof {
            assert(cc0 == first_char_of(child));
        }
        let ghost child_model = child@;
        let ghost child_snap = child;
        children_v.push(child);
        index_v.push(cc0);
        let t = PathTrie { segs: segs_v, kind: k, data: None, children: children_v, index: index_v };
        proof {
            assert(t.children@ =~= seq![child_snap]);
            assert(models_of(t.children@.skip(1)) =~= Seq::<Model<T>>::empty());
            assert(models_of(t.children@) =~= seq![child_model]);
            assert(t@.label =~= seq![ks[0]]);
            assert(t@ == m_chain(ks, value));
            assert(x_inv_children(t.children@.skip(1)));
            assert(x_inv_children(t.children@));
            assert(x_inv(t)) by {
                assert(t.index@[0] == first_char_of(t.children@[0]));
            }
        }
        t
    }
}

impl<T> PathTrie<T> {
    /// Store `value` under the units `keys[from..]`, exactly as
    /// `m_insert` describes, returning the value previously stored
    /// under that very pattern.
    #[verifier::loop_isolation(false)]
    #[verifier::rlimit(100)]
    fn insert_at(&mut self, keys: &Vec<String>, from: usize, value: T) -> (prev: Option<T>)
        requires
            old(self).wf(),
            from <= keys.len(),
            segs::valid_units(keys.deep_view().skip(from as int)),
            kind_of(old(self)@.label) == Kind::Wildcard ==> from == keys.len(),
        ensures
            final(self).wf(),
            final(self)@ == m_insert(old(self)@, keys.deep_view().skip(from as int), value).0,
            prev == m_insert(old(self)@, keys.deep_view().skip(from as int), value).1,
            final(self)@.label == old(self)@.label,
            final(self).kind == old(self).kind,
        decreases keys.len() - from,
    {
        let ghost ks = keys.deep_view().skip(from as int);
        let ghost m0 = old(self)@;
        proof {
            lemma_models_of(self.children@);
            lemma_x_inv_children(self.children@);
            lemma_m_wf_children(models_of(self.children@));
            lemma_m_insert_wf(m0, ks, value);
        }
        if from == keys.len() {
            let prev = self.data.take();
            self.data = Some(value);
            proof {
                assert(ks.len() == 0);
                assert(self@ == m_insert(m0, ks, value).0);
                assert(x_inv(*self));
            }
            return prev;
        }
        let u = &keys[from];
        proof {
            assert(ks[0] == keys.deep_view()[from as int]);
            assert(keys.deep_view()[from as int] == keys@[from as int]@);
            assert(segs::valid_unit(u@));
        }
        let uk = unit_kind_of(u.as_str());
        let c0 = u.as_str().get_char(0);
        let n = self.children.len();
        if uk == Kind::Static {
            let mut i: usize = 0;
            while i < n
                invariant
                    i <= n,
                    *self == *old(self),
                    forall|l: int| 0 <= l < i ==> !u_match(#[trigger] m0.children[l], u@),
                decreases n - i,
            {
                let child = &self.children[i];
                proof {
                    assert(m0.children[i as int] == model_of(*child));
                    assert(x_inv(*child));
                    assert(m_wf(model_of(*child)));
                }
                let is_static = child.kind == Kind::Static;
                if is_static {
                    proof {
                        assert(wf_label(model_of(*child).label));
                        assert(child.segs@.len() > 0);
                        assert(model_of(*child).label[0] == child.segs@[0]@);
                    }
                    if segs::str_eq(child.segs[0].as_str(), u.as_str()) {
                        proof {
                            assert(u_match(m0.children[i as int], u@));
                            lemma_find_unit_is(m0.children, u@, i as int);
                        }
                        let sh = share_units(&self.children[i].segs, keys, from);
                        let ghost c = m0.children[i as int];
                        proof {
                            assert(c.label == self.children@[i as int].segs.deep_view());
                            assert(sh == share(c.label, ks));
                            lemma_share(c.label, ks);
                            lemma_valid_units_skip(ks, sh as int);
                            assert(ks.skip(sh as int) =~= keys.deep_view().skip(from + sh));
                            assert(decreases_to!(*self => self.children));
                            assert(decreases_to!(self.children => self.children@));
                            assert(decreases_to!(self.children@ => self.children@[i as int]));
                        }
                        if sh == self.children[i].segs.len() {
                            let prev = self.children[i].insert_at(keys, from + sh, value);
                            proof {
                                lemma_models_of(self.children@);
                                lemma_x_inv_children(self.children@);
                                assert(models_of(self.children@) =~= m0.children.update(
                                    i as int,
                                    model_of(self.children@[i as int]),
                                ));
                                assert(self@ == m_insert(m0, ks, value).0);
                                assert(x_inv(*self)) by {
                                    assert forall|l: int|
                                        0 <= l < self.children@.len() implies self.index@[l]
                                        == first_char_of(#[trigger] self.children@[l]) by {
                                        if l != i as int {
                                            assert(self.children@[l] == old(self).children@[l]);
                                        } else {
                                            assert(self.children@[l].segs.deep_view()
                                                == model_of(self.children@[l]).label);
                                        }
                                    }
                                }
                            }
                            return prev;
                        } else {
                            proof {
                                assert(sh < c.label.len());
                                assert(sh >= 1);
                                assert(static_unit(c.label[sh as int]));
                                lemma_split_wf(c, sh as int);
                            }
                            let suffix_segs = self.children[i].segs.split_off(sh);
                            let old_data = self.children[i].data.take();
                            let mut old_children: Vec<PathTrie<T>> = Vec::new();
                            let mut old_index: Vec<char> = Vec::new();
                            core::mem::swap(&mut old_children, &mut self.children[i].children);
                            core::mem::swap(&mut old_index, &mut self.children[i].index);
                            proof {
                                assert(suffix_segs.deep_view() =~= c.label.skip(sh as int));
                                assert(suffix_segs@[0]@ == c.label[sh as int]);
                                assert(suffix_segs@[0]@.len() > 0);
                            }
                            let sc0 = suffix_segs[0].as_str().get_char(0);
                            let suf = PathTrie {
                                segs: suffix_segs,
                                kind: Kind::Static,
                                data: old_data,
                                children: old_children,
                                index: old_index,
                            };
                            let ghost suffix_m = Model {
                                label: c.label.skip(sh as int),
                                data: c.data,
                                children: c.children,
                            };
                            let ghost csplit = Model {
                                label: c.label.take(sh as int),
                                data: None,
                                children: seq![suffix_m],
                            };
                            proof {
                                assert(model_of(suf) == suffix_m);
                                assert(x_inv(suf)) by {
                                    assert(kind_of(suf.segs.deep_view()) == Kind::Static) by {
                                        assert(suf.segs.deep_view()[0] == c.label[sh as int]);
                                    }
                                    assert(suf.children@ == old(self).children@[i as int].children@);
                                    assert(suf.index@ == old(self).children@[i as int].index@);
                                    assert(x_inv(old(self).children@[i as int]));
                                }
                                lemma_m_wf_children(csplit.children);
                                assert(m_wf(suffix_m)) by {
                                    assert(m_wf(csplit));
                                    assert(csplit.children[0] == suffix_m);
                                }
                            }
                            let ghost suf_snap = suf;
                            self.children[i].children.push(suf);
                            self.children[i].index.push(sc0);
                            proof {
                                let cur = self.children@[i as int];
                                assert(cur.segs.deep_view() =~= c.label.take(sh as int));
                                assert(cur.children@ =~= seq![suf_snap]);
                                assert(models_of(cur.children@.skip(1))
                                    =~= Seq::<Model<T>>::empty());
                                assert(models_of(cur.children@) =~= seq![suffix_m]);
                                assert(model_of(cur) == csplit);
                                assert(x_inv(cur)) by {
                                    assert(cur.kind == Kind::Static);
                                    assert(kind_of(cur.segs.deep_view()) == Kind::Static) by {
                                        assert(cur.segs.deep_view()[0] == c.label[0]);
                                    }
                                    assert(cur.index@ =~= seq![sc0]);
                                    assert(first_char_of(suf_snap) == sc0);
                                    assert(x_inv_children(cur.children@.skip(1)));
                                    assert(x_inv_children(cur.children@));
                                }
                                assert(self.children@[i as int].wf());
                            }
                            let prev = self.children[i].insert_at(keys, from + sh, value);
                            proof {
                                lemma_models_of(self.children@);
                                lemma_x_inv_children(self.children@);
                                assert(models_of(self.children@) =~= m0.children.update(
                                    i as int,
                                    model_of(self.children@[i as int]),
                                ));
                                assert(self@ == m_insert(m0, ks, value).0);
                                assert(x_inv(*self)) by {
                                    assert forall|l: int|
                                        0 <= l < self.children@.len() implies self.index@[l]
                                        == first_char_of(#[trigger] self.children@[l]) by {
                                        if l != i as int {
                                            assert(self.children@[l] == old(self).children@[l]);
                                        } else {
                                            assert(self.children@[l].segs.deep_view()
                                                == model_of(self.children@[l]).label);
                                            assert(model_of(self.children@[l]).label[0]
                                                == c.label.take(sh as int)[0]);
                                            assert(c.label.take(sh as int)[0] == c.label[0]);
                                        }
                                    }
                                }
                            }
                            return prev;
                        }
                    }
                    proof {
                        assert(model_of(*child).label[0] != u@);
                        assert(!u_match(m0.children[i as int], u@));
                    }
                } else {
                    proof {
                        assert(kind_of(model_of(*child).label) != Kind::Static);
                        assert(!u_match(m0.children[i as int], u@));
                    }
                }
                i += 1;
            }
            proof {
                lemma_find_unit_none(m0.children, u@);
            }
            let pos = find_child_nonstatic(&self.children);
            let node = mk_chain(keys, from, value);
            let ghost node_m = node@;
            proof {
                lemma_m_chain(ks, value);
                assert(node.segs.deep_view() == node_m.label);
                assert(first_char_of(node) == u@[0]);
            }
            self.children.insert(pos, node);
            self.index.insert(pos, c0);
            proof {
                lemma_models_of(self.children@);
                lemma_x_inv_children(self.children@);
                assert(self.children@.len() == m0.children.len() + 1);
                assert(models_of(self.children@) =~= m0.children.insert(pos as int, node_m)) by {
                    assert forall|j: int|
                        0 <= j < self.children@.len() implies models_of(self.children@)[j]
                        == m0.children.insert(pos as int, node_m)[j] by {
                        if j < pos as int {
                            assert(self.children@[j] == old(self).children@[j]);
                        } else if j == pos as int {
                        } else {
                            assert(self.children@[j] == old(self).children@[j - 1]);
                        }
                    }
                }
                assert(self@ == m_insert(m0, ks, value).0);
                assert(x_inv(*self)) by {
                    assert forall|l: int|
                        0 <= l < self.children@.len() implies self.index@[l] == first_char_of(
                        #[trigger] self.children@[l],
                    ) by {
                        if l < pos as int {
                            assert(self.children@[l] == old(self).children@[l]);
                            assert(self.index@[l] == old(self).index@[l]);
                        } else if l == pos as int {
                        } else {
                            assert(self.children@[l] == old(self).children@[l - 1]);
                            assert(self.index@[l] == old(self).index@[l - 1]);
                        }
                    }
                    assert forall|l: int|
                        0 <= l < self.children@.len() implies x_inv(
                        #[trigger] self.children@[l],
                    ) by {
                        if l < pos as int {
                            assert(self.children@[l] == old(self).children@[l]);
                        } else if l > pos as int {
                            assert(self.children@[l] == old(self).children@[l - 1]);
                        }
                    }
                    lemma_x_inv_children(self.children@);
                }
            }
            return None;
        }
        if uk == Kind::Param {
            let p = find_child_kind(&self.children, Kind::Param);
            if p < n {
                proof {
                    lemma_find_kind_is(m0.children, Kind::Param, p as int);
                    assert(x_inv(self.children@[p as int]));
                    assert(m_wf(model_of(self.children@[p as int])));
                    assert(wf_label(m0.children[p as int].label));
                    assert(m0.children[p as int].label.len() == 1);
                    assert(self.children@[p as int].segs@.len() > 0);
                    assert(m0.children[p as int].label[0] == self.children@[p as int].segs@[0]@);
                }
                if segs::str_eq(self.children[p].segs[0].as_str(), u.as_str()) {
                    proof {
                        assert(m0.children[p as int].label =~= seq![u@]);
                        lemma_valid_units_skip(ks, 1);
                        assert(ks.skip(1) =~= keys.deep_view().skip(from as int + 1));
                        assert(decreases_to!(*self => self.children));
                        assert(decreases_to!(self.children => self.children@));
                        assert(decreases_to!(self.children@ => self.children@[p as int]));
                    }
                    let prev = self.children[p].insert_at(keys, from + 1, value);
                    proof {
                        lemma_models_of(self.children@);
                        lemma_x_inv_children(self.children@);
                        assert(models_of(self.children@) =~= m0.children.update(
                            p as int,
                            model_of(self.children@[p as int]),
                        ));
                        assert(self@ == m_insert(m0, ks, value).0);
                        assert(x_inv(*self)) by {
                            assert forall|l: int|
                                0 <= l < self.children@.len() implies self.index@[l]
                                == first_char_of(#[trigger] self.children@[l]) by {
                                if l != p as int {
                                    assert(self.children@[l] == old(self).children@[l]);
                                } else {
                                    assert(self.children@[l].segs.deep_view() == model_of(
                                        self.children@[l],
                                    ).label);
                                }
                            }
                        }
                    }
                    return prev;
                } else {
                    proof {
                        assert(m0.children[p as int].label != seq![u@]) by {
                            assert(seq![u@][0] == u@);
                        }
                    }
                    let node = mk_chain(keys, from, value);
                    let ghost node_m = node@;
                    proof {
                        lemma_m_chain(ks, value);
                        assert(node.segs.deep_view() == node_m.label);
                        assert(first_char_of(node) == u@[0]);
                        assert(u@[0] == ':');
                    }
                    self.children[p] = node;
                    self.index[p] = c0;
                    proof {
                        lemma_models_of(self.children@);
                        lemma_x_inv_children(self.children@);
                        assert(models_of(self.children@) =~= m0.children.update(p as int, node_m));
                        assert(self@ == m_insert(m0, ks, value).0);
                        assert(x_inv(*self)) by {
                            assert forall|l: int|
                                0 <= l < self.children@.len() implies self.index@[l]
                                == first_char_of(#[trigger] self.children@[l]) by {
                                if l != p as int {
                                    assert(self.children@[l] == old(self).children@[l]);
                                    assert(self.index@[l] == old(self).index@[l]);
                                }
                            }
                        }
                    }
                    return None;
                }
            }
            proof {
                lemma_find_kind_none(m0.children, Kind::Param);
            }
            let w = find_child_kind(&self.children, Kind::Wildcard);
            let node = mk_chain(keys, from, value);
            let ghost node_m = node@;
            proof {
                lemma_m_chain(ks, value);
                assert(node.segs.deep_view() == node_m.label);
                assert(first_char_of(node) == u@[0]);
            }
            if w < n {
                proof {
                    lemma_find_kind_is(m0.children, Kind::Wildcard, w as int);
                }
                self.children[w] = node;
                self.index[w] = c0;
                proof {
                    lemma_models_of(self.children@);
                    lemma_x_inv_children(self.children@);
                    assert(models_of(self.children@) =~= m0.children.update(w as int, node_m));
                    assert(self@ == m_insert(m0, ks, value).0);
                    assert(x_inv(*self)) by {
                        assert forall|l: int|
                            0 <= l < self.children@.len() implies self.index@[l] == first_char_of(
                            #[trigger] self.children@[l],
                        ) by {
                            if l != w as int {
                                assert(self.children@[l] == old(self).children@[l]);
                                assert(self.index@[l] == old(self).index@[l]);
                            }
                        }
                    }
                }
                return None;
            }
            proof {
                lemma_find_kind_none(m0.children, Kind::Wildcard);
            }
            self.children.push(node);
            self.index.push(c0);
            proof {
                lemma_models_of(self.children@);
                lemma_x_inv_children(self.children@);
                assert(models_of(self.children@) =~= m0.children.push(node_m)) by {
                    assert forall|j: int|
                        0 <= j < self.children@.len() implies models_of(self.children@)[j]
                        == m0.children.push(node_m)[j] by {
                        if j < m0.children.len() {
                            assert(self.children@[j] == old(self).children@[j]);
                        }
                    }
                }
                assert(self@ == m_insert(m0, ks, value).0);
                assert(x_inv(*self)) by {
                    assert forall|l: int|
                        0 <= l < self.children@.len() implies self.index@[l] == first_char_of(
                        #[trigger] self.children@[l],
                    ) by {
                        if l < m0.children.len() {
                            assert(self.children@[l] == old(self).children@[l]);
                            assert(self.index@[l] == old(self).index@[l]);
                        }
                    }
                }
            }
            return None;
        }
        // uk == Kind::Wildcard
        proof {
            assert(u@ == segs::wild());
            assert(ks[0] == segs::wild());
            assert(ks.len() == 1);
        }
        let w = find_child_kind(&self.children, Kind::Wildcard);
        if w < n {
            proof {
                lemma_find_kind_is(m0.children, Kind::Wildcard, w as int);
                assert(x_inv(self.children@[w as int]));
                assert(m_wf(model_of(self.children@[w as int])));
                lemma_valid_units_skip(ks, 1);
                assert(ks.skip(1) =~= keys.deep_view().skip(from as int + 1));
                assert(decreases_to!(*self => self.children));
                assert(decreases_to!(self.children => self.children@));
                assert(decreases_to!(self.children@ => self.children@[w as int]));
            }
            let prev = self.children[w].insert_at(keys, from + 1, value);
            proof {
                lemma_models_of(self.children@);
                lemma_x_inv_children(self.children@);
                assert(models_of(self.children@) =~= m0.children.update(
                    w as int,
                    model_of(self.children@[w as int]),
                ));
                assert(self@ == m_insert(m0, ks, value).0);
                assert(x_inv(*self)) by {
                    assert forall|l: int|
                        0 <= l < self.children@.len() implies self.index@[l] == first_char_of(
                        #[trigger] self.children@[l],
                    ) by {
                        if l != w as int {
                            assert(self.children@[l] == old(self).children@[l]);
                        } else {
                            assert(self.children@[l].segs.deep_view() == model_of(
                                self.children@[l],
                            ).label);
                        }
                    }
                }
            }
            return prev;
        }
        proof {
            lemma_find_kind_none(m0.children, Kind::Wildcard);
        }
        let p = find_child_kind(&self.children, Kind::Param);
        let node = mk_chain(keys, from, value);
        let ghost node_m = node@;
        proof {
            lemma_m_chain(ks, value);
            assert(node.segs.deep_view() == node_m.label);
            assert(first_char_of(node) == u@[0]);
        }
        if p < n {
            proof {
                lemma_find_kind_is(m0.children, Kind::Param, p as int);
            }
            self.children[p] = node;
            self.index[p] = c0;
            proof {
                lemma_models_of(self.children@);
                lemma_x_inv_children(self.children@);
                assert(models_of(self.children@) =~= m0.children.update(p as int, node_m));
                assert(self@ == m_insert(m0, ks, value).0);
                assert(x_inv(*self)) by {
                    assert forall|l: int|
                        0 <= l < self.children@.len() implies self.index@[l] == first_char_of(
                        #[trigger] self.children@[l],
                    ) by {
                        if l != p as int {
                            assert(self.children@[l] == old(self).children@[l]);
                            assert(self.index@[l] == old(self).index@[l]);
                        }
                    }
                }
            }
            return None;
        }
        proof {
            lemma_find_kind_none(m0.children, Kind::Param);
        }
        self.children.push(node);
        self.index.push(c0);
        proof {
            lemma_models_of(self.children@);
            lemma_x_inv_children(self.children@);
            assert(models_of(self.children@) =~= m0.children.push(node_m)) by {
                assert forall|j: int|
                    0 <= j < self.children@.len() implies models_of(self.children@)[j]
                    == m0.children.push(node_m)[j] by {
                    if j < m0.children.len() {
                        assert(self.children@[j] == old(self).children@[j]);
                    }
                }
            }
            assert(self@ == m_insert(m0, ks, value).0);
            assert(x_inv(*self)) by {
                assert forall|l: int|
                    0 <= l < self.children@.len() implies self.index@[l] == first_char_of(
                    #[trigger] self.children@[l],
                ) by {
                    if l < m0.children.len() {
                        assert(self.children@[l] == old(self).children@[l]);
                        assert(self.index@[l] == old(self).index@[l]);
                    }
                }
            }
        }
        None
    }

    /// Insert `value` under the pattern `key`.  A well-formed pattern
    /// updates the trie exactly as `m_insert` describes and hands back
    /// the value previously stored under that same pattern; a malformed
    /// one reports the parse error and leaves the trie untouched.
    pub fn insert(&mut self, key: &str, value: T) -> (res: Result<Option<T>, PathParseError>)
        requires
            old(self).wf_root(),
        ensures
            final(self).wf_root(),
            match (res, segs::parse_m(key@)) {
                (Ok(prev), Ok(ks)) => {
                    &&& final(self)@ == m_insert(old(self)@, ks, value).0
                    &&& prev == m_insert(old(self)@, ks, value).1
                },
                (Err(e), Err(me)) => err_matches(e, me) && *final(self) == *old(self),
                _ => false,
            },
    {
        match parse_key(key) {
            Ok(keys) => {
                proof {
                    segs::lemma_parse_valid(key@);
                    assert(keys.deep_view().skip(0) =~= keys.deep_view());
                }
                Ok(self.insert_at(&keys, 0, value))
            },
            Err(e) => Err(e),
        }
    }
}

/// Number of nodes in a subtree.
pub open spec fn m_size<T>(m: Model<T>) -> nat
    decreases m,
{
    1 + m_size_children(m.children)
}

pub open spec fn m_size_children<T>(cs: Seq<Model<T>>) -> nat
    decreases cs,
{
    if cs.len() == 0 {
        0
    } else {
        m_size(cs[0]) + m_size_children(cs.skip(1))
    }
}

pub proof fn lemma_m_size_children<T>(cs: Seq<Model<T>>)
    ensures
        forall|j: int| 0 <= j < cs.len() ==> m_size(#[trigger] cs[j]) <= m_size_children(cs),
    decreases cs.len(),
{
    if cs.len() > 0 {
        lemma_m_size_children(cs.skip(1));
        assert forall|j: int| 0 <= j < cs.len() implies m_size(#[trigger] cs[j])
            <= m_size_children(cs) by {
            if j > 0 {
                assert(cs.skip(1)[j - 1] == cs[j]);
            }
        }
    }
}

/// A node the compression pass merges with its single child: one static
/// child, no value, and itself a non-root static node.
pub open spec fn mergeable<T>(m: Model<T>) -> bool {
    &&& m.children.len() == 1
    &&& m.data is None
    &&& m.label.len() > 0
    &&& kind_of(m.label) == Kind::Static
    &&& kind_of(m.children[0].label) == Kind::Static
}

/// One merge: absorb the single static child.
pub open spec fn merge_step<T>(m: Model<T>) -> Model<T>
    recommends
        m.children.len() == 1,
{
    Model {
        label: m.label + m.children[0].label,
        data: m.children[0].data,
        children: m.children[0].children,
    }
}

pub proof fn lemma_merge_size<T>(m: Model<T>)
    requires
        m.children.len() == 1,
    ensures
        m_size(merge_step(m)) < m_size(m),
{
    assert(m.children.skip(1) =~= Seq::<Model<T>>::empty());
    assert(m_size_children(m.children.skip(1)) == 0);
    assert(m_size_children(m.children) == m_size(m.children[0]));
}

/// The compression pass: merge chains of single-child valueless static
/// nodes, then compress the children; the root (empty label) is never
/// merged away.
pub open spec fn m_compress<T>(m: Model<T>) -> Model<T>
    decreases m_size(m), 0int,
    via m_compress_dec::<T>
{
    if mergeable(m) {
        m_compress(merge_step(m))
    } else {
        Model { label: m.label, data: m.data, children: m_compress_children(m.children) }
    }
}

pub open spec fn m_compress_children<T>(cs: Seq<Model<T>>) -> Seq<Model<T>>
    decreases m_size_children(cs), cs.len() + 1,
    via m_compress_children_dec::<T>
{
    if cs.len() == 0 {
        Seq::empty()
    } else {
        seq![m_compress(cs[0])] + m_compress_children(cs.skip(1))
    }
}

#[via_fn]
proof fn m_compress_dec<T>(m: Model<T>) {
    if mergeable(m) {
        lemma_merge_size(m);
    }
}

#[via_fn]
proof fn m_compress_children_dec<T>(cs: Seq<Model<T>>) {
    if cs.len() > 0 {
        assert(m_size_children(cs) == m_size(cs[0]) + m_size_children(cs.skip(1)));
        assert(m_size(cs[0]) >= 1);
    }
}

pub proof fn lemma_m_compress_children<T>(cs: Seq<Model<T>>)
    ensures
        m_compress_children(cs).len() == cs.len(),
        forall|j: int|
            0 <= j < cs.len() ==> m_compress_children(cs)[j] == m_compress(#[trigger] cs[j]),
    decreases cs.len(),
{
    if cs.len() > 0 {
        lemma_m_compress_children(cs.skip(1));
        assert forall|j: int| 0 <= j < cs.len() implies m_compress_children(cs)[j] == m_compress(
            #[trigger] cs[j],
        ) by {
            if j > 0 {
                assert(cs.skip(1)[j - 1] == cs[j]);
                assert(m_compress_children(cs)[j] == m_compress_children(cs.skip(1))[j - 1]);
            }
        }
    }
}

/// One merge keeps everything well formed.
pub proof fn lemma_merge_wf<T>(m: Model<T>)
    requires
        m_wf(m),
        mergeable(m),
        wf_label(m.label),
    ensures
        ({
            let mm = merge_step(m);
            &&& m_wf(mm)
            &&& wf_label(mm.label)
            &&& kind_of(mm.label) == Kind::Static
            &&& mm.label[0] == m.label[0]
            &&& mm.children == m.children[0].children
        }),
{
    lemma_m_wf_children(m.children);
    let c = m.children[0];
    let mm = merge_step(m);
    assert(wf_label(c.label));
    assert(mm.label[0] == m.label[0]);
    assert(kind_of(mm.label) == Kind::Static) by {
        assert(mm.label[0] == m.label[0]);
    }
    assert(wf_label(mm.label)) by {
        assert forall|j: int| 0 <= j < mm.label.len() implies static_unit(
            #[trigger] mm.label[j],
        ) by {
            if j < m.label.len() {
                assert(mm.label[j] == m.label[j]);
            } else {
                assert(mm.label[j] == c.label[j - m.label.len()]);
            }
        }
    }
    assert(m_wf(mm)) by {
        assert(wf_at(mm) == wf_at(c));
        assert(mm.children == c.children);
    }
}

/// Compression keeps a subtree well formed, never changes the first
/// unit or kind of a nonempty label, and keeps the root label empty.
pub proof fn lemma_m_compress_wf<T>(m: Model<T>)
    requires
        m_wf(m),
        m.label.len() > 0 ==> wf_label(m.label),
        kind_of(m.label) == Kind::Wildcard ==> m.children.len() == 0,
    ensures
        m_wf(m_compress(m)),
        m.label.len() > 0 ==> {
            &&& m_compress(m).label.len() > 0
            &&& m_compress(m).label[0] == m.label[0]
            &&& kind_of(m_compress(m).label) == kind_of(m.label)
            &&& wf_label(m_compress(m).label)
        },
        m.label.len() == 0 ==> m_compress(m).label == m.label,
        kind_of(m.label) == Kind::Wildcard ==> m_compress(m).children.len() == 0,
    decreases m_size(m),
{
    lemma_m_wf_children(m.children);
    if mergeable(m) {
        lemma_merge_wf(m);
        lemma_merge_size(m);
        lemma_m_compress_wf(merge_step(m));
    } else {
        let cs2 = m_compress_children(m.children);
        lemma_m_compress_children(m.children);
        lemma_m_size_children(m.children);
        assert forall|j: int|
            0 <= j < m.children.len() implies m_wf(#[trigger] m_compress_children(m.children)[j])
            && cs2[j].label.len() > 0 && cs2[j].label[0] == m.children[j].label[0] && kind_of(
            cs2[j].label,
        ) == kind_of(m.children[j].label) && wf_label(cs2[j].label) && (kind_of(
            m.children[j].label,
        ) == Kind::Wildcard ==> cs2[j].children.len() == 0) by {
            assert(m_size(m.children[j]) <= m_size_children(m.children));
            assert(m_size_children(m.children) < m_size(m));
            assert(wf_label(m.children[j].label));
            lemma_m_compress_wf(m.children[j]);
        }
        let m2 = Model { label: m.label, data: m.data, children: cs2 };
        assert(wf_at(m2));
        lemma_m_wf_children(cs2);
        assert(m_wf(m2));
    }
}

/// Text form of a label: its units joined with `/`.
pub open spec fn join_label(ls: Seq<Seq<char>>) -> Seq<char>
    decreases ls.len(),
{
    if ls.len() == 0 {
        Seq::empty()
    } else if ls.len() == 1 {
        ls[0]
    } else {
        ls[0] + seq!['/'] + join_label(ls.skip(1))
    }
}

proof fn lemma_join_snoc(ls: Seq<Seq<char>>, i: int)
    requires
        0 <= i < ls.len(),
    ensures
        join_label(ls.take(i + 1)) == if i == 0 {
            ls[0]
        } else {
            join_label(ls.take(i)) + seq!['/'] + ls[i]
        },
    decreases i,
{
    if i == 0 {
        assert(ls.take(1).len() == 1);
        assert(ls.take(1)[0] == ls[0]);
    } else {
        lemma_join_snoc(ls.skip(1), i - 1);
        let a = ls.take(i + 1);
        assert(a[0] == ls[0]);
        assert(a.skip(1) =~= ls.skip(1).take(i));
        assert(ls.take(i)[0] == ls[0]);
        assert(ls.take(i).skip(1) =~= ls.skip(1).take(i - 1));
        if i == 1 {
            assert(ls.skip(1).take(1)[0] == ls[1]);
            assert(join_label(a) == ls[0] + seq!['/'] + ls[1]);
            assert(ls.take(1).len() == 1);
            assert(ls.take(1)[0] == ls[0]);
        } else {
            assert(ls.skip(1)[i - 1] == ls[i]);
            assert(join_label(a) == ls[0] + seq!['/'] + (join_label(ls.skip(1).take(i - 1))
                + seq!['/'] + ls[i]));
            assert(join_label(ls.take(i)) == ls[0] + seq!['/'] + join_label(
                ls.skip(1).take(i - 1),
            ));
            assert(ls[0] + seq!['/'] + (join_label(ls.skip(1).take(i - 1)) + seq!['/'] + ls[i])
                =~= (ls[0] + seq!['/'] + join_label(ls.skip(1).take(i - 1))) + seq!['/'] + ls[i]);
        }
    }
}

impl<T> PathTrie<T> {
    /// Collapse this node's single-child static chain, then compress
    /// every child, exactly as `m_compress` describes.
    #[verifier::loop_isolation(false)]
    #[verifier::rlimit(100)]
    fn compress_node(&mut self)
        requires
            old(self).wf(),
            old(self)@.label.len() > 0 ==> wf_label(old(self)@.label),
            kind_of(old(self)@.label) == Kind::Wildcard ==> old(self).children@.len() == 0,
        ensures
            final(self).wf(),
            final(self)@ == m_compress(old(self)@),
        decreases m_size(old(self)@),
    {
        let ghost m0 = old(self)@;
        proof {
            lemma_models_of(self.children@);
            lemma_x_inv_children(self.children@);
            lemma_m_wf_children(models_of(self.children@));
            lemma_m_compress_wf(m0);
        }
        let merge = self.children.len() == 1 && self.data.is_none() && self.kind == Kind::Static
            && self.segs.len() > 0 && self.children[0].kind == Kind::Static;
        if merge {
            proof {
                assert(m0.children[0] == model_of(self.children@[0]));
                assert(x_inv(self.children@[0]));
                assert(mergeable(m0));
                lemma_merge_wf(m0);
                lemma_merge_size(m0);
            }
            let child = self.children.remove(0);
            self.index.remove(0);
            let ghost child_snap = child;
            let mut csegs = child.segs;
            self.segs.append(&mut csegs);
            self.data = child.data;
            self.children = child.children;
            self.index = child.index;
            proof {
                assert(self.segs.deep_view() =~= m0.label + child_snap.segs.deep_view());
                assert(self@ == merge_step(m0)) by {
                    assert(models_of(self.children@) == merge_step(m0).children);
                }
                assert(x_inv(*self)) by {
                    assert(kind_of(self.segs.deep_view()) == Kind::Static) by {
                        assert(self.segs.deep_view()[0] == m0.label[0]);
                    }
                    assert(x_inv(child_snap));
                }
            }
            self.compress_node();
            return;
        }
        proof {
            assert(!mergeable(m0)) by {
                if mergeable(m0) {
                    assert(m0.children[0] == model_of(self.children@[0]));
                    assert(x_inv(self.children@[0]));
                }
            }
        }
        let n = self.children.len();
        let mut i: usize = 0;
        while i < n
            invariant
                i <= n,
                self.segs == old(self).segs,
                self.kind == old(self).kind,
                self.data == old(self).data,
                self.index@ == old(self).index@,
                self.children@.len() == n,
                forall|j: int| i <= j < n ==> self.children@[j] == old(self).children@[j],
                forall|j: int|
                    0 <= j < i ==> model_of(#[trigger] self.children@[j]) == m_compress(
                        m0.children[j],
                    ) && x_inv(self.children@[j]) && first_char_of(self.children@[j])
                        == first_char_of(old(self).children@[j]),
            decreases n - i,
        {
            proof {
                assert(self.children@[i as int] == old(self).children@[i as int]);
                assert(m0.children[i as int] == model_of(self.children@[i as int]));
                assert(x_inv(self.children@[i as int]));
                assert(m_wf(m0.children[i as int]));
                assert(wf_label(m0.children[i as int].label));
                lemma_m_size_children(m0.children);
                assert(m_size(m0.children[i as int]) <= m_size_children(m0.children));
                assert(m_size_children(m0.children) < m_size(m0));
                assert(decreases_to!(*self => self.children));
                assert(decreases_to!(self.children => self.children@));
                assert(decreases_to!(self.children@ => self.children@[i as int]));
            }
            let ghost before = self.children@[i as int]@;
            self.children[i].compress_node();
            proof {
                lemma_m_compress_wf(m0.children[i as int]);
                assert(model_of(self.children@[i as int]) == m_compress(m0.children[i as int]));
                assert(first_char_of(self.children@[i as int]) == first_char_of(
                    old(self).children@[i as int],
                )) by {
                    assert(self.children@[i as int].segs.deep_view() == model_of(
                        self.children@[i as int],
                    ).label);
                    assert(m_compress(m0.children[i as int]).label[0]
                        == m0.children[i as int].label[0]);
                }
            }
            i += 1;
        }
        proof {
            lemma_models_of(self.children@);
            lemma_x_inv_children(self.children@);
            lemma_m_compress_children(m0.children);
            assert(models_of(self.children@) =~= m_compress_children(m0.children));
            assert(self@ == m_compress(m0));
            assert(x_inv(*self)) by {
                assert forall|l: int|
                    0 <= l < self.children@.len() implies self.index@[l] == first_char_of(
                    #[trigger] self.children@[l],
                ) by {
                    assert(first_char_of(self.children@[l]) == first_char_of(
                        old(self).children@[l],
                    ));
                }
            }
        }
    }

    /// Run the compression pass over the whole trie: every chain of
    /// single-child, valueless static nodes collapses into one node.
    pub fn compress(&mut self)
        requires
            old(self).wf_root(),
        ensures
            final(self).wf_root(),
            final(self)@ == m_compress(old(self)@),
    {
        self.compress_node();
    }

    /// The children of this node, in precedence order.
    pub fn children(&self) -> (r: &Vec<PathTrie<T>>)
        ensures
            r == &self.children,
    {
        &self.children
    }

    /// The node's label as text: its segment units joined with `/`.
    #[verifier::loop_isolation(false)]
    pub fn path(&self) -> (r: String)
        ensures
            r@ == join_label(self@.label),
    {
        let mut out = String::new();
        let n = self.segs.len();
        let ghost ls = self@.label;
        let mut i: usize = 0;
        while i < n
            invariant
                i <= n,
                out@ == join_label(ls.take(i as int)),
            decreases n - i,
        {
            proof {
                lemma_join_snoc(ls, i as int);
                assert(ls[i as int] == self.segs@[i as int]@);
            }
            if i > 0 {
                out.append("/");
                proof {
                    reveal_strlit("/");
                    assert("/"@ =~= seq!['/']);
                }
            }
            out.append(self.segs[i].as_str());
            i += 1;
        }
        proof {
            assert(ls.take(n as int) =~= ls);
        }
        out
    }

    /// The value stored at this node, if any.
    pub fn data(&self) -> (r: Option<&T>)
        ensures
            match r {
                Some(v) => self@.data == Some(*v),
                None => self@.data is None,
            },
    {
        self.data.as_ref()
    }

    /// How many children this node has.
    pub fn len(&self) -> (r: usize)
        ensures
            r == self@.children.len(),
    {
        proof {
            lemma_models_of(self.children@);
        }
        self.children.len()
    }

    /// A builder that accumulates routes and compresses once at the end.
    pub fn builder() -> (b: TrieBuilder<T>)
        ensures
            b.wf(),
            b@ == (Model::<T> { label: Seq::empty(), data: None, children: Seq::empty() }),
    {
        TrieBuilder::new()
    }
}

/// Accumulates `(pattern, value)` routes into an uncompressed trie and
/// runs the compression pass once when finished.
pub struct TrieBuilder<T> {
    pub root: PathTrie<T>,
}

impl<T> View for TrieBuilder<T> {
    type V = Model<T>;

    open spec fn view(&self) -> Model<T> {
        self.root@
    }
}

impl<T> TrieBuilder<T> {
    /// The accumulated trie is a well-formed whole trie.
    pub open spec fn wf(&self) -> bool {
        self.root.wf_root()
    }

    pub fn new() -> (b: Self)
        ensures
            b.wf(),
            b@ == (Model::<T> { label: Seq::empty(), data: None, children: Seq::empty() }),
    {
        TrieBuilder { root: PathTrie::new() }
    }

    /// Insert `value` under the pattern `key`; a malformed pattern is
    /// reported and changes nothing.
    pub fn insert(&mut self, key: &str, value: T) -> (res: Result<Option<T>, PathParseError>)
        requires
            old(self).wf(),
        ensures
            final(self).wf(),
            match (res, segs::parse_m(key@)) {
                (Ok(prev), Ok(ks)) => {
                    &&& final(self)@ == m_insert(old(self)@, ks, value).0
                    &&& prev == m_insert(old(self)@, ks, value).1
                },
                (Err(e), Err(me)) => err_matches(e, me) && *final(self) == *old(self),
                _ => false,
            },
    {
        self.root.insert(key, value)
    }

    /// Compress the accumulated trie and hand it over.
    pub fn finalize(self) -> (t: PathTrie<T>)
        requires
            self.wf(),
        ensures
            t.wf_root(),
            t@ == m_compress(self@),
    {
        let mut root = self.root;
        root.compress();
        root
    }
}

/// A child whose label is exactly the next run of units: removal
/// descends these matches only.
pub open spec fn e_match<T>(c: Model<T>, ks: Seq<Seq<char>>) -> bool {
    0 < c.label.len() <= ks.len() && c.label == ks.take(c.label.len() as int)
}

/// First index at or after `i` of a child matching `ks` exactly.
pub open spec fn find_exact<T>(cs: Seq<Model<T>>, ks: Seq<Seq<char>>, i: int) -> Option<int>
    decreases cs.len() - i,
{
    if i < 0 || i >= cs.len() {
        None
    } else if e_match(cs[i], ks) {
        Some(i)
    } else {
        find_exact(cs, ks, i + 1)
    }
}

pub proof fn lemma_find_exact<T>(cs: Seq<Model<T>>, ks: Seq<Seq<char>>, i: int)
    requires
        0 <= i,
    ensures
        match find_exact(cs, ks, i) {
            Some(j) => i <= j < cs.len() && e_match(cs[j], ks) && (forall|l: int|
                i <= l < j ==> !e_match(#[trigger] cs[l], ks)),
            None => forall|l: int| i <= l < cs.len() ==> !e_match(#[trigger] cs[l], ks),
        },
    decreases cs.len() - i,
{
    if i < cs.len() && !e_match(cs[i], ks) {
        lemma_find_exact(cs, ks, i + 1);
    }
}

pub proof fn lemma_find_exact_is<T>(cs: Seq<Model<T>>, ks: Seq<Seq<char>>, j: int)
    requires
        0 <= j < cs.len(),
        e_match(cs[j], ks),
        forall|l: int| 0 <= l < j ==> !e_match(#[trigger] cs[l], ks),
    ensures
        find_exact(cs, ks, 0) == Some(j),
{
    lemma_find_exact(cs, ks, 0);
}

pub proof fn lemma_find_exact_none<T>(cs: Seq<Model<T>>, ks: Seq<Seq<char>>)
    requires
        forall|l: int| 0 <= l < cs.len() ==> !e_match(#[trigger] cs[l], ks),
    ensures
        find_exact(cs, ks, 0) is None,
{
    lemma_find_exact(cs, ks, 0);
}

/// What removal does to a subtree, and the value it removes.  The path
/// descends label-exact matches only.  At the matched node, pruning
/// detaches the whole subtree; otherwise only the stored value is
/// cleared, though a node left without children and value goes too, and
/// so, on the way back up, does every ancestor left bare.  A path that
/// matches no stored pattern changes nothing.
pub open spec fn m_remove<T>(m: Model<T>, ks: Seq<Seq<char>>, prune: bool) -> (Model<T>, Option<
    T,
>)
    decreases ks.len(),
    via m_remove_dec::<T>
{
    if ks.len() == 0 {
        if prune {
            (Model { label: m.label, data: None, children: Seq::empty() }, m.data)
        } else {
            (Model { label: m.label, data: None, children: m.children }, m.data)
        }
    } else {
        match find_exact(m.children, ks, 0) {
            None => (m, None),
            Some(i) => {
                let c = m.children[i];
                let rest = ks.skip(c.label.len() as int);
                if rest.len() == 0 {
                    if prune {
                        (
                            Model {
                                label: m.label,
                                data: m.data,
                                children: m.children.remove(i),
                            },
                            c.data,
                        )
                    } else {
                        if c.children.len() == 0 {
                            (
                                Model {
                                    label: m.label,
                                    data: m.data,
                                    children: m.children.remove(i),
                                },
                                c.data,
                            )
                        } else {
                            (
                                Model {
                                    label: m.label,
                                    data: m.data,
                                    children: m.children.update(
                                        i,
                                        Model { label: c.label, data: None, children: c.children },
                                    ),
                                },
                                c.data,
                            )
                        }
                    }
                } else {
                    let r = m_remove(c, rest, prune);
                    if r.0.children.len() == 0 && r.0.data is None {
                        (
                            Model { label: m.label, data: m.data, children: m.children.remove(i) },
                            r.1,
                        )
                    } else {
                        (
                            Model {
                                label: m.label,
                                data: m.data,
                                children: m.children.update(i, r.0),
                            },
                            r.1,
                        )
                    }
                }
            },
        }
    }
}

#[via_fn]
proof fn m_remove_dec<T>(m: Model<T>, ks: Seq<Seq<char>>, prune: bool) {
    if ks.len() > 0 {
        lemma_find_exact(m.children, ks, 0);
    }
}

/// Removing a child keeps a node well formed.
proof fn lemma_wf_remove_child<T>(m: Model<T>, i: int)
    requires
        m_wf(m),
        0 <= i < m.children.len(),
    ensures
        m_wf(Model { label: m.label, data: m.data, children: m.children.remove(i) }),
{
    let cs2 = m.children.remove(i);
    let m2 = Model { label: m.label, data: m.data, children: cs2 };
    lemma_m_wf_children(m.children);
    assert(forall|j: int| 0 <= j < i ==> #[trigger] cs2[j] == m.children[j]);
    assert forall|j: int| i <= j < cs2.len() implies #[trigger] cs2[j] == m.children[j + 1] by {}
    assert forall|j: int| 0 <= j < cs2.len() implies m_wf(#[trigger] cs2[j]) by {
        if j < i {
            assert(cs2[j] == m.children[j]);
        } else {
            assert(cs2[j] == m.children[j + 1]);
        }
    }
    lemma_m_wf_children(cs2);
    assert(wf_at(m2)) by {
        assert forall|j: int, l: int|
            #![trigger cs2[j], cs2[l]]
            0 <= j < l < cs2.len() implies prec(kind_of(cs2[j].label)) <= prec(
            kind_of(cs2[l].label),
        ) && (kind_of(cs2[j].label) != Kind::Static ==> kind_of(cs2[j].label) != kind_of(
            cs2[l].label,
        )) && (kind_of(cs2[j].label) == Kind::Static && kind_of(cs2[l].label) == Kind::Static
            ==> cs2[j].label[0] != cs2[l].label[0]) by {
            if j < i {
                assert(cs2[j] == m.children[j]);
            } else {
                assert(cs2[j] == m.children[j + 1]);
            }
            if l < i {
                assert(cs2[l] == m.children[l]);
            } else {
                assert(cs2[l] == m.children[l + 1]);
            }
        }
    }
}

/// Removal keeps a subtree well formed and never changes its label.
pub proof fn lemma_m_remove_wf<T>(m: Model<T>, ks: Seq<Seq<char>>, prune: bool)
    requires
        m_wf(m),
    ensures
        m_wf(m_remove(m, ks, prune).0),
        m_remove(m, ks, prune).0.label == m.label,
        m_remove(m, ks, prune).0.children.len() <= m.children.len(),
    decreases ks.len(),
{
    lemma_m_wf_children(m.children);
    if ks.len() == 0 {
        let m2 = m_remove(m, ks, prune).0;
        if prune {
            assert(m_wf_children(m2.children)) by {
                lemma_m_wf_children(m2.children);
            }
            assert(wf_at(m2));
        } else {
            assert(m2.children == m.children);
            assert(wf_at(m2));
        }
    } else {
        lemma_find_exact(m.children, ks, 0);
        match find_exact(m.children, ks, 0) {
            None => {},
            Some(i) => {
                let c = m.children[i];
                let rest = ks.skip(c.label.len() as int);
                if rest.len() == 0 {
                    if prune || c.children.len() == 0 {
                        lemma_wf_remove_child(m, i);
                    } else {
                        let c2 = Model { label: c.label, data: None, children: c.children };
                        assert(m_wf(c2)) by {
                            assert(wf_at(c2) == wf_at(c));
                        }
                        lemma_wf_update_same(m, i, c2);
                    }
                } else {
                    lemma_m_remove_wf(c, rest, prune);
                    let r = m_remove(c, rest, prune);
                    if r.0.children.len() == 0 && r.0.data is None {
                        lemma_wf_remove_child(m, i);
                    } else {
                        assert(wf_label(r.0.label));
                        lemma_wf_update_same(m, i, r.0);
                    }
                }
            },
        }
    }
}

impl<T> PathTrie<T> {
    /// Remove the pattern `keys[from..]` exactly as `m_remove`
    /// describes, returning the value that was stored there.
    #[verifier::loop_isolation(false)]
    #[verifier::rlimit(100)]
    fn remove_at(&mut self, keys: &Vec<String>, from: usize, prune: bool) -> (removed: Option<T>)
        requires
            old(self).wf(),
            from <= keys.len(),
        ensures
            final(self).wf(),
            final(self)@ == m_remove(old(self)@, keys.deep_view().skip(from as int), prune).0,
            removed == m_remove(old(self)@, keys.deep_view().skip(from as int), prune).1,
            final(self)@.label == old(self)@.label,
            final(self).kind == old(self).kind,
        decreases keys.len() - from,
    {
        let ghost ks = keys.deep_view().skip(from as int);
        let ghost m0 = old(self)@;
        proof {
            lemma_models_of(self.children@);
            lemma_x_inv_children(self.children@);
            lemma_m_wf_children(models_of(self.children@));
            lemma_m_remove_wf(m0, ks, prune);
        }
        if from == keys.len() {
            let removed = self.data.take();
            if prune {
                self.children = Vec::new();
                self.index = Vec::new();
            }
            proof {
                assert(ks.len() == 0);
                if prune {
                    assert(models_of(self.children@) =~= Seq::<Model<T>>::empty());
                    assert(x_inv_children(self.children@));
                }
                assert(self@ == m_remove(m0, ks, prune).0);
                assert(x_inv(*self));
            }
            return removed;
        }
        let n = self.children.len();
        let mut i: usize = 0;
        while i < n
            invariant
                i <= n,
                *self == *old(self),
                forall|l: int| 0 <= l < i ==> !e_match(#[trigger] m0.children[l], ks),
            decreases n - i,
        {
            let child = &self.children[i];
            proof {
                assert(m0.children[i as int] == model_of(*child));
                assert(x_inv(*child));
                assert(m_wf(model_of(*child)));
                assert(wf_label(model_of(*child).label));
            }
            let clen = child.segs.len();
            let rest_len = keys.len() - from;
            if clen <= rest_len {
                let sh = share_units(&self.children[i].segs, keys, from);
                let ghost c = m0.children[i as int];
                proof {
                    assert(c.label == self.children@[i as int].segs.deep_view());
                    lemma_share(c.label, ks);
                }
                if sh == clen {
                    proof {
                        assert(c.label =~= ks.take(c.label.len() as int));
                        assert(e_match(c, ks));
                        lemma_find_exact_is(m0.children, ks, i as int);
                        assert(ks.skip(c.label.len() as int) =~= keys.deep_view().skip(
                            from + sh,
                        ));
                    }
                    if from + sh == keys.len() {
                        // terminal node for the pattern
                        if prune {
                            let node = self.children.remove(i);
                            self.index.remove(i);
                            proof {
                                lemma_models_of(self.children@);
                                lemma_x_inv_children(self.children@);
                                assert(models_of(self.children@) =~= m0.children.remove(
                                    i as int,
                                )) by {
                                    assert forall|j: int|
                                        0 <= j < self.children@.len() implies models_of(
                                        self.children@,
                                    )[j] == m0.children.remove(i as int)[j] by {
                                        if j < i as int {
                                            assert(self.children@[j] == old(self).children@[j]);
                                        } else {
                                            assert(self.children@[j] == old(
                                                self,
                                            ).children@[j + 1]);
                                        }
                                    }
                                }
                                assert(self@ == m_remove(m0, ks, prune).0);
                                assert(x_inv(*self)) by {
                                    assert forall|l: int|
                                        0 <= l < self.children@.len() implies self.index@[l]
                                        == first_char_of(#[trigger] self.children@[l]) by {
                                        if l < i as int {
                                            assert(self.children@[l] == old(self).children@[l]);
                                            assert(self.index@[l] == old(self).index@[l]);
                                        } else {
                                            assert(self.children@[l] == old(
                                                self,
                                            ).children@[l + 1]);
                                            assert(self.index@[l] == old(self).index@[l + 1]);
                                        }
                                    }
                                    assert forall|l: int|
                                        0 <= l < self.children@.len() implies x_inv(
                                        #[trigger] self.children@[l],
                                    ) by {
                                        if l < i as int {
                                            assert(self.children@[l] == old(self).children@[l]);
                                        } else {
                                            assert(self.children@[l] == old(
                                                self,
                                            ).children@[l + 1]);
                                        }
                                    }
                                    lemma_x_inv_children(self.children@);
                                }
                            }
                            return node.data;
                        }
                        let removed = self.children[i].data.take();
                        if self.children[i].children.len() == 0 {
                            let node = self.children.remove(i);
                            self.index.remove(i);
                            proof {
                                lemma_models_of(self.children@);
                                lemma_x_inv_children(self.children@);
                                assert(c.children.len() == 0);
                                assert(models_of(self.children@) =~= m0.children.remove(
                                    i as int,
                                )) by {
                                    assert forall|j: int|
                                        0 <= j < self.children@.len() implies models_of(
                                        self.children@,
                                    )[j] == m0.children.remove(i as int)[j] by {
                                        if j < i as int {
                                            assert(self.children@[j] == old(self).children@[j]);
                                        } else {
                                            assert(self.children@[j] == old(
                                                self,
                                            ).children@[j + 1]);
                                        }
                                    }
                                }
                                assert(self@ == m_remove(m0, ks, prune).0);
                                assert(x_inv(*self)) by {
                                    assert forall|l: int|
                                        0 <= l < self.children@.len() implies self.index@[l]
                                        == first_char_of(#[trigger] self.children@[l]) by {
                                        if l < i as int {
                                            assert(self.children@[l] == old(self).children@[l]);
                                            assert(self.index@[l] == old(self).index@[l]);
                                        } else {
                                            assert(self.children@[l] == old(
                                                self,
                                            ).children@[l + 1]);
                                            assert(self.index@[l] == old(self).index@[l + 1]);
                                        }
                                    }
                                    assert forall|l: int|
                                        0 <= l < self.children@.len() implies x_inv(
                                        #[trigger] self.children@[l],
                                    ) by {
                                        if l < i as int {
                                            assert(self.children@[l] == old(self).children@[l]);
                                        } else {
                                            assert(self.children@[l] == old(
                                                self,
                                            ).children@[l + 1]);
                                        }
                                    }
                                    lemma_x_inv_children(self.children@);
                                }
                            }
                            return removed;
                        }
                        proof {
                            lemma_models_of(self.children@);
                            lemma_x_inv_children(self.children@);
                            assert(models_of(self.children@) =~= m0.children.update(
                                i as int,
                                Model { label: c.label, data: None, children: c.children },
                            ));
                            assert(self@ == m_remove(m0, ks, prune).0);
                            assert(x_inv(*self)) by {
                                assert forall|l: int|
                                    0 <= l < self.children@.len() implies self.index@[l]
                                    == first_char_of(#[trigger] self.children@[l]) by {
                                    if l != i as int {
                                        assert(self.children@[l] == old(self).children@[l]);
                                    } else {
                                        assert(self.children@[l].segs.deep_view() == c.label);
                                    }
                                }
                            }
                        }
                        return removed;
                    }
                    // descend
                    proof {
                        assert(decreases_to!(*self => self.children));
                        assert(decreases_to!(self.children => self.children@));
                        assert(decreases_to!(self.children@ => self.children@[i as int]));
                        assert(sh >= 1) by {
                            assert(c.label.len() >= 1);
                        }
                    }
                    let removed = self.children[i].remove_at(keys, from + sh, prune);
                    let now_bare = self.children[i].children.len() == 0 && self.children[
                        i
                    ].data.is_none();
                    let ghost r0 = model_of(self.children@[i as int]);
                    proof {
                        assert(r0 == m_remove(c, ks.skip(c.label.len() as int), prune).0);
                        assert(models_of(self.children@[i as int].children@).len()
                            == self.children@[i as int].children@.len()) by {
                            lemma_models_of(self.children@[i as int].children@);
                        }
                        assert(now_bare == (r0.children.len() == 0 && r0.data is None));
                    }
                    if now_bare {
                        let node = self.children.remove(i);
                        self.index.remove(i);
                        proof {
                            lemma_models_of(self.children@);
                            lemma_x_inv_children(self.children@);
                            assert(models_of(self.children@) =~= m0.children.remove(i as int)) by {
                                assert forall|j: int|
                                    0 <= j < self.children@.len() implies models_of(
                                    self.children@,
                                )[j] == m0.children.remove(i as int)[j] by {
                                    if j < i as int {
                                        assert(self.children@[j] == old(self).children@[j]);
                                    } else {
                                        assert(self.children@[j] == old(self).children@[j + 1]);
                                    }
                                }
                            }
                            assert(self@ == m_remove(m0, ks, prune).0);
                            assert(x_inv(*self)) by {
                                assert forall|l: int|
                                    0 <= l < self.children@.len() implies self.index@[l]
                                    == first_char_of(#[trigger] self.children@[l]) by {
                                    if l < i as int {
                                        assert(self.children@[l] == old(self).children@[l]);
                                        assert(self.index@[l] == old(self).index@[l]);
                                    } else {
                                        assert(self.children@[l] == old(self).children@[l + 1]);
                                        assert(self.index@[l] == old(self).index@[l + 1]);
                                    }
                                }
                                assert forall|l: int|
                                    0 <= l < self.children@.len() implies x_inv(
                                    #[trigger] self.children@[l],
                                ) by {
                                    if l < i as int {
                                        assert(self.children@[l] == old(self).children@[l]);
                                    } else {
                                        assert(self.children@[l] == old(self).children@[l + 1]);
                                    }
                                }
                                lemma_x_inv_children(self.children@);
                            }
                        }
                        return removed;
                    }
                    proof {
                        lemma_models_of(self.children@);
                        lemma_x_inv_children(self.children@);
                        assert(models_of(self.children@) =~= m0.children.update(i as int, r0));
                        assert(self@ == m_remove(m0, ks, prune).0);
                        assert(x_inv(*self)) by {
                            assert forall|l: int|
                                0 <= l < self.children@.len() implies self.index@[l]
                                == first_char_of(#[trigger] self.children@[l]) by {
                                if l != i as int {
                                    assert(self.children@[l] == old(self).children@[l]);
                                } else {
                                    assert(self.children@[l].segs.deep_view() == r0.label);
                                    assert(r0.label == c.label);
                                }
                            }
                        }
                    }
                    return removed;
                }
                proof {
                    assert(sh < c.label.len());
                    assert(!e_match(c, ks)) by {
                        if e_match(c, ks) {
                            assert forall|j: int| 0 <= j < c.label.len() implies c.label[j]
                                == ks[j] by {
                                assert(ks.take(c.label.len() as int)[j] == ks[j]);
                            }
                            lemma_share_unique(c.label, ks, c.label.len() as int);
                        }
                    }
                }
            } else {
                proof {
                    assert(model_of(*child).label.len() > rest_len);
                    assert(!e_match(m0.children[i as int], ks));
                }
            }
            i += 1;
        }
        proof {
            lemma_find_exact_none(m0.children, ks);
            assert(self@ == m_remove(m0, ks, prune).0);
        }
        None
    }

    /// Remove the pattern `key`, exactly as stored: with `prune` the
    /// whole subtree below it goes; without, only its value, though
    /// nodes left with neither value nor children are dropped on the
    /// way back up.  Returns the value that was stored under the
    /// pattern; an unknown or malformed pattern changes nothing.
    pub fn remove(&mut self, key: &str, prune: bool) -> (removed: Option<T>)
        requires
            old(self).wf_root(),
        ensures
            final(self).wf_root(),
            match segs::parse_m(key@) {
                Ok(ks) => {
                    &&& final(self)@ == m_remove(old(self)@, ks, prune).0
                    &&& removed == m_remove(old(self)@, ks, prune).1
                },
                Err(_) => removed is None && *final(self) == *old(self),
            },
    {
        match parse_key(key) {
            Ok(keys) => {
                proof {
                    assert(keys.deep_view().skip(0) =~= keys.deep_view());
                }
                self.remove_at(&keys, 0, prune)
            },
            Err(_) => None,
        }
    }
}

} // verus!
