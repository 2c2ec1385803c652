//! Location patterns of project files: `*` and `?` within one path component,
//! `**` across components.

use vstd::prelude::*;

verus! {

/// Whether a path component matches a component pattern (`*` any run of bytes,
/// `?` any one byte, other bytes themselves).
pub open spec fn component_match(p: Seq<u8>, v: Seq<u8>) -> bool
    decreases p.len(), v.len(),
{
    if p.len() == 0 {
        v.len() == 0
    } else if p[0] == 42u8 {
        component_match(p.drop_first(), v) || (v.len() > 0 && component_match(p, v.drop_first()))
    } else if p[0] == 63u8 {
        v.len() > 0 && component_match(p.drop_first(), v.drop_first())
    } else {
        v.len() > 0 && v[0] == p[0] && component_match(p.drop_first(), v.drop_first())
    }
}

/// Whether a component pattern has no `*`.
pub open spec fn star_free(p: Seq<u8>) -> bool {
    forall|i: int| 0 <= i < p.len() ==> p[i] != 42u8
}

/// A component pattern without `*` matches exactly the values of its own
/// length that agree with it wherever it does not hold `?`: each `?` stands
/// for exactly one byte, and every other byte for itself.
pub proof fn lemma_star_free_match(p: Seq<u8>, v: Seq<u8>)
    requires
        star_free(p),
    ensures
        component_match(p, v) <==> (v.len() == p.len() && forall|i: int|
            0 <= i < p.len() ==> p[i] == 63u8 || #[trigger] v[i] == p[i]),
    decreases p.len(),
{
    if p.len() > 0 {
        assert(star_free(p.drop_first()));
        if v.len() > 0 {
            lemma_star_free_match(p.drop_first(), v.drop_first());
            if v.len() == p.len() && forall|i: int| 0 <= i < p.len() ==> p[i] == 63u8 || #[trigger] v[i] == p[i] {
                assert forall|i: int| 0 <= i < p.len() - 1 implies p.drop_first()[i] == 63u8
                    || #[trigger] v.drop_first()[i] == p.drop_first()[i] by {
                    assert(p[i + 1] == 63u8 || v[i + 1] == p[i + 1]);
                }
            }
            if component_match(p, v) {
                assert forall|i: int| 0 <= i < p.len() implies p[i] == 63u8 || #[trigger] v[i] == p[i] by {
                    if i > 0 {
                        assert(p.drop_first()[i - 1] == 63u8 || v.drop_first()[i - 1] == p.drop_first()[i - 1]);
                    }
                }
            }
        }
    }
}

/// `*` matches every run of bytes, the empty run included.
pub proof fn lemma_star_matches_all(v: Seq<u8>)
    ensures
        component_match(seq![42u8], v),
    decreases v.len(),
{
    let star = seq![42u8];
    assert(star.len() == 1 && star[0] == 42u8);
    assert(star.drop_first() =~= Seq::<u8>::empty());
    if v.len() > 0 {
        lemma_star_matches_all(v.drop_first());
        assert(component_match(star, v.drop_first()));
    } else {
        assert(component_match(Seq::<u8>::empty(), v));
    }
}

/// The `**` component.
pub open spec fn double_star() -> Seq<u8> {
    seq![42u8, 42u8]
}

/// Whether a path (its components) matches a pattern (its components); `**`
/// matches any number of whole components.
pub open spec fn glob_match(p: Seq<Seq<u8>>, path: Seq<Seq<u8>>) -> bool
    decreases p.len(), path.len(),
{
    if p.len() == 0 {
        path.len() == 0
    } else if p[0] == double_star() {
        glob_match(p.drop_first(), path) || (path.len() > 0 && glob_match(p, path.drop_first()))
    } else {
        path.len() > 0 && component_match(p[0], path[0]) && glob_match(
            p.drop_first(),
            path.drop_first(),
        )
    }
}

fn component_from(pattern: &Vec<u8>, pi: usize, value: &Vec<u8>, vi: usize) -> (r: bool)
    requires
        pi <= pattern@.len(),
        vi <= value@.len(),
    ensures
        r == component_match(pattern@.skip(pi as int), value@.skip(vi as int)),
    decreases pattern@.len() - pi, value@.len() - vi,
{
    let ghost p = pattern@.skip(pi as int);
    let ghost v = value@.skip(vi as int);
    if pi == pattern.len() {
        vi == value.len()
    } else if pattern[pi] == 42u8 {
        assert(p.drop_first() == pattern@.skip(pi + 1));
        if component_from(pattern, pi + 1, value, vi) {
            true
        } else if vi < value.len() {
            assert(v.drop_first() == value@.skip(vi + 1));
            component_from(pattern, pi, value, vi + 1)
        } else {
            false
        }
    } else if pattern[pi] == 63u8 {
        if vi < value.len() {
            assert(p.drop_first() == pattern@.skip(pi + 1));
            assert(v.drop_first() == value@.skip(vi + 1));
            component_from(pattern, pi + 1, value, vi + 1)
        } else {
            false
        }
    } else {
        if vi < value.len() && value[vi] == pattern[pi] {
            assert(p.drop_first() == pattern@.skip(pi + 1));
            assert(v.drop_first() == value@.skip(vi + 1));
            component_from(pattern, pi + 1, value, vi + 1)
        } else {
            false
        }
    }
}

/// Whether a path component matches a component pattern.
pub fn component_matches(pattern: &Vec<u8>, value: &Vec<u8>) -> (r: bool)
    ensures
        r == component_match(pattern@, value@),
{
    assert(pattern@.skip(0) == pattern@);
    assert(value@.skip(0) == value@);
    component_from(pattern, 0, value, 0)
}

fn is_double_star(c: &Vec<u8>) -> (r: bool)
    ensures
        r == (c@ == double_star()),
{
    let r = c.len() == 2 && c[0] == 42u8 && c[1] == 42u8;
    if r {
        assert(c@ =~= double_star());
    }
    r
}

fn glob_from(pattern: &Vec<Vec<u8>>, pi: usize, path: &Vec<Vec<u8>>, vi: usize) -> (r: bool)
    requires
        pi <= pattern@.len(),
        vi <= path@.len(),
    ensures
        r == glob_match(
            pattern@.skip(pi as int).map_values(|c: Vec<u8>| c@),
            path@.skip(vi as int).map_values(|c: Vec<u8>| c@),
        ),
    decreases pattern@.len() - pi, path@.len() - vi,
{
    let ghost p = pattern@.skip(pi as int).map_values(|c: Vec<u8>| c@);
    let ghost v = path@.skip(vi as int).map_values(|c: Vec<u8>| c@);
    if pi == pattern.len() {
        vi == path.len()
    } else if is_double_star(&pattern[pi]) {
        assert(p.drop_first() =~= pattern@.skip(pi + 1).map_values(|c: Vec<u8>| c@));
        if glob_from(pattern, pi + 1, path, vi) {
            true
        } else if vi < path.len() {
            assert(v.drop_first() =~= path@.skip(vi + 1).map_values(|c: Vec<u8>| c@));
            glob_from(pattern, pi, path, vi + 1)
        } else {
            false
        }
    } else {
        if vi < path.len() && component_matches(&pattern[pi], &path[vi]) {
            assert(p.drop_first() =~= pattern@.skip(pi + 1).map_values(|c: Vec<u8>| c@));
            assert(v.drop_first() =~= path@.skip(vi + 1).map_values(|c: Vec<u8>| c@));
            glob_from(pattern, pi + 1, path, vi + 1)
        } else {
            false
        }
    }
}

/// Whether a path matches a location pattern, both given as components.
pub fn glob_matches(pattern: &Vec<Vec<u8>>, path: &Vec<Vec<u8>>) -> (r: bool)
    ensures
        r == glob_match(
            pattern@.map_values(|c: Vec<u8>| c@),
            path@.map_values(|c: Vec<u8>| c@),
        ),
{
    assert(pattern@.skip(0) == pattern@);
    assert(path@.skip(0) == path@);
    glob_from(pattern, 0, path, 0)
}

} // verus!

verus! {

/// Whether a component is kept when splitting a location: empty and `.`
/// components are dropped.
pub open spec fn kept(c: Seq<u8>) -> bool {
    c.len() > 0 && c != seq![46u8]
}

/// The component list `cur` contributes once it is complete.
pub open spec fn finish(cur: Seq<u8>) -> Seq<Seq<u8>> {
    if kept(cur) {
        seq![cur]
    } else {
        seq![]
    }
}

/// The kept components of `s`, given that the current component so far is `cur`.
pub open spec fn comps_from(s: Seq<u8>, cur: Seq<u8>) -> Seq<Seq<u8>>
    decreases s.len(),
{
    if s.len() == 0 {
        finish(cur)
    } else if s[0] == 47u8 {
        finish(cur) + comps_from(s.drop_first(), seq![])
    } else {
        comps_from(s.drop_first(), cur.push(s[0]))
    }
}

/// The components of a slash-separated path, without empty and `.` components.
pub open spec fn components(s: Seq<u8>) -> Seq<Seq<u8>> {
    comps_from(s, seq![])
}

fn is_kept(c: &Vec<u8>) -> (r: bool)
    ensures
        r == kept(c@),
{
    if c.len() == 0 {
        false
    } else if c.len() == 1 && c[0] == 46u8 {
        assert(c@ =~= seq![46u8]);
        false
    } else {
        assert(c@ != seq![46u8]) by {
            if c@.len() == 1 {
                assert(c@[0] != seq![46u8][0]);
            }
        }
        true
    }
}

/// Splits a slash-separated path into its kept components.
pub fn split_components(s: &[u8]) -> (r: Vec<Vec<u8>>)
    ensures
        r@.map_values(|c: Vec<u8>| c@) == components(s@),
{
    let mut out: Vec<Vec<u8>> = Vec::new();
    let mut cur: Vec<u8> = Vec::new();
    let mut i: usize = 0;
    assert(s@.skip(0) == s@);
    while i < s.len()
        invariant
            i <= s.len(),
            out@.map_values(|c: Vec<u8>| c@) + comps_from(s@.skip(i as int), cur@) == components(
                s@,
            ),
        decreases s.len() - i,
    {
        let ghost rest = s@.skip(i as int);
        assert(rest.drop_first() == s@.skip(i + 1));
        let b = s[i];
        if b == 47u8 {
            let ghost before = out@.map_values(|c: Vec<u8>| c@);
            if is_kept(&cur) {
                out.push(cur);
                assert(out@.map_values(|c: Vec<u8>| c@) =~= before + finish(cur@));
            } else {
                assert(before + finish(cur@) =~= before);
            }
            cur = Vec::new();
            assert(out@.map_values(|c: Vec<u8>| c@) + comps_from(s@.skip(i + 1), cur@)
                =~= before + (finish(cur@) + comps_from(s@.skip(i + 1), seq![])) || true);
        } else {
            cur.push(b);
        }
        i += 1;
    }
    let ghost before = out@.map_values(|c: Vec<u8>| c@);
    assert(s@.skip(i as int) =~= Seq::<u8>::empty());
    if is_kept(&cur) {
        out.push(cur);
        assert(out@.map_values(|c: Vec<u8>| c@) =~= before + finish(cur@));
    } else {
        assert(before + finish(cur@) =~= before);
    }
    out
}

} // verus!

verus! {

/// Byte-wise lexicographic order (the order of path components).
pub open spec fn bytes_less(a: Seq<u8>, b: Seq<u8>) -> bool
    decreases a.len(),
{
    if a.len() == 0 {
        b.len() > 0
    } else if b.len() == 0 {
        false
    } else if a[0] != b[0] {
        a[0] < b[0]
    } else {
        bytes_less(a.drop_first(), b.drop_first())
    }
}

/// Component-wise lexicographic order of paths (the order of `Path`).
pub open spec fn path_less(a: Seq<Seq<u8>>, b: Seq<Seq<u8>>) -> bool
    decreases a.len(),
{
    if a.len() == 0 {
        b.len() > 0
    } else if b.len() == 0 {
        false
    } else if a[0] != b[0] {
        bytes_less(a[0], b[0])
    } else {
        path_less(a.drop_first(), b.drop_first())
    }
}

pub proof fn lemma_bytes_less_trans(a: Seq<u8>, b: Seq<u8>, c: Seq<u8>)
    requires
        bytes_less(a, b),
        bytes_less(b, c),
    ensures
        bytes_less(a, c),
    decreases a.len(),
{
    if a.len() > 0 && b.len() > 0 && c.len() > 0 && a[0] == b[0] && b[0] == c[0] {
        lemma_bytes_less_trans(a.drop_first(), b.drop_first(), c.drop_first());
    }
}

pub proof fn lemma_bytes_less_total(a: Seq<u8>, b: Seq<u8>)
    ensures
        a =~= b || bytes_less(a, b) || bytes_less(b, a),
    decreases a.len(),
{
    if a.len() > 0 && b.len() > 0 && a[0] == b[0] {
        lemma_bytes_less_total(a.drop_first(), b.drop_first());
        if a.drop_first() =~= b.drop_first() {
            assert(a =~= seq![a[0]] + a.drop_first());
            assert(b =~= seq![b[0]] + b.drop_first());
        }
    }
}

pub proof fn lemma_bytes_less_irrefl(a: Seq<u8>)
    ensures
        !bytes_less(a, a),
    decreases a.len(),
{
    if a.len() > 0 {
        lemma_bytes_less_irrefl(a.drop_first());
    }
}

pub proof fn lemma_path_less_trans(a: Seq<Seq<u8>>, b: Seq<Seq<u8>>, c: Seq<Seq<u8>>)
    requires
        path_less(a, b),
        path_less(b, c),
    ensures
        path_less(a, c),
    decreases a.len(),
{
    if a.len() > 0 && b.len() > 0 && c.len() > 0 {
        if a[0] == b[0] && b[0] == c[0] {
            lemma_path_less_trans(a.drop_first(), b.drop_first(), c.drop_first());
        } else if a[0] != b[0] && b[0] != c[0] {
            lemma_bytes_less_trans(a[0], b[0], c[0]);
            if a[0] == c[0] {
                lemma_bytes_less_irrefl(a[0]);
            }
        }
    }
}

pub proof fn lemma_path_less_total(a: Seq<Seq<u8>>, b: Seq<Seq<u8>>)
    ensures
        a =~= b || path_less(a, b) || path_less(b, a),
    decreases a.len(),
{
    if a.len() > 0 && b.len() > 0 {
        if a[0] == b[0] {
            lemma_path_less_total(a.drop_first(), b.drop_first());
            if a.drop_first() =~= b.drop_first() {
                assert(a =~= seq![a[0]] + a.drop_first());
                assert(b =~= seq![b[0]] + b.drop_first());
            }
        } else {
            lemma_bytes_less_total(a[0], b[0]);
        }
    }
}

pub proof fn lemma_path_less_irrefl(a: Seq<Seq<u8>>)
    ensures
        !path_less(a, a),
    decreases a.len(),
{
    if a.len() > 0 {
        lemma_path_less_irrefl(a.drop_first());
    }
}

fn bytes_lt(a: &Vec<u8>, b: &Vec<u8>) -> (r: bool)
    ensures
        r == bytes_less(a@, b@),
{
    let mut i: usize = 0;
    assert(a@.skip(0) =~= a@);
    assert(b@.skip(0) =~= b@);
    while i < a.len() && i < b.len() && a[i] == b[i]
        invariant
            i <= a.len(),
            i <= b.len(),
            bytes_less(a@, b@) == bytes_less(a@.skip(i as int), b@.skip(i as int)),
        decreases a.len() - i,
    {
        assert(a@.skip(i as int).drop_first() =~= a@.skip(i + 1));
        assert(b@.skip(i as int).drop_first() =~= b@.skip(i + 1));
        i += 1;
    }
    if i == a.len() {
        i < b.len()
    } else if i == b.len() {
        false
    } else {
        a[i] < b[i]
    }
}

fn bytes_eq(a: &Vec<u8>, b: &Vec<u8>) -> (r: bool)
    ensures
        r == (a@ == b@),
{
    if a.len() != b.len() {
        return false;
    }
    let mut i: usize = 0;
    while i < a.len()
        invariant
            a.len() == b.len(),
            i <= a.len(),
            forall|j: int| 0 <= j < i ==> a@[j] == b@[j],
        decreases a.len() - i,
    {
        if a[i] != b[i] {
            return false;
        }
        i += 1;
    }
    assert(a@ =~= b@);
    true
}

/// The order of paths given by their components.
pub fn path_lt(a: &Vec<Vec<u8>>, b: &Vec<Vec<u8>>) -> (r: bool)
    ensures
        r == path_less(a@.map_values(|c: Vec<u8>| c@), b@.map_values(|c: Vec<u8>| c@)),
{
    let ghost av = a@.map_values(|c: Vec<u8>| c@);
    let ghost bv = b@.map_values(|c: Vec<u8>| c@);
    let mut i: usize = 0;
    assert(av.skip(0) =~= av);
    assert(bv.skip(0) =~= bv);
    while i < a.len() && i < b.len() && bytes_eq(&a[i], &b[i])
        invariant
            i <= a.len(),
            i <= b.len(),
            av == a@.map_values(|c: Vec<u8>| c@),
            bv == b@.map_values(|c: Vec<u8>| c@),
            path_less(av, bv) == path_less(av.skip(i as int), bv.skip(i as int)),
        decreases a.len() - i,
    {
        assert(av.skip(i as int).drop_first() =~= av.skip(i + 1));
        assert(bv.skip(i as int).drop_first() =~= bv.skip(i + 1));
        i += 1;
    }
    if i == a.len() {
        i < b.len()
    } else if i == b.len() {
        false
    } else {
        bytes_lt(&a[i], &b[i])
    }
}

/// Equality of paths given by their components.
pub fn path_eq(a: &Vec<Vec<u8>>, b: &Vec<Vec<u8>>) -> (r: bool)
    ensures
        r == (a@.map_values(|c: Vec<u8>| c@) == b@.map_values(|c: Vec<u8>| c@)),
{
    if a.len() != b.len() {
        return false;
    }
    let mut i: usize = 0;
    while i < a.len()
        invariant
            a.len() == b.len(),
            i <= a.len(),
            forall|j: int| 0 <= j < i ==> a@[j]@ == b@[j]@,
        decreases a.len() - i,
    {
        if !bytes_eq(&a[i], &b[i]) {
            assert(a@.map_values(|c: Vec<u8>| c@)[i as int] != b@.map_values(|c: Vec<u8>| c@)[i as int]);
            return false;
        }
        i += 1;
    }
    assert(a@.map_values(|c: Vec<u8>| c@) =~= b@.map_values(|c: Vec<u8>| c@));
    true
}

} // verus!
