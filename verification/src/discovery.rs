//! Finding a project's source files from the locations its project file
//! declares: relative glob patterns (`*`, `?` within a component, `**` for any
//! number of directories) matched against the files under the project root.

use vstd::prelude::*;

use crate::errors::ForgeError;
use crate::glob::{
    components, glob_match, glob_matches, lemma_path_less_irrefl, lemma_path_less_total,
    lemma_path_less_trans, path_eq, path_less, path_lt, split_components,
};
use crate::paths::{extension_of, path_extension};
use crate::text::{append, blank, chars_of, concat, is_blank, push_char, str_eq};
use vstd::utf8::encode_utf8;

verus! {

/// The files and directories under a project root, each named by its path
/// relative to the root with `/` between components. The files are the
/// regular files met by walking the root's directories; the directories are
/// those directories.
pub struct SourceTree {
    pub files: Vec<String>,
    pub dirs: Vec<String>,
}

/// A path's components as bytes, without empty and `.` components.
pub open spec fn comps_of(path: Seq<char>) -> Seq<Seq<u8>> {
    components(encode_utf8(path))
}

/// Whether a path names a ForgeLang source file.
pub open spec fn is_anvil(path: Seq<char>) -> bool {
    path_extension(path) == Some("anvil"@)
}

/// A location with backslashes read as slashes.
pub open spec fn normalized(p: Seq<char>) -> Seq<char> {
    p.map_values(|c: char| if c == '\\' { '/' } else { c })
}

/// Whether a `..` component starts at `i` of a slash-separated path.
pub open spec fn parent_at(p: Seq<char>, i: int) -> bool {
    &&& 0 <= i && i + 2 <= p.len()
    &&& p[i] == '.' && p[i + 1] == '.'
    &&& (i == 0 || p[i - 1] == '/')
    &&& (i + 2 == p.len() || p[i + 2] == '/')
}

/// Whether a (normalised) location is refused: blank, holding NUL,
/// absolute, climbing out of the root, or using `[`, `]`, `{` or `}`.
pub open spec fn location_invalid(p: Seq<char>) -> bool {
    ||| is_blank(p)
    ||| p.contains('\0')
    ||| (p.len() > 0 && p[0] == '/')
    ||| (exists|i: int| parent_at(p, i))
    ||| p.contains('[')
    ||| p.contains(']')
    ||| p.contains('{')
    ||| p.contains('}')
}

/// Whether a pattern component holds a wildcard.
pub open spec fn is_wild(c: Seq<u8>) -> bool {
    c.contains(42u8) || c.contains(63u8)
}

/// The number of leading pattern components without wildcards.
pub open spec fn literal_prefix(c: Seq<Seq<u8>>) -> int
    decreases c.len(),
{
    if c.len() == 0 {
        0
    } else if is_wild(c[0]) {
        0
    } else {
        1 + literal_prefix(c.drop_first())
    }
}

/// Whether some file of the tree has components `c`.
pub open spec fn file_at(files: Seq<Seq<char>>, c: Seq<Seq<u8>>) -> bool {
    exists|i: int| 0 <= i < files.len() && comps_of(files[i]) == c
}

/// Whether some source file of the tree has components `c`.
pub open spec fn source_at(files: Seq<Seq<char>>, c: Seq<Seq<u8>>) -> bool {
    exists|i: int| 0 <= i < files.len() && comps_of(files[i]) == c && is_anvil(files[i])
}

/// Whether a directory with components `d` exists (the root always does).
pub open spec fn dir_at(dirs: Seq<Seq<char>>, d: Seq<Seq<u8>>) -> bool {
    d.len() == 0 || exists|j: int| 0 <= j < dirs.len() && comps_of(dirs[j]) == d
}

/// The source files a pattern matches.
pub open spec fn matched(files: Seq<Seq<char>>, c: Seq<Seq<u8>>) -> Set<Seq<Seq<u8>>> {
    Set::new(|x: Seq<Seq<u8>>| source_at(files, x) && glob_match(c, x))
}

/// The files found after one more location, or the error it gives.
pub open spec fn location_step(
    files: Seq<Seq<char>>,
    dirs: Seq<Seq<char>>,
    p: Seq<char>,
    found: Set<Seq<Seq<u8>>>,
) -> Result<Set<Seq<Seq<u8>>>, Seq<char>> {
    let q = normalized(p);
    if location_invalid(q) {
        Err("invalid location '"@ + q + "'"@)
    } else {
        let c = comps_of(q);
        let k = literal_prefix(c);
        let added: Option<Set<Seq<Seq<u8>>>> = if k == c.len() && file_at(files, c) {
            Some(
                if source_at(files, c) {
                    set![c]
                } else {
                    Set::empty()
                },
            )
        } else {
            let d = if k < c.len() {
                c.take(k)
            } else if c.len() > 0 {
                c.take(c.len() - 1)
            } else {
                c
            };
            if dir_at(dirs, d) {
                Some(matched(files, c))
            } else {
                None
            }
        };
        match added {
            None => Err("referenced directory does not exist for location '"@ + p + "'"@),
            Some(a) => {
                let all = found.union(a);
                if exists|x: Seq<Seq<u8>>| all.contains(x) && glob_match(c, x) {
                    Ok(all)
                } else {
                    Err("no Sydrogen source files matched '"@ + p + "'"@)
                }
            },
        }
    }
}

/// The files found by the first `n` locations, or the first error.
pub open spec fn discovered(
    files: Seq<Seq<char>>,
    dirs: Seq<Seq<char>>,
    pats: Seq<Seq<char>>,
    n: nat,
) -> Result<Set<Seq<Seq<u8>>>, Seq<char>>
    decreases n,
{
    if n == 0 {
        Ok(Set::empty())
    } else {
        match discovered(files, dirs, pats, (n - 1) as nat) {
            Err(m) => Err(m),
            Ok(found) => location_step(files, dirs, pats[n - 1], found),
        }
    }
}

/// Texts as plain values.
pub open spec fn texts(v: Seq<String>) -> Seq<Seq<char>> {
    v.map_values(|s: String| s@)
}

/// Paths given by components, as plain values.
pub open spec fn comp_lists(v: Seq<Vec<Vec<u8>>>) -> Seq<Seq<Seq<u8>>> {
    v.map_values(|p: Vec<Vec<u8>>| p@.map_values(|c: Vec<u8>| c@))
}

/// Whether paths are in strictly increasing path order.
pub open spec fn strictly_sorted(s: Seq<Seq<Seq<u8>>>) -> bool {
    forall|i: int, j: int| 0 <= i < j < s.len() ==> path_less(s[i], s[j])
}

proof fn lemma_error_stays(
    files: Seq<Seq<char>>,
    dirs: Seq<Seq<char>>,
    pats: Seq<Seq<char>>,
    n: nat,
    k: nat,
    m: Seq<char>,
)
    requires
        n <= k,
        discovered(files, dirs, pats, n) == Err::<Set<Seq<Seq<u8>>>, Seq<char>>(m),
    ensures
        discovered(files, dirs, pats, k) == Err::<Set<Seq<Seq<u8>>>, Seq<char>>(m),
    decreases k,
{
    if n < k {
        lemma_error_stays(files, dirs, pats, n, (k - 1) as nat, m);
    }
}

/// A location with backslashes read as slashes.
fn normalize(p: &str) -> (r: String)
    ensures
        r@ == normalized(p@),
{
    let cs = chars_of(p);
    let mut r = String::new();
    let mut i: usize = 0;
    while i < cs.len()
        invariant
            i <= cs@.len(),
            cs@ == p@,
            r@ == normalized(p@).take(i as int),
        decreases cs.len() - i,
    {
        let c = cs[i];
        push_char(&mut r, if c == '\\' { '/' } else { c });
        assert(normalized(p@).take(i + 1) =~= normalized(p@).take(i as int).push(
            normalized(p@)[i as int],
        ));
        i += 1;
    }
    assert(normalized(p@).take(cs@.len() as int) =~= normalized(p@));
    r
}

/// Whether a normalised location is refused.
fn invalid_location(q: &str) -> (b: bool)
    ensures
        b == location_invalid(q@),
{
    if blank(q) {
        return true;
    }
    let cs = chars_of(q);
    let n = cs.len();
    if n > 0 && cs[0] == '/' {
        return true;
    }
    let mut i: usize = 0;
    while i < n
        invariant
            n == cs@.len(),
            cs@ == q@,
            i <= n,
            forall|j: int|
                0 <= j < i ==> cs@[j] != '\0' && cs@[j] != '[' && cs@[j] != ']' && cs@[j] != '{'
                    && cs@[j] != '}',
            forall|j: int| 0 <= j < i ==> !parent_at(cs@, j),
        decreases n - i,
    {
        let c = cs[i];
        if c == '\0' || c == '[' || c == ']' || c == '{' || c == '}' {
            assert(q@[i as int] == c);
            return true;
        }
        if c == '.' && i + 1 < n && cs[i + 1] == '.' && (i == 0 || cs[i - 1] == '/') && (i + 2 == n
            || cs[i + 2] == '/') {
            assert(parent_at(q@, i as int));
            return true;
        }
        i += 1;
    }
    proof {
        assert(!q@.contains('\0'));
        assert(!q@.contains('['));
        assert(!q@.contains(']'));
        assert(!q@.contains('{'));
        assert(!q@.contains('}'));
        assert forall|j: int| !parent_at(q@, j) by {
            if 0 <= j < n {
                assert(!parent_at(cs@, j));
            }
        }
    }
    false
}

/// Checks a (normalised) location: it must not be blank, hold NUL, be
/// absolute, climb out of the root, or use `[`, `]`, `{` or `}`.
pub fn validate_location(pattern: &str) -> (r: Result<(), ForgeError>)
    ensures
        match r {
            Ok(()) => !location_invalid(pattern@),
            Err(e) => location_invalid(pattern@) && e.message@ == "invalid location '"@ + pattern@
                + "'"@ && e.line == 0 && e.col == 0,
        },
{
    if invalid_location(pattern) {
        let mut m = concat("invalid location '", pattern);
        append(&mut m, "'");
        return Err(ForgeError::parse(m));
    }
    Ok(())
}

/// Whether a pattern component holds a wildcard.
fn wild(c: &Vec<u8>) -> (b: bool)
    ensures
        b == is_wild(c@),
{
    let mut i: usize = 0;
    while i < c.len()
        invariant
            i <= c@.len(),
            forall|j: int| 0 <= j < i ==> c@[j] != 42u8 && c@[j] != 63u8,
        decreases c.len() - i,
    {
        if c[i] == 42u8 || c[i] == 63u8 {
            assert(c@[i as int] == c[i as int]);
            return true;
        }
        i += 1;
    }
    false
}

/// The number of leading pattern components without wildcards.
fn literal_prefix_len(c: &Vec<Vec<u8>>) -> (k: usize)
    ensures
        k == literal_prefix(c@.map_values(|x: Vec<u8>| x@)),
{
    let ghost cv = c@.map_values(|x: Vec<u8>| x@);
    let mut k: usize = 0;
    assert(cv.skip(0) =~= cv);
    while k < c.len() && !wild(&c[k])
        invariant
            k <= c@.len(),
            cv == c@.map_values(|x: Vec<u8>| x@),
            literal_prefix(cv) == k + literal_prefix(cv.skip(k as int)),
        decreases c.len() - k,
    {
        assert(cv.skip(k as int).drop_first() =~= cv.skip(k + 1));
        assert(cv.skip(k as int)[0] == c@[k as int]@);
        k += 1;
    }
    proof {
        if k < c@.len() {
            assert(cv.skip(k as int)[0] == c@[k as int]@);
        } else {
            assert(cv.skip(k as int).len() == 0);
        }
    }
    k
}

/// A copy of a byte string.
fn copy_bytes(v: &Vec<u8>) -> (r: Vec<u8>)
    ensures
        r@ == v@,
{
    let mut r: Vec<u8> = Vec::new();
    let mut i: usize = 0;
    while i < v.len()
        invariant
            i <= v@.len(),
            r@ == v@.take(i as int),
        decreases v.len() - i,
    {
        r.push(v[i]);
        assert(r@ =~= v@.take(i + 1));
        i += 1;
    }
    assert(v@.take(v@.len() as int) =~= v@);
    r
}

/// A copy of a path given by components.
fn copy_comps(c: &Vec<Vec<u8>>) -> (r: Vec<Vec<u8>>)
    ensures
        r@.map_values(|x: Vec<u8>| x@) == c@.map_values(|x: Vec<u8>| x@),
{
    let mut r: Vec<Vec<u8>> = Vec::new();
    let mut i: usize = 0;
    while i < c.len()
        invariant
            i <= c@.len(),
            r@.map_values(|x: Vec<u8>| x@) == c@.take(i as int).map_values(|x: Vec<u8>| x@),
        decreases c.len() - i,
    {
        let x = copy_bytes(&c[i]);
        let ghost before = r@;
        r.push(x);
        proof {
            assert(x@ == c@[i as int]@);
            assert(r@.map_values(|x: Vec<u8>| x@) =~= before.map_values(|x: Vec<u8>| x@).push(x@));
            assert(r@.map_values(|x: Vec<u8>| x@) =~= c@.take(i + 1).map_values(|x: Vec<u8>| x@));
        }
        i += 1;
    }
    assert(c@.take(c@.len() as int) =~= c@);
    r
}

/// The first `k` components of a path.
fn prefix_comps(c: &Vec<Vec<u8>>, k: usize) -> (r: Vec<Vec<u8>>)
    requires
        k <= c@.len(),
    ensures
        r@.map_values(|x: Vec<u8>| x@) == c@.map_values(|x: Vec<u8>| x@).take(k as int),
{
    let mut r: Vec<Vec<u8>> = Vec::new();
    let mut i: usize = 0;
    while i < k
        invariant
            i <= k <= c@.len(),
            r@.map_values(|x: Vec<u8>| x@) == c@.map_values(|x: Vec<u8>| x@).take(i as int),
        decreases k - i,
    {
        let x = copy_bytes(&c[i]);
        let ghost before = r@;
        r.push(x);
        proof {
            assert(x@ == c@[i as int]@);
            assert(r@.map_values(|x: Vec<u8>| x@) =~= before.map_values(|x: Vec<u8>| x@).push(x@));
            assert(r@.map_values(|x: Vec<u8>| x@) =~= c@.map_values(|x: Vec<u8>| x@).take(i + 1));
        }
        i += 1;
    }
    r
}

/// Whether `(c, p)` is one of the entries of parallel lists.
pub open spec fn entry_in(c: Seq<Seq<u8>>, p: String, cs: Seq<Seq<Seq<u8>>>, ps: Seq<String>) -> bool {
    exists|k: int| 0 <= k < cs.len() && k < ps.len() && cs[k] == c && ps[k] == p
}

/// Inserts a path into a strictly sorted list unless it is there already.
fn insert_sorted(
    found: &mut Vec<Vec<Vec<u8>>>,
    paths: &mut Vec<String>,
    x: Vec<Vec<u8>>,
    path: String,
)
    requires
        old(found)@.len() == old(paths)@.len(),
        strictly_sorted(comp_lists(old(found)@)),
    ensures
        final(found)@.len() == final(paths)@.len(),
        strictly_sorted(comp_lists(final(found)@)),
        comp_lists(final(found)@).to_set() == comp_lists(old(found)@).to_set().insert(
            x@.map_values(|c: Vec<u8>| c@),
        ),
        forall|j: int|
            0 <= j < final(found)@.len() ==> entry_in(
                #[trigger] comp_lists(final(found)@)[j],
                final(paths)@[j],
                comp_lists(old(found)@),
                old(paths)@,
            ) || (comp_lists(final(found)@)[j] == x@.map_values(|c: Vec<u8>| c@)
                && final(paths)@[j] == path),
{
    let ghost xv = x@.map_values(|c: Vec<u8>| c@);
    let ghost before = comp_lists(found@);
    let ghost before_paths = paths@;
    let mut i: usize = 0;
    while i < found.len() && path_lt(&found[i], &x)
        invariant
            i <= found@.len(),
            before == comp_lists(found@),
            xv == x@.map_values(|c: Vec<u8>| c@),
            forall|j: int| 0 <= j < i ==> path_less(before[j], xv),
        decreases found.len() - i,
    {
        assert(before[i as int] == found@[i as int]@.map_values(|c: Vec<u8>| c@));
        i += 1;
    }
    if i < found.len() && path_eq(&found[i], &x) {
        proof {
            assert(before[i as int] == xv);
            assert(before.to_set().insert(xv) =~= before.to_set());
            assert forall|j: int| 0 <= j < found@.len() implies entry_in(
                #[trigger] comp_lists(found@)[j],
                paths@[j],
                before,
                before_paths,
            ) || (comp_lists(found@)[j] == xv && paths@[j] == path) by {
                assert(comp_lists(found@)[j] == before[j] && paths@[j] == before_paths[j]);
            }
        }
        return;
    }
    proof {
        if i < found@.len() {
            assert(before[i as int] == found@[i as int]@.map_values(|c: Vec<u8>| c@));
            lemma_path_less_total(before[i as int], xv);
        }
    }
    found.insert(i, x);
    paths.insert(i, path);
    proof {
        let after = comp_lists(found@);
        assert(after =~= before.insert(i as int, xv));
        assert forall|a: int, b: int| 0 <= a < b < after.len() implies path_less(after[a], after[b]) by {
            if b < i {
            } else if a < i && b == i {
            } else if a < i && b > i {
                assert(after[a] == before[a] && after[b] == before[b - 1]);
            } else if a == i {
                if b - 1 > i {
                    lemma_path_less_trans(xv, before[i as int], before[b - 1]);
                }
            } else {
            }
        }
        assert(after.to_set() =~= before.to_set().insert(xv)) by {
            assert forall|y: Seq<Seq<u8>>| after.to_set().contains(y) implies before.to_set().insert(
                xv,
            ).contains(y) by {
                let w = choose|w: int| 0 <= w < after.len() && after[w] == y;
                if w < i {
                    assert(before[w] == y);
                } else if w > i {
                    assert(before[w - 1] == y);
                }
            }
            assert forall|y: Seq<Seq<u8>>| before.to_set().insert(xv).contains(y) implies after.to_set().contains(
                y,
            ) by {
                if y == xv {
                    assert(after[i as int] == xv);
                } else {
                    let w = choose|w: int| 0 <= w < before.len() && before[w] == y;
                    if w < i {
                        assert(after[w] == y);
                    } else {
                        assert(after[w + 1] == y);
                    }
                }
            }
        }
        assert forall|j: int| 0 <= j < found@.len() implies entry_in(
            #[trigger] comp_lists(found@)[j],
            paths@[j],
            before,
            before_paths,
        ) || (comp_lists(found@)[j] == xv && paths@[j] == path) by {
            if j < i {
                assert(comp_lists(found@)[j] == before[j] && paths@[j] == before_paths[j]);
            } else if j > i {
                assert(comp_lists(found@)[j] == before[j - 1] && paths@[j] == before_paths[j - 1]);
            }
        }
    }
}

/// The source files, with paths as plain values, that `n` files of a tree
/// give among those matching `c`.
pub open spec fn matched_upto(files: Seq<Seq<char>>, c: Seq<Seq<u8>>, n: int) -> Set<Seq<Seq<u8>>> {
    Set::new(
        |x: Seq<Seq<u8>>|
            exists|i: int|
                0 <= i < n && comps_of(files[i]) == x && is_anvil(files[i]) && glob_match(c, x),
    )
}

/// Whether a found path is one of the tree's source files.
pub open spec fn tree_source(files: Seq<Seq<char>>, f: Seq<char>) -> bool {
    exists|i: int| 0 <= i < files.len() && files[i] == f && is_anvil(f)
}

/// The components of each path of a list.
fn comps_of_all(v: &Vec<String>) -> (r: Vec<Vec<Vec<u8>>>)
    ensures
        r@.len() == v@.len(),
        forall|i: int| 0 <= i < v@.len() ==> (#[trigger] comp_lists(r@)[i]) == comps_of(v@[i]@),
{
    let mut r: Vec<Vec<Vec<u8>>> = Vec::new();
    let mut i: usize = 0;
    while i < v.len()
        invariant
            i <= v@.len(),
            r@.len() == i,
            forall|j: int| 0 <= j < i ==> (#[trigger] comp_lists(r@)[j]) == comps_of(v@[j]@),
        decreases v.len() - i,
    {
        let b = v[i].as_str().as_bytes();
        assert(b@ == encode_utf8(v@[i as int]@));
        let c = split_components(b);
        let ghost before = r@;
        r.push(c);
        proof {
            assert(comp_lists(r@)[i as int] == c@.map_values(|x: Vec<u8>| x@));
            assert(components(b@) == comps_of(v@[i as int]@));
            assert forall|j: int| 0 <= j < i + 1 implies (#[trigger] comp_lists(r@)[j]) == comps_of(v@[j]@) by {
                if j < i {
                    assert(r@[j] == before[j]);
                    assert(comp_lists(r@)[j] == comp_lists(before)[j]);
                }
            }
        }
        i += 1;
    }
    r
}

/// Whether each path of a list names a ForgeLang source file.
fn anvil_flags(v: &Vec<String>) -> (r: Vec<bool>)
    ensures
        r@.len() == v@.len(),
        forall|i: int| 0 <= i < v@.len() ==> r@[i] == is_anvil(v@[i]@),
{
    let mut r: Vec<bool> = Vec::new();
    let mut i: usize = 0;
    while i < v.len()
        invariant
            i <= v@.len(),
            r@.len() == i,
            forall|j: int| 0 <= j < i ==> r@[j] == is_anvil(v@[j]@),
        decreases v.len() - i,
    {
        let flag = match extension_of(v[i].as_str()) {
            Some(e) => str_eq(e.as_str(), "anvil"),
            None => false,
        };
        r.push(flag);
        i += 1;
    }
    r
}

/// The position of a path with components `c` in a list, if any.
fn position_of(list: &Vec<Vec<Vec<u8>>>, c: &Vec<Vec<u8>>) -> (r: Option<usize>)
    ensures
        match r {
            Some(i) => i < list@.len() && comp_lists(list@)[i as int] == c@.map_values(|x: Vec<u8>| x@),
            None => forall|i: int| 0 <= i < list@.len() ==> (#[trigger] comp_lists(list@)[i]) != c@.map_values(
                |x: Vec<u8>| x@,
            ),
        },
{
    let mut i: usize = 0;
    while i < list.len()
        invariant
            i <= list@.len(),
            forall|j: int| 0 <= j < i ==> (#[trigger] comp_lists(list@)[j]) != c@.map_values(|x: Vec<u8>| x@),
        decreases list.len() - i,
    {
        if path_eq(&list[i], c) {
            return Some(i);
        }
        i += 1;
    }
    None
}

/// The position of a source file with components `c`, if any.
fn source_position(fc: &Vec<Vec<Vec<u8>>>, anvil: &Vec<bool>, c: &Vec<Vec<u8>>) -> (r: Option<usize>)
    requires
        fc@.len() == anvil@.len(),
    ensures
        match r {
            Some(i) => i < fc@.len() && comp_lists(fc@)[i as int] == c@.map_values(|x: Vec<u8>| x@)
                && anvil@[i as int],
            None => forall|i: int|
                0 <= i < fc@.len() && anvil@[i] ==> (#[trigger] comp_lists(fc@)[i]) != c@.map_values(
                    |x: Vec<u8>| x@,
                ),
        },
{
    let mut i: usize = 0;
    while i < fc.len()
        invariant
            fc@.len() == anvil@.len(),
            i <= fc@.len(),
            forall|j: int|
                0 <= j < i && anvil@[j] ==> (#[trigger] comp_lists(fc@)[j]) != c@.map_values(
                    |x: Vec<u8>| x@,
                ),
        decreases fc.len() - i,
    {
        if anvil[i] && path_eq(&fc[i], c) {
            return Some(i);
        }
        i += 1;
    }
    None
}

/// Finds the source files of a project: for each declared location in turn,
/// the `.anvil` files of the tree that it matches. A location that is blank,
/// absolute, climbs out of the root or uses `[ ] { }` is refused; the
/// directory below which it matches must exist; and after each location some
/// file found so far must match it. The files are given by their paths
/// relative to the root, once each, in path order.
pub fn discover_sources(tree: &SourceTree, patterns: &Vec<String>) -> (r: Result<Vec<String>, ForgeError>)
    ensures
        match r {
            Ok(found) => match discovered(
                texts(tree.files@),
                texts(tree.dirs@),
                texts(patterns@),
                patterns@.len() as nat,
            ) {
                Ok(set) => {
                    &&& strictly_sorted(texts(found@).map_values(|f: Seq<char>| comps_of(f)))
                    &&& texts(found@).map_values(|f: Seq<char>| comps_of(f)).to_set() == set
                    &&& forall|j: int|
                        0 <= j < found@.len() ==> tree_source(texts(tree.files@), #[trigger] found@[j]@)
                },
                Err(_) => false,
            },
            Err(e) => discovered(
                texts(tree.files@),
                texts(tree.dirs@),
                texts(patterns@),
                patterns@.len() as nat,
            ) == Err::<Set<Seq<Seq<u8>>>, Seq<char>>(e.message@) && e.line == 0 && e.col == 0,
        },
{
    let ghost files = texts(tree.files@);
    let ghost dirs = texts(tree.dirs@);
    let ghost pats = texts(patterns@);
    let fc = comps_of_all(&tree.files);
    let dc = comps_of_all(&tree.dirs);
    let anvil = anvil_flags(&tree.files);
    let mut found: Vec<Vec<Vec<u8>>> = Vec::new();
    let mut paths: Vec<String> = Vec::new();
    let mut pi: usize = 0;
    assert(comp_lists(found@).to_set() =~= Set::<Seq<Seq<u8>>>::empty());
    while pi < patterns.len()
        invariant
            files == texts(tree.files@),
            dirs == texts(tree.dirs@),
            pats == texts(patterns@),
            fc@.len() == files.len(),
            anvil@.len() == files.len(),
            dc@.len() == dirs.len(),
            forall|i: int| 0 <= i < files.len() ==> (#[trigger] comp_lists(fc@)[i]) == comps_of(files[i]),
            forall|i: int| 0 <= i < files.len() ==> anvil@[i] == is_anvil(files[i]),
            forall|i: int| 0 <= i < dirs.len() ==> (#[trigger] comp_lists(dc@)[i]) == comps_of(dirs[i]),
            pi <= patterns@.len(),
            found@.len() == paths@.len(),
            strictly_sorted(comp_lists(found@)),
            forall|j: int|
                0 <= j < found@.len() ==> (#[trigger] comp_lists(found@)[j]) == comps_of(paths@[j]@)
                    && tree_source(files, paths@[j]@),
            discovered(files, dirs, pats, pi as nat) == Ok::<Set<Seq<Seq<u8>>>, Seq<char>>(
                comp_lists(found@).to_set(),
            ),
        decreases patterns.len() - pi,
    {
        let pattern = &patterns[pi];
        let ghost p = pattern@;
        assert(pats[pi as int] == p);
        let ghost before = comp_lists(found@).to_set();
        let q = normalize(pattern.as_str());
        match validate_location(q.as_str()) {
            Ok(()) => {},
            Err(e) => {
                proof {
                    lemma_error_stays(files, dirs, pats, (pi + 1) as nat, pats.len() as nat, e.message@);
                }
                return Err(e);
            },
        }
        let c = split_components(q.as_str().as_bytes());
        let ghost cv = c@.map_values(|x: Vec<u8>| x@);
        assert(cv == comps_of(q@));
        let k = literal_prefix_len(&c);
        let exact = k == c.len() && position_of(&fc, &c).is_some();
        proof {
            if k == c.len() {
                if file_at(files, cv) {
                    let i = choose|i: int| 0 <= i < files.len() && comps_of(files[i]) == cv;
                    assert(comp_lists(fc@)[i] == cv);
                }
            }
        }
        let ghost old_found = found@;
        let ghost old_paths = paths@;
        if exact {
            match source_position(&fc, &anvil, &c) {
                Some(i) => {
                    let x = copy_comps(&c);
                    let path = tree.files[i].clone();
                    proof {
                        assert(path@ == files[i as int]);
                        assert(comps_of(files[i as int]) == cv);
                        assert(source_at(files, cv));
                    }
                    insert_sorted(&mut found, &mut paths, x, path);
                    proof {
                        assert(comp_lists(found@).to_set() == before.union(set![cv])) by {
                            assert(before.insert(cv) =~= before.union(set![cv]));
                        }
                        assert forall|j: int| 0 <= j < found@.len() implies (#[trigger] comp_lists(
                            found@,
                        )[j]) == comps_of(paths@[j]@) && tree_source(files, paths@[j]@) by {
                            if entry_in(comp_lists(found@)[j], paths@[j], comp_lists(old_found), old_paths) {
                                let w = choose|w: int|
                                    0 <= w < comp_lists(old_found).len() && w < old_paths.len()
                                        && comp_lists(old_found)[w] == comp_lists(found@)[j]
                                        && old_paths[w] == paths@[j];
                                assert(comp_lists(old_found)[w] == comps_of(old_paths[w]@));
                            } else {
                                assert(tree_source(files, files[i as int]));
                            }
                        }
                    }
                },
                None => {
                    proof {
                        assert(!source_at(files, cv)) by {
                            if source_at(files, cv) {
                                let i = choose|i: int|
                                    0 <= i < files.len() && comps_of(files[i]) == cv && is_anvil(files[i]);
                                assert(comp_lists(fc@)[i] == cv);
                            }
                        }
                        assert(before.union(Set::empty()) =~= before);
                    }
                },
            }
        } else {
            let n = c.len();
            let dlen: usize = if k < n {
                k
            } else if n > 0 {
                n - 1
            } else {
                0
            };
            let ghost dv = cv.take(dlen as int);
            let has_dir = if dlen == 0 {
                true
            } else {
                let d = prefix_comps(&c, dlen);
                let found_dir = position_of(&dc, &d);
                proof {
                    if found_dir is None {
                        assert(!dir_at(dirs, dv)) by {
                            if exists|j: int| 0 <= j < dirs.len() && comps_of(dirs[j]) == dv {
                                let j = choose|j: int| 0 <= j < dirs.len() && comps_of(dirs[j]) == dv;
                                assert(comp_lists(dc@)[j] == dv);
                            }
                        }
                    } else {
                        let j = found_dir->0 as int;
                        assert(comps_of(dirs[j]) == dv);
                    }
                }
                found_dir.is_some()
            };
            proof {
                let spec_d = if k < n {
                    cv.take(k as int)
                } else if n > 0 {
                    cv.take(n - 1)
                } else {
                    cv
                };
                assert(spec_d =~= dv);
            }
            if !has_dir {
                let mut m = concat("referenced directory does not exist for location '", pattern.as_str());
                append(&mut m, "'");
                proof {
                    assert(!dir_at(dirs, dv));
                    lemma_error_stays(files, dirs, pats, (pi + 1) as nat, pats.len() as nat, m@);
                }
                return Err(ForgeError::parse(m));
            }
            proof {
                assert(dir_at(dirs, dv));
                assert(before.union(matched_upto(files, cv, 0)) =~= before);
            }
            let mut i: usize = 0;
            while i < fc.len()
                invariant
                    files == texts(tree.files@),
                    fc@.len() == files.len(),
                    anvil@.len() == files.len(),
                    forall|x: int| 0 <= x < files.len() ==> (#[trigger] comp_lists(fc@)[x]) == comps_of(files[x]),
                    forall|x: int| 0 <= x < files.len() ==> anvil@[x] == is_anvil(files[x]),
                    cv == c@.map_values(|x: Vec<u8>| x@),
                    i <= fc@.len(),
                    found@.len() == paths@.len(),
                    strictly_sorted(comp_lists(found@)),
                    forall|j: int|
                        0 <= j < found@.len() ==> (#[trigger] comp_lists(found@)[j]) == comps_of(paths@[j]@)
                            && tree_source(files, paths@[j]@),
                    comp_lists(found@).to_set() == before.union(matched_upto(files, cv, i as int)),
                decreases fc.len() - i,
            {
                let ghost set_before = comp_lists(found@).to_set();
                let ghost fb = found@;
                let ghost pb = paths@;
                if anvil[i] && glob_matches(&c, &fc[i]) {
                    let x = copy_comps(&fc[i]);
                    let path = tree.files[i].clone();
                    proof {
                        assert(path@ == files[i as int]);
                    }
                    insert_sorted(&mut found, &mut paths, x, path);
                    proof {
                        let xv = comp_lists(fc@)[i as int];
                        assert(comp_lists(found@).to_set() =~= before.union(
                            matched_upto(files, cv, i + 1),
                        )) by {
                            assert forall|y: Seq<Seq<u8>>| matched_upto(files, cv, i + 1).contains(y) implies set_before.insert(
                                xv,
                            ).contains(y) by {
                                let w = choose|w: int|
                                    0 <= w < i + 1 && comps_of(files[w]) == y && is_anvil(files[w])
                                        && glob_match(cv, y);
                                if w < i {
                                    assert(matched_upto(files, cv, i as int).contains(y));
                                }
                            }
                            assert forall|y: Seq<Seq<u8>>| set_before.insert(xv).contains(y) implies before.union(
                                matched_upto(files, cv, i + 1),
                            ).contains(y) by {
                                if y == xv {
                                    assert(matched_upto(files, cv, i + 1).contains(y));
                                } else if matched_upto(files, cv, i as int).contains(y) {
                                    let w = choose|w: int|
                                        0 <= w < i && comps_of(files[w]) == y && is_anvil(files[w])
                                            && glob_match(cv, y);
                                    assert(matched_upto(files, cv, i + 1).contains(y));
                                }
                            }
                        }
                        assert forall|j: int| 0 <= j < found@.len() implies (#[trigger] comp_lists(
                            found@,
                        )[j]) == comps_of(paths@[j]@) && tree_source(files, paths@[j]@) by {
                            if entry_in(comp_lists(found@)[j], paths@[j], comp_lists(fb), pb) {
                                let w = choose|w: int|
                                    0 <= w < comp_lists(fb).len() && w < pb.len() && comp_lists(fb)[w]
                                        == comp_lists(found@)[j] && pb[w] == paths@[j];
                                assert(comp_lists(fb)[w] == comps_of(pb[w]@));
                            } else {
                                assert(tree_source(files, files[i as int]));
                            }
                        }
                    }
                } else {
                    proof {
                        assert(matched_upto(files, cv, i + 1) =~= matched_upto(files, cv, i as int)) by {
                            assert forall|y: Seq<Seq<u8>>| matched_upto(files, cv, i + 1).contains(y) implies matched_upto(
                                files,
                                cv,
                                i as int,
                            ).contains(y) by {
                                let w = choose|w: int|
                                    0 <= w < i + 1 && comps_of(files[w]) == y && is_anvil(files[w])
                                        && glob_match(cv, y);
                                if w == i {
                                    assert(comp_lists(fc@)[i as int] == y);
                                }
                            }
                        }
                    }
                }
                i += 1;
            }
            proof {
                assert(matched_upto(files, cv, fc@.len() as int) =~= matched(files, cv));
            }
        }
        let ghost all = comp_lists(found@).to_set();
        let mut hit = false;
        let mut j: usize = 0;
        while j < found.len() && !hit
            invariant
                j <= found@.len(),
                cv == c@.map_values(|x: Vec<u8>| x@),
                hit ==> exists|x: Seq<Seq<u8>>| comp_lists(found@).to_set().contains(x) && glob_match(cv, x),
                !hit ==> forall|w: int| 0 <= w < j ==> !glob_match(cv, #[trigger] comp_lists(found@)[w]),
            decreases found.len() - j + if hit { 0int } else { 1int },
        {
            if glob_matches(&c, &found[j]) {
                proof {
                    let x = comp_lists(found@)[j as int];
                    assert(comp_lists(found@).to_set().contains(x));
                }
                hit = true;
            } else {
                j += 1;
            }
        }
        if !hit {
            let mut m = concat("no Sydrogen source files matched '", pattern.as_str());
            append(&mut m, "'");
            proof {
                assert(!(exists|x: Seq<Seq<u8>>| all.contains(x) && glob_match(cv, x))) by {
                    if exists|x: Seq<Seq<u8>>| all.contains(x) && glob_match(cv, x) {
                        let x = choose|x: Seq<Seq<u8>>| all.contains(x) && glob_match(cv, x);
                        let w = choose|w: int| 0 <= w < comp_lists(found@).len() && comp_lists(found@)[w] == x;
                    }
                }
                assert(discovered(files, dirs, pats, (pi + 1) as nat) == Err::<
                    Set<Seq<Seq<u8>>>,
                    Seq<char>,
                >(m@));
                lemma_error_stays(files, dirs, pats, (pi + 1) as nat, pats.len() as nat, m@);
            }
            return Err(ForgeError::parse(m));
        }
        assert(discovered(files, dirs, pats, (pi + 1) as nat) == Ok::<Set<Seq<Seq<u8>>>, Seq<char>>(
            comp_lists(found@).to_set(),
        ));
        pi += 1;
    }
    proof {
        let fv = texts(paths@).map_values(|f: Seq<char>| comps_of(f));
        assert(fv =~= comp_lists(found@)) by {
            assert forall|j: int| 0 <= j < fv.len() implies fv[j] == comp_lists(found@)[j] by {
                assert(comp_lists(found@)[j] == comps_of(paths@[j]@));
            }
        }
        assert(pats.len() == patterns@.len());
        assert(strictly_sorted(fv));
        assert(fv.to_set() == comp_lists(found@).to_set());
        assert forall|j: int| 0 <= j < paths@.len() implies tree_source(files, #[trigger] paths@[j]@) by {
            assert(comp_lists(found@)[j] == comps_of(paths@[j]@));
        }
    }
    Ok(paths)
}

} // verus!
