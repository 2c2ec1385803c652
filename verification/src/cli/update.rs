//! Release tags: `alpha-N-half-M` comes before `alpha-N`, which comes before
//! `alpha-N.M`; the updater installs the newest tag.

use vstd::prelude::*;

use crate::text::{chars_of, find, first_match, is_ascii_digit, lines, lines_of, owned};

verus! {

/// A release version: the major number, the stage (0 for a half release before
/// the major one, 1 for the major release, 2 for a point release after it) and
/// the minor number.
#[derive(Debug, Clone, Copy, PartialEq, Eq, PartialOrd, Ord)]
pub struct AlphaVersion {
    pub major: u32,
    pub stage: u8,
    pub minor: u32,
}

/// The order of versions: by major number, then stage, then minor number.
pub open spec fn version_less(a: AlphaVersion, b: AlphaVersion) -> bool {
    ||| a.major < b.major
    ||| a.major == b.major && a.stage < b.stage
    ||| a.major == b.major && a.stage == b.stage && a.minor < b.minor
}

/// Whether `a` orders before `b`.
pub fn version_lt(a: &AlphaVersion, b: &AlphaVersion) -> (r: bool)
    ensures
        r == version_less(*a, *b),
{
    a.major < b.major || (a.major == b.major && a.stage < b.stage) || (a.major == b.major
        && a.stage == b.stage && a.minor < b.minor)
}

/// The value of a run of decimal digits.
pub open spec fn digits_value(s: Seq<char>) -> nat
    decreases s.len(),
{
    if s.len() == 0 {
        0
    } else {
        (digits_value(s.drop_last()) * 10 + ((s.last() as int) - ('0' as int))) as nat
    }
}

/// The unsigned 32-bit value a text denotes, as `str::parse::<u32>` reads it:
/// an optional `+`, then one or more decimal digits.
pub open spec fn u32_value(s: Seq<char>) -> Option<u32> {
    if s.len() > 0 && s[0] == '+' {
        digits_u32(s.drop_first())
    } else {
        digits_u32(s)
    }
}

/// Whether every character is a decimal digit.
pub open spec fn all_digits(d: Seq<char>) -> bool {
    forall|i: int| 0 <= i < d.len() ==> is_ascii_digit(#[trigger] d[i])
}

/// The `u32` a non-empty run of digits denotes, if it fits.
pub open spec fn digits_u32(d: Seq<char>) -> Option<u32> {
    if d.len() > 0 && all_digits(d) && digits_value(d) <= u32::MAX {
        Some(digits_value(d) as u32)
    } else {
        None
    }
}

/// The version a release tag names, if it names one.
#[verifier::opaque]
pub open spec fn alpha_version_of(tag: Seq<char>) -> Option<AlphaVersion> {
    let prefix = "alpha-"@;
    if tag.len() >= prefix.len() && tag.take(prefix.len() as int) == prefix {
        version_after_prefix(tag.skip(prefix.len() as int))
    } else {
        None
    }
}

/// The version the text after `alpha-` names, if it names one.
pub open spec fn version_after_prefix(v: Seq<char>) -> Option<AlphaVersion> {
    {
        match first_match(v, "-half-"@) {
            Some(k) => match (u32_value(v.take(k)), u32_value(v.skip(k + "-half-"@.len()))) {
                (Some(major), Some(minor)) => Some(AlphaVersion { major, stage: 0, minor }),
                _ => None,
            },
            None => match first_match(v, "."@) {
                Some(k) => match (u32_value(v.take(k)), u32_value(v.skip(k + "."@.len()))) {
                    (Some(major), Some(minor)) => Some(AlphaVersion { major, stage: 2, minor }),
                    _ => None,
                },
                None => match u32_value(v) {
                    Some(major) => Some(AlphaVersion { major, stage: 1, minor: 0 }),
                    None => None,
                },
            },
        }
    }
}

/// A prefix of a run of digits denotes at most what the whole run denotes.
pub proof fn lemma_digits_value_grows(s: Seq<char>, k: int)
    requires
        0 <= k <= s.len(),
        forall|i: int| 0 <= i < s.len() ==> is_ascii_digit(#[trigger] s[i]),
    ensures
        digits_value(s.take(k)) <= digits_value(s),
    decreases s.len(),
{
    if k < s.len() {
        assert(s.drop_last().take(k) =~= s.take(k));
        lemma_digits_value_grows(s.drop_last(), k);
    } else {
        assert(s.take(k) =~= s);
    }
}

/// The `u32` that the digits `cs[first..end]` denote.
fn parse_digits(cs: &Vec<char>, first: usize, end: usize) -> (r: Option<u32>)
    requires
        first <= end <= cs@.len(),
    ensures
        r == digits_u32(cs@.subrange(first as int, end as int)),
{
    let ghost d = cs@.subrange(first as int, end as int);
    if first == end {
        return None;
    }
    let mut i = first;
    let mut v: u64 = 0;
    while i < end
        invariant
            first <= i <= end <= cs@.len(),
            d == cs@.subrange(first as int, end as int),
            v <= u32::MAX,
            v == digits_value(d.take(i - first)),
            forall|j: int| 0 <= j < i - first ==> is_ascii_digit(#[trigger] d[j]),
        decreases end - i,
    {
        let c = cs[i];
        assert(d[i - first] == c);
        if !('0' <= c && c <= '9') {
            assert(!all_digits(d));
            return None;
        }
        proof {
            assert(d.take(i + 1 - first).drop_last() =~= d.take(i - first));
        }
        v = v * 10 + ((c as u32) - ('0' as u32)) as u64;
        if v > 0xFFFF_FFFF {
            proof {
                if all_digits(d) {
                    lemma_digits_value_grows(d, i + 1 - first);
                }
            }
            return None;
        }
        i += 1;
    }
    proof {
        assert(d.take(end - first) =~= d);
    }
    Some(v as u32)
}

/// The `u32` that `cs[start..end]` denotes.
fn parse_u32(cs: &Vec<char>, start: usize, end: usize) -> (r: Option<u32>)
    requires
        start <= end <= cs@.len(),
    ensures
        r == u32_value(cs@.subrange(start as int, end as int)),
{
    let ghost s = cs@.subrange(start as int, end as int);
    if start < end && cs[start] == '+' {
        proof {
            assert(s.drop_first() =~= cs@.subrange(start + 1, end as int));
        }
        parse_digits(cs, start + 1, end)
    } else {
        parse_digits(cs, start, end)
    }
}

/// The version a release tag names: `alpha-N-half-M`, `alpha-N` or `alpha-N.M`.
pub fn parse_alpha_tag(tag: &str) -> (r: Option<AlphaVersion>)
    ensures
        r == alpha_version_of(tag@),
{
    reveal(alpha_version_of);
    let cs = chars_of(tag);
    let prefix = chars_of("alpha-");
    let n = prefix.len();
    if cs.len() < n {
        return None;
    }
    let mut k: usize = 0;
    while k < n
        invariant
            k <= n,
            n == prefix@.len(),
            prefix@ == "alpha-"@,
            n <= cs@.len(),
            cs@ == tag@,
            forall|x: int| 0 <= x < k ==> cs@[x] == prefix@[x],
        decreases n - k,
    {
        if cs[k] != prefix[k] {
            proof {
                reveal(alpha_version_of);
                assert(cs@.take(n as int)[k as int] != prefix@[k as int]);
                assert(tag@.take(n as int) != prefix@);
            }
            return None;
        }
        k += 1;
    }
    proof {
        assert(cs@.take(n as int) =~= prefix@);
    }
    let mut rest: Vec<char> = Vec::new();
    let mut i = n;
    while i < cs.len()
        invariant
            n <= i <= cs@.len(),
            rest@ == cs@.subrange(n as int, i as int),
        decreases cs.len() - i,
    {
        rest.push(cs[i]);
        i += 1;
        proof {
            assert(rest@ =~= cs@.subrange(n as int, i as int));
        }
    }
    proof {
        assert(rest@ =~= tag@.skip(n as int));
    }
    let len = rest.len();
    let half = chars_of("-half-");
    match find(&rest, &half) {
        Some(at) => {
            proof {
                assert(rest@.subrange(0, at as int) =~= rest@.take(at as int));
                assert(rest@.subrange(at + half@.len(), len as int) =~= rest@.skip(at + half@.len()));
            }
            let major = parse_u32(&rest, 0, at);
            let minor = parse_u32(&rest, at + half.len(), len);
            match (major, minor) {
                (Some(major), Some(minor)) => Some(AlphaVersion { major, stage: 0, minor }),
                _ => None,
            }
        },
        None => {
            let dot = chars_of(".");
            match find(&rest, &dot) {
                Some(at) => {
                    proof {
                        assert(rest@.subrange(0, at as int) =~= rest@.take(at as int));
                        assert(rest@.subrange(at + dot@.len(), len as int) =~= rest@.skip(at + dot@.len()));
                    }
                    let major = parse_u32(&rest, 0, at);
                    let minor = parse_u32(&rest, at + dot.len(), len);
                    match (major, minor) {
                        (Some(major), Some(minor)) => Some(AlphaVersion { major, stage: 2, minor }),
                        _ => None,
                    }
                },
                None => {
                    proof {
                        assert(rest@.subrange(0, len as int) =~= rest@);
                    }
                    match parse_u32(&rest, 0, len) {
                        Some(major) => Some(AlphaVersion { major, stage: 1, minor: 0 }),
                        None => None,
                    }
                },
            }
        },
    }
}

/// The newest of the release tags listed one per line in `tags` (the last of
/// equally new ones); lines that name no version are skipped.
pub fn get_latest_git_tag(tags: &str) -> (r: Result<String, String>)
    ensures
        match r {
            Ok(t) => exists|i: int|
                #![trigger lines_of(tags@)[i]]
                0 <= i < lines_of(tags@).len() && lines_of(tags@)[i] == t@ && alpha_version_of(
                    lines_of(tags@)[i],
                ) is Some && (forall|j: int|
                    #![trigger lines_of(tags@)[j]]
                    0 <= j < lines_of(tags@).len() && alpha_version_of(lines_of(tags@)[j]) is Some
                        ==> !version_less(
                        alpha_version_of(lines_of(tags@)[i])->0,
                        alpha_version_of(lines_of(tags@)[j])->0,
                    ) && (j > i ==> version_less(
                        alpha_version_of(lines_of(tags@)[j])->0,
                        alpha_version_of(lines_of(tags@)[i])->0,
                    ))),
            Err(m) => m@ == "No valid ForgeLang alpha tags found"@ && forall|j: int|
                0 <= j < lines_of(tags@).len() ==> alpha_version_of(#[trigger] lines_of(tags@)[j])
                    is None,
        },
{
    let ls = lines(tags);
    let ghost view = ls@.map_values(|l: String| l@);
    let mut best: Option<(usize, AlphaVersion)> = None;
    let mut i: usize = 0;
    while i < ls.len()
        invariant
            view == ls@.map_values(|l: String| l@),
            view == lines_of(tags@),
            i <= ls@.len(),
            match best {
                Some((b, v)) => b < i && alpha_version_of(view[b as int]) == Some(v) && forall|j: int|
                    0 <= j < i && alpha_version_of(#[trigger] view[j]) is Some ==> !version_less(
                        v,
                        alpha_version_of(view[j])->0,
                    ) && (j > b ==> version_less(alpha_version_of(view[j])->0, v)),
                None => forall|j: int| 0 <= j < i ==> alpha_version_of(#[trigger] view[j]) is None,
            },
        decreases ls.len() - i,
    {
        let parsed = parse_alpha_tag(ls[i].as_str());
        assert(view[i as int] == ls@[i as int]@);
        match parsed {
            Some(v) => {
                let take = match best {
                    Some((_, bv)) => !version_lt(&v, &bv),
                    None => true,
                };
                if take {
                    best = Some((i, v));
                }
            },
            None => {},
        }
        i += 1;
    }
    match best {
        Some((b, _)) => {
            let t = crate::text::copy_string(&ls[b]);
            assert(view[b as int] == t@);
            Ok(t)
        },
        None => Err(owned("No valid ForgeLang alpha tags found")),
    }
}

} // verus!
