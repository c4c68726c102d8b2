//! The semantic-version model: parsing, display, and the total order
//! used everywhere a "newer" version must be chosen.

use core::cmp::Ordering;
use vstd::prelude::*;
use vstd::string::StrSliceExecFns;
use vstd::string::StringExecFns;

verus! {

/// A pre-release tag. `RC` and `M` tags order above any other tag text;
/// see [`pre_cmp`].
#[derive(Debug)]
pub enum PreRelease {
    RC(u32),
    M(u32),
    Other(String),
}

/// A version: either a parsed `major.minor.patch[-pre]` form, or the raw
/// text of anything that fails that parse.
#[derive(Debug)]
pub enum Version {
    SemVer { major: u32, minor: u32, patch: u32, pre_release: Option<PreRelease> },
    Other(String),
}

/// Mathematical model of a pre-release tag.
pub enum PreReleaseView {
    RC(u32),
    M(u32),
    Other(Seq<char>),
}

/// Mathematical model of a version.
pub enum VersionView {
    SemVer { major: u32, minor: u32, patch: u32, pre_release: Option<PreReleaseView> },
    Other(Seq<char>),
}

impl View for PreRelease {
    type V = PreReleaseView;

    open spec fn view(&self) -> PreReleaseView {
        match self {
            PreRelease::RC(n) => PreReleaseView::RC(*n),
            PreRelease::M(n) => PreReleaseView::M(*n),
            PreRelease::Other(s) => PreReleaseView::Other(s@),
        }
    }
}

impl DeepView for PreRelease {
    type V = PreReleaseView;

    open spec fn deep_view(&self) -> PreReleaseView {
        self.view()
    }
}

impl View for Version {
    type V = VersionView;

    open spec fn view(&self) -> VersionView {
        match self {
            Version::SemVer { major, minor, patch, pre_release } => VersionView::SemVer {
                major: *major,
                minor: *minor,
                patch: *patch,
                pre_release: match pre_release {
                    Some(p) => Some(p@),
                    None => None,
                },
            },
            Version::Other(s) => VersionView::Other(s@),
        }
    }
}

impl DeepView for Version {
    type V = VersionView;

    open spec fn deep_view(&self) -> VersionView {
        self.view()
    }
}

// ---------------------------------------------------------------------
// The parse, as a specification.
// ---------------------------------------------------------------------

pub open spec fn is_digit(c: char) -> bool {
    '0' as u32 <= c as u32 && c as u32 <= '9' as u32
}

pub open spec fn digit_val(c: char) -> nat {
    (c as u32 - '0' as u32) as nat
}

/// A non-empty run of decimal digits.
pub open spec fn is_digits(s: Seq<char>) -> bool {
    s.len() > 0 && forall|i: int| 0 <= i < s.len() ==> is_digit(#[trigger] s[i])
}

/// The number a digit run denotes.
pub open spec fn digits_val(s: Seq<char>) -> nat
    decreases s.len(),
{
    if s.len() == 0 {
        0
    } else {
        digits_val(s.drop_last()) * 10 + digit_val(s.last())
    }
}

/// What `str::parse::<u32>` accepts: an optional leading `+`, then one or
/// more digits, denoting a value that fits in 32 bits.
pub open spec fn parse_u32(s: Seq<char>) -> Option<u32> {
    let d = if s.len() > 0 && s[0] == '+' {
        s.drop_first()
    } else {
        s
    };
    if is_digits(d) && digits_val(d) <= u32::MAX {
        Some(digits_val(d) as u32)
    } else {
        None
    }
}

/// Index of the first occurrence of `c` in `s`, if any.
pub open spec fn find_char(s: Seq<char>, c: char) -> Option<int>
    decreases s.len(),
{
    if s.len() == 0 {
        None
    } else if s[0] == c {
        Some(0)
    } else {
        match find_char(s.drop_first(), c) {
            None => None,
            Some(i) => Some(i + 1),
        }
    }
}

/// Split at the first `-`, if any: the base text and the pre-release text.
pub open spec fn split_pre(s: Seq<char>) -> (Seq<char>, Option<Seq<char>>) {
    match find_char(s, '-') {
        None => (s, None),
        Some(i) => (s.take(i), Some(s.skip(i + 1))),
    }
}

/// `RC<digits>` and `M<digits>` map to their tiers; anything else,
/// including an `RC` or `M` prefix followed by non-digits, is kept whole.
/// A digit run too large for the numeric type reads as 0.
pub open spec fn parse_pre_release(s: Seq<char>) -> PreReleaseView {
    if s.len() >= 2 && s[0] == 'R' && s[1] == 'C' && is_digits(s.skip(2)) {
        PreReleaseView::RC(
            match parse_u32(s.skip(2)) {
                Some(n) => n,
                None => 0,
            },
        )
    } else if s.len() >= 1 && s[0] == 'M' && is_digits(s.skip(1)) {
        PreReleaseView::M(
            match parse_u32(s.skip(1)) {
                Some(n) => n,
                None => 0,
            },
        )
    } else {
        PreReleaseView::Other(s)
    }
}

pub open spec fn parse_pre_opt(p: Option<Seq<char>>) -> Option<PreReleaseView> {
    match p {
        None => None,
        Some(s) => Some(parse_pre_release(s)),
    }
}

/// The `major.minor[.patch][-pre]` parse: two dot-separated numeric parts
/// give a version with patch 0; three give the full form; anything else
/// fails.  The pre-release suffix hangs off the last part.
pub open spec fn parse_semver(s: Seq<char>) -> Option<VersionView> {
    match find_char(s, '.') {
        None => None,
        Some(i) => {
            let first = s.take(i);
            let rest = s.skip(i + 1);
            match find_char(rest, '.') {
                None => {
                    let (minor_s, pre_s) = split_pre(rest);
                    match (parse_u32(first), parse_u32(minor_s)) {
                        (Some(major), Some(minor)) => Some(
                            VersionView::SemVer {
                                major,
                                minor,
                                patch: 0,
                                pre_release: parse_pre_opt(pre_s),
                            },
                        ),
                        _ => None,
                    }
                },
                Some(j) => {
                    let second = rest.take(j);
                    let third = rest.skip(j + 1);
                    let (patch_s, pre_s) = split_pre(third);
                    match (parse_u32(first), parse_u32(second), parse_u32(patch_s)) {
                        (Some(major), Some(minor), Some(patch)) => Some(
                            VersionView::SemVer {
                                major,
                                minor,
                                patch,
                                pre_release: parse_pre_opt(pre_s),
                            },
                        ),
                        _ => None,
                    }
                },
            }
        },
    }
}

/// Any text that fails the semantic-version parse is kept whole.
pub open spec fn parse_version(s: Seq<char>) -> VersionView {
    match parse_semver(s) {
        Some(v) => v,
        None => VersionView::Other(s),
    }
}

// ---------------------------------------------------------------------
// Supporting lemmas about the spec functions.
// ---------------------------------------------------------------------

/// `find_char` returns the first occurrence.
proof fn lemma_find_char(s: Seq<char>, c: char)
    ensures
        match find_char(s, c) {
            None => forall|i: int| 0 <= i < s.len() ==> s[i] != c,
            Some(i) => 0 <= i < s.len() && s[i] == c && forall|j: int| 0 <= j < i ==> s[j] != c,
        },
    decreases s.len(),
{
    if s.len() == 0 {
    } else if s[0] == c {
    } else {
        lemma_find_char(s.drop_first(), c);
        match find_char(s.drop_first(), c) {
            None => {
                assert forall|i: int| 0 <= i < s.len() implies s[i] != c by {
                    if i > 0 {
                        assert(s.drop_first()[i - 1] == s[i]);
                    }
                }
            },
            Some(k) => {
                assert(s[k + 1] == s.drop_first()[k]);
                assert forall|j: int| 0 <= j < k + 1 implies s[j] != c by {
                    if j > 0 {
                        assert(s.drop_first()[j - 1] == s[j]);
                    }
                }
            },
        }
    }
}

/// `find_char` finds the first occurrence whenever one exists.
proof fn lemma_find_char_at(s: Seq<char>, c: char, i: int)
    requires
        0 <= i < s.len(),
        s[i] == c,
        forall|j: int| 0 <= j < i ==> s[j] != c,
    ensures
        find_char(s, c) == Some(i),
    decreases s.len(),
{
    if i == 0 {
    } else {
        assert(s.drop_first()[i - 1] == c);
        assert forall|j: int| 0 <= j < i - 1 implies s.drop_first()[j] != c by {
            assert(s.drop_first()[j] == s[j + 1]);
        }
        lemma_find_char_at(s.drop_first(), c, i - 1);
    }
}

/// A longer digit prefix denotes at least as large a number.
proof fn lemma_digits_val_monotone(s: Seq<char>, k: int, m: int)
    requires
        0 <= k <= m <= s.len(),
    ensures
        digits_val(s.take(k)) <= digits_val(s.take(m)),
    decreases m - k,
{
    if k < m {
        lemma_digits_val_monotone(s, k, m - 1);
        assert(s.take(m).drop_last() =~= s.take(m - 1));
        assert(digits_val(s.take(m)) == digits_val(s.take(m - 1)) * 10 + digit_val(s.take(m).last()));
    }
}

// ---------------------------------------------------------------------
// The parse, executably.
// ---------------------------------------------------------------------

/// First occurrence of `c` in `s` at or after `from`.
fn find_from(s: &str, n: usize, from: usize, c: char) -> (r: Option<usize>)
    requires
        from <= n == s@.len(),
    ensures
        match r {
            None => forall|i: int| from <= i < s@.len() ==> s@[i] != c,
            Some(i) => from <= i < s@.len() && s@[i as int] == c && forall|j: int|
                from <= j < i ==> s@[j] != c,
        },
{
    let mut i = from;
    while i < n
        invariant
            from <= i <= n == s@.len(),
            forall|j: int| from <= j < i ==> s@[j] != c,
        decreases n - i,
    {
        if s.get_char(i) == c {
            return Some(i);
        }
        i = i + 1;
    }
    None
}

/// Read the segment `[start, end)` of `s` as a `u32`, as `str::parse`
/// would: an optional `+`, then digits, rejecting overflow.
#[verifier::loop_isolation(false)]
fn parse_u32_seg(s: &str, start: usize, end: usize) -> (r: Option<u32>)
    requires
        start <= end <= s@.len(),
    ensures
        r == parse_u32(s@.subrange(start as int, end as int)),
{
    let ghost seg = s@.subrange(start as int, end as int);
    let mut i = start;
    if i < end && s.get_char(i) == '+' {
        i = i + 1;
    }
    let ghost d = if seg.len() > 0 && seg[0] == '+' {
        seg.drop_first()
    } else {
        seg
    };
    proof {
        assert(d =~= s@.subrange(i as int, end as int));
    }
    if i == end {
        return None;
    }
    let digit_start = i;
    let mut acc: u32 = 0;
    while i < end
        invariant
            digit_start <= i <= end <= s@.len(),
            digit_start < end,
            d =~= s@.subrange(digit_start as int, end as int),
            forall|j: int| digit_start <= j < i ==> is_digit(#[trigger] s@[j]),
            acc as nat == digits_val(d.take(i - digit_start)),
        decreases end - i,
    {
        let c = s.get_char(i);
        let cu = c as u32;
        if cu < '0' as u32 || cu > '9' as u32 {
            assert(!is_digit(d[i - digit_start]));
            return None;
        }
        let dv: u32 = cu - '0' as u32;
        let next: u64 = acc as u64 * 10 + dv as u64;
        proof {
            assert(d.take(i - digit_start + 1).drop_last() =~= d.take(i - digit_start));
            assert(d.take(i - digit_start + 1).last() == d[i - digit_start]);
        }
        if next > u32::MAX as u64 {
            proof {
                lemma_digits_val_monotone(d, i - digit_start + 1, d.len() as int);
                assert(d.take(d.len() as int) =~= d);
            }
            return None;
        }
        acc = next as u32;
        i = i + 1;
    }
    proof {
        assert(d.take(d.len() as int) =~= d);
        assert(is_digits(d));
    }
    Some(acc)
}

/// Whether the segment `[start, end)` of `s` is a non-empty digit run.
fn seg_is_digits(s: &str, start: usize, end: usize) -> (r: bool)
    requires
        start <= end <= s@.len(),
    ensures
        r == is_digits(s@.subrange(start as int, end as int)),
{
    let ghost seg = s@.subrange(start as int, end as int);
    if start == end {
        return false;
    }
    let mut i = start;
    while i < end
        invariant
            start <= i <= end <= s@.len(),
            seg == s@.subrange(start as int, end as int),
            start < end,
            forall|j: int| start <= j < i ==> is_digit(#[trigger] s@[j]),
        decreases end - i,
    {
        let c = s.get_char(i);
        let cu = c as u32;
        if cu < '0' as u32 || cu > '9' as u32 {
            proof {
                assert(seg[i - start] == s@[i as int]);
            }
            return false;
        }
        i = i + 1;
    }
    proof {
        assert forall|j: int| 0 <= j < seg.len() implies is_digit(#[trigger] seg[j]) by {
            assert(seg[j] == s@[start + j]);
        }
    }
    true
}

/// Read the segment `[start, end)` of `s` as a pre-release tag.
fn parse_pre_seg(s: &str, start: usize, end: usize) -> (r: PreRelease)
    requires
        start <= end <= s@.len(),
    ensures
        r@ == parse_pre_release(s@.subrange(start as int, end as int)),
{
    let ghost seg = s@.subrange(start as int, end as int);
    proof {
        if end - start >= 2 {
            assert(seg.skip(2) =~= s@.subrange(start as int + 2, end as int));
        }
        if end - start >= 1 {
            assert(seg.skip(1) =~= s@.subrange(start as int + 1, end as int));
        }
    }
    if end - start >= 2 && s.get_char(start) == 'R' && s.get_char(start + 1) == 'C'
        && seg_is_digits(s, start + 2, end) {
        let n = match parse_u32_seg(s, start + 2, end) {
            Some(n) => n,
            None => 0,
        };
        PreRelease::RC(n)
    } else if end - start >= 1 && s.get_char(start) == 'M' && seg_is_digits(s, start + 1, end) {
        let n = match parse_u32_seg(s, start + 1, end) {
            Some(n) => n,
            None => 0,
        };
        PreRelease::M(n)
    } else {
        PreRelease::Other(s.substring_char(start, end).to_owned())
    }
}

/// The dot at `i` is the only one: read `value` as `major.minor[-pre]`.
#[verifier::rlimit(60)]
fn parse_two_part(value: &str, n: usize, i: usize) -> (r: Version)
    requires
        n == value@.len(),
        i < n,
        value@[i as int] == '.',
        forall|k: int| 0 <= k < i ==> value@[k] != '.',
        forall|k: int| i < k < n ==> value@[k] != '.',
    ensures
        r@ == parse_version(value@),
{
    proof {
        lemma_find_char_at(value@, '.', i as int);
    }
    let ghost first = value@.take(i as int);
    let ghost rest = value@.skip(i as int + 1);
    proof {
        lemma_find_char(rest, '.');
        lemma_find_char(rest, '-');
        assert(first =~= value@.subrange(0, i as int));
        assert(forall|k: int| 0 <= k < rest.len() ==> rest[k] == value@[i + 1 + k]);
        assert(find_char(rest, '.') is None);
    }
    let (minor_end, pre) = match find_from(value, n, i + 1, '-') {
        None => {
            proof {
                assert(find_char(rest, '-') is None);
            }
            (n, None)
        },
        Some(di) => {
            proof {
                assert(rest[di - (i + 1)] == '-');
                lemma_find_char_at(rest, '-', di - (i + 1));
                assert(rest.take(di - (i + 1)) =~= value@.subrange(i as int + 1, di as int));
                assert(rest.skip(di - (i + 1) + 1) =~= value@.subrange(di as int + 1, n as int));
            }
            let p = parse_pre_seg(value, di + 1, n);
            (di, Some(p))
        },
    };
    let major = parse_u32_seg(value, 0, i);
    let minor = parse_u32_seg(value, i + 1, minor_end);
    proof {
        if pre is None {
            assert(rest =~= value@.subrange(i as int + 1, n as int));
        }
    }
    match (major, minor) {
        (Some(major), Some(minor)) => Version::SemVer { major, minor, patch: 0, pre_release: pre },
        _ => Version::Other(value.to_owned()),
    }
}

/// The dots at `i` and `j` are the first two: read `value` as
/// `major.minor.patch[-pre]`.
#[verifier::rlimit(60)]
fn parse_three_part(value: &str, n: usize, i: usize, j: usize) -> (r: Version)
    requires
        n == value@.len(),
        i < j < n,
        value@[i as int] == '.',
        value@[j as int] == '.',
        forall|k: int| 0 <= k < i ==> value@[k] != '.',
        forall|k: int| i < k < j ==> value@[k] != '.',
    ensures
        r@ == parse_version(value@),
{
    proof {
        lemma_find_char_at(value@, '.', i as int);
    }
    let ghost first = value@.take(i as int);
    let ghost rest = value@.skip(i as int + 1);
    proof {
        assert(first =~= value@.subrange(0, i as int));
        assert(forall|k: int| 0 <= k < rest.len() ==> rest[k] == value@[i + 1 + k]);
        assert(rest[j - (i + 1)] == '.');
        assert forall|k: int| 0 <= k < j - (i + 1) implies rest[k] != '.' by {
            assert(rest[k] == value@[i + 1 + k]);
        }
        lemma_find_char_at(rest, '.', j - (i + 1));
        assert(rest.take(j - (i + 1)) =~= value@.subrange(i as int + 1, j as int));
    }
    let ghost third = rest.skip(j - (i + 1) + 1);
    proof {
        assert(third =~= value@.subrange(j as int + 1, n as int));
        lemma_find_char(third, '-');
        assert(forall|k: int| 0 <= k < third.len() ==> third[k] == value@[j + 1 + k]);
    }
    let (patch_end, pre) = match find_from(value, n, j + 1, '-') {
        None => {
            proof {
                assert(find_char(third, '-') is None);
            }
            (n, None)
        },
        Some(di) => {
            proof {
                assert(third[di - (j + 1)] == '-');
                lemma_find_char_at(third, '-', di - (j + 1));
                assert(third.take(di - (j + 1)) =~= value@.subrange(j as int + 1, di as int));
                assert(third.skip(di - (j + 1) + 1) =~= value@.subrange(di as int + 1, n as int));
            }
            let p = parse_pre_seg(value, di + 1, n);
            (di, Some(p))
        },
    };
    let major = parse_u32_seg(value, 0, i);
    let minor = parse_u32_seg(value, i + 1, j);
    let patch = parse_u32_seg(value, j + 1, patch_end);
    proof {
        if pre is None {
            assert(third =~= value@.subrange(j as int + 1, n as int));
        }
    }
    match (major, minor, patch) {
        (Some(major), Some(minor), Some(patch)) => Version::SemVer {
            major,
            minor,
            patch,
            pre_release: pre,
        },
        _ => Version::Other(value.to_owned()),
    }
}

impl Version {
    /// Parse `value`; text that is not a `major.minor[.patch][-pre]` form
    /// is kept whole as [`Version::Other`].
    pub fn new(value: &str) -> (r: Version)
        ensures
            r@ == parse_version(value@),
    {
        let n = value.unicode_len();
        proof {
            lemma_find_char(value@, '.');
        }
        match find_from(value, n, 0, '.') {
            None => Version::Other(value.to_owned()),
            Some(i) => match find_from(value, n, i + 1, '.') {
                None => parse_two_part(value, n, i),
                Some(j) => parse_three_part(value, n, i, j),
            },
        }
    }

    pub open spec fn spec_major(self) -> Option<u32> {
        match self@ {
            VersionView::SemVer { major, .. } => Some(major),
            VersionView::Other(_) => None,
        }
    }

    pub fn major(&self) -> (r: Option<u32>)
        ensures
            r == self.spec_major(),
    {
        match self {
            Version::SemVer { major, .. } => Some(*major),
            Version::Other(_) => None,
        }
    }

    pub open spec fn spec_minor(self) -> Option<u32> {
        match self@ {
            VersionView::SemVer { minor, .. } => Some(minor),
            VersionView::Other(_) => None,
        }
    }

    pub fn minor(&self) -> (r: Option<u32>)
        ensures
            r == self.spec_minor(),
    {
        match self {
            Version::SemVer { minor, .. } => Some(*minor),
            Version::Other(_) => None,
        }
    }

    pub open spec fn spec_patch(self) -> Option<u32> {
        match self@ {
            VersionView::SemVer { patch, .. } => Some(patch),
            VersionView::Other(_) => None,
        }
    }

    pub fn patch(&self) -> (r: Option<u32>)
        ensures
            r == self.spec_patch(),
    {
        match self {
            Version::SemVer { patch, .. } => Some(*patch),
            Version::Other(_) => None,
        }
    }

    pub open spec fn spec_pre_release(self) -> Option<PreReleaseView> {
        match self@ {
            VersionView::SemVer { pre_release, .. } => pre_release,
            VersionView::Other(_) => None,
        }
    }

    pub fn pre_release(&self) -> (r: Option<PreRelease>)
        ensures
            r.deep_view() == self.spec_pre_release(),
    {
        match self {
            Version::SemVer { pre_release: Some(p), .. } => Some(p.clone()),
            _ => None,
        }
    }

    /// A version that is not a plain numbered release: either a parsed
    /// version with a pre-release tag, or unparsed text.
    pub open spec fn spec_is_pre_release(self) -> bool {
        match self@ {
            VersionView::SemVer { pre_release, .. } => pre_release is Some,
            VersionView::Other(_) => true,
        }
    }

    pub fn is_pre_release(&self) -> (r: bool)
        ensures
            r == self.spec_is_pre_release(),
    {
        match self {
            Version::SemVer { pre_release: Some(_), .. } => true,
            Version::Other(_) => true,
            _ => false,
        }
    }
}

// ---------------------------------------------------------------------
// The version order.
// ---------------------------------------------------------------------

/// Lexicographic order on text, by code point, a proper prefix first.
/// This is the order `String` values carry in Rust.
pub open spec fn lex_cmp(a: Seq<char>, b: Seq<char>) -> Ordering
    decreases a.len(),
{
    if a.len() == 0 && b.len() == 0 {
        Ordering::Equal
    } else if a.len() == 0 {
        Ordering::Less
    } else if b.len() == 0 {
        Ordering::Greater
    } else if (a[0] as u32) < (b[0] as u32) {
        Ordering::Less
    } else if (a[0] as u32) > (b[0] as u32) {
        Ordering::Greater
    } else {
        lex_cmp(a.drop_first(), b.drop_first())
    }
}

pub open spec fn u32_cmp(a: u32, b: u32) -> Ordering {
    if a < b {
        Ordering::Less
    } else if a > b {
        Ordering::Greater
    } else {
        Ordering::Equal
    }
}

/// The pre-release tier order: any `RC` above any `M`, any `M` above any
/// plain tag; within `RC` or `M` by number, plain tags by text.
pub open spec fn pre_cmp(a: PreReleaseView, b: PreReleaseView) -> Ordering {
    match (a, b) {
        (PreReleaseView::RC(x), PreReleaseView::RC(y)) => u32_cmp(x, y),
        (PreReleaseView::M(x), PreReleaseView::M(y)) => u32_cmp(x, y),
        (PreReleaseView::RC(_), _) => Ordering::Greater,
        (_, PreReleaseView::RC(_)) => Ordering::Less,
        (PreReleaseView::M(_), _) => Ordering::Greater,
        (_, PreReleaseView::M(_)) => Ordering::Less,
        (PreReleaseView::Other(x), PreReleaseView::Other(y)) => lex_cmp(x, y),
    }
}

/// The version order: parsed versions by `(major, minor, patch)`, then a
/// plain release above any pre-release of the same numbers; any parsed
/// version below any unparsed one; unparsed text by lexicographic order.
pub open spec fn version_cmp(a: VersionView, b: VersionView) -> Ordering {
    match (a, b) {
        (
            VersionView::SemVer { major: m1, minor: n1, patch: p1, pre_release: pr1 },
            VersionView::SemVer { major: m2, minor: n2, patch: p2, pre_release: pr2 },
        ) => {
            if u32_cmp(m1, m2) != Ordering::Equal {
                u32_cmp(m1, m2)
            } else if u32_cmp(n1, n2) != Ordering::Equal {
                u32_cmp(n1, n2)
            } else if u32_cmp(p1, p2) != Ordering::Equal {
                u32_cmp(p1, p2)
            } else {
                match (pr1, pr2) {
                    (Some(x), Some(y)) => pre_cmp(x, y),
                    (Some(_), None) => Ordering::Less,
                    (None, Some(_)) => Ordering::Greater,
                    (None, None) => Ordering::Equal,
                }
            }
        },
        (VersionView::SemVer { .. }, VersionView::Other(_)) => Ordering::Less,
        (VersionView::Other(_), VersionView::SemVer { .. }) => Ordering::Greater,
        (VersionView::Other(x), VersionView::Other(y)) => lex_cmp(x, y),
    }
}

proof fn lemma_lex_cmp_skip(a: Seq<char>, b: Seq<char>, i: int)
    requires
        0 <= i <= a.len(),
        i <= b.len(),
        forall|j: int| 0 <= j < i ==> a[j] == b[j],
    ensures
        lex_cmp(a, b) == lex_cmp(a.skip(i), b.skip(i)),
    decreases i,
{
    if i == 0 {
        assert(a.skip(0) =~= a);
        assert(b.skip(0) =~= b);
    } else {
        assert(a[0] == b[0]);
        assert forall|j: int| 0 <= j < i - 1 implies a.drop_first()[j] == b.drop_first()[j] by {
            assert(a.drop_first()[j] == a[j + 1]);
            assert(b.drop_first()[j] == b[j + 1]);
        }
        lemma_lex_cmp_skip(a.drop_first(), b.drop_first(), i - 1);
        assert(a.drop_first().skip(i - 1) =~= a.skip(i));
        assert(b.drop_first().skip(i - 1) =~= b.skip(i));
    }
}

/// Compare two pieces of text as `String`'s order does.
pub(crate) fn str_lex_cmp(a: &str, b: &str) -> (r: Ordering)
    ensures
        r == lex_cmp(a@, b@),
{
    let an = a.unicode_len();
    let bn = b.unicode_len();
    let mut i: usize = 0;
    while i < an && i < bn
        invariant
            i <= an,
            i <= bn,
            an == a@.len(),
            bn == b@.len(),
            forall|j: int| 0 <= j < i ==> a@[j] == b@[j],
        decreases an - i,
    {
        let ca = a.get_char(i) as u32;
        let cb = b.get_char(i) as u32;
        if ca < cb {
            proof {
                lemma_lex_cmp_skip(a@, b@, i as int);
            }
            return Ordering::Less;
        }
        if ca > cb {
            proof {
                lemma_lex_cmp_skip(a@, b@, i as int);
            }
            return Ordering::Greater;
        }
        proof {
            assert(a@[i as int] as u32 == b@[i as int] as u32);
            vstd::utf8::char_u32_cast(a@[i as int], a@[i as int] as u32);
            vstd::utf8::char_u32_cast(b@[i as int], b@[i as int] as u32);
        }
        i = i + 1;
    }
    proof {
        lemma_lex_cmp_skip(a@, b@, i as int);
    }
    if an == bn {
        Ordering::Equal
    } else if i == an {
        Ordering::Less
    } else {
        Ordering::Greater
    }
}

fn u32_compare(a: u32, b: u32) -> (r: Ordering)
    ensures
        r == u32_cmp(a, b),
{
    if a < b {
        Ordering::Less
    } else if a > b {
        Ordering::Greater
    } else {
        Ordering::Equal
    }
}

impl PreRelease {
    /// Compare by the pre-release tier order.
    pub fn compare(&self, other: &PreRelease) -> (r: Ordering)
        ensures
            r == pre_cmp(self@, other@),
    {
        match (self, other) {
            (PreRelease::RC(x), PreRelease::RC(y)) => u32_compare(*x, *y),
            (PreRelease::M(x), PreRelease::M(y)) => u32_compare(*x, *y),
            (PreRelease::RC(_), _) => Ordering::Greater,
            (_, PreRelease::RC(_)) => Ordering::Less,
            (PreRelease::M(_), _) => Ordering::Greater,
            (_, PreRelease::M(_)) => Ordering::Less,
            (PreRelease::Other(x), PreRelease::Other(y)) => str_lex_cmp(x.as_str(), y.as_str()),
        }
    }
}

impl Version {
    /// Compare by the version order.
    pub fn compare(&self, other: &Version) -> (r: Ordering)
        ensures
            r == version_cmp(self@, other@),
    {
        match (self, other) {
            (
                Version::SemVer { major: m1, minor: n1, patch: p1, pre_release: pr1 },
                Version::SemVer { major: m2, minor: n2, patch: p2, pre_release: pr2 },
            ) => {
                let c = u32_compare(*m1, *m2);
                if !matches!(c, Ordering::Equal) {
                    return c;
                }
                let c = u32_compare(*n1, *n2);
                if !matches!(c, Ordering::Equal) {
                    return c;
                }
                let c = u32_compare(*p1, *p2);
                if !matches!(c, Ordering::Equal) {
                    return c;
                }
                match (pr1, pr2) {
                    (Some(x), Some(y)) => x.compare(y),
                    (Some(_), None) => Ordering::Less,
                    (None, Some(_)) => Ordering::Greater,
                    (None, None) => Ordering::Equal,
                }
            },
            (Version::SemVer { .. }, Version::Other(_)) => Ordering::Less,
            (Version::Other(_), Version::SemVer { .. }) => Ordering::Greater,
            (Version::Other(x), Version::Other(y)) => str_lex_cmp(x.as_str(), y.as_str()),
        }
    }
}

impl PartialEq for PreRelease {
    fn eq(&self, other: &Self) -> (r: bool) {
        match (self, other) {
            (PreRelease::RC(x), PreRelease::RC(y)) => *x == *y,
            (PreRelease::M(x), PreRelease::M(y)) => *x == *y,
            (PreRelease::Other(x), PreRelease::Other(y)) => *x == *y,
            _ => false,
        }
    }
}

impl vstd::std_specs::cmp::PartialEqSpecImpl for PreRelease {
    open spec fn obeys_eq_spec() -> bool {
        true
    }

    open spec fn eq_spec(&self, other: &Self) -> bool {
        self@ == other@
    }
}

impl PartialEq for Version {
    fn eq(&self, other: &Self) -> (r: bool) {
        match (self, other) {
            (
                Version::SemVer { major: m1, minor: n1, patch: p1, pre_release: pr1 },
                Version::SemVer { major: m2, minor: n2, patch: p2, pre_release: pr2 },
            ) => *m1 == *m2 && *n1 == *n2 && *p1 == *p2 && match (pr1, pr2) {
                (Some(x), Some(y)) => *x == *y,
                (None, None) => true,
                _ => false,
            },
            (Version::Other(x), Version::Other(y)) => *x == *y,
            _ => false,
        }
    }
}

impl vstd::std_specs::cmp::PartialEqSpecImpl for Version {
    open spec fn obeys_eq_spec() -> bool {
        true
    }

    open spec fn eq_spec(&self, other: &Self) -> bool {
        self@ == other@
    }
}

impl Clone for PreRelease {
    fn clone(&self) -> (r: Self)
        ensures
            r == *self,
    {
        match self {
            PreRelease::RC(n) => PreRelease::RC(*n),
            PreRelease::M(n) => PreRelease::M(*n),
            PreRelease::Other(s) => PreRelease::Other(s.clone()),
        }
    }
}

impl Clone for Version {
    fn clone(&self) -> (r: Self)
        ensures
            r == *self,
    {
        match self {
            Version::SemVer { major, minor, patch, pre_release } => Version::SemVer {
                major: *major,
                minor: *minor,
                patch: *patch,
                pre_release: match pre_release {
                    Some(p) => Some(p.clone()),
                    None => None,
                },
            },
            Version::Other(s) => Version::Other(s.clone()),
        }
    }
}

// ---------------------------------------------------------------------
// Display.
// ---------------------------------------------------------------------

/// The character of a decimal digit.
pub open spec fn dec_digit(d: nat) -> char {
    if d == 0 {
        '0'
    } else if d == 1 {
        '1'
    } else if d == 2 {
        '2'
    } else if d == 3 {
        '3'
    } else if d == 4 {
        '4'
    } else if d == 5 {
        '5'
    } else if d == 6 {
        '6'
    } else if d == 7 {
        '7'
    } else if d == 8 {
        '8'
    } else {
        '9'
    }
}

/// The decimal text of `n`, most significant digit first, no sign and no
/// leading zero.
pub open spec fn dec_str(n: nat) -> Seq<char>
    decreases n,
{
    if n < 10 {
        seq![dec_digit(n)]
    } else {
        dec_str(n / 10).push(dec_digit(n % 10))
    }
}

pub open spec fn display_pre(p: PreReleaseView) -> Seq<char> {
    match p {
        PreReleaseView::RC(n) => seq!['R', 'C'] + dec_str(n as nat),
        PreReleaseView::M(n) => seq!['M'] + dec_str(n as nat),
        PreReleaseView::Other(s) => s,
    }
}

/// The text a version prints as: `major.minor.patch`, with `-pre`
/// appended when there is a pre-release tag; unparsed text prints as it
/// was read.
pub open spec fn display_version(v: VersionView) -> Seq<char> {
    match v {
        VersionView::SemVer { major, minor, patch, pre_release } => {
            let base = dec_str(major as nat) + seq!['.'] + dec_str(minor as nat) + seq!['.']
                + dec_str(patch as nat);
            match pre_release {
                None => base,
                Some(p) => base + seq!['-'] + display_pre(p),
            }
        },
        VersionView::Other(s) => s,
    }
}

fn digit_str(d: u32) -> (r: &'static str)
    requires
        d < 10,
    ensures
        r@ =~= seq![dec_digit(d as nat)],
{
    match d {
        0 => {
            proof {
                reveal_strlit("0");
            }
            "0"
        },
        1 => {
            proof {
                reveal_strlit("1");
            }
            "1"
        },
        2 => {
            proof {
                reveal_strlit("2");
            }
            "2"
        },
        3 => {
            proof {
                reveal_strlit("3");
            }
            "3"
        },
        4 => {
            proof {
                reveal_strlit("4");
            }
            "4"
        },
        5 => {
            proof {
                reveal_strlit("5");
            }
            "5"
        },
        6 => {
            proof {
                reveal_strlit("6");
            }
            "6"
        },
        7 => {
            proof {
                reveal_strlit("7");
            }
            "7"
        },
        8 => {
            proof {
                reveal_strlit("8");
            }
            "8"
        },
        _ => {
            proof {
                reveal_strlit("9");
            }
            "9"
        },
    }
}

fn u32_to_string(n: u32) -> (r: String)
    ensures
        r@ == dec_str(n as nat),
    decreases n,
{
    if n < 10 {
        digit_str(n).to_owned()
    } else {
        let mut s = u32_to_string(n / 10);
        s.append(digit_str(n % 10));
        proof {
            assert(dec_str((n / 10) as nat) + seq![dec_digit((n % 10) as nat)] =~= dec_str(
                (n / 10) as nat,
            ).push(dec_digit((n % 10) as nat)));
        }
        s
    }
}

impl PreRelease {
    /// The text this tag prints as.
    pub fn display_string(&self) -> (r: String)
        ensures
            r@ == display_pre(self@),
    {
        match self {
            PreRelease::RC(n) => {
                proof {
                    reveal_strlit("RC");
                }
                let mut s = "RC".to_owned();
                proof {
                    assert(s@ =~= seq!['R', 'C']);
                }
                let num = u32_to_string(*n);
                s.append(num.as_str());
                s
            },
            PreRelease::M(n) => {
                proof {
                    reveal_strlit("M");
                }
                let mut s = "M".to_owned();
                proof {
                    assert(s@ =~= seq!['M']);
                }
                let num = u32_to_string(*n);
                s.append(num.as_str());
                s
            },
            PreRelease::Other(t) => t.clone(),
        }
    }
}

impl Version {
    /// The text this version prints as.
    pub fn display_string(&self) -> (r: String)
        ensures
            r@ == display_version(self@),
    {
        match self {
            Version::SemVer { major, minor, patch, pre_release } => {
                proof {
                    reveal_strlit(".");
                    reveal_strlit("-");
                }
                let mut s = u32_to_string(*major);
                s.append(".");
                let minor_s = u32_to_string(*minor);
                s.append(minor_s.as_str());
                s.append(".");
                let patch_s = u32_to_string(*patch);
                s.append(patch_s.as_str());
                match pre_release {
                    None => {
                        proof {
                            assert(s@ =~= display_version(self@));
                        }
                        s
                    },
                    Some(p) => {
                        s.append("-");
                        let pre_s = p.display_string();
                        s.append(pre_s.as_str());
                        proof {
                            assert(s@ =~= display_version(self@));
                        }
                        s
                    },
                }
            },
            Version::Other(t) => t.clone(),
        }
    }
}

// ---------------------------------------------------------------------
// The order is a strict total order.
// ---------------------------------------------------------------------

pub proof fn lemma_lex_cmp_eq(a: Seq<char>, b: Seq<char>)
    ensures
        lex_cmp(a, b) == Ordering::Equal <==> a == b,
    decreases a.len(),
{
    if a.len() == 0 && b.len() == 0 {
        assert(a =~= b);
    } else if a.len() == 0 || b.len() == 0 {
    } else if (a[0] as u32) == (b[0] as u32) {
        vstd::utf8::char_u32_cast(a[0], a[0] as u32);
        vstd::utf8::char_u32_cast(b[0], b[0] as u32);
        lemma_lex_cmp_eq(a.drop_first(), b.drop_first());
        if lex_cmp(a, b) == Ordering::Equal {
            assert forall|i: int| 0 <= i < a.len() implies a[i] == b[i] by {
                if i > 0 {
                    assert(a.drop_first()[i - 1] == a[i]);
                    assert(b.drop_first()[i - 1] == b[i]);
                }
            }
            assert(a =~= b);
        } else {
            if a == b {
                assert(a.drop_first() =~= b.drop_first());
            }
        }
    } else {
        if a == b {
            assert(a[0] == b[0]);
        }
    }
}

pub proof fn lemma_lex_cmp_antisym(a: Seq<char>, b: Seq<char>)
    ensures
        lex_cmp(a, b) == Ordering::Less <==> lex_cmp(b, a) == Ordering::Greater,
    decreases a.len(),
{
    if a.len() > 0 && b.len() > 0 && (a[0] as u32) == (b[0] as u32) {
        lemma_lex_cmp_antisym(a.drop_first(), b.drop_first());
    }
}

pub proof fn lemma_lex_cmp_trans(a: Seq<char>, b: Seq<char>, c: Seq<char>)
    requires
        lex_cmp(a, b) == Ordering::Less,
        lex_cmp(b, c) == Ordering::Less,
    ensures
        lex_cmp(a, c) == Ordering::Less,
    decreases a.len(),
{
    if a.len() == 0 {
    } else if (a[0] as u32) == (b[0] as u32) && (b[0] as u32) == (c[0] as u32) {
        lemma_lex_cmp_trans(a.drop_first(), b.drop_first(), c.drop_first());
    }
}

proof fn lemma_pre_cmp_eq(a: PreReleaseView, b: PreReleaseView)
    ensures
        pre_cmp(a, b) == Ordering::Equal <==> a == b,
{
    match (a, b) {
        (PreReleaseView::Other(x), PreReleaseView::Other(y)) => {
            lemma_lex_cmp_eq(x, y);
        },
        _ => {},
    }
}

proof fn lemma_pre_cmp_antisym(a: PreReleaseView, b: PreReleaseView)
    ensures
        pre_cmp(a, b) == Ordering::Less <==> pre_cmp(b, a) == Ordering::Greater,
{
    match (a, b) {
        (PreReleaseView::Other(x), PreReleaseView::Other(y)) => {
            lemma_lex_cmp_antisym(x, y);
        },
        _ => {},
    }
}

proof fn lemma_pre_cmp_trans(a: PreReleaseView, b: PreReleaseView, c: PreReleaseView)
    requires
        pre_cmp(a, b) == Ordering::Less,
        pre_cmp(b, c) == Ordering::Less,
    ensures
        pre_cmp(a, c) == Ordering::Less,
{
    match (a, b, c) {
        (PreReleaseView::Other(x), PreReleaseView::Other(y), PreReleaseView::Other(z)) => {
            lemma_lex_cmp_trans(x, y, z);
        },
        _ => {},
    }
}

/// The version comparator tells two versions apart exactly when they are
/// equal, and reverses when its operands are swapped: together with
/// [`lemma_version_cmp_transitive`] it is a strict total order.
pub proof fn lemma_version_cmp_antisymmetric(a: VersionView, b: VersionView)
    ensures
        version_cmp(a, b) == Ordering::Equal <==> a == b,
        version_cmp(a, b) == Ordering::Less <==> version_cmp(b, a) == Ordering::Greater,
{
    match (a, b) {
        (VersionView::Other(x), VersionView::Other(y)) => {
            lemma_lex_cmp_eq(x, y);
            lemma_lex_cmp_antisym(x, y);
        },
        (
            VersionView::SemVer { major: m1, minor: n1, patch: p1, pre_release: pr1 },
            VersionView::SemVer { major: m2, minor: n2, patch: p2, pre_release: pr2 },
        ) => {
            match (pr1, pr2) {
                (Some(x), Some(y)) => {
                    lemma_pre_cmp_eq(x, y);
                    lemma_pre_cmp_antisym(x, y);
                },
                _ => {},
            }
        },
        _ => {},
    }
}

/// The version order is transitive.
pub proof fn lemma_version_cmp_transitive(a: VersionView, b: VersionView, c: VersionView)
    requires
        version_cmp(a, b) == Ordering::Less,
        version_cmp(b, c) == Ordering::Less,
    ensures
        version_cmp(a, c) == Ordering::Less,
{
    match (a, b, c) {
        (VersionView::Other(x), VersionView::Other(y), VersionView::Other(z)) => {
            lemma_lex_cmp_trans(x, y, z);
        },
        (
            VersionView::SemVer { major: m1, minor: n1, patch: p1, pre_release: pr1 },
            VersionView::SemVer { major: m2, minor: n2, patch: p2, pre_release: pr2 },
            VersionView::SemVer { major: m3, minor: n3, patch: p3, pre_release: pr3 },
        ) => {
            match (pr1, pr2, pr3) {
                (Some(x), Some(y), Some(z)) => {
                    if m1 == m2 && n1 == n2 && p1 == p2 && m2 == m3 && n2 == n3 && p2 == p3 {
                        lemma_pre_cmp_trans(x, y, z);
                    }
                },
                _ => {},
            }
        },
        _ => {},
    }
}

/// Any parsed version sorts below any unparsed one, whatever either
/// looks like; and the pre-release tiers order `RC` above `M` above any
/// other tag.
pub proof fn lemma_order_conventions(a: VersionView, b: VersionView, n: u32, m: u32, t: Seq<char>)
    ensures
        a is SemVer && b is Other ==> version_cmp(a, b) == Ordering::Less,
        pre_cmp(PreReleaseView::RC(n), PreReleaseView::M(m)) == Ordering::Greater,
        pre_cmp(PreReleaseView::RC(n), PreReleaseView::Other(t)) == Ordering::Greater,
        pre_cmp(PreReleaseView::M(m), PreReleaseView::Other(t)) == Ordering::Greater,
{
}

// ---------------------------------------------------------------------
// Parsing the displayed text gives the parsed version back.
// ---------------------------------------------------------------------

proof fn lemma_dec_str_digits(n: nat)
    ensures
        is_digits(dec_str(n)),
        digits_val(dec_str(n)) == n,
        dec_str(n).len() >= 1,
    decreases n,
{
    if n < 10 {
        let w = dec_str(n);
        assert(w =~= seq![dec_digit(n)]);
        assert(w.drop_last() =~= Seq::<char>::empty());
        assert(w.last() == dec_digit(n));
        assert(digit_val(dec_digit(n)) == n);
        assert(digits_val(w) == digits_val(Seq::<char>::empty()) * 10 + digit_val(dec_digit(n)));
    } else {
        lemma_dec_str_digits(n / 10);
        vstd::arithmetic::div_mod::lemma_fundamental_div_mod(n as int, 10);
        let d = dec_str(n / 10);
        let w = dec_str(n);
        assert(w == d.push(dec_digit(n % 10)));
        assert(w.drop_last() =~= d);
        assert(digit_val(dec_digit(n % 10)) == n % 10);
        assert(digits_val(w) == digits_val(d) * 10 + n % 10);
        assert(forall|i: int| 0 <= i < d.len() ==> w[i] == d[i]);
        assert(is_digit(w[w.len() - 1]));
    }
}

/// A digit run that denotes a value in range reads back as that value.
proof fn lemma_parse_u32_dec_str(n: u32)
    ensures
        parse_u32(dec_str(n as nat)) == Some(n),
{
    lemma_dec_str_digits(n as nat);
    let s = dec_str(n as nat);
    assert(!is_digit('+'));
    assert(s[0] != '+');
}

/// A pre-release tag as produced by the parse: an `Other` tag never
/// carries the text of an `RC` or `M` tag.
pub open spec fn pre_in_parsed_form(p: Option<PreReleaseView>) -> bool {
    match p {
        Some(PreReleaseView::Other(t)) => !(t.len() >= 2 && t[0] == 'R' && t[1] == 'C'
            && is_digits(t.skip(2))) && !(t.len() >= 1 && t[0] == 'M' && is_digits(t.skip(1))),
        _ => true,
    }
}

proof fn lemma_parse_pre_form(s: Seq<char>)
    ensures
        pre_in_parsed_form(Some(parse_pre_release(s))),
{
}

proof fn lemma_parse_version_form(s: Seq<char>)
    ensures
        parse_version(s) matches VersionView::SemVer { pre_release, .. } ==> pre_in_parsed_form(
            pre_release,
        ),
{
    match find_char(s, '.') {
        None => {},
        Some(i) => {
            let rest = s.skip(i + 1);
            match find_char(rest, '.') {
                None => {
                    let (_, pre_s) = split_pre(rest);
                    match pre_s {
                        None => {},
                        Some(t) => {
                            lemma_parse_pre_form(t);
                        },
                    }
                },
                Some(j) => {
                    let third = rest.skip(j + 1);
                    let (_, pre_s) = split_pre(third);
                    match pre_s {
                        None => {},
                        Some(t) => {
                            lemma_parse_pre_form(t);
                        },
                    }
                },
            }
        },
    }
}

/// Parsing the display of a parsed version in parsed form gives it back.
#[verifier::rlimit(100)]
proof fn lemma_parse_of_display(v: VersionView)
    requires
        v matches VersionView::SemVer { pre_release, .. } && pre_in_parsed_form(pre_release),
    ensures
        parse_version(display_version(v)) == v,
{
    let (major, minor, patch, pre) = match v {
        VersionView::SemVer { major, minor, patch, pre_release } => (
            major,
            minor,
            patch,
            pre_release,
        ),
        VersionView::Other(s) => arbitrary(),
    };
    lemma_parse_u32_dec_str(major);
    lemma_parse_u32_dec_str(minor);
    lemma_parse_u32_dec_str(patch);
    lemma_dec_str_digits(major as nat);
    lemma_dec_str_digits(minor as nat);
    lemma_dec_str_digits(patch as nat);
    let ma = dec_str(major as nat);
    let mi = dec_str(minor as nat);
    let pa = dec_str(patch as nat);
    let tail = match pre {
        None => Seq::<char>::empty(),
        Some(p) => seq!['-'] + display_pre(p),
    };
    let d = display_version(v);
    assert(d =~= ma + seq!['.'] + mi + seq!['.'] + pa + tail);
    assert(!is_digit('.') && !is_digit('-'));

    // the first dot stands right after the major digits
    let i = ma.len() as int;
    assert(d[i] == '.');
    assert forall|k: int| 0 <= k < i implies d[k] != '.' by {
        assert(d[k] == ma[k]);
    }
    lemma_find_char_at(d, '.', i);
    assert(d.take(i) =~= ma);

    // the second dot stands right after the minor digits
    let rest = d.skip(i + 1);
    assert(rest =~= mi + seq!['.'] + pa + tail);
    let j = mi.len() as int;
    assert(rest[j] == '.');
    assert forall|k: int| 0 <= k < j implies rest[k] != '.' by {
        assert(rest[k] == mi[k]);
    }
    lemma_find_char_at(rest, '.', j);
    assert(rest.take(j) =~= mi);

    let third = rest.skip(j + 1);
    assert(third =~= pa + tail);
    match pre {
        None => {
            assert(third =~= pa);
            lemma_find_char(third, '-');
            assert(find_char(third, '-') is None);
            assert(parse_version(d) == v);
        },
        Some(p) => {
            let l = pa.len() as int;
            assert(third[l] == '-');
            assert forall|k: int| 0 <= k < l implies third[k] != '-' by {
                assert(third[k] == pa[k]);
            }
            lemma_find_char_at(third, '-', l);
            assert(third.take(l) =~= pa);
            let pt = third.skip(l + 1);
            assert(pt =~= display_pre(p));
            match p {
                PreReleaseView::RC(n) => {
                    lemma_parse_u32_dec_str(n);
                    lemma_dec_str_digits(n as nat);
                    assert(pt.skip(2) =~= dec_str(n as nat));
                    assert(is_digits(pt.skip(2)));
                    assert(parse_pre_release(pt) == PreReleaseView::RC(n));
                },
                PreReleaseView::M(n) => {
                    lemma_parse_u32_dec_str(n);
                    lemma_dec_str_digits(n as nat);
                    assert(pt =~= seq!['M'] + dec_str(n as nat));
                    assert(pt.skip(1) =~= dec_str(n as nat));
                    assert(is_digits(pt.skip(1)));
                    assert(pt[0] == 'M');
                    assert(parse_pre_release(pt) == PreReleaseView::M(n));
                },
                PreReleaseView::Other(t) => {
                    assert(pt =~= t);
                    assert(parse_pre_release(pt) == PreReleaseView::Other(t));
                },
            }
            assert(parse_version(d) == v);
        },
    }
}

/// Reading a version back from its own printed text never changes it:
/// for every input, parsing the display of the parse equals the parse.
pub proof fn lemma_parse_display_roundtrip(s: Seq<char>)
    ensures
        parse_version(display_version(parse_version(s))) == parse_version(s),
{
    let v = parse_version(s);
    match v {
        VersionView::SemVer { .. } => {
            lemma_parse_version_form(s);
            lemma_parse_of_display(v);
        },
        VersionView::Other(t) => {
            assert(parse_semver(s) is None);
            assert(t == s);
            assert(display_version(v) == s);
        },
    }
}

} // verus!
