//! Semantic versions `major.minor.patch` and their text form.

use pubgrub::version::SemanticVersion;
use vstd::prelude::*;
use crate::text::{decimal, find, lemma_decimal, lemma_decimal_lacks, lemma_decimal_of_value,
    lemma_find, lemma_find_unique, parse_u32, split_on, all_digits, decimal_value};

verus! {

/// A semantic version, ordered by major, then minor, then patch.
#[derive(Debug, Clone, Copy, PartialEq, Eq, Structural, PartialOrd, Ord, Hash)]
pub struct SemVer {
    pub major: u32,
    pub minor: u32,
    pub patch: u32,
}

/// Why a text is not a semantic version.
#[derive(Debug, Clone, PartialEq, Eq)]
pub enum VersionParseError {
    /// The text does not consist of three parts separated by dots.
    NotThreeParts {
        /// The text that was being parsed.
        full_version: String,
    },
    /// One of the three parts is not a number that fits in 32 bits.
    ParseIntError {
        /// The text that was being parsed.
        full_version: String,
        /// The first part that is not such a number.
        version_part: String,
        /// What the number parser reported.
        parse_error: String,
    },
}

/// The text form `major.minor.patch` of a version, each number in decimal.
pub open spec fn semver_text(v: SemVer) -> Seq<char> {
    decimal(v.major as nat) + seq!['.'] + decimal(v.minor as nat) + seq!['.'] + decimal(
        v.patch as nat,
    )
}

/// The version that a text denotes: three dot-separated parts, each a number
/// that fits in 32 bits.
pub open spec fn semver_of_text(s: Seq<char>) -> Option<SemVer> {
    let parts = split_on(s, '.');
    if parts.len() != 3 {
        None
    } else {
        match (parse_u32(parts[0]), parse_u32(parts[1]), parse_u32(parts[2])) {
            (Some(major), Some(minor), Some(patch)) => Some(SemVer { major, minor, patch }),
            _ => None,
        }
    }
}

/// The first of the three parts of `s` that is not a number.
pub open spec fn first_bad_part(s: Seq<char>) -> Seq<char> {
    let parts = split_on(s, '.');
    if parse_u32(parts[0]) is None {
        parts[0]
    } else if parse_u32(parts[1]) is None {
        parts[1]
    } else {
        parts[2]
    }
}

/// Whether `e` is the error that reading the text `s` as a version gives.
pub open spec fn is_parse_error_of(e: VersionParseError, s: Seq<char>) -> bool {
    match e {
        VersionParseError::NotThreeParts { full_version } => split_on(s, '.').len() != 3
            && full_version@ == s,
        VersionParseError::ParseIntError { full_version, version_part, parse_error } => split_on(
            s,
            '.',
        ).len() == 3 && semver_of_text(s) is None && full_version@ == s && version_part@
            == first_bad_part(s),
    }
}

/// Calls `SemanticVersion::from_str` of pubgrub. The contract claims that it
/// splits the text at every dot, wants exactly three parts, and reads each
/// part as `u32::from_str` does; that on failure it reports the whole text
/// and, for a part that is no number, the first such part.
#[verifier::external_body]
fn pubgrub_parse_version(s: &str) -> (r: Result<SemVer, VersionParseError>)
    ensures
        match r {
            Ok(v) => semver_of_text(s@) == Some(v),
            Err(e) => semver_of_text(s@) is None && is_parse_error_of(e, s@),
        },
{
    match s.parse::<SemanticVersion>() {
        Ok(v) => {
            let (major, minor, patch) = v.into();
            Ok(SemVer { major, minor, patch })
        },
        Err(pubgrub::version::VersionParseError::NotThreeParts { full_version }) => {
            Err(VersionParseError::NotThreeParts { full_version })
        },
        Err(pubgrub::version::VersionParseError::ParseIntError { full_version, version_part, parse_error }) => {
            Err(VersionParseError::ParseIntError { full_version, version_part, parse_error })
        },
    }
}

/// Calls the `Display` of pubgrub's `SemanticVersion`. The contract claims
/// that it writes the three numbers in decimal with a dot between them.
#[verifier::external_body]
fn pubgrub_version_text(v: SemVer) -> (r: String)
    ensures
        r@ == semver_text(v),
{
    SemanticVersion::new(v.major, v.minor, v.patch).to_string()
}

impl SemVer {
    /// Whether `self` comes strictly before `other`.
    pub open spec fn spec_lt(self, other: SemVer) -> bool {
        self.major < other.major || (self.major == other.major && (self.minor < other.minor || (
        self.minor == other.minor && self.patch < other.patch)))
    }

    /// Whether `self` comes before `other` or equals it.
    pub open spec fn spec_le(self, other: SemVer) -> bool {
        self.spec_lt(other) || self == other
    }

    /// The version with the patch number raised by one.
    pub open spec fn spec_bump_patch(self) -> SemVer {
        SemVer { major: self.major, minor: self.minor, patch: (self.patch + 1) as u32 }
    }

    /// Whether the patch number can be raised without leaving 32 bits.
    pub open spec fn can_bump(self) -> bool {
        self.patch < u32::MAX
    }

    /// The version `major.minor.patch`.
    pub fn new(major: u32, minor: u32, patch: u32) -> (v: SemVer)
        ensures
            v == (SemVer { major, minor, patch }),
    {
        SemVer { major, minor, patch }
    }

    /// The version of three numbers: major, minor and patch.
    pub fn from_triple(triple: (u32, u32, u32)) -> (v: SemVer)
        ensures
            v == (SemVer { major: triple.0, minor: triple.1, patch: triple.2 }),
    {
        SemVer { major: triple.0, minor: triple.1, patch: triple.2 }
    }

    /// Version 0.0.0, the lowest of all.
    pub fn zero() -> (v: SemVer)
        ensures
            v == (SemVer { major: 0, minor: 0, patch: 0 }),
            forall|u: SemVer| v.spec_le(u),
    {
        SemVer { major: 0, minor: 0, patch: 0 }
    }

    /// The next version: the smallest one that is strictly higher.
    pub fn bump_patch(self) -> (v: SemVer)
        requires
            self.can_bump(),
        ensures
            v == self.spec_bump_patch(),
            self.spec_lt(v),
            forall|u: SemVer| self.spec_lt(u) ==> v.spec_le(u),
    {
        SemVer { major: self.major, minor: self.minor, patch: self.patch + 1 }
    }

    /// The smallest version strictly higher than `self`, if there is one.
    pub open spec fn spec_successor(self) -> Option<SemVer> {
        if self.patch < u32::MAX {
            Some(SemVer { major: self.major, minor: self.minor, patch: (self.patch + 1) as u32 })
        } else if self.minor < u32::MAX {
            Some(SemVer { major: self.major, minor: (self.minor + 1) as u32, patch: 0 })
        } else if self.major < u32::MAX {
            Some(SemVer { major: (self.major + 1) as u32, minor: 0, patch: 0 })
        } else {
            None
        }
    }

    /// The smallest version strictly higher than `self`; none for the
    /// highest version that 32-bit numbers can write. Where the patch number
    /// can be raised this is `bump_patch`.
    pub fn successor(self) -> (r: Option<SemVer>)
        ensures
            r == self.spec_successor(),
            self.can_bump() ==> r == Some(self.spec_bump_patch()),
            match r {
                Some(n) => self.spec_lt(n) && forall|u: SemVer| self.spec_lt(u) ==> n.spec_le(u),
                None => forall|u: SemVer| u.spec_le(self),
            },
    {
        if self.patch < u32::MAX {
            Some(SemVer { major: self.major, minor: self.minor, patch: self.patch + 1 })
        } else if self.minor < u32::MAX {
            Some(SemVer { major: self.major, minor: self.minor + 1, patch: 0 })
        } else if self.major < u32::MAX {
            Some(SemVer { major: self.major + 1, minor: 0, patch: 0 })
        } else {
            None
        }
    }

    /// Whether `self` comes strictly before `other`.
    pub fn lt(&self, other: &SemVer) -> (b: bool)
        ensures
            b == self.spec_lt(*other),
    {
        self.major < other.major || (self.major == other.major && (self.minor < other.minor || (
        self.minor == other.minor && self.patch < other.patch)))
    }

    /// Whether `self` comes before `other` or equals it.
    pub fn le(&self, other: &SemVer) -> (b: bool)
        ensures
            b == self.spec_le(*other),
    {
        self.lt(other) || (self.major == other.major && self.minor == other.minor && self.patch
            == other.patch)
    }

    /// Reads a version from its text form `major.minor.patch`.
    pub fn from_str(s: &str) -> (r: Result<SemVer, VersionParseError>)
        ensures
            match r {
                Ok(v) => semver_of_text(s@) == Some(v),
                Err(e) => semver_of_text(s@) is None && is_parse_error_of(e, s@),
            },
    {
        pubgrub_parse_version(s)
    }

    /// The text form `major.minor.patch`.
    pub fn to_string(&self) -> (r: String)
        ensures
            r@ == semver_text(*self),
    {
        pubgrub_version_text(*self)
    }
}

/// The order of versions is a strict total order.
pub proof fn lemma_version_order(a: SemVer, b: SemVer, c: SemVer)
    ensures
        !a.spec_lt(a),
        a.spec_lt(b) || a == b || b.spec_lt(a),
        a.spec_lt(b) ==> !b.spec_lt(a),
        a.spec_lt(b) && b.spec_lt(c) ==> a.spec_lt(c),
        a.spec_le(b) <==> !b.spec_lt(a),
{
}

/// Splitting `a.b` at the first dot, where `a` holds no dot.
proof fn lemma_split_head(a: Seq<char>, rest: Seq<char>)
    requires
        !a.contains('.'),
    ensures
        split_on(a + seq!['.'] + rest, '.') == seq![a] + split_on(rest, '.'),
{
    let s = a + seq!['.'] + rest;
    let i = a.len() as int;
    assert(s[i] == '.');
    assert forall|j: int| 0 <= j < i implies s[j] != '.' by {
        assert(s[j] == a[j]);
        assert(a.contains(a[j]));
    }
    lemma_find_unique(s, '.', i);
    assert(s.subrange(0, i) =~= a);
    assert(s.subrange(i + 1, s.len() as int) =~= rest);
}

/// Reading the text form of a version gives the version back.
pub proof fn lemma_text_round_trip(v: SemVer)
    ensures
        semver_of_text(semver_text(v)) == Some(v),
{
    let a = decimal(v.major as nat);
    let b = decimal(v.minor as nat);
    let c = decimal(v.patch as nat);
    lemma_decimal_lacks(v.major as nat, '.');
    lemma_decimal_lacks(v.minor as nat, '.');
    lemma_decimal_lacks(v.patch as nat, '.');
    lemma_decimal(v.major as nat);
    lemma_decimal(v.minor as nat);
    lemma_decimal(v.patch as nat);
    assert(semver_text(v) =~= a + seq!['.'] + (b + seq!['.'] + c));
    lemma_split_head(a, b + seq!['.'] + c);
    lemma_split_head(b, c);
    lemma_find(c, '.');
    assert(split_on(c, '.') == seq![c]);
    let parts = split_on(semver_text(v), '.');
    assert(parts =~= seq![a, b, c]);
    assert(a[0] != '+' && b[0] != '+' && c[0] != '+') by {
        assert(crate::text::is_digit(a[0]));
        assert(crate::text::is_digit(b[0]));
        assert(crate::text::is_digit(c[0]));
    }
}

/// The text form of a version is not empty and holds digits and dots only.
pub proof fn lemma_text_characters(v: SemVer)
    ensures
        semver_text(v).len() > 0,
        forall|j: int|
            0 <= j < semver_text(v).len() ==> crate::text::is_digit(#[trigger] semver_text(v)[j])
                || semver_text(v)[j] == '.',
{
    let a = decimal(v.major as nat);
    let b = decimal(v.minor as nat);
    let c = decimal(v.patch as nat);
    lemma_decimal(v.major as nat);
    lemma_decimal(v.minor as nat);
    lemma_decimal(v.patch as nat);
    let s = semver_text(v);
    assert forall|j: int| 0 <= j < s.len() implies crate::text::is_digit(#[trigger] s[j]) || s[j]
        == '.' by {
        if j < a.len() {
            assert(s[j] == a[j]);
        } else if j == a.len() {
        } else if j < a.len() + 1 + b.len() {
            assert(s[j] == b[j - a.len() - 1]);
        } else if j == a.len() + 1 + b.len() {
        } else {
            assert(s[j] == c[j - a.len() - b.len() - 2]);
        }
    }
}

/// Whether `s` is a number as the text form writes it: digits only, no
/// leading zero but for the number zero itself.
pub open spec fn is_plain_number(s: Seq<char>) -> bool {
    s.len() > 0 && all_digits(s) && (s.len() > 1 ==> s[0] != '0')
}

/// Whether `s` is the text form of some version: three plain numbers with a
/// dot between them.
pub open spec fn is_plain_version(s: Seq<char>) -> bool {
    let parts = split_on(s, '.');
    parts.len() == 3 && is_plain_number(parts[0]) && is_plain_number(parts[1]) && is_plain_number(
        parts[2],
    )
}

/// A text split at its dots and joined again with dots is the same text.
proof fn lemma_split_three(s: Seq<char>)
    requires
        split_on(s, '.').len() == 3,
    ensures
        s == split_on(s, '.')[0] + seq!['.'] + split_on(s, '.')[1] + seq!['.'] + split_on(
            s,
            '.',
        )[2],
{
    lemma_find(s, '.');
    let i = find(s, '.');
    if i < s.len() {
        let a = s.subrange(0, i);
        let r1 = s.subrange(i + 1, s.len() as int);
        lemma_find(r1, '.');
        let j = find(r1, '.');
        assert(split_on(s, '.') == seq![a] + split_on(r1, '.'));
        if j < r1.len() {
            let b = r1.subrange(0, j);
            let r2 = r1.subrange(j + 1, r1.len() as int);
            lemma_find(r2, '.');
            assert(split_on(r1, '.') == seq![b] + split_on(r2, '.'));
            if find(r2, '.') < r2.len() {
                let r3 = r2.subrange(find(r2, '.') + 1, r2.len() as int);
                assert(split_on(r3, '.').len() >= 1);
                assert(split_on(r2, '.').len() >= 2);
                assert(false);
            }
            assert(split_on(r2, '.') == seq![r2]);
            assert(split_on(s, '.') =~= seq![a, b, r2]);
            assert(r1 =~= b + seq!['.'] + r2);
            assert(s =~= a + seq!['.'] + r1);
            assert(s =~= a + seq!['.'] + b + seq!['.'] + r2);
        } else {
            assert(split_on(r1, '.') == seq![r1]);
            assert(false);
        }
    } else {
        assert(false);
    }
}

/// Writing the version read from a plainly written text gives the text back.
pub proof fn lemma_plain_text_round_trip(s: Seq<char>)
    requires
        is_plain_version(s),
        semver_of_text(s) is Some,
    ensures
        semver_text(semver_of_text(s).unwrap()) == s,
{
    let parts = split_on(s, '.');
    lemma_split_three(s);
    lemma_decimal_of_value(parts[0]);
    lemma_decimal_of_value(parts[1]);
    lemma_decimal_of_value(parts[2]);
    assert(crate::text::is_digit(parts[0][0]));
    assert(crate::text::is_digit(parts[1][0]));
    assert(crate::text::is_digit(parts[2][0]));
}

} // verus!
