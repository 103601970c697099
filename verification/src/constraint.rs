//! Version constraints: sets of versions, held as ranges of the pubgrub
//! crate, and the text form `v1 <= v < v2` that manifests write them in.

use vstd::prelude::*;
use crate::text::{same_text, split_whitespace, texts, words};
use crate::version::{semver_of_text, semver_text, SemVer, VersionParseError};

verus! {

/// One interval of versions: from `lo` on, up to and without `hi`, or
/// without end where `hi` is `None`.
pub struct Interval {
    pub lo: SemVer,
    pub hi: Option<SemVer>,
}

/// A set of versions. It is a newtype for the ranges of the pubgrub crate.
#[verifier::external_body]
#[derive(Debug)]
pub struct Constraint(pub pubgrub::range::Range<pubgrub::version::SemanticVersion>);

/// Error creating a [`Constraint`] from a text.
#[derive(Debug, PartialEq)]
pub enum ConstraintParseError {
    /// A constraint has the shape `v1 <= v < v2`: five words, the third of
    /// which is the letter `v`.
    InvalidFormat {
        /// Constraint that was being parsed.
        full_constraint: String,
    },
    /// The separators allowed are `<=` and `<`.
    InvalidSeparator {
        /// Constraint that was being parsed.
        full_constraint: String,
    },
    /// One of the two versions is not a version.
    InvalidVersion(VersionParseError),
}

/// Names the intervals that a pubgrub range is made of, in the order in which
/// the range holds them.
pub uninterp spec fn range_segments(c: Constraint) -> Seq<Interval>;

/// Whether the interval holds the version.
pub open spec fn interval_holds(iv: Interval, v: SemVer) -> bool {
    iv.lo.spec_le(v) && match iv.hi {
        Some(h) => v.spec_lt(h),
        None => true,
    }
}

/// Whether one of the intervals holds the version.
pub open spec fn segments_hold(segments: Seq<Interval>, v: SemVer) -> bool {
    exists|i: int| 0 <= i < segments.len() && interval_holds(#[trigger] segments[i], v)
}

/// The form in which pubgrub keeps the intervals of a range: none is empty,
/// each ends strictly before the next begins, and only the last may be
/// without end.
pub open spec fn canonical(segments: Seq<Interval>) -> bool {
    &&& forall|i: int|
        0 <= i < segments.len() ==> match (#[trigger] segments[i]).hi {
            Some(h) => segments[i].lo.spec_lt(h),
            None => i == segments.len() - 1,
        }
    &&& forall|i: int, j: int|
        0 <= i < j < segments.len() ==> match (#[trigger] segments[i]).hi {
            Some(h) => h.spec_lt((#[trigger] segments[j]).lo),
            None => false,
        }
}

/// The text of a range that is one interval with both ends.
pub open spec fn bounded_text(lo: SemVer, hi: SemVer) -> Seq<char> {
    semver_text(lo) + seq![' ', '<', '=', ' ', 'v', ' ', '<', ' '] + semver_text(hi)
}

/// The text of one interval among several: `[ lo, hi [`, with `∞` for a
/// missing end.
pub open spec fn interval_text(iv: Interval) -> Seq<char> {
    match iv.hi {
        Some(hi) => seq!['[', ' '] + semver_text(iv.lo) + seq![',', ' '] + semver_text(hi) + seq![
            ' ',
            '[',
        ],
        None => seq!['[', ' '] + semver_text(iv.lo) + seq![',', ' ', '∞', ' ', '['],
    }
}

/// The texts of the intervals, with two spaces between one and the next.
pub open spec fn intervals_text(segments: Seq<Interval>) -> Seq<char>
    decreases segments.len(),
{
    if segments.len() == 0 {
        Seq::empty()
    } else if segments.len() == 1 {
        interval_text(segments[0])
    } else {
        intervals_text(segments.drop_last()) + seq![' ', ' '] + interval_text(segments.last())
    }
}

/// The text that pubgrub writes for a range: `∅` for no version, `∗` for
/// all, `lo <= v` for the versions from `lo` on, `lo` for the one version
/// `lo`, `v < hi` for the versions below `hi`, `lo <= v < hi` for one
/// other interval, and the list of the intervals where there are several.
pub open spec fn range_text(segments: Seq<Interval>) -> Seq<char> {
    let zero = SemVer { major: 0, minor: 0, patch: 0 };
    if segments.len() == 0 {
        seq!['∅']
    } else if segments.len() == 1 {
        let lo = segments[0].lo;
        match segments[0].hi {
            None => if lo == zero {
                seq!['∗']
            } else {
                semver_text(lo) + seq![' ', '<', '=', ' ', 'v']
            },
            Some(hi) => if hi == lo.spec_bump_patch() {
                semver_text(lo)
            } else if lo == zero {
                seq!['v', ' ', '<', ' '] + semver_text(hi)
            } else {
                bounded_text(lo, hi)
            },
        }
    } else {
        intervals_text(segments)
    }
}

/// Whether pubgrub writes the range as `lo <= v < hi`: it is one interval
/// with both ends, does not begin at version 0.0.0, and holds more than one
/// version.
pub open spec fn is_plain_interval(segments: Seq<Interval>) -> bool {
    &&& segments.len() == 1
    &&& segments[0].hi is Some
    &&& segments[0].lo != (SemVer { major: 0, minor: 0, patch: 0 })
    &&& segments[0].lo.can_bump()
    &&& segments[0].hi != Some(segments[0].lo.spec_bump_patch())
}

/// Whether the `Display` of pubgrub can write the range: for a range of one
/// interval with both ends it raises the patch number of the lower end.
pub open spec fn is_printable(segments: Seq<Interval>) -> bool {
    segments.len() == 1 && segments[0].hi is Some ==> segments[0].lo.can_bump()
}

/// Whether the word is one of the two separators, `<=` and `<`.
pub open spec fn is_separator(word: Seq<char>) -> bool {
    word == seq!['<', '='] || word == seq!['<']
}

/// Whether `v` is within the lower bound: at or above it after `<=`, strictly
/// above it after `<`.
pub open spec fn lower_admits(separator: Seq<char>, bound: SemVer, v: SemVer) -> bool {
    if separator == seq!['<', '='] {
        bound.spec_le(v)
    } else {
        bound.spec_lt(v)
    }
}

/// Whether `v` is within the upper bound: strictly below it before `<`, at
/// or below it before `<=`.
pub open spec fn upper_admits(separator: Seq<char>, bound: SemVer, v: SemVer) -> bool {
    if separator == seq!['<'] {
        v.spec_lt(bound)
    } else {
        v.spec_le(bound)
    }
}

/// Whether the words have the shape of a constraint: five words, of which
/// the third is the letter `v`.
pub open spec fn has_constraint_shape(w: Seq<Seq<char>>) -> bool {
    w.len() == 5 && w[2] == seq!['v']
}

/// The versions that five words `v1 sep1 v sep2 v2` admit, where the third
/// word is the letter `v` and the two versions and the two separators are
/// well formed.
pub open spec fn constraint_of_words(w: Seq<Seq<char>>) -> Option<Set<SemVer>> {
    if has_constraint_shape(w) && semver_of_text(w[0]) is Some && semver_of_text(w[4]) is Some
        && is_separator(w[1]) && is_separator(w[3]) {
        Some(
            Set::new(
                |v: SemVer|
                    lower_admits(w[1], semver_of_text(w[0]).unwrap(), v) && upper_admits(
                        w[3],
                        semver_of_text(w[4]).unwrap(),
                        v,
                    ),
            ),
        )
    } else {
        None
    }
}

/// The versions that a constraint text admits, if it is well formed.
pub open spec fn constraint_of_text(s: Seq<char>) -> Option<Set<SemVer>> {
    constraint_of_words(words(s))
}

/// Whether `e` is the error that reading the text `s` as a constraint
/// gives. A text that is not five words with the letter `v` for the third
/// is reported first, then a lower version that is none, then an upper
/// version that is none, then a separator that is none.
pub open spec fn is_constraint_error_of(e: ConstraintParseError, s: Seq<char>) -> bool {
    let w = words(s);
    match e {
        ConstraintParseError::InvalidFormat { full_constraint } => !has_constraint_shape(w)
            && full_constraint@ == s,
        ConstraintParseError::InvalidVersion(inner) => has_constraint_shape(w) && (
        if semver_of_text(w[0]) is None {
            crate::version::is_parse_error_of(inner, w[0])
        } else {
            semver_of_text(w[4]) is None && crate::version::is_parse_error_of(inner, w[4])
        }),
        ConstraintParseError::InvalidSeparator { full_constraint } => has_constraint_shape(w)
            && semver_of_text(w[0]) is Some && semver_of_text(w[4]) is Some && !(is_separator(w[1])
            && is_separator(w[3])) && full_constraint@ == s,
    }
}

/// Calls `Range::none`. The contract claims that the range has no interval.
#[verifier::external_body]
fn pubgrub_none() -> (r: Constraint)
    ensures
        range_segments(r) == Seq::<Interval>::empty(),
{
    Constraint(pubgrub::range::Range::none())
}

/// Calls `Range::any`. The contract claims that the range is the one
/// interval from version 0.0.0 on, without end.
#[verifier::external_body]
fn pubgrub_any() -> (r: Constraint)
    ensures
        range_segments(r) == seq![
            Interval { lo: SemVer { major: 0, minor: 0, patch: 0 }, hi: None },
        ],
{
    Constraint(pubgrub::range::Range::any())
}

/// Calls `Range::exact`. It raises the patch number of `v`, which must fit.
/// The contract claims that the range is the one interval from `v` up to
/// the next patch.
#[verifier::external_body]
fn pubgrub_exact(v: SemVer) -> (r: Constraint)
    requires
        v.can_bump(),
    ensures
        range_segments(r) == seq![Interval { lo: v, hi: Some(v.spec_bump_patch()) }],
{
    Constraint(pubgrub::range::Range::exact((v.major, v.minor, v.patch)))
}

/// Calls `Range::higher_than`. The contract claims that the range is the
/// one interval from `v` on, without end.
#[verifier::external_body]
fn pubgrub_higher_than(v: SemVer) -> (r: Constraint)
    ensures
        range_segments(r) == seq![Interval { lo: v, hi: None }],
{
    Constraint(pubgrub::range::Range::higher_than((v.major, v.minor, v.patch)))
}

/// Calls `Range::strictly_lower_than`. The contract claims that the range
/// has no interval for version 0.0.0 and else is the one interval from
/// 0.0.0 up to `v`.
#[verifier::external_body]
fn pubgrub_strictly_lower_than(v: SemVer) -> (r: Constraint)
    ensures
        range_segments(r) == if v == (SemVer { major: 0, minor: 0, patch: 0 }) {
            Seq::<Interval>::empty()
        } else {
            seq![Interval { lo: SemVer { major: 0, minor: 0, patch: 0 }, hi: Some(v) }]
        },
{
    Constraint(pubgrub::range::Range::strictly_lower_than((v.major, v.minor, v.patch)))
}

/// Calls `Range::between`. The contract claims that the range is the one
/// interval from `v1` up to `v2` where `v1` is lower, and has no interval
/// else.
#[verifier::external_body]
fn pubgrub_between(v1: SemVer, v2: SemVer) -> (r: Constraint)
    ensures
        range_segments(r) == if v1.spec_lt(v2) {
            seq![Interval { lo: v1, hi: Some(v2) }]
        } else {
            Seq::<Interval>::empty()
        },
{
    Constraint(
        pubgrub::range::Range::between((v1.major, v1.minor, v1.patch), (v2.major, v2.minor, v2.patch)),
    )
}

/// Calls `Range::negate`. The contract claims, of a range in canonical
/// form, that the result is in canonical form and holds the versions that
/// the range does not hold.
#[verifier::external_body]
fn pubgrub_negate(c: &Constraint) -> (r: Constraint)
    requires
        canonical(range_segments(*c)),
    ensures
        canonical(range_segments(r)),
        forall|v: SemVer|
            segments_hold(range_segments(r), v) <==> !segments_hold(range_segments(*c), v),
{
    Constraint(c.0.negate())
}

/// Calls `Range::intersection`. The contract claims, of two ranges in
/// canonical form, that the result is in canonical form and holds the
/// versions that both hold.
#[verifier::external_body]
fn pubgrub_intersection(a: &Constraint, b: &Constraint) -> (r: Constraint)
    requires
        canonical(range_segments(*a)),
        canonical(range_segments(*b)),
    ensures
        canonical(range_segments(r)),
        forall|v: SemVer|
            segments_hold(range_segments(r), v) <==> (segments_hold(range_segments(*a), v)
                && segments_hold(range_segments(*b), v)),
{
    Constraint(a.0.intersection(&b.0))
}

/// Calls `Range::union`. The contract claims, of two ranges in canonical
/// form, that the result is in canonical form and holds the versions that
/// one of them holds.
#[verifier::external_body]
fn pubgrub_union(a: &Constraint, b: &Constraint) -> (r: Constraint)
    requires
        canonical(range_segments(*a)),
        canonical(range_segments(*b)),
    ensures
        canonical(range_segments(r)),
        forall|v: SemVer|
            segments_hold(range_segments(r), v) <==> (segments_hold(range_segments(*a), v)
                || segments_hold(range_segments(*b), v)),
{
    Constraint(a.0.union(&b.0))
}

/// Calls `Range::contains`. The contract claims, of a range in canonical
/// form, that it tells whether one of the intervals holds the version.
#[verifier::external_body]
fn pubgrub_contains(c: &Constraint, v: SemVer) -> (b: bool)
    requires
        canonical(range_segments(*c)),
    ensures
        b == segments_hold(range_segments(*c), v),
{
    c.0.contains(&pubgrub::version::SemanticVersion::new(v.major, v.minor, v.patch))
}

/// Calls `Range::lowest_version`. The contract claims that it gives the
/// start of the first interval, and nothing for a range without intervals.
#[verifier::external_body]
fn pubgrub_lowest_version(c: &Constraint) -> (r: Option<SemVer>)
    ensures
        r == if range_segments(*c).len() == 0 {
            None
        } else {
            Some(range_segments(*c)[0].lo)
        },
{
    match c.0.lowest_version() {
        Some(v) => {
            let (major, minor, patch) = v.into();
            Some(SemVer { major, minor, patch })
        },
        None => None,
    }
}

/// Calls the `Display` of a pubgrub range. It raises the patch number of
/// the start of a range of one interval with both ends, which must fit.
/// The contract claims that it writes `∅` for a range without interval;
/// for one interval `∗`, `lo <= v`, `lo`, `v < hi` or `lo <= v < hi`, as
/// the interval is all versions, has no end, holds one version, starts at
/// 0.0.0, or none of these; and for several intervals each as `[ lo, hi [`
/// or `[ lo, ∞ [`, with two spaces between them.
#[verifier::external_body]
fn pubgrub_range_text(c: &Constraint) -> (r: String)
    requires
        is_printable(range_segments(*c)),
    ensures
        r@ == range_text(range_segments(*c)),
{
    c.0.to_string()
}

/// Calls the `Clone` of a pubgrub range. The contract claims that the copy
/// is made of the same intervals.
#[verifier::external_body]
fn pubgrub_clone(c: &Constraint) -> (r: Constraint)
    ensures
        range_segments(r) == range_segments(*c),
{
    Constraint(c.0.clone())
}

impl View for Constraint {
    type V = Set<SemVer>;

    /// The versions that the constraint admits.
    open spec fn view(&self) -> Set<SemVer> {
        Set::new(|v: SemVer| segments_hold(range_segments(*self), v))
    }
}

impl Clone for Constraint {
    fn clone(&self) -> (r: Self)
        ensures
            r.segments() == self.segments(),
            r@ == self@,
    {
        pubgrub_clone(self)
    }
}

impl Constraint {
    /// The intervals that the constraint is made of.
    pub open spec fn segments(&self) -> Seq<Interval> {
        range_segments(*self)
    }

    /// Whether the intervals are in the canonical form. Every constraint
    /// that this module builds is.
    pub open spec fn wf(&self) -> bool {
        canonical(self.segments())
    }

    /// Whether the constraint admits the version.
    pub open spec fn admits(&self, v: SemVer) -> bool {
        segments_hold(self.segments(), v)
    }

    /// The empty set of versions.
    pub fn none() -> (r: Constraint)
        ensures
            r.wf(),
            r.segments() == Seq::<Interval>::empty(),
            r@ == Set::<SemVer>::empty(),
    {
        let r = pubgrub_none();
        assert(r@ =~= Set::<SemVer>::empty());
        r
    }

    /// The set of all versions.
    pub fn any() -> (r: Constraint)
        ensures
            r.wf(),
            r@ == Set::<SemVer>::full(),
    {
        let r = pubgrub_any();
        assert forall|v: SemVer| r.admits(v) by {
            assert(interval_holds(r.segments()[0], v));
        }
        assert(r@ =~= Set::<SemVer>::full());
        r
    }

    /// The set that holds `v` and nothing else.
    pub fn exact(v: SemVer) -> (r: Constraint)
        requires
            v.can_bump(),
        ensures
            r.wf(),
            r.segments() == seq![Interval { lo: v, hi: Some(v.spec_bump_patch()) }],
            r@ == set![v],
    {
        let r = pubgrub_exact(v);
        assert forall|u: SemVer| r.admits(u) <==> u == v by {
            if u == v {
                assert(interval_holds(r.segments()[0], u));
            }
        }
        assert(r@ =~= set![v]);
        r
    }

    /// The set that holds `v` and nothing else, also where the patch number
    /// of `v` cannot be raised: the range then ends at the next version
    /// that 32-bit numbers can write, or not at all after the highest one.
    pub fn only(v: SemVer) -> (r: Constraint)
        ensures
            r.wf(),
            r@ == set![v],
            v.can_bump() ==> r.segments() == seq![Interval { lo: v, hi: Some(v.spec_bump_patch()) }],
    {
        if v.patch < u32::MAX {
            Constraint::exact(v)
        } else {
            let r = match v.successor() {
                Some(next) => Constraint::between(v, next),
                None => Constraint::higher_than(v),
            };
            assert(r@ =~= set![v]);
            r
        }
    }

    /// The set of the versions that are `v` or higher.
    pub fn higher_than(v: SemVer) -> (r: Constraint)
        ensures
            r.wf(),
            r.segments() == seq![Interval { lo: v, hi: None }],
            r@ == Set::new(|u: SemVer| v.spec_le(u)),
    {
        let r = pubgrub_higher_than(v);
        assert forall|u: SemVer| r.admits(u) <==> v.spec_le(u) by {
            if v.spec_le(u) {
                assert(interval_holds(r.segments()[0], u));
            }
        }
        assert(r@ =~= Set::new(|u: SemVer| v.spec_le(u)));
        r
    }

    /// The set of the versions strictly lower than `v`.
    pub fn strictly_lower_than(v: SemVer) -> (r: Constraint)
        ensures
            r.wf(),
            r@ == Set::new(|u: SemVer| u.spec_lt(v)),
    {
        let r = pubgrub_strictly_lower_than(v);
        assert forall|u: SemVer| r.admits(u) <==> u.spec_lt(v) by {
            if u.spec_lt(v) {
                assert(interval_holds(r.segments()[0], u));
            }
        }
        assert(r@ =~= Set::new(|u: SemVer| u.spec_lt(v)));
        r
    }

    /// The set of the versions from `v1` up to and without `v2`.
    pub fn between(v1: SemVer, v2: SemVer) -> (r: Constraint)
        ensures
            r.wf(),
            r@ == Set::new(|u: SemVer| v1.spec_le(u) && u.spec_lt(v2)),
    {
        let r = pubgrub_between(v1, v2);
        assert forall|u: SemVer| r.admits(u) <==> (v1.spec_le(u) && u.spec_lt(v2)) by {
            if v1.spec_le(u) && u.spec_lt(v2) {
                assert(interval_holds(r.segments()[0], u));
            }
        }
        assert(r@ =~= Set::new(|u: SemVer| v1.spec_le(u) && u.spec_lt(v2)));
        r
    }

    /// The versions that the constraint does not admit.
    pub fn negate(&self) -> (r: Constraint)
        requires
            self.wf(),
        ensures
            r.wf(),
            r@ == self@.complement(),
    {
        let r = pubgrub_negate(self);
        assert(r@ =~= self@.complement());
        r
    }

    /// The versions that both constraints admit.
    pub fn intersection(&self, other: &Constraint) -> (r: Constraint)
        requires
            self.wf(),
            other.wf(),
        ensures
            r.wf(),
            r@ == self@.intersect(other@),
    {
        let r = pubgrub_intersection(self, other);
        assert(r@ =~= self@.intersect(other@));
        r
    }

    /// The versions that one of the two constraints admits.
    pub fn union(&self, other: &Constraint) -> (r: Constraint)
        requires
            self.wf(),
            other.wf(),
        ensures
            r.wf(),
            r@ == self@.union(other@),
    {
        let r = pubgrub_union(self, other);
        assert(r@ =~= self@.union(other@));
        r
    }

    /// Whether the constraint admits the version.
    pub fn contains(&self, v: SemVer) -> (b: bool)
        requires
            self.wf(),
        ensures
            b == self@.contains(v),
    {
        pubgrub_contains(self, v)
    }

    /// The lowest version that the constraint admits, if it admits any.
    pub fn lowest_version(&self) -> (r: Option<SemVer>)
        requires
            self.wf(),
        ensures
            match r {
                Some(v) => self@.contains(v) && forall|u: SemVer| self@.contains(u) ==> v.spec_le(u),
                None => self@ == Set::<SemVer>::empty(),
            },
    {
        let r = pubgrub_lowest_version(self);
        proof {
            lemma_lowest(self.segments());
            if r is None {
                assert(self@ =~= Set::<SemVer>::empty());
            }
        }
        r
    }

    /// Whether the constraint admits no version.
    pub fn is_none(&self) -> (b: bool)
        requires
            self.wf(),
        ensures
            b == (self@ == Set::<SemVer>::empty()),
            b == (self.segments().len() == 0),
    {
        let r = pubgrub_lowest_version(self);
        proof {
            lemma_lowest(self.segments());
            if r is None {
                assert(self@ =~= Set::<SemVer>::empty());
            } else {
                assert(self@.contains(self.segments()[0].lo));
            }
        }
        r.is_none()
    }

    /// The versions at or above `bound` (`inclusive`) or strictly above it,
    /// which are those from the next version on.
    fn lower_bound(bound: SemVer, inclusive: bool) -> (r: Constraint)
        ensures
            r.wf(),
            forall|v: SemVer|
                r@.contains(v) <==> (if inclusive {
                    bound.spec_le(v)
                } else {
                    bound.spec_lt(v)
                }),
    {
        if inclusive {
            Constraint::higher_than(bound)
        } else {
            match bound.successor() {
                Some(next) => {
                    proof {
                        crate::version::lemma_version_order(bound, next, next);
                    }
                    Constraint::higher_than(next)
                },
                None => Constraint::none(),
            }
        }
    }

    /// The versions strictly below `bound`, or at or below it
    /// (`inclusive`), which are those strictly below the next version.
    fn upper_bound(bound: SemVer, inclusive: bool) -> (r: Constraint)
        ensures
            r.wf(),
            forall|v: SemVer|
                r@.contains(v) <==> (if inclusive {
                    v.spec_le(bound)
                } else {
                    v.spec_lt(bound)
                }),
    {
        if !inclusive {
            Constraint::strictly_lower_than(bound)
        } else {
            match bound.successor() {
                Some(next) => Constraint::strictly_lower_than(next),
                None => Constraint::any(),
            }
        }
    }

    /// Reads a constraint of the shape `v1 <= v < v2`: five words, of which
    /// the first and the last are versions, the second and the fourth are
    /// `<=` or `<`, and the third is the letter `v`. Any other shape is
    /// refused as an invalid format. The lower bound is inclusive after
    /// `<=` and exclusive after `<`; so is the upper bound. An exclusive
    /// lower bound `v1` stands for the range from `v1.bump_patch()` on, an
    /// inclusive upper bound `v2` for the range below `v2.bump_patch()`;
    /// where the patch number cannot be raised, the next version that
    /// 32-bit numbers can write takes the place of the bumped one.
    pub fn from_str(s: &str) -> (r: Result<Constraint, ConstraintParseError>)
        ensures
            match r {
                Ok(c) => c.wf() && constraint_of_text(s@) == Some(c@),
                Err(e) => constraint_of_text(s@) is None && is_constraint_error_of(e, s@),
            },
    {
        let parts = split_whitespace(s);
        proof {
            assert(texts(parts@).len() == parts@.len());
            assert(forall|i: int| 0 <= i < parts@.len() ==> texts(parts@)[i] == parts@[i]@);
            reveal_strlit("<=");
            reveal_strlit("<");
            reveal_strlit("v");
            assert("<="@ =~= seq!['<', '=']);
            assert("<"@ =~= seq!['<']);
            assert("v"@ =~= seq!['v']);
        }
        if parts.len() != 5 {
            return Err(ConstraintParseError::InvalidFormat { full_constraint: s.to_owned() });
        }
        if !same_text(parts[2].as_str(), "v") {
            return Err(ConstraintParseError::InvalidFormat { full_constraint: s.to_owned() });
        }
        let v1 = match SemVer::from_str(parts[0].as_str()) {
            Ok(v) => v,
            Err(e) => {
                return Err(ConstraintParseError::InvalidVersion(e));
            },
        };
        let v2 = match SemVer::from_str(parts[4].as_str()) {
            Ok(v) => v,
            Err(e) => {
                return Err(ConstraintParseError::InvalidVersion(e));
            },
        };
        let sep1 = parts[1].as_str();
        let sep2 = parts[3].as_str();
        let sep1_inclusive = same_text(sep1, "<=");
        let sep2_inclusive = same_text(sep2, "<=");
        if !sep1_inclusive && !same_text(sep1, "<") {
            return Err(ConstraintParseError::InvalidSeparator { full_constraint: s.to_owned() });
        }
        if !sep2_inclusive && !same_text(sep2, "<") {
            return Err(ConstraintParseError::InvalidSeparator { full_constraint: s.to_owned() });
        }
        let range1 = Constraint::lower_bound(v1, sep1_inclusive);
        let range2 = Constraint::upper_bound(v2, sep2_inclusive);
        let range = range1.intersection(&range2);
        proof {
            assert(range@ =~= constraint_of_text(s@).unwrap());
        }
        Ok(range)
    }

    /// The text that pubgrub writes for the range.
    pub fn to_string(&self) -> (r: String)
        requires
            is_printable(self.segments()),
        ensures
            r@ == range_text(self.segments()),
    {
        pubgrub_range_text(self)
    }
}

/// The first interval of a canonical form starts at the lowest version held.
pub proof fn lemma_lowest(segments: Seq<Interval>)
    requires
        canonical(segments),
    ensures
        segments.len() == 0 ==> forall|v: SemVer| !segments_hold(segments, v),
        segments.len() > 0 ==> segments_hold(segments, segments[0].lo) && forall|u: SemVer|
            segments_hold(segments, u) ==> segments[0].lo.spec_le(u),
{
    if segments.len() > 0 {
        assert(interval_holds(segments[0], segments[0].lo));
        assert forall|u: SemVer| segments_hold(segments, u) implies segments[0].lo.spec_le(u) by {
            let i = choose|i: int| 0 <= i < segments.len() && interval_holds(segments[i], u);
            if i > 0 {
                let h = segments[0].hi.unwrap();
                assert(h.spec_lt(segments[i].lo));
            }
        }
    }
}

/// Without its first interval, a canonical form is canonical and holds the
/// versions that the first interval does not hold.
proof fn lemma_tail(segments: Seq<Interval>, v: SemVer)
    requires
        canonical(segments),
        segments.len() > 0,
    ensures
        canonical(segments.drop_first()),
        segments_hold(segments.drop_first(), v) <==> (segments_hold(segments, v)
            && !interval_holds(segments[0], v)),
{
    let tail = segments.drop_first();
    assert forall|i: int| 0 <= i < tail.len() implies match (#[trigger] tail[i]).hi {
        Some(h) => tail[i].lo.spec_lt(h),
        None => i == tail.len() - 1,
    } by {
        assert(tail[i] == segments[i + 1]);
    }
    assert forall|i: int, j: int| 0 <= i < j < tail.len() implies match (#[trigger] tail[i]).hi {
        Some(h) => h.spec_lt((#[trigger] tail[j]).lo),
        None => false,
    } by {
        assert(tail[i] == segments[i + 1]);
        assert(tail[j] == segments[j + 1]);
    }
    if segments_hold(tail, v) {
        let i = choose|i: int| 0 <= i < tail.len() && interval_holds(#[trigger] tail[i], v);
        assert(tail[i] == segments[i + 1]);
        assert(interval_holds(segments[i + 1], v));
        let h = segments[0].hi.unwrap();
        assert(h.spec_lt(segments[i + 1].lo));
        crate::version::lemma_version_order(h, segments[i + 1].lo, v);
        crate::version::lemma_version_order(v, h, h);
    }
    if segments_hold(segments, v) && !interval_holds(segments[0], v) {
        let i = choose|i: int| 0 <= i < segments.len() && interval_holds(#[trigger] segments[i], v);
        assert(i > 0);
        assert(tail[i - 1] == segments[i]);
        assert(interval_holds(tail[i - 1], v));
    }
}

/// The upper end of the first interval of a canonical form is the lowest
/// version above its start that the form does not hold.
proof fn lemma_first_end(segments: Seq<Interval>)
    requires
        canonical(segments),
        segments.len() > 0,
    ensures
        match segments[0].hi {
            Some(h) => !segments_hold(segments, h) && forall|v: SemVer|
                segments[0].lo.spec_le(v) && v.spec_lt(h) ==> segments_hold(segments, v),
            None => forall|v: SemVer| segments[0].lo.spec_le(v) ==> segments_hold(segments, v),
        },
{
    match segments[0].hi {
        Some(h) => {
            if segments_hold(segments, h) {
                let i = choose|i: int|
                    0 <= i < segments.len() && interval_holds(#[trigger] segments[i], h);
                if i > 0 {
                    assert(h.spec_lt(segments[i].lo));
                    crate::version::lemma_version_order(h, segments[i].lo, h);
                }
            }
            assert forall|v: SemVer|
                segments[0].lo.spec_le(v) && v.spec_lt(h) implies segments_hold(segments, v) by {
                assert(interval_holds(segments[0], v));
            }
        },
        None => {
            assert forall|v: SemVer| segments[0].lo.spec_le(v) implies segments_hold(
                segments,
                v,
            ) by {
                assert(interval_holds(segments[0], v));
            }
        },
    }
}

/// A set of versions has one canonical form at most: two canonical forms
/// that hold the same versions are made of the same intervals.
pub proof fn lemma_canonical_unique(a: Seq<Interval>, b: Seq<Interval>)
    requires
        canonical(a),
        canonical(b),
        forall|v: SemVer| segments_hold(a, v) <==> segments_hold(b, v),
    ensures
        a == b,
    decreases a.len(),
{
    lemma_lowest(a);
    lemma_lowest(b);
    if a.len() == 0 {
        if b.len() > 0 {
            assert(segments_hold(b, b[0].lo));
        }
        assert(a =~= b);
    } else {
        assert(segments_hold(a, a[0].lo));
        assert(segments_hold(b, a[0].lo));
        assert(b.len() > 0);
        assert(segments_hold(b, b[0].lo));
        assert(segments_hold(a, b[0].lo));
        crate::version::lemma_version_order(a[0].lo, b[0].lo, b[0].lo);
        assert(a[0].lo == b[0].lo);
        lemma_first_end(a);
        lemma_first_end(b);
        let lo = a[0].lo;
        match (a[0].hi, b[0].hi) {
            (Some(ha), Some(hb)) => {
                crate::version::lemma_version_order(ha, hb, hb);
                crate::version::lemma_version_order(lo, ha, hb);
                crate::version::lemma_version_order(lo, hb, ha);
                if ha.spec_lt(hb) {
                    assert(segments_hold(b, ha));
                }
                if hb.spec_lt(ha) {
                    assert(segments_hold(a, hb));
                }
                assert(ha == hb);
            },
            (Some(ha), None) => {
                crate::version::lemma_version_order(lo, ha, ha);
                assert(segments_hold(b, ha));
            },
            (None, Some(hb)) => {
                crate::version::lemma_version_order(lo, hb, hb);
                assert(segments_hold(a, hb));
            },
            (None, None) => {},
        }
        assert(a[0] == b[0]);
        let ta = a.drop_first();
        let tb = b.drop_first();
        assert forall|v: SemVer| segments_hold(ta, v) <==> segments_hold(tb, v) by {
            lemma_tail(a, v);
            lemma_tail(b, v);
        }
        lemma_tail(a, lo);
        lemma_tail(b, lo);
        lemma_canonical_unique(ta, tb);
        assert(a =~= seq![a[0]] + ta);
        assert(b =~= seq![b[0]] + tb);
    }
}

/// Two well-formed constraints that admit the same versions are made of
/// the same intervals.
pub proof fn lemma_same_versions(a: Constraint, b: Constraint)
    requires
        a.wf(),
        b.wf(),
        a@ == b@,
    ensures
        a.segments() == b.segments(),
{
    assert forall|v: SemVer| segments_hold(a.segments(), v) <==> segments_hold(
        b.segments(),
        v,
    ) by {
        assert(a@.contains(v) <==> segments_hold(a.segments(), v));
        assert(b@.contains(v) <==> segments_hold(b.segments(), v));
    }
    lemma_canonical_unique(a.segments(), b.segments());
}

/// The intersection of a range with itself is the range: whatever
/// `intersection` returns for `r` and `r` admits the versions of `r` and is
/// made of its intervals.
pub proof fn lemma_intersection_idempotent(r: Constraint, out: Constraint)
    requires
        r.wf(),
        out.wf(),
        out@ == r@.intersect(r@),
    ensures
        out@ == r@,
        out.segments() == r.segments(),
{
    assert(r@.intersect(r@) =~= r@);
    lemma_same_versions(out, r);
}

/// The intersection of a range with the range of all versions is the range.
pub proof fn lemma_intersection_with_any(r: Constraint, any: Constraint, out: Constraint)
    requires
        r.wf(),
        out.wf(),
        any@ == Set::<SemVer>::full(),
        out@ == r@.intersect(any@),
    ensures
        out@ == r@,
        out.segments() == r.segments(),
{
    assert(r@.intersect(any@) =~= r@);
    lemma_same_versions(out, r);
}

/// The intersection of a range with the empty range is the empty range.
pub proof fn lemma_intersection_with_none(r: Constraint, none: Constraint, out: Constraint)
    requires
        out.wf(),
        none@ == Set::<SemVer>::empty(),
        out@ == r@.intersect(none@),
    ensures
        out@ == Set::<SemVer>::empty(),
        out.segments() == Seq::<Interval>::empty(),
{
    assert(r@.intersect(none@) =~= Set::<SemVer>::empty());
    lemma_lowest(out.segments());
    if out.segments().len() > 0 {
        assert(out@.contains(out.segments()[0].lo));
    }
    assert(out.segments() =~= Seq::<Interval>::empty());
}

/// The union of a range with its complement is the range of all versions.
pub proof fn lemma_union_with_complement(r: Constraint, complement: Constraint, out: Constraint)
    requires
        out.wf(),
        complement@ == r@.complement(),
        out@ == r@.union(complement@),
    ensures
        out@ == Set::<SemVer>::full(),
        out.segments() == seq![Interval { lo: SemVer { major: 0, minor: 0, patch: 0 }, hi: None }],
{
    assert(r@.union(r@.complement()) =~= Set::<SemVer>::full());
    let all = seq![Interval { lo: SemVer { major: 0, minor: 0, patch: 0 }, hi: None }];
    assert forall|v: SemVer| segments_hold(out.segments(), v) <==> segments_hold(all, v) by {
        assert(out@.contains(v));
        assert(interval_holds(all[0], v));
    }
    lemma_canonical_unique(out.segments(), all);
}

/// A range contains a version where its complement does not, and the
/// other way round.
pub proof fn lemma_complement_contains(r: Constraint, complement: Constraint, v: SemVer)
    requires
        complement@ == r@.complement(),
    ensures
        r@.contains(v) <==> !complement@.contains(v),
{
}

/// The range of exactly one version is satisfied by that version and by no
/// other; in particular not by the next patch version.
pub proof fn lemma_exact_admits_one(exact: Constraint, v: SemVer, u: SemVer)
    requires
        v.can_bump(),
        exact@ == set![v],
    ensures
        exact@.contains(u) <==> u == v,
        !exact@.contains(v.spec_bump_patch()),
{
}

/// The text `lo <= v < hi` is made of five words: the two versions, the
/// two separators and the letter between them.
proof fn lemma_bounded_text_words(lo: SemVer, hi: SemVer)
    ensures
        words(bounded_text(lo, hi)) == seq![
            semver_text(lo),
            seq!['<', '='],
            seq!['v'],
            seq!['<'],
            semver_text(hi),
        ],
{
    let l = semver_text(lo);
    let h = semver_text(hi);
    let s = bounded_text(lo, hi);
    let n = l.len() as int;
    crate::version::lemma_text_characters(lo);
    crate::version::lemma_text_characters(hi);
    assert(s.len() == n + 8 + h.len());
    assert forall|j: int| 0 <= j < n implies !crate::text::char_is_whitespace(s[j]) by {
        assert(s[j] == l[j]);
        assert(crate::text::is_digit(l[j]) || l[j] == '.');
    }
    assert forall|j: int| n + 8 <= j < s.len() implies !crate::text::char_is_whitespace(s[j]) by {
        assert(s[j] == h[j - n - 8]);
        assert(crate::text::is_digit(h[j - n - 8]) || h[j - n - 8] == '.');
    }
    assert(s[n] == ' ' && s[n + 1] == '<' && s[n + 2] == '=' && s[n + 3] == ' ' && s[n + 4] == 'v'
        && s[n + 5] == ' ' && s[n + 6] == '<' && s[n + 7] == ' ');
    assert(crate::text::char_is_whitespace(' '));
    assert(!crate::text::char_is_whitespace('<'));
    assert(!crate::text::char_is_whitespace('='));
    assert(!crate::text::char_is_whitespace('v'));
    crate::text::lemma_words_step(s, 0, 0, n);
    crate::text::lemma_words_step(s, n, n + 1, n + 3);
    crate::text::lemma_words_step(s, n + 3, n + 4, n + 5);
    crate::text::lemma_words_step(s, n + 5, n + 6, n + 7);
    crate::text::lemma_words_step(s, n + 7, n + 8, s.len() as int);
    crate::text::lemma_words_end(s);
    assert(s.subrange(0, n) =~= l);
    assert(s.subrange(n + 1, n + 3) =~= seq!['<', '=']);
    assert(s.subrange(n + 4, n + 5) =~= seq!['v']);
    assert(s.subrange(n + 6, n + 7) =~= seq!['<']);
    assert(s.subrange(n + 8, s.len() as int) =~= h);
    assert(words(s) =~= seq![l, seq!['<', '='], seq!['v'], seq!['<'], h]);
}

/// The text `lo <= v < hi` reads as the constraint that admits the
/// versions from `lo` up to and without `hi`.
pub proof fn lemma_bounded_text_reads_back(lo: SemVer, hi: SemVer)
    ensures
        constraint_of_text(bounded_text(lo, hi)) == Some(
            Set::new(|v: SemVer| lo.spec_le(v) && v.spec_lt(hi)),
        ),
{
    lemma_bounded_text_words(lo, hi);
    crate::version::lemma_text_round_trip(lo);
    crate::version::lemma_text_round_trip(hi);
    let w = words(bounded_text(lo, hi));
    assert(seq!['<', '='] != seq!['<']) by {
        assert(seq!['<', '='].len() != seq!['<'].len());
    }
    assert(constraint_of_words(w).unwrap() =~= Set::new(
        |v: SemVer| lo.spec_le(v) && v.spec_lt(hi),
    ));
}

/// A well-formed constraint that admits the versions from `lo` up to and
/// without `hi`, where `lo` is lower than `hi`, is the one interval from
/// `lo` to `hi`.
pub proof fn lemma_interval_segments(c: Constraint, lo: SemVer, hi: SemVer)
    requires
        c.wf(),
        lo.spec_lt(hi),
        c@ == Set::new(|v: SemVer| lo.spec_le(v) && v.spec_lt(hi)),
    ensures
        c.segments() == seq![Interval { lo, hi: Some(hi) }],
{
    let one = seq![Interval { lo, hi: Some(hi) }];
    assert forall|v: SemVer| segments_hold(c.segments(), v) <==> segments_hold(one, v) by {
        assert(c@.contains(v) <==> segments_hold(c.segments(), v));
        if lo.spec_le(v) && v.spec_lt(hi) {
            assert(interval_holds(one[0], v));
        }
    }
    lemma_canonical_unique(c.segments(), one);
}

/// Round trip through the text form. A constraint that is one interval
/// with both ends, that does not begin at version 0.0.0 and that admits
/// more than one version is written as a text that reads back as a
/// constraint admitting the same versions.
pub proof fn lemma_constraint_text_round_trip(c: Constraint, text: Seq<char>)
    requires
        c.wf(),
        is_plain_interval(c.segments()),
        text == range_text(c.segments()),
    ensures
        constraint_of_text(text) == Some(c@),
{
    let lo = c.segments()[0].lo;
    let hi = c.segments()[0].hi.unwrap();
    lemma_bounded_text_reads_back(lo, hi);
    assert forall|v: SemVer| c@.contains(v) <==> (lo.spec_le(v) && v.spec_lt(hi)) by {
        assert(c@.contains(v) <==> segments_hold(c.segments(), v));
        if lo.spec_le(v) && v.spec_lt(hi) {
            assert(interval_holds(c.segments()[0], v));
        }
    }
    assert(c@ =~= Set::new(|v: SemVer| lo.spec_le(v) && v.spec_lt(hi)));
}

/// The version that the range of five words `v1 sep1 v sep2 v2` starts at:
/// `v1` after `<=`, the next version after `<`.
pub open spec fn start_of_words(w: Seq<Seq<char>>) -> Option<SemVer> {
    if w[1] == seq!['<', '='] {
        semver_of_text(w[0])
    } else {
        semver_of_text(w[0]).unwrap().spec_successor()
    }
}

/// The version that the range of five words `v1 sep1 v sep2 v2` ends
/// before: `v2` before `<`, the next version before `<=`.
pub open spec fn end_of_words(w: Seq<Seq<char>>) -> Option<SemVer> {
    if w[3] == seq!['<'] {
        semver_of_text(w[4])
    } else {
        semver_of_text(w[4]).unwrap().spec_successor()
    }
}

/// Round trip from the text. A constraint read from a text is one
/// interval, from the version that the text starts at up to the version
/// that it ends before. Where that interval does not begin at version
/// 0.0.0 and admits more than one version, the text that is written for
/// the constraint reads back as a constraint admitting the same versions.
pub proof fn lemma_constraint_of_text_round_trip(s: Seq<char>, c: Constraint)
    requires
        c.wf(),
        constraint_of_text(s) == Some(c@),
        start_of_words(words(s)) is Some,
        end_of_words(words(s)) is Some,
        start_of_words(words(s)).unwrap().spec_lt(end_of_words(words(s)).unwrap()),
        start_of_words(words(s)).unwrap() != (SemVer { major: 0, minor: 0, patch: 0 }),
        start_of_words(words(s)).unwrap().can_bump(),
        end_of_words(words(s)).unwrap() != start_of_words(words(s)).unwrap().spec_bump_patch(),
    ensures
        c.segments() == seq![
            Interval {
                lo: start_of_words(words(s)).unwrap(),
                hi: Some(end_of_words(words(s)).unwrap()),
            },
        ],
        constraint_of_text(range_text(c.segments())) == Some(c@),
{
    let w = words(s);
    let lo = start_of_words(w).unwrap();
    let hi = end_of_words(w).unwrap();
    let v1 = semver_of_text(w[0]).unwrap();
    let v2 = semver_of_text(w[4]).unwrap();
    assert(seq!['<', '='] != seq!['<']) by {
        assert(seq!['<', '='].len() != seq!['<'].len());
    }
    assert forall|v: SemVer| c@.contains(v) <==> (lo.spec_le(v) && v.spec_lt(hi)) by {
        assert(c@.contains(v) <==> (lower_admits(w[1], v1, v) && upper_admits(w[3], v2, v)));
    }
    assert(c@ =~= Set::new(|v: SemVer| lo.spec_le(v) && v.spec_lt(hi)));
    lemma_interval_segments(c, lo, hi);
    lemma_constraint_text_round_trip(c, range_text(c.segments()));
}

/// An upper bound `<= v2` admits `v2` itself, and an upper bound `< v2`
/// does not. Of the constraints `v1 sep1 v sep2 v2` with `v1` lower than
/// `v2`, those with `<=` for `sep2` admit `v2` and those with `<` do not.
pub proof fn lemma_upper_bound(w: Seq<Seq<char>>)
    requires
        constraint_of_words(w) is Some,
        semver_of_text(w[0]).unwrap().spec_lt(semver_of_text(w[4]).unwrap()),
    ensures
        upper_admits(seq!['<', '='], semver_of_text(w[4]).unwrap(), semver_of_text(w[4]).unwrap()),
        !upper_admits(seq!['<'], semver_of_text(w[4]).unwrap(), semver_of_text(w[4]).unwrap()),
        constraint_of_words(w).unwrap().contains(semver_of_text(w[4]).unwrap()) <==> w[3] == seq![
            '<',
            '=',
        ],
{
    assert(seq!['<', '='] != seq!['<']) by {
        assert(seq!['<', '='].len() != seq!['<'].len());
    }
}

} // verus!
