//! The type identifying a unique package version, and the cache that records
//! the versions known to exist of each package.

use vstd::prelude::*;
use vstd::string::*;
use crate::project_config::{concat, lemma_pkg_order, pkg_lt, pkg_of_text, pkg_text, PackageConfig,
    Pkg, PkgParseError};
use crate::text::{decimal, find, find_char, lemma_find, slice_text, texts};
use crate::version::{is_parse_error_of, semver_of_text, semver_text, SemVer, VersionParseError};
use crate::versions::{contains_version, insert_version, is_ascending};

verus! {

/// Name of the file that holds the configuration of a package version.
pub const MANIFEST_FILE: &'static str = "manifest";

/// A cache to record existing package versions.
#[derive(Debug, Clone)]
pub struct Cache {
    /// Each package with the ordered set of its versions.
    pub cache: Vec<(Pkg, Vec<SemVer>)>,
}

/// Type uniquely identifying a package version.
#[derive(Debug)]
pub struct PkgVersion {
    /// The package identifier (author + package name).
    pub author_pkg: Pkg,
    /// The version.
    pub version: SemVer,
}

/// Errors arising when updating, reading or writing the cache of package
/// versions.
#[derive(Debug)]
pub enum CacheError {
    /// Failure to read or write the cache on disk; holds the cause.
    FileIoError(String),
    /// Failure to read a JSON document; holds the cause.
    JsonError(String),
    /// Error arising when networking with the package server.
    FetchError {
        /// The url corresponding to the failed request.
        url: String,
        /// What went wrong.
        source: String,
    },
    /// Error arising when a package version listed by the server cannot be read.
    PkgVersionFromStrError(PkgVersionError),
}

/// Errors related to package versions.
#[derive(Debug)]
pub enum PkgVersionError {
    /// Failure to read or write on disk; holds the cause.
    FileIoError(String),
    /// Failure to read a JSON document; holds the cause.
    JsonError(String),
    /// Error arising when networking with the package server.
    FetchError {
        /// The url corresponding to the failed request.
        url: String,
        /// What went wrong.
        source: String,
    },
    /// Failure to parse a package version from its text.
    ParseError(PkgVersionParseError),
}

/// The different ways in which a text fails to be a package version.
#[derive(Debug, PartialEq, Eq)]
pub enum PkgVersionParseError {
    /// Missing `@` separator between the package and the version; holds the
    /// text that was being parsed.
    NoVersionSeparator(String),
    /// The version is not of the form `major.minor.patch`.
    VersionParseError(VersionParseError),
    /// The package identifier cannot be read.
    PkgParseError(PkgParseError),
}

/// The text form `author/pkg@major.minor.patch` of a package version.
pub open spec fn pkg_version_text(pv: ((Seq<char>, Seq<char>), SemVer)) -> Seq<char> {
    pkg_text(pv.0) + seq!['@'] + semver_text(pv.1)
}

/// The package version that a text denotes: the package stands before the
/// first `@`, the version after it.
pub open spec fn pkg_version_of_text(s: Seq<char>) -> Option<((Seq<char>, Seq<char>), SemVer)> {
    let i = find(s, '@');
    if 0 <= i < s.len() {
        match (pkg_of_text(s.subrange(0, i)), semver_of_text(s.subrange(i + 1, s.len() as int))) {
            (Some(p), Some(v)) => Some((p, v)),
            _ => None,
        }
    } else {
        None
    }
}

/// Whether `e` is the error that reading the text `s` as a package version
/// gives: a missing `@` comes first, then a package that cannot be read,
/// then a version that cannot.
pub open spec fn is_pkg_version_error_of(e: PkgVersionParseError, s: Seq<char>) -> bool {
    let i = find(s, '@');
    match e {
        PkgVersionParseError::NoVersionSeparator(text) => !s.contains('@') && text@ == s,
        PkgVersionParseError::PkgParseError(PkgParseError::NoAuthorSeparator(text)) => s.contains(
            '@',
        ) && pkg_of_text(s.subrange(0, i)) is None && text@ == s.subrange(0, i),
        PkgVersionParseError::VersionParseError(inner) => s.contains('@') && pkg_of_text(
            s.subrange(0, i),
        ) is Some && is_parse_error_of(inner, s.subrange(i + 1, s.len() as int)) && semver_of_text(
            s.subrange(i + 1, s.len() as int),
        ) is None,
    }
}

/// The known versions with one more version of a package.
pub open spec fn with_version(
    known: Map<(Seq<char>, Seq<char>), Set<SemVer>>,
    p: (Seq<char>, Seq<char>),
    v: SemVer,
) -> Map<(Seq<char>, Seq<char>), Set<SemVer>> {
    known.insert(
        p,
        if known.dom().contains(p) {
            known[p].insert(v)
        } else {
            set![v]
        },
    )
}

/// The known versions with a package that may have no version yet.
pub open spec fn with_package(
    known: Map<(Seq<char>, Seq<char>), Set<SemVer>>,
    p: (Seq<char>, Seq<char>),
) -> Map<(Seq<char>, Seq<char>), Set<SemVer>> {
    if known.dom().contains(p) {
        known
    } else {
        known.insert(p, Set::empty())
    }
}

/// The number of versions in all the entries together.
pub open spec fn total_versions(entries: Seq<(Pkg, Vec<SemVer>)>) -> nat
    decreases entries.len(),
{
    if entries.len() == 0 {
        0
    } else {
        total_versions(entries.drop_last()) + entries.last().1@.len()
    }
}

/// The views of a listing: each key with the texts listed under it.
pub open spec fn listing_view(l: Seq<(String, Vec<String>)>) -> Seq<(Seq<char>, Seq<Seq<char>>)> {
    l.map_values(|e: (String, Vec<String>)| (e.0@, texts(e.1@)))
}

/// Names what serde_json reads from a JSON text as a list of strings, if
/// the text is one.
pub uninterp spec fn json_list(s: Seq<char>) -> Option<Seq<Seq<char>>>;

/// Names what serde_json reads from a JSON text as a map from strings to
/// lists of strings, if the text is one: the entries in the order of their
/// keys.
pub uninterp spec fn json_listing(s: Seq<char>) -> Option<Seq<(Seq<char>, Seq<Seq<char>>)>>;

/// Calls `serde_json::from_str` for a list of strings. The contract names
/// what it reads and says that it fails where the text is no such list.
#[verifier::external_body]
fn serde_json_list(s: &str) -> (r: Result<Vec<String>, String>)
    ensures
        match r {
            Ok(l) => json_list(s@) == Some(texts(l@)),
            Err(_) => json_list(s@) is None,
        },
{
    match serde_json::from_str::<Vec<&str>>(s) {
        Ok(l) => Ok(l.into_iter().map(String::from).collect()),
        Err(e) => Err(e.to_string()),
    }
}

/// Calls `serde_json::from_str` for a map from strings to lists of strings.
/// The contract names what it reads and says that it fails where the text
/// is no such map.
#[verifier::external_body]
fn serde_json_listing(s: &str) -> (r: Result<Vec<(String, Vec<String>)>, String>)
    ensures
        match r {
            Ok(l) => json_listing(s@) == Some(listing_view(l@)),
            Err(_) => json_listing(s@) is None,
        },
{
    match serde_json::from_str::<std::collections::BTreeMap<String, Vec<String>>>(s) {
        Ok(m) => Ok(m.into_iter().collect()),
        Err(e) => Err(e.to_string()),
    }
}

/// Whether every key of the listing is a package identifier and every text
/// under it a version.
pub open spec fn listing_is_readable(l: Seq<(Seq<char>, Seq<Seq<char>>)>) -> bool {
    forall|i: int|
        0 <= i < l.len() ==> pkg_of_text((#[trigger] l[i]).0) is Some && forall|j: int|
            0 <= j < l[i].1.len() ==> semver_of_text(#[trigger] l[i].1[j]) is Some
}

/// The known versions with the versions that the texts denote, of one package.
pub open spec fn with_listed_versions(
    known: Map<(Seq<char>, Seq<char>), Set<SemVer>>,
    p: (Seq<char>, Seq<char>),
    versions: Seq<Seq<char>>,
) -> Map<(Seq<char>, Seq<char>), Set<SemVer>>
    decreases versions.len(),
{
    if versions.len() == 0 {
        known
    } else {
        with_version(
            with_listed_versions(known, p, versions.drop_last()),
            p,
            semver_of_text(versions.last()).unwrap(),
        )
    }
}

/// The known versions with all that a listing holds.
pub open spec fn with_listing(
    known: Map<(Seq<char>, Seq<char>), Set<SemVer>>,
    l: Seq<(Seq<char>, Seq<Seq<char>>)>,
) -> Map<(Seq<char>, Seq<char>), Set<SemVer>>
    decreases l.len(),
{
    if l.len() == 0 {
        known
    } else {
        let p = pkg_of_text(l.last().0).unwrap();
        with_listed_versions(with_package(with_listing(known, l.drop_last()), p), p, l.last().1)
    }
}

/// What a JSON text of all packages denotes: each package with its
/// versions, if the text is a map whose keys are package identifiers and
/// whose values are lists of versions.
pub open spec fn cache_of_json(s: Seq<char>) -> Option<Map<(Seq<char>, Seq<char>), Set<SemVer>>> {
    match json_listing(s) {
        Some(l) => if listing_is_readable(l) {
            Some(with_listing(Map::empty(), l))
        } else {
            None
        },
        None => None,
    }
}

/// The known versions with the package versions that the texts denote, one
/// after the other up to the first text that denotes none.
pub open spec fn with_entries(
    known: Map<(Seq<char>, Seq<char>), Set<SemVer>>,
    entries: Seq<Seq<char>>,
) -> Map<(Seq<char>, Seq<char>), Set<SemVer>>
    decreases entries.len(),
{
    if entries.len() == 0 {
        known
    } else {
        match pkg_version_of_text(entries[0]) {
            Some(pv) => with_entries(with_version(known, pv.0, pv.1), entries.drop_first()),
            None => known,
        }
    }
}

/// Whether `k` is the place of the first text that denotes no package version.
pub open spec fn is_first_unreadable(entries: Seq<Seq<char>>, k: int) -> bool {
    &&& 0 <= k < entries.len()
    &&& pkg_version_of_text(entries[k]) is None
    &&& forall|j: int| 0 <= j < k ==> pkg_version_of_text(#[trigger] entries[j]) is Some
}

/// Whether every text denotes a package version.
pub open spec fn all_readable(entries: Seq<Seq<char>>) -> bool {
    forall|j: int| 0 <= j < entries.len() ==> pkg_version_of_text(#[trigger] entries[j]) is Some
}

/// The address that lists all packages with all their versions.
pub open spec fn all_packages_url(remote: Seq<char>) -> Seq<char> {
    remote + "/all-packages"@
}

/// The address that lists the package versions published since the server
/// knew `count - 1` of them, newest first.
pub open spec fn since_url(remote: Seq<char>, count: nat) -> Seq<char> {
    remote + "/all-packages/since/"@ + decimal(
        if count >= 1 {
            (count - 1) as nat
        } else {
            0
        },
    )
}

/// What an update has to do after the server answered the request for the
/// newest package versions.
#[derive(Debug, Clone, Copy, PartialEq, Eq, Structural)]
pub enum SinceOutcome {
    /// The answer continued what the cache knew, and is recorded.
    Recorded,
    /// The answer does not continue what the cache knew: all packages have
    /// to be fetched anew.
    Stale,
}

/// Whether the answer of the server to the request for the newest package
/// versions continues what is known: it is a list that is not empty and
/// whose last, oldest entry is known already.
pub open spec fn since_continues(
    known: Map<(Seq<char>, Seq<char>), Set<SemVer>>,
    body: Seq<char>,
) -> bool {
    match json_list(body) {
        Some(l) => l.len() > 0 && match pkg_version_of_text(l.last()) {
            Some(pv) => known.dom().contains(pv.0) && known[pv.0].contains(pv.1),
            None => false,
        },
        None => false,
    }
}

/// Whether the answer calls for fetching all packages anew: it is an empty
/// list, or a list whose last, oldest entry is a package version that is
/// not known.
pub open spec fn since_is_stale(
    known: Map<(Seq<char>, Seq<char>), Set<SemVer>>,
    body: Seq<char>,
) -> bool {
    match json_list(body) {
        Some(l) => l.len() == 0 || match pkg_version_of_text(l.last()) {
            Some(pv) => !(known.dom().contains(pv.0) && known[pv.0].contains(pv.1)),
            None => false,
        },
        None => false,
    }
}

/// Whether `r` and the versions known afterwards are what recording the
/// answer `body` gives, where the answer is not stale. An answer that is no
/// list of strings is reported as a failed request to `url`. An entry that
/// denotes no package version is reported; the entries before it stay
/// recorded.
pub open spec fn since_recorded(
    known: Map<(Seq<char>, Seq<char>), Set<SemVer>>,
    body: Seq<char>,
    url: Seq<char>,
    after: Map<(Seq<char>, Seq<char>), Set<SemVer>>,
    r: Result<SinceOutcome, CacheError>,
) -> bool {
    match json_list(body) {
        None => after == known && match r {
            Err(CacheError::FetchError { url: u, source }) => u@ == url && source@
                == "Got an unexpected response: "@ + body,
            _ => false,
        },
        Some(l) => l.len() > 0 && if pkg_version_of_text(l.last()) is None {
            after == known && match r {
                Err(CacheError::PkgVersionFromStrError(PkgVersionError::ParseError(e))) =>
                    is_pkg_version_error_of(e, l.last()),
                _ => false,
            }
        } else {
            since_continues(known, body) && after == with_entries(known, l.drop_last())
                && match r {
                Ok(outcome) => outcome == SinceOutcome::Recorded && all_readable(l.drop_last()),
                Err(CacheError::PkgVersionFromStrError(PkgVersionError::ParseError(e))) =>
                    exists|k: int|
                        is_first_unreadable(l.drop_last(), k) && is_pkg_version_error_of(
                            e,
                            #[trigger] l.drop_last()[k],
                        ),
                _ => false,
            }
        },
    }
}

/// Whether `r` and the versions known afterwards are what fetching all
/// packages anew gives: one request to the address of all packages; a
/// failed request is reported with its address and changes nothing; an
/// answer that cannot be read is reported and changes nothing; an answer
/// that can replaces all that was known.
pub open spec fn refetched<F: Fn(&str) -> Result<String, String>>(
    http_fetch: F,
    remote: Seq<char>,
    known: Map<(Seq<char>, Seq<char>), Set<SemVer>>,
    after: Map<(Seq<char>, Seq<char>), Set<SemVer>>,
    r: Result<(), CacheError>,
) -> bool {
    exists|u: &str, answer: Result<String, String>|
        u@ == all_packages_url(remote) && #[trigger] call_ensures(http_fetch, (u,), answer)
            && match answer {
            Err(cause) => after == known && match r {
                Err(CacheError::FetchError { url, source }) => url@ == u@ && source == cause,
                _ => false,
            },
            Ok(body) => match cache_of_json(body@) {
                Some(m) => r is Ok && after == m,
                None => after == known && r matches Err(CacheError::JsonError(_)),
            },
        }
}

/// The versions that the texts denote; a text that denotes none adds nothing.
pub open spec fn versions_named(names: Seq<Seq<char>>) -> Set<SemVer> {
    Set::new(
        |v: SemVer| exists|i: int| 0 <= i < names.len() && semver_of_text(#[trigger] names[i]) == Some(v),
    )
}

/// Whether `r` and the versions known afterwards are what an update gives
/// that starts knowing `known`, `total` versions in all. With no version
/// known, all packages are fetched. Else the server is asked once for the
/// package versions published since the last known one; a failed request
/// is reported with its address and changes nothing; a stale answer has
/// all packages fetched anew; any other answer is recorded.
pub open spec fn is_update<F: Fn(&str) -> Result<String, String>>(
    http_fetch: F,
    remote: Seq<char>,
    known: Map<(Seq<char>, Seq<char>), Set<SemVer>>,
    total: nat,
    after: Map<(Seq<char>, Seq<char>), Set<SemVer>>,
    r: Result<(), CacheError>,
) -> bool {
    if total == 0 {
        refetched(http_fetch, remote, known, after, r)
    } else {
        exists|u: &str, answer: Result<String, String>|
            u@ == since_url(remote, total) && #[trigger] call_ensures(http_fetch, (u,), answer)
                && match answer {
                Err(cause) => after == known && match r {
                    Err(CacheError::FetchError { url, source }) => url@ == u@ && source == cause,
                    _ => false,
                },
                Ok(body) => if since_is_stale(known, body@) {
                    refetched(http_fetch, remote, known, after, r)
                } else {
                    exists|step: Result<SinceOutcome, CacheError>|
                        #[trigger] since_recorded(known, body@, u@, after, step) && match (
                            step,
                            r,
                        ) {
                            (Ok(_), Ok(_)) => true,
                            (Err(e1), Err(e2)) => e1 == e2,
                            _ => false,
                        }
                },
            }
    }
}

impl View for Cache {
    type V = Map<(Seq<char>, Seq<char>), Set<SemVer>>;

    /// The known packages, each with the set of its known versions.
    open spec fn view(&self) -> Map<(Seq<char>, Seq<char>), Set<SemVer>> {
        Map::new(
            |p: (Seq<char>, Seq<char>)| self.knows(p),
            |p: (Seq<char>, Seq<char>)| Set::new(|v: SemVer| self.holds(p, v)),
        )
    }
}

impl Cache {
    /// Whether the cache has an entry for the package.
    pub open spec fn knows(&self, p: (Seq<char>, Seq<char>)) -> bool {
        exists|i: int| 0 <= i < self.cache@.len() && (#[trigger] self.cache@[i]).0@ == p
    }

    /// Whether the cache records the version of the package.
    pub open spec fn holds(&self, p: (Seq<char>, Seq<char>), v: SemVer) -> bool {
        exists|i: int|
            0 <= i < self.cache@.len() && (#[trigger] self.cache@[i]).0@ == p
                && self.cache@[i].1@.contains(v)
    }

    /// Whether the entries stand in the order of their packages, so that
    /// each package has one entry, and the versions of each entry stand in
    /// ascending order.
    pub open spec fn wf(&self) -> bool {
        &&& forall|i: int, j: int|
            0 <= i < j < self.cache@.len() ==> pkg_lt(
                (#[trigger] self.cache@[i]).0@,
                (#[trigger] self.cache@[j]).0@,
            )
        &&& forall|i: int, j: int|
            0 <= i < j < self.cache@.len() ==> (#[trigger] self.cache@[i]).0@
                != (#[trigger] self.cache@[j]).0@
        &&& forall|i: int|
            0 <= i < self.cache@.len() ==> is_ascending((#[trigger] self.cache@[i]).1@)
    }

    /// The number of versions that the cache records, all packages together.
    pub open spec fn total(&self) -> nat {
        total_versions(self.cache@)
    }

    /// Initialize an empty cache.
    pub fn new() -> (r: Cache)
        ensures
            r.wf(),
            r@ == Map::<(Seq<char>, Seq<char>), Set<SemVer>>::empty(),
            r.total() == 0,
    {
        let r = Cache { cache: Vec::new() };
        assert(r@ =~= Map::<(Seq<char>, Seq<char>), Set<SemVer>>::empty());
        r
    }

    /// Where the entry of the package stands, if it has one.
    pub fn position(&self, pkg: &Pkg) -> (r: Option<usize>)
        ensures
            match r {
                Some(i) => i < self.cache@.len() && self.cache@[i as int].0@ == pkg@ && forall|
                    j: int,
                | 0 <= j < i ==> (#[trigger] self.cache@[j]).0@ != pkg@,
                None => !self.knows(pkg@),
            },
    {
        let mut i: usize = 0;
        while i < self.cache.len()
            invariant
                i <= self.cache@.len(),
                forall|j: int| 0 <= j < i ==> (#[trigger] self.cache@[j]).0@ != pkg@,
            decreases self.cache.len() - i,
        {
            if self.cache[i].0.same(pkg) {
                return Some(i);
            }
            i += 1;
        }
        None
    }

    /// The ordered set of the known versions of a package, if the cache has
    /// an entry for it.
    pub fn get(&self, pkg: &Pkg) -> (r: Option<&Vec<SemVer>>)
        requires
            self.wf(),
        ensures
            match r {
                Some(list) => self@.dom().contains(pkg@) && is_ascending(list@) && list@.to_set()
                    == self@[pkg@],
                None => !self@.dom().contains(pkg@),
            },
    {
        match self.position(pkg) {
            Some(i) => {
                let list = &self.cache[i].1;
                proof {
                    assert(self.knows(pkg@));
                    assert forall|v: SemVer| list@.to_set().contains(v) <==> self.holds(
                        pkg@,
                        v,
                    ) by {
                        if self.holds(pkg@, v) {
                            let k = choose|k: int|
                                0 <= k < self.cache@.len() && (#[trigger] self.cache@[k]).0@
                                    == pkg@ && self.cache@[k].1@.contains(v);
                            assert(k == i);
                        }
                    }
                    assert(list@.to_set() =~= self@[pkg@]);
                }
                Some(list)
            },
            None => None,
        }
    }

    /// Whether the cache records the version of the package.
    pub fn contains(&self, pkg: &Pkg, version: SemVer) -> (b: bool)
        requires
            self.wf(),
        ensures
            b == self.holds(pkg@, version),
            b == (self@.dom().contains(pkg@) && self@[pkg@].contains(version)),
    {
        proof {
            if self.holds(pkg@, version) {
                let k = choose|k: int|
                    0 <= k < self.cache@.len() && (#[trigger] self.cache@[k]).0@ == pkg@
                        && self.cache@[k].1@.contains(version);
                assert(self.knows(pkg@));
            }
            assert(self@.dom().contains(pkg@) ==> (self@[pkg@].contains(version) <==> self.holds(
                pkg@,
                version,
            )));
        }
        match self.get(pkg) {
            Some(list) => {
                assert(list@.to_set().contains(version) <==> list@.contains(version));
                contains_version(list, version)
            },
            None => false,
        }
    }

    /// The number of versions that the cache records, all packages together.
    pub fn count(&self) -> (n: u128)
        ensures
            n == self.total(),
    {
        let mut n: u128 = 0;
        let mut i: usize = 0;
        assert(self.cache@.take(0) =~= Seq::<(Pkg, Vec<SemVer>)>::empty());
        while i < self.cache.len()
            invariant
                i <= self.cache@.len(),
                n == total_versions(self.cache@.take(i as int)),
                n <= i * usize::MAX,
            decreases self.cache.len() - i,
        {
            proof {
                let t = self.cache@.take(i as int + 1);
                assert(t.drop_last() =~= self.cache@.take(i as int));
                assert(t.last() == self.cache@[i as int]);
                assert((i + 1) * usize::MAX == i * usize::MAX + usize::MAX) by (nonlinear_arith);
                assert(i * usize::MAX <= 0xffff_ffff_ffff_ffff * 0xffff_ffff_ffff_ffff)
                    by (nonlinear_arith)
                    requires
                        i <= 0xffff_ffff_ffff_ffff,
                        usize::MAX <= 0xffff_ffff_ffff_ffff,
                ;
            }
            n = n + self.cache[i].1.len() as u128;
            i += 1;
        }
        assert(self.cache@.take(self.cache@.len() as int) =~= self.cache@);
        n
    }

    /// Path to the file used to store a cache of all existing versions:
    /// `<elm_home>/pubgrub/versions_cache.json`.
    pub fn file_path(elm_home: &str) -> (r: String)
        ensures
            r@ == elm_home@ + "/pubgrub"@ + "/versions_cache.json"@,
    {
        let mut r = Pkg::pubgrub_cache_dir(elm_home);
        r.append("/versions_cache.json");
        r
    }

    /// Makes sure that the cache has an entry for the package.
    pub fn register(&mut self, pkg: Pkg)
        requires
            old(self).wf(),
        ensures
            final(self).wf(),
            final(self)@ == with_package(old(self)@, pkg@),
    {
        let ghost before = *self;
        match self.position(&pkg) {
            Some(i) => {
                assert(before.knows(pkg@));
            },
            None => {
                let versions: Vec<SemVer> = Vec::new();
                assert(versions@.to_set() =~= Set::<SemVer>::empty());
                self.store(pkg, versions);
            },
        }
    }

    /// Records the versions that the texts denote, of one package, up to the
    /// first text that denotes none.
    fn add_listed_versions(&mut self, pkg: &Pkg, versions: &Vec<String>) -> (r: Result<
        (),
        CacheError,
    >)
        requires
            old(self).wf(),
        ensures
            final(self).wf(),
            match r {
                Ok(_) => final(self)@ == with_listed_versions(
                    old(self)@,
                    pkg@,
                    texts(versions@),
                ) && forall|k: int|
                    0 <= k < versions@.len() ==> semver_of_text(#[trigger] texts(versions@)[k])
                        is Some,
                Err(CacheError::JsonError(_)) => exists|k: int|
                    0 <= k < versions@.len() && semver_of_text(#[trigger] texts(versions@)[k])
                        is None,
                Err(_) => false,
            },
    {
        let ghost known = self@;
        let ghost all = texts(versions@);
        let mut j: usize = 0;
        assert(all.take(0) =~= Seq::<Seq<char>>::empty());
        while j < versions.len()
            invariant
                j <= versions@.len(),
                all == texts(versions@),
                self.wf(),
                self@ == with_listed_versions(known, pkg@, all.take(j as int)),
                forall|k: int| 0 <= k < j ==> semver_of_text(#[trigger] all[k]) is Some,
            decreases versions.len() - j,
        {
            assert(all[j as int] == versions@[j as int]@);
            let v = match SemVer::from_str(versions[j].as_str()) {
                Ok(v) => v,
                Err(_) => {
                    return Err(CacheError::JsonError(versions[j].clone()));
                },
            };
            self.insert(pkg.clone(), v);
            proof {
                let t = all.take(j as int + 1);
                assert(t.drop_last() =~= all.take(j as int));
                assert(t.last() == all[j as int]);
            }
            j += 1;
        }
        assert(all.take(versions@.len() as int) =~= all);
        Ok(())
    }

    /// The cache that holds what a listing holds: each key read as a
    /// package identifier, each text under it as a version.
    pub fn from_listing(l: &Vec<(String, Vec<String>)>) -> (r: Result<Cache, CacheError>)
        ensures
            match r {
                Ok(c) => c.wf() && listing_is_readable(listing_view(l@)) && c@ == with_listing(
                    Map::empty(),
                    listing_view(l@),
                ),
                Err(CacheError::JsonError(_)) => !listing_is_readable(listing_view(l@)),
                Err(_) => false,
            },
    {
        let ghost lv = listing_view(l@);
        let mut c = Cache::new();
        let mut i: usize = 0;
        assert(lv.take(0) =~= Seq::empty());
        while i < l.len()
            invariant
                lv == listing_view(l@),
                i <= l@.len(),
                c.wf(),
                c@ == with_listing(Map::empty(), lv.take(i as int)),
                forall|k: int|
                    0 <= k < i ==> pkg_of_text((#[trigger] lv[k]).0) is Some && forall|j: int|
                        0 <= j < lv[k].1.len() ==> semver_of_text(#[trigger] lv[k].1[j]) is Some,
            decreases l.len() - i,
        {
            assert(lv[i as int] == (l@[i as int].0@, texts(l@[i as int].1@)));
            let pkg = match Pkg::from_str(l[i].0.as_str()) {
                Ok(p) => p,
                Err(PkgParseError::NoAuthorSeparator(text)) => {
                    return Err(CacheError::JsonError(text));
                },
            };
            c.register(pkg.clone());
            match c.add_listed_versions(&pkg, &l[i].1) {
                Ok(_) => {},
                Err(e) => {
                    proof {
                        let k = choose|k: int|
                            0 <= k < l@[i as int].1@.len() && semver_of_text(
                                #[trigger] texts(l@[i as int].1@)[k],
                            ) is None;
                        assert(semver_of_text(lv[i as int].1[k]) is None);
                    }
                    return Err(e);
                },
            }
            proof {
                let t = lv.take(i as int + 1);
                assert(t.drop_last() =~= lv.take(i as int));
                assert(t.last() == lv[i as int]);
            }
            i += 1;
        }
        assert(lv.take(l@.len() as int) =~= lv);
        Ok(c)
    }

    /// Reads the cache from the JSON text of all packages: a map from
    /// package identifiers to lists of versions. This is also the form in
    /// which the cache is stored.
    pub fn load(json: &str) -> (r: Result<Cache, CacheError>)
        ensures
            match r {
                Ok(c) => c.wf() && cache_of_json(json@) == Some(c@),
                Err(CacheError::JsonError(_)) => cache_of_json(json@) is None,
                Err(_) => false,
            },
    {
        match serde_json_listing(json) {
            Ok(l) => Cache::from_listing(&l),
            Err(cause) => Err(CacheError::JsonError(cause)),
        }
    }

    /// The listing to store: each package identifier in its text form with
    /// the text forms of its versions, in ascending order.
    pub fn save(&self) -> (r: Vec<(String, Vec<String>)>)
        ensures
            r@.len() == self.cache@.len(),
            forall|i: int|
                0 <= i < r@.len() ==> (#[trigger] r@[i]).0@ == pkg_text(self.cache@[i].0@)
                    && r@[i].1@.len() == self.cache@[i].1@.len() && forall|j: int|
                    0 <= j < r@[i].1@.len() ==> (#[trigger] r@[i].1@[j])@ == semver_text(
                        self.cache@[i].1@[j],
                    ),
    {
        let mut r: Vec<(String, Vec<String>)> = Vec::new();
        let mut i: usize = 0;
        while i < self.cache.len()
            invariant
                i <= self.cache@.len(),
                r@.len() == i,
                forall|k: int|
                    0 <= k < i ==> (#[trigger] r@[k]).0@ == pkg_text(self.cache@[k].0@)
                        && r@[k].1@.len() == self.cache@[k].1@.len() && forall|j: int|
                        0 <= j < r@[k].1@.len() ==> (#[trigger] r@[k].1@[j])@ == semver_text(
                            self.cache@[k].1@[j],
                        ),
            decreases self.cache.len() - i,
        {
            let versions = &self.cache[i].1;
            let mut list: Vec<String> = Vec::new();
            let mut j: usize = 0;
            while j < versions.len()
                invariant
                    j <= versions@.len(),
                    list@.len() == j,
                    forall|k: int|
                        0 <= k < j ==> (#[trigger] list@[k])@ == semver_text(versions@[k]),
                decreases versions.len() - j,
            {
                list.push(versions[j].to_string());
                j += 1;
            }
            r.push((self.cache[i].0.to_string(), list));
            i += 1;
        }
        r
    }

    /// Records what the server answered to the request for the newest
    /// package versions, made to `url`. The answer lists package versions
    /// newest first. Where it is empty, or its last entry is a package
    /// version that the cache lacks, nothing is recorded and the caller is
    /// told to fetch all packages anew.
    pub fn apply_since(&mut self, url: &str, body: &str) -> (r: Result<SinceOutcome, CacheError>)
        requires
            old(self).wf(),
        ensures
            final(self).wf(),
            r == Ok::<SinceOutcome, CacheError>(SinceOutcome::Stale) <==> since_is_stale(
                old(self)@,
                body@,
            ),
            since_is_stale(old(self)@, body@) ==> final(self)@ == old(self)@,
            !since_is_stale(old(self)@, body@) ==> since_recorded(
                old(self)@,
                body@,
                url@,
                final(self)@,
                r,
            ),
    {
        let ghost known = self@;
        let new_versions_str = match serde_json_list(body) {
            Ok(l) => l,
            Err(_) => {
                return Err(
                    CacheError::FetchError {
                        url: url.to_owned(),
                        source: concat("Got an unexpected response: ", body),
                    },
                );
            },
        };
        let ghost l = texts(new_versions_str@);
        assert(json_list(body@) == Some(l));
        let n = new_versions_str.len();
        if n == 0 {
            return Ok(SinceOutcome::Stale);
        }
        assert(l.last() == new_versions_str@[n - 1]@);
        let last_pkg = match PkgVersion::from_str(new_versions_str[n - 1].as_str()) {
            Ok(pv) => pv,
            Err(e) => {
                return Err(CacheError::PkgVersionFromStrError(PkgVersionError::ParseError(e)));
            },
        };
        if !self.contains(&last_pkg.author_pkg, last_pkg.version) {
            return Ok(SinceOutcome::Stale);
        }
        assert(l.drop_last() =~= texts(new_versions_str@).take(n - 1));
        match self.record_entries(&new_versions_str, n - 1) {
            Ok(_) => Ok(SinceOutcome::Recorded),
            Err(e) => Err(CacheError::PkgVersionFromStrError(PkgVersionError::ParseError(e))),
        }
    }

    /// Records the package versions that the first `n` texts denote, one
    /// after the other up to the first text that denotes none.
    fn record_entries(&mut self, entries: &Vec<String>, n: usize) -> (r: Result<
        (),
        PkgVersionParseError,
    >)
        requires
            old(self).wf(),
            n <= entries@.len(),
        ensures
            final(self).wf(),
            final(self)@ == with_entries(old(self)@, texts(entries@).take(n as int)),
            match r {
                Ok(_) => all_readable(texts(entries@).take(n as int)),
                Err(e) => exists|k: int|
                    is_first_unreadable(texts(entries@).take(n as int), k)
                        && is_pkg_version_error_of(e, #[trigger] texts(entries@).take(n as int)[k]),
            },
    {
        let ghost known = self@;
        let ghost newers = texts(entries@).take(n as int);
        let mut i: usize = 0;
        assert(newers.skip(0) =~= newers);
        while i < n
            invariant
                i <= n <= entries@.len(),
                newers == texts(entries@).take(n as int),
                known == old(self)@,
                self.wf(),
                with_entries(known, newers) == with_entries(self@, newers.skip(i as int)),
                forall|j: int| 0 <= j < i ==> pkg_version_of_text(#[trigger] newers[j]) is Some,
            decreases n - i,
        {
            assert(newers[i as int] == entries@[i as int]@);
            assert(newers.skip(i as int)[0] == newers[i as int]);
            assert(newers.skip(i as int).drop_first() =~= newers.skip(i as int + 1));
            match PkgVersion::from_str(entries[i].as_str()) {
                Ok(pv) => {
                    self.insert(pv.author_pkg, pv.version);
                },
                Err(e) => {
                    assert(is_first_unreadable(newers, i as int));
                    return Err(e);
                },
            }
            i += 1;
        }
        assert(newers.skip(n as int) =~= Seq::<Seq<char>>::empty());
        Ok(())
    }

    /// Fetches all packages with all their versions from the server.
    pub fn from_remote_all_pkg<F: Fn(&str) -> Result<String, String>>(
        remote_base_url: &str,
        http_fetch: &F,
    ) -> (r: Result<Cache, CacheError>)
        requires
            forall|u: &str| call_requires(*http_fetch, (u,)),
        ensures
            r matches Ok(c) ==> c.wf(),
            exists|u: &str, answer: Result<String, String>|
                u@ == all_packages_url(remote_base_url@) && #[trigger] call_ensures(
                    *http_fetch,
                    (u,),
                    answer,
                ) && match answer {
                    Err(cause) => match r {
                        Err(CacheError::FetchError { url, source }) => url@ == u@ && source
                            == cause,
                        _ => false,
                    },
                    Ok(body) => match cache_of_json(body@) {
                        Some(m) => r matches Ok(c) && c@ == m,
                        None => r matches Err(CacheError::JsonError(_)),
                    },
                },
    {
        let url = concat(remote_base_url, "/all-packages");
        match http_fetch(url.as_str()) {
            Err(cause) => Err(CacheError::FetchError { url, source: cause }),
            Ok(all_pkg_str) => Cache::load(all_pkg_str.as_str()),
        }
    }

    /// Brings the cache up to date with the package server. An empty cache
    /// fetches all packages. Any other asks for the package versions
    /// published since the last one it may know, and records them if the
    /// answer continues what it knows; otherwise it fetches all packages
    /// anew and forgets what it knew.
    pub fn update<F: Fn(&str) -> Result<String, String>>(
        &mut self,
        remote_base_url: &str,
        http_fetch: &F,
    ) -> (r: Result<(), CacheError>)
        requires
            old(self).wf(),
            forall|u: &str| call_requires(*http_fetch, (u,)),
        ensures
            final(self).wf(),
            is_update(
                *http_fetch,
                remote_base_url@,
                old(self)@,
                old(self).total(),
                final(self)@,
                r,
            ),
    {
        let versions_count = self.count();
        if versions_count == 0 {
            match Cache::from_remote_all_pkg(remote_base_url, http_fetch) {
                Ok(c) => {
                    *self = c;
                    Ok(())
                },
                Err(e) => Err(e),
            }
        } else {
            let mut url = concat(remote_base_url, "/all-packages/since/");
            url.append(crate::text::decimal_text(versions_count - 1).as_str());
            let answer = http_fetch(url.as_str());
            let pkgs_str = match answer {
                Ok(body) => body,
                Err(cause) => {
                    return Err(CacheError::FetchError { url, source: cause });
                },
            };
            let step = self.apply_since(url.as_str(), pkgs_str.as_str());
            match step {
                Ok(SinceOutcome::Recorded) => Ok(()),
                Ok(SinceOutcome::Stale) => {
                    match Cache::from_remote_all_pkg(remote_base_url, http_fetch) {
                        Ok(c) => {
                            *self = c;
                            Ok(())
                        },
                        Err(e) => Err(e),
                    }
                },
                Err(e) => Err(e),
            }
        }
    }

    /// The ordered set of the versions that the names of the folders of a
    /// package denote. A name that is no version is passed over.
    pub fn list_installed_versions(dir_names: &Vec<String>) -> (r: Vec<SemVer>)
        ensures
            is_ascending(r@),
            r@.to_set() == versions_named(texts(dir_names@)),
    {
        let mut r: Vec<SemVer> = Vec::new();
        let mut i: usize = 0;
        let ghost all = texts(dir_names@);
        assert(r@.to_set() =~= versions_named(all.take(0)));
        while i < dir_names.len()
            invariant
                i <= dir_names@.len(),
                all == texts(dir_names@),
                is_ascending(r@),
                r@.to_set() == versions_named(all.take(i as int)),
            decreases dir_names.len() - i,
        {
            assert(all[i as int] == dir_names@[i as int]@);
            let ghost before = r@.to_set();
            match SemVer::from_str(dir_names[i].as_str()) {
                Ok(v) => {
                    insert_version(&mut r, v);
                },
                Err(_) => {},
            }
            proof {
                let t0 = all.take(i as int);
                let t1 = all.take(i as int + 1);
                assert forall|v: SemVer| versions_named(t1).contains(v) <==> (versions_named(
                    t0,
                ).contains(v) || semver_of_text(all[i as int]) == Some(v)) by {
                    if versions_named(t1).contains(v) {
                        let k = choose|k: int|
                            0 <= k < t1.len() && semver_of_text(#[trigger] t1[k]) == Some(v);
                        if k < i {
                            assert(t0[k] == t1[k]);
                        }
                    }
                    if versions_named(t0).contains(v) {
                        let k = choose|k: int|
                            0 <= k < t0.len() && semver_of_text(#[trigger] t0[k]) == Some(v);
                        assert(t1[k] == t0[k]);
                    }
                    if semver_of_text(all[i as int]) == Some(v) {
                        assert(t1[i as int] == all[i as int]);
                    }
                }
                assert(r@.to_set() =~= versions_named(t1));
            }
            i += 1;
        }
        assert(all.take(dir_names@.len() as int) =~= all);
        r
    }

    /// Records a package with the ordered set of its versions, at its place
    /// in the order of packages. The cache must have no entry for the
    /// package yet.
    pub fn store(&mut self, pkg: Pkg, versions: Vec<SemVer>)
        requires
            old(self).wf(),
            !old(self)@.dom().contains(pkg@),
            is_ascending(versions@),
        ensures
            final(self).wf(),
            final(self)@ == old(self)@.insert(pkg@, versions@.to_set()),
    {
        let ghost before = *self;
        let ghost id = pkg@;
        let ghost set = versions@.to_set();
        let ghost list = versions@;
        let mut k: usize = 0;
        while k < self.cache.len() && self.cache[k].0.lt(&pkg)
            invariant
                k <= self.cache@.len(),
                *self == before,
                forall|j: int| 0 <= j < k ==> pkg_lt((#[trigger] self.cache@[j]).0@, pkg@),
            decreases self.cache.len() - k,
        {
            k += 1;
        }
        assert(!before.knows(id));
        proof {
            assert forall|j: int| k <= j < before.cache@.len() implies pkg_lt(
                id,
                (#[trigger] before.cache@[j]).0@,
            ) by {
                lemma_pkg_order(before.cache@[k as int].0@, id, before.cache@[j].0@);
                lemma_pkg_order(id, before.cache@[k as int].0@, before.cache@[j].0@);
                assert(before.cache@[k as int].0@ != id);
                assert(before.cache@[j].0@ != id);
            }
        }
        self.cache.insert(k, (pkg, versions));
        proof {
            let after = *self;
            let n = before.cache@.len() as int;
            assert(after.cache@ == before.cache@.insert(k as int, after.cache@[k as int]));
            assert(after.cache@[k as int].0@ == id);
            assert(after.cache@[k as int].1@ == list);
            assert forall|j: int| 0 <= j < k implies #[trigger] after.cache@[j]
                == before.cache@[j] by {}
            assert forall|j: int| k < j <= n implies #[trigger] after.cache@[j] == before.cache@[j
                - 1] by {}
            assert forall|i: int, j: int| 0 <= i < j < after.cache@.len() implies pkg_lt(
                (#[trigger] after.cache@[i]).0@,
                (#[trigger] after.cache@[j]).0@,
            ) && after.cache@[i].0@ != after.cache@[j].0@ by {
                let x = after.cache@[i].0@;
                let y = after.cache@[j].0@;
                if j < k {
                    assert(after.cache@[i] == before.cache@[i]);
                    assert(after.cache@[j] == before.cache@[j]);
                } else if j == k {
                    assert(after.cache@[i] == before.cache@[i]);
                } else if i < k {
                    assert(after.cache@[i] == before.cache@[i]);
                    assert(after.cache@[j] == before.cache@[j - 1]);
                    lemma_pkg_order(x, id, y);
                } else if i == k {
                    assert(after.cache@[j] == before.cache@[j - 1]);
                } else {
                    assert(after.cache@[i] == before.cache@[i - 1]);
                    assert(after.cache@[j] == before.cache@[j - 1]);
                }
                lemma_pkg_order(x, y, y);
            }
            assert forall|i: int| 0 <= i < after.cache@.len() implies is_ascending(
                (#[trigger] after.cache@[i]).1@,
            ) by {
                if i < k {
                    assert(after.cache@[i] == before.cache@[i]);
                } else if i > k {
                    assert(after.cache@[i] == before.cache@[i - 1]);
                }
            }
            assert forall|q: (Seq<char>, Seq<char>)| after.knows(q) <==> (before.knows(q) || q
                == id) by {
                if after.knows(q) {
                    let j = choose|j: int|
                        0 <= j < after.cache@.len() && (#[trigger] after.cache@[j]).0@ == q;
                    if j < k {
                        assert(before.cache@[j].0@ == q);
                    } else if j > k {
                        assert(before.cache@[j - 1].0@ == q);
                    }
                }
                if before.knows(q) {
                    let j = choose|j: int|
                        0 <= j < before.cache@.len() && (#[trigger] before.cache@[j]).0@ == q;
                    if j < k {
                        assert(after.cache@[j].0@ == q);
                    } else {
                        assert(after.cache@[j + 1].0@ == q);
                    }
                }
                if q == id {
                    assert(after.cache@[k as int].0@ == q);
                }
            }
            assert forall|q: (Seq<char>, Seq<char>), v: SemVer|
                after.holds(q, v) <==> (before.holds(q, v) || (q == id && set.contains(v))) by {
                if after.holds(q, v) {
                    let j = choose|j: int|
                        0 <= j < after.cache@.len() && (#[trigger] after.cache@[j]).0@ == q
                            && after.cache@[j].1@.contains(v);
                    if j < k {
                        assert(before.cache@[j].0@ == q);
                    } else if j > k {
                        assert(before.cache@[j - 1].0@ == q);
                    }
                }
                if before.holds(q, v) {
                    let j = choose|j: int|
                        0 <= j < before.cache@.len() && (#[trigger] before.cache@[j]).0@ == q
                            && before.cache@[j].1@.contains(v);
                    if j < k {
                        assert(after.cache@[j].0@ == q);
                    } else {
                        assert(after.cache@[j + 1].0@ == q);
                    }
                }
                if q == id && set.contains(v) {
                    assert(after.cache@[k as int].1@.contains(v));
                }
            }
            assert forall|v: SemVer| !before.holds(id, v) by {
                if before.holds(id, v) {
                    let j = choose|j: int|
                        0 <= j < before.cache@.len() && (#[trigger] before.cache@[j]).0@ == id
                            && before.cache@[j].1@.contains(v);
                    assert(before.knows(id));
                }
            }
            let want = before@.insert(id, set);
            assert(after@.dom() =~= want.dom());
            assert forall|q: (Seq<char>, Seq<char>)| after@.dom().contains(
                q,
            ) implies #[trigger] after@[q] =~= want[q] by {}
            assert(after@ =~= want);
        }
    }

    /// Records one more version of a package.
    pub fn insert(&mut self, pkg: Pkg, version: SemVer)
        requires
            old(self).wf(),
        ensures
            final(self).wf(),
            final(self)@ == with_version(old(self)@, pkg@, version),
    {
        let ghost before = *self;
        match self.position(&pkg) {
            Some(i) => {
                let (p, mut list) = self.cache.remove(i);
                insert_version(&mut list, version);
                self.cache.insert(i, (p, list));
                proof {
                    let after = *self;
                    assert(after.cache@.len() == before.cache@.len());
                    assert forall|k: int| 0 <= k < after.cache@.len() implies (
                    #[trigger] after.cache@[k]).0@ == before.cache@[k].0@ && (k != i
                        ==> after.cache@[k].1@ == before.cache@[k].1@) by {}
                    assert(after.cache@[i as int].1@.to_set() == before.cache@[i as int].1@.to_set().insert(
                        version,
                    ));
                    assert forall|q: (Seq<char>, Seq<char>)| after.knows(q) <==> before.knows(
                        q,
                    ) by {
                        if after.knows(q) {
                            let k = choose|k: int|
                                0 <= k < after.cache@.len() && (#[trigger] after.cache@[k]).0@
                                    == q;
                            assert(before.cache@[k].0@ == q);
                        }
                        if before.knows(q) {
                            let k = choose|k: int|
                                0 <= k < before.cache@.len() && (#[trigger] before.cache@[k]).0@
                                    == q;
                            assert(after.cache@[k].0@ == q);
                        }
                    }
                    assert(before.knows(pkg@)) by {
                        assert(before.cache@[i as int].0@ == pkg@);
                    }
                    assert forall|q: (Seq<char>, Seq<char>), v: SemVer|
                        after.holds(q, v) <==> (before.holds(q, v) || (q == pkg@ && v
                            == version)) by {
                        if after.holds(q, v) {
                            let k = choose|k: int|
                                0 <= k < after.cache@.len() && (#[trigger] after.cache@[k]).0@
                                    == q && after.cache@[k].1@.contains(v);
                            if k == i {
                                assert(after.cache@[k].1@.to_set().contains(v));
                                if v != version {
                                    assert(before.cache@[k].1@.to_set().contains(v));
                                    assert(before.cache@[k].0@ == q);
                                }
                            } else {
                                assert(before.cache@[k].0@ == q);
                            }
                        }
                        if before.holds(q, v) {
                            let k = choose|k: int|
                                0 <= k < before.cache@.len() && (#[trigger] before.cache@[k]).0@
                                    == q && before.cache@[k].1@.contains(v);
                            if k == i {
                                assert(before.cache@[k].1@.to_set().contains(v));
                                assert(after.cache@[k].1@.to_set().contains(v));
                            }
                            assert(after.cache@[k].0@ == q);
                        }
                        if q == pkg@ && v == version {
                            assert(after.cache@[i as int].1@.to_set().contains(v));
                            assert(after.cache@[i as int].0@ == q);
                        }
                    }
                    let want = with_version(before@, pkg@, version);
                    assert(after@.dom() =~= want.dom());
                    assert forall|q: (Seq<char>, Seq<char>)| after@.dom().contains(
                        q,
                    ) implies #[trigger] after@[q] =~= want[q] by {}
                    assert(after@ =~= want);
                }
            },
            None => {
                let mut list: Vec<SemVer> = Vec::new();
                list.push(version);
                proof {
                    assert(list@ =~= seq![version]);
                    assert(list@[0] == version);
                    assert forall|u: SemVer| list@.to_set().contains(u) <==> u == version by {
                        if list@.to_set().contains(u) {
                            let i = choose|i: int| 0 <= i < list@.len() && list@[i] == u;
                            assert(i == 0);
                        }
                    }
                    assert(list@.to_set() =~= set![version]);
                }
                self.store(pkg, list);
            },
        }
    }
}

/// Two well-formed caches that know a package in common know packages in
/// common at the same places up to there.
proof fn lemma_cache_keys(a: Cache, b: Cache, i: int)
    requires
        a.wf(),
        b.wf(),
        a@ == b@,
        0 <= i <= a.cache@.len(),
        i <= b.cache@.len(),
        forall|j: int| 0 <= j < i ==> (#[trigger] a.cache@[j]).0@ == b.cache@[j].0@,
    ensures
        a.cache@.len() == b.cache@.len(),
        forall|j: int| 0 <= j < a.cache@.len() ==> (#[trigger] a.cache@[j]).0@ == b.cache@[j].0@,
    decreases a.cache@.len() - i,
{
    if i < a.cache@.len() {
        let x = a.cache@[i].0@;
        assert(a.knows(x));
        assert(a@.dom().contains(x));
        assert(b@.dom().contains(x));
        assert(b.knows(x));
        let m = choose|m: int| 0 <= m < b.cache@.len() && (#[trigger] b.cache@[m]).0@ == x;
        if m < i {
            assert(a.cache@[m].0@ == b.cache@[m].0@);
            assert(a.cache@[m].0@ != a.cache@[i].0@);
        }
        assert(i < b.cache@.len());
        let y = b.cache@[i].0@;
        assert(b.knows(y));
        assert(b@.dom().contains(y));
        assert(a@.dom().contains(y));
        assert(a.knows(y));
        let k = choose|k: int| 0 <= k < a.cache@.len() && (#[trigger] a.cache@[k]).0@ == y;
        if k < i {
            assert(a.cache@[k].0@ == b.cache@[k].0@);
            assert(b.cache@[k].0@ != b.cache@[i].0@);
        }
        lemma_pkg_order(x, y, x);
        if m > i {
            assert(pkg_lt(b.cache@[i].0@, b.cache@[m].0@));
            if k > i {
                assert(pkg_lt(a.cache@[i].0@, a.cache@[k].0@));
            }
        }
        assert(x == y);
        lemma_cache_keys(a, b, i + 1);
    } else if i < b.cache@.len() {
        let y = b.cache@[i].0@;
        assert(b.knows(y));
        assert(b@.dom().contains(y));
        assert(a@.dom().contains(y));
        assert(a.knows(y));
        let k = choose|k: int| 0 <= k < a.cache@.len() && (#[trigger] a.cache@[k]).0@ == y;
        assert(a.cache@[k].0@ == b.cache@[k].0@);
        assert(b.cache@[k].0@ != b.cache@[i].0@);
    }
}

/// A cache is determined by what it knows: two well-formed caches that
/// know the same versions of the same packages have the same entries, in
/// the same order, each with the same versions in the same order.
pub proof fn lemma_cache_is_determined(a: Cache, b: Cache)
    requires
        a.wf(),
        b.wf(),
        a@ == b@,
    ensures
        a.cache@.len() == b.cache@.len(),
        forall|i: int|
            0 <= i < a.cache@.len() ==> (#[trigger] a.cache@[i]).0@ == b.cache@[i].0@
                && a.cache@[i].1@ == b.cache@[i].1@,
{
    lemma_cache_keys(a, b, 0);
    assert forall|i: int| 0 <= i < a.cache@.len() implies (#[trigger] a.cache@[i]).0@
        == b.cache@[i].0@ && a.cache@[i].1@ == b.cache@[i].1@ by {
        let p = a.cache@[i].0@;
        assert(b.cache@[i].0@ == p);
        assert forall|v: SemVer| a.cache@[i].1@.to_set().contains(v) <==> b.cache@[
            i
        ].1@.to_set().contains(v) by {
            assert(a.knows(p));
            assert(b.knows(p));
            assert(a@[p].contains(v) <==> a.holds(p, v));
            assert(b@[p].contains(v) <==> b.holds(p, v));
            if a.cache@[i].1@.contains(v) {
                assert(a.holds(p, v));
                assert(b.holds(p, v));
                let k = choose|k: int|
                    0 <= k < b.cache@.len() && (#[trigger] b.cache@[k]).0@ == p
                        && b.cache@[k].1@.contains(v);
                if k < i {
                    assert(b.cache@[k].0@ != b.cache@[i].0@);
                }
                if i < k {
                    assert(b.cache@[i].0@ != b.cache@[k].0@);
                }
            }
            if b.cache@[i].1@.contains(v) {
                assert(b.holds(p, v));
                assert(a.holds(p, v));
                let k = choose|k: int|
                    0 <= k < a.cache@.len() && (#[trigger] a.cache@[k]).0@ == p
                        && a.cache@[k].1@.contains(v);
                if k < i {
                    assert(a.cache@[k].0@ != a.cache@[i].0@);
                }
                if i < k {
                    assert(a.cache@[i].0@ != a.cache@[k].0@);
                }
            }
        }
        assert(a.cache@[i].1@.to_set() =~= b.cache@[i].1@.to_set());
        crate::versions::lemma_ascending_unique(a.cache@[i].1@, b.cache@[i].1@);
    }
}

impl Default for Cache {
    fn default() -> (r: Cache)
        ensures
            r.wf(),
            r@ == Map::<(Seq<char>, Seq<char>), Set<SemVer>>::empty(),
    {
        Cache::new()
    }
}

impl View for PkgVersion {
    type V = ((Seq<char>, Seq<char>), SemVer);

    /// The package identifier and the version.
    open spec fn view(&self) -> ((Seq<char>, Seq<char>), SemVer) {
        (self.author_pkg@, self.version)
    }
}

impl Clone for PkgVersion {
    fn clone(&self) -> (r: Self)
        ensures
            r@ == self@,
    {
        PkgVersion { author_pkg: self.author_pkg.clone(), version: self.version }
    }
}

impl PkgVersion {
    /// Reads a package version from its text form
    /// `author/pkg@major.minor.patch`.
    pub fn from_str(s: &str) -> (r: Result<PkgVersion, PkgVersionParseError>)
        ensures
            match r {
                Ok(pv) => pkg_version_of_text(s@) == Some(pv@),
                Err(e) => pkg_version_of_text(s@) is None && is_pkg_version_error_of(e, s@),
            },
    {
        proof {
            lemma_find(s@, '@');
        }
        let version_sep = match find_char(s, '@') {
            None => {
                return Err(PkgVersionParseError::NoVersionSeparator(s.to_owned()));
            },
            Some(i) => i,
        };
        let n = s.unicode_len();
        let author_pkg = match Pkg::from_str(s.substring_char(0, version_sep)) {
            Ok(p) => p,
            Err(e) => {
                return Err(PkgVersionParseError::PkgParseError(e));
            },
        };
        let version = match SemVer::from_str(s.substring_char(version_sep + 1, n)) {
            Ok(v) => v,
            Err(e) => {
                return Err(PkgVersionParseError::VersionParseError(e));
            },
        };
        Ok(PkgVersion { author_pkg, version })
    }

    /// The text form `author/pkg@major.minor.patch`.
    pub fn to_string(&self) -> (r: String)
        ensures
            r@ == pkg_version_text(self@),
    {
        proof {
            reveal_strlit("@");
            assert("@"@ =~= seq!['@']);
        }
        let mut r = self.author_pkg.to_string();
        r.append("@");
        r.append(self.version.to_string().as_str());
        r
    }

    /// Get the installed location of the configuration of this package version:
    /// `<elm_home>/<elm_version>/packages/<author>/<pkg>/<version>/manifest`.
    pub fn config_path(&self, elm_home: &str, elm_version: &str) -> (r: String)
        ensures
            r@ == elm_home@ + "/"@ + elm_version@ + "/packages"@ + "/"@ + self.author_pkg.author@
                + "/"@ + self.author_pkg.pkg@ + "/"@ + semver_text(self.version) + "/"@
                + MANIFEST_FILE@,
    {
        let mut r = self.author_pkg.config_path(elm_home, elm_version);
        r.append("/");
        r.append(self.version.to_string().as_str());
        r.append("/");
        r.append(MANIFEST_FILE);
        r
    }

    /// The address of the configuration of this package version on the
    /// package server:
    /// `<remote_base_url>/packages/<author>/<pkg>/<version>/manifest`.
    pub fn to_url(&self, remote_base_url: &str) -> (r: String)
        ensures
            r@ == remote_base_url@ + "/packages/"@ + self.author_pkg.author@ + "/"@
                + self.author_pkg.pkg@ + "/"@ + semver_text(self.version) + "/"@ + MANIFEST_FILE@,
    {
        let mut r = self.author_pkg.to_url(remote_base_url);
        r.append("/");
        r.append(self.version.to_string().as_str());
        r.append("/");
        r.append(MANIFEST_FILE);
        r
    }

    /// The file in the dependency solver's cache that holds the
    /// configuration of this package version:
    /// `<elm_home>/pubgrub/elm_json_cache/<author>/<pkg>/<version>/manifest`.
    pub fn pubgrub_cache_file(&self, elm_home: &str) -> (r: String)
        ensures
            r@ == elm_home@ + "/pubgrub"@ + "/elm_json_cache/"@ + self.author_pkg.author@ + "/"@
                + self.author_pkg.pkg@ + "/"@ + semver_text(self.version) + "/"@ + MANIFEST_FILE@,
    {
        let mut r = self.pubgrub_cache_dir(elm_home);
        r.append("/");
        r.append(MANIFEST_FILE);
        r
    }

    /// The folder in the dependency solver's cache for this package version:
    /// `<elm_home>/pubgrub/elm_json_cache/<author>/<pkg>/<version>`.
    pub fn pubgrub_cache_dir(&self, elm_home: &str) -> (r: String)
        ensures
            r@ == elm_home@ + "/pubgrub"@ + "/elm_json_cache/"@ + self.author_pkg.author@ + "/"@
                + self.author_pkg.pkg@ + "/"@ + semver_text(self.version),
    {
        let mut r = self.author_pkg.pubgrub_cache_dir_json(elm_home);
        r.append("/");
        r.append(self.version.to_string().as_str());
        r
    }

    /// Asks the package server for the configuration of this package
    /// version: one request to `to_url`, whose answer is handed back as it
    /// came. A failed request is reported with its address.
    fn request_config<F: Fn(&str) -> Result<String, String>>(
        &self,
        remote_base_url: &str,
        http_fetch: &F,
    ) -> (r: Result<String, PkgVersionError>)
        requires
            forall|u: &str| call_requires(*http_fetch, (u,)),
        ensures
            is_fetched(*http_fetch, manifest_url(remote_base_url@, self@), r),
    {
        let remote_url = self.to_url(remote_base_url);
        let answer = http_fetch(remote_url.as_str());
        match answer {
            Ok(body) => Ok(body),
            Err(cause) => Err(PkgVersionError::FetchError { url: remote_url, source: cause }),
        }
    }

    /// Fetch the configuration of this package version from the package
    /// server, with one request to `to_url`. A failed request is reported
    /// with its address. The answer is handed to `write_config` to be kept
    /// in the file of the dependency solver for this package version, and
    /// whether that succeeds or not, the result is what `decode_config`
    /// reads from the answer.
    pub fn fetch_config<F, W, D>(
        &self,
        elm_home: &str,
        remote_base_url: &str,
        http_fetch: &F,
        write_config: &W,
        decode_config: &D,
    ) -> (r: Result<PackageConfig, PkgVersionError>) where
        F: Fn(&str) -> Result<String, String>,
        W: Fn(&str, &str, &str) -> Result<(), String>,
        D: Fn(&str) -> Result<PackageConfig, PkgVersionError>,

        requires
            forall|u: &str| call_requires(*http_fetch, (u,)),
            forall|d: &str, f: &str, t: &str| call_requires(*write_config, (d, f, t)),
            forall|t: &str| call_requires(*decode_config, (t,)),
        ensures
            is_config_fetched(
                *http_fetch,
                *write_config,
                *decode_config,
                elm_home@,
                remote_base_url@,
                self@,
                r,
            ),
    {
        let fetched = self.request_config(remote_base_url, http_fetch);
        assert(is_fetched(*http_fetch, manifest_url(remote_base_url@, self@), fetched));
        match fetched {
            Err(e) => Err(e),
            Ok(config_str) => {
                let cache_dir = self.pubgrub_cache_dir(elm_home);
                let cache_file = self.pubgrub_cache_file(elm_home);
                assert(cache_dir@ == solver_cache_dir(elm_home@, self@));
                assert(cache_file@ == solver_cache_dir(elm_home@, self@) + "/"@ + MANIFEST_FILE@);
                let written = write_config(
                    cache_dir.as_str(),
                    cache_file.as_str(),
                    config_str.as_str(),
                );
                assert(is_written(*write_config, cache_dir@, cache_file@, config_str@, written));
                let r = decode_config(config_str.as_str());
                assert(is_decoded(*decode_config, config_str@, r));
                r
            },
        }
    }

    /// Load the configuration of this package version from its installed
    /// location, with `read_config`, which reads a configuration from a
    /// file.
    pub fn load_config<Rd: Fn(&str) -> Result<PackageConfig, PkgVersionError>>(
        &self,
        elm_home: &str,
        elm_version: &str,
        read_config: &Rd,
    ) -> (r: Result<PackageConfig, PkgVersionError>)
        requires
            forall|p: &str| call_requires(*read_config, (p,)),
        ensures
            is_read(*read_config, installed_manifest(elm_home@, elm_version@, self@), r),
    {
        let config_path = self.config_path(elm_home, elm_version);
        let r = read_config(config_path.as_str());
        assert(config_path@ == installed_manifest(elm_home@, elm_version@, self@));
        r
    }

    /// Load the configuration of this package version from the files of
    /// the dependency solver, with `read_config`, which reads a
    /// configuration from a file.
    pub fn load_from_cache<Rd: Fn(&str) -> Result<PackageConfig, PkgVersionError>>(
        &self,
        elm_home: &str,
        read_config: &Rd,
    ) -> (r: Result<PackageConfig, PkgVersionError>)
        requires
            forall|p: &str| call_requires(*read_config, (p,)),
        ensures
            is_read(*read_config, solver_cache_dir(elm_home@, self@) + "/"@ + MANIFEST_FILE@, r),
    {
        let cache_path = self.pubgrub_cache_file(elm_home);
        let r = read_config(cache_path.as_str());
        assert(cache_path@ == solver_cache_dir(elm_home@, self@) + "/"@ + MANIFEST_FILE@);
        r
    }

    /// Try successively to load the configuration of this package version
    /// from its installed location, from the files of the dependency
    /// solver, and from the package server. `read_config` reads the
    /// configuration from a file. What the server answers is handed to
    /// `write_config` to be kept in the files of the dependency solver;
    /// whether that succeeds or not, the result is then what
    /// `decode_config` reads from the answer.
    pub fn find_config<F, Rd, W, D>(
        &self,
        elm_home: &str,
        elm_version: &str,
        remote_base_url: &str,
        http_fetch: &F,
        read_config: &Rd,
        write_config: &W,
        decode_config: &D,
    ) -> (r: Result<PackageConfig, PkgVersionError>) where
        F: Fn(&str) -> Result<String, String>,
        Rd: Fn(&str) -> Result<PackageConfig, PkgVersionError>,
        W: Fn(&str, &str, &str) -> Result<(), String>,
        D: Fn(&str) -> Result<PackageConfig, PkgVersionError>,

        requires
            forall|u: &str| call_requires(*http_fetch, (u,)),
            forall|p: &str| call_requires(*read_config, (p,)),
            forall|d: &str, f: &str, t: &str| call_requires(*write_config, (d, f, t)),
            forall|t: &str| call_requires(*decode_config, (t,)),
        ensures
            is_config_found(
                *http_fetch,
                *read_config,
                *write_config,
                *decode_config,
                elm_home@,
                elm_version@,
                remote_base_url@,
                self@,
                r,
            ),
    {
        let installed = self.load_config(elm_home, elm_version, read_config);
        if installed.is_ok() {
            return installed;
        }
        let cached = self.load_from_cache(elm_home, read_config);
        if cached.is_ok() {
            return cached;
        }
        self.fetch_config(elm_home, remote_base_url, http_fetch, write_config, decode_config)
    }
}

/// Round trip from the text: writing the package version read from a text
/// gives the text back, where the text writes the version plainly, without
/// a sign or leading zeros.
pub proof fn lemma_pkg_version_of_text_round_trip(s: Seq<char>)
    requires
        pkg_version_of_text(s) is Some,
        crate::version::is_plain_version(s.subrange(find(s, '@') + 1, s.len() as int)),
    ensures
        pkg_version_text(pkg_version_of_text(s).unwrap()) == s,
{
    lemma_find(s, '@');
    let i = find(s, '@');
    let before = s.subrange(0, i);
    let after = s.subrange(i + 1, s.len() as int);
    crate::project_config::lemma_pkg_of_text_round_trip(before);
    crate::version::lemma_plain_text_round_trip(after);
    assert(s =~= before + seq!['@'] + after);
}

/// Round trip from the value: reading the text form of a package version
/// gives the package version back, where the author holds neither `/` nor
/// `@` and the package name holds no `@`.
pub proof fn lemma_pkg_version_text_round_trip(pv: ((Seq<char>, Seq<char>), SemVer))
    requires
        !pv.0.0.contains('/'),
        !pv.0.0.contains('@'),
        !pv.0.1.contains('@'),
    ensures
        pkg_version_of_text(pkg_version_text(pv)) == Some(pv),
{
    let name = pkg_text(pv.0);
    let version = semver_text(pv.1);
    let s = pkg_version_text(pv);
    let i = name.len() as int;
    assert(s[i] == '@');
    assert forall|j: int| 0 <= j < i implies s[j] != '@' by {
        assert(s[j] == name[j]);
        if j < pv.0.0.len() {
            assert(name[j] == pv.0.0[j]);
            assert(pv.0.0.contains(pv.0.0[j]));
        } else if j > pv.0.0.len() {
            assert(name[j] == pv.0.1[j - pv.0.0.len() - 1]);
            assert(pv.0.1.contains(pv.0.1[j - pv.0.0.len() - 1]));
        }
    }
    crate::text::lemma_find_unique(s, '@', i);
    assert(s.subrange(0, i) =~= name);
    assert(s.subrange(i + 1, s.len() as int) =~= version);
    crate::project_config::lemma_pkg_text_round_trip(pv.0);
    crate::version::lemma_text_round_trip(pv.1);
}

/// Whether `answer` is what `read_config` gave for the file at `path`.
pub open spec fn is_read<Rd: Fn(&str) -> Result<PackageConfig, PkgVersionError>>(
    read_config: Rd,
    path: Seq<char>,
    answer: Result<PackageConfig, PkgVersionError>,
) -> bool {
    exists|p: &str| p@ == path && #[trigger] call_ensures(read_config, (p,), answer)
}

/// Whether `written` is what `write_config` gave for a text to be kept in
/// the file `cache_file` of the folder `cache_dir`.
pub open spec fn is_written<W: Fn(&str, &str, &str) -> Result<(), String>>(
    write_config: W,
    cache_dir: Seq<char>,
    cache_file: Seq<char>,
    text: Seq<char>,
    written: Result<(), String>,
) -> bool {
    exists|d: &str, f: &str, t: &str|
        d@ == cache_dir && f@ == cache_file && t@ == text && #[trigger] call_ensures(
            write_config,
            (d, f, t),
            written,
        )
}

/// Whether `answer` is what `decode_config` read from a text.
pub open spec fn is_decoded<D: Fn(&str) -> Result<PackageConfig, PkgVersionError>>(
    decode_config: D,
    text: Seq<char>,
    answer: Result<PackageConfig, PkgVersionError>,
) -> bool {
    exists|t: &str| t@ == text && #[trigger] call_ensures(decode_config, (t,), answer)
}

/// Whether `r` is what fetching the configuration of a package version
/// from the package server gives. One request is made. Its failure is
/// handed on with the address. Its answer is handed to `write_config` for
/// the file of the dependency solver, and whatever `write_config` gave,
/// `r` is what `decode_config` read from the answer.
pub open spec fn is_config_fetched<F, W, D>(
    http_fetch: F,
    write_config: W,
    decode_config: D,
    elm_home: Seq<char>,
    remote: Seq<char>,
    pv: ((Seq<char>, Seq<char>), SemVer),
    r: Result<PackageConfig, PkgVersionError>,
) -> bool where
    F: Fn(&str) -> Result<String, String>,
    W: Fn(&str, &str, &str) -> Result<(), String>,
    D: Fn(&str) -> Result<PackageConfig, PkgVersionError>,
 {
    let cache_dir = solver_cache_dir(elm_home, pv);
    exists|fetched: Result<String, PkgVersionError>|
        #[trigger] is_fetched(http_fetch, manifest_url(remote, pv), fetched) && match fetched {
            Err(e) => r == Err::<PackageConfig, PkgVersionError>(e),
            Ok(text) => (exists|written: Result<(), String>|
                #[trigger] is_written(
                    write_config,
                    cache_dir,
                    cache_dir + "/"@ + MANIFEST_FILE@,
                    text@,
                    written,
                )) && is_decoded(decode_config, text@, r),
        }
}

/// The file of the configuration of an installed package version:
/// `<elm_home>/<elm_version>/packages/<author>/<pkg>/<version>/manifest`.
pub open spec fn installed_manifest(
    elm_home: Seq<char>,
    elm_version: Seq<char>,
    pv: ((Seq<char>, Seq<char>), SemVer),
) -> Seq<char> {
    elm_home + "/"@ + elm_version + "/packages"@ + "/"@ + pv.0.0 + "/"@ + pv.0.1 + "/"@
        + semver_text(pv.1) + "/"@ + MANIFEST_FILE@
}

/// The folder that the dependency solver keeps for a package version:
/// `<elm_home>/pubgrub/elm_json_cache/<author>/<pkg>/<version>`.
pub open spec fn solver_cache_dir(
    elm_home: Seq<char>,
    pv: ((Seq<char>, Seq<char>), SemVer),
) -> Seq<char> {
    elm_home + "/pubgrub"@ + "/elm_json_cache/"@ + pv.0.0 + "/"@ + pv.0.1 + "/"@ + semver_text(
        pv.1,
    )
}

/// Whether `r` is what looking for the configuration of a package version
/// in three places in turn gives: `read_config` reads it from the file of
/// the installed package version; if that fails, from the file that the
/// dependency solver keeps; if that fails too, it is fetched from the
/// package server, kept if it can be, and decoded. The failure of the last
/// place is handed on.
pub open spec fn is_config_found<F, Rd, W, D>(
    http_fetch: F,
    read_config: Rd,
    write_config: W,
    decode_config: D,
    elm_home: Seq<char>,
    elm_version: Seq<char>,
    remote: Seq<char>,
    pv: ((Seq<char>, Seq<char>), SemVer),
    r: Result<PackageConfig, PkgVersionError>,
) -> bool where
    F: Fn(&str) -> Result<String, String>,
    Rd: Fn(&str) -> Result<PackageConfig, PkgVersionError>,
    W: Fn(&str, &str, &str) -> Result<(), String>,
    D: Fn(&str) -> Result<PackageConfig, PkgVersionError>,
 {
    exists|installed: Result<PackageConfig, PkgVersionError>|
        #[trigger] is_read(read_config, installed_manifest(elm_home, elm_version, pv), installed)
            && if installed is Ok {
            r == installed
        } else {
            exists|cached: Result<PackageConfig, PkgVersionError>|
                #[trigger] is_read(
                    read_config,
                    solver_cache_dir(elm_home, pv) + "/"@ + MANIFEST_FILE@,
                    cached,
                ) && if cached is Ok {
                    r == cached
                } else {
                    is_config_fetched(
                        http_fetch,
                        write_config,
                        decode_config,
                        elm_home,
                        remote,
                        pv,
                        r,
                    )
                }
        }
}

/// The address of the configuration of a package version on the package
/// server: `<remote>/packages/<author>/<pkg>/<version>/manifest`.
pub open spec fn manifest_url(remote: Seq<char>, pv: ((Seq<char>, Seq<char>), SemVer)) -> Seq<char> {
    remote + "/packages/"@ + pv.0.0 + "/"@ + pv.0.1 + "/"@ + semver_text(pv.1) + "/"@
        + MANIFEST_FILE@
}

/// Whether `r` is what one request to `url` gave: the answer as it came,
/// or the failure with the address.
pub open spec fn is_fetched<F: Fn(&str) -> Result<String, String>>(
    http_fetch: F,
    url: Seq<char>,
    r: Result<String, PkgVersionError>,
) -> bool {
    exists|u: &str, answer: Result<String, String>|
        u@ == url && #[trigger] call_ensures(http_fetch, (u,), answer) && match answer {
            Ok(body) => r == Ok::<String, PkgVersionError>(body),
            Err(cause) => match r {
                Err(PkgVersionError::FetchError { url, source }) => url@ == u@ && source == cause,
                _ => false,
            },
        }
}

} // verus!
