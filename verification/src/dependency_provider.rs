//! What a dependency provider decides: which package to try next and in
//! which version, and the adapter that makes a project the root package of
//! a resolution.

use pubgrub::version::SemanticVersion;
use vstd::prelude::*;
use crate::constraint::Constraint;
use crate::project_config::Pkg;
use crate::version::SemVer;

verus! {

/// What is known of the dependencies of a package version.
#[derive(Debug)]
pub enum Dependencies {
    /// The dependencies could not be had.
    Unknown,
    /// The dependencies: each package with the versions admitted of it. A
    /// package listed twice counts with its last entry.
    Known(Vec<(Pkg, Constraint)>),
}

/// How many of the versions the set admits.
pub open spec fn count_admitted(versions: Seq<SemVer>, admitted: Set<SemVer>) -> nat
    decreases versions.len(),
{
    if versions.len() == 0 {
        0
    } else {
        count_admitted(versions.drop_last(), admitted) + if admitted.contains(versions.last()) {
            1nat
        } else {
            0nat
        }
    }
}

/// Whether `choice` is the first of the versions that the set admits, or
/// nothing where it admits none of them.
pub open spec fn is_first_admitted(
    versions: Seq<SemVer>,
    admitted: Set<SemVer>,
    choice: Option<SemVer>,
) -> bool {
    match choice {
        Some(v) => exists|k: int|
            0 <= k < versions.len() && #[trigger] versions[k] == v && admitted.contains(v)
                && forall|m: int| 0 <= m < k ==> !admitted.contains(#[trigger] versions[m]),
        None => forall|k: int| 0 <= k < versions.len() ==> !admitted.contains(#[trigger] versions[k]),
    }
}

/// Whether `index` is the first of the candidates with the fewest available
/// versions within its range.
pub open spec fn has_fewest_versions(
    potential_packages: Seq<(Pkg, Constraint)>,
    available: Seq<Vec<SemVer>>,
    index: int,
) -> bool {
    &&& 0 <= index < potential_packages.len()
    &&& forall|j: int|
        0 <= j < potential_packages.len() ==> count_admitted(
            available[index]@,
            potential_packages[index].1@,
        ) <= count_admitted((#[trigger] available[j])@, potential_packages[j].1@)
    &&& forall|j: int|
        0 <= j < index ==> count_admitted(available[index]@, potential_packages[index].1@)
            < count_admitted((#[trigger] available[j])@, potential_packages[j].1@)
}

/// Determinism of the choice: the candidates and the versions available
/// of each leave one choice only.
pub proof fn lemma_choice_is_determined(
    potential_packages: Seq<(Pkg, Constraint)>,
    available: Seq<Vec<SemVer>>,
    first: (int, Option<SemVer>),
    second: (int, Option<SemVer>),
)
    requires
        has_fewest_versions(potential_packages, available, first.0),
        has_fewest_versions(potential_packages, available, second.0),
        is_first_admitted(available[first.0]@, potential_packages[first.0].1@, first.1),
        is_first_admitted(available[second.0]@, potential_packages[second.0].1@, second.1),
    ensures
        first == second,
{
    assert(first.0 == second.0) by {
        if first.0 < second.0 {
            assert(count_admitted(available[second.0]@, potential_packages[second.0].1@)
                < count_admitted(available[first.0]@, potential_packages[first.0].1@));
        }
        if second.0 < first.0 {
            assert(count_admitted(available[first.0]@, potential_packages[first.0].1@)
                < count_admitted(available[second.0]@, potential_packages[second.0].1@));
        }
    }
    let versions = available[first.0]@;
    let admitted = potential_packages[first.0].1@;
    match (first.1, second.1) {
        (Some(v1), Some(v2)) => {
            let k1 = choose|k: int|
                0 <= k < versions.len() && #[trigger] versions[k] == v1 && admitted.contains(v1)
                    && forall|m: int| 0 <= m < k ==> !admitted.contains(#[trigger] versions[m]);
            let k2 = choose|k: int|
                0 <= k < versions.len() && #[trigger] versions[k] == v2 && admitted.contains(v2)
                    && forall|m: int| 0 <= m < k ==> !admitted.contains(#[trigger] versions[m]);
            if k1 < k2 {
                assert(!admitted.contains(versions[k1]));
            }
            if k2 < k1 {
                assert(!admitted.contains(versions[k2]));
            }
        },
        (Some(v1), None) => {
            let k1 = choose|k: int|
                0 <= k < versions.len() && #[trigger] versions[k] == v1 && admitted.contains(v1)
                    && forall|m: int| 0 <= m < k ==> !admitted.contains(#[trigger] versions[m]);
            assert(!admitted.contains(versions[k1]));
        },
        (None, Some(v2)) => {
            let k2 = choose|k: int|
                0 <= k < versions.len() && #[trigger] versions[k] == v2 && admitted.contains(v2)
                    && forall|m: int| 0 <= m < k ==> !admitted.contains(#[trigger] versions[m]);
            assert(!admitted.contains(versions[k2]));
        },
        (None, None) => {},
    }
}

/// Calls `choose_package_with_fewest_versions` of pubgrub, with the
/// candidates named by their places and the versions of each as they are
/// listed. It panics without a candidate. The contract claims that it picks
/// the candidate with the fewest listed versions within its range, the
/// first of them where several have as few, as `Iterator::min_by_key`
/// does; and of that candidate the first listed version within the range,
/// or none where none is within it.
#[verifier::external_body]
fn pubgrub_choose(potential_packages: &Vec<(Pkg, Constraint)>, available: &Vec<Vec<SemVer>>) -> (r:
    (usize, Option<SemVer>))
    requires
        potential_packages@.len() > 0,
        available@.len() == potential_packages@.len(),
        forall|i: int|
            0 <= i < potential_packages@.len() ==> (#[trigger] potential_packages@[i]).1.wf(),
    ensures
        has_fewest_versions(potential_packages@, available@, r.0 as int),
        is_first_admitted(available@[r.0 as int]@, potential_packages@[r.0 as int].1@, r.1),
{
    let lists: Vec<Vec<SemanticVersion>> = available
        .iter()
        .map(|l| l.iter().map(|v| SemanticVersion::new(v.major, v.minor, v.patch)).collect())
        .collect();
    let (index, version) = pubgrub::solver::choose_package_with_fewest_versions(
        |i: &usize| lists[*i].iter().cloned(),
        potential_packages.iter().enumerate().map(|(i, entry)| (i, &entry.1.0)),
    );
    (index, version.map(|v| SemVer::from_triple(v.into())))
}

/// Picks the candidate with the fewest available versions within its range,
/// the first of them where several have as few, and of that candidate the
/// first available version within the range. `available` holds, for each
/// candidate, the versions that exist of it, in the order of preference.
pub fn choose_package_with_fewest_versions(
    potential_packages: &Vec<(Pkg, Constraint)>,
    available: &Vec<Vec<SemVer>>,
) -> (r: (usize, Option<SemVer>))
    requires
        potential_packages@.len() > 0,
        available@.len() == potential_packages@.len(),
        forall|i: int|
            0 <= i < potential_packages@.len() ==> (#[trigger] potential_packages@[i]).1.wf(),
    ensures
        has_fewest_versions(potential_packages@, available@, r.0 as int),
        is_first_admitted(available@[r.0 as int]@, potential_packages@[r.0 as int].1@, r.1),
{
    pubgrub_choose(potential_packages, available)
}

/// Whether the identifier is the one reserved for the compiler: author
/// `elm` and an empty package name.
pub open spec fn is_reserved(id: (Seq<char>, Seq<char>)) -> bool {
    id.0 == seq!['e', 'l', 'm'] && id.1.len() == 0
}

/// Whether the identifier is the one reserved for the compiler.
pub fn is_reserved_pkg(pkg: &Pkg) -> (b: bool)
    ensures
        b == is_reserved(pkg@),
{
    proof {
        reveal_strlit("elm");
        reveal_strlit("");
        assert("elm"@ =~= seq!['e', 'l', 'm']);
        assert(""@ =~= Seq::<char>::empty());
    }
    let b = crate::text::same_text(pkg.author.as_str(), "elm") && crate::text::same_text(
        pkg.pkg.as_str(),
        "",
    );
    assert(pkg.pkg@.len() == 0 <==> pkg.pkg@ =~= Seq::<char>::empty());
    b
}

/// Dependency provider of a package or an application elm project: the
/// project stands as the root package of the resolution, at one version,
/// with its direct dependencies. All other packages are left to the
/// provider that it is used with.
pub struct ProjectAdapter<'a> {
    pkg_id: Pkg,
    version: SemVer,
    direct_deps: &'a Vec<(Pkg, Constraint)>,
}

impl<'a> ProjectAdapter<'a> {
    /// The identifier of the root package.
    pub closed spec fn root(&self) -> (Seq<char>, Seq<char>) {
        self.pkg_id@
    }

    /// The version of the root package.
    pub closed spec fn root_version(&self) -> SemVer {
        self.version
    }

    /// The direct dependencies of the root package.
    pub closed spec fn dependencies(&self) -> &'a Vec<(Pkg, Constraint)> {
        self.direct_deps
    }

    /// Initialize a project dependency provider. The identifier reserved
    /// for the compiler cannot be the root.
    pub fn new(pkg_id: Pkg, version: SemVer, direct_deps: &'a Vec<(Pkg, Constraint)>) -> (r: Self)
        requires
            !is_reserved(pkg_id@),
        ensures
            r.root() == pkg_id@,
            r.root_version() == version,
            r.dependencies() == direct_deps,
    {
        ProjectAdapter { pkg_id, version, direct_deps }
    }

    /// The root package.
    pub fn pkg_id(&self) -> (r: &Pkg)
        ensures
            r@ == self.root(),
    {
        &self.pkg_id
    }

    /// The version of the root package.
    pub fn version(&self) -> (r: SemVer)
        ensures
            r == self.root_version(),
    {
        self.version
    }

    /// The direct dependencies of the root package.
    pub fn direct_deps(&self) -> (r: &'a Vec<(Pkg, Constraint)>)
        ensures
            r == self.dependencies(),
    {
        self.direct_deps
    }

    /// Chooses among the candidates, of which there is at least one. Where
    /// the first candidate is the root, it is chosen at the root's version.
    /// Else the choice is the one that `deps_provider` makes.
    pub fn choose_package_version<C>(
        &self,
        potential_packages: &Vec<(Pkg, Constraint)>,
        deps_provider: C,
    ) -> (r: Result<(usize, Option<SemVer>), String>) where
        C: FnOnce(&Vec<(Pkg, Constraint)>) -> Result<(usize, Option<SemVer>), String>,

        requires
            potential_packages@.len() > 0,
            potential_packages@[0].0@ != self.root() ==> call_requires(
                deps_provider,
                (potential_packages,),
            ),
        ensures
            potential_packages@[0].0@ == self.root() ==> r == Ok::<
                (usize, Option<SemVer>),
                String,
            >((0usize, Some(self.root_version()))),
            potential_packages@[0].0@ != self.root() ==> call_ensures(
                deps_provider,
                (potential_packages,),
                r,
            ),
    {
        if potential_packages[0].0.same(&self.pkg_id) {
            return Ok((0, Some(self.version)));
        }
        deps_provider(potential_packages)
    }

    /// The dependencies of a package version. Those of the root are its
    /// direct dependencies, whatever the version asked for. Those of any
    /// other package are what `deps_provider` gives.
    pub fn get_dependencies<G>(&self, package: &Pkg, version: SemVer, deps_provider: G) -> (r:
        Result<Dependencies, String>) where
        G: FnOnce(&Pkg, SemVer) -> Result<Dependencies, String>,

        requires
            package@ != self.root() ==> call_requires(deps_provider, (package, version)),
        ensures
            package@ == self.root() ==> match r {
                Ok(Dependencies::Known(deps)) => same_dependencies(deps@, self.dependencies()@),
                _ => false,
            },
            package@ != self.root() ==> call_ensures(deps_provider, (package, version), r),
    {
        if package.same(&self.pkg_id) {
            Ok(Dependencies::Known(clone_dependencies(self.direct_deps)))
        } else {
            deps_provider(package, version)
        }
    }
}

/// Dependency provider for installed packages only.
pub type ElmPackageProviderOffline = crate::solver::Offline;

/// Dependency provider for the packages installed and those that the
/// package server lists.
pub type ElmPackageProviderOnline<F> = crate::solver::Online<F>;

/// Whether two lists of dependencies name the same packages in the same
/// order, each with the same intervals of versions.
pub open spec fn same_dependencies(a: Seq<(Pkg, Constraint)>, b: Seq<(Pkg, Constraint)>) -> bool {
    &&& a.len() == b.len()
    &&& forall|i: int|
        0 <= i < a.len() ==> (#[trigger] a[i]).0@ == b[i].0@ && a[i].1.segments()
            == b[i].1.segments()
}

/// A copy of a list of dependencies.
pub fn clone_dependencies(deps: &Vec<(Pkg, Constraint)>) -> (r: Vec<(Pkg, Constraint)>)
    ensures
        same_dependencies(r@, deps@),
{
    let mut r: Vec<(Pkg, Constraint)> = Vec::new();
    let mut i: usize = 0;
    while i < deps.len()
        invariant
            i <= deps@.len(),
            r@.len() == i,
            forall|k: int|
                0 <= k < i ==> (#[trigger] r@[k]).0@ == deps@[k].0@ && r@[k].1.segments()
                    == deps@[k].1.segments(),
        decreases deps.len() - i,
    {
        r.push((deps[i].0.clone(), deps[i].1.clone()));
        i += 1;
    }
    r
}

} // verus!
