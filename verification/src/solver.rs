//! Solving the dependencies of a project: what is asked of the resolver,
//! and what is made of its answer.

use vstd::prelude::*;
use vstd::string::*;
use crate::constraint::Constraint;
use crate::dependency_provider::{choose_package_with_fewest_versions, has_fewest_versions,
    is_first_admitted, is_reserved, Dependencies, ProjectAdapter};
use crate::pkg_version::{is_config_found, is_read, is_update, versions_named, Cache, CacheError,
    PkgVersion, PkgVersionError, MANIFEST_FILE};
use crate::project_config::{concat, dependencies_model, dependencies_sorted, dependencies_wf,
    find_dependency, lemma_dependencies_at, lemma_dependencies_named, lemma_pkg_order, pins_model,
    pins_sorted, pkg_lt, set_dependency, set_pin, AppDependencies, PackageConfig, Pkg,
    ProjectConfig};
use crate::text::texts;
use crate::version::SemVer;
use crate::versions::{is_ascending, merge_versions, reversed};

verus! {

/// Strategy of an online solver, consisting of picking either the newest
/// or oldest compatible versions.
#[derive(Debug, Clone, Copy, PartialEq, Eq, Structural)]
pub enum VersionStrategy {
    /// Choose the newest compatible versions.
    Newest,
    /// Choose the oldest compatible versions.
    Oldest,
}

/// Why the dependencies of a project could not be solved.
#[derive(Debug)]
pub enum SolveError {
    /// There is no solution for this set of dependencies; holds the report
    /// that explains why.
    NoSolution(String),
    /// The dependencies of a package version could not be retrieved.
    ErrorRetrievingDependencies {
        /// Package whose dependencies were wanted.
        package: Pkg,
        /// Version of the package.
        version: SemVer,
        /// What went wrong.
        source: String,
    },
    /// A package version depends on a package in no version at all.
    DependencyOnTheEmptySet {
        /// Package whose dependencies were wanted.
        package: Pkg,
        /// Version of the package.
        version: SemVer,
        /// The package of which no version is admitted.
        dependent: Pkg,
    },
    /// A package version depends on its own package.
    SelfDependency {
        /// Package whose dependencies were wanted.
        package: Pkg,
        /// Version of the package.
        version: SemVer,
    },
    /// Choosing the next package and version failed; holds the cause.
    ErrorChoosingPackageVersion(String),
    /// The resolution was cancelled; holds the cause.
    ErrorInShouldCancel(String),
    /// Something unexpected happened; holds the cause.
    Failure(String),
}

/// The text `author/pkg@major.minor.patch` that messages name a package
/// version by.
pub open spec fn package_version_text(package: Pkg, version: SemVer) -> Seq<char> {
    package.author@ + "/"@ + package.pkg@ + "@"@ + crate::version::semver_text(version)
}

/// The message that tells a user of the error.
pub open spec fn error_message(err: SolveError) -> Seq<char> {
    match err {
        SolveError::NoSolution(report) => report@,
        SolveError::ErrorRetrievingDependencies { package, version, source } =>
            "An error occured while trying to retrieve dependencies of "@ + package_version_text(
                package,
                version,
            ) + ":\n\n"@ + source@,
        SolveError::DependencyOnTheEmptySet { package, version, dependent } =>
            package_version_text(package, version) + " has an imposible dependency on "@
                + dependent.author@ + "/"@ + dependent.pkg@,
        SolveError::SelfDependency { package, version } => package_version_text(package, version)
            + " somehow depends on itself"@,
        SolveError::ErrorChoosingPackageVersion(cause) =>
            "There was an error while picking packages for dependency resolution:\n\n"@
                + cause@,
        SolveError::ErrorInShouldCancel(cause) => "Dependency resolution was cancelled.\n\n"@
            + cause@,
        SolveError::Failure(cause) =>
            "An unrecoverable error happened while solving dependencies:\n\n"@ + cause@,
    }
}

/// The text `author/pkg@major.minor.patch` of a package version.
fn package_version_name(package: &Pkg, version: SemVer) -> (r: String)
    ensures
        r@ == package_version_text(*package, version),
{
    let mut r = concat(package.author.as_str(), "/");
    r.append(package.pkg.as_str());
    r.append("@");
    r.append(version.to_string().as_str());
    r
}

/// The message that tells a user why solving failed.
pub fn handle_pubgrub_error(err: &SolveError) -> (r: String)
    ensures
        r@ == error_message(*err),
{
    match err {
        SolveError::NoSolution(report) => report.clone(),
        SolveError::ErrorRetrievingDependencies { package, version, source } => {
            let mut r = concat(
                "An error occured while trying to retrieve dependencies of ",
                package_version_name(package, *version).as_str(),
            );
            r.append(":\n\n");
            r.append(source.as_str());
            r
        },
        SolveError::DependencyOnTheEmptySet { package, version, dependent } => {
            let mut r = package_version_name(package, *version);
            r.append(" has an imposible dependency on ");
            r.append(dependent.author.as_str());
            r.append("/");
            r.append(dependent.pkg.as_str());
            r
        },
        SolveError::SelfDependency { package, version } => {
            let mut r = package_version_name(package, *version);
            r.append(" somehow depends on itself");
            r
        },
        SolveError::ErrorChoosingPackageVersion(cause) => concat(
            "There was an error while picking packages for dependency resolution:\n\n",
            cause.as_str(),
        ),
        SolveError::ErrorInShouldCancel(cause) => concat(
            "Dependency resolution was cancelled.\n\n",
            cause.as_str(),
        ),
        SolveError::Failure(cause) => concat(
            "An unrecoverable error happened while solving dependencies:\n\n",
            cause.as_str(),
        ),
    }
}

/// Why a text is no additional constraint `author/pkg: v1 <= v < v2`.
#[derive(Debug, PartialEq)]
pub enum ExtraParseError {
    /// No separator `:` between the package and the constraint; holds the
    /// text that was being parsed.
    NoSeparator(String),
    /// What stands before the separator is no package identifier.
    Package(crate::project_config::PkgParseError),
    /// What stands after the separator is no constraint.
    Constraint(crate::constraint::ConstraintParseError),
}

/// What stands before the first `:` of a text, trimmed.
pub open spec fn extra_package_text(s: Seq<char>) -> Seq<char> {
    crate::text::trimmed(s.subrange(0, crate::text::find(s, ':')))
}

/// What stands after the first `:` of a text, trimmed.
pub open spec fn extra_constraint_text(s: Seq<char>) -> Seq<char> {
    crate::text::trimmed(s.subrange(crate::text::find(s, ':') + 1, s.len() as int))
}

/// Reads an additional constraint of the shape `author/pkg: v1 <= v < v2`:
/// the package stands before the first `:`, the constraint after it, and
/// white space around either does not count. A missing `:` is reported
/// first, then a package that cannot be read, then a constraint that
/// cannot.
pub fn parse_package_constraint(s: &str) -> (r: Result<(Pkg, Constraint), ExtraParseError>)
    ensures
        match r {
            Ok((p, c)) => s@.contains(':') && crate::project_config::pkg_of_text(
                extra_package_text(s@),
            ) == Some(p@) && c.wf() && crate::constraint::constraint_of_text(
                extra_constraint_text(s@),
            ) == Some(c@),
            Err(ExtraParseError::NoSeparator(text)) => !s@.contains(':') && text@ == s@,
            Err(
                ExtraParseError::Package(crate::project_config::PkgParseError::NoAuthorSeparator(text)),
            ) => s@.contains(':') && crate::project_config::pkg_of_text(extra_package_text(s@))
                is None && text@ == extra_package_text(s@),
            Err(ExtraParseError::Constraint(e)) => s@.contains(':')
                && crate::project_config::pkg_of_text(extra_package_text(s@)) is Some
                && crate::constraint::constraint_of_text(extra_constraint_text(s@)) is None
                && crate::constraint::is_constraint_error_of(e, extra_constraint_text(s@)),
        },
{
    proof {
        crate::text::lemma_find(s@, ':');
    }
    let separator = match crate::text::find_char(s, ':') {
        None => {
            return Err(ExtraParseError::NoSeparator(s.to_owned()));
        },
        Some(i) => i,
    };
    let n = s.unicode_len();
    let pkg_str = crate::text::trim(s.substring_char(0, separator));
    let range_str = crate::text::trim(s.substring_char(separator + 1, n));
    let pkg = match Pkg::from_str(pkg_str.as_str()) {
        Ok(p) => p,
        Err(e) => {
            return Err(ExtraParseError::Package(e));
        },
    };
    match Constraint::from_str(range_str.as_str()) {
        Ok(c) => Ok((pkg, c)),
        Err(e) => Err(ExtraParseError::Constraint(e)),
    }
}

/// Where solving may look for packages.
#[derive(Debug, Clone, Copy, PartialEq, Eq, Structural)]
pub enum Connectivity {
    /// Use only installed packages.
    Offline,
    /// Use the package server, with a strategy.
    Online(VersionStrategy),
    /// Try with the installed packages only, and with the package server
    /// and the newest versions if that fails.
    Progressive,
}

/// One attempt at solving.
#[derive(Debug, Clone, Copy, PartialEq, Eq, Structural)]
pub enum Attempt {
    /// With the installed packages only.
    Offline,
    /// With the package server, with a strategy.
    Online(VersionStrategy),
}

impl Connectivity {
    /// The connectivity that the options ask for: offline where `offline`
    /// is set, whatever the strategy; else online with the strategy given;
    /// else progressive.
    pub fn from_options(offline: bool, online_strat: Option<VersionStrategy>) -> (r: Connectivity)
        ensures
            r == if offline {
                Connectivity::Offline
            } else {
                match online_strat {
                    Some(strategy) => Connectivity::Online(strategy),
                    None => Connectivity::Progressive,
                }
            },
    {
        if offline {
            Connectivity::Offline
        } else {
            match online_strat {
                Some(strategy) => Connectivity::Online(strategy),
                None => Connectivity::Progressive,
            }
        }
    }

    /// The attempt to start with: offline, but for the online connectivity.
    pub fn first_attempt(&self) -> (r: Attempt)
        ensures
            r == match *self {
                Connectivity::Online(strategy) => Attempt::Online(strategy),
                _ => Attempt::Offline,
            },
    {
        match self {
            Connectivity::Online(strategy) => Attempt::Online(*strategy),
            _ => Attempt::Offline,
        }
    }

    /// The attempt to make after one has failed, if any: progressive
    /// solving goes online with the newest versions after its offline
    /// attempt, whatever the error was. Every other failure is final.
    pub fn after_failure(&self, failed: Attempt) -> (r: Option<Attempt>)
        ensures
            r == if *self == Connectivity::Progressive && failed == Attempt::Offline {
                Some(Attempt::Online(VersionStrategy::Newest))
            } else {
                None
            },
    {
        match (self, failed) {
            (Connectivity::Progressive, Attempt::Offline) => Some(
                Attempt::Online(VersionStrategy::Newest),
            ),
            _ => None,
        }
    }
}

/// The identifier under which an application stands as the root of a
/// resolution: author `root`, no package name.
pub open spec fn application_root() -> (Seq<char>, Seq<char>) {
    (seq!['r', 'o', 'o', 't'], Seq::<char>::empty())
}

/// The identifier under which a project stands as the root of a resolution.
pub open spec fn root_id(project: ProjectConfig) -> (Seq<char>, Seq<char>) {
    match project {
        ProjectConfig::Application(_) => application_root(),
        ProjectConfig::Package(pkg) => pkg.name@,
    }
}

/// The version at which a project stands as the root of a resolution:
/// 0.0.0 for an application, its own for a package.
pub open spec fn root_version(project: ProjectConfig) -> SemVer {
    match project {
        ProjectConfig::Application(_) => SemVer { major: 0, minor: 0, patch: 0 },
        ProjectConfig::Package(pkg) => pkg.version,
    }
}

/// The constraints that pinned versions stand for: each admits the pinned
/// version only.
pub open spec fn pins_as_model(pins: Seq<(Pkg, SemVer)>) -> Map<(Seq<char>, Seq<char>), Set<SemVer>>
    decreases pins.len(),
{
    if pins.len() == 0 {
        Map::empty()
    } else {
        pins_as_model(pins.drop_last()).insert(pins.last().0@, set![pins.last().1])
    }
}

/// What a project declares of its direct dependencies: an application the
/// pinned versions, a package its ranges. With `use_test` the dependencies
/// of the tests are added, and count where a package stands in both.
pub open spec fn declared_dependencies(project: ProjectConfig, use_test: bool) -> Map<
    (Seq<char>, Seq<char>),
    Set<SemVer>,
> {
    match project {
        ProjectConfig::Application(app) => pins_as_model(
            if use_test {
                app.dependencies.direct@ + app.test_dependencies.direct@
            } else {
                app.dependencies.direct@
            },
        ),
        ProjectConfig::Package(pkg) => dependencies_model(
            if use_test {
                pkg.dependencies@ + pkg.test_dependencies@
            } else {
                pkg.dependencies@
            },
        ),
    }
}

/// The dependencies with additional constraints: each is intersected with
/// what stands for its package, or with all versions where nothing stands.
pub open spec fn with_additional_constraints(
    deps: Map<(Seq<char>, Seq<char>), Set<SemVer>>,
    additional_constraints: Seq<(Pkg, Constraint)>,
) -> Map<(Seq<char>, Seq<char>), Set<SemVer>>
    decreases additional_constraints.len(),
{
    if additional_constraints.len() == 0 {
        deps
    } else {
        let before = with_additional_constraints(deps, additional_constraints.drop_last());
        let p = additional_constraints.last().0@;
        let standing = if before.dom().contains(p) {
            before[p]
        } else {
            Set::full()
        };
        before.insert(p, standing.intersect(additional_constraints.last().1@))
    }
}

/// The direct dependencies that a resolution of the project starts from.
pub open spec fn direct_dependencies_model(
    project: ProjectConfig,
    use_test: bool,
    additional_constraints: Seq<(Pkg, Constraint)>,
) -> Map<(Seq<char>, Seq<char>), Set<SemVer>> {
    with_additional_constraints(declared_dependencies(project, use_test), additional_constraints)
}

/// Sets the pinned packages in a list of dependencies, each admitting the
/// pinned version only.
fn set_pins(deps: &mut Vec<(Pkg, Constraint)>, pins: &Vec<(Pkg, SemVer)>, Ghost(before): Ghost<
    Seq<(Pkg, SemVer)>,
>)
    requires
        dependencies_sorted(old(deps)@),
        dependencies_wf(old(deps)@),
        dependencies_model(old(deps)@) == pins_as_model(before),
    ensures
        dependencies_sorted(final(deps)@),
        dependencies_wf(final(deps)@),
        dependencies_model(final(deps)@) == pins_as_model(before + pins@),
{
    let mut i: usize = 0;
    assert(before + pins@.take(0) =~= before);
    while i < pins.len()
        invariant
            i <= pins@.len(),
            dependencies_sorted(deps@),
            dependencies_wf(deps@),
            dependencies_model(deps@) == pins_as_model(before + pins@.take(i as int)),
        decreases pins.len() - i,
    {
        set_dependency(deps, pins[i].0.clone(), Constraint::only(pins[i].1));
        proof {
            let t = before + pins@.take(i as int + 1);
            assert(t.drop_last() =~= before + pins@.take(i as int));
            assert(t.last() == pins@[i as int]);
        }
        i += 1;
    }
    assert(pins@.take(pins@.len() as int) =~= pins@);
}

/// Sets the dependencies of a list in another.
fn set_dependencies(
    deps: &mut Vec<(Pkg, Constraint)>,
    more: &Vec<(Pkg, Constraint)>,
    Ghost(before): Ghost<Seq<(Pkg, Constraint)>>,
)
    requires
        dependencies_sorted(old(deps)@),
        dependencies_wf(old(deps)@),
        dependencies_wf(more@),
        dependencies_model(old(deps)@) == dependencies_model(before),
    ensures
        dependencies_sorted(final(deps)@),
        dependencies_wf(final(deps)@),
        dependencies_model(final(deps)@) == dependencies_model(before + more@),
{
    let mut i: usize = 0;
    assert(before + more@.take(0) =~= before);
    while i < more.len()
        invariant
            i <= more@.len(),
            dependencies_wf(more@),
            dependencies_sorted(deps@),
            dependencies_wf(deps@),
            dependencies_model(deps@) == dependencies_model(before + more@.take(i as int)),
        decreases more.len() - i,
    {
        set_dependency(deps, more[i].0.clone(), more[i].1.clone());
        proof {
            let t = before + more@.take(i as int + 1);
            assert(t.drop_last() =~= before + more@.take(i as int));
            assert(t.last() == more@[i as int]);
        }
        i += 1;
    }
    assert(more@.take(more@.len() as int) =~= more@);
}

/// The direct dependencies that a resolution of the project starts from:
/// what the project declares, each additional constraint intersected into
/// it.
pub fn direct_dependencies(
    project_elm_json: &ProjectConfig,
    use_test: bool,
    additional_constraints: &Vec<(Pkg, Constraint)>,
) -> (r: Vec<(Pkg, Constraint)>)
    requires
        project_elm_json.wf(),
        dependencies_wf(additional_constraints@),
    ensures
        dependencies_wf(r@),
        dependencies_sorted(r@),
        dependencies_model(r@) == direct_dependencies_model(
            *project_elm_json,
            use_test,
            additional_constraints@,
        ),
{
    let mut deps: Vec<(Pkg, Constraint)> = Vec::new();
    match project_elm_json {
        ProjectConfig::Application(app_config) => {
            set_pins(&mut deps, &app_config.dependencies.direct, Ghost(Seq::empty()));
            assert(Seq::<(Pkg, SemVer)>::empty() + app_config.dependencies.direct@
                =~= app_config.dependencies.direct@);
            if use_test {
                set_pins(
                    &mut deps,
                    &app_config.test_dependencies.direct,
                    Ghost(app_config.dependencies.direct@),
                );
            }
        },
        ProjectConfig::Package(pkg_config) => {
            set_dependencies(&mut deps, &pkg_config.dependencies, Ghost(Seq::empty()));
            assert(Seq::<(Pkg, Constraint)>::empty() + pkg_config.dependencies@
                =~= pkg_config.dependencies@);
            if use_test {
                set_dependencies(
                    &mut deps,
                    &pkg_config.test_dependencies,
                    Ghost(pkg_config.dependencies@),
                );
            }
        },
    }
    let ghost declared = dependencies_model(deps@);
    let mut i: usize = 0;
    assert(additional_constraints@.take(0) =~= Seq::<(Pkg, Constraint)>::empty());
    while i < additional_constraints.len()
        invariant
            i <= additional_constraints@.len(),
            dependencies_wf(additional_constraints@),
            dependencies_sorted(deps@),
            dependencies_wf(deps@),
            dependencies_model(deps@) == with_additional_constraints(
                declared,
                additional_constraints@.take(i as int),
            ),
        decreases additional_constraints.len() - i,
    {
        let p = &additional_constraints[i].0;
        let r = &additional_constraints[i].1;
        let dep_range = match find_dependency(&deps, p) {
            Some(k) => deps[k].1.intersection(r),
            None => Constraint::any().intersection(r),
        };
        set_dependency(&mut deps, p.clone(), dep_range);
        proof {
            let t = additional_constraints@.take(i as int + 1);
            assert(t.drop_last() =~= additional_constraints@.take(i as int));
            assert(t.last() == additional_constraints@[i as int]);
        }
        i += 1;
    }
    assert(additional_constraints@.take(additional_constraints@.len() as int)
        =~= additional_constraints@);
    deps
}

/// The package and the version under which a project stands as the root
/// of a resolution: `root` at 0.0.0 for an application, its own name and
/// version for a package.
pub fn root_package(project_elm_json: &ProjectConfig) -> (r: (Pkg, SemVer))
    ensures
        r.0@ == root_id(*project_elm_json),
        r.1 == root_version(*project_elm_json),
{
    match project_elm_json {
        ProjectConfig::Application(_) => {
            proof {
                reveal_strlit("root");
                reveal_strlit("");
                assert("root"@ =~= seq!['r', 'o', 'o', 't']);
                assert(""@ =~= Seq::<char>::empty());
            }
            (Pkg::new("root", ""), SemVer::zero())
        },
        ProjectConfig::Package(pkg_config) => (pkg_config.name.clone(), pkg_config.version),
    }
}

/// Whether the direct dependencies of the project are at fault themselves:
/// the project depends on itself, or on a package of which its constraints
/// admit no version.
pub open spec fn has_own_error(
    project: ProjectConfig,
    use_test: bool,
    additional_constraints: Seq<(Pkg, Constraint)>,
) -> bool {
    let deps = direct_dependencies_model(project, use_test, additional_constraints);
    deps.dom().contains(root_id(project)) || exists|q: (Seq<char>, Seq<char>)|
        deps.dom().contains(q) && #[trigger] deps[q] == Set::<SemVer>::empty()
}

/// Whether `e` is the error that the direct dependencies of the project
/// give by themselves: that the project depends on itself; else that it
/// depends on a package of which no version is admitted, which is the
/// first such package in the order of the packages.
pub open spec fn is_own_error(
    project: ProjectConfig,
    use_test: bool,
    additional_constraints: Seq<(Pkg, Constraint)>,
    e: SolveError,
) -> bool {
    let deps = direct_dependencies_model(project, use_test, additional_constraints);
    if deps.dom().contains(root_id(project)) {
        match e {
            SolveError::SelfDependency { package, version } => package@ == root_id(project)
                && version == root_version(project),
            _ => false,
        }
    } else {
        match e {
            SolveError::DependencyOnTheEmptySet { package, version, dependent } => package@
                == root_id(project) && version == root_version(project) && deps.dom().contains(
                dependent@,
            ) && deps[dependent@] == Set::<SemVer>::empty() && forall|q: (Seq<char>, Seq<char>)|
                deps.dom().contains(q) && #[trigger] deps[q] == Set::<SemVer>::empty() ==> !pkg_lt(
                    q,
                    dependent@,
                ),
            _ => false,
        }
    }
}

/// What is wrong with the direct dependencies of a root by themselves, if
/// anything: that they name the root, or else the first of them that
/// admits no version.
fn own_error(root_pkg: &Pkg, root_version: SemVer, direct_deps: &Vec<(Pkg, Constraint)>) -> (r:
    Option<SolveError>)
    requires
        dependencies_wf(direct_deps@),
        dependencies_sorted(direct_deps@),
    ensures
        match r {
            None => !dependencies_model(direct_deps@).dom().contains(root_pkg@) && forall|
                q: (Seq<char>, Seq<char>),
            |
                dependencies_model(direct_deps@).dom().contains(q) ==> #[trigger] dependencies_model(
                    direct_deps@,
                )[q] != Set::<SemVer>::empty(),
            Some(SolveError::SelfDependency { package, version }) => dependencies_model(
                direct_deps@,
            ).dom().contains(root_pkg@) && package@ == root_pkg@ && version == root_version,
            Some(SolveError::DependencyOnTheEmptySet { package, version, dependent }) =>
                !dependencies_model(direct_deps@).dom().contains(root_pkg@) && package@
                    == root_pkg@ && version == root_version && dependencies_model(
                    direct_deps@,
                ).dom().contains(dependent@) && dependencies_model(direct_deps@)[dependent@]
                    == Set::<SemVer>::empty() && forall|q: (Seq<char>, Seq<char>)|
                    dependencies_model(direct_deps@).dom().contains(q)
                        && #[trigger] dependencies_model(direct_deps@)[q] == Set::<SemVer>::empty()
                        ==> !pkg_lt(q, dependent@),
            Some(_) => false,
        },
{
    if find_dependency(direct_deps, root_pkg).is_some() {
        return Some(SolveError::SelfDependency { package: root_pkg.clone(), version: root_version });
    }
    let ghost model = dependencies_model(direct_deps@);
    let mut i: usize = 0;
    while i < direct_deps.len()
        invariant
            i <= direct_deps@.len(),
            dependencies_wf(direct_deps@),
            dependencies_sorted(direct_deps@),
            model == dependencies_model(direct_deps@),
            !model.dom().contains(root_pkg@),
            forall|j: int| 0 <= j < i ==> (#[trigger] direct_deps@[j]).1@ != Set::<SemVer>::empty(),
        decreases direct_deps.len() - i,
    {
        if direct_deps[i].1.is_none() {
            proof {
                lemma_dependencies_at(direct_deps@, i as int);
                assert forall|q: (Seq<char>, Seq<char>)|
                    model.dom().contains(q) && #[trigger] model[q]
                        == Set::<SemVer>::empty() implies !pkg_lt(q, direct_deps@[i as int].0@) by {
                    lemma_dependencies_named(direct_deps@, q);
                    let j = choose|j: int|
                        0 <= j < direct_deps@.len() && (#[trigger] direct_deps@[j]).0@ == q;
                    lemma_dependencies_at(direct_deps@, j);
                    if j > i {
                        assert(pkg_lt(direct_deps@[i as int].0@, direct_deps@[j].0@));
                    }
                    lemma_pkg_order(q, direct_deps@[i as int].0@, q);
                }
            }
            return Some(
                SolveError::DependencyOnTheEmptySet {
                    package: root_pkg.clone(),
                    version: root_version,
                    dependent: direct_deps[i].0.clone(),
                },
            );
        }
        i += 1;
    }
    proof {
        assert forall|q: (Seq<char>, Seq<char>)| model.dom().contains(q) implies #[trigger] model[q]
            != Set::<SemVer>::empty() by {
            lemma_dependencies_named(direct_deps@, q);
            let j = choose|j: int|
                0 <= j < direct_deps@.len() && (#[trigger] direct_deps@[j]).0@ == q;
            lemma_dependencies_at(direct_deps@, j);
        }
    }
    None
}

/// Whether the adapter stands for the project: it has the root of the
/// project, its version, and for direct dependencies what the project
/// declares with the additional constraints.
pub open spec fn is_adapter_of(
    adapter: ProjectAdapter,
    project: ProjectConfig,
    use_test: bool,
    additional_constraints: Seq<(Pkg, Constraint)>,
) -> bool {
    &&& adapter.root() == root_id(project)
    &&& adapter.root_version() == root_version(project)
    &&& dependencies_wf(adapter.dependencies()@)
    &&& dependencies_sorted(adapter.dependencies()@)
    &&& dependencies_model(adapter.dependencies()@) == direct_dependencies_model(
        project,
        use_test,
        additional_constraints,
    )
}

/// Whether `r` is what is made of the outcome of a resolution of the
/// project: of a solution its direct and indirect parts, without the root,
/// each in the order of the packages; of an error the error.
pub open spec fn is_made_of(
    r: Result<AppDependencies, SolveError>,
    outcome: Result<Vec<(Pkg, SemVer)>, SolveError>,
    project: ProjectConfig,
    use_test: bool,
    additional_constraints: Seq<(Pkg, Constraint)>,
) -> bool {
    match outcome {
        Ok(solution) => match r {
            Ok(deps) => pins_sorted(deps.direct@) && pins_sorted(deps.indirect@) && pins_model(
                deps.direct@,
            ) == direct_part(
                pins_model(solution@),
                root_id(project),
                direct_dependencies_model(project, use_test, additional_constraints).dom(),
            ) && pins_model(deps.indirect@) == indirect_part(
                pins_model(solution@),
                root_id(project),
                direct_dependencies_model(project, use_test, additional_constraints).dom(),
            ),
            Err(_) => false,
        },
        Err(e) => match r {
            Ok(_) => false,
            Err(e2) => e2 == e,
        },
    }
}

/// Solves the dependencies of an elm project. The project is made the
/// root of the resolution, with its declared dependencies (those of the
/// tests too with `use_test`) and the additional constraints. `resolve`
/// runs the resolution and gives each package of the solution with its
/// version. The root is removed from the solution, and the rest split
/// into direct and indirect dependencies. An error of `resolve` is
/// handed on. Where the project depends on itself, or on a package of
/// which its constraints admit no version, that is the error, and
/// `resolve` is not run.
pub fn solve_deps_with<R>(
    project_elm_json: &ProjectConfig,
    use_test: bool,
    additional_constraints: &Vec<(Pkg, Constraint)>,
    resolve: R,
) -> (r: Result<AppDependencies, SolveError>) where
    R: FnOnce(&ProjectAdapter) -> Result<Vec<(Pkg, SemVer)>, SolveError>,

    requires
        project_elm_json.wf(),
        dependencies_wf(additional_constraints@),
        !is_reserved(root_id(*project_elm_json)),
        forall|adapter: &ProjectAdapter|
            is_adapter_of(*adapter, *project_elm_json, use_test, additional_constraints@)
                ==> call_requires(resolve, (adapter,)),
    ensures
        has_own_error(*project_elm_json, use_test, additional_constraints@) ==> match r {
            Ok(_) => false,
            Err(e) => is_own_error(*project_elm_json, use_test, additional_constraints@, e),
        },
        !has_own_error(*project_elm_json, use_test, additional_constraints@) ==> exists|
            adapter: &ProjectAdapter,
            outcome: Result<Vec<(Pkg, SemVer)>, SolveError>,
        |
            is_adapter_of(*adapter, *project_elm_json, use_test, additional_constraints@)
                && #[trigger] call_ensures(resolve, (adapter,), outcome) && is_made_of(
                r,
                outcome,
                *project_elm_json,
                use_test,
                additional_constraints@,
            ),
{
    let direct_deps = direct_dependencies(project_elm_json, use_test, additional_constraints);
    let (root_pkg, root_version) = root_package(project_elm_json);
    match own_error(&root_pkg, root_version, &direct_deps) {
        Some(e) => {
            return Err(e);
        },
        None => {},
    }
    let project_deps_provider = ProjectAdapter::new(root_pkg.clone(), root_version, &direct_deps);
    assert(is_adapter_of(
        project_deps_provider,
        *project_elm_json,
        use_test,
        additional_constraints@,
    ));
    match resolve(&project_deps_provider) {
        Ok(solution) => Ok(split_solution(&solution, &root_pkg, &direct_deps)),
        Err(e) => Err(e),
    }
}

/// Whether the versions are those of the set, newest first.
pub open spec fn is_newest_first(list: Seq<SemVer>, set: Set<SemVer>) -> bool {
    is_ascending(list.reverse()) && list.to_set() == set
}

/// Whether the versions are those of the set, in the order of the strategy:
/// newest first or oldest first.
pub open spec fn is_in_order(strategy: VersionStrategy, list: Seq<SemVer>, set: Set<SemVer>) -> bool {
    list.to_set() == set && match strategy {
        VersionStrategy::Newest => is_ascending(list.reverse()),
        VersionStrategy::Oldest => is_ascending(list),
    }
}

/// Determinism of the order: a set of versions and a strategy leave one
/// order only.
pub proof fn lemma_order_is_determined(
    strategy: VersionStrategy,
    first: Seq<SemVer>,
    second: Seq<SemVer>,
    set: Set<SemVer>,
)
    requires
        is_in_order(strategy, first, set),
        is_in_order(strategy, second, set),
    ensures
        first == second,
{
    match strategy {
        VersionStrategy::Oldest => {
            crate::versions::lemma_ascending_unique(first, second);
        },
        VersionStrategy::Newest => {
            lemma_reverse_set(first);
            lemma_reverse_set(second);
            crate::versions::lemma_ascending_unique(first.reverse(), second.reverse());
        },
    }
}

/// The folder that holds the installed versions of a package:
/// `<elm_home>/<elm_version>/packages/<author>/<pkg>`.
pub open spec fn installed_dir(
    elm_home: Seq<char>,
    elm_version: Seq<char>,
    id: (Seq<char>, Seq<char>),
) -> Seq<char> {
    elm_home + "/"@ + elm_version + "/packages"@ + "/"@ + id.0 + "/"@ + id.1
}

/// Whether `set` holds the versions that the folder `dir` lists: the
/// versions that the names of its subfolders denote, as `list_dir` gave
/// them.
pub open spec fn is_listing_of<L: Fn(&str) -> Vec<String>>(
    list_dir: L,
    dir: Seq<char>,
    set: Set<SemVer>,
) -> bool {
    exists|d: &str, dir_names: Vec<String>|
        d@ == dir && #[trigger] call_ensures(list_dir, (d,), dir_names) && set == versions_named(
            texts(dir_names@),
        )
}

/// The versions in the opposite order hold the same versions.
proof fn lemma_reverse_set(list: Seq<SemVer>)
    ensures
        list.reverse().to_set() == list.to_set(),
        list.reverse().reverse() == list,
{
    let r = list.reverse();
    assert forall|v: SemVer| r.to_set().contains(v) <==> list.to_set().contains(v) by {
        if r.to_set().contains(v) {
            let k = choose|k: int| 0 <= k < r.len() && r[k] == v;
            assert(list[list.len() - 1 - k] == v);
        }
        if list.to_set().contains(v) {
            let k = choose|k: int| 0 <= k < list.len() && list[k] == v;
            assert(r[list.len() - 1 - k] == v);
        }
    }
    assert(r.to_set() =~= list.to_set());
    assert(r.reverse() =~= list);
}

/// Dependency solver for offline use: it knows only the packages installed
/// in `ELM_HOME`, and looks up the installed versions of a package once.
#[derive(Debug, Clone)]
pub struct Offline {
    /// The folder `ELM_HOME`.
    pub elm_home: String,
    /// The version of elm whose packages are used.
    pub elm_version: String,
    /// The installed versions of the packages looked up so far.
    pub versions_cache: Cache,
}

impl Offline {
    /// Whether the record of installed versions is well formed.
    pub open spec fn wf(&self) -> bool {
        self.versions_cache.wf()
    }

    /// Whether `other` is this solver having looked up more packages: same
    /// folders, nothing forgotten, nothing changed.
    pub open spec fn extended_by(&self, other: &Offline) -> bool {
        &&& other.elm_home@ == self.elm_home@
        &&& other.elm_version@ == self.elm_version@
        &&& forall|p: (Seq<char>, Seq<char>)|
            #[trigger] self.versions_cache@.dom().contains(p)
                ==> other.versions_cache@.dom().contains(p) && other.versions_cache@[p]
                == self.versions_cache@[p]
    }

    /// Whether every package that `other` knows and this solver does not
    /// was looked up with `list_dir` in its folder.
    pub open spec fn looked_up_with<L: Fn(&str) -> Vec<String>>(
        &self,
        other: &Offline,
        list_dir: L,
    ) -> bool {
        forall|p: (Seq<char>, Seq<char>)|
            #[trigger] other.versions_cache@.dom().contains(p)
                && !self.versions_cache@.dom().contains(p) ==> is_listing_of(
                list_dir,
                installed_dir(self.elm_home@, self.elm_version@, p),
                other.versions_cache@[p],
            )
    }

    /// Constructor for the offline solver, from the folder `ELM_HOME` and
    /// the version of elm.
    pub fn new(elm_home: &str, elm_version: &str) -> (r: Offline)
        ensures
            r.wf(),
            r.elm_home@ == elm_home@,
            r.elm_version@ == elm_version@,
            r.versions_cache@ == Map::<(Seq<char>, Seq<char>), Set<SemVer>>::empty(),
    {
        Offline {
            elm_home: String::from_str(elm_home),
            elm_version: String::from_str(elm_version),
            versions_cache: Cache::new(),
        }
    }

    /// The installed versions of a package, newest first. A package seen
    /// for the first time has its folder listed with `list_dir`, which
    /// gives the names of the subfolders, once: the versions that the
    /// names denote are recorded.
    pub fn load_installed_versions_of<L: Fn(&str) -> Vec<String>>(
        &mut self,
        pkg: &Pkg,
        list_dir: &L,
    ) -> (r: Vec<SemVer>)
        requires
            old(self).wf(),
            forall|d: &str| call_requires(*list_dir, (d,)),
        ensures
            final(self).wf(),
            final(self).elm_home@ == old(self).elm_home@,
            final(self).elm_version@ == old(self).elm_version@,
            old(self).versions_cache@.dom().contains(pkg@) ==> final(self).versions_cache@ == old(self).versions_cache@,
            !old(self).versions_cache@.dom().contains(pkg@) ==> final(self).versions_cache@.dom()
                == old(self).versions_cache@.dom().insert(pkg@) && final(self).versions_cache@
                == old(self).versions_cache@.insert(pkg@, final(self).versions_cache@[pkg@])
                && is_listing_of(
                *list_dir,
                installed_dir(old(self).elm_home@, old(self).elm_version@, pkg@),
                final(self).versions_cache@[pkg@],
            ),
            final(self).versions_cache@.dom().contains(pkg@),
            is_newest_first(r@, final(self).versions_cache@[pkg@]),
    {
        match self.versions_cache.get(pkg) {
            Some(versions) => {
                let r = reversed(versions);
                proof {
                    lemma_reverse_set(versions@);
                }
                r
            },
            None => {
                let p_dir = pkg.config_path(self.elm_home.as_str(), self.elm_version.as_str());
                let dir_names = list_dir(p_dir.as_str());
                let versions = Cache::list_installed_versions(&dir_names);
                let sorted_versions = reversed(&versions);
                proof {
                    lemma_reverse_set(versions@);
                }
                let ghost before = self.versions_cache@;
                self.versions_cache.store(pkg.clone(), versions);
                proof {
                    assert(self.versions_cache@.dom() =~= before.dom().insert(pkg@));
                    assert(self.versions_cache@[pkg@] == versions_named(texts(dir_names@)));
                }
                sorted_versions
            },
        }
    }

    /// The place of the configuration of an installed package version:
    /// `<elm_home>/<elm_version>/packages/<author>/<pkg>/<version>/manifest`.
    pub fn config_path(&self, pkg: &Pkg, version: SemVer) -> (r: String)
        ensures
            r@ == installed_dir(self.elm_home@, self.elm_version@, pkg@) + "/"@
                + crate::version::semver_text(version) + "/"@ + crate::pkg_version::MANIFEST_FILE@,
    {
        let pkg_version = PkgVersion { author_pkg: pkg.clone(), version };
        pkg_version.config_path(self.elm_home.as_str(), self.elm_version.as_str())
    }

    /// The dependencies of an installed package version: those of its
    /// configuration, which `read_config` reads from the file of the
    /// installed package version. Where that fails, the failure is handed
    /// on.
    pub fn get_dependencies<Rd: Fn(&str) -> Result<PackageConfig, PkgVersionError>>(
        &self,
        package: &Pkg,
        version: SemVer,
        read_config: &Rd,
    ) -> (r: Result<Dependencies, PkgVersionError>)
        requires
            forall|p: &str| call_requires(*read_config, (p,)),
        ensures
            exists|answer: Result<PackageConfig, PkgVersionError>|
                #[trigger] is_read(
                    *read_config,
                    installed_dir(self.elm_home@, self.elm_version@, package@) + "/"@
                        + crate::version::semver_text(version) + "/"@ + MANIFEST_FILE@,
                    answer,
                ) && is_found(answer, r),
    {
        let path = self.config_path(package, version);
        let answer = read_config(path.as_str());
        assert(is_read(*read_config, path@, answer));
        found(answer)
    }

    /// Run the dependency solver on a project with the installed packages
    /// only. The project is made the root of the resolution, with its
    /// declared dependencies (those of the tests too with `use_test`) and
    /// the additional constraints. `resolve` runs the resolution with the
    /// adapter of the project in front of this solver, and hands the
    /// solver back with what it has looked up. The root is removed from
    /// the solution, and the rest split into direct and indirect
    /// dependencies.
    pub fn solve_deps<R>(
        self,
        project_elm_json: &ProjectConfig,
        use_test: bool,
        additional_constraints: &Vec<(Pkg, Constraint)>,
        resolve: R,
    ) -> (r: (Result<AppDependencies, SolveError>, Offline)) where
        R: FnOnce(&ProjectAdapter, Offline) -> (Result<Vec<(Pkg, SemVer)>, SolveError>, Offline),

        requires
            project_elm_json.wf(),
            dependencies_wf(additional_constraints@),
            !is_reserved(root_id(*project_elm_json)),
            forall|adapter: &ProjectAdapter|
                is_adapter_of(*adapter, *project_elm_json, use_test, additional_constraints@)
                    ==> call_requires(resolve, (adapter, self)),
        ensures
            is_solved_with(
                resolve,
                self,
                *project_elm_json,
                use_test,
                additional_constraints@,
                r,
            ),
    {
        solve_deps_through(self, project_elm_json, use_test, additional_constraints, resolve)
    }

    /// Looks up the installed versions of every candidate that was not
    /// looked up before, and gives those of each candidate, newest first.
    pub fn installed_versions_of_all<L: Fn(&str) -> Vec<String>>(
        &mut self,
        potential_packages: &Vec<(Pkg, Constraint)>,
        list_dir: &L,
    ) -> (available: Vec<Vec<SemVer>>)
        requires
            old(self).wf(),
            forall|d: &str| call_requires(*list_dir, (d,)),
        ensures
            final(self).wf(),
            old(self).extended_by(final(self)),
            old(self).looked_up_with(final(self), *list_dir),
            available@.len() == potential_packages@.len(),
            forall|i: int|
                0 <= i < potential_packages@.len() ==> final(self).versions_cache@.dom().contains(
                    (#[trigger] potential_packages@[i]).0@,
                ) && is_newest_first(
                    available@[i]@,
                    final(self).versions_cache@[potential_packages@[i].0@],
                ),
    {
        let mut available: Vec<Vec<SemVer>> = Vec::new();
        let mut i: usize = 0;
        while i < potential_packages.len()
            invariant
                i <= potential_packages@.len(),
                forall|d: &str| call_requires(*list_dir, (d,)),
                self.wf(),
                old(self).extended_by(self),
                old(self).looked_up_with(self, *list_dir),
                available@.len() == i,
                forall|k: int|
                    0 <= k < i ==> self.versions_cache@.dom().contains(
                        (#[trigger] potential_packages@[k]).0@,
                    ) && is_newest_first(
                        available@[k]@,
                        self.versions_cache@[potential_packages@[k].0@],
                    ),
            decreases potential_packages.len() - i,
        {
            let ghost before = *self;
            let ghost listed = available@;
            let versions = self.load_installed_versions_of(&potential_packages[i].0, list_dir);
            available.push(versions);
            proof {
                let p = potential_packages@[i as int].0@;
                assert(before.extended_by(self));
                assert forall|q: (Seq<char>, Seq<char>)|
                    old(self).versions_cache@.dom().contains(
                        q,
                    ) implies self.versions_cache@.dom().contains(q) && self.versions_cache@[q]
                    == old(self).versions_cache@[q] by {
                    assert(before.versions_cache@.dom().contains(q));
                    assert(before.versions_cache@[q] == old(self).versions_cache@[q]);
                }
                assert forall|q: (Seq<char>, Seq<char>)|
                    self.versions_cache@.dom().contains(q) && !old(self).versions_cache@.dom().contains(q) implies is_listing_of(
                    *list_dir,
                    installed_dir(old(self).elm_home@, old(self).elm_version@, q),
                    self.versions_cache@[q],
                ) by {
                    if before.versions_cache@.dom().contains(q) {
                        assert(self.versions_cache@[q] == before.versions_cache@[q]);
                    } else {
                        assert(q == p);
                    }
                }
                assert forall|k: int| 0 <= k < i + 1 implies self.versions_cache@.dom().contains(
                    (#[trigger] potential_packages@[k]).0@,
                ) && is_newest_first(
                    available@[k]@,
                    self.versions_cache@[potential_packages@[k].0@],
                ) by {
                    if k < i {
                        assert(available@[k] == listed[k]);
                        assert(before.versions_cache@.dom().contains(potential_packages@[k].0@));
                    }
                }
            }
            i += 1;
        }
        available
    }

    /// Chooses among the candidates, of which there is at least one: the
    /// package with the fewest installed versions within its range, the
    /// first of them where several have as few, and of that package the
    /// newest installed version within the range, if there is one.
    pub fn choose_package_version<L: Fn(&str) -> Vec<String>>(
        &mut self,
        potential_packages: &Vec<(Pkg, Constraint)>,
        list_dir: &L,
    ) -> (r: (usize, Option<SemVer>))
        requires
            old(self).wf(),
            potential_packages@.len() > 0,
            dependencies_wf(potential_packages@),
            forall|d: &str| call_requires(*list_dir, (d,)),
        ensures
            final(self).wf(),
            old(self).extended_by(final(self)),
            old(self).looked_up_with(final(self), *list_dir),
            exists|available: Seq<Vec<SemVer>>|
                available.len() == potential_packages@.len() && (forall|i: int|
                    0 <= i < potential_packages@.len() ==> final(self).versions_cache@.dom().contains((#[trigger] potential_packages@[i]).0@)
                        && is_newest_first(
                        available[i]@,
                        final(self).versions_cache@[potential_packages@[i].0@],
                    )) && #[trigger] has_fewest_versions(
                    potential_packages@,
                    available,
                    r.0 as int,
                ) && is_first_admitted(
                    available[r.0 as int]@,
                    potential_packages@[r.0 as int].1@,
                    r.1,
                ),
    {
        let available = self.installed_versions_of_all(potential_packages, list_dir);
        choose_package_with_fewest_versions(potential_packages, &available)
    }
}

/// The versions known of a package; none of a package that is not known.
pub open spec fn known_versions(
    known: Map<(Seq<char>, Seq<char>), Set<SemVer>>,
    p: (Seq<char>, Seq<char>),
) -> Set<SemVer> {
    if known.dom().contains(p) {
        known[p]
    } else {
        Set::empty()
    }
}

/// Online variant of the dependency solver: it knows the packages
/// installed and those that the package server lists.
pub struct Online<F: Fn(&str) -> Result<String, String>> {
    /// The solver for the installed packages.
    pub offline: Offline,
    /// The versions that the package server lists.
    pub online_cache: Cache,
    /// The address of the package server.
    pub remote: String,
    /// Makes a request to the package server.
    pub http_fetch: F,
    /// Whether the newest or the oldest versions are preferred.
    pub strategy: VersionStrategy,
}

impl<F: Fn(&str) -> Result<String, String>> Online<F> {
    /// Whether both records of versions are well formed.
    pub open spec fn wf(&self) -> bool {
        self.offline.wf() && self.online_cache.wf()
    }

    /// The versions of a package that the solver may choose from: those
    /// looked up as installed and those that the server lists.
    pub open spec fn available(&self, p: (Seq<char>, Seq<char>)) -> Set<SemVer> {
        known_versions(self.offline.versions_cache@, p).union(
            known_versions(self.online_cache@, p),
        )
    }

    /// Constructor for the online solver. The versions that the package
    /// server listed last, `stored_cache`, are brought up to date with one
    /// or two requests to the server at `remote`, made with `http_fetch`.
    pub fn new(
        offline: Offline,
        remote: &str,
        http_fetch: F,
        strategy: VersionStrategy,
        stored_cache: Cache,
    ) -> (r: Result<Self, CacheError>)
        requires
            offline.wf(),
            stored_cache.wf(),
            forall|u: &str| call_requires(http_fetch, (u,)),
        ensures
            match r {
                Ok(online) => online.wf() && online.offline == offline && online.remote@ == remote@
                    && online.http_fetch == http_fetch && online.strategy == strategy && is_update(
                    http_fetch,
                    remote@,
                    stored_cache@,
                    stored_cache.total(),
                    online.online_cache@,
                    Ok(()),
                ),
                Err(e) => exists|after: Map<(Seq<char>, Seq<char>), Set<SemVer>>|
                    #[trigger] is_update(
                        http_fetch,
                        remote@,
                        stored_cache@,
                        stored_cache.total(),
                        after,
                        Err(e),
                    ),
            },
    {
        let mut online_cache = stored_cache;
        match online_cache.update(remote, &http_fetch) {
            Ok(_) => Ok(
                Online {
                    offline,
                    online_cache,
                    remote: String::from_str(remote),
                    http_fetch,
                    strategy,
                },
            ),
            Err(e) => Err(e),
        }
    }

    /// The cache of existing versions in the form in which it is stored:
    /// each package identifier in its text form with the text forms of its
    /// versions.
    pub fn save_cache(&self) -> (r: Vec<(String, Vec<String>)>)
        ensures
            r@.len() == self.online_cache.cache@.len(),
            forall|i: int|
                0 <= i < r@.len() ==> (#[trigger] r@[i]).0@ == crate::project_config::pkg_text(
                    self.online_cache.cache@[i].0@,
                ) && r@[i].1@.len() == self.online_cache.cache@[i].1@.len() && forall|j: int|
                    0 <= j < r@[i].1@.len() ==> (#[trigger] r@[i].1@[j])@
                        == crate::version::semver_text(self.online_cache.cache@[i].1@[j]),
    {
        self.online_cache.save()
    }

    /// Combine the versions looked up as installed with those listed on the
    /// package server, in the order of the strategy.
    pub fn list_available_versions(&self, pkg: &Pkg) -> (r: Vec<SemVer>)
        requires
            self.wf(),
        ensures
            is_in_order(self.strategy, r@, self.available(pkg@)),
    {
        let empty_tree: Vec<SemVer> = Vec::new();
        let local_versions = match self.offline.versions_cache.get(pkg) {
            Some(versions) => versions,
            None => &empty_tree,
        };
        let online_versions = match self.online_cache.get(pkg) {
            Some(versions) => versions,
            None => &empty_tree,
        };
        proof {
            assert(empty_tree@.to_set() =~= Set::<SemVer>::empty());
        }
        let all_versions = merge_versions(local_versions, online_versions);
        match self.strategy {
            VersionStrategy::Oldest => all_versions,
            VersionStrategy::Newest => {
                let r = reversed(&all_versions);
                proof {
                    lemma_reverse_set(all_versions@);
                }
                r
            },
        }
    }

    /// Whether `r` is what looking for the configuration of a package
    /// version gives: in the installed package, then in the files of the
    /// dependency solver, then on the package server.
    pub open spec fn is_looked_up<Rd, W, D>(
        &self,
        read_config: Rd,
        write_config: W,
        decode_config: D,
        package: (Seq<char>, Seq<char>),
        version: SemVer,
        r: Result<PackageConfig, PkgVersionError>,
    ) -> bool where
        Rd: Fn(&str) -> Result<PackageConfig, PkgVersionError>,
        W: Fn(&str, &str, &str) -> Result<(), String>,
        D: Fn(&str) -> Result<PackageConfig, PkgVersionError>,
     {
        is_config_found(
            self.http_fetch,
            read_config,
            write_config,
            decode_config,
            self.offline.elm_home@,
            self.offline.elm_version@,
            self.remote@,
            (package, version),
            r,
        )
    }

    /// Try successively to load the configuration of a package version
    /// from the installed package, from the files of the dependency
    /// solver, and from the package server. What the server answers is
    /// handed to `write_config` to be kept, and decoded with
    /// `decode_config` whether it could be kept or not.
    pub fn fetch_elm_json<Rd, W, D>(
        &self,
        pkg: &Pkg,
        version: SemVer,
        read_config: &Rd,
        write_config: &W,
        decode_config: &D,
    ) -> (r: Result<PackageConfig, PkgVersionError>) where
        Rd: Fn(&str) -> Result<PackageConfig, PkgVersionError>,
        W: Fn(&str, &str, &str) -> Result<(), String>,
        D: Fn(&str) -> Result<PackageConfig, PkgVersionError>,

        requires
            forall|p: &str| call_requires(*read_config, (p,)),
            forall|d: &str, f: &str, t: &str| call_requires(*write_config, (d, f, t)),
            forall|t: &str| call_requires(*decode_config, (t,)),
            forall|u: &str| call_requires(self.http_fetch, (u,)),
        ensures
            self.is_looked_up(*read_config, *write_config, *decode_config, pkg@, version, r),
    {
        let pkg_version = PkgVersion { author_pkg: pkg.clone(), version };
        pkg_version.find_config(
            self.offline.elm_home.as_str(),
            self.offline.elm_version.as_str(),
            self.remote.as_str(),
            &self.http_fetch,
            read_config,
            write_config,
            decode_config,
        )
    }

    /// The dependencies of a package version: those of its configuration,
    /// looked for as `fetch_elm_json` does.
    pub fn get_dependencies<Rd, W, D>(
        &self,
        package: &Pkg,
        version: SemVer,
        read_config: &Rd,
        write_config: &W,
        decode_config: &D,
    ) -> (r: Result<Dependencies, PkgVersionError>) where
        Rd: Fn(&str) -> Result<PackageConfig, PkgVersionError>,
        W: Fn(&str, &str, &str) -> Result<(), String>,
        D: Fn(&str) -> Result<PackageConfig, PkgVersionError>,

        requires
            forall|p: &str| call_requires(*read_config, (p,)),
            forall|d: &str, f: &str, t: &str| call_requires(*write_config, (d, f, t)),
            forall|t: &str| call_requires(*decode_config, (t,)),
            forall|u: &str| call_requires(self.http_fetch, (u,)),
        ensures
            exists|config: Result<PackageConfig, PkgVersionError>|
                #[trigger] self.is_looked_up(
                    *read_config,
                    *write_config,
                    *decode_config,
                    package@,
                    version,
                    config,
                ) && is_found(config, r),
    {
        found(
            self.fetch_elm_json(package, version, read_config, write_config, decode_config),
        )
    }

    /// Run the dependency solver on a project with the installed packages
    /// and those of the package server. `resolve` runs the resolution with
    /// the adapter of the project in front of this solver, and hands the
    /// solver back. See [`Offline::solve_deps`].
    pub fn solve_deps<R>(
        self,
        project_elm_json: &ProjectConfig,
        use_test: bool,
        additional_constraints: &Vec<(Pkg, Constraint)>,
        resolve: R,
    ) -> (r: (Result<AppDependencies, SolveError>, Online<F>)) where
        R: FnOnce(&ProjectAdapter, Online<F>) -> (
            Result<Vec<(Pkg, SemVer)>, SolveError>,
            Online<F>,
        ),

        requires
            project_elm_json.wf(),
            dependencies_wf(additional_constraints@),
            !is_reserved(root_id(*project_elm_json)),
            forall|adapter: &ProjectAdapter|
                is_adapter_of(*adapter, *project_elm_json, use_test, additional_constraints@)
                    ==> call_requires(resolve, (adapter, self)),
        ensures
            is_solved_with(
                resolve,
                self,
                *project_elm_json,
                use_test,
                additional_constraints@,
                r,
            ),
    {
        solve_deps_through(self, project_elm_json, use_test, additional_constraints, resolve)
    }

    /// Chooses among the candidates, of which there is at least one. The
    /// installed versions of every candidate are looked up first. Chosen is
    /// the package with the fewest available versions within its range,
    /// the first of them where several have as few, and of that package
    /// the first available version within the range, in the order of the
    /// strategy, if there is one.
    pub fn choose_package_version<L: Fn(&str) -> Vec<String>>(
        &mut self,
        potential_packages: &Vec<(Pkg, Constraint)>,
        list_dir: &L,
    ) -> (r: (usize, Option<SemVer>))
        requires
            old(self).wf(),
            potential_packages@.len() > 0,
            dependencies_wf(potential_packages@),
            forall|d: &str| call_requires(*list_dir, (d,)),
        ensures
            final(self).wf(),
            old(self).offline.extended_by(&final(self).offline),
            old(self).offline.looked_up_with(&final(self).offline, *list_dir),
            final(self).online_cache == old(self).online_cache,
            final(self).remote == old(self).remote,
            final(self).strategy == old(self).strategy,
            final(self).http_fetch == old(self).http_fetch,
            forall|i: int|
                0 <= i < potential_packages@.len() ==> final(self).offline.versions_cache@.dom().contains((#[trigger] potential_packages@[i]).0@),
            exists|available: Seq<Vec<SemVer>>|
                available.len() == potential_packages@.len() && (forall|i: int|
                    0 <= i < potential_packages@.len() ==> is_in_order(
                        final(self).strategy,
                        (#[trigger] available[i])@,
                        final(self).available(potential_packages@[i].0@),
                    )) && #[trigger] has_fewest_versions(
                    potential_packages@,
                    available,
                    r.0 as int,
                ) && is_first_admitted(
                    available[r.0 as int]@,
                    potential_packages@[r.0 as int].1@,
                    r.1,
                ),
    {
        let _ = self.offline.installed_versions_of_all(potential_packages, list_dir);
        let mut available: Vec<Vec<SemVer>> = Vec::new();
        let mut i: usize = 0;
        while i < potential_packages.len()
            invariant
                i <= potential_packages@.len(),
                self.wf(),
                available@.len() == i,
                forall|k: int|
                    0 <= k < i ==> is_in_order(
                        self.strategy,
                        (#[trigger] available@[k])@,
                        self.available(potential_packages@[k].0@),
                    ),
            decreases potential_packages.len() - i,
        {
            let ghost listed = available@;
            let versions = self.list_available_versions(&potential_packages[i].0);
            available.push(versions);
            proof {
                assert forall|k: int| 0 <= k < i + 1 implies is_in_order(
                    self.strategy,
                    (#[trigger] available@[k])@,
                    self.available(potential_packages@[k].0@),
                ) by {
                    if k < i {
                        assert(available@[k] == listed[k]);
                    }
                }
            }
            i += 1;
        }
        choose_package_with_fewest_versions(potential_packages, &available)
    }
}

/// Whether `r` is what solving the project with a solver gives. Where the
/// project depends on itself, or on a package of which its constraints
/// admit no version, that is the error, and the solver is handed back as
/// it was. Else `resolve` is handed the adapter of the project and the
/// solver, and gives the outcome of the resolution and the solver back.
pub open spec fn is_solved_with<S, R>(
    resolve: R,
    solver: S,
    project: ProjectConfig,
    use_test: bool,
    additional_constraints: Seq<(Pkg, Constraint)>,
    r: (Result<AppDependencies, SolveError>, S),
) -> bool where R: FnOnce(&ProjectAdapter, S) -> (Result<Vec<(Pkg, SemVer)>, SolveError>, S) {
    if has_own_error(project, use_test, additional_constraints) {
        r.1 == solver && match r.0 {
            Ok(_) => false,
            Err(e) => is_own_error(project, use_test, additional_constraints, e),
        }
    } else {
        exists|adapter: &ProjectAdapter, outcome: (Result<Vec<(Pkg, SemVer)>, SolveError>, S)|
            is_adapter_of(*adapter, project, use_test, additional_constraints)
                && #[trigger] call_ensures(resolve, (adapter, solver), outcome) && r.1
                == outcome.1 && is_made_of(
                r.0,
                outcome.0,
                project,
                use_test,
                additional_constraints,
            )
    }
}

/// Solves the dependencies of a project with a solver that `resolve` is
/// handed together with the adapter of the project.
fn solve_deps_through<S, R>(
    solver: S,
    project_elm_json: &ProjectConfig,
    use_test: bool,
    additional_constraints: &Vec<(Pkg, Constraint)>,
    resolve: R,
) -> (r: (Result<AppDependencies, SolveError>, S)) where
    R: FnOnce(&ProjectAdapter, S) -> (Result<Vec<(Pkg, SemVer)>, SolveError>, S),

    requires
        project_elm_json.wf(),
        dependencies_wf(additional_constraints@),
        !is_reserved(root_id(*project_elm_json)),
        forall|adapter: &ProjectAdapter|
            is_adapter_of(*adapter, *project_elm_json, use_test, additional_constraints@)
                ==> call_requires(resolve, (adapter, solver)),
    ensures
        is_solved_with(
            resolve,
            solver,
            *project_elm_json,
            use_test,
            additional_constraints@,
            r,
        ),
{
    let direct_deps = direct_dependencies(project_elm_json, use_test, additional_constraints);
    let (root_pkg, root_version) = root_package(project_elm_json);
    match own_error(&root_pkg, root_version, &direct_deps) {
        Some(e) => {
            return (Err(e), solver);
        },
        None => {},
    }
    let project_deps_provider = ProjectAdapter::new(root_pkg.clone(), root_version, &direct_deps);
    assert(is_adapter_of(
        project_deps_provider,
        *project_elm_json,
        use_test,
        additional_constraints@,
    ));
    let (outcome, solver) = resolve(&project_deps_provider, solver);
    match outcome {
        Ok(solution) => (Ok(split_solution(&solution, &root_pkg, &direct_deps)), solver),
        Err(e) => (Err(e), solver),
    }
}

/// Whether `r` holds the dependencies of the configuration found, or the
/// error of not finding it.
pub open spec fn is_found(
    answer: Result<PackageConfig, PkgVersionError>,
    r: Result<Dependencies, PkgVersionError>,
) -> bool {
    match answer {
        Ok(config) => match r {
            Ok(Dependencies::Known(deps)) => deps == config.dependencies,
            _ => false,
        },
        Err(e) => match r {
            Err(e2) => e2 == e,
            Ok(_) => false,
        },
    }
}

/// The dependencies of a configuration that was found, or the error of
/// not finding it.
fn found(answer: Result<PackageConfig, PkgVersionError>) -> (r: Result<
    Dependencies,
    PkgVersionError,
>)
    ensures
        is_found(answer, r),
{
    match answer {
        Ok(config) => Ok(Dependencies::Known(config.dependencies)),
        Err(e) => Err(e),
    }
}

/// The direct dependencies of a solution: what the solution says of the
/// packages in `direct` other than the root.
pub open spec fn direct_part(
    solution: Map<(Seq<char>, Seq<char>), SemVer>,
    root: (Seq<char>, Seq<char>),
    direct: Set<(Seq<char>, Seq<char>)>,
) -> Map<(Seq<char>, Seq<char>), SemVer> {
    Map::new(
        |p: (Seq<char>, Seq<char>)| solution.dom().contains(p) && p != root && direct.contains(p),
        |p: (Seq<char>, Seq<char>)| solution[p],
    )
}

/// The indirect dependencies of a solution: what the solution says of the
/// packages outside `direct` other than the root.
pub open spec fn indirect_part(
    solution: Map<(Seq<char>, Seq<char>), SemVer>,
    root: (Seq<char>, Seq<char>),
    direct: Set<(Seq<char>, Seq<char>)>,
) -> Map<(Seq<char>, Seq<char>), SemVer> {
    Map::new(
        |p: (Seq<char>, Seq<char>)|
            solution.dom().contains(p) && p != root && !direct.contains(p),
        |p: (Seq<char>, Seq<char>)| solution[p],
    )
}

/// Removes the root from a solution and splits the rest into the direct
/// dependencies, which are the packages that `direct_deps` names, and the
/// indirect ones. Both stand in the order of the packages.
pub fn split_solution(
    solution: &Vec<(Pkg, SemVer)>,
    root_pkg: &Pkg,
    direct_deps: &Vec<(Pkg, Constraint)>,
) -> (r: AppDependencies)
    ensures
        pins_sorted(r.direct@),
        pins_sorted(r.indirect@),
        pins_model(r.direct@) == direct_part(
            pins_model(solution@),
            root_pkg@,
            dependencies_model(direct_deps@).dom(),
        ),
        pins_model(r.indirect@) == indirect_part(
            pins_model(solution@),
            root_pkg@,
            dependencies_model(direct_deps@).dom(),
        ),
{
    let ghost names = dependencies_model(direct_deps@).dom();
    let mut direct: Vec<(Pkg, SemVer)> = Vec::new();
    let mut indirect: Vec<(Pkg, SemVer)> = Vec::new();
    let mut i: usize = 0;
    proof {
        assert(solution@.take(0) =~= Seq::empty());
        assert(pins_model(direct@) =~= direct_part(
            pins_model(solution@.take(0)),
            root_pkg@,
            names,
        ));
        assert(pins_model(indirect@) =~= indirect_part(
            pins_model(solution@.take(0)),
            root_pkg@,
            names,
        ));
    }
    while i < solution.len()
        invariant
            i <= solution@.len(),
            names == dependencies_model(direct_deps@).dom(),
            pins_sorted(direct@),
            pins_sorted(indirect@),
            pins_model(direct@) == direct_part(
                pins_model(solution@.take(i as int)),
                root_pkg@,
                names,
            ),
            pins_model(indirect@) == indirect_part(
                pins_model(solution@.take(i as int)),
                root_pkg@,
                names,
            ),
        decreases solution.len() - i,
    {
        let pkg = &solution[i].0;
        let ghost so_far = pins_model(solution@.take(i as int));
        let ghost more = pins_model(solution@.take(i as int + 1));
        proof {
            let t = solution@.take(i as int + 1);
            assert(t.drop_last() =~= solution@.take(i as int));
            assert(t.last() == solution@[i as int]);
            assert(more == so_far.insert(pkg@, solution@[i as int].1));
        }
        if !pkg.same(root_pkg) {
            if find_dependency(direct_deps, pkg).is_some() {
                set_pin(&mut direct, pkg.clone(), solution[i].1);
            } else {
                set_pin(&mut indirect, pkg.clone(), solution[i].1);
            }
        }
        proof {
            assert(pins_model(direct@) =~= direct_part(more, root_pkg@, names));
            assert(pins_model(indirect@) =~= indirect_part(more, root_pkg@, names));
        }
        i += 1;
    }
    assert(solution@.take(solution@.len() as int) =~= solution@);
    AppDependencies { direct, indirect }
}

/// Nothing of a solution is lost or changed: the direct and the indirect
/// part together say of every package other than the root what the
/// solution says, and nothing of the root. So what holds of the versions
/// of a solution holds of the versions of its two parts.
pub proof fn lemma_split_keeps_entries(
    solution: Map<(Seq<char>, Seq<char>), SemVer>,
    root: (Seq<char>, Seq<char>),
    direct: Set<(Seq<char>, Seq<char>)>,
)
    ensures
        direct_part(solution, root, direct).union_prefer_right(
            indirect_part(solution, root, direct),
        ) == solution.remove(root),
{
    assert(direct_part(solution, root, direct).union_prefer_right(
        indirect_part(solution, root, direct),
    ) =~= solution.remove(root));
}

/// Whether every dependency of every package is satisfied within the
/// packages: for each package that one of them depends on, in the version
/// it has, there is a version that the dependency admits.
/// `dependencies_of` gives what a package depends on in a version.
pub open spec fn is_closed(
    solution: Map<(Seq<char>, Seq<char>), SemVer>,
    dependencies_of: spec_fn((Seq<char>, Seq<char>), SemVer) -> Map<
        (Seq<char>, Seq<char>),
        Set<SemVer>,
    >,
) -> bool {
    forall|p: (Seq<char>, Seq<char>), q: (Seq<char>, Seq<char>)|
        #[trigger] solution.dom().contains(p) && #[trigger] dependencies_of(
            p,
            solution[p],
        ).dom().contains(q) ==> solution.dom().contains(q) && dependencies_of(
            p,
            solution[p],
        )[q].contains(solution[q])
}

/// Validity is kept by the split. Where every dependency of a solution is
/// satisfied within the solution, and no package of the solution other
/// than the root depends on the root, every dependency of the direct and
/// indirect parts is satisfied within the two parts together.
pub proof fn lemma_split_keeps_validity(
    solution: Map<(Seq<char>, Seq<char>), SemVer>,
    root: (Seq<char>, Seq<char>),
    direct: Set<(Seq<char>, Seq<char>)>,
    dependencies_of: spec_fn((Seq<char>, Seq<char>), SemVer) -> Map<
        (Seq<char>, Seq<char>),
        Set<SemVer>,
    >,
)
    requires
        is_closed(solution, dependencies_of),
        forall|p: (Seq<char>, Seq<char>)|
            #[trigger] solution.dom().contains(p) && p != root ==> !dependencies_of(
                p,
                solution[p],
            ).dom().contains(root),
    ensures
        is_closed(
            direct_part(solution, root, direct).union_prefer_right(
                indirect_part(solution, root, direct),
            ),
            dependencies_of,
        ),
{
    lemma_split_keeps_entries(solution, root, direct);
    let out = solution.remove(root);
    assert forall|p: (Seq<char>, Seq<char>), q: (Seq<char>, Seq<char>)|
        #[trigger] out.dom().contains(p) && #[trigger] dependencies_of(p, out[p]).dom().contains(
            q,
        ) implies out.dom().contains(q) && dependencies_of(p, out[p])[q].contains(out[q]) by {
        assert(solution.dom().contains(p));
        assert(out[p] == solution[p]);
        assert(dependencies_of(p, solution[p]).dom().contains(q));
        assert(q != root);
    }
}

/// The direct dependencies are met in the direct part. Where a solution
/// has, of every package that the root depends on, a version that the
/// dependency admits, and the root does not depend on itself, so has the
/// direct part.
pub proof fn lemma_direct_dependencies_are_met(
    solution: Map<(Seq<char>, Seq<char>), SemVer>,
    root: (Seq<char>, Seq<char>),
    deps: Map<(Seq<char>, Seq<char>), Set<SemVer>>,
)
    requires
        !deps.dom().contains(root),
        forall|q: (Seq<char>, Seq<char>)|
            #[trigger] deps.dom().contains(q) ==> solution.dom().contains(q) && deps[q].contains(
                solution[q],
            ),
    ensures
        forall|q: (Seq<char>, Seq<char>)|
            #[trigger] deps.dom().contains(q) ==> direct_part(
                solution,
                root,
                deps.dom(),
            ).dom().contains(q) && deps[q].contains(direct_part(solution, root, deps.dom())[q]),
{
}

/// A pin is kept. Where the root depends on a package in one version only,
/// and the solution has of that package a version that the dependency
/// admits, the direct part has the package in that one version.
pub proof fn lemma_pinned_version(
    solution: Map<(Seq<char>, Seq<char>), SemVer>,
    root: (Seq<char>, Seq<char>),
    deps: Map<(Seq<char>, Seq<char>), Set<SemVer>>,
    p: (Seq<char>, Seq<char>),
    v: SemVer,
)
    requires
        p != root,
        deps.dom().contains(p),
        deps[p] == set![v],
        solution.dom().contains(p),
        deps[p].contains(solution[p]),
    ensures
        direct_part(solution, root, deps.dom()).dom().contains(p),
        direct_part(solution, root, deps.dom())[p] == v,
{
}

/// The last pin of a package in a list admits the pinned version and no
/// other.
pub proof fn lemma_pin_admits_one(pins: Seq<(Pkg, SemVer)>, k: int)
    requires
        0 <= k < pins.len(),
        forall|j: int| k < j < pins.len() ==> (#[trigger] pins[j]).0@ != pins[k].0@,
    ensures
        pins_as_model(pins).dom().contains(pins[k].0@),
        pins_as_model(pins)[pins[k].0@] == set![pins[k].1],
    decreases pins.len(),
{
    if k < pins.len() - 1 {
        let front = pins.drop_last();
        assert(front[k] == pins[k]);
        assert forall|j: int| k < j < front.len() implies (#[trigger] front[j]).0@
            != front[k].0@ by {
            assert(front[j] == pins[j]);
        }
        lemma_pin_admits_one(front, k);
        assert(pins.last() == pins[pins.len() - 1]);
    }
}

/// Additional constraints leave alone what stands for the packages that
/// none of them names.
pub proof fn lemma_additional_constraints_leave(
    deps: Map<(Seq<char>, Seq<char>), Set<SemVer>>,
    additional_constraints: Seq<(Pkg, Constraint)>,
    p: (Seq<char>, Seq<char>),
)
    requires
        forall|i: int|
            0 <= i < additional_constraints.len() ==> (#[trigger] additional_constraints[i]).0@
                != p,
    ensures
        with_additional_constraints(deps, additional_constraints).dom().contains(p)
            == deps.dom().contains(p),
        deps.dom().contains(p) ==> with_additional_constraints(deps, additional_constraints)[p]
            == deps[p],
    decreases additional_constraints.len(),
{
    if additional_constraints.len() > 0 {
        let front = additional_constraints.drop_last();
        assert forall|i: int| 0 <= i < front.len() implies (#[trigger] front[i]).0@ != p by {
            assert(front[i] == additional_constraints[i]);
        }
        lemma_additional_constraints_leave(deps, front, p);
        assert(additional_constraints.last() == additional_constraints[additional_constraints.len()
            - 1]);
    }
}

/// Determinism of what is made of an outcome. Two results made of the same
/// outcome of a resolution of the same project are the same: the same
/// error, or the same packages with the same versions at the same places
/// of the direct and of the indirect dependencies.
pub proof fn lemma_result_is_determined(
    first: Result<AppDependencies, SolveError>,
    second: Result<AppDependencies, SolveError>,
    outcome: Result<Vec<(Pkg, SemVer)>, SolveError>,
    project: ProjectConfig,
    use_test: bool,
    additional_constraints: Seq<(Pkg, Constraint)>,
)
    requires
        is_made_of(first, outcome, project, use_test, additional_constraints),
        is_made_of(second, outcome, project, use_test, additional_constraints),
    ensures
        match (first, second) {
            (Ok(a), Ok(b)) => a.direct@.len() == b.direct@.len() && a.indirect@.len()
                == b.indirect@.len() && (forall|j: int|
                0 <= j < a.direct@.len() ==> (#[trigger] a.direct@[j]).0@ == b.direct@[j].0@
                    && a.direct@[j].1 == b.direct@[j].1) && (forall|j: int|
                0 <= j < a.indirect@.len() ==> (#[trigger] a.indirect@[j]).0@ == b.indirect@[j].0@
                    && a.indirect@[j].1 == b.indirect@[j].1),
            (Err(e1), Err(e2)) => e1 == e2,
            _ => false,
        },
{
    match (first, second) {
        (Ok(a), Ok(b)) => {
            crate::project_config::lemma_pins_determined(a.direct@, b.direct@);
            crate::project_config::lemma_pins_determined(a.indirect@, b.indirect@);
        },
        _ => {},
    }
}

/// Directness. No package is both a direct and an indirect dependency, and
/// the root is neither. In a solution that says something of every package
/// of `direct`, none of which is the root, the direct dependencies are the
/// packages of `direct`.
pub proof fn lemma_directness(
    solution: Map<(Seq<char>, Seq<char>), SemVer>,
    root: (Seq<char>, Seq<char>),
    direct: Set<(Seq<char>, Seq<char>)>,
)
    ensures
        direct_part(solution, root, direct).dom().disjoint(
            indirect_part(solution, root, direct).dom(),
        ),
        !direct_part(solution, root, direct).dom().contains(root),
        !indirect_part(solution, root, direct).dom().contains(root),
        (!direct.contains(root) && direct.subset_of(solution.dom())) ==> direct_part(
            solution,
            root,
            direct,
        ).dom() == direct,
{
    if !direct.contains(root) && direct.subset_of(solution.dom()) {
        assert(direct_part(solution, root, direct).dom() =~= direct);
    }
}

} // verus!
