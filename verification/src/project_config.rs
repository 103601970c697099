//! The project configuration of an `elm.json` file, and package identifiers.

use vstd::prelude::*;
use vstd::string::*;
use crate::constraint::Constraint;
use crate::text::{find, find_char, lemma_find, lemma_find_unique, slice_text};
use crate::version::SemVer;

verus! {

/// Project configuration corresponding to an `elm.json` file.
/// It either is an application or a package.
#[derive(Debug)]
pub enum ProjectConfig {
    /// Application variant of a project config.
    Application(ApplicationConfig),
    /// Package variant of a project config.
    Package(PackageConfig),
}

/// The `elm.json` of an application.
#[derive(Debug, Clone)]
pub struct ApplicationConfig {
    /// Source directories.
    pub source_directories: Vec<String>,
    /// Elm version.
    pub elm_version: SemVer,
    /// Dependencies of the application.
    pub dependencies: AppDependencies,
    /// Test dependencies of the application.
    pub test_dependencies: AppDependencies,
}

/// Dependencies of an elm application: each package with the one version
/// it is pinned to. A package listed twice counts with its last entry.
/// Those that solving gives stand in the order of the packages, each once.
#[derive(Debug, Clone, PartialEq, Eq)]
pub struct AppDependencies {
    /// Direct dependencies.
    pub direct: Vec<(Pkg, SemVer)>,
    /// Indirect dependencies.
    pub indirect: Vec<(Pkg, SemVer)>,
}

/// The `elm.json` of a package.
#[derive(Debug)]
pub struct PackageConfig {
    /// Package identifier (author + package name).
    pub name: Pkg,
    /// Summary explanation of the package.
    pub summary: String,
    /// License of the package.
    pub license: String,
    /// Version of the package.
    pub version: SemVer,
    /// Versions of elm that are compatible with this package.
    pub elm_version: Constraint,
    /// Exposed modules of the package.
    pub exposed_modules: ExposedModules,
    /// Dependencies of the package. A package listed twice counts with its
    /// last entry.
    pub dependencies: Vec<(Pkg, Constraint)>,
    /// Test dependencies of the package.
    pub test_dependencies: Vec<(Pkg, Constraint)>,
}

/// A package identifier, composed of the author name and the package name.
#[derive(Debug, Eq, PartialOrd, Ord, Hash)]
pub struct Pkg {
    /// Author of the package.
    pub author: String,
    /// Package name.
    pub pkg: String,
}

/// Error type for parsing errors of package identifiers.
#[derive(Debug, PartialEq, Eq)]
pub enum PkgParseError {
    /// No separator `/` between the author and the package name; holds the
    /// text that was being parsed.
    NoAuthorSeparator(String),
}

/// Exposed modules, potentially regrouped by categories.
#[derive(Debug)]
pub enum ExposedModules {
    /// All modules are exposed at the same hierarchy.
    NoCategory(Vec<String>),
    /// Exposed modules are grouped by categories, each with its name.
    WithCategories(Vec<(String, Vec<String>)>),
}

/// What a list of pinned packages says: each package with its version,
/// the last entry of a package counting.
pub open spec fn pins_model(pins: Seq<(Pkg, SemVer)>) -> Map<(Seq<char>, Seq<char>), SemVer>
    decreases pins.len(),
{
    if pins.len() == 0 {
        Map::empty()
    } else {
        pins_model(pins.drop_last()).insert(pins.last().0@, pins.last().1)
    }
}

/// Whether the pinned packages stand in the order of the packages, so that
/// none is named twice.
pub open spec fn pins_sorted(pins: Seq<(Pkg, SemVer)>) -> bool {
    forall|i: int, j: int|
        0 <= i < j < pins.len() ==> pkg_lt((#[trigger] pins[i]).0@, (#[trigger] pins[j]).0@)
}

/// A list of pinned packages says something of a package where one of its
/// entries names the package.
pub proof fn lemma_pins_named(pins: Seq<(Pkg, SemVer)>, p: (Seq<char>, Seq<char>))
    ensures
        pins_model(pins).dom().contains(p) <==> exists|i: int|
            0 <= i < pins.len() && (#[trigger] pins[i]).0@ == p,
    decreases pins.len(),
{
    if pins.len() > 0 {
        let front = pins.drop_last();
        lemma_pins_named(front, p);
        if pins.last().0@ == p {
            assert(pins[pins.len() - 1].0@ == p);
        } else {
            if pins_model(front).dom().contains(p) {
                let i = choose|i: int| 0 <= i < front.len() && (#[trigger] front[i]).0@ == p;
                assert(pins[i].0@ == p);
            }
            if exists|i: int| 0 <= i < pins.len() && (#[trigger] pins[i]).0@ == p {
                let i = choose|i: int| 0 <= i < pins.len() && (#[trigger] pins[i]).0@ == p;
                assert(front[i].0@ == p);
            }
        }
    }
}

/// In a list that stands in the order of the packages, what the list says
/// of the package of an entry is the version of that entry.
pub proof fn lemma_pins_at(pins: Seq<(Pkg, SemVer)>, k: int)
    requires
        pins_sorted(pins),
        0 <= k < pins.len(),
    ensures
        pins_model(pins).dom().contains(pins[k].0@),
        pins_model(pins)[pins[k].0@] == pins[k].1,
    decreases pins.len(),
{
    if k < pins.len() - 1 {
        let front = pins.drop_last();
        assert(front[k] == pins[k]);
        assert forall|i: int, j: int| 0 <= i < j < front.len() implies pkg_lt(
            (#[trigger] front[i]).0@,
            (#[trigger] front[j]).0@,
        ) by {
            assert(front[i] == pins[i] && front[j] == pins[j]);
        }
        lemma_pins_at(front, k);
        assert(pkg_lt(pins[k].0@, pins[pins.len() - 1].0@));
        lemma_pkg_order(pins[k].0@, pins[pins.len() - 1].0@, pins[k].0@);
    }
}

/// Putting an entry into a list, at any place, adds to what the list says
/// what the entry says, where the list did not name the package of the
/// entry.
proof fn lemma_pins_insert(pins: Seq<(Pkg, SemVer)>, k: int, entry: (Pkg, SemVer))
    requires
        0 <= k <= pins.len(),
        forall|i: int| 0 <= i < pins.len() ==> (#[trigger] pins[i]).0@ != entry.0@,
    ensures
        pins_model(pins.insert(k, entry)) == pins_model(pins).insert(entry.0@, entry.1),
    decreases pins.len(),
{
    let more = pins.insert(k, entry);
    if k == pins.len() {
        assert(more.drop_last() =~= pins);
        assert(more.last() == entry);
    } else {
        let front = pins.drop_last();
        assert(more.drop_last() =~= front.insert(k, entry));
        assert(more.last() == pins.last());
        assert forall|i: int| 0 <= i < front.len() implies (#[trigger] front[i]).0@
            != entry.0@ by {
            assert(front[i] == pins[i]);
        }
        lemma_pins_insert(front, k, entry);
        assert(pins[pins.len() - 1].0@ != entry.0@);
        assert(pins_model(more) =~= pins_model(pins).insert(entry.0@, entry.1));
    }
}

/// Putting another version in the place of an entry changes what the list
/// says of the package of the entry, and nothing else, where the list
/// stands in the order of the packages.
proof fn lemma_pins_update(pins: Seq<(Pkg, SemVer)>, k: int, entry: (Pkg, SemVer))
    requires
        0 <= k < pins.len(),
        pins_sorted(pins),
        entry.0@ == pins[k].0@,
    ensures
        pins_model(pins.update(k, entry)) == pins_model(pins).insert(entry.0@, entry.1),
    decreases pins.len(),
{
    let changed = pins.update(k, entry);
    let front = pins.drop_last();
    if k == pins.len() - 1 {
        assert(changed.drop_last() =~= front);
        assert(changed.last() == entry);
        assert(pins_model(changed) =~= pins_model(pins).insert(entry.0@, entry.1));
    } else {
        assert(changed.drop_last() =~= front.update(k, entry));
        assert(changed.last() == pins.last());
        assert(front[k] == pins[k]);
        assert forall|i: int, j: int| 0 <= i < j < front.len() implies pkg_lt(
            (#[trigger] front[i]).0@,
            (#[trigger] front[j]).0@,
        ) by {
            assert(front[i] == pins[i] && front[j] == pins[j]);
        }
        lemma_pins_update(front, k, entry);
        assert(pkg_lt(pins[k].0@, pins[pins.len() - 1].0@));
        lemma_pkg_order(pins[k].0@, pins[pins.len() - 1].0@, pins[k].0@);
        assert(pins_model(changed) =~= pins_model(pins).insert(entry.0@, entry.1));
    }
}

/// Pins a package to a version in a list that stands in the order of the
/// packages: the version takes the place of the one that the package was
/// pinned to, or the package is added at its place in the order.
pub fn set_pin(pins: &mut Vec<(Pkg, SemVer)>, pkg: Pkg, version: SemVer)
    requires
        pins_sorted(old(pins)@),
    ensures
        pins_sorted(final(pins)@),
        pins_model(final(pins)@) == pins_model(old(pins)@).insert(pkg@, version),
{
    let ghost before = pins@;
    let ghost id = pkg@;
    let mut k: usize = 0;
    while k < pins.len() && pins[k].0.lt(&pkg)
        invariant
            k <= pins@.len(),
            pins@ == before,
            forall|j: int| 0 <= j < k ==> pkg_lt((#[trigger] pins@[j]).0@, pkg@),
        decreases pins.len() - k,
    {
        k += 1;
    }
    if k < pins.len() && pins[k].0.same(&pkg) {
        proof {
            lemma_pins_update(before, k as int, (pkg, version));
        }
        pins.set(k, (pkg, version));
        proof {
            assert forall|i: int, j: int| 0 <= i < j < pins@.len() implies pkg_lt(
                (#[trigger] pins@[i]).0@,
                (#[trigger] pins@[j]).0@,
            ) by {
                assert(pins@[i].0@ == before[i].0@);
                assert(pins@[j].0@ == before[j].0@);
            }
        }
    } else {
        proof {
            assert forall|j: int| k <= j < before.len() implies pkg_lt(
                id,
                (#[trigger] before[j]).0@,
            ) by {
                lemma_pkg_order(before[k as int].0@, id, before[j].0@);
                lemma_pkg_order(id, before[k as int].0@, before[j].0@);
            }
            assert forall|i: int| 0 <= i < before.len() implies (#[trigger] before[i]).0@
                != id by {
                lemma_pkg_order(before[i].0@, id, id);
            }
            lemma_pins_insert(before, k as int, (pkg, version));
        }
        pins.insert(k, (pkg, version));
        proof {
            assert forall|i: int, j: int| 0 <= i < j < pins@.len() implies pkg_lt(
                (#[trigger] pins@[i]).0@,
                (#[trigger] pins@[j]).0@,
            ) by {
                let x = pins@[i].0@;
                let y = pins@[j].0@;
                if j < k {
                    assert(pins@[i] == before[i] && pins@[j] == before[j]);
                } else if j == k {
                    assert(pins@[i] == before[i]);
                } else if i < k {
                    assert(pins@[i] == before[i] && pins@[j] == before[j - 1]);
                    lemma_pkg_order(x, id, y);
                } else if i == k {
                    assert(pins@[j] == before[j - 1]);
                } else {
                    assert(pins@[i] == before[i - 1] && pins@[j] == before[j - 1]);
                }
            }
        }
    }
}

/// Two lists in the order of the packages that say the same and agree up
/// to a place agree everywhere.
proof fn lemma_pins_agree(a: Seq<(Pkg, SemVer)>, b: Seq<(Pkg, SemVer)>, i: int)
    requires
        pins_sorted(a),
        pins_sorted(b),
        pins_model(a) == pins_model(b),
        0 <= i <= a.len(),
        i <= b.len(),
        forall|j: int| 0 <= j < i ==> (#[trigger] a[j]).0@ == b[j].0@ && a[j].1 == b[j].1,
    ensures
        a.len() == b.len(),
        forall|j: int| 0 <= j < a.len() ==> (#[trigger] a[j]).0@ == b[j].0@ && a[j].1 == b[j].1,
    decreases a.len() - i,
{
    if i < a.len() {
        let x = a[i].0@;
        lemma_pins_at(a, i);
        lemma_pins_named(b, x);
        let m = choose|m: int| 0 <= m < b.len() && (#[trigger] b[m]).0@ == x;
        if m < i {
            assert(a[m].0@ == b[m].0@);
            assert(pkg_lt(a[m].0@, a[i].0@));
            lemma_pkg_order(x, x, x);
        }
        let y = b[i].0@;
        lemma_pins_at(b, i);
        lemma_pins_named(a, y);
        let k = choose|k: int| 0 <= k < a.len() && (#[trigger] a[k]).0@ == y;
        if k < i {
            assert(a[k].0@ == b[k].0@);
            assert(pkg_lt(b[k].0@, b[i].0@));
            lemma_pkg_order(y, y, y);
        }
        lemma_pkg_order(x, y, x);
        if m > i {
            assert(pkg_lt(b[i].0@, b[m].0@));
            if k > i {
                assert(pkg_lt(a[i].0@, a[k].0@));
            }
        }
        assert(x == y);
        lemma_pins_agree(a, b, i + 1);
    } else if i < b.len() {
        let y = b[i].0@;
        lemma_pins_at(b, i);
        lemma_pins_named(a, y);
        let k = choose|k: int| 0 <= k < a.len() && (#[trigger] a[k]).0@ == y;
        assert(a[k].0@ == b[k].0@);
        assert(pkg_lt(b[k].0@, b[i].0@));
        lemma_pkg_order(y, y, y);
    }
}

/// A list that stands in the order of the packages is determined by what
/// it says: two such lists that say the same name the same packages with
/// the same versions at the same places.
pub proof fn lemma_pins_determined(a: Seq<(Pkg, SemVer)>, b: Seq<(Pkg, SemVer)>)
    requires
        pins_sorted(a),
        pins_sorted(b),
        pins_model(a) == pins_model(b),
    ensures
        a.len() == b.len(),
        forall|j: int| 0 <= j < a.len() ==> (#[trigger] a[j]).0@ == b[j].0@ && a[j].1 == b[j].1,
{
    lemma_pins_agree(a, b, 0);
}

/// What a list of dependencies says: each package with the set of the
/// versions admitted of it, the last entry of a package counting.
pub open spec fn dependencies_model(deps: Seq<(Pkg, Constraint)>) -> Map<
    (Seq<char>, Seq<char>),
    Set<SemVer>,
>
    decreases deps.len(),
{
    if deps.len() == 0 {
        Map::empty()
    } else {
        dependencies_model(deps.drop_last()).insert(deps.last().0@, deps.last().1@)
    }
}

/// Whether every constraint of the list is well formed.
pub open spec fn dependencies_wf(deps: Seq<(Pkg, Constraint)>) -> bool {
    forall|i: int| 0 <= i < deps.len() ==> (#[trigger] deps[i]).1.wf()
}

/// A list of dependencies says something of a package where one of its
/// entries names the package.
pub proof fn lemma_dependencies_named(deps: Seq<(Pkg, Constraint)>, p: (Seq<char>, Seq<char>))
    ensures
        dependencies_model(deps).dom().contains(p) <==> exists|i: int|
            0 <= i < deps.len() && (#[trigger] deps[i]).0@ == p,
    decreases deps.len(),
{
    if deps.len() > 0 {
        let front = deps.drop_last();
        lemma_dependencies_named(front, p);
        if deps.last().0@ == p {
            assert(deps[deps.len() - 1].0@ == p);
        } else {
            if dependencies_model(front).dom().contains(p) {
                let i = choose|i: int| 0 <= i < front.len() && (#[trigger] front[i]).0@ == p;
                assert(deps[i].0@ == p);
            }
            if exists|i: int| 0 <= i < deps.len() && (#[trigger] deps[i]).0@ == p {
                let i = choose|i: int| 0 <= i < deps.len() && (#[trigger] deps[i]).0@ == p;
                assert(front[i].0@ == p);
            }
        }
    }
}

/// What a list of dependencies says of a package is what the last entry
/// that names the package says.
pub proof fn lemma_dependencies_last(deps: Seq<(Pkg, Constraint)>, i: int)
    requires
        0 <= i < deps.len(),
        forall|k: int| i < k < deps.len() ==> (#[trigger] deps[k]).0@ != deps[i].0@,
    ensures
        dependencies_model(deps).dom().contains(deps[i].0@),
        dependencies_model(deps)[deps[i].0@] == deps[i].1@,
    decreases deps.len(),
{
    if i < deps.len() - 1 {
        let front = deps.drop_last();
        assert(front[i] == deps[i]);
        assert forall|k: int| i < k < front.len() implies (#[trigger] front[k]).0@
            != front[i].0@ by {
            assert(front[k] == deps[k]);
        }
        lemma_dependencies_last(front, i);
        assert(deps.last() == deps[deps.len() - 1]);
    }
}

/// Whether the dependencies stand in the order of the packages, so that no
/// package is named twice.
pub open spec fn dependencies_sorted(deps: Seq<(Pkg, Constraint)>) -> bool {
    forall|i: int, j: int|
        0 <= i < j < deps.len() ==> pkg_lt((#[trigger] deps[i]).0@, (#[trigger] deps[j]).0@)
}

/// Putting another constraint in the place of an entry changes what the
/// list says of the package of the entry, and nothing else, where the list
/// stands in the order of the packages.
proof fn lemma_dependencies_update(deps: Seq<(Pkg, Constraint)>, k: int, entry: (Pkg, Constraint))
    requires
        0 <= k < deps.len(),
        dependencies_sorted(deps),
        entry.0@ == deps[k].0@,
    ensures
        dependencies_model(deps.update(k, entry)) == dependencies_model(deps).insert(
            entry.0@,
            entry.1@,
        ),
    decreases deps.len(),
{
    let changed = deps.update(k, entry);
    let front = deps.drop_last();
    if k == deps.len() - 1 {
        assert(changed.drop_last() =~= front);
        assert(changed.last() == entry);
        assert(dependencies_model(changed) =~= dependencies_model(deps).insert(
            entry.0@,
            entry.1@,
        ));
    } else {
        assert(changed.drop_last() =~= front.update(k, entry));
        assert(changed.last() == deps.last());
        assert(front[k] == deps[k]);
        assert forall|i: int, j: int| 0 <= i < j < front.len() implies pkg_lt(
            (#[trigger] front[i]).0@,
            (#[trigger] front[j]).0@,
        ) by {
            assert(front[i] == deps[i] && front[j] == deps[j]);
        }
        lemma_dependencies_update(front, k, entry);
        assert(pkg_lt(deps[k].0@, deps[deps.len() - 1].0@));
        lemma_pkg_order(deps[k].0@, deps[deps.len() - 1].0@, deps[k].0@);
        assert(dependencies_model(changed) =~= dependencies_model(deps).insert(
            entry.0@,
            entry.1@,
        ));
    }
}

/// Putting an entry into a list, at any place, adds to what the list says
/// what the entry says, where the list did not name the package of the
/// entry.
proof fn lemma_dependencies_insert(deps: Seq<(Pkg, Constraint)>, k: int, entry: (Pkg, Constraint))
    requires
        0 <= k <= deps.len(),
        forall|i: int| 0 <= i < deps.len() ==> (#[trigger] deps[i]).0@ != entry.0@,
    ensures
        dependencies_model(deps.insert(k, entry)) == dependencies_model(deps).insert(
            entry.0@,
            entry.1@,
        ),
    decreases deps.len(),
{
    let more = deps.insert(k, entry);
    if k == deps.len() {
        assert(more.drop_last() =~= deps);
        assert(more.last() == entry);
    } else {
        let front = deps.drop_last();
        assert(more.drop_last() =~= front.insert(k, entry));
        assert(more.last() == deps.last());
        assert forall|i: int| 0 <= i < front.len() implies (#[trigger] front[i]).0@
            != entry.0@ by {
            assert(front[i] == deps[i]);
        }
        lemma_dependencies_insert(front, k, entry);
        assert(deps[deps.len() - 1].0@ != entry.0@);
        assert(dependencies_model(more) =~= dependencies_model(deps).insert(
            entry.0@,
            entry.1@,
        ));
    }
}

/// Sets what the list says of a package, in a list that stands in the
/// order of the packages: the constraint takes the place of the one that
/// stands for the package, or the package is added at its place in the
/// order.
pub fn set_dependency(deps: &mut Vec<(Pkg, Constraint)>, pkg: Pkg, range: Constraint)
    requires
        dependencies_sorted(old(deps)@),
        dependencies_wf(old(deps)@),
        range.wf(),
    ensures
        dependencies_sorted(final(deps)@),
        dependencies_wf(final(deps)@),
        dependencies_model(final(deps)@) == dependencies_model(old(deps)@).insert(pkg@, range@),
{
    let ghost before = deps@;
    let ghost id = pkg@;
    let mut k: usize = 0;
    while k < deps.len() && deps[k].0.lt(&pkg)
        invariant
            k <= deps@.len(),
            deps@ == before,
            forall|j: int| 0 <= j < k ==> pkg_lt((#[trigger] deps@[j]).0@, pkg@),
        decreases deps.len() - k,
    {
        k += 1;
    }
    if k < deps.len() && deps[k].0.same(&pkg) {
        proof {
            lemma_dependencies_update(before, k as int, (pkg, range));
        }
        deps.set(k, (pkg, range));
        proof {
            assert forall|i: int, j: int| 0 <= i < j < deps@.len() implies pkg_lt(
                (#[trigger] deps@[i]).0@,
                (#[trigger] deps@[j]).0@,
            ) by {
                assert(deps@[i].0@ == before[i].0@);
                assert(deps@[j].0@ == before[j].0@);
            }
            assert forall|i: int| 0 <= i < deps@.len() implies (#[trigger] deps@[i]).1.wf() by {
                if i != k {
                    assert(deps@[i] == before[i]);
                }
            }
        }
    } else {
        proof {
            assert forall|j: int| k <= j < before.len() implies pkg_lt(
                id,
                (#[trigger] before[j]).0@,
            ) by {
                lemma_pkg_order(before[k as int].0@, id, before[j].0@);
                lemma_pkg_order(id, before[k as int].0@, before[j].0@);
            }
            assert forall|i: int| 0 <= i < before.len() implies (#[trigger] before[i]).0@
                != id by {
                lemma_pkg_order(before[i].0@, id, id);
            }
            lemma_dependencies_insert(before, k as int, (pkg, range));
        }
        deps.insert(k, (pkg, range));
        proof {
            assert forall|i: int, j: int| 0 <= i < j < deps@.len() implies pkg_lt(
                (#[trigger] deps@[i]).0@,
                (#[trigger] deps@[j]).0@,
            ) by {
                let x = deps@[i].0@;
                let y = deps@[j].0@;
                if j < k {
                    assert(deps@[i] == before[i] && deps@[j] == before[j]);
                } else if j == k {
                    assert(deps@[i] == before[i]);
                } else if i < k {
                    assert(deps@[i] == before[i] && deps@[j] == before[j - 1]);
                    lemma_pkg_order(x, id, y);
                } else if i == k {
                    assert(deps@[j] == before[j - 1]);
                } else {
                    assert(deps@[i] == before[i - 1] && deps@[j] == before[j - 1]);
                }
            }
            assert forall|i: int| 0 <= i < deps@.len() implies (#[trigger] deps@[i]).1.wf() by {
                if i < k {
                    assert(deps@[i] == before[i]);
                } else if i > k {
                    assert(deps@[i] == before[i - 1]);
                }
            }
        }
    }
}

/// In a list that stands in the order of the packages, what the list says
/// of the package of an entry is what that entry says.
pub proof fn lemma_dependencies_at(deps: Seq<(Pkg, Constraint)>, k: int)
    requires
        dependencies_sorted(deps),
        0 <= k < deps.len(),
    ensures
        dependencies_model(deps).dom().contains(deps[k].0@),
        dependencies_model(deps)[deps[k].0@] == deps[k].1@,
{
    assert forall|j: int| k < j < deps.len() implies (#[trigger] deps[j]).0@ != deps[k].0@ by {
        assert(pkg_lt(deps[k].0@, deps[j].0@));
        lemma_pkg_order(deps[k].0@, deps[j].0@, deps[k].0@);
    }
    lemma_dependencies_last(deps, k);
}

/// Two lists in the order of the packages that say the same and name the
/// same packages up to a place name the same packages everywhere.
proof fn lemma_dependencies_agree(a: Seq<(Pkg, Constraint)>, b: Seq<(Pkg, Constraint)>, i: int)
    requires
        dependencies_sorted(a),
        dependencies_sorted(b),
        dependencies_model(a) == dependencies_model(b),
        0 <= i <= a.len(),
        i <= b.len(),
        forall|j: int| 0 <= j < i ==> (#[trigger] a[j]).0@ == b[j].0@,
    ensures
        a.len() == b.len(),
        forall|j: int| 0 <= j < a.len() ==> (#[trigger] a[j]).0@ == b[j].0@,
    decreases a.len() - i,
{
    if i < a.len() {
        let x = a[i].0@;
        lemma_dependencies_at(a, i);
        lemma_dependencies_named(b, x);
        let m = choose|m: int| 0 <= m < b.len() && (#[trigger] b[m]).0@ == x;
        if m < i {
            assert(a[m].0@ == b[m].0@);
            assert(pkg_lt(a[m].0@, a[i].0@));
            lemma_pkg_order(x, x, x);
        }
        let y = b[i].0@;
        lemma_dependencies_at(b, i);
        lemma_dependencies_named(a, y);
        let k = choose|k: int| 0 <= k < a.len() && (#[trigger] a[k]).0@ == y;
        if k < i {
            assert(a[k].0@ == b[k].0@);
            assert(pkg_lt(b[k].0@, b[i].0@));
            lemma_pkg_order(y, y, y);
        }
        lemma_pkg_order(x, y, x);
        if m > i {
            assert(pkg_lt(b[i].0@, b[m].0@));
            if k > i {
                assert(pkg_lt(a[i].0@, a[k].0@));
            }
        }
        assert(x == y);
        lemma_dependencies_agree(a, b, i + 1);
    } else if i < b.len() {
        let y = b[i].0@;
        lemma_dependencies_at(b, i);
        lemma_dependencies_named(a, y);
        let k = choose|k: int| 0 <= k < a.len() && (#[trigger] a[k]).0@ == y;
        assert(a[k].0@ == b[k].0@);
        assert(pkg_lt(b[k].0@, b[i].0@));
        lemma_pkg_order(y, y, y);
    }
}

/// A list of dependencies that stands in the order of the packages is
/// determined by what it says: two such lists of well-formed constraints
/// that say the same name the same packages at the same places, each with
/// the same intervals of versions.
pub proof fn lemma_dependencies_determined(a: Seq<(Pkg, Constraint)>, b: Seq<(Pkg, Constraint)>)
    requires
        dependencies_sorted(a),
        dependencies_sorted(b),
        dependencies_wf(a),
        dependencies_wf(b),
        dependencies_model(a) == dependencies_model(b),
    ensures
        a.len() == b.len(),
        forall|j: int|
            0 <= j < a.len() ==> (#[trigger] a[j]).0@ == b[j].0@ && a[j].1.segments()
                == b[j].1.segments(),
{
    lemma_dependencies_agree(a, b, 0);
    assert forall|j: int| 0 <= j < a.len() implies (#[trigger] a[j]).0@ == b[j].0@
        && a[j].1.segments() == b[j].1.segments() by {
        lemma_dependencies_at(a, j);
        lemma_dependencies_at(b, j);
        crate::constraint::lemma_same_versions(a[j].1, b[j].1);
    }
}

/// Where the last entry of a package stands in a list of dependencies.
pub fn find_dependency(deps: &Vec<(Pkg, Constraint)>, pkg: &Pkg) -> (r: Option<usize>)
    ensures
        match r {
            Some(i) => i < deps@.len() && deps@[i as int].0@ == pkg@ && (forall|k: int|
                i < k < deps@.len() ==> (#[trigger] deps@[k]).0@ != pkg@) && dependencies_model(
                deps@,
            ).dom().contains(pkg@) && dependencies_model(deps@)[pkg@] == deps@[i as int].1@,
            None => !dependencies_model(deps@).dom().contains(pkg@),
        },
{
    let mut i: usize = deps.len();
    while i > 0
        invariant
            i <= deps@.len(),
            forall|k: int| i <= k < deps@.len() ==> (#[trigger] deps@[k]).0@ != pkg@,
        decreases i,
    {
        i -= 1;
        if deps[i].0.same(pkg) {
            proof {
                lemma_dependencies_last(deps@, i as int);
            }
            return Some(i);
        }
    }
    proof {
        lemma_dependencies_named(deps@, pkg@);
    }
    None
}

/// Whether the identifier `a` comes before the identifier `b`: by the
/// author first, then by the package name, each in the order of texts.
pub open spec fn pkg_lt(a: (Seq<char>, Seq<char>), b: (Seq<char>, Seq<char>)) -> bool {
    crate::text::text_lt(a.0, b.0) || (a.0 == b.0 && crate::text::text_lt(a.1, b.1))
}

/// The order of package identifiers is a strict total order.
pub proof fn lemma_pkg_order(
    a: (Seq<char>, Seq<char>),
    b: (Seq<char>, Seq<char>),
    c: (Seq<char>, Seq<char>),
)
    ensures
        !pkg_lt(a, a),
        pkg_lt(a, b) || a == b || pkg_lt(b, a),
        pkg_lt(a, b) ==> !pkg_lt(b, a),
        pkg_lt(a, b) && pkg_lt(b, c) ==> pkg_lt(a, c),
{
    crate::text::lemma_text_order(a.0, b.0, c.0);
    crate::text::lemma_text_order(a.1, b.1, c.1);
    crate::text::lemma_text_order(b.0, a.0, c.0);
    crate::text::lemma_text_order(b.1, a.1, c.1);
    crate::text::lemma_text_order(b.0, c.0, a.0);
    crate::text::lemma_text_order(b.1, c.1, a.1);
}

/// The text form `author/pkg` of a package identifier.
pub open spec fn pkg_text(id: (Seq<char>, Seq<char>)) -> Seq<char> {
    id.0 + seq!['/'] + id.1
}

/// The identifier that a text denotes: what stands before the first `/` is
/// the author, what follows it the package name.
pub open spec fn pkg_of_text(s: Seq<char>) -> Option<(Seq<char>, Seq<char>)> {
    let i = find(s, '/');
    if 0 <= i < s.len() {
        Some((s.subrange(0, i), s.subrange(i + 1, s.len() as int)))
    } else {
        None
    }
}

impl PackageConfig {
    /// The dependencies of the package, without those of its tests.
    pub fn dependencies_iter(&self) -> (r: Vec<(Pkg, Constraint)>)
        ensures
            crate::dependency_provider::same_dependencies(r@, self.dependencies@),
    {
        crate::dependency_provider::clone_dependencies(&self.dependencies)
    }
}

impl ProjectConfig {
    /// Whether every constraint of the configuration is well formed.
    pub open spec fn wf(&self) -> bool {
        match self {
            ProjectConfig::Application(_) => true,
            ProjectConfig::Package(pkg) => dependencies_wf(pkg.dependencies@) && dependencies_wf(
                pkg.test_dependencies@,
            ),
        }
    }
}

impl View for Pkg {
    type V = (Seq<char>, Seq<char>);

    /// The author and the package name.
    open spec fn view(&self) -> (Seq<char>, Seq<char>) {
        (self.author@, self.pkg@)
    }
}

impl Clone for Pkg {
    fn clone(&self) -> (r: Self)
        ensures
            r@ == self@,
    {
        Pkg { author: self.author.clone(), pkg: self.pkg.clone() }
    }
}

impl PartialEq for Pkg {
    fn eq(&self, other: &Self) -> (r: bool) {
        self.author == other.author && self.pkg == other.pkg
    }
}

impl vstd::std_specs::cmp::PartialEqSpecImpl for Pkg {
    open spec fn obeys_eq_spec() -> bool {
        true
    }

    open spec fn eq_spec(&self, other: &Self) -> bool {
        self.author@ == other.author@ && self.pkg@ == other.pkg@
    }
}

/// `a` followed by `b`.
pub fn concat(a: &str, b: &str) -> (r: String)
    ensures
        r@ == a@ + b@,
{
    let mut r = String::from_str(a);
    r.append(b);
    r
}

// Public Pkg methods.
impl Pkg {
    /// Create a new package identifier from its two components, author and package name.
    pub fn new(author: &str, pkg: &str) -> (r: Pkg)
        ensures
            r@ == (author@, pkg@),
    {
        Pkg { author: String::from_str(author), pkg: String::from_str(pkg) }
    }

    /// Get the location of the cache directory for the dependency solver:
    /// `<elm_home>/pubgrub`.
    pub fn pubgrub_cache_dir(elm_home: &str) -> (r: String)
        ensures
            r@ == elm_home@ + "/pubgrub"@,
    {
        concat(elm_home, "/pubgrub")
    }

    /// Get the path to the folder inside `ELM_HOME` containing the different
    /// installed versions of this package:
    /// `<elm_home>/<elm_version>/packages/<author>/<pkg>`.
    pub fn config_path(&self, elm_home: &str, elm_version: &str) -> (r: String)
        ensures
            r@ == elm_home@ + "/"@ + elm_version@ + "/packages"@ + "/"@ + self.author@ + "/"@
                + self.pkg@,
    {
        let mut r = Pkg::packages_dir(elm_home, elm_version);
        r.append("/");
        r.append(self.author.as_str());
        r.append("/");
        r.append(self.pkg.as_str());
        r
    }

    /// Get the url corresponding to this package on the package server:
    /// `<remote_base_url>/packages/<author>/<pkg>`.
    pub fn to_url(&self, remote_base_url: &str) -> (r: String)
        ensures
            r@ == remote_base_url@ + "/packages/"@ + self.author@ + "/"@ + self.pkg@,
    {
        let mut r = concat(remote_base_url, "/packages/");
        r.append(self.author.as_str());
        r.append("/");
        r.append(self.pkg.as_str());
        r
    }

    /// Get the path to the dependency solver's cache folder for this package:
    /// `<elm_home>/pubgrub/elm_json_cache/<author>/<pkg>`.
    pub fn pubgrub_cache_dir_json(&self, elm_home: &str) -> (r: String)
        ensures
            r@ == elm_home@ + "/pubgrub"@ + "/elm_json_cache/"@ + self.author@ + "/"@
                + self.pkg@,
    {
        let mut r = Pkg::pubgrub_cache_dir(elm_home);
        r.append("/elm_json_cache/");
        r.append(self.author.as_str());
        r.append("/");
        r.append(self.pkg.as_str());
        r
    }

    /// The folder that holds the installed packages:
    /// `<elm_home>/<elm_version>/packages`.
    pub fn packages_dir(elm_home: &str, elm_version: &str) -> (r: String)
        ensures
            r@ == elm_home@ + "/"@ + elm_version@ + "/packages"@,
    {
        let mut r = concat(elm_home, "/");
        r.append(elm_version);
        r.append("/packages");
        r
    }

    /// Reads an identifier from its text form `author/pkg`. The author ends
    /// at the first `/`.
    pub fn from_str(s: &str) -> (r: Result<Pkg, PkgParseError>)
        ensures
            match r {
                Ok(p) => pkg_of_text(s@) == Some(p@),
                Err(PkgParseError::NoAuthorSeparator(text)) => pkg_of_text(s@) is None
                    && !s@.contains('/') && text@ == s@,
            },
    {
        proof {
            lemma_find(s@, '/');
        }
        match find_char(s, '/') {
            None => Err(PkgParseError::NoAuthorSeparator(s.to_owned())),
            Some(author_sep) => {
                let n = s.unicode_len();
                let author = slice_text(s, 0, author_sep);
                let pkg = slice_text(s, author_sep + 1, n);
                Ok(Pkg { author, pkg })
            },
        }
    }

    /// The text form `author/pkg`.
    pub fn to_string(&self) -> (r: String)
        ensures
            r@ == pkg_text(self@),
    {
        proof {
            reveal_strlit("/");
            assert("/"@ =~= seq!['/']);
        }
        let mut r = self.author.clone();
        r.append("/");
        r.append(self.pkg.as_str());
        r
    }

    /// Whether this identifier comes before the other: by the author
    /// first, then by the package name.
    pub fn lt(&self, other: &Pkg) -> (r: bool)
        ensures
            r == pkg_lt(self@, other@),
    {
        crate::text::is_before(self.author.as_str(), other.author.as_str()) || (self.author
            == other.author && crate::text::is_before(self.pkg.as_str(), other.pkg.as_str()))
    }

    /// Whether the two identifiers have the same author and package name.
    pub fn same(&self, other: &Pkg) -> (r: bool)
        ensures
            r == (self@ == other@),
    {
        self.author == other.author && self.pkg == other.pkg
    }
}

/// Reading the text form of an identifier whose author holds no `/` gives
/// the identifier back.
pub proof fn lemma_pkg_text_round_trip(id: (Seq<char>, Seq<char>))
    requires
        !id.0.contains('/'),
    ensures
        pkg_of_text(pkg_text(id)) == Some(id),
{
    let s = pkg_text(id);
    let i = id.0.len() as int;
    assert(s[i] == '/');
    assert forall|j: int| 0 <= j < i implies s[j] != '/' by {
        assert(s[j] == id.0[j]);
        assert(id.0.contains(id.0[j]));
    }
    lemma_find_unique(s, '/', i);
    assert(s.subrange(0, i) =~= id.0);
    assert(s.subrange(i + 1, s.len() as int) =~= id.1);
}

/// Writing the identifier read from a text gives the text back.
pub proof fn lemma_pkg_of_text_round_trip(s: Seq<char>)
    requires
        pkg_of_text(s) is Some,
    ensures
        pkg_text(pkg_of_text(s).unwrap()) == s,
        !pkg_of_text(s).unwrap().0.contains('/'),
{
    lemma_find(s, '/');
    let i = find(s, '/');
    assert(pkg_text(pkg_of_text(s).unwrap()) =~= s);
    let a = s.subrange(0, i);
    if a.contains('/') {
        let j = choose|j: int| 0 <= j < a.len() && a[j] == '/';
        assert(s[j] == '/');
    }
}

} // verus!
