use elm_solve_deps::constraint::Constraint;
use elm_solve_deps::dependency_provider::{
    choose_package_with_fewest_versions, clone_dependencies,
    Dependencies, ElmPackageProviderOffline, ProjectAdapter,
};
use elm_solve_deps::pkg_version::{Cache, PkgVersionError};
use elm_solve_deps::project_config::{ExposedModules, PackageConfig, Pkg};
use elm_solve_deps::solver::{Offline, Online, VersionStrategy};
use elm_solve_deps::version::SemVer;
use std::cell::RefCell;

fn v(major: u32, minor: u32, patch: u32) -> SemVer {
    SemVer::new(major, minor, patch)
}

fn range(text: &str) -> Constraint {
    Constraint::from_str(text).unwrap()
}

fn no_server(_: &str) -> Result<String, String> {
    Err("offline".to_string())
}

#[test]
fn the_package_with_the_fewest_versions_in_range_is_chosen() {
    let potential = vec![
        (Pkg::new("lib", "core"), range("1.0.0 <= v < 2.0.0")),
        (Pkg::new("lib", "http"), range("2.0.0 <= v < 3.0.0")),
        (Pkg::new("lib", "json"), range("1.0.0 <= v < 2.0.0")),
    ];
    let available = vec![
        vec![v(1, 0, 5), v(1, 0, 4), v(1, 0, 0)],
        vec![v(3, 0, 0), v(2, 1, 0), v(2, 0, 0)],
        vec![v(1, 1, 3), v(1, 1, 2)],
    ];
    assert_eq!(choose_package_with_fewest_versions(&potential, &available), (1, Some(v(2, 1, 0))));
}

#[test]
fn the_first_of_the_packages_with_as_few_versions_is_chosen() {
    let potential = vec![
        (Pkg::new("lib", "core"), range("1.0.0 <= v < 2.0.0")),
        (Pkg::new("lib", "http"), range("2.0.0 <= v < 3.0.0")),
        (Pkg::new("lib", "json"), range("1.0.0 <= v < 2.0.0")),
    ];
    let available = vec![
        vec![v(1, 0, 5), v(1, 0, 4)],
        vec![v(2, 1, 0)],
        vec![v(1, 1, 3), v(0, 1, 2)],
    ];
    assert_eq!(choose_package_with_fewest_versions(&potential, &available), (1, Some(v(2, 1, 0))));
    let tie = vec![vec![v(1, 0, 5)], vec![v(2, 1, 0)], vec![v(1, 1, 3)]];
    assert_eq!(choose_package_with_fewest_versions(&potential, &tie), (0, Some(v(1, 0, 5))));
}

#[test]
fn the_first_version_in_range_is_chosen_in_the_order_listed() {
    let potential = vec![(Pkg::new("lib", "core"), range("1.0.0 <= v < 2.0.0"))];
    let newest_first = vec![vec![v(2, 0, 0), v(1, 0, 5), v(1, 0, 0), v(0, 9, 0)]];
    assert_eq!(choose_package_with_fewest_versions(&potential, &newest_first), (0, Some(v(1, 0, 5))));
    let oldest_first = vec![vec![v(0, 9, 0), v(1, 0, 0), v(1, 0, 5), v(2, 0, 0)]];
    assert_eq!(choose_package_with_fewest_versions(&potential, &oldest_first), (0, Some(v(1, 0, 0))));
    let unordered = vec![vec![v(3, 0, 0), v(1, 0, 2), v(1, 0, 9), v(1, 0, 2)]];
    assert_eq!(choose_package_with_fewest_versions(&potential, &unordered), (0, Some(v(1, 0, 2))));
}

#[test]
fn versions_listed_twice_count_twice() {
    let potential = vec![
        (Pkg::new("lib", "core"), range("1.0.0 <= v < 2.0.0")),
        (Pkg::new("lib", "http"), range("1.0.0 <= v < 2.0.0")),
    ];
    let available = vec![vec![v(1, 0, 0), v(1, 0, 0), v(1, 0, 0)], vec![v(1, 0, 1), v(1, 0, 2)]];
    assert_eq!(choose_package_with_fewest_versions(&potential, &available), (1, Some(v(1, 0, 1))));
}

#[test]
fn a_package_without_version_in_range_is_chosen_without_version() {
    let potential = vec![
        (Pkg::new("lib", "core"), range("1.0.0 <= v < 2.0.0")),
        (Pkg::new("lib", "http"), range("2.0.0 <= v < 3.0.0")),
    ];
    let available = vec![vec![v(1, 0, 5)], vec![v(1, 0, 0), v(3, 0, 0)]];
    assert_eq!(choose_package_with_fewest_versions(&potential, &available), (1, None));
    let nothing: Vec<Vec<SemVer>> = vec![vec![], vec![]];
    assert_eq!(choose_package_with_fewest_versions(&potential, &nothing), (0, None));
}

#[test]
fn adapter_pins_the_root_when_it_comes_first() {
    let direct = vec![(Pkg::new("lib", "core"), range("1.0.0 <= v < 2.0.0"))];
    let adapter = ProjectAdapter::new(Pkg::new("root", ""), v(0, 0, 0), &direct);
    let potential = vec![
        (Pkg::new("root", ""), Constraint::exact(v(0, 0, 0))),
        (Pkg::new("lib", "core"), range("1.0.0 <= v < 2.0.0")),
    ];
    let asked = RefCell::new(0);
    let choice = adapter.choose_package_version(&potential, |_: &Vec<(Pkg, Constraint)>| {
        *asked.borrow_mut() += 1;
        Ok((1, None))
    });
    assert_eq!(choice, Ok((0, Some(v(0, 0, 0)))));
    assert_eq!(*asked.borrow(), 0);
}

#[test]
fn adapter_leaves_other_choices_to_the_provider() {
    let direct = vec![(Pkg::new("lib", "core"), range("1.0.0 <= v < 2.0.0"))];
    let adapter = ProjectAdapter::new(Pkg::new("me", "app"), v(0, 1, 0), &direct);
    let potential = vec![
        (Pkg::new("lib", "core"), range("1.0.0 <= v < 2.0.0")),
        (Pkg::new("me", "app"), Constraint::exact(v(0, 1, 0))),
    ];
    let choice = adapter.choose_package_version(&potential, |c: &Vec<(Pkg, Constraint)>| {
        assert_eq!(c.len(), 2);
        Ok((0, Some(v(1, 0, 5))))
    });
    assert_eq!(choice, Ok((0, Some(v(1, 0, 5)))));
    let failed = adapter
        .choose_package_version(&potential, |_: &Vec<(Pkg, Constraint)>| Err("no".to_string()));
    assert_eq!(failed, Err("no".to_string()));
}

#[test]
fn adapter_gives_the_direct_dependencies_for_the_root() {
    let direct = vec![
        (Pkg::new("lib", "core"), range("1.0.0 <= v < 2.0.0")),
        (Pkg::new("lib", "http"), Constraint::exact(v(2, 0, 0))),
    ];
    let adapter = ProjectAdapter::new(Pkg::new("root", ""), v(0, 0, 0), &direct);
    assert_eq!(adapter.pkg_id(), &Pkg::new("root", ""));
    assert_eq!(adapter.version(), v(0, 0, 0));
    assert_eq!(adapter.direct_deps().len(), 2);
    let found = adapter
        .get_dependencies(&Pkg::new("root", ""), v(9, 9, 9), |_: &Pkg, _: SemVer| {
            Ok(Dependencies::Unknown)
        })
        .unwrap();
    match found {
        Dependencies::Known(deps) => {
            assert_eq!(deps.len(), 2);
            assert_eq!(deps[0].0, Pkg::new("lib", "core"));
            assert_eq!(deps[0].1 .0, direct[0].1 .0);
            assert_eq!(deps[1].0, Pkg::new("lib", "http"));
            assert_eq!(deps[1].1 .0, direct[1].1 .0);
        }
        Dependencies::Unknown => panic!("the root has dependencies"),
    }
}

#[test]
fn adapter_leaves_other_dependencies_to_the_provider() {
    let direct = vec![(Pkg::new("lib", "core"), range("1.0.0 <= v < 2.0.0"))];
    let adapter = ProjectAdapter::new(Pkg::new("root", ""), v(0, 0, 0), &direct);
    let found = adapter.get_dependencies(&Pkg::new("lib", "core"), v(1, 0, 5), |p: &Pkg, at: SemVer| {
        assert_eq!(p, &Pkg::new("lib", "core"));
        assert_eq!(at, v(1, 0, 5));
        Ok(Dependencies::Unknown)
    });
    assert!(matches!(found, Ok(Dependencies::Unknown)));
    let failed = adapter
        .get_dependencies(&Pkg::new("lib", "core"), v(1, 0, 5), |_: &Pkg, _: SemVer| {
            Err("unreadable".to_string())
        });
    assert_eq!(failed.err(), Some("unreadable".to_string()));
}

#[test]
fn clone_dependencies_keeps_packages_and_ranges() {
    let deps = vec![
        (Pkg::new("lib", "core"), range("1.0.0 <= v < 2.0.0")),
        (Pkg::new("lib", "http"), Constraint::none()),
    ];
    let copy = clone_dependencies(&deps);
    assert_eq!(copy.len(), 2);
    for i in 0..2 {
        assert_eq!(copy[i].0, deps[i].0);
        assert_eq!(copy[i].1 .0, deps[i].1 .0);
    }
}

#[test]
fn offline_lists_a_folder_once_and_gives_newest_first() {
    let asked = RefCell::new(Vec::new());
    let list_dir = |dir: &str| -> Vec<String> {
        asked.borrow_mut().push(dir.to_string());
        vec!["1.0.0".to_string(), "1.0.5".to_string(), "readme".to_string(), "1.0.2".to_string()]
    };
    let mut offline = Offline::new("/home/.elm", "0.19.1");
    let core = Pkg::new("lib", "core");
    assert_eq!(
        offline.load_installed_versions_of(&core, &list_dir),
        vec![v(1, 0, 5), v(1, 0, 2), v(1, 0, 0)]
    );
    assert_eq!(
        offline.load_installed_versions_of(&core, &list_dir),
        vec![v(1, 0, 5), v(1, 0, 2), v(1, 0, 0)]
    );
    assert_eq!(*asked.borrow(), vec!["/home/.elm/0.19.1/packages/lib/core".to_string()]);
    assert_eq!(offline.versions_cache.get(&core), Some(&vec![v(1, 0, 0), v(1, 0, 2), v(1, 0, 5)]));
}

#[test]
fn offline_records_a_missing_folder_as_no_versions() {
    let list_dir = |_: &str| -> Vec<String> { vec![] };
    let mut offline = ElmPackageProviderOffline::new("/home/.elm", "0.19.1");
    let core = Pkg::new("lib", "core");
    assert_eq!(offline.load_installed_versions_of(&core, &list_dir), vec![]);
    assert_eq!(offline.versions_cache.get(&core), Some(&vec![]));
    let potential = vec![(Pkg::new("lib", "core"), Constraint::any())];
    assert_eq!(offline.choose_package_version(&potential, &list_dir), (0, None));
}

#[test]
fn offline_chooses_the_newest_installed_version_in_range() {
    let list_dir = |dir: &str| -> Vec<String> {
        if dir.ends_with("/lib/core") {
            vec!["1.0.0".to_string(), "1.0.5".to_string(), "2.0.0".to_string()]
        } else if dir.ends_with("/lib/http") {
            vec!["2.0.0".to_string()]
        } else {
            vec![]
        }
    };
    let mut offline = Offline::new("/home/.elm", "0.19.1");
    let potential = vec![
        (Pkg::new("lib", "core"), range("1.0.0 <= v < 2.0.0")),
        (Pkg::new("lib", "json"), range("1.0.0 <= v < 2.0.0")),
        (Pkg::new("lib", "http"), range("2.0.0 <= v < 3.0.0")),
    ];
    assert_eq!(offline.choose_package_version(&potential, &list_dir), (1, None));
    let known = vec![
        (Pkg::new("lib", "core"), range("1.0.0 <= v < 2.0.0")),
        (Pkg::new("lib", "http"), range("1.0.0 <= v < 3.0.0")),
    ];
    assert_eq!(offline.choose_package_version(&known, &list_dir), (1, Some(v(2, 0, 0))));
    let only_core = vec![(Pkg::new("lib", "core"), range("1.0.0 <= v < 2.0.0"))];
    assert_eq!(offline.choose_package_version(&only_core, &list_dir), (0, Some(v(1, 0, 5))));
    assert_eq!(
        offline.installed_versions_of_all(&known, &list_dir),
        vec![vec![v(2, 0, 0), v(1, 0, 5), v(1, 0, 0)], vec![v(2, 0, 0)]]
    );
}

#[test]
fn offline_manifest_path_follows_the_layout() {
    let offline = Offline::new("/home/.elm", "0.19.1");
    assert_eq!(
        offline.config_path(&Pkg::new("lib", "core"), v(1, 0, 5)),
        "/home/.elm/0.19.1/packages/lib/core/1.0.5/manifest"
    );
}

fn online_with(strategy: VersionStrategy) -> Online<fn(&str) -> Result<String, String>> {
    let mut offline = Offline::new("/home/.elm", "0.19.1");
    let list_dir = |_: &str| -> Vec<String> { vec!["1.0.2".to_string(), "1.0.5".to_string()] };
    offline.load_installed_versions_of(&Pkg::new("lib", "core"), &list_dir);
    let mut online_cache = Cache::new();
    online_cache.insert(Pkg::new("lib", "core"), v(1, 0, 0));
    online_cache.insert(Pkg::new("lib", "core"), v(1, 0, 5));
    online_cache.insert(Pkg::new("lib", "core"), v(2, 0, 0));
    online_cache.insert(Pkg::new("lib", "http"), v(2, 0, 0));
    Online {
        offline,
        online_cache,
        remote: "https://remote".to_string(),
        http_fetch: no_server,
        strategy,
    }
}

#[test]
fn online_lists_installed_and_listed_versions_in_the_order_of_the_strategy() {
    let newest = online_with(VersionStrategy::Newest);
    assert_eq!(
        newest.list_available_versions(&Pkg::new("lib", "core")),
        vec![v(2, 0, 0), v(1, 0, 5), v(1, 0, 2), v(1, 0, 0)]
    );
    assert_eq!(newest.list_available_versions(&Pkg::new("lib", "http")), vec![v(2, 0, 0)]);
    assert_eq!(newest.list_available_versions(&Pkg::new("lib", "json")), vec![]);
    let oldest = online_with(VersionStrategy::Oldest);
    assert_eq!(
        oldest.list_available_versions(&Pkg::new("lib", "core")),
        vec![v(1, 0, 0), v(1, 0, 2), v(1, 0, 5), v(2, 0, 0)]
    );
}

#[test]
fn online_chooses_by_strategy() {
    let list_dir = |_: &str| -> Vec<String> { vec![] };
    let potential = vec![
        (Pkg::new("lib", "core"), range("1.0.0 <= v < 2.0.0")),
        (Pkg::new("lib", "http"), range("1.0.0 <= v < 2.0.0")),
    ];
    let only_core = vec![(Pkg::new("lib", "core"), range("1.0.0 <= v < 2.0.0"))];
    let mut newest = online_with(VersionStrategy::Newest);
    assert_eq!(newest.choose_package_version(&only_core, &list_dir), (0, Some(v(1, 0, 5))));
    assert_eq!(newest.choose_package_version(&potential, &list_dir), (1, None));
    let mut oldest = online_with(VersionStrategy::Oldest);
    assert_eq!(oldest.choose_package_version(&only_core, &list_dir), (0, Some(v(1, 0, 0))));
}

#[test]
fn online_new_updates_the_stored_cache() {
    let asked = RefCell::new(Vec::new());
    let fetch = |url: &str| -> Result<String, String> {
        asked.borrow_mut().push(url.to_string());
        Ok(r#"["lib/http@2.0.0", "lib/core@1.0.0"]"#.to_string())
    };
    let mut stored = Cache::new();
    stored.insert(Pkg::new("lib", "core"), v(1, 0, 0));
    let online = Online::new(
        Offline::new("/home/.elm", "0.19.1"),
        "https://remote",
        &fetch,
        VersionStrategy::Oldest,
        stored,
    )
    .unwrap();
    assert_eq!(*asked.borrow(), vec!["https://remote/all-packages/since/0".to_string()]);
    assert_eq!(online.remote, "https://remote");
    assert_eq!(online.strategy, VersionStrategy::Oldest);
    assert_eq!(
        online.save_cache(),
        vec![
            ("lib/core".to_string(), vec!["1.0.0".to_string()]),
            ("lib/http".to_string(), vec!["2.0.0".to_string()]),
        ]
    );
    let read = |_: &str| -> Result<PackageConfig, PkgVersionError> {
        Err(PkgVersionError::FileIoError("no file".to_string()))
    };
    let write = |_: &str, _: &str, _: &str| -> Result<(), String> { Ok(()) };
    let decode = |text: &str| -> Result<PackageConfig, PkgVersionError> {
        assert_eq!(text, r#"["lib/http@2.0.0", "lib/core@1.0.0"]"#);
        Ok(config_of("lib/http"))
    };
    let config = online
        .fetch_elm_json(&Pkg::new("lib", "http"), v(2, 0, 0), &read, &write, &decode)
        .unwrap();
    assert_eq!(config.name, Pkg::new("lib", "http"));
    assert_eq!(asked.borrow()[1], "https://remote/packages/lib/http/2.0.0/manifest");
}

#[test]
fn online_new_fails_when_the_server_cannot_be_reached() {
    let r = Online::new(
        Offline::new("/home/.elm", "0.19.1"),
        "https://remote",
        no_server,
        VersionStrategy::Newest,
        Cache::new(),
    );
    assert!(r.is_err());
}

fn config_of(name: &str) -> PackageConfig {
    PackageConfig {
        name: Pkg::from_str(name).unwrap(),
        summary: "".to_string(),
        license: "".to_string(),
        version: v(1, 0, 5),
        elm_version: range("0.19.0 <= v < 0.20.0"),
        exposed_modules: ExposedModules::NoCategory(vec![]),
        dependencies: vec![(Pkg::new("lib", "bytes"), range("1.0.0 <= v < 2.0.0"))],
        test_dependencies: vec![(Pkg::new("lib", "test"), range("1.0.0 <= v < 2.0.0"))],
    }
}

fn names(found: Dependencies) -> Vec<String> {
    match found {
        Dependencies::Known(deps) => deps.iter().map(|(p, _)| p.to_string()).collect(),
        Dependencies::Unknown => panic!("the dependencies are known"),
    }
}

#[test]
fn offline_reads_the_dependencies_of_the_installed_package() {
    let offline = Offline::new("/home/.elm", "0.19.1");
    let asked = RefCell::new(Vec::new());
    let read = |path: &str| -> Result<PackageConfig, PkgVersionError> {
        asked.borrow_mut().push(path.to_string());
        Ok(config_of("lib/core"))
    };
    let found = offline.get_dependencies(&Pkg::new("lib", "core"), v(1, 0, 5), &read).unwrap();
    assert_eq!(names(found), vec!["lib/bytes"]);
    assert_eq!(*asked.borrow(), vec!["/home/.elm/0.19.1/packages/lib/core/1.0.5/manifest"]);
    let fail = |_: &str| -> Result<PackageConfig, PkgVersionError> {
        Err(PkgVersionError::FileIoError("gone".to_string()))
    };
    match offline.get_dependencies(&Pkg::new("lib", "core"), v(1, 0, 5), &fail) {
        Err(PkgVersionError::FileIoError(cause)) => assert_eq!(cause, "gone"),
        other => panic!("unexpected {:?}", other),
    }
}

#[test]
fn online_reads_the_installed_package_first() {
    let online = online_with(VersionStrategy::Newest);
    let asked = RefCell::new(Vec::new());
    let read = |path: &str| -> Result<PackageConfig, PkgVersionError> {
        asked.borrow_mut().push(path.to_string());
        Ok(config_of("lib/core"))
    };
    let write = |_: &str, _: &str, _: &str| -> Result<(), String> { panic!("nothing is fetched") };
    let decode = |_: &str| -> Result<PackageConfig, PkgVersionError> {
        panic!("nothing is fetched")
    };
    let found = online
        .get_dependencies(&Pkg::new("lib", "core"), v(1, 0, 5), &read, &write, &decode)
        .unwrap();
    assert_eq!(names(found), vec!["lib/bytes"]);
    assert_eq!(*asked.borrow(), vec!["/home/.elm/0.19.1/packages/lib/core/1.0.5/manifest"]);
}

#[test]
fn online_reads_the_file_of_the_solver_second() {
    let online = online_with(VersionStrategy::Newest);
    let asked = RefCell::new(Vec::new());
    let read = |path: &str| -> Result<PackageConfig, PkgVersionError> {
        asked.borrow_mut().push(path.to_string());
        if path.contains("elm_json_cache") {
            Ok(config_of("lib/core"))
        } else {
            Err(PkgVersionError::FileIoError("not installed".to_string()))
        }
    };
    let write = |_: &str, _: &str, _: &str| -> Result<(), String> { panic!("nothing is fetched") };
    let decode = |_: &str| -> Result<PackageConfig, PkgVersionError> {
        panic!("nothing is fetched")
    };
    let found = online
        .get_dependencies(&Pkg::new("lib", "core"), v(1, 0, 5), &read, &write, &decode)
        .unwrap();
    assert_eq!(names(found), vec!["lib/bytes"]);
    assert_eq!(
        *asked.borrow(),
        vec![
            "/home/.elm/0.19.1/packages/lib/core/1.0.5/manifest",
            "/home/.elm/pubgrub/elm_json_cache/lib/core/1.0.5/manifest"
        ]
    );
}

#[test]
fn online_asks_the_server_last_and_keeps_the_answer() {
    let fetched = RefCell::new(Vec::new());
    let mut online_cache = Cache::new();
    online_cache.insert(Pkg::new("lib", "core"), v(1, 0, 5));
    let online = Online {
        offline: Offline::new("/home/.elm", "0.19.1"),
        online_cache,
        remote: "https://remote".to_string(),
        http_fetch: |url: &str| -> Result<String, String> {
            fetched.borrow_mut().push(url.to_string());
            Ok("the manifest".to_string())
        },
        strategy: VersionStrategy::Newest,
    };
    let read = |_: &str| -> Result<PackageConfig, PkgVersionError> {
        Err(PkgVersionError::FileIoError("no file".to_string()))
    };
    let kept = RefCell::new(Vec::new());
    let write = |dir: &str, file: &str, text: &str| -> Result<(), String> {
        kept.borrow_mut().push((dir.to_string(), file.to_string(), text.to_string()));
        Err("the disk is full".to_string())
    };
    let decode = |text: &str| -> Result<PackageConfig, PkgVersionError> {
        assert_eq!(text, "the manifest");
        Ok(config_of("lib/core"))
    };
    let found = online
        .get_dependencies(&Pkg::new("lib", "core"), v(1, 0, 5), &read, &write, &decode)
        .unwrap();
    assert_eq!(names(found), vec!["lib/bytes"]);
    assert_eq!(*fetched.borrow(), vec!["https://remote/packages/lib/core/1.0.5/manifest"]);
    assert_eq!(
        *kept.borrow(),
        vec![(
            "/home/.elm/pubgrub/elm_json_cache/lib/core/1.0.5".to_string(),
            "/home/.elm/pubgrub/elm_json_cache/lib/core/1.0.5/manifest".to_string(),
            "the manifest".to_string()
        )]
    );
    let broken = |_: &str| -> Result<PackageConfig, PkgVersionError> {
        Err(PkgVersionError::JsonError("not a manifest".to_string()))
    };
    match online.get_dependencies(&Pkg::new("lib", "core"), v(1, 0, 5), &read, &write, &broken) {
        Err(PkgVersionError::JsonError(cause)) => assert_eq!(cause, "not a manifest"),
        other => panic!("unexpected {:?}", other),
    }
}

#[test]
fn online_hands_on_the_failure_of_the_server() {
    let online = online_with(VersionStrategy::Newest);
    let read = |_: &str| -> Result<PackageConfig, PkgVersionError> {
        Err(PkgVersionError::FileIoError("no file".to_string()))
    };
    let write = |_: &str, _: &str, _: &str| -> Result<(), String> { panic!("nothing was fetched") };
    let decode = |_: &str| -> Result<PackageConfig, PkgVersionError> {
        panic!("nothing was fetched")
    };
    match online.get_dependencies(&Pkg::new("lib", "core"), v(1, 0, 5), &read, &write, &decode) {
        Err(PkgVersionError::FetchError { url, source }) => {
            assert_eq!(url, "https://remote/packages/lib/core/1.0.5/manifest");
            assert_eq!(source, "offline");
        }
        other => panic!("unexpected {:?}", other),
    }
}
