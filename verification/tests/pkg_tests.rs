use elm_solve_deps::constraint::Constraint;
use elm_solve_deps::pkg_version::{PkgVersion, PkgVersionError, PkgVersionParseError};
use elm_solve_deps::project_config::{ExposedModules, PackageConfig, Pkg, PkgParseError};
use elm_solve_deps::version::{SemVer, VersionParseError};

#[test]
fn pkg_new_takes_author_and_name() {
    let p = Pkg::new("elm", "core");
    assert_eq!(p.author, "elm");
    assert_eq!(p.pkg, "core");
    assert_eq!(p, Pkg { author: "elm".to_string(), pkg: "core".to_string() });
}

#[test]
fn pkg_text_is_author_slash_name() {
    assert_eq!(Pkg::new("elm", "core").to_string(), "elm/core");
    assert_eq!(Pkg::new("root", "").to_string(), "root/");
}

#[test]
fn pkg_is_read_from_text() {
    assert_eq!(Pkg::from_str("elm/core"), Ok(Pkg::new("elm", "core")));
    assert_eq!(Pkg::from_str("a/b/c"), Ok(Pkg::new("a", "b/c")));
    assert_eq!(Pkg::from_str("/x"), Ok(Pkg::new("", "x")));
    assert_eq!(Pkg::from_str("élan/core"), Ok(Pkg::new("élan", "core")));
}

#[test]
fn pkg_without_separator_is_refused() {
    assert_eq!(
        Pkg::from_str("elm-core"),
        Err(PkgParseError::NoAuthorSeparator("elm-core".to_string()))
    );
    assert_eq!(Pkg::from_str(""), Err(PkgParseError::NoAuthorSeparator("".to_string())));
}

#[test]
fn pkg_equality_is_by_author_and_name() {
    assert!(Pkg::new("elm", "core").same(&Pkg::new("elm", "core")));
    assert!(!Pkg::new("elm", "core").same(&Pkg::new("elm", "json")));
    assert!(!Pkg::new("elm", "core").same(&Pkg::new("lib", "core")));
    assert!(Pkg::new("elm", "core") == Pkg::new("elm", "core").clone());
    assert!(Pkg::new("elm", "core") != Pkg::new("elm", "cor"));
}

#[test]
fn pkg_paths_follow_the_layout() {
    let p = Pkg::new("elm", "core");
    assert_eq!(Pkg::pubgrub_cache_dir("/home/u/.elm"), "/home/u/.elm/pubgrub");
    assert_eq!(Pkg::packages_dir("/home/u/.elm", "0.19.1"), "/home/u/.elm/0.19.1/packages");
    assert_eq!(
        p.config_path("/home/u/.elm", "0.19.1"),
        "/home/u/.elm/0.19.1/packages/elm/core"
    );
    assert_eq!(
        p.pubgrub_cache_dir_json("/home/u/.elm"),
        "/home/u/.elm/pubgrub/elm_json_cache/elm/core"
    );
}

#[test]
fn pkg_url_is_under_packages() {
    assert_eq!(
        Pkg::new("elm", "core").to_url("https://package.elm-lang.org"),
        "https://package.elm-lang.org/packages/elm/core"
    );
}

#[test]
fn pkg_version_is_read_from_text() {
    let pv = PkgVersion::from_str("elm/core@1.0.5").unwrap();
    assert_eq!(pv.author_pkg, Pkg::new("elm", "core"));
    assert_eq!(pv.version, SemVer::new(1, 0, 5));
}

#[test]
fn pkg_version_text_round_trip() {
    for text in ["elm/core@1.0.5", "lib/http@2.0.0", "a/b/c@0.0.0", "ianmackenzie/elm-3d-scene@1.0.1"] {
        assert_eq!(PkgVersion::from_str(text).unwrap().to_string(), text);
    }
    let pv = PkgVersion { author_pkg: Pkg::new("w0rm", "elm-physics"), version: SemVer::new(5, 1, 1) };
    let back = PkgVersion::from_str(&pv.to_string()).unwrap();
    assert_eq!(back.author_pkg, pv.author_pkg);
    assert_eq!(back.version, pv.version);
    assert_eq!(pv.clone().to_string(), "w0rm/elm-physics@5.1.1");
}

#[test]
fn pkg_version_text_with_leading_zeros_is_not_written_back_as_it_was() {
    assert_eq!(PkgVersion::from_str("elm/core@1.02.0").unwrap().to_string(), "elm/core@1.2.0");
}

#[test]
fn pkg_version_without_at_is_refused() {
    assert_eq!(
        PkgVersion::from_str("elm/core").err(),
        Some(PkgVersionParseError::NoVersionSeparator("elm/core".to_string()))
    );
}

#[test]
fn pkg_version_with_bad_package_is_refused() {
    assert_eq!(
        PkgVersion::from_str("elmcore@1.0.0").err(),
        Some(PkgVersionParseError::PkgParseError(PkgParseError::NoAuthorSeparator(
            "elmcore".to_string()
        )))
    );
    assert_eq!(
        PkgVersion::from_str("elmcore@1.0").err(),
        Some(PkgVersionParseError::PkgParseError(PkgParseError::NoAuthorSeparator(
            "elmcore".to_string()
        )))
    );
}

#[test]
fn pkg_version_with_bad_version_is_refused() {
    assert_eq!(
        PkgVersion::from_str("elm/core@1.0").err(),
        Some(PkgVersionParseError::VersionParseError(VersionParseError::NotThreeParts {
            full_version: "1.0".to_string()
        }))
    );
    assert_eq!(
        PkgVersion::from_str("elm/core@1.0@2.0").err(),
        Some(PkgVersionParseError::VersionParseError(VersionParseError::ParseIntError {
            full_version: "1.0@2.0".to_string(),
            version_part: "0@2".to_string(),
            parse_error: "invalid digit found in string".to_string(),
        }))
    );
}

#[test]
fn pkg_version_paths_follow_the_layout() {
    let pv = PkgVersion { author_pkg: Pkg::new("elm", "core"), version: SemVer::new(1, 0, 5) };
    assert_eq!(
        pv.config_path("/home/u/.elm", "0.19.1"),
        "/home/u/.elm/0.19.1/packages/elm/core/1.0.5/manifest"
    );
    assert_eq!(
        pv.pubgrub_cache_dir("/home/u/.elm"),
        "/home/u/.elm/pubgrub/elm_json_cache/elm/core/1.0.5"
    );
    assert_eq!(
        pv.pubgrub_cache_file("/home/u/.elm"),
        "/home/u/.elm/pubgrub/elm_json_cache/elm/core/1.0.5/manifest"
    );
    assert_eq!(
        pv.to_url("https://package.elm-lang.org"),
        "https://package.elm-lang.org/packages/elm/core/1.0.5/manifest"
    );
}

fn config_named(name: &str) -> PackageConfig {
    PackageConfig {
        name: Pkg::from_str(name).unwrap(),
        summary: "".to_string(),
        license: "".to_string(),
        version: SemVer::new(1, 0, 5),
        elm_version: Constraint::from_str("0.19.0 <= v < 0.20.0").unwrap(),
        exposed_modules: ExposedModules::NoCategory(vec![]),
        dependencies: vec![],
        test_dependencies: vec![],
    }
}

#[test]
fn fetch_config_asks_the_server_once_and_keeps_the_answer() {
    let pv = PkgVersion { author_pkg: Pkg::new("elm", "core"), version: SemVer::new(1, 0, 5) };
    let asked = std::cell::RefCell::new(Vec::new());
    let fetch = |url: &str| -> Result<String, String> {
        asked.borrow_mut().push(url.to_string());
        Ok("{ \"type\": \"package\" }".to_string())
    };
    let kept = std::cell::RefCell::new(Vec::new());
    let write = |dir: &str, file: &str, text: &str| -> Result<(), String> {
        kept.borrow_mut().push((dir.to_string(), file.to_string(), text.to_string()));
        Ok(())
    };
    let decode = |text: &str| -> Result<PackageConfig, PkgVersionError> {
        assert_eq!(text, "{ \"type\": \"package\" }");
        Ok(config_named("elm/core"))
    };
    let config = pv.fetch_config("/home/.elm", "https://remote", &fetch, &write, &decode).unwrap();
    assert_eq!(config.name, Pkg::new("elm", "core"));
    assert_eq!(*asked.borrow(), vec!["https://remote/packages/elm/core/1.0.5/manifest".to_string()]);
    assert_eq!(
        *kept.borrow(),
        vec![(
            "/home/.elm/pubgrub/elm_json_cache/elm/core/1.0.5".to_string(),
            "/home/.elm/pubgrub/elm_json_cache/elm/core/1.0.5/manifest".to_string(),
            "{ \"type\": \"package\" }".to_string()
        )]
    );
}

#[test]
fn fetch_config_goes_on_when_the_answer_cannot_be_kept() {
    let pv = PkgVersion { author_pkg: Pkg::new("elm", "core"), version: SemVer::new(1, 0, 5) };
    let asked = std::cell::Cell::new(0);
    let fetch = |_: &str| -> Result<String, String> {
        asked.set(asked.get() + 1);
        Ok("the manifest".to_string())
    };
    let write = |_: &str, _: &str, _: &str| -> Result<(), String> {
        Err("read-only file system".to_string())
    };
    let decode =
        |_: &str| -> Result<PackageConfig, PkgVersionError> { Ok(config_named("elm/core")) };
    let config = pv.fetch_config("/home/.elm", "https://remote", &fetch, &write, &decode).unwrap();
    assert_eq!(config.name, Pkg::new("elm", "core"));
    assert_eq!(asked.get(), 1);
    let broken = |_: &str| -> Result<PackageConfig, PkgVersionError> {
        Err(PkgVersionError::JsonError("not a manifest".to_string()))
    };
    let ok = |_: &str, _: &str, _: &str| -> Result<(), String> { Ok(()) };
    match pv.fetch_config("/home/.elm", "https://remote", &fetch, &ok, &broken) {
        Err(PkgVersionError::JsonError(cause)) => assert_eq!(cause, "not a manifest"),
        other => panic!("unexpected {:?}", other),
    }
}

#[test]
fn fetch_config_reports_a_failed_request_with_its_address() {
    let pv = PkgVersion { author_pkg: Pkg::new("elm", "core"), version: SemVer::new(1, 0, 5) };
    let fetch = |_: &str| -> Result<String, String> { Err("no route".to_string()) };
    let write = |_: &str, _: &str, _: &str| -> Result<(), String> { panic!("nothing to keep") };
    let decode =
        |_: &str| -> Result<PackageConfig, PkgVersionError> { panic!("nothing to decode") };
    match pv.fetch_config("/home/.elm", "https://remote", &fetch, &write, &decode) {
        Err(PkgVersionError::FetchError { url, source }) => {
            assert_eq!(url, "https://remote/packages/elm/core/1.0.5/manifest");
            assert_eq!(source, "no route");
        }
        other => panic!("unexpected {:?}", other),
    }
}

#[test]
fn find_config_looks_in_three_places_in_turn() {
    let pv = PkgVersion { author_pkg: Pkg::new("elm", "core"), version: SemVer::new(1, 0, 5) };
    let read_paths = std::cell::RefCell::new(Vec::new());
    let read = |path: &str| -> Result<PackageConfig, PkgVersionError> {
        read_paths.borrow_mut().push(path.to_string());
        Err(PkgVersionError::FileIoError("no file".to_string()))
    };
    let fetch = |_: &str| -> Result<String, String> { Ok("the manifest".to_string()) };
    let write = |_: &str, _: &str, _: &str| -> Result<(), String> { Err("full".to_string()) };
    let decode =
        |_: &str| -> Result<PackageConfig, PkgVersionError> { Ok(config_named("elm/core")) };
    let config = pv
        .find_config("/home/.elm", "0.19.1", "https://remote", &fetch, &read, &write, &decode)
        .unwrap();
    assert_eq!(config.name, Pkg::new("elm", "core"));
    assert_eq!(
        *read_paths.borrow(),
        vec![
            "/home/.elm/0.19.1/packages/elm/core/1.0.5/manifest".to_string(),
            "/home/.elm/pubgrub/elm_json_cache/elm/core/1.0.5/manifest".to_string()
        ]
    );
    let installed = |path: &str| -> Result<PackageConfig, PkgVersionError> {
        assert_eq!(path, "/home/.elm/0.19.1/packages/elm/core/1.0.5/manifest");
        Ok(config_named("elm/installed"))
    };
    let no_fetch = |_: &str| -> Result<String, String> { panic!("nothing is fetched") };
    let found = pv
        .find_config("/home/.elm", "0.19.1", "https://remote", &no_fetch, &installed, &write, &decode)
        .unwrap();
    assert_eq!(found.name, Pkg::new("elm", "installed"));
    assert_eq!(pv.load_config("/home/.elm", "0.19.1", &installed).unwrap().name, Pkg::new("elm", "installed"));
    let cached = |path: &str| -> Result<PackageConfig, PkgVersionError> {
        assert_eq!(path, "/home/.elm/pubgrub/elm_json_cache/elm/core/1.0.5/manifest");
        Ok(config_named("elm/cached"))
    };
    assert_eq!(pv.load_from_cache("/home/.elm", &cached).unwrap().name, Pkg::new("elm", "cached"));
}
