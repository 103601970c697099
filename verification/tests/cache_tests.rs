use elm_solve_deps::pkg_version::{
    Cache, CacheError, PkgVersionError, PkgVersionParseError, SinceOutcome,
};
use elm_solve_deps::project_config::Pkg;
use elm_solve_deps::version::SemVer;
use std::cell::RefCell;

fn v(major: u32, minor: u32, patch: u32) -> SemVer {
    SemVer::new(major, minor, patch)
}

fn lib_core() -> Pkg {
    Pkg::new("lib", "core")
}

fn lib_http() -> Pkg {
    Pkg::new("lib", "http")
}

fn cache_with(entries: &[(&str, &str, (u32, u32, u32))]) -> Cache {
    let mut c = Cache::new();
    for (author, pkg, (a, b, d)) in entries {
        c.insert(Pkg::new(author, pkg), v(*a, *b, *d));
    }
    c
}

const ALL: &str = r#"{ "lib/core": ["1.0.0", "1.0.5"], "lib/http": ["2.0.0"], "lib/empty": [] }"#;

#[test]
fn new_cache_is_empty() {
    let c = Cache::new();
    assert_eq!(c.count(), 0);
    assert!(c.get(&lib_core()).is_none());
    assert!(!c.contains(&lib_core(), v(1, 0, 0)));
    assert_eq!(Cache::default().count(), 0);
}

#[test]
fn insert_keeps_versions_in_ascending_order_without_duplicates() {
    let mut c = Cache::new();
    c.insert(lib_core(), v(1, 0, 5));
    c.insert(lib_core(), v(1, 0, 0));
    c.insert(lib_http(), v(2, 0, 0));
    c.insert(lib_core(), v(1, 0, 5));
    c.insert(lib_core(), v(1, 0, 2));
    assert_eq!(c.get(&lib_core()), Some(&vec![v(1, 0, 0), v(1, 0, 2), v(1, 0, 5)]));
    assert_eq!(c.get(&lib_http()), Some(&vec![v(2, 0, 0)]));
    assert_eq!(c.count(), 4);
    assert!(c.contains(&lib_core(), v(1, 0, 2)));
    assert!(!c.contains(&lib_core(), v(2, 0, 0)));
    assert!(!c.contains(&Pkg::new("lib", "json"), v(1, 0, 0)));
    assert_eq!(c.position(&lib_http()), Some(1));
    c.insert(Pkg::new("a", "z"), v(1, 0, 0));
    c.insert(Pkg::new("lib", "bytes"), v(1, 0, 8));
    c.insert(Pkg::new("lib-x", "a"), v(1, 0, 0));
    let names: Vec<String> = c.cache.iter().map(|(p, _)| p.to_string()).collect();
    assert_eq!(names, vec!["a/z", "lib/bytes", "lib/core", "lib/http", "lib-x/a"]);
    assert_eq!(c.position(&Pkg::new("lib", "json")), None);
}

#[test]
fn entries_stand_in_the_order_of_the_packages() {
    let mut c = Cache::new();
    let mut expected = std::collections::BTreeMap::new();
    for (author, pkg) in [("lib", "http"), ("elm", "core"), ("lib", "core"), ("a", ""), ("", "a"), ("lib-x", "y"), ("lib", "co"), ("élan", "x"), ("elm", "core")] {
        c.insert(Pkg::new(author, pkg), v(1, 0, 0));
        expected.insert(Pkg::new(author, pkg), v(1, 0, 0));
    }
    let keys: Vec<Pkg> = c.cache.iter().map(|(p, _)| p.clone()).collect();
    let sorted: Vec<Pkg> = expected.keys().cloned().collect();
    assert_eq!(keys, sorted);
    for a in &keys {
        for b in &keys {
            assert_eq!(a.lt(b), a < b);
        }
    }
}

#[test]
fn register_adds_a_package_without_versions() {
    let mut c = Cache::new();
    c.register(lib_core());
    c.register(lib_core());
    assert_eq!(c.get(&lib_core()), Some(&vec![]));
    assert_eq!(c.count(), 0);
    assert_eq!(c.cache.len(), 1);
}

#[test]
fn store_records_a_package_with_its_versions() {
    let mut c = Cache::new();
    c.store(lib_core(), vec![v(1, 0, 0), v(1, 0, 5)]);
    assert_eq!(c.get(&lib_core()), Some(&vec![v(1, 0, 0), v(1, 0, 5)]));
}

#[test]
fn cache_file_is_under_the_solver_folder() {
    assert_eq!(Cache::file_path("/home/u/.elm"), "/home/u/.elm/pubgrub/versions_cache.json");
}

#[test]
fn load_reads_a_map_of_packages_to_versions() {
    let c = Cache::load(ALL).unwrap();
    assert_eq!(c.get(&lib_core()), Some(&vec![v(1, 0, 0), v(1, 0, 5)]));
    assert_eq!(c.get(&lib_http()), Some(&vec![v(2, 0, 0)]));
    assert_eq!(c.get(&Pkg::new("lib", "empty")), Some(&vec![]));
    assert_eq!(c.count(), 3);
}

#[test]
fn load_refuses_what_is_no_map_of_packages_to_versions() {
    assert!(matches!(Cache::load("[1, 2]"), Err(CacheError::JsonError(_))));
    assert!(matches!(Cache::load("not json"), Err(CacheError::JsonError(_))));
    assert!(matches!(
        Cache::load(r#"{ "libcore": ["1.0.0"] }"#),
        Err(CacheError::JsonError(_))
    ));
    assert!(matches!(
        Cache::load(r#"{ "lib/core": ["1.0"] }"#),
        Err(CacheError::JsonError(_))
    ));
}

#[test]
fn save_lists_packages_and_versions_as_texts() {
    let c = cache_with(&[("lib", "core", (1, 0, 5)), ("lib", "core", (1, 0, 0)), ("lib", "http", (2, 0, 0))]);
    assert_eq!(
        c.save(),
        vec![
            ("lib/core".to_string(), vec!["1.0.0".to_string(), "1.0.5".to_string()]),
            ("lib/http".to_string(), vec!["2.0.0".to_string()]),
        ]
    );
    let again = Cache::from_listing(&c.save()).unwrap();
    assert_eq!(again.cache, c.cache);
}

#[test]
fn installed_versions_are_the_folder_names_that_are_versions() {
    let names = vec![
        "1.0.5".to_string(),
        "docs".to_string(),
        "1.0.0".to_string(),
        "1.0".to_string(),
        "2.0.0".to_string(),
        "1.0.5".to_string(),
    ];
    assert_eq!(
        Cache::list_installed_versions(&names),
        vec![v(1, 0, 0), v(1, 0, 5), v(2, 0, 0)]
    );
    assert_eq!(Cache::list_installed_versions(&vec![]), Vec::<SemVer>::new());
}

#[test]
fn update_of_an_empty_cache_fetches_all_packages() {
    let asked = RefCell::new(Vec::new());
    let fetch = |url: &str| -> Result<String, String> {
        asked.borrow_mut().push(url.to_string());
        Ok(ALL.to_string())
    };
    let mut c = Cache::new();
    c.update("https://remote", &fetch).unwrap();
    assert_eq!(*asked.borrow(), vec!["https://remote/all-packages".to_string()]);
    assert_eq!(c.count(), 3);
    assert!(c.contains(&lib_core(), v(1, 0, 5)));
}

#[test]
fn update_of_a_cache_without_versions_fetches_all_packages() {
    let asked = RefCell::new(Vec::new());
    let fetch = |url: &str| -> Result<String, String> {
        asked.borrow_mut().push(url.to_string());
        Ok(ALL.to_string())
    };
    let mut c = Cache::new();
    c.register(Pkg::new("lib", "gone"));
    c.update("https://remote", &fetch).unwrap();
    assert_eq!(*asked.borrow(), vec!["https://remote/all-packages".to_string()]);
    assert!(c.get(&Pkg::new("lib", "gone")).is_none());
}

#[test]
fn update_asks_for_the_versions_since_the_last_known() {
    let asked = RefCell::new(Vec::new());
    let fetch = |url: &str| -> Result<String, String> {
        asked.borrow_mut().push(url.to_string());
        Ok(r#"["lib/http@2.0.0", "lib/core@1.0.5", "lib/core@1.0.0"]"#.to_string())
    };
    let mut c = cache_with(&[("lib", "core", (1, 0, 0))]);
    c.update("https://remote", &fetch).unwrap();
    assert_eq!(*asked.borrow(), vec!["https://remote/all-packages/since/0".to_string()]);
    assert_eq!(c.get(&lib_core()), Some(&vec![v(1, 0, 0), v(1, 0, 5)]));
    assert_eq!(c.get(&lib_http()), Some(&vec![v(2, 0, 0)]));
}

#[test]
fn update_counts_all_known_versions_for_the_address() {
    let asked = RefCell::new(Vec::new());
    let fetch = |url: &str| -> Result<String, String> {
        asked.borrow_mut().push(url.to_string());
        Ok(r#"["lib/http@2.0.0"]"#.to_string())
    };
    let mut c = cache_with(&[
        ("lib", "core", (1, 0, 0)),
        ("lib", "core", (1, 0, 5)),
        ("lib", "http", (2, 0, 0)),
    ]);
    c.update("https://remote", &fetch).unwrap();
    assert_eq!(*asked.borrow(), vec!["https://remote/all-packages/since/2".to_string()]);
    assert_eq!(c.count(), 3);
}

#[test]
fn update_fetches_all_packages_after_an_empty_answer() {
    let asked = RefCell::new(Vec::new());
    let fetch = |url: &str| -> Result<String, String> {
        asked.borrow_mut().push(url.to_string());
        if url.ends_with("/all-packages") {
            Ok(ALL.to_string())
        } else {
            Ok("[]".to_string())
        }
    };
    let mut c = cache_with(&[("lib", "old", (1, 0, 0)), ("lib", "old", (1, 0, 1))]);
    c.update("https://remote", &fetch).unwrap();
    assert_eq!(
        *asked.borrow(),
        vec![
            "https://remote/all-packages/since/1".to_string(),
            "https://remote/all-packages".to_string()
        ]
    );
    assert!(c.get(&Pkg::new("lib", "old")).is_none());
    assert_eq!(c.count(), 3);
}

#[test]
fn update_fetches_all_packages_when_the_oldest_entry_is_not_known() {
    let fetch = |url: &str| -> Result<String, String> {
        if url.ends_with("/all-packages") {
            Ok(ALL.to_string())
        } else {
            Ok(r#"["lib/http@2.0.0", "lib/core@1.0.5"]"#.to_string())
        }
    };
    let mut c = cache_with(&[("lib", "core", (1, 0, 0))]);
    c.update("https://remote", &fetch).unwrap();
    assert_eq!(c.count(), 3);
    assert!(c.get(&Pkg::new("lib", "empty")).is_some());
}

#[test]
fn update_reports_a_failed_request_and_changes_nothing() {
    let fetch = |_: &str| -> Result<String, String> { Err("offline".to_string()) };
    let mut c = cache_with(&[("lib", "core", (1, 0, 0))]);
    match c.update("https://remote", &fetch) {
        Err(CacheError::FetchError { url, source }) => {
            assert_eq!(url, "https://remote/all-packages/since/0");
            assert_eq!(source, "offline");
        }
        other => panic!("unexpected {:?}", other),
    }
    assert_eq!(c.get(&lib_core()), Some(&vec![v(1, 0, 0)]));
    let mut empty = Cache::new();
    match empty.update("https://remote", &fetch) {
        Err(CacheError::FetchError { url, source }) => {
            assert_eq!(url, "https://remote/all-packages");
            assert_eq!(source, "offline");
        }
        other => panic!("unexpected {:?}", other),
    }
}

#[test]
fn update_reports_an_answer_that_is_no_list() {
    let fetch = |_: &str| -> Result<String, String> { Ok("<html>".to_string()) };
    let mut c = cache_with(&[("lib", "core", (1, 0, 0))]);
    match c.update("https://remote", &fetch) {
        Err(CacheError::FetchError { url, source }) => {
            assert_eq!(url, "https://remote/all-packages/since/0");
            assert_eq!(source, "Got an unexpected response: <html>");
        }
        other => panic!("unexpected {:?}", other),
    }
}

#[test]
fn update_reports_all_packages_that_cannot_be_read() {
    let fetch = |_: &str| -> Result<String, String> { Ok("[]".to_string()) };
    let mut c = Cache::new();
    assert!(matches!(c.update("https://remote", &fetch), Err(CacheError::JsonError(_))));
    assert_eq!(c.count(), 0);
}

#[test]
fn apply_since_records_the_entries_before_the_last() {
    let mut c = cache_with(&[("lib", "core", (1, 0, 0))]);
    let r = c.apply_since("u", r#"["lib/http@2.0.0", "lib/core@1.0.5", "lib/core@1.0.0"]"#);
    assert!(matches!(r, Ok(SinceOutcome::Recorded)));
    assert_eq!(c.count(), 3);
}

#[test]
fn apply_since_tells_when_the_answer_is_stale() {
    let mut c = cache_with(&[("lib", "core", (1, 0, 0))]);
    assert!(matches!(c.apply_since("u", "[]"), Ok(SinceOutcome::Stale)));
    assert!(matches!(
        c.apply_since("u", r#"["lib/core@1.0.5", "lib/core@1.0.1"]"#),
        Ok(SinceOutcome::Stale)
    ));
    assert_eq!(c.count(), 1);
}

#[test]
fn apply_since_reports_an_entry_that_is_no_package_version() {
    let mut c = cache_with(&[("lib", "core", (1, 0, 0))]);
    match c.apply_since("u", r#"["lib/http@2.0.0", "lib/core"]"#) {
        Err(CacheError::PkgVersionFromStrError(PkgVersionError::ParseError(e))) => {
            assert_eq!(e, PkgVersionParseError::NoVersionSeparator("lib/core".to_string()));
        }
        other => panic!("unexpected {:?}", other),
    }
    assert_eq!(c.count(), 1);
    match c.apply_since("u", r#"["lib/http@2.0.0", "oops", "lib/json@1.0.0", "lib/core@1.0.0"]"#) {
        Err(CacheError::PkgVersionFromStrError(PkgVersionError::ParseError(e))) => {
            assert_eq!(e, PkgVersionParseError::NoVersionSeparator("oops".to_string()));
        }
        other => panic!("unexpected {:?}", other),
    }
    assert!(c.contains(&lib_http(), v(2, 0, 0)));
    assert!(!c.contains(&Pkg::new("lib", "json"), v(1, 0, 0)));
}
