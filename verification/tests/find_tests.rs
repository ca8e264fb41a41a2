use class_finder::find::{choose_default_version, source_key, FindError, FindVersion};

#[test]
fn choose_default_version_prefers_latest_entry_with_version() {
    let versions = vec![
        FindVersion {
            version: None,
            jar_path: "a.jar".to_string(),
            content_hash: "h1".to_string(),
            content: "A".to_string(),
            cache_hit: true,
            source: "cache".to_string(),
            structure: None,
        },
        FindVersion {
            version: Some("1.0.0".to_string()),
            jar_path: "b.jar".to_string(),
            content_hash: "h2".to_string(),
            content: "B".to_string(),
            cache_hit: false,
            source: "scan".to_string(),
            structure: None,
        },
        FindVersion {
            version: Some("1.1.0".to_string()),
            jar_path: "c.jar".to_string(),
            content_hash: "h3".to_string(),
            content: "C".to_string(),
            cache_hit: false,
            source: "registry".to_string(),
            structure: None,
        },
    ];

    let picked = choose_default_version(&versions).unwrap();
    assert_eq!(picked.version.as_deref(), Some("1.1.0"));
    assert_eq!(picked.jar_path, "c.jar");
}

#[test]
fn choose_default_version_fails_when_empty() {
    let err = choose_default_version(&Vec::new()).unwrap_err().message();
    assert!(err.contains("No available decompiled result"));
    assert_eq!(choose_default_version(&Vec::new()).unwrap_err(), FindError::NoVersion);
}

#[test]
fn choose_default_version_falls_back_to_the_first() {
    let plain = |jar: &str, version: Option<&str>| FindVersion {
        version: version.map(|s| s.to_string()),
        jar_path: jar.to_string(),
        content_hash: String::new(),
        content: String::new(),
        cache_hit: false,
        source: "scan".to_string(),
        structure: None,
    };
    let none = vec![plain("a.jar", None), plain("b.jar", None)];
    assert_eq!(choose_default_version(&none).unwrap().jar_path, "a.jar");
    let middle = vec![plain("a.jar", None), plain("b.jar", Some("2")), plain("c.jar", None)];
    assert_eq!(choose_default_version(&middle).unwrap().jar_path, "b.jar");
}

#[test]
fn source_key_joins_class_and_artifact() {
    assert_eq!(source_key("a.A", "/m2/x.jar"), "a.A::/m2/x.jar");
}

use class_finder::find::{
    backfill_targets, best_match, find_result, find_version, group_by_fqn, keep_version,
    next_scan_root, not_found_message, require_match, resolve_content, sort_by_version,
};
use class_finder::parse::hash_content;
use class_finder::parse::parse_decompiled_output;

fn strings(items: &[&str]) -> Vec<String> {
    items.iter().map(|s| s.to_string()).collect()
}

#[test]
fn keep_version_filters_by_directory() {
    let jars = strings(&["/m/a/1.0/a-1.0.jar", "/m/a/2.0/a-2.0.jar", "/m/a/1.0/a-1.0-sources.jar", "x.jar"]);
    assert_eq!(
        keep_version(&jars, "1.0"),
        strings(&["/m/a/1.0/a-1.0.jar", "/m/a/1.0/a-1.0-sources.jar"])
    );
    assert!(keep_version(&jars, "3.0").is_empty());
}

#[test]
fn sort_by_version_is_stable_and_puts_unversioned_first() {
    let jars = strings(&[
        "/m/a/2.0/b.jar",
        "/m/a/1.10/a.jar",
        "x.jar",
        "/m/a/2.0/a.jar",
        "/m/a/1.9/a.jar",
        "/y.jar",
    ]);
    assert_eq!(
        sort_by_version(&jars),
        strings(&[
            "x.jar",
            "/y.jar",
            "/m/a/1.10/a.jar",
            "/m/a/1.9/a.jar",
            "/m/a/2.0/b.jar",
            "/m/a/2.0/a.jar",
        ])
    );
    assert!(sort_by_version(&Vec::new()).is_empty());
}

#[test]
fn best_match_prefers_more_artifacts_then_the_later_name() {
    let found = vec![
        ("a.C".to_string(), "1.jar".to_string()),
        ("b.C".to_string(), "2.jar".to_string()),
        ("a.C".to_string(), "3.jar".to_string()),
        ("c.C".to_string(), "4.jar".to_string()),
        ("c.C".to_string(), "5.jar".to_string()),
    ];
    let groups = group_by_fqn(&found);
    assert_eq!(groups.len(), 3);
    let best = best_match(&groups).unwrap();
    assert_eq!(groups.key_at(best), "c.C");
    assert_eq!(groups.value_at(best), &strings(&["4.jar", "5.jar"]));
    assert_eq!(groups.get("a.C"), Some(&strings(&["1.jar", "3.jar"])));
    assert!(best_match(&group_by_fqn(&Vec::new())).is_none());
}

#[test]
fn backfill_targets_lists_missed_artifacts_once() {
    let v = |jar: &str, hit: bool| FindVersion {
        version: None,
        jar_path: jar.to_string(),
        content_hash: String::new(),
        content: String::new(),
        cache_hit: hit,
        source: String::new(),
        structure: None,
    };
    let versions = vec![v("a.jar", false), v("b.jar", true), v("a.jar", false), v("c.jar", false)];
    assert_eq!(backfill_targets(&versions), strings(&["a.jar", "c.jar"]));
    assert!(backfill_targets(&vec![v("b.jar", true)]).is_empty());
}

#[test]
fn resolve_content_picks_the_class_or_the_whole_dump() {
    let dump = "/*\n * Decompiled with CFR 0.152.\n */\npackage p;\nclass A {}\n/*\n * Decompiled with CFR 0.152.\n */\npackage p;\nclass B {}\n";
    let parsed = parse_decompiled_output(dump);
    assert_eq!(
        resolve_content(&parsed, "p.B", dump),
        "/*\n * Decompiled with CFR 0.152.\n */\npackage p;\nclass B {}"
    );
    assert_eq!(resolve_content(&parsed, "p.C", dump), dump);
}

#[test]
fn next_scan_root_walks_the_search_paths_then_the_repository() {
    let paths = strings(&["/m2/a/b", "/m2/a"]);
    assert_eq!(next_scan_root(&paths, "/m2", 0).as_deref(), Some("/m2/a/b"));
    assert_eq!(next_scan_root(&paths, "/m2", 1).as_deref(), Some("/m2/a"));
    assert_eq!(next_scan_root(&paths, "/m2", 2).as_deref(), Some("/m2"));
    assert_eq!(next_scan_root(&paths, "/m2", 3), None);
    let only_repo = strings(&["/m2"]);
    assert_eq!(next_scan_root(&only_repo, "/m2", 0).as_deref(), Some("/m2"));
    assert_eq!(next_scan_root(&only_repo, "/m2", 1), None);
    assert_eq!(next_scan_root(&Vec::new(), "/m2", 0).as_deref(), Some("/m2"));
}

#[test]
fn find_version_answers_from_the_cache_first() {
    let jar = "/m2/org/example/demo/1.0/demo-1.0.jar";
    let hit = find_version("p.A", jar, Some("class A {}".to_string()), Some("ignored"), "scan")
        .unwrap();
    assert!(hit.cache_hit);
    assert_eq!(hit.source, "cache");
    assert_eq!(hit.content, "class A {}");
    assert_eq!(hit.content_hash, hash_content("class A {}"));
    assert_eq!(hit.jar_path, jar);
    assert_eq!(hit.version.as_deref(), Some("1.0"));
    assert!(hit.structure.is_none());
}

#[test]
fn find_version_builds_a_miss_from_the_dump() {
    let dump = "/*\n * Decompiled with CFR 0.152.\n */\npackage p;\nclass A {}\n/*\n * Decompiled with CFR 0.152.\n */\npackage p;\nclass B {}\n";
    let miss = find_version("p.B", "x.jar", None, Some(dump), "registry").unwrap();
    assert!(!miss.cache_hit);
    assert_eq!(miss.source, "registry");
    assert_eq!(
        miss.content,
        "/*\n * Decompiled with CFR 0.152.\n */\npackage p;\nclass B {}"
    );
    assert_eq!(miss.content_hash, hash_content(&miss.content));
    assert_eq!(miss.version, None);
    let whole = find_version("p.C", "x.jar", None, Some(dump), "scan").unwrap();
    assert_eq!(whole.content, dump);
    assert!(find_version("p.A", "x.jar", None, None, "scan").is_none());
}

#[test]
fn a_lookup_without_a_match_is_an_error() {
    assert_eq!(require_match(&Vec::new()), Err(FindError::NotFound));
    assert_eq!(require_match(&strings(&["a.jar"])), Ok(()));
    assert_eq!(FindError::NotFound.message(), "Class not found");
    assert_eq!(
        not_found_message("p.A", "/m2"),
        "Class p.A not found (scan dir: /m2)"
    );
    let r = find_result("p.A".to_string(), "/m2".to_string(), 2, 7, Vec::new());
    assert_eq!(r.class_name, "p.A");
    assert_eq!(r.scanned_root, "/m2");
    assert_eq!(r.matched_jars, 2);
    assert_eq!(r.duration_ms, 7);
    assert!(r.versions.is_empty());
}
