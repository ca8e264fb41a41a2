use class_finder::buffer::{BufferConfig, WriteBuffer};
use class_finder::cache::PersistentCache;
use class_finder::commands::{
    index_repo, load_jar, warmup_targets, CommandError, WarmupParams,
};
use class_finder::find::{find_version, source_key};
use class_finder::hotspot::HotspotTracker;
use class_finder::registry::ClassRegistry;

const DUMP_A: &str = "/*\n * Decompiled with CFR 0.152.\n */\npackage org.example.pkg;\n\npublic class A {\n}\n/*\n * Decompiled with CFR 0.152.\n */\npackage org.example.pkg;\n\npublic class B {\n}\n";

#[test]
fn phase2_three_layer_flow_works() {
    let jar = "/m2/org/example/demo/1.0/demo-1.0.jar";
    let classes = vec!["org.example.pkg.A".to_string(), "org.example.pkg.B".to_string()];
    let mut cache = PersistentCache::open("db".to_string());
    let registry = ClassRegistry::new();
    let hotspot = HotspotTracker::new(2);

    let mut buffer = WriteBuffer::new(BufferConfig::default());
    let load = load_jar(&mut cache, &registry, &mut buffer, jar, Some(&classes), Some(DUMP_A))
        .unwrap();
    buffer.shutdown_and_flush(&mut cache);
    assert!(!load.skipped);
    assert_eq!(load.classes_loaded, 2);
    assert_eq!(load.jar_path, jar);
    cache.mark_jar_loaded(&load.jar_path);
    hotspot.mark_warmed(&mut cache, &load.jar_path, load.classes_loaded as u32);

    let stats = cache.stats(0);
    assert!(stats.source_entries >= 2);
    assert!(stats.cataloged_jars >= 1);
    assert!(stats.loaded_jars >= 1);
    assert_eq!(stats.warmed_jars, 1);

    let mut buffer = WriteBuffer::new(BufferConfig::default());
    let again = load_jar(&mut cache, &registry, &mut buffer, jar, None, None).unwrap();
    assert!(again.skipped);
    assert_eq!(again.classes_loaded, 0);
    assert_eq!(buffer.pending_count(), 0);

    let cached = cache.get_class_source(&source_key("org.example.pkg.A", jar));
    let found = find_version("org.example.pkg.A", jar, cached, None, "scan").unwrap();
    assert!(found.cache_hit);
    assert_eq!(found.source, "cache");
    assert!(found.content.contains("public class A"));
    assert_eq!(registry.get_artifacts(&cache, "org.example.pkg.B"), vec![jar]);
}

#[test]
fn load_jar_without_dump_fails_but_still_catalogs() {
    let mut cache = PersistentCache::open("db".to_string());
    let registry = ClassRegistry::new();
    let mut buffer = WriteBuffer::new(BufferConfig::default());
    let classes = vec!["p.A".to_string()];
    let r = load_jar(&mut cache, &registry, &mut buffer, "x.jar", Some(&classes), None);
    assert_eq!(r.unwrap_err(), CommandError::NoDump);
    assert!(registry.is_cataloged(&cache, "x.jar"));
    assert_eq!(buffer.pending_count(), 0);
    assert!(!CommandError::NoDump.message().is_empty());
}

#[test]
fn load_jar_keeps_metadata_classes() {
    let mut cache = PersistentCache::open("db".to_string());
    let registry = ClassRegistry::new();
    let mut buffer = WriteBuffer::new(BufferConfig::default());
    let dump = "/*\n * Decompiled with CFR 0.152.\n */\npackage p;\ninterface package-info {}\n";
    let r = load_jar(&mut cache, &registry, &mut buffer, "x.jar", None, Some(dump)).unwrap();
    assert_eq!(r.classes_loaded, 1);
    assert!(!registry.is_cataloged(&cache, "x.jar"));
    buffer.shutdown_and_flush(&mut cache);
    assert!(cache.get_class_source("p.package-info::x.jar").is_some());
}

#[test]
fn index_repo_passes_over_cataloged_artifacts() {
    let mut cache = PersistentCache::open("db".to_string());
    let registry = ClassRegistry::new();
    registry.update_registry_and_mark_cataloged(&mut cache, "/r/old.jar", &vec!["p.Old".to_string()]);
    let jars = vec![
        ("/r/old.jar".to_string(), Some(vec!["p.New".to_string()])),
        ("/r/a.jar".to_string(), Some(vec!["p.A".to_string(), "p.B".to_string()])),
        ("/r/bad.jar".to_string(), None),
        ("/r/a.jar".to_string(), Some(vec!["p.C".to_string()])),
    ];
    let r = index_repo(&mut cache, &registry, "/r", &jars);
    assert_eq!(r.root, "/r");
    assert_eq!(r.scanned_jars, 4);
    assert_eq!(r.cataloged_jars_new, 1);
    assert_eq!(r.indexed_classes, 2);
    assert_eq!(r.failed_jars, 1);
    assert!(registry.get_artifacts(&cache, "p.New").is_empty());
    assert!(registry.get_artifacts(&cache, "p.C").is_empty());
    assert_eq!(registry.get_artifacts(&cache, "p.A"), vec!["/r/a.jar"]);
}

#[test]
fn warmup_targets_chooses_by_the_parameters() {
    let mut cache = PersistentCache::open("db".to_string());
    let hotspot = HotspotTracker::new(5);
    hotspot.record_access_at(&mut cache, "hot1.jar", 1);
    hotspot.record_access_at(&mut cache, "hot2.jar", 2);
    hotspot.record_access_at(&mut cache, "hot2.jar", 3);
    let group = vec!["g1.jar".to_string(), "g2.jar".to_string(), "g3.jar".to_string()];
    let base = WarmupParams {
        jar_path: Some("one.jar".to_string()),
        hot: false,
        group: None,
        top: 20,
        limit: None,
    };
    assert_eq!(warmup_targets(&cache, &hotspot, &base, &group).unwrap(), vec!["one.jar"]);
    let by_group = WarmupParams {
        group: Some("org.example".to_string()),
        limit: Some(2),
        ..base.clone()
    };
    assert_eq!(
        warmup_targets(&cache, &hotspot, &by_group, &group).unwrap(),
        vec!["g1.jar", "g2.jar"]
    );
    let hot = WarmupParams {
        hot: true,
        limit: Some(5),
        ..by_group.clone()
    };
    assert_eq!(
        warmup_targets(&cache, &hotspot, &hot, &group).unwrap(),
        vec!["hot2.jar", "hot1.jar"]
    );
    let nothing = WarmupParams {
        jar_path: None,
        hot: false,
        group: None,
        top: 20,
        limit: Some(0),
    };
    assert_eq!(
        warmup_targets(&cache, &hotspot, &nothing, &group),
        Err(CommandError::NoTarget)
    );
    let none_of_one = WarmupParams {
        limit: Some(0),
        ..base
    };
    assert!(warmup_targets(&cache, &hotspot, &none_of_one, &group).unwrap().is_empty());
}
