use class_finder::cache::{PersistentCache, ReadOnlyCache};
use class_finder::hotspot::{HotspotTracker, JarHotspot};
use class_finder::registry::ClassRegistry;

#[test]
fn open_gives_an_empty_store() {
    let cache = PersistentCache::open("/data/db.lmdb".to_string());
    assert_eq!(cache.db_path(), "/data/db.lmdb");
    assert_eq!(cache.pending_gauge_path(), "/data/db.lmdb.pending");
    assert_eq!(cache.get_class_source("a.A::jar1"), None);
    assert!(!cache.is_jar_loaded("jar1"));
    let stats = cache.stats(0);
    assert_eq!(stats.db_path, "/data/db.lmdb");
    assert_eq!(stats.source_entries, 0);
    assert_eq!(stats.indexed_classes, 0);
    assert_eq!(stats.cataloged_jars, 0);
    assert_eq!(stats.loaded_jars, 0);
    assert_eq!(stats.hotspot_jars, 0);
    assert_eq!(stats.warmed_jars, 0);
    assert_eq!(stats.warmup_threshold, 2);
    assert_eq!(stats.warmup_pending_tasks, 0);
    assert!(stats.hotspot_top.is_empty());
}

#[test]
fn put_class_sources_overwrites_equal_keys() {
    let mut cache = PersistentCache::open("db".to_string());
    let entries = vec![
        ("a.A::jar1".to_string(), "one".to_string()),
        ("a.B::jar1".to_string(), "two".to_string()),
        ("a.A::jar1".to_string(), "three".to_string()),
    ];
    assert_eq!(cache.put_class_sources(&entries), 3);
    assert_eq!(cache.put_class_sources(&Vec::new()), 0);
    assert_eq!(cache.get_class_source("a.A::jar1").as_deref(), Some("three"));
    assert_eq!(cache.get_class_source("a.B::jar1").as_deref(), Some("two"));
    assert_eq!(cache.source_entries(), 2);
}

#[test]
fn load_markers_are_kept_per_artifact() {
    let mut cache = PersistentCache::open("db".to_string());
    cache.mark_jar_loaded("jar1");
    cache.mark_jar_loaded("jar1");
    assert!(cache.is_jar_loaded("jar1"));
    assert!(!cache.is_jar_loaded("jar2"));
    assert_eq!(cache.loaded_jars(), 1);
}

#[test]
fn mtimes_are_kept_per_artifact() {
    let mut cache = PersistentCache::open("db".to_string());
    assert_eq!(cache.mtime("jar1"), None);
    cache.put_mtime("jar1", 5);
    cache.put_mtime("jar1", 9);
    assert_eq!(cache.mtime("jar1"), Some(9));
}

#[test]
fn stats_counts_tables_and_lists_the_ten_most_used() {
    let mut cache = PersistentCache::open("db".to_string());
    let tracker = HotspotTracker::new(2);
    for i in 0..12u32 {
        tracker.put_hotspot(
            &mut cache,
            &format!("jar{:02}", i),
            &JarHotspot {
                access_count: i / 2,
                last_access: (i % 2) as u64,
                warmed: i % 3 == 0,
                class_count: 0,
            },
        );
    }
    ClassRegistry::new().update_registry_and_mark_cataloged(
        &mut cache,
        "jar00",
        &vec!["a.A".to_string(), "a.B".to_string()],
    );
    cache.mark_jar_loaded("jar00");
    cache.put_class_source("a.A::jar00".to_string(), "class A {}".to_string());

    let stats = cache.stats(4);
    assert_eq!(stats.source_entries, 1);
    assert_eq!(stats.indexed_classes, 2);
    assert_eq!(stats.cataloged_jars, 1);
    assert_eq!(stats.loaded_jars, 1);
    assert_eq!(stats.write_buffer_pending, 4);
    assert_eq!(stats.hotspot_jars, 12);
    assert_eq!(stats.warmed_jars, 4);
    let top: Vec<&str> = stats.hotspot_top.iter().map(|e| e.jar_path.as_str()).collect();
    assert_eq!(
        top,
        vec![
            "jar11", "jar10", "jar09", "jar08", "jar07", "jar06", "jar05", "jar04", "jar03",
            "jar02"
        ]
    );
    assert_eq!(stats.hotspot_top[0].access_count, 5);
    assert_eq!(stats.hotspot_top[0].last_access, 1);
    assert!(!stats.hotspot_top[0].warmed);
    assert!(stats.hotspot_top[2].warmed);
}

#[test]
fn stats_breaks_ties_by_path() {
    let mut cache = PersistentCache::open("db".to_string());
    let tracker = HotspotTracker::new(2);
    for jar in ["b.jar", "a.jar", "ab.jar", "a"] {
        tracker.put_hotspot(
            &mut cache,
            jar,
            &JarHotspot {
                access_count: 1,
                last_access: 1,
                warmed: false,
                class_count: 0,
            },
        );
    }
    let stats = cache.stats(0);
    let top: Vec<&str> = stats.hotspot_top.iter().map(|e| e.jar_path.as_str()).collect();
    assert_eq!(top, vec!["a", "a.jar", "ab.jar", "b.jar"]);
}

#[test]
fn clear_empties_every_table() {
    let mut cache = PersistentCache::open("db".to_string());
    cache.put_class_source("k".to_string(), "v".to_string());
    cache.mark_jar_loaded("a.jar");
    cache.mark_cataloged("a.jar");
    cache.put_mtime("a.jar", 1);
    cache.put_registry_entry("p.A".to_string(), vec!["a.jar".to_string()]);
    assert_eq!(cache.source_table().len(), 1);
    assert_eq!(cache.registry_table().len(), 1);
    assert_eq!(cache.loaded_table().len(), 1);
    assert_eq!(cache.cataloged_table().len(), 1);
    assert_eq!(cache.mtime_table().len(), 1);
    assert_eq!(cache.hotspot_table().len(), 0);
    assert!(cache.is_cataloged("a.jar"));
    assert_eq!(cache.registry_entry("p.A"), Some(&vec!["a.jar".to_string()]));
    cache.clear();
    assert_eq!(cache.db_path(), "db");
    assert_eq!(cache.get_class_source("k"), None);
    assert!(!cache.is_jar_loaded("a.jar"));
    assert!(!cache.is_cataloged("a.jar"));
    assert_eq!(cache.mtime("a.jar"), None);
    assert_eq!(cache.registry_entry("p.A"), None);
    assert_eq!(cache.stats(0).source_entries, 0);
}

#[test]
fn read_only_cache_reads_what_the_store_holds() {
    let mut cache = PersistentCache::open("db".to_string());
    cache.put_class_source("a.A::jar1".to_string(), "class A {}".to_string());
    let snapshot = ReadOnlyCache::of(cache);
    assert_eq!(
        snapshot.get_class_source("a.A::jar1").as_deref(),
        Some("class A {}")
    );
    assert_eq!(snapshot.get_class_source("a.B::jar1"), None);
    assert_eq!(snapshot.stats(3).source_entries, 1);
    assert_eq!(snapshot.stats(3).write_buffer_pending, 3);
    let empty = ReadOnlyCache::open("other".to_string());
    assert_eq!(empty.stats(0).db_path, "other");
    assert_eq!(empty.get_class_source("a.A::jar1"), None);
}
