use class_finder::cache::PersistentCache;
use class_finder::incremental::{IncrementalConfig, IncrementalIndexer};
use class_finder::registry::ClassRegistry;

#[test]
fn scan_changes_detects_new_and_modified_jars() {
    let mut cache = PersistentCache::open("incremental_changes".to_string());
    let indexer = IncrementalIndexer::new("/m2/repository".to_string());
    let jar = "/m2/repository/a.jar".to_string();

    let (_, changed1) = indexer.scan_changes(&mut cache, &vec![(jar.clone(), 1_000)]);
    assert_eq!(changed1.len(), 1);

    let (_, changed2) = indexer.scan_changes(&mut cache, &vec![(jar.clone(), 1_000)]);
    assert_eq!(changed2.len(), 0);

    let (_, changed3) = indexer.scan_changes(&mut cache, &vec![(jar.clone(), 1_002)]);
    assert_eq!(changed3.len(), 1);
}

#[test]
fn scan_changes_reports_in_order_and_records_every_time() {
    let mut cache = PersistentCache::open("db".to_string());
    let indexer = IncrementalIndexer::new("/r".to_string());
    assert_eq!(indexer.root(), "/r");
    cache.put_mtime("/r/b.jar", 50);
    cache.put_mtime("/r/c.jar", 50);
    let seen = vec![
        ("/r/a.jar".to_string(), 0),
        ("/r/b.jar".to_string(), 50),
        ("/r/c.jar".to_string(), 40),
        ("/r/d.jar".to_string(), 7),
        ("/r/b.jar".to_string(), 51),
    ];
    let (total, changed) = indexer.scan_changes(&mut cache, &seen);
    assert_eq!(total, 5);
    assert_eq!(changed, vec!["/r/a.jar", "/r/d.jar", "/r/b.jar"]);
    assert_eq!(cache.mtime("/r/a.jar"), Some(0));
    assert_eq!(cache.mtime("/r/b.jar"), Some(51));
    assert_eq!(cache.mtime("/r/c.jar"), Some(40));
    assert_eq!(cache.mtime("/r/d.jar"), Some(7));
}

#[test]
fn run_once_merges_catalogs_and_counts_failures() {
    let mut cache = PersistentCache::open("db".to_string());
    let registry = ClassRegistry::new();
    let indexer = IncrementalIndexer::new("/r".to_string());
    let changed = vec![
        ("/r/a.jar".to_string(), Some(vec!["p.A".to_string(), "p.B".to_string()])),
        ("/r/bad.jar".to_string(), None),
        ("/r/c.jar".to_string(), Some(vec!["p.A".to_string()])),
    ];
    let result = indexer.run_once(&mut cache, &registry, 9, &changed);
    assert_eq!(result.root, "/r");
    assert_eq!(result.scanned_jars, 9);
    assert_eq!(result.changed_jars, 3);
    assert_eq!(result.indexed_classes, 3);
    assert_eq!(result.failed_jars, 1);
    assert_eq!(registry.get_artifacts(&cache, "p.A"), vec!["/r/a.jar", "/r/c.jar"]);
    assert!(registry.is_cataloged(&cache, "/r/a.jar"));
    assert!(!registry.is_cataloged(&cache, "/r/bad.jar"));
    assert_eq!(IncrementalConfig::default().interval_secs, 300);
}
