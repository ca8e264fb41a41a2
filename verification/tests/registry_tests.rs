use class_finder::cache::PersistentCache;
use class_finder::registry::{ClassRegistry, ReadOnlyClassRegistry};

#[test]
fn update_registry_appends_and_dedupes_paths() {
    let mut cache = PersistentCache::open("registry_append".to_string());
    let registry = ClassRegistry::new();

    let classes = vec!["a.A".to_string(), "a.B".to_string()];
    registry.update_registry_and_mark_cataloged(&mut cache, "jar1", &classes);
    assert!(registry.is_cataloged(&cache, "jar1"));
    assert_eq!(registry.get_artifacts(&cache, "a.A"), vec!["jar1".to_string()]);

    registry.update_registry_and_mark_cataloged(&mut cache, "jar1", &classes);
    assert_eq!(registry.get_artifacts(&cache, "a.A"), vec!["jar1".to_string()]);

    registry.update_registry_and_mark_cataloged(&mut cache, "jar2", &vec!["a.A".to_string()]);
    assert_eq!(
        registry.get_artifacts(&cache, "a.A"),
        vec!["jar1".to_string(), "jar2".to_string()]
    );
}

#[test]
fn update_registry_counts_only_new_associations() {
    let mut cache = PersistentCache::open("db".to_string());
    let registry = ClassRegistry::new();
    let classes = vec!["a.A".to_string(), "a.B".to_string(), "a.A".to_string()];
    assert_eq!(
        registry.update_registry_and_mark_cataloged(&mut cache, "jar1", &classes),
        2
    );
    assert_eq!(
        registry.update_registry_and_mark_cataloged(&mut cache, "jar1", &classes),
        0
    );
    let more = vec!["a.B".to_string(), "a.C".to_string()];
    assert_eq!(
        registry.update_registry_and_mark_cataloged(&mut cache, "jar1", &more),
        1
    );
    assert_eq!(registry.indexed_classes(&cache), 3);
    assert_eq!(registry.cataloged_jars(&cache), 1);
    assert_eq!(registry.get_artifacts(&cache, "a.C"), vec!["jar1".to_string()]);
}

#[test]
fn cataloging_without_classes_still_marks_the_artifact() {
    let mut cache = PersistentCache::open("db".to_string());
    let registry = ClassRegistry::new();
    assert!(!registry.is_cataloged(&cache, "empty.jar"));
    assert_eq!(
        registry.update_registry_and_mark_cataloged(&mut cache, "empty.jar", &Vec::new()),
        0
    );
    assert!(registry.is_cataloged(&cache, "empty.jar"));
    assert_eq!(registry.indexed_classes(&cache), 0);
}

#[test]
fn unknown_class_has_no_artifacts() {
    let cache = PersistentCache::open("db".to_string());
    assert!(ClassRegistry::new().get_artifacts(&cache, "no.Such").is_empty());
    assert!(ReadOnlyClassRegistry::new()
        .get_artifacts(&cache, "no.Such")
        .is_empty());
}
