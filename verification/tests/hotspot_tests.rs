use class_finder::cache::PersistentCache;
use class_finder::hotspot::{HotspotTracker, JarHotspot, WarmupRequest};
use class_finder::warmup::{WarmupMode, WarmupPriority};

fn high() -> Option<WarmupRequest> {
    Some(WarmupRequest {
        priority: WarmupPriority::High,
        mode: WarmupMode::AllClasses,
    })
}

fn normal() -> Option<WarmupRequest> {
    Some(WarmupRequest {
        priority: WarmupPriority::Normal,
        mode: WarmupMode::TopLevelOnly,
    })
}

#[test]
fn hotspot_records_access_and_triggers_threshold() {
    let mut cache = PersistentCache::open("hotspot_threshold".to_string());
    let tracker = HotspotTracker::new(2);

    let jar = "a.jar";
    let first = tracker.record_access(&mut cache, jar);
    assert!(matches!(
        first,
        Some(WarmupRequest {
            priority: WarmupPriority::Normal,
            mode: WarmupMode::TopLevelOnly
        })
    ));

    let second = tracker.record_access(&mut cache, jar);
    assert!(matches!(
        second,
        Some(WarmupRequest {
            priority: WarmupPriority::High,
            mode: WarmupMode::AllClasses
        })
    ));

    tracker.mark_warmed(&mut cache, jar, 10);
    let third = tracker.record_access(&mut cache, jar);
    assert!(third.is_none());
}

#[test]
fn accesses_below_a_high_threshold_ask_once() {
    let mut cache = PersistentCache::open("db".to_string());
    let tracker = HotspotTracker::new(4);
    assert_eq!(tracker.record_access_at(&mut cache, "a.jar", 10), normal());
    assert_eq!(tracker.record_access_at(&mut cache, "a.jar", 11), None);
    assert_eq!(tracker.record_access_at(&mut cache, "a.jar", 12), None);
    assert_eq!(tracker.record_access_at(&mut cache, "a.jar", 13), high());
    assert_eq!(tracker.record_access_at(&mut cache, "a.jar", 14), high());
    assert_eq!(
        tracker.get_hotspot(&cache, "a.jar"),
        Some(JarHotspot {
            access_count: 5,
            last_access: 14,
            warmed: false,
            class_count: 0
        })
    );
    tracker.mark_warmed(&mut cache, "a.jar", 7);
    assert_eq!(tracker.record_access_at(&mut cache, "a.jar", 15), None);
    assert_eq!(
        tracker.get_hotspot(&cache, "a.jar"),
        Some(JarHotspot {
            access_count: 6,
            last_access: 15,
            warmed: true,
            class_count: 7
        })
    );
}

#[test]
fn threshold_of_one_or_zero_asks_for_the_thorough_warmup_at_once() {
    let mut cache = PersistentCache::open("db".to_string());
    let one = HotspotTracker::new(1);
    assert_eq!(one.warmup_threshold(), 1);
    assert_eq!(one.record_access_at(&mut cache, "a.jar", 1), high());
    let zero = HotspotTracker::new(0);
    assert_eq!(zero.warmup_threshold(), 1);
    assert_eq!(zero.record_access_at(&mut cache, "b.jar", 1), high());
}

#[test]
fn access_count_saturates() {
    let mut cache = PersistentCache::open("db".to_string());
    let tracker = HotspotTracker::new(2);
    tracker.put_hotspot(
        &mut cache,
        "a.jar",
        &JarHotspot {
            access_count: u32::MAX,
            last_access: 1,
            warmed: false,
            class_count: 0,
        },
    );
    assert_eq!(tracker.record_access_at(&mut cache, "a.jar", 2), high());
    assert_eq!(
        tracker.get_hotspot(&cache, "a.jar").unwrap().access_count,
        u32::MAX
    );
}

#[test]
fn mark_warmed_of_an_unknown_artifact_creates_its_record() {
    let mut cache = PersistentCache::open("db".to_string());
    let tracker = HotspotTracker::new(2);
    assert_eq!(tracker.get_hotspot(&cache, "x.jar"), None);
    tracker.mark_warmed(&mut cache, "x.jar", 3);
    assert_eq!(
        tracker.get_hotspot(&cache, "x.jar"),
        Some(JarHotspot {
            access_count: 0,
            last_access: 0,
            warmed: true,
            class_count: 3
        })
    );
    assert_eq!(JarHotspot::default().access_count, 0);
}

#[test]
fn top_unwarmed_jars_ranks_and_limits() {
    let mut cache = PersistentCache::open("db".to_string());
    let tracker = HotspotTracker::new(100);
    let put = |cache: &mut PersistentCache, jar: &str, count: u32, last: u64, warmed: bool| {
        tracker.put_hotspot(
            cache,
            jar,
            &JarHotspot {
                access_count: count,
                last_access: last,
                warmed,
                class_count: 0,
            },
        );
    };
    put(&mut cache, "c.jar", 3, 5, false);
    put(&mut cache, "a.jar", 3, 5, false);
    put(&mut cache, "b.jar", 3, 9, false);
    put(&mut cache, "d.jar", 7, 1, false);
    put(&mut cache, "w.jar", 50, 50, true);
    put(&mut cache, "z.jar", 0, 99, false);
    put(&mut cache, "e.jar", 1, 1, false);

    assert_eq!(
        tracker.top_unwarmed_jars(&cache, 10),
        vec!["d.jar", "b.jar", "a.jar", "c.jar", "e.jar"]
    );
    assert_eq!(tracker.top_unwarmed_jars(&cache, 3), vec!["d.jar", "b.jar", "a.jar"]);
    assert_eq!(tracker.top_unwarmed_jars(&cache, 1), vec!["d.jar"]);
    assert!(tracker.top_unwarmed_jars(&cache, 0).is_empty());
}
