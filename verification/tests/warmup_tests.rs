use class_finder::warmup::{QueuedTask, TaskQueue, WarmupMode, WarmupPriority, WarmupTask};

#[test]
fn queued_task_orders_by_priority_then_fifo() {
    let dummy = WarmupTask {
        jar_path: "a.jar".to_string(),
        priority: WarmupPriority::Low,
        mode: WarmupMode::TopLevelOnly,
        exclude_fqns: Vec::new(),
    };

    let mut heap = TaskQueue::new();
    heap.push(QueuedTask {
        priority: WarmupPriority::Normal,
        seq: 0,
        task: dummy.clone(),
    });
    heap.push(QueuedTask {
        priority: WarmupPriority::High,
        seq: 2,
        task: dummy.clone(),
    });
    heap.push(QueuedTask {
        priority: WarmupPriority::High,
        seq: 1,
        task: dummy.clone(),
    });

    let first = heap.pop().unwrap();
    assert_eq!(first.priority, WarmupPriority::High);
    assert_eq!(first.seq, 1);

    let second = heap.pop().unwrap();
    assert_eq!(second.priority, WarmupPriority::High);
    assert_eq!(second.seq, 2);

    let third = heap.pop().unwrap();
    assert_eq!(third.priority, WarmupPriority::Normal);
    assert_eq!(third.seq, 0);
}

use class_finder::buffer::{BufferConfig, WriteBuffer};
use class_finder::cache::PersistentCache;
use class_finder::hotspot::HotspotTracker;
use class_finder::warmup::{warmup_jar, Warmer, WarmerConfig, WarmerStats};

fn task(jar: &str, priority: WarmupPriority) -> WarmupTask {
    WarmupTask {
        jar_path: jar.to_string(),
        priority,
        mode: WarmupMode::AllClasses,
        exclude_fqns: Vec::new(),
    }
}

#[test]
fn priority_levels_and_defaults() {
    assert_eq!(WarmupPriority::Low.level(), 0);
    assert_eq!(WarmupPriority::Normal.level(), 1);
    assert_eq!(WarmupPriority::High.level(), 2);
    assert!(WarmupPriority::Low < WarmupPriority::High);
    let config = WarmerConfig::default();
    assert_eq!(config.max_concurrent, 2);
    assert_eq!(config.poll_interval_ms, 50);
    assert_eq!(
        WarmerStats::new(),
        WarmerStats {
            pending_tasks: 0,
            running_tasks: 0,
            completed_tasks: 0,
            failed_tasks: 0
        }
    );
}

#[test]
fn queue_pops_nothing_when_empty() {
    let mut queue = TaskQueue::new();
    assert!(queue.is_empty());
    assert!(queue.pop().is_none());
    assert_eq!(queue.len(), 0);
}

#[test]
fn warmer_never_runs_an_artifact_twice_at_once() {
    let mut cache = PersistentCache::open("db".to_string());
    let mut warmer = Warmer::new(WarmerConfig {
        max_concurrent: 4,
        poll_interval_ms: 1,
    });
    for _ in 0..5 {
        warmer.submit(task("a.jar", WarmupPriority::Normal));
    }
    warmer.submit(task("b.jar", WarmupPriority::Low));
    assert_eq!(warmer.stats().pending_tasks, 6);

    let first = warmer.start_next().unwrap();
    assert_eq!(first.jar_path, "a.jar");
    let second = warmer.start_next().unwrap();
    assert_eq!(second.jar_path, "b.jar");
    assert!(warmer.start_next().is_none());
    let stats = warmer.stats();
    assert_eq!(stats.pending_tasks, 0);
    assert_eq!(stats.running_tasks, 2);

    warmer.submit(task("a.jar", WarmupPriority::High));
    assert!(warmer.start_next().is_none());
    assert_eq!(warmer.stats().pending_tasks, 0);

    warmer.complete("a.jar", Some(3), false);
    warmer.submit(task("a.jar", WarmupPriority::High));
    assert_eq!(warmer.start_next().unwrap().jar_path, "a.jar");
    warmer.complete("a.jar", None, false);
    warmer.complete("b.jar", Some(1), false);
    let stats = warmer.stats();
    assert_eq!(stats.running_tasks, 0);
    assert_eq!(stats.completed_tasks, 2);
    assert_eq!(stats.failed_tasks, 1);
}

#[test]
fn warmer_serves_by_priority_then_in_order_and_keeps_the_limit() {
    let mut cache = PersistentCache::open("db".to_string());
    let mut warmer = Warmer::new(WarmerConfig {
        max_concurrent: 0,
        poll_interval_ms: 1,
    });
    warmer.submit(task("n1.jar", WarmupPriority::Normal));
    warmer.submit(task("l1.jar", WarmupPriority::Low));
    warmer.submit(task("h1.jar", WarmupPriority::High));
    warmer.submit(task("n2.jar", WarmupPriority::Normal));
    warmer.submit(task("h2.jar", WarmupPriority::High));

    let mut order = Vec::new();
    while let Some(t) = warmer.start_next() {
        assert!(warmer.start_next().is_none());
        assert_eq!(warmer.stats().running_tasks, 1);
        warmer.complete(&t.jar_path, Some(0), false);
        order.push(t.jar_path);
    }
    assert_eq!(order, vec!["h1.jar", "h2.jar", "n1.jar", "n2.jar", "l1.jar"]);
}

#[test]
fn warmer_stops_accepting_and_is_finished_once_drained() {
    let mut cache = PersistentCache::open("db".to_string());
    let tracker = HotspotTracker::new(2);
    let buffer = WriteBuffer::new(BufferConfig::default());
    let mut warmer = Warmer::new(WarmerConfig::default());
    warmer.submit(task("a.jar", WarmupPriority::Normal));
    assert!(!warmer.is_finished());
    warmer.stop_accepting();
    warmer.submit(task("b.jar", WarmupPriority::High));
    assert_eq!(warmer.stats().pending_tasks, 1);
    assert!(!warmer.is_finished());
    let t = warmer.start_next().unwrap();
    assert_eq!(t.jar_path, "a.jar");
    assert!(!warmer.is_finished());
    warmer.complete("a.jar", Some(12), true);
    assert!(!warmer.is_finished());
    assert_eq!(tracker.get_hotspot(&cache, "a.jar"), None);
    assert_eq!(warmer.mark_flushed(&buffer, &tracker, &mut cache), 1);
    assert!(warmer.is_finished());
    let record = tracker.get_hotspot(&cache, "a.jar").unwrap();
    assert!(record.warmed);
    assert_eq!(record.class_count, 12);
}

#[test]
fn warmed_mark_waits_until_the_sources_left_the_buffer() {
    let mut cache = PersistentCache::open("db".to_string());
    let tracker = HotspotTracker::new(2);
    let mut buffer = WriteBuffer::new(BufferConfig {
        batch_size: 1,
        flush_interval_ms: 50,
    });
    let mut warmer = Warmer::new(WarmerConfig::default());
    warmer.submit(task("x.jar", WarmupPriority::Normal));
    warmer.submit(task("y.jar", WarmupPriority::Normal));
    warmer.start_next().unwrap();
    warmer.start_next().unwrap();
    let count = warmup_jar(&mut buffer, "x.jar", DUMP, WarmupMode::TopLevelOnly, &Vec::new());
    assert!(buffer.has_writes_of("x.jar"));
    assert!(!buffer.has_writes_of("y.jar"));
    assert!(!buffer.has_writes_of("jar"));
    warmer.complete("x.jar", Some(count), true);
    warmer.complete("y.jar", Some(0), true);

    assert_eq!(warmer.mark_flushed(&buffer, &tracker, &mut cache), 1);
    assert_eq!(tracker.get_hotspot(&cache, "x.jar"), None);
    assert!(tracker.get_hotspot(&cache, "y.jar").unwrap().warmed);

    buffer.flush_batch(&mut cache);
    assert_eq!(warmer.mark_flushed(&buffer, &tracker, &mut cache), 0);
    assert_eq!(tracker.get_hotspot(&cache, "x.jar"), None);

    buffer.flush_batch(&mut cache);
    assert!(!buffer.has_writes_of("x.jar"));
    assert_eq!(warmer.mark_flushed(&buffer, &tracker, &mut cache), 1);
    let record = tracker.get_hotspot(&cache, "x.jar").unwrap();
    assert!(record.warmed);
    assert_eq!(record.class_count, 5);
    assert!(cache.get_class_source("p.A::x.jar").is_some());
    assert_eq!(warmer.mark_flushed(&buffer, &tracker, &mut cache), 0);
}

#[test]
fn running_tasks_never_exceed_the_limit() {
    let mut warmer = Warmer::new(WarmerConfig {
        max_concurrent: 2,
        poll_interval_ms: 1,
    });
    for jar in ["a.jar", "b.jar", "c.jar", "d.jar"] {
        warmer.submit(task(jar, WarmupPriority::Normal));
    }
    assert!(warmer.start_next().is_some());
    assert!(warmer.start_next().is_some());
    assert!(warmer.start_next().is_none());
    assert_eq!(warmer.stats().running_tasks, 2);
    assert_eq!(warmer.stats().pending_tasks, 2);
    warmer.complete("a.jar", None, true);
    assert_eq!(warmer.start_next().unwrap().jar_path, "c.jar");
    assert!(warmer.start_next().is_none());
    assert_eq!(warmer.stats().running_tasks, 2);
}

#[test]
fn failed_task_owes_no_warmed_mark() {
    let mut cache = PersistentCache::open("db".to_string());
    let tracker = HotspotTracker::new(2);
    let buffer = WriteBuffer::new(BufferConfig::default());
    let mut warmer = Warmer::new(WarmerConfig::default());
    warmer.submit(task("a.jar", WarmupPriority::Normal));
    warmer.start_next().unwrap();
    warmer.complete("a.jar", None, true);
    assert_eq!(warmer.mark_flushed(&buffer, &tracker, &mut cache), 0);
    assert_eq!(tracker.get_hotspot(&cache, "a.jar"), None);
    assert_eq!(warmer.stats().failed_tasks, 1);
    warmer.complete("never-started.jar", Some(1), false);
    assert_eq!(warmer.stats().running_tasks, 0);
    assert_eq!(warmer.mark_flushed(&buffer, &tracker, &mut cache), 0);
}

const DUMP: &str = "/*\n * Decompiled with CFR 0.152.\n */\npackage p;\nclass A {}\n/*\n * Decompiled with CFR 0.152.\n */\npackage p;\nclass A$Inner {}\n/*\n * Decompiled with CFR 0.152.\n */\npackage p;\nclass B {}\n/*\n * Decompiled with CFR 0.152.\n */\npackage p;\ninterface package-info {}\n/*\n * Decompiled with CFR 0.152.\n */\nclass module-info {}\n";

#[test]
fn warmup_jar_all_classes_skips_metadata_and_excluded() {
    let mut cache = PersistentCache::open("db".to_string());
    let mut buffer = WriteBuffer::new(BufferConfig::default());
    let count = warmup_jar(
        &mut buffer,
        "x.jar",
        DUMP,
        WarmupMode::AllClasses,
        &vec!["p.B".to_string()],
    );
    assert_eq!(count, 5);
    assert_eq!(buffer.pending_count(), 2);
    buffer.shutdown_and_flush(&mut cache);
    assert_eq!(
        cache.get_class_source("p.A::x.jar").as_deref(),
        Some("/*\n * Decompiled with CFR 0.152.\n */\npackage p;\nclass A {}")
    );
    assert!(cache.get_class_source("p.A$Inner::x.jar").is_some());
    assert!(cache.get_class_source("p.B::x.jar").is_none());
    assert!(cache.get_class_source("p.package-info::x.jar").is_none());
    assert!(cache.get_class_source("module-info::x.jar").is_none());
}

#[test]
fn warmup_jar_top_level_only_skips_nested_classes() {
    let mut cache = PersistentCache::open("db".to_string());
    let mut buffer = WriteBuffer::new(BufferConfig::default());
    let count = warmup_jar(&mut buffer, "x.jar", DUMP, WarmupMode::TopLevelOnly, &Vec::new());
    assert_eq!(count, 5);
    buffer.shutdown_and_flush(&mut cache);
    assert_eq!(cache.source_entries(), 2);
    assert!(cache.get_class_source("p.A::x.jar").is_some());
    assert!(cache.get_class_source("p.B::x.jar").is_some());
    assert!(cache.get_class_source("p.A$Inner::x.jar").is_none());
}
