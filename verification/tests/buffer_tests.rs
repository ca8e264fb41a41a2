use class_finder::buffer::{BufferConfig, PendingWrite, WriteBuffer};
use class_finder::cache::PersistentCache;

fn entry(key: &str, source: &str) -> PendingWrite {
    PendingWrite {
        key: key.to_string(),
        source: source.to_string(),
    }
}

#[test]
fn write_buffer_flushes_to_source_cache_on_shutdown() {
    let mut cache = PersistentCache::open("buffer_flush".to_string());
    let mut buffer = WriteBuffer::new(BufferConfig {
        batch_size: 2,
        flush_interval_ms: 10_000,
    });

    assert_eq!(buffer.pending_count(), 0);
    buffer.enqueue(PendingWrite {
        key: "a.A::jar1".to_string(),
        source: "class A {}".to_string(),
    });
    assert!(buffer.pending_count() >= 1);
    assert!(buffer.gauge() != Some(0) && buffer.gauge().is_some());
    assert!(cache.stats(buffer.gauge().unwrap_or(0) as u64).write_buffer_pending >= 1);

    buffer.shutdown_and_flush(&mut cache);
    assert_eq!(
        cache.get_class_source("a.A::jar1").as_deref(),
        Some("class A {}")
    );
    assert!(buffer.gauge().is_none());
}

#[test]
fn default_config() {
    let config = BufferConfig::default();
    assert_eq!(config.batch_size, 100);
    assert_eq!(config.flush_interval_ms, 50);
    assert_eq!(config.batch_limit(), 100);
    let zero = BufferConfig {
        batch_size: 0,
        flush_interval_ms: 1,
    };
    assert_eq!(zero.batch_limit(), 1);
}

#[test]
fn every_enqueued_key_is_readable_after_shutdown() {
    let mut cache = PersistentCache::open("db".to_string());
    let mut buffer = WriteBuffer::new(BufferConfig {
        batch_size: 3,
        flush_interval_ms: 50,
    });
    for i in 0..10 {
        buffer.enqueue(entry(&format!("k{}", i), &format!("v{}", i)));
    }
    buffer.enqueue(entry("k3", "again"));
    assert_eq!(buffer.pending_count(), 11);
    assert_eq!(buffer.gauge(), Some(1));
    buffer.shutdown_and_flush(&mut cache);
    assert_eq!(buffer.pending_count(), 0);
    assert_eq!(buffer.gauge(), None);
    for i in 0..10 {
        let want = if i == 3 { "again".to_string() } else { format!("v{}", i) };
        assert_eq!(cache.get_class_source(&format!("k{}", i)), Some(want));
    }
    assert_eq!(cache.source_entries(), 10);
}

#[test]
fn flush_batch_commits_the_oldest_entries_first() {
    let mut cache = PersistentCache::open("db".to_string());
    let mut buffer = WriteBuffer::new(BufferConfig {
        batch_size: 2,
        flush_interval_ms: 50,
    });
    assert_eq!(buffer.flush_batch(&mut cache), 0);
    assert_eq!(buffer.gauge(), None);
    buffer.enqueue(entry("a", "1"));
    buffer.enqueue(entry("b", "2"));
    buffer.enqueue(entry("c", "3"));
    assert!(buffer.is_batch_full());
    assert_eq!(buffer.flush_batch(&mut cache), 2);
    assert!(!buffer.is_batch_full());
    assert_eq!(buffer.pending_count(), 1);
    assert_eq!(buffer.gauge(), Some(1));
    assert_eq!(cache.get_class_source("a").as_deref(), Some("1"));
    assert_eq!(cache.get_class_source("b").as_deref(), Some("2"));
    assert_eq!(cache.get_class_source("c"), None);
    assert_eq!(buffer.flush_batch(&mut cache), 1);
    assert_eq!(buffer.gauge(), Some(0));
    assert_eq!(cache.get_class_source("c").as_deref(), Some("3"));
}

#[test]
fn batch_size_zero_flushes_one_entry_at_a_time() {
    let mut cache = PersistentCache::open("db".to_string());
    let mut buffer = WriteBuffer::new(BufferConfig {
        batch_size: 0,
        flush_interval_ms: 50,
    });
    buffer.enqueue(entry("a", "1"));
    buffer.enqueue(entry("b", "2"));
    assert_eq!(buffer.flush_batch(&mut cache), 1);
    assert_eq!(buffer.pending_count(), 1);
}

#[test]
fn entries_after_shutdown_are_dropped() {
    let mut cache = PersistentCache::open("db".to_string());
    let mut buffer = WriteBuffer::new(BufferConfig::default());
    let handle = buffer.handle().unwrap();
    handle.enqueue(&mut buffer, entry("a", "1"));
    assert_eq!(buffer.pending_count(), 1);
    buffer.shutdown_and_flush(&mut cache);
    assert!(buffer.handle().is_none());
    buffer.enqueue(entry("b", "2"));
    handle.enqueue(&mut buffer, entry("c", "3"));
    assert_eq!(buffer.pending_count(), 0);
    assert_eq!(buffer.gauge(), None);
    buffer.shutdown_and_flush(&mut cache);
    assert_eq!(cache.get_class_source("a").as_deref(), Some("1"));
    assert_eq!(cache.get_class_source("b"), None);
    assert_eq!(cache.get_class_source("c"), None);
}

#[test]
fn next_batch_and_batch_committed_move_the_oldest_entries() {
    let mut buffer = WriteBuffer::new(BufferConfig {
        batch_size: 2,
        flush_interval_ms: 50,
    });
    assert!(buffer.next_batch().is_empty());
    buffer.enqueue(entry("a", "1"));
    buffer.enqueue(entry("b", "2"));
    buffer.enqueue(entry("c", "3"));
    assert_eq!(
        buffer.next_batch(),
        vec![("a".to_string(), "1".to_string()), ("b".to_string(), "2".to_string())]
    );
    assert_eq!(buffer.pending_count(), 3);
    buffer.batch_committed(0);
    assert_eq!(buffer.pending_count(), 3);
    assert_eq!(buffer.gauge(), Some(1));
    buffer.batch_committed(2);
    assert_eq!(buffer.gauge(), Some(1));
    assert_eq!(buffer.next_batch(), vec![("c".to_string(), "3".to_string())]);
    buffer.batch_committed(9);
    assert_eq!(buffer.pending_count(), 0);
    assert_eq!(buffer.gauge(), Some(0));
}

#[test]
fn close_stops_accepting_and_keeps_what_waits() {
    let mut cache = PersistentCache::open("db".to_string());
    let mut buffer = WriteBuffer::new(BufferConfig::default());
    buffer.enqueue(entry("a.A::x.jar", "1"));
    assert!(buffer.accepts());
    buffer.close();
    assert!(!buffer.accepts());
    buffer.enqueue(entry("a.B::x.jar", "2"));
    assert_eq!(buffer.pending_count(), 1);
    assert!(buffer.has_writes_of("x.jar"));
    assert_eq!(buffer.flush_batch(&mut cache), 1);
    assert!(!buffer.has_writes_of("x.jar"));
    assert_eq!(cache.get_class_source("a.A::x.jar").as_deref(), Some("1"));
}
