//! The write buffer: sources wait here until they are committed in batches.
//!
//! Producers hand over entries and go on at once. A flush commits the
//! oldest entries, at most one batch of them, to the store; a shutdown
//! commits all that is left.

use vstd::prelude::*;
use crate::text::{ends_with, str_ends_with};
use crate::cache::{lemma_written_concat, lemma_written_keys, written, PersistentCache, StoreView};

verus! {

/// A source that waits to be stored under `key`.
#[derive(Debug, Clone)]
pub struct PendingWrite {
    pub key: String,
    pub source: String,
}

/// When the buffer flushes: after `batch_size` entries, or when nothing
/// arrived for `flush_interval_ms`.
#[derive(Debug, Copy, Clone)]
pub struct BufferConfig {
    pub batch_size: usize,
    pub flush_interval_ms: u64,
}

impl Default for BufferConfig {
    fn default() -> (r: Self)
        ensures
            r.batch_size == 100,
            r.flush_interval_ms == 50,
    {
        BufferConfig { batch_size: 100, flush_interval_ms: 50 }
    }
}

impl BufferConfig {
    /// The largest number of entries in one commit: `batch_size`, but at
    /// least 1.
    pub open spec fn limit(self) -> nat {
        if self.batch_size < 1 {
            1
        } else {
            self.batch_size as nat
        }
    }

    /// The largest number of entries in one commit.
    pub fn batch_limit(&self) -> (n: usize)
        ensures
            n == self.limit(),
            n >= 1,
    {
        if self.batch_size < 1 {
            1
        } else {
            self.batch_size
        }
    }
}

/// Whatever waited in the buffer and whatever was handed to it afterwards,
/// once all of it is committed every key among it is in the store, and a
/// key that was handed over once more holds the source handed over last.
pub proof fn lemma_flush_persists_all(
    sources: Map<Seq<char>, Seq<char>>,
    waiting: Seq<(Seq<char>, Seq<char>)>,
    enqueued: Seq<(Seq<char>, Seq<char>)>,
)
    ensures
        forall|i: int|
            0 <= i < enqueued.len() ==> written(sources, waiting + enqueued).contains_key(
                (#[trigger] enqueued[i]).0,
            ),
        forall|i: int|
            0 <= i < enqueued.len() && (forall|j: int|
                i < j < enqueued.len() ==> (#[trigger] enqueued[j]).0 != enqueued[i].0) ==> written(
                sources,
                waiting + enqueued,
            )[(#[trigger] enqueued[i]).0] == enqueued[i].1,
{
    let all = waiting + enqueued;
    lemma_written_keys(sources, all);
    assert forall|i: int| 0 <= i < enqueued.len() implies written(sources, all).contains_key(
        (#[trigger] enqueued[i]).0,
    ) by {
        assert(all[waiting.len() + i] == enqueued[i]);
    }
    assert forall|i: int|
        0 <= i < enqueued.len() && (forall|j: int|
            i < j < enqueued.len() ==> (#[trigger] enqueued[j]).0 != enqueued[i].0) implies written(
        sources,
        all,
    )[(#[trigger] enqueued[i]).0] == enqueued[i].1 by {
        let k = waiting.len() + i;
        assert(all[k] == enqueued[i]);
        assert forall|j: int| k < j < all.len() implies (#[trigger] all[j]).0 != all[k].0 by {
            assert(all[j] == enqueued[j - waiting.len()]);
        }
    }
}

/// `key` names the source of a class of the artifact `jar`.
pub open spec fn is_write_of(key: Seq<char>, jar: Seq<char>) -> bool {
    ends_with(key, "::"@ + jar)
}

/// Among the entries that wait there is a source of the artifact `jar`.
pub open spec fn holds_writes_of(queued: Seq<(Seq<char>, Seq<char>)>, jar: Seq<char>) -> bool {
    exists|i: int| 0 <= i < queued.len() && is_write_of((#[trigger] queued[i]).0, jar)
}

/// The buffer between the producers of sources and the store.
pub struct WriteBuffer {
    queue: Vec<PendingWrite>,
    connected: bool,
    config: BufferConfig,
    gauge: Option<usize>,
}

/// Lets a producer hand entries to a buffer that it does not own.
#[derive(Debug, Clone)]
pub struct WriteBufferHandle {}

impl WriteBuffer {
    /// The entries that wait, oldest first, each as (key, source).
    pub closed spec fn queued(&self) -> Seq<(Seq<char>, Seq<char>)> {
        Seq::new(self.queue@.len(), |i: int| (self.queue@[i].key@, self.queue@[i].source@))
    }

    /// Whether the buffer still accepts entries.
    pub closed spec fn is_open(&self) -> bool {
        self.connected
    }

    /// What the pending-count gauge shows; `None` when it is absent.
    pub closed spec fn published(&self) -> Option<usize> {
        self.gauge
    }

    /// The configuration the buffer was made with.
    pub closed spec fn settings(&self) -> BufferConfig {
        self.config
    }

    /// An open buffer with nothing in it and no gauge published.
    pub fn new(config: BufferConfig) -> (b: Self)
        ensures
            b.queued() == Seq::<(Seq<char>, Seq<char>)>::empty(),
            b.is_open(),
            b.published() is None,
            b.settings() == config,
    {
        let b = WriteBuffer { queue: Vec::new(), connected: true, config, gauge: None };
        assert(b.queued() =~= Seq::<(Seq<char>, Seq<char>)>::empty());
        b
    }

    /// Hands `entry` to the buffer. The first entry after an idle time
    /// publishes the gauge. A buffer that was shut down drops the entry.
    pub fn enqueue(&mut self, entry: PendingWrite)
        ensures
            final(self).is_open() == old(self).is_open(),
            final(self).settings() == old(self).settings(),
            old(self).is_open() ==> final(self).queued() == old(self).queued().push(
                (entry.key@, entry.source@),
            ) && final(self).published() == if old(self).queued().len() == 0 {
                Some(1usize)
            } else {
                old(self).published()
            },
            !old(self).is_open() ==> final(self).queued() == old(self).queued() && final(self).published() == old(self).published(),
    {
        if self.connected {
            if self.queue.len() == 0 {
                self.gauge = Some(1);
            }
            self.queue.push(entry);
            assert(self.queued() =~= old(self).queued().push((entry.key@, entry.source@)));
        }
    }

    /// A handle for other producers; none once the buffer is shut down.
    pub fn handle(&self) -> (h: Option<WriteBufferHandle>)
        ensures
            h is Some == self.is_open(),
    {
        if self.connected {
            Some(WriteBufferHandle {  })
        } else {
            None
        }
    }

    /// Number of entries handed over and not yet committed.
    pub fn pending_count(&self) -> (n: usize)
        ensures
            n == self.queued().len(),
    {
        self.queue.len()
    }

    /// Whether a source of the artifact `jar` still waits to be committed.
    pub fn has_writes_of(&self, jar: &str) -> (b: bool)
        ensures
            b == holds_writes_of(self.queued(), jar@),
    {
        let mut suffix = "::".to_owned();
        suffix.append(jar);
        let mut i: usize = 0;
        while i < self.queue.len()
            invariant
                i <= self.queue.len(),
                suffix@ == "::"@ + jar@,
                forall|j: int| 0 <= j < i ==> !is_write_of((#[trigger] self.queued()[j]).0, jar@),
            decreases self.queue.len() - i,
        {
            assert(self.queued()[i as int].0 == self.queue[i as int].key@);
            if str_ends_with(self.queue[i].key.as_str(), suffix.as_str()) {
                return true;
            }
            i = i + 1;
        }
        false
    }

    /// Whether the buffer still accepts entries.
    pub fn accepts(&self) -> (b: bool)
        ensures
            b == self.is_open(),
    {
        self.connected
    }

    /// Stops accepting entries. What waits is still to be committed.
    pub fn close(&mut self)
        ensures
            !final(self).is_open(),
            final(self).queued() == old(self).queued(),
            final(self).published() == old(self).published(),
            final(self).settings() == old(self).settings(),
    {
        self.connected = false;
    }

    /// Whether a whole batch waits, so that a commit is due without
    /// waiting for more.
    pub fn is_batch_full(&self) -> (b: bool)
        ensures
            b == (self.queued().len() >= self.settings().limit()),
    {
        self.queue.len() >= self.config.batch_limit()
    }

    /// What the pending-count gauge shows.
    pub fn gauge(&self) -> (g: Option<usize>)
        ensures
            g == self.published(),
    {
        self.gauge
    }

    /// The entries of the next commit: the oldest that wait, at most one
    /// batch of them.
    pub fn next_batch(&self) -> (batch: Vec<(String, String)>)
        ensures
            batch.len() == if self.queued().len() < self.settings().limit() {
                self.queued().len()
            } else {
                self.settings().limit()
            },
            batch.deep_view() == self.queued().take(batch.len() as int),
    {
        let limit = self.config.batch_limit();
        let n = if self.queue.len() < limit {
            self.queue.len()
        } else {
            limit
        };
        let mut batch: Vec<(String, String)> = Vec::new();
        let mut i: usize = 0;
        while i < n
            invariant
                i <= n <= self.queue.len(),
                batch.len() == i,
                forall|j: int|
                    0 <= j < i ==> (#[trigger] batch[j]).0@ == self.queue[j].key@ && batch[j].1@
                        == self.queue[j].source@,
            decreases n - i,
        {
            batch.push((self.queue[i].key.clone(), self.queue[i].source.clone()));
            i = i + 1;
        }
        assert(batch.deep_view() =~= self.queued().take(n as int));
        batch
    }

    /// Records that the `n` oldest entries were committed: they wait no
    /// longer, and the gauge shows how many are left. With `n` at 0 nothing
    /// changes; an `n` beyond what waits counts as all that waits.
    pub fn batch_committed(&mut self, n: usize)
        ensures
            final(self).queued() == old(self).queued().skip(
                if n <= old(self).queued().len() {
                    n as int
                } else {
                    old(self).queued().len() as int
                },
            ),
            final(self).is_open() == old(self).is_open(),
            final(self).settings() == old(self).settings(),
            final(self).published() == if n == 0 {
                old(self).published()
            } else {
                Some(final(self).queued().len() as usize)
            },
    {
        let ghost all = self.queued();
        if n == 0 {
            assert(all.skip(0) =~= all);
            return ;
        }
        let m = if n <= self.queue.len() {
            n
        } else {
            self.queue.len()
        };
        let rest = self.queue.split_off(m);
        self.queue = rest;
        self.gauge = Some(self.queue.len());
        assert(self.queued() =~= all.skip(m as int));
    }

    /// Commits the oldest entries, at most one batch, and publishes how
    /// many are left. With nothing waiting, nothing changes.
    pub fn flush_batch(&mut self, db: &mut PersistentCache) -> (n: usize)
        ensures
            n == if old(self).queued().len() < old(self).settings().limit() {
                old(self).queued().len()
            } else {
                old(self).settings().limit()
            },
            final(self).queued() == old(self).queued().skip(n as int),
            final(self).is_open() == old(self).is_open(),
            final(self).settings() == old(self).settings(),
            final(self).published() == if n == 0 {
                old(self).published()
            } else {
                Some((old(self).queued().len() - n) as usize)
            },
            final(db)@ == (StoreView {
                sources: written(old(db)@.sources, old(self).queued().take(n as int)),
                ..old(db)@
            }),
            final(db).path() == old(db).path(),
    {
        let batch = self.next_batch();
        let n = db.put_class_sources(&batch);
        self.batch_committed(n);
        n
    }

    /// Stops accepting entries, commits every entry that waits, and takes
    /// the gauge away.
    pub fn shutdown_and_flush(&mut self, db: &mut PersistentCache)
        ensures
            !final(self).is_open(),
            final(self).queued().len() == 0,
            final(self).published() is None,
            final(self).settings() == old(self).settings(),
            final(db)@ == (StoreView {
                sources: written(old(db)@.sources, old(self).queued()),
                ..old(db)@
            }),
            final(db).path() == old(db).path(),
    {
        self.connected = false;
        let ghost all = old(self).queued();
        assert(self.queued() == all);
        assert(all.take(0) =~= Seq::<(Seq<char>, Seq<char>)>::empty());
        assert(all.skip(0) =~= all);
        let ghost mut done: int = 0;
        while self.queue.len() > 0
            invariant
                0 <= done <= all.len(),
                !self.is_open(),
                self.settings() == old(self).settings(),
                self.queued() == all.skip(done),
                db.path() == old(db).path(),
                db@ == (StoreView {
                    sources: written(old(db)@.sources, all.take(done)),
                    ..old(db)@
                }),
            decreases self.queue@.len(),
        {
            let ghost before = self.queued();
            let ghost len_before = self.queue@.len();
            assert(before.len() == len_before);
            let n = self.flush_batch(db);
            proof {
                lemma_written_concat(old(db)@.sources, all.take(done), before.take(n as int));
                assert(all.take(done) + before.take(n as int) =~= all.take(done + n));
                assert(before.skip(n as int) =~= all.skip(done + n));
                done = done + n;
                assert(self.queued().len() == self.queue@.len());
            }
        }
        self.gauge = None;
        proof {
            assert(self.queued().len() == self.queue@.len());
            assert(all.take(done) =~= all);
        }
    }
}

impl WriteBufferHandle {
    /// Hands `entry` to `buffer`, as `WriteBuffer::enqueue` does.
    pub fn enqueue(&self, buffer: &mut WriteBuffer, entry: PendingWrite)
        ensures
            final(buffer).is_open() == old(buffer).is_open(),
            final(buffer).settings() == old(buffer).settings(),
            old(buffer).is_open() ==> final(buffer).queued() == old(buffer).queued().push(
                (entry.key@, entry.source@),
            ) && final(buffer).published() == if old(buffer).queued().len() == 0 {
                Some(1usize)
            } else {
                old(buffer).published()
            },
            !old(buffer).is_open() ==> final(buffer).queued() == old(buffer).queued() && final(buffer).published() == old(buffer).published(),
    {
        buffer.enqueue(entry);
    }
}

} // verus!
