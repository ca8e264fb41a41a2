//! Background warmup: task types and the priority queue that orders them.

use vstd::prelude::*;
use crate::buffer::{holds_writes_of, PendingWrite, WriteBuffer};
use crate::cache::PersistentCache;
use crate::cache::StoreView;
use crate::hotspot::HotspotTracker;
use crate::parse::{parse_decompiled_output, records_of};
use crate::registry::holds_path;
use crate::text::{concat3, ends_with, has_char, str_ends_with};

verus! {

/// How much of an artifact a warmup decompiles.
#[derive(Debug, Clone, Copy, PartialEq, Eq, Structural)]
pub enum WarmupMode {
    TopLevelOnly,
    AllClasses,
}

/// Urgency of a warmup task; `High` is served first.
#[derive(Debug, Clone, Copy, PartialEq, Eq, Structural, PartialOrd, Ord)]
pub enum WarmupPriority {
    Low,
    Normal,
    High,
}

impl WarmupPriority {
    /// Numeric rank of the priority: larger is more urgent.
    pub open spec fn rank(self) -> int {
        match self {
            WarmupPriority::Low => 0,
            WarmupPriority::Normal => 1,
            WarmupPriority::High => 2,
        }
    }

    /// The rank as a number.
    pub fn level(self) -> (r: u8)
        ensures
            r as int == self.rank(),
    {
        match self {
            WarmupPriority::Low => 0,
            WarmupPriority::Normal => 1,
            WarmupPriority::High => 2,
        }
    }
}

/// A request to decompile one artifact and cache its classes.
#[derive(Debug, Clone)]
pub struct WarmupTask {
    pub jar_path: String,
    pub priority: WarmupPriority,
    pub mode: WarmupMode,
    /// Classes that are cached already and need not be written again.
    pub exclude_fqns: Vec<String>,
}

/// Limits of the scheduler.
#[derive(Debug, Clone, Copy)]
pub struct WarmerConfig {
    pub max_concurrent: usize,
    pub poll_interval_ms: u64,
}

impl Default for WarmerConfig {
    fn default() -> (r: Self)
        ensures
            r.max_concurrent == 2,
            r.poll_interval_ms == 50,
    {
        WarmerConfig { max_concurrent: 2, poll_interval_ms: 50 }
    }
}

/// A task together with its place in the order of submission.
#[derive(Debug)]
pub struct QueuedTask {
    pub priority: WarmupPriority,
    pub seq: u64,
    pub task: WarmupTask,
}

/// `a` is served before `b`: it is more urgent, or as urgent and submitted
/// earlier.
pub open spec fn outranks(a: QueuedTask, b: QueuedTask) -> bool {
    a.priority.rank() > b.priority.rank() || (a.priority == b.priority && a.seq < b.seq)
}

/// Index of the task of `s[..n]` that is served first; among tasks that none
/// outranks, the one that entered first.
pub open spec fn front_of(s: Seq<QueuedTask>, n: int) -> int
    decreases n,
{
    if n <= 1 {
        0
    } else {
        let b = front_of(s, n - 1);
        if outranks(s[n - 1], s[b]) {
            n - 1
        } else {
            b
        }
    }
}

/// No task of a non-empty queue outranks the one at `front_of`.
pub proof fn lemma_front_of(s: Seq<QueuedTask>, n: int)
    requires
        0 < n <= s.len(),
    ensures
        0 <= front_of(s, n) < n,
        forall|j: int| 0 <= j < n ==> !outranks(#[trigger] s[j], s[front_of(s, n)]),
    decreases n,
{
    if n > 1 {
        lemma_front_of(s, n - 1);
    }
}

fn outranks_exec(a: &QueuedTask, b: &QueuedTask) -> (r: bool)
    ensures
        r == outranks(*a, *b),
{
    let la = a.priority.level();
    let lb = b.priority.level();
    la > lb || (la == lb && a.seq < b.seq)
}

/// Tasks waiting to run, served by priority and then in order of submission.
pub struct TaskQueue {
    items: Vec<QueuedTask>,
}

impl View for TaskQueue {
    type V = Seq<QueuedTask>;

    closed spec fn view(&self) -> Seq<QueuedTask> {
        self.items@
    }
}

impl TaskQueue {
    pub fn new() -> (q: Self)
        ensures
            q@ == Seq::<QueuedTask>::empty(),
    {
        TaskQueue { items: Vec::new() }
    }

    pub fn len(&self) -> (n: usize)
        ensures
            n == self@.len(),
    {
        self.items.len()
    }

    pub fn is_empty(&self) -> (b: bool)
        ensures
            b == (self@.len() == 0),
    {
        self.items.len() == 0
    }

    /// Adds a task at the back of the queue.
    pub fn push(&mut self, task: QueuedTask)
        ensures
            final(self)@ == old(self)@.push(task),
    {
        self.items.push(task);
    }

    /// Takes out the task that is served first.
    pub fn pop(&mut self) -> (r: Option<QueuedTask>)
        ensures
            old(self)@.len() == 0 ==> r is None && final(self)@ == old(self)@,
            old(self)@.len() > 0 ==> r == Some(old(self)@[front_of(old(self)@, old(self)@.len() as int)])
                && final(self)@ == old(self)@.remove(front_of(old(self)@, old(self)@.len() as int)),
    {
        let n = self.items.len();
        if n == 0 {
            return None;
        }
        let mut best: usize = 0;
        let mut i: usize = 1;
        while i < n
            invariant
                n == self.items.len(),
                1 <= i <= n,
                best < i,
                best == front_of(self.items@, i as int),
            decreases n - i,
        {
            if outranks_exec(&self.items[i], &self.items[best]) {
                best = i;
            }
            i = i + 1;
        }
        Some(self.items.remove(best))
    }
}

/// Counters of the scheduler at one moment.
#[derive(Debug, Clone, Copy, PartialEq, Eq, Structural)]
pub struct WarmerStats {
    pub pending_tasks: usize,
    pub running_tasks: usize,
    pub completed_tasks: u64,
    pub failed_tasks: u64,
}

impl WarmerStats {
    /// All counters at zero.
    pub fn new() -> (s: Self)
        ensures
            s == (WarmerStats {
                pending_tasks: 0,
                running_tasks: 0,
                completed_tasks: 0,
                failed_tasks: 0,
            }),
    {
        WarmerStats { pending_tasks: 0, running_tasks: 0, completed_tasks: 0, failed_tasks: 0 }
    }
}

/// The scheduling rule. With a free slot, the task served first is taken
/// from the queue; it is started unless its artifact is running already, in
/// which case it is discarded and the next one is looked at. The result is
/// the task to start, if any, and the queue that is left.
pub open spec fn schedule(queue: Seq<QueuedTask>, running: Seq<Seq<char>>, limit: nat) -> (
    Option<QueuedTask>,
    Seq<QueuedTask>,
)
    decreases queue.len(),
    via schedule_decreases
{
    if running.len() >= limit || queue.len() == 0 {
        (None, queue)
    } else {
        let b = front_of(queue, queue.len() as int);
        if running.contains(queue[b].task.jar_path@) {
            schedule(queue.remove(b), running, limit)
        } else {
            (Some(queue[b]), queue.remove(b))
        }
    }
}

#[via_fn]
proof fn schedule_decreases(queue: Seq<QueuedTask>, running: Seq<Seq<char>>, limit: nat) {
    if queue.len() > 0 {
        lemma_front_of(queue, queue.len() as int);
    }
}

/// A task is started only into a free slot, and only when its artifact is
/// not running.
pub proof fn lemma_schedule(queue: Seq<QueuedTask>, running: Seq<Seq<char>>, limit: nat)
    ensures
        match schedule(queue, running, limit).0 {
            Some(q) => !running.contains(q.task.jar_path@) && running.len() < limit,
            None => true,
        },
        schedule(queue, running, limit).1.len() <= queue.len(),
    decreases queue.len(),
{
    if running.len() >= limit || queue.len() == 0 {
    } else {
        lemma_front_of(queue, queue.len() as int);
        let b = front_of(queue, queue.len() as int);
        if running.contains(queue[b].task.jar_path@) {
            lemma_schedule(queue.remove(b), running, limit);
        }
    }
}

/// The next value of a counter that wraps around.
pub open spec fn next_count(n: u64) -> u64 {
    if n == u64::MAX {
        0
    } else {
        (n + 1) as u64
    }
}

fn position_of(v: &Vec<String>, s: &String) -> (r: Option<usize>)
    ensures
        match r {
            Some(i) => i < v.len() && v.deep_view()[i as int] == s@,
            None => !v.deep_view().contains(s@),
        },
{
    let mut i: usize = 0;
    while i < v.len()
        invariant
            i <= v.len(),
            forall|j: int| 0 <= j < i ==> v.deep_view()[j] != s@,
        decreases v.len() - i,
    {
        if v[i] == *s {
            return Some(i);
        }
        i = i + 1;
    }
    None
}

/// The store after the marks of the first `k` awaiting artifacts were
/// looked at: an artifact with no source left among `queued` is marked as
/// warmed with its class count; one with a source still waiting is not
/// touched.
pub open spec fn marked_upto(
    s: StoreView,
    awaiting: Seq<(Seq<char>, u32)>,
    queued: Seq<(Seq<char>, Seq<char>)>,
    k: int,
) -> StoreView
    decreases k,
{
    if k <= 0 {
        s
    } else {
        let before = marked_upto(s, awaiting, queued, k - 1);
        let (jar, count) = awaiting[k - 1];
        if holds_writes_of(queued, jar) {
            before
        } else {
            StoreView {
                hotspots: before.hotspots.insert(jar, before.hotspot_of(jar).warmed_with(count)),
                ..before
            }
        }
    }
}

/// Of the first `k` awaiting artifacts, those that go on waiting: the ones
/// with a source still among `queued`.
pub open spec fn kept_upto(
    awaiting: Seq<(Seq<char>, u32)>,
    queued: Seq<(Seq<char>, Seq<char>)>,
    k: int,
) -> Seq<(Seq<char>, u32)>
    decreases k,
{
    if k <= 0 {
        Seq::empty()
    } else {
        let before = kept_upto(awaiting, queued, k - 1);
        if holds_writes_of(queued, awaiting[k - 1].0) {
            before.push(awaiting[k - 1])
        } else {
            before
        }
    }
}

/// The warmed mark is never ahead of the cache: as long as a source of an
/// artifact waits in the write buffer, the record of that artifact is not
/// touched, and the artifact goes on awaiting its mark.
pub proof fn lemma_mark_waits_for_flush(
    s: StoreView,
    awaiting: Seq<(Seq<char>, u32)>,
    queued: Seq<(Seq<char>, Seq<char>)>,
    k: int,
    jar: Seq<char>,
)
    requires
        0 <= k <= awaiting.len(),
        holds_writes_of(queued, jar),
    ensures
        marked_upto(s, awaiting, queued, k).hotspots.contains_key(jar) == s.hotspots.contains_key(
            jar,
        ),
        marked_upto(s, awaiting, queued, k).hotspot_of(jar) == s.hotspot_of(jar),
        forall|i: int|
            0 <= i < k && (#[trigger] awaiting[i]).0 == jar ==> kept_upto(
                awaiting,
                queued,
                k,
            ).contains(awaiting[i]),
    decreases k,
{
    if k > 0 {
        lemma_mark_waits_for_flush(s, awaiting, queued, k - 1, jar);
        let before = kept_upto(awaiting, queued, k - 1);
        let now = kept_upto(awaiting, queued, k);
        assert forall|i: int| 0 <= i < k && (#[trigger] awaiting[i]).0 == jar implies now.contains(
            awaiting[i],
        ) by {
            if i < k - 1 {
                assert(before.contains(awaiting[i]));
                let j = before.index_of(awaiting[i]);
                assert(now[j] == awaiting[i]);
            } else {
                assert(now == before.push(awaiting[k - 1]));
                assert(now[before.len() as int] == awaiting[i]);
            }
        }
    }
}

/// The scheduler of warmup tasks. It decides what runs next; running a
/// task is left to its caller, who reports back when the task has ended.
pub struct Warmer {
    queue: TaskQueue,
    in_flight: Vec<String>,
    next_seq: u64,
    accepting: bool,
    config: WarmerConfig,
    completed: u64,
    failed: u64,
    awaiting: Vec<(String, u32)>,
}

impl Warmer {
    /// The tasks that wait.
    pub closed spec fn waiting(&self) -> Seq<QueuedTask> {
        self.queue@
    }

    /// The artifacts whose task is running, in the order they were started.
    pub closed spec fn running(&self) -> Seq<Seq<char>> {
        self.in_flight.deep_view()
    }

    /// The sequence number that the next submitted task gets.
    pub closed spec fn next_seq(&self) -> u64 {
        self.next_seq
    }

    /// Whether tasks are still accepted.
    pub closed spec fn is_accepting(&self) -> bool {
        self.accepting
    }

    /// The number of tasks that may run at once: `max_concurrent`, but at
    /// least 1.
    pub closed spec fn limit(&self) -> nat {
        if self.config.max_concurrent < 1 {
            1
        } else {
            self.config.max_concurrent as nat
        }
    }

    /// How many tasks ended well so far.
    pub closed spec fn completed(&self) -> u64 {
        self.completed
    }

    /// How many tasks failed so far.
    pub closed spec fn failed(&self) -> u64 {
        self.failed
    }

    /// The artifacts whose task ended well and whose warmed mark waits for
    /// the write buffer, each with its class count, in the order the tasks
    /// ended.
    pub closed spec fn awaiting(&self) -> Seq<(Seq<char>, u32)> {
        self.awaiting.deep_view()
    }

    #[verifier::type_invariant]
    spec fn one_task_per_artifact(&self) -> bool {
        &&& self.in_flight.deep_view().no_duplicates()
        &&& self.in_flight.deep_view().len() <= if self.config.max_concurrent < 1 {
            1
        } else {
            self.config.max_concurrent as nat
        }
    }

    /// A scheduler that accepts tasks and has none.
    pub fn new(config: WarmerConfig) -> (w: Self)
        ensures
            w.waiting() == Seq::<QueuedTask>::empty(),
            w.running() == Seq::<Seq<char>>::empty(),
            w.next_seq() == 0,
            w.is_accepting(),
            w.limit() == if config.max_concurrent < 1 {
                1
            } else {
                config.max_concurrent as nat
            },
            w.completed() == 0,
            w.failed() == 0,
            w.awaiting() == Seq::<(Seq<char>, u32)>::empty(),
    {
        let in_flight: Vec<String> = Vec::new();
        let awaiting: Vec<(String, u32)> = Vec::new();
        assert(in_flight.deep_view() =~= Seq::<Seq<char>>::empty());
        assert(awaiting.deep_view() =~= Seq::<(Seq<char>, u32)>::empty());
        Warmer {
            queue: TaskQueue::new(),
            in_flight,
            next_seq: 0,
            accepting: true,
            config,
            completed: 0,
            failed: 0,
            awaiting,
        }
    }

    /// Puts `task` at the back of the queue, behind every task that was
    /// submitted before it. After a shutdown the task is dropped.
    pub fn submit(&mut self, task: WarmupTask)
        ensures
            final(self).running() == old(self).running(),
            final(self).running().no_duplicates(),
            final(self).is_accepting() == old(self).is_accepting(),
            final(self).limit() == old(self).limit(),
            final(self).completed() == old(self).completed(),
            final(self).failed() == old(self).failed(),
            final(self).awaiting() == old(self).awaiting(),
            final(self).running().len() <= final(self).limit(),
            old(self).is_accepting() ==> final(self).waiting() == old(self).waiting().push(
                QueuedTask { priority: task.priority, seq: old(self).next_seq(), task },
            ) && final(self).next_seq() == next_count(old(self).next_seq()),
            !old(self).is_accepting() ==> final(self).waiting() == old(self).waiting() && final(self).next_seq() == old(self).next_seq(),
    {
        proof {
            use_type_invariant(&*self);
        }
        if self.accepting {
            let seq = self.next_seq;
            let mut queue = TaskQueue::new();
            std::mem::swap(&mut queue, &mut self.queue);
            queue.push(QueuedTask { priority: task.priority, seq, task });
            self.queue = queue;
            self.next_seq = seq.wrapping_add(1);
        }
    }

    /// Takes the next task to start, if a slot is free and a task waits
    /// whose artifact is not running. Tasks ahead of it whose artifact is
    /// running are discarded.
    pub fn start_next(&mut self) -> (r: Option<WarmupTask>)
        ensures
            final(self).running().no_duplicates(),
            final(self).waiting() == schedule(
                old(self).waiting(),
                old(self).running(),
                old(self).limit(),
            ).1,
            match schedule(old(self).waiting(), old(self).running(), old(self).limit()).0 {
                Some(q) => r == Some(q.task) && !old(self).running().contains(q.task.jar_path@)
                    && old(self).running().len() < old(self).limit() && final(self).running() == old(self).running().push(q.task.jar_path@),
                None => r is None && final(self).running() == old(self).running(),
            },
            final(self).next_seq() == old(self).next_seq(),
            final(self).is_accepting() == old(self).is_accepting(),
            final(self).limit() == old(self).limit(),
            final(self).completed() == old(self).completed(),
            final(self).failed() == old(self).failed(),
            final(self).awaiting() == old(self).awaiting(),
            final(self).running().len() <= final(self).limit(),
    {
        proof {
            use_type_invariant(&*self);
        }
        let limit = if self.config.max_concurrent < 1 {
            1
        } else {
            self.config.max_concurrent
        };
        let mut queue = TaskQueue::new();
        std::mem::swap(&mut queue, &mut self.queue);
        let mut found: Option<WarmupTask> = None;
        while self.in_flight.len() < limit && found.is_none() && queue.len() > 0
            invariant
                limit == old(self).limit(),
                self.in_flight == old(self).in_flight,
                self.next_seq == old(self).next_seq,
                self.accepting == old(self).accepting,
                self.config == old(self).config,
                self.completed == old(self).completed,
                self.failed == old(self).failed,
                self.awaiting == old(self).awaiting,
                found is None ==> schedule(
                    old(self).waiting(),
                    old(self).running(),
                    old(self).limit(),
                ) == schedule(queue@, old(self).running(), old(self).limit()),
                found is Some ==> {
                    let o = schedule(old(self).waiting(), old(self).running(), old(self).limit());
                    o.0 is Some && found == Some(o.0->0.task) && o.1 == queue@
                },
            decreases queue@.len(),
        {
            let ghost before = queue@;
            proof {
                lemma_front_of(before, before.len() as int);
            }
            match queue.pop() {
                None => {},
                Some(q) => {
                    if position_of(&self.in_flight, &q.task.jar_path).is_none() {
                        found = Some(q.task);
                    }
                },
            }
        }
        proof {
            lemma_schedule(old(self).waiting(), old(self).running(), old(self).limit());
        }
        self.queue = queue;
        match found {
            Some(task) => {
                let path = task.jar_path.clone();
                let mut in_flight: Vec<String> = Vec::new();
                std::mem::swap(&mut in_flight, &mut self.in_flight);
                let ghost before = in_flight.deep_view();
                in_flight.push(path);
                proof {
                    let after = in_flight.deep_view();
                    assert(after =~= before.push(task.jar_path@));
                    assert forall|i: int, j: int|
                        0 <= i < after.len() && 0 <= j < after.len() && i != j implies after[i]
                        != after[j] by {
                        if i < before.len() {
                            assert(before.contains(after[i]));
                        }
                        if j < before.len() {
                            assert(before.contains(after[j]));
                        }
                    }
                }
                self.in_flight = in_flight;
                Some(task)
            },
            None => None,
        }
    }

    /// Records that the task of `jar_path` has ended: its artifact is free
    /// again, and the task counts as completed or failed. For a task that
    /// ended well with `class_count` classes a warmed mark is owed when
    /// `mark` is set; it is not set here but remembered, and set by
    /// `mark_flushed` once the sources of the artifact have left the write
    /// buffer.
    pub fn complete(&mut self, jar_path: &str, outcome: Option<usize>, mark: bool)
        ensures
            final(self).running().no_duplicates(),
            final(self).running().len() <= final(self).limit(),
            final(self).running() == if old(self).running().contains(jar_path@) {
                old(self).running().remove(old(self).running().index_of(jar_path@))
            } else {
                old(self).running()
            },
            !final(self).running().contains(jar_path@),
            final(self).waiting() == old(self).waiting(),
            final(self).next_seq() == old(self).next_seq(),
            final(self).is_accepting() == old(self).is_accepting(),
            final(self).limit() == old(self).limit(),
            final(self).completed() == if outcome is Some {
                next_count(old(self).completed())
            } else {
                old(self).completed()
            },
            final(self).failed() == if outcome is Some {
                old(self).failed()
            } else {
                next_count(old(self).failed())
            },
            final(self).awaiting() == if outcome is Some && mark {
                old(self).awaiting().push((jar_path@, outcome->0 as u32))
            } else {
                old(self).awaiting()
            },
    {
        proof {
            use_type_invariant(&*self);
        }
        let path = jar_path.to_owned();
        match outcome {
            Some(class_count) => {
                self.completed = self.completed.wrapping_add(1);
                if mark {
                    let count: u32 = #[verifier::truncate] (class_count as u32);
                    let ghost before = self.awaiting.deep_view();
                    let mut awaiting: Vec<(String, u32)> = Vec::new();
                    std::mem::swap(&mut awaiting, &mut self.awaiting);
                    awaiting.push((jar_path.to_owned(), count));
                    assert(awaiting.deep_view() =~= before.push((jar_path@, count)));
                    self.awaiting = awaiting;
                }
            },
            None => {
                self.failed = self.failed.wrapping_add(1);
            },
        }
        let mut in_flight: Vec<String> = Vec::new();
        std::mem::swap(&mut in_flight, &mut self.in_flight);
        let ghost before = in_flight.deep_view();
        match position_of(&in_flight, &path) {
            Some(i) => {
                in_flight.remove(i);
                proof {
                    let after = in_flight.deep_view();
                    assert(before.contains(path@));
                    let k = before.index_of(path@);
                    assert(k == i);
                    assert(after =~= before.remove(i as int));
                    assert forall|a: int, b: int|
                        0 <= a < after.len() && 0 <= b < after.len() && a != b implies after[a]
                        != after[b] by {
                        let a0 = if a < i { a } else { a + 1 };
                        let b0 = if b < i { b } else { b + 1 };
                        assert(after[a] == before[a0] && after[b] == before[b0]);
                    }
                    assert(!after.contains(path@)) by {
                        if after.contains(path@) {
                            let a = after.index_of(path@);
                            let a0 = if a < i { a } else { a + 1 };
                            assert(before[a0] == path@);
                        }
                    }
                }
            },
            None => {},
        }
        self.in_flight = in_flight;
    }

    /// Sets the warmed marks that are owed and whose time has come: of the
    /// artifacts that await their mark, each one none of whose sources waits
    /// in `buffer` any longer is marked as warmed with its class count. The
    /// others go on waiting. Returns how many were marked.
    pub fn mark_flushed(
        &mut self,
        buffer: &WriteBuffer,
        hotspot: &HotspotTracker,
        db: &mut PersistentCache,
    ) -> (marked: usize)
        ensures
            final(db).path() == old(db).path(),
            final(db)@ == marked_upto(
                old(db)@,
                old(self).awaiting(),
                buffer.queued(),
                old(self).awaiting().len() as int,
            ),
            final(self).awaiting() == kept_upto(
                old(self).awaiting(),
                buffer.queued(),
                old(self).awaiting().len() as int,
            ),
            marked + final(self).awaiting().len() == old(self).awaiting().len(),
            final(self).running() == old(self).running(),
            final(self).running().no_duplicates(),
            final(self).running().len() <= final(self).limit(),
            final(self).waiting() == old(self).waiting(),
            final(self).next_seq() == old(self).next_seq(),
            final(self).is_accepting() == old(self).is_accepting(),
            final(self).limit() == old(self).limit(),
            final(self).completed() == old(self).completed(),
            final(self).failed() == old(self).failed(),
    {
        proof {
            use_type_invariant(&*self);
        }
        let ghost all = self.awaiting.deep_view();
        let ghost queued = buffer.queued();
        let mut kept: Vec<(String, u32)> = Vec::new();
        let mut marked: usize = 0;
        let mut i: usize = 0;
        assert(kept.deep_view() =~= kept_upto(all, queued, 0));
        while i < self.awaiting.len()
            invariant
                i <= self.awaiting.len(),
                all == self.awaiting.deep_view(),
                queued == buffer.queued(),
                self.in_flight == old(self).in_flight,
                self.queue == old(self).queue,
                self.next_seq == old(self).next_seq,
                self.accepting == old(self).accepting,
                self.config == old(self).config,
                self.completed == old(self).completed,
                self.failed == old(self).failed,
                self.awaiting == old(self).awaiting,
                db.path() == old(db).path(),
                db@ == marked_upto(old(db)@, all, queued, i as int),
                kept.deep_view() == kept_upto(all, queued, i as int),
                marked + kept.len() == i,
            decreases self.awaiting.len() - i,
        {
            let jar = &self.awaiting[i].0;
            let count = self.awaiting[i].1;
            assert(all[i as int] == (jar@, count));
            if buffer.has_writes_of(jar.as_str()) {
                let ghost before = kept.deep_view();
                kept.push((jar.clone(), count));
                assert(kept.deep_view() =~= before.push((jar@, count)));
            } else {
                hotspot.mark_warmed(db, jar.as_str(), count);
                marked = marked + 1;
            }
            i = i + 1;
        }
        self.awaiting = kept;
        marked
    }

    /// The counters at this moment.
    pub fn stats(&self) -> (s: WarmerStats)
        ensures
            s.pending_tasks == self.waiting().len(),
            s.running_tasks == self.running().len(),
            s.completed_tasks == self.completed(),
            s.failed_tasks == self.failed(),
            self.running().no_duplicates(),
            self.running().len() == self.running().to_set().len(),
    {
        proof {
            use_type_invariant(self);
            self.running().unique_seq_to_set();
        }
        WarmerStats {
            pending_tasks: self.queue.len(),
            running_tasks: self.in_flight.len(),
            completed_tasks: self.completed,
            failed_tasks: self.failed,
        }
    }

    /// Stops accepting tasks. Nothing else changes: the tasks that wait are
    /// still to be started, and those that run still to end. The scheduler
    /// is drained once `is_finished` holds.
    pub fn stop_accepting(&mut self)
        ensures
            !final(self).is_accepting(),
            final(self).waiting() == old(self).waiting(),
            final(self).running() == old(self).running(),
            final(self).running().no_duplicates(),
            final(self).next_seq() == old(self).next_seq(),
            final(self).limit() == old(self).limit(),
            final(self).completed() == old(self).completed(),
            final(self).failed() == old(self).failed(),
            final(self).awaiting() == old(self).awaiting(),
            final(self).running().len() <= final(self).limit(),
    {
        proof {
            use_type_invariant(&*self);
        }
        self.accepting = false;
    }

    /// Whether the scheduler is drained: it accepts no task, none waits,
    /// none runs, and no warmed mark is owed.
    pub fn is_finished(&self) -> (b: bool)
        ensures
            b == (!self.is_accepting() && self.waiting().len() == 0 && self.running().len() == 0
                && self.awaiting().len() == 0),
    {
        !self.accepting && self.queue.is_empty() && self.in_flight.len() == 0
            && self.awaiting.len() == 0
    }
}

/// The key under which the source of `class` from `jar` is cached.
pub open spec fn cache_key(class: Seq<char>, jar: Seq<char>) -> Seq<char> {
    class + "::"@ + jar
}

/// Whether a warmup leaves the class `name` out: it is cached already, it
/// is a nested class and only top-level classes are asked for, or it is
/// package or module metadata.
pub open spec fn left_out(name: Seq<char>, mode: WarmupMode, exclude: Seq<Seq<char>>) -> bool {
    exclude.contains(name) || (mode == WarmupMode::TopLevelOnly && name.contains('$'))
        || ends_with(name, "package-info"@) || ends_with(name, "module-info"@)
}

/// The writes that a warmup of `jar` makes for the decompiled `records`.
pub open spec fn warm_writes(
    records: Seq<(Seq<char>, Seq<char>)>,
    jar: Seq<char>,
    mode: WarmupMode,
    exclude: Seq<Seq<char>>,
) -> Seq<(Seq<char>, Seq<char>)>
    decreases records.len(),
{
    if records.len() == 0 {
        Seq::empty()
    } else {
        let prev = warm_writes(records.drop_last(), jar, mode, exclude);
        let r = records.last();
        if left_out(r.0, mode, exclude) {
            prev
        } else {
            prev.push((cache_key(r.0, jar), r.1))
        }
    }
}

/// Hands the classes of a decompiled artifact to the write buffer and
/// returns how many classes the dump holds. `decompiled` is the dump of the
/// whole artifact `jar_key`.
pub fn warmup_jar(
    buffer: &mut WriteBuffer,
    jar_key: &str,
    decompiled: &str,
    mode: WarmupMode,
    exclude_fqns: &Vec<String>,
) -> (class_count: usize)
    ensures
        class_count == records_of(decompiled@).len(),
        final(buffer).is_open() == old(buffer).is_open(),
        final(buffer).settings() == old(buffer).settings(),
        old(buffer).is_open() ==> final(buffer).queued() == old(buffer).queued() + warm_writes(
            records_of(decompiled@),
            jar_key@,
            mode,
            exclude_fqns.deep_view(),
        ),
        !old(buffer).is_open() ==> final(buffer).queued() == old(buffer).queued(),
{
    let classes = parse_decompiled_output(decompiled);
    let ghost records = records_of(decompiled@);
    let ghost exclude = exclude_fqns.deep_view();
    let mut i: usize = 0;
    proof {
        assert(records.take(0) =~= Seq::<(Seq<char>, Seq<char>)>::empty());
        assert(old(buffer).queued() + Seq::<(Seq<char>, Seq<char>)>::empty() =~= old(buffer).queued());
    }
    while i < classes.len()
        invariant
            i <= classes.len(),
            classes.len() == records.len(),
            records == records_of(decompiled@),
            exclude == exclude_fqns.deep_view(),
            forall|j: int|
                0 <= j < classes.len() ==> (#[trigger] classes[j]).holds(records[j].0, records[j].1),
            buffer.is_open() == old(buffer).is_open(),
            buffer.settings() == old(buffer).settings(),
            old(buffer).is_open() ==> buffer.queued() == old(buffer).queued() + warm_writes(
                records.take(i as int),
                jar_key@,
                mode,
                exclude,
            ),
            !old(buffer).is_open() ==> buffer.queued() == old(buffer).queued(),
        decreases classes.len() - i,
    {
        let cls = &classes[i];
        proof {
            assert(cls.holds(records[i as int].0, records[i as int].1));
            assert(records.take(i + 1).drop_last() =~= records.take(i as int));
            assert(records.take(i + 1).last() == records[i as int]);
        }
        let skip = holds_path(exclude_fqns, &cls.class_name) || (mode == WarmupMode::TopLevelOnly
            && has_char(cls.class_name.as_str(), '$')) || str_ends_with(
            cls.class_name.as_str(),
            "package-info",
        ) || str_ends_with(cls.class_name.as_str(), "module-info");
        if !skip {
            let key = concat3(cls.class_name.as_str(), "::", jar_key);
            let ghost before = buffer.queued();
            buffer.enqueue(PendingWrite { key, source: cls.content.clone() });
            proof {
                if old(buffer).is_open() {
                    let prev = warm_writes(records.take(i as int), jar_key@, mode, exclude);
                    assert(buffer.queued() =~= old(buffer).queued() + prev.push(
                        (cache_key(records[i as int].0, jar_key@), records[i as int].1),
                    ));
                }
            }
        }
        i = i + 1;
    }
    assert(records.take(classes.len() as int) =~= records);
    classes.len()
}

} // verus!
