//! Incremental indexing: only artifacts whose modification time moved on
//! are cataloged again.

use vstd::prelude::*;
use crate::cache::{PersistentCache, StoreView};
use crate::registry::{cataloged_with, ClassRegistry};

verus! {

/// How often the repository is scanned.
#[derive(Debug, Clone, Copy)]
pub struct IncrementalConfig {
    pub interval_secs: u64,
}

impl Default for IncrementalConfig {
    fn default() -> (r: Self)
        ensures
            r.interval_secs == 300,
    {
        IncrementalConfig { interval_secs: 300 }
    }
}

/// What one pass over the repository did.
#[derive(Debug)]
pub struct IncrementalIndexResult {
    pub root: String,
    pub scanned_jars: usize,
    pub changed_jars: usize,
    pub indexed_classes: usize,
    pub failed_jars: usize,
}

/// An artifact counts as changed when nothing is recorded for it, or when
/// its modification time is later than the recorded one.
pub open spec fn is_changed(mtimes: Map<Seq<char>, u64>, path: Seq<char>, mtime: u64) -> bool {
    !mtimes.contains_key(path) || mtimes[path] < mtime
}

/// The recorded times after a scan that saw `observed`.
pub open spec fn scanned_times(
    mtimes: Map<Seq<char>, u64>,
    observed: Seq<(Seq<char>, u64)>,
) -> Map<Seq<char>, u64>
    decreases observed.len(),
{
    if observed.len() == 0 {
        mtimes
    } else {
        scanned_times(mtimes, observed.drop_last()).insert(observed.last().0, observed.last().1)
    }
}

/// The artifacts that a scan which saw `observed` reports as changed, in
/// the order in which they were seen.
pub open spec fn scanned_changes(
    mtimes: Map<Seq<char>, u64>,
    observed: Seq<(Seq<char>, u64)>,
) -> Seq<Seq<char>>
    decreases observed.len(),
{
    if observed.len() == 0 {
        Seq::empty()
    } else {
        let before = scanned_changes(mtimes, observed.drop_last());
        let last = observed.last();
        if is_changed(scanned_times(mtimes, observed.drop_last()), last.0, last.1) {
            before.push(last.0)
        } else {
            before
        }
    }
}

/// The store after the catalogs of the changed artifacts were merged; an
/// artifact without a catalog leaves it as it is.
pub open spec fn indexed_store(
    s: StoreView,
    changed: Seq<(Seq<char>, Option<Seq<Seq<char>>>)>,
) -> StoreView
    decreases changed.len(),
{
    if changed.len() == 0 {
        s
    } else {
        let before = indexed_store(s, changed.drop_last());
        match changed.last().1 {
            Some(classes) => cataloged_with(before, changed.last().0, classes),
            None => before,
        }
    }
}

/// Number of classes in the catalogs, held at the largest `usize`.
pub open spec fn indexed_count(changed: Seq<(Seq<char>, Option<Seq<Seq<char>>>)>) -> usize
    decreases changed.len(),
{
    if changed.len() == 0 {
        0
    } else {
        let before = indexed_count(changed.drop_last());
        match changed.last().1 {
            Some(classes) => if before + classes.len() > usize::MAX {
                usize::MAX
            } else {
                (before + classes.len()) as usize
            },
            None => before,
        }
    }
}

/// Number of artifacts without a catalog.
pub open spec fn failed_count(changed: Seq<(Seq<char>, Option<Seq<Seq<char>>>)>) -> nat
    decreases changed.len(),
{
    if changed.len() == 0 {
        0
    } else {
        failed_count(changed.drop_last()) + if changed.last().1 is None {
            1nat
        } else {
            0nat
        }
    }
}

/// An artifact seen for the first time is reported as changed. Seen again
/// with the same modification time it is not; seen with a later one it is.
pub proof fn lemma_scan_sequence(mtimes: Map<Seq<char>, u64>, path: Seq<char>, t: u64, later: u64)
    requires
        t < later,
    ensures
        !mtimes.contains_key(path) ==> scanned_changes(mtimes, seq![(path, t)]) == seq![path],
        scanned_changes(scanned_times(mtimes, seq![(path, t)]), seq![(path, t)]) == Seq::<
            Seq<char>,
        >::empty(),
        scanned_changes(scanned_times(mtimes, seq![(path, t)]), seq![(path, later)]) == seq![path],
{
    let none = Seq::<(Seq<char>, u64)>::empty();
    let one = seq![(path, t)];
    let next = seq![(path, later)];
    assert(one.drop_last() =~= none && one.last() == (path, t));
    assert(next.drop_last() =~= none && next.last() == (path, later));
    let m1 = mtimes.insert(path, t);
    assert(scanned_times(mtimes, none) == mtimes);
    assert(scanned_times(mtimes, one) == m1);
    assert(scanned_times(m1, none) == m1);
    assert(scanned_changes(mtimes, none) =~= Seq::<Seq<char>>::empty());
    assert(scanned_changes(m1, none) =~= Seq::<Seq<char>>::empty());
    assert(scanned_changes(m1, one) =~= Seq::<Seq<char>>::empty());
    assert(scanned_changes(m1, next) =~= seq![path]);
    if !mtimes.contains_key(path) {
        assert(scanned_changes(mtimes, one) =~= seq![path]);
    }
}

/// A scan records the time of every artifact it saw; for an artifact seen
/// several times, the time seen last.
pub proof fn lemma_scanned_times(mtimes: Map<Seq<char>, u64>, observed: Seq<(Seq<char>, u64)>)
    ensures
        forall|i: int|
            0 <= i < observed.len() ==> scanned_times(mtimes, observed).contains_key(
                (#[trigger] observed[i]).0,
            ),
        forall|i: int|
            0 <= i < observed.len() && (forall|j: int|
                i < j < observed.len() ==> (#[trigger] observed[j]).0 != observed[i].0)
                ==> scanned_times(mtimes, observed)[(#[trigger] observed[i]).0] == observed[i].1,
    decreases observed.len(),
{
    if observed.len() > 0 {
        let init = observed.drop_last();
        lemma_scanned_times(mtimes, init);
        let last = observed.len() - 1;
        assert forall|i: int| 0 <= i < observed.len() implies scanned_times(
            mtimes,
            observed,
        ).contains_key((#[trigger] observed[i]).0) by {
            if i < last {
                assert(init[i] == observed[i]);
            }
        }
        assert forall|i: int|
            0 <= i < observed.len() && (forall|j: int|
                i < j < observed.len() ==> (#[trigger] observed[j]).0
                    != observed[i].0) implies scanned_times(mtimes, observed)[(
            #[trigger] observed[i]).0] == observed[i].1 by {
            if i < last {
                assert(init[i] == observed[i]);
                assert(observed[last].0 != observed[i].0);
                assert forall|j: int| i < j < init.len() implies (#[trigger] init[j]).0
                    != init[i].0 by {
                    assert(init[j] == observed[j]);
                }
            }
        }
    }
}

/// Scanning again what was just scanned, with every artifact seen once,
/// reports no change.
pub proof fn lemma_rescan_unchanged(mtimes: Map<Seq<char>, u64>, observed: Seq<(Seq<char>, u64)>)
    requires
        forall|i: int, j: int|
            0 <= i < j < observed.len() ==> (#[trigger] observed[i]).0 != (#[trigger] observed[j]).0,
    ensures
        scanned_changes(scanned_times(mtimes, observed), observed) == Seq::<Seq<char>>::empty(),
        scanned_times(scanned_times(mtimes, observed), observed) == scanned_times(mtimes, observed),
{
    let m1 = scanned_times(mtimes, observed);
    lemma_scanned_times(mtimes, observed);
    lemma_rescan_prefix(m1, observed, observed.len() as int);
    assert(observed.take(observed.len() as int) =~= observed);
}

/// Scanning a prefix of `observed` changes nothing in a map that holds the
/// time of each of its artifacts.
proof fn lemma_rescan_prefix(m: Map<Seq<char>, u64>, observed: Seq<(Seq<char>, u64)>, n: int)
    requires
        0 <= n <= observed.len(),
        forall|i: int|
            0 <= i < observed.len() ==> m.contains_key((#[trigger] observed[i]).0) && m[observed[i].0]
                == observed[i].1,
    ensures
        scanned_times(m, observed.take(n)) == m,
        scanned_changes(m, observed.take(n)) == Seq::<Seq<char>>::empty(),
    decreases n,
{
    if n > 0 {
        lemma_rescan_prefix(m, observed, n - 1);
        assert(observed.take(n).drop_last() =~= observed.take(n - 1));
        assert(observed.take(n).last() == observed[n - 1]);
        assert(m.insert(observed[n - 1].0, observed[n - 1].1) =~= m);
    }
}

/// Compares what a walk of the repository saw with what the store recorded.
#[derive(Debug, Clone)]
pub struct IncrementalIndexer {
    root: String,
}

impl IncrementalIndexer {
    /// The root of the repository this indexer watches.
    pub closed spec fn root_path(&self) -> Seq<char> {
        self.root@
    }

    pub fn new(root: String) -> (r: Self)
        ensures
            r.root_path() == root@,
    {
        IncrementalIndexer { root }
    }

    pub fn root(&self) -> (r: &String)
        ensures
            r@ == self.root_path(),
    {
        &self.root
    }

    /// Takes the artifacts that a walk found, each with its modification
    /// time, and returns how many there are and which of them changed. The
    /// time of every artifact is recorded, changed or not.
    pub fn scan_changes(&self, db: &mut PersistentCache, observed: &Vec<(String, u64)>) -> (r: (
        usize,
        Vec<String>,
    ))
        ensures
            r.0 == observed.len(),
            r.1.deep_view() == scanned_changes(old(db)@.mtimes, observed.deep_view()),
            final(db)@ == (StoreView {
                mtimes: scanned_times(old(db)@.mtimes, observed.deep_view()),
                ..old(db)@
            }),
            final(db).path() == old(db).path(),
    {
        let ghost seen = observed.deep_view();
        let ghost start = db@.mtimes;
        let mut changed: Vec<String> = Vec::new();
        let mut i: usize = 0;
        proof {
            assert(seen.take(0) =~= Seq::<(Seq<char>, u64)>::empty());
            assert(changed.deep_view() =~= Seq::<Seq<char>>::empty());
        }
        while i < observed.len()
            invariant
                i <= observed.len(),
                seen == observed.deep_view(),
                start == old(db)@.mtimes,
                db.path() == old(db).path(),
                db@ == (StoreView { mtimes: scanned_times(start, seen.take(i as int)), ..old(db)@ }),
                changed.deep_view() == scanned_changes(start, seen.take(i as int)),
            decreases observed.len() - i,
        {
            let path = &observed[i].0;
            let mtime = observed[i].1;
            proof {
                assert(seen.take(i + 1).drop_last() =~= seen.take(i as int));
                assert(seen.take(i + 1).last() == seen[i as int]);
                assert(seen[i as int] == (path@, mtime));
            }
            let is_new = match db.mtime(path.as_str()) {
                Some(old_time) => old_time < mtime,
                None => true,
            };
            if is_new {
                let ghost before = changed.deep_view();
                changed.push(path.clone());
                assert(changed.deep_view() =~= before.push(path@));
            }
            db.put_mtime(path.as_str(), mtime);
            i = i + 1;
        }
        assert(seen.take(observed.len() as int) =~= seen);
        (observed.len(), changed)
    }

    /// Merges the catalogs of the changed artifacts into the registry and
    /// sums up the pass. `changed` holds each changed artifact with its
    /// class list, or with `None` when the list could not be read; such an
    /// artifact counts as failed and stops nothing.
    pub fn run_once(
        &self,
        db: &mut PersistentCache,
        registry: &ClassRegistry,
        scanned_jars: usize,
        changed: &Vec<(String, Option<Vec<String>>)>,
    ) -> (r: IncrementalIndexResult)
        ensures
            r.root@ == self.root_path(),
            r.scanned_jars == scanned_jars,
            r.changed_jars == changed.len(),
            r.indexed_classes == indexed_count(changed.deep_view()),
            r.failed_jars == failed_count(changed.deep_view()),
            final(db)@ == indexed_store(old(db)@, changed.deep_view()),
            final(db).path() == old(db).path(),
    {
        let ghost all = changed.deep_view();
        let mut indexed_classes: usize = 0;
        let mut failed_jars: usize = 0;
        let mut i: usize = 0;
        proof {
            assert(all.take(0) =~= Seq::<(Seq<char>, Option<Seq<Seq<char>>>)>::empty());
        }
        while i < changed.len()
            invariant
                i <= changed.len(),
                all == changed.deep_view(),
                failed_jars <= i,
                failed_jars == failed_count(all.take(i as int)),
                indexed_classes == indexed_count(all.take(i as int)),
                db@ == indexed_store(old(db)@, all.take(i as int)),
                db.path() == old(db).path(),
            decreases changed.len() - i,
        {
            proof {
                assert(all.take(i + 1).drop_last() =~= all.take(i as int));
                assert(all.take(i + 1).last() == all[i as int]);
                assert(all[i as int].0 == changed[i as int].0@);
            }
            match &changed[i].1 {
                Some(classes) => {
                    assert(all[i as int].1 == Some(classes.deep_view()));
                    indexed_classes = indexed_classes.saturating_add(classes.len());
                    let _ = registry.update_registry_and_mark_cataloged(
                        db,
                        changed[i].0.as_str(),
                        classes,
                    );
                },
                None => {
                    assert(all[i as int].1 is None);
                    failed_jars = failed_jars + 1;
                },
            }
            i = i + 1;
        }
        assert(all.take(changed.len() as int) =~= all);
        IncrementalIndexResult {
            root: self.root.clone(),
            scanned_jars,
            changed_jars: changed.len(),
            indexed_classes,
            failed_jars,
        }
    }
}

} // verus!
