//! The steps of the commands that load and index artifacts.

use vstd::prelude::*;
use crate::buffer::{PendingWrite, WriteBuffer};
use crate::buffer::lemma_flush_persists_all;
use crate::cache::{written, PersistentCache, StoreView};
use crate::find::source_key;
use crate::hotspot::{is_ranking, HotspotTracker};
use crate::incremental::{failed_count, indexed_count};
use crate::parse::{parse_decompiled_output, records_of};
use crate::registry::{cataloged_with, ClassRegistry};
use crate::warmup::cache_key;

verus! {

/// What loading one artifact did.
#[derive(Debug, Clone)]
pub struct LoadResult {
    pub jar_path: String,
    pub classes_loaded: usize,
    pub skipped: bool,
    pub duration_ms: u64,
}

/// What indexing a repository did.
#[derive(Debug, Clone)]
pub struct IndexResult {
    pub root: String,
    pub scanned_jars: usize,
    pub cataloged_jars_new: usize,
    pub indexed_classes: usize,
    pub duration_ms: u64,
    pub failed_jars: usize,
}

/// A command cannot be carried out.
#[derive(Debug, Clone, Copy, PartialEq, Eq, Structural)]
pub enum CommandError {
    /// The artifact is not loaded and the decompiler gave no dump of it.
    NoDump,
    /// A warmup names neither an artifact nor a way to choose some.
    NoTarget,
}

impl CommandError {
    pub fn message(&self) -> (r: String)
        ensures
            r@ == match *self {
                CommandError::NoDump => "CFR decompilation failed"@,
                CommandError::NoTarget => "warmup requires jar_path, or use --hot / --group"@,
            },
    {
        match self {
            CommandError::NoDump => "CFR decompilation failed".to_owned(),
            CommandError::NoTarget => "warmup requires jar_path, or use --hot / --group".to_owned(),
        }
    }
}

/// The store once the catalog of `jar`, if one is given and `jar` is not
/// cataloged yet, is merged into the registry.
pub open spec fn cataloged_once(s: StoreView, jar: Seq<char>, classes: Option<Seq<Seq<char>>>) -> StoreView {
    if !s.cataloged.contains(jar) && classes is Some {
        cataloged_with(s, jar, classes->0)
    } else {
        s
    }
}

/// The writes that loading `jar` makes for the decompiled `records`: one
/// for each record, in order.
pub open spec fn load_writes(records: Seq<(Seq<char>, Seq<char>)>, jar: Seq<char>) -> Seq<
    (Seq<char>, Seq<char>),
> {
    Seq::new(records.len(), |i: int| (cache_key(records[i].0, jar), records[i].1))
}

/// After an artifact was loaded and the write buffer was flushed, the
/// store holds a source for every class of the dump, under the key of the
/// class and the artifact: a lookup of such a class finds it in the cache.
/// `waiting` is what waited in the buffer before the load.
pub proof fn lemma_loaded_classes_cached(
    sources: Map<Seq<char>, Seq<char>>,
    waiting: Seq<(Seq<char>, Seq<char>)>,
    dump: Seq<char>,
    jar: Seq<char>,
)
    ensures
        forall|i: int|
            0 <= i < records_of(dump).len() ==> written(
                sources,
                waiting + load_writes(records_of(dump), jar),
            ).contains_key(cache_key((#[trigger] records_of(dump)[i]).0, jar)),
{
    let records = records_of(dump);
    let writes = load_writes(records, jar);
    lemma_flush_persists_all(sources, waiting, writes);
    assert forall|i: int| 0 <= i < records.len() implies written(
        sources,
        waiting + writes,
    ).contains_key(cache_key((#[trigger] records[i]).0, jar)) by {
        assert(writes[i].0 == cache_key(records[i].0, jar));
    }
}

/// Loads the classes of an artifact into the write buffer. `classes` is
/// the catalog of the artifact, when it could be read; `dump` is what the
/// decompiler gave for the whole artifact, when it gave anything. An
/// artifact that is marked as loaded is skipped, and its dump not looked
/// at.
pub fn load_jar(
    db: &mut PersistentCache,
    registry: &ClassRegistry,
    buffer: &mut WriteBuffer,
    jar_key: &str,
    classes: Option<&Vec<String>>,
    dump: Option<&str>,
) -> (r: Result<LoadResult, CommandError>)
    ensures
        final(db).path() == old(db).path(),
        final(db)@ == cataloged_once(
            old(db)@,
            jar_key@,
            match classes {
                Some(c) => Some(c.deep_view()),
                None => None,
            },
        ),
        final(buffer).is_open() == old(buffer).is_open(),
        final(buffer).settings() == old(buffer).settings(),
        final(buffer).published() == if old(buffer).is_open() && old(buffer).queued().len() == 0
            && final(buffer).queued().len() > 0 {
            Some(1usize)
        } else {
            old(buffer).published()
        },
        match r {
            Ok(load) => load.jar_path@ == jar_key@ && load.duration_ms == 0 && if old(db)@.loaded.contains(jar_key@) {
                load.skipped && load.classes_loaded == 0 && final(buffer).queued() == old(buffer).queued()
            } else {
                dump is Some && !load.skipped && load.classes_loaded == records_of(dump->0@).len()
                    && final(buffer).queued() == if old(buffer).is_open() {
                    old(buffer).queued() + load_writes(records_of(dump->0@), jar_key@)
                } else {
                    old(buffer).queued()
                }
            },
            Err(e) => e == CommandError::NoDump && !old(db)@.loaded.contains(jar_key@) && dump is None
                && final(buffer).queued() == old(buffer).queued(),
        },
{
    if !registry.is_cataloged(db, jar_key) {
        match classes {
            Some(c) => {
                let _ = registry.update_registry_and_mark_cataloged(db, jar_key, c);
            },
            None => {},
        }
    }
    if db.is_jar_loaded(jar_key) {
        return Ok(
            LoadResult {
                jar_path: jar_key.to_owned(),
                classes_loaded: 0,
                skipped: true,
                duration_ms: 0,
            },
        );
    }
    match dump {
        None => Err(CommandError::NoDump),
        Some(text) => {
            let parsed = parse_decompiled_output(text);
            let ghost records = records_of(text@);
            let ghost all = load_writes(records, jar_key@);
            let mut i: usize = 0;
            assert(all.take(0) =~= Seq::<(Seq<char>, Seq<char>)>::empty());
            assert(buffer.queued() + all.take(0) =~= buffer.queued());
            while i < parsed.len()
                invariant
                    i <= parsed.len(),
                    parsed.len() == records.len(),
                    records == records_of(text@),
                    all == load_writes(records, jar_key@),
                    forall|j: int|
                        0 <= j < parsed.len() ==> (#[trigger] parsed[j]).holds(
                            records[j].0,
                            records[j].1,
                        ),
                    buffer.is_open() == old(buffer).is_open(),
                    buffer.settings() == old(buffer).settings(),
                    buffer.queued() == if old(buffer).is_open() {
                        old(buffer).queued() + all.take(i as int)
                    } else {
                        old(buffer).queued()
                    },
                    buffer.published() == if old(buffer).is_open() && old(buffer).queued().len()
                        == 0 && i > 0 {
                        Some(1usize)
                    } else {
                        old(buffer).published()
                    },
                decreases parsed.len() - i,
            {
                let cls = &parsed[i];
                assert(cls.holds(records[i as int].0, records[i as int].1));
                let key = source_key(cls.class_name.as_str(), jar_key);
                buffer.enqueue(PendingWrite { key, source: cls.content.clone() });
                proof {
                    assert(all.take(i + 1) =~= all.take(i as int).push(all[i as int]));
                    if old(buffer).is_open() {
                        assert(buffer.queued() =~= old(buffer).queued() + all.take(i + 1));
                    }
                }
                i = i + 1;
            }
            assert(all.take(parsed.len() as int) =~= all);
            let classes_loaded = parsed.len();
            Ok(
                LoadResult {
                    jar_path: jar_key.to_owned(),
                    classes_loaded,
                    skipped: false,
                    duration_ms: 0,
                },
            )
        },
    }
}

/// The store after the artifacts of a repository were indexed: each one
/// that is not cataloged yet and has a catalog is merged into the
/// registry.
pub open spec fn indexed_repo(s: StoreView, jars: Seq<(Seq<char>, Option<Seq<Seq<char>>>)>) -> StoreView
    decreases jars.len(),
{
    if jars.len() == 0 {
        s
    } else {
        cataloged_once(indexed_repo(s, jars.drop_last()), jars.last().0, jars.last().1)
    }
}

/// The artifacts that indexing looks into: those that are not cataloged
/// when their turn comes.
pub open spec fn fresh_jars(s: StoreView, jars: Seq<(Seq<char>, Option<Seq<Seq<char>>>)>) -> Seq<
    (Seq<char>, Option<Seq<Seq<char>>>),
>
    decreases jars.len(),
{
    if jars.len() == 0 {
        Seq::empty()
    } else {
        let before = fresh_jars(s, jars.drop_last());
        if indexed_repo(s, jars.drop_last()).cataloged.contains(jars.last().0) {
            before
        } else {
            before.push(jars.last())
        }
    }
}

/// Catalogs every artifact of a repository that is not cataloged yet.
/// `jars` holds the artifacts that a walk of `root` found, each with its
/// class list, or with `None` when the list could not be read. An artifact
/// that is cataloged already is passed over, whatever comes with it.
pub fn index_repo(
    db: &mut PersistentCache,
    registry: &ClassRegistry,
    root: &str,
    jars: &Vec<(String, Option<Vec<String>>)>,
) -> (r: IndexResult)
    ensures
        final(db).path() == old(db).path(),
        final(db)@ == indexed_repo(old(db)@, jars.deep_view()),
        r.root@ == root@,
        r.scanned_jars == jars.len(),
        r.duration_ms == 0,
        r.failed_jars == failed_count(fresh_jars(old(db)@, jars.deep_view())),
        r.indexed_classes == indexed_count(fresh_jars(old(db)@, jars.deep_view())),
        r.cataloged_jars_new + r.failed_jars == fresh_jars(old(db)@, jars.deep_view()).len(),
{
    let ghost all = jars.deep_view();
    let ghost start = db@;
    let mut cataloged_jars_new: usize = 0;
    let mut indexed_classes: usize = 0;
    let mut failed_jars: usize = 0;
    let mut i: usize = 0;
    assert(all.take(0) =~= Seq::<(Seq<char>, Option<Seq<Seq<char>>>)>::empty());
    while i < jars.len()
        invariant
            i <= jars.len(),
            all == jars.deep_view(),
            start == old(db)@,
            db.path() == old(db).path(),
            db@ == indexed_repo(start, all.take(i as int)),
            cataloged_jars_new + failed_jars == fresh_jars(start, all.take(i as int)).len(),
            cataloged_jars_new + failed_jars <= i,
            failed_jars == failed_count(fresh_jars(start, all.take(i as int))),
            indexed_classes == indexed_count(fresh_jars(start, all.take(i as int))),
        decreases jars.len() - i,
    {
        let jar_key = jars[i].0.as_str();
        proof {
            assert(all.take(i + 1).drop_last() =~= all.take(i as int));
            assert(all.take(i + 1).last() == all[i as int]);
            assert(all[i as int].0 == jar_key@);
            let fresh = fresh_jars(start, all.take(i as int));
            assert(fresh.push(all[i as int]).drop_last() =~= fresh);
        }
        if !registry.is_cataloged(db, jar_key) {
            match &jars[i].1 {
                Some(classes) => {
                    assert(all[i as int].1 == Some(classes.deep_view()));
                    indexed_classes = indexed_classes.saturating_add(classes.len());
                    let _ = registry.update_registry_and_mark_cataloged(db, jar_key, classes);
                    cataloged_jars_new = cataloged_jars_new + 1;
                },
                None => {
                    assert(all[i as int].1 is None);
                    failed_jars = failed_jars + 1;
                },
            }
        }
        i = i + 1;
    }
    assert(all.take(jars.len() as int) =~= all);
    IndexResult {
        root: root.to_owned(),
        scanned_jars: jars.len(),
        cataloged_jars_new,
        indexed_classes,
        duration_ms: 0,
        failed_jars,
    }
}

/// How a warmup chooses its artifacts.
#[derive(Debug, Clone)]
pub struct WarmupParams {
    pub jar_path: Option<String>,
    pub hot: bool,
    pub group: Option<String>,
    pub top: usize,
    pub limit: Option<usize>,
}

/// The artifacts that a warmup works on: the most used unwarmed ones when
/// `hot` is set, else those of the group when one is named, else the one
/// artifact that is named; never more than `limit`. `group_jars` is what a
/// walk of the group's directory found.
pub fn warmup_targets(
    db: &PersistentCache,
    hotspot: &HotspotTracker,
    params: &WarmupParams,
    group_jars: &Vec<String>,
) -> (r: Result<Vec<String>, CommandError>)
    ensures
        match r {
            Err(e) => e == CommandError::NoTarget && !params.hot && params.group is None
                && params.jar_path is None,
            Ok(targets) => exists|chosen: Seq<Seq<char>>|
                {
                    &&& targets.deep_view() == match params.limit {
                        Some(limit) => if limit < chosen.len() {
                            chosen.take(limit as int)
                        } else {
                            chosen
                        },
                        None => chosen,
                    }
                    &&& if params.hot {
                        is_ranking(chosen, db@.hotspots, params.top as nat, true)
                    } else if params.group is Some {
                        chosen == group_jars.deep_view()
                    } else {
                        params.jar_path is Some && #[trigger] chosen.len() == 1 && chosen[0]
                            == params.jar_path->0@
                    }
                },
        },
{
    let mut targets: Vec<String> = if params.hot {
        hotspot.top_unwarmed_jars(db, params.top)
    } else if params.group.is_some() {
        crate::registry::copy_paths(group_jars)
    } else {
        match &params.jar_path {
            Some(jar) => {
                let mut one: Vec<String> = Vec::new();
                one.push(jar.clone());
                one
            },
            None => {
                return Err(CommandError::NoTarget);
            },
        }
    };
    let ghost chosen = targets.deep_view();
    match params.limit {
        Some(limit) => {
            if limit < targets.len() {
                targets.truncate(limit);
                assert(targets.deep_view() =~= chosen.take(limit as int));
            }
        },
        None => {},
    }
    Ok(targets)
}

} // verus!
