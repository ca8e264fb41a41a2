//! The store: the named tables that every component reads and writes.
//!
//! Each table holds one kind of record under a text key. A write replaces
//! the row of its key and touches nothing else, so the state of the store
//! after any operation is a function of its state before.

use vstd::prelude::*;
use crate::hotspot::{is_ranking, lemma_ranking, ranked_rows, JarHotspot};
use crate::table::Table;

verus! {

pub const CLASSES_DB: &'static str = "classes";

pub const JARS_DB: &'static str = "jars";

pub const CLASS_REGISTRY_DB: &'static str = "class_registry";

pub const ARTIFACT_MANIFEST_DB: &'static str = "artifact_manifest";

pub const JAR_HOTSPOT_DB: &'static str = "jar_hotspot";

pub const JAR_MTIME_DB: &'static str = "jar_mtime";

/// The contents of the store, table by table.
pub ghost struct StoreView {
    /// Decompiled source by `{class}::{artifact}`.
    pub sources: Map<Seq<char>, Seq<char>>,
    /// Artifacts whose classes were all loaded.
    pub loaded: Set<Seq<char>>,
    /// Artifacts known to hold each class, in the order they were learnt.
    pub registry: Map<Seq<char>, Seq<Seq<char>>>,
    /// Artifacts whose class list was merged into the registry.
    pub cataloged: Set<Seq<char>>,
    /// Access record by artifact.
    pub hotspots: Map<Seq<char>, JarHotspot>,
    /// Last seen modification time by artifact.
    pub mtimes: Map<Seq<char>, u64>,
}

impl StoreView {
    /// The store in which every table is empty.
    pub open spec fn empty() -> StoreView {
        StoreView {
            sources: Map::empty(),
            loaded: Set::empty(),
            registry: Map::empty(),
            cataloged: Set::empty(),
            hotspots: Map::empty(),
            mtimes: Map::empty(),
        }
    }

    /// The artifacts recorded for `fqn`; none when it has no entry.
    pub open spec fn artifacts_of(self, fqn: Seq<char>) -> Seq<Seq<char>> {
        if self.registry.contains_key(fqn) {
            self.registry[fqn]
        } else {
            Seq::empty()
        }
    }

    /// The access record of `jar`; the fresh one when it has none.
    pub open spec fn hotspot_of(self, jar: Seq<char>) -> JarHotspot {
        if self.hotspots.contains_key(jar) {
            self.hotspots[jar]
        } else {
            JarHotspot::fresh()
        }
    }
}

/// One line of the hotspot listing.
#[derive(Debug)]
pub struct HotspotTopEntry {
    pub jar_path: String,
    pub access_count: u32,
    pub last_access: u64,
    pub warmed: bool,
}

/// Sizes of the tables and the most used artifacts.
#[derive(Debug)]
pub struct CacheStats {
    pub db_path: String,
    pub source_entries: u64,
    pub indexed_classes: u64,
    pub cataloged_jars: u64,
    pub loaded_jars: u64,
    pub write_buffer_pending: u64,
    pub hotspot_jars: u64,
    pub warmed_jars: u64,
    pub warmup_threshold: u32,
    pub warmup_pending_tasks: u64,
    pub hotspot_top: Vec<HotspotTopEntry>,
}

/// `sources` after the writes `entries`, applied in order: a later write to
/// a key replaces an earlier one.
pub open spec fn written(
    sources: Map<Seq<char>, Seq<char>>,
    entries: Seq<(Seq<char>, Seq<char>)>,
) -> Map<Seq<char>, Seq<char>>
    decreases entries.len(),
{
    if entries.len() == 0 {
        sources
    } else {
        written(sources, entries.drop_last()).insert(entries.last().0, entries.last().1)
    }
}

/// Writing `a` and then `b` is writing `a + b`.
pub proof fn lemma_written_concat(
    sources: Map<Seq<char>, Seq<char>>,
    a: Seq<(Seq<char>, Seq<char>)>,
    b: Seq<(Seq<char>, Seq<char>)>,
)
    ensures
        written(written(sources, a), b) == written(sources, a + b),
    decreases b.len(),
{
    if b.len() == 0 {
        assert(a + b =~= a);
    } else {
        lemma_written_concat(sources, a, b.drop_last());
        assert((a + b).drop_last() =~= a + b.drop_last());
        assert((a + b).last() == b.last());
    }
}

/// After a run of writes every written key is present, with the source of
/// the last write to that key.
pub proof fn lemma_written_keys(
    sources: Map<Seq<char>, Seq<char>>,
    entries: Seq<(Seq<char>, Seq<char>)>,
)
    ensures
        forall|i: int|
            0 <= i < entries.len() ==> written(sources, entries).contains_key(
                (#[trigger] entries[i]).0,
            ),
        forall|i: int|
            0 <= i < entries.len() && (forall|j: int|
                i < j < entries.len() ==> (#[trigger] entries[j]).0 != entries[i].0) ==> written(
                sources,
                entries,
            )[(#[trigger] entries[i]).0] == entries[i].1,
    decreases entries.len(),
{
    if entries.len() > 0 {
        let init = entries.drop_last();
        lemma_written_keys(sources, init);
        let last = entries.len() - 1;
        assert forall|i: int| 0 <= i < entries.len() implies written(sources, entries).contains_key(
            (#[trigger] entries[i]).0,
        ) by {
            if i < last {
                assert(init[i] == entries[i]);
            }
        }
        assert forall|i: int|
            0 <= i < entries.len() && (forall|j: int|
                i < j < entries.len() ==> (#[trigger] entries[j]).0 != entries[i].0) implies written(
            sources,
            entries,
        )[(#[trigger] entries[i]).0] == entries[i].1 by {
            if i < last {
                assert(init[i] == entries[i]);
                assert(entries[last].0 != entries[i].0);
                assert forall|j: int| i < j < init.len() implies (#[trigger] init[j]).0
                    != init[i].0 by {
                    assert(init[j] == entries[j]);
                }
            }
        }
    }
}

/// The artifacts of `m` that were warmed.
pub open spec fn warmed_keys(m: Map<Seq<char>, JarHotspot>) -> Set<Seq<char>> {
    Set::new(|k: Seq<char>| m.contains_key(k) && m[k].warmed)
}

/// The paths of a listing, in its order.
pub open spec fn listing_paths(top: Seq<HotspotTopEntry>) -> Seq<Seq<char>> {
    Seq::new(top.len(), |i: int| top[i].jar_path@)
}

/// How many artifacts the hotspot listing of the statistics shows.
pub const HOTSPOT_TOP: usize = 10;

/// `stats` are the statistics of the store `s` at `path`, while the
/// pending-write gauge shows `pending`: the sizes of the tables, the
/// number of warmed artifacts, and the ten most used artifacts in rank
/// order.
pub open spec fn describes(stats: CacheStats, path: Seq<char>, s: StoreView, pending: u64) -> bool {
    &&& stats.db_path@ == path
    &&& stats.source_entries == s.sources.dom().len()
    &&& stats.indexed_classes == s.registry.dom().len()
    &&& stats.cataloged_jars == s.cataloged.len()
    &&& stats.loaded_jars == s.loaded.len()
    &&& stats.write_buffer_pending == pending
    &&& stats.hotspot_jars == s.hotspots.dom().len()
    &&& stats.warmed_jars == warmed_keys(s.hotspots).len()
    &&& stats.warmup_threshold == 2
    &&& stats.warmup_pending_tasks == 0
    &&& is_ranking(listing_paths(stats.hotspot_top@), s.hotspots, HOTSPOT_TOP as nat, false)
    &&& forall|i: int|
        0 <= i < stats.hotspot_top.len() ==> {
            let e = #[trigger] stats.hotspot_top[i];
            let h = s.hotspots[e.jar_path@];
            e.access_count == h.access_count && e.last_access == h.last_access && e.warmed
                == h.warmed
        }
}

/// The store. All of its tables live and change together.
pub struct PersistentCache {
    db_path: String,
    classes: Table<String>,
    jars: Table<()>,
    class_registry: Table<Vec<String>>,
    artifact_manifest: Table<()>,
    jar_hotspot: Table<JarHotspot>,
    jar_mtime: Table<u64>,
}

impl View for PersistentCache {
    type V = StoreView;

    closed spec fn view(&self) -> StoreView {
        StoreView {
            sources: self.classes.model(),
            loaded: self.jars.model().dom(),
            registry: self.class_registry.model(),
            cataloged: self.artifact_manifest.model().dom(),
            hotspots: self.jar_hotspot.model(),
            mtimes: self.jar_mtime.model(),
        }
    }
}

impl PersistentCache {
    /// The path that names this store.
    pub closed spec fn path(&self) -> Seq<char> {
        self.db_path@
    }

    /// A store at `db_path` with all tables created and empty.
    pub fn open(db_path: String) -> (s: Self)
        ensures
            s@ == StoreView::empty(),
            s.path() == db_path@,
    {
        let s = PersistentCache {
            db_path,
            classes: Table::new(),
            jars: Table::new(),
            class_registry: Table::new(),
            artifact_manifest: Table::new(),
            jar_hotspot: Table::new(),
            jar_mtime: Table::new(),
        };
        assert(s@.loaded =~= Set::empty());
        assert(s@.cataloged =~= Set::empty());
        s
    }

    /// The path of the store.
    pub fn db_path(&self) -> (p: &String)
        ensures
            p@ == self.path(),
    {
        &self.db_path
    }

    /// Where the pending-write gauge of this store is published.
    pub fn pending_gauge_path(&self) -> (p: String)
        ensures
            p@ == self.path() + ".pending"@,
    {
        let mut p = self.db_path.clone();
        p.append(".pending");
        p
    }

    /// The cached source under `key`.
    pub fn get_class_source(&self, key: &str) -> (r: Option<String>)
        ensures
            match r {
                Some(src) => self@.sources.contains_key(key@) && self@.sources[key@] == src@,
                None => !self@.sources.contains_key(key@),
            },
    {
        match self.classes.get(key) {
            Some(v) => Some(v.clone()),
            None => None,
        }
    }

    /// Stores one source; an equal key is overwritten.
    pub fn put_class_source(&mut self, key: String, source: String)
        ensures
            final(self)@ == (StoreView {
                sources: old(self)@.sources.insert(key@, source@),
                ..old(self)@
            }),
            final(self).path() == old(self).path(),
    {
        self.classes.insert(key, source);
    }

    /// Stores the sources in order, as one batch, and returns how many
    /// were given.
    pub fn put_class_sources(&mut self, entries: &Vec<(String, String)>) -> (n: usize)
        ensures
            final(self)@ == (StoreView {
                sources: written(old(self)@.sources, entries.deep_view()),
                ..old(self)@
            }),
            final(self).path() == old(self).path(),
            n == entries.len(),
    {
        let ghost all = entries.deep_view();
        let mut i: usize = 0;
        assert(all.take(0) =~= Seq::<(Seq<char>, Seq<char>)>::empty());
        while i < entries.len()
            invariant
                i <= entries.len(),
                all == entries.deep_view(),
                self.path() == old(self).path(),
                self@ == (StoreView {
                    sources: written(old(self)@.sources, all.take(i as int)),
                    ..old(self)@
                }),
            decreases entries.len() - i,
        {
            let key = entries[i].0.clone();
            let source = entries[i].1.clone();
            self.put_class_source(key, source);
            proof {
                assert(all.take(i + 1).drop_last() =~= all.take(i as int));
                assert(all.take(i + 1).last() == all[i as int]);
            }
            i = i + 1;
        }
        assert(all.take(entries.len() as int) =~= all);
        entries.len()
    }

    /// Whether `jar_key` was marked as loaded.
    pub fn is_jar_loaded(&self, jar_key: &str) -> (b: bool)
        ensures
            b == self@.loaded.contains(jar_key@),
    {
        self.jars.contains_key(jar_key)
    }

    /// Marks `jar_key` as loaded.
    pub fn mark_jar_loaded(&mut self, jar_key: &str)
        ensures
            final(self)@ == (StoreView { loaded: old(self)@.loaded.insert(jar_key@), ..old(self)@ }),
            final(self).path() == old(self).path(),
    {
        self.jars.insert(jar_key.to_owned(), ());
        assert(self.jars.model().dom() =~= old(self).jars.model().dom().insert(jar_key@));
    }

    /// The artifacts recorded for `fqn`.
    pub fn registry_entry(&self, fqn: &str) -> (r: Option<&Vec<String>>)
        ensures
            match r {
                Some(paths) => self@.registry.contains_key(fqn@) && self@.registry[fqn@]
                    == paths.deep_view(),
                None => !self@.registry.contains_key(fqn@),
            },
    {
        self.class_registry.get(fqn)
    }

    /// Replaces the artifacts recorded for `fqn`.
    pub fn put_registry_entry(&mut self, fqn: String, paths: Vec<String>)
        ensures
            final(self)@ == (StoreView {
                registry: old(self)@.registry.insert(fqn@, paths.deep_view()),
                ..old(self)@
            }),
            final(self).path() == old(self).path(),
    {
        self.class_registry.insert(fqn, paths);
    }

    /// Whether the class list of `jar_key` was merged into the registry.
    pub fn is_cataloged(&self, jar_key: &str) -> (b: bool)
        ensures
            b == self@.cataloged.contains(jar_key@),
    {
        self.artifact_manifest.contains_key(jar_key)
    }

    /// Marks `jar_key` as cataloged.
    pub fn mark_cataloged(&mut self, jar_key: &str)
        ensures
            final(self)@ == (StoreView {
                cataloged: old(self)@.cataloged.insert(jar_key@),
                ..old(self)@
            }),
            final(self).path() == old(self).path(),
    {
        self.artifact_manifest.insert(jar_key.to_owned(), ());
        assert(self.artifact_manifest.model().dom() =~= old(self).artifact_manifest.model().dom().insert(jar_key@));
    }

    /// The access record of `jar_key`.
    pub fn hotspot(&self, jar_key: &str) -> (r: Option<JarHotspot>)
        ensures
            match r {
                Some(h) => self@.hotspots.contains_key(jar_key@) && self@.hotspots[jar_key@] == h,
                None => !self@.hotspots.contains_key(jar_key@),
            },
    {
        match self.jar_hotspot.get(jar_key) {
            Some(h) => Some(*h),
            None => None,
        }
    }

    /// Replaces the access record of `jar_key`.
    pub fn put_hotspot(&mut self, jar_key: &str, value: JarHotspot)
        ensures
            final(self)@ == (StoreView {
                hotspots: old(self)@.hotspots.insert(jar_key@, value),
                ..old(self)@
            }),
            final(self).path() == old(self).path(),
    {
        self.jar_hotspot.insert(jar_key.to_owned(), value);
    }

    /// The table of access records.
    pub fn hotspot_table(&self) -> (t: &Table<JarHotspot>)
        ensures
            t.model() == self@.hotspots,
    {
        &self.jar_hotspot
    }

    /// The table of cached sources.
    pub fn source_table(&self) -> (t: &Table<String>)
        ensures
            t.model() == self@.sources,
    {
        &self.classes
    }

    /// The table of load markers.
    pub fn loaded_table(&self) -> (t: &Table<()>)
        ensures
            t.model().dom() == self@.loaded,
    {
        &self.jars
    }

    /// The table of registry entries.
    pub fn registry_table(&self) -> (t: &Table<Vec<String>>)
        ensures
            t.model() == self@.registry,
    {
        &self.class_registry
    }

    /// The table of catalog markers.
    pub fn cataloged_table(&self) -> (t: &Table<()>)
        ensures
            t.model().dom() == self@.cataloged,
    {
        &self.artifact_manifest
    }

    /// The table of modification times.
    pub fn mtime_table(&self) -> (t: &Table<u64>)
        ensures
            t.model() == self@.mtimes,
    {
        &self.jar_mtime
    }

    /// Empties every table: the store is as it was when first opened.
    pub fn clear(&mut self)
        ensures
            final(self)@ == StoreView::empty(),
            final(self).path() == old(self).path(),
    {
        self.classes = Table::new();
        self.jars = Table::new();
        self.class_registry = Table::new();
        self.artifact_manifest = Table::new();
        self.jar_hotspot = Table::new();
        self.jar_mtime = Table::new();
        assert(self@.loaded =~= Set::empty());
        assert(self@.cataloged =~= Set::empty());
    }

    /// The last recorded modification time of `jar_key`.
    pub fn mtime(&self, jar_key: &str) -> (r: Option<u64>)
        ensures
            match r {
                Some(t) => self@.mtimes.contains_key(jar_key@) && self@.mtimes[jar_key@] == t,
                None => !self@.mtimes.contains_key(jar_key@),
            },
    {
        match self.jar_mtime.get(jar_key) {
            Some(t) => Some(*t),
            None => None,
        }
    }

    /// Records the modification time of `jar_key`.
    pub fn put_mtime(&mut self, jar_key: &str, mtime: u64)
        ensures
            final(self)@ == (StoreView {
                mtimes: old(self)@.mtimes.insert(jar_key@, mtime),
                ..old(self)@
            }),
            final(self).path() == old(self).path(),
    {
        self.jar_mtime.insert(jar_key.to_owned(), mtime);
    }

    /// Number of cached sources.
    pub fn source_entries(&self) -> (n: usize)
        ensures
            self@.sources.dom().finite(),
            n == self@.sources.dom().len(),
    {
        self.classes.len()
    }

    /// Number of artifacts marked as loaded.
    pub fn loaded_jars(&self) -> (n: usize)
        ensures
            self@.loaded.finite(),
            n == self@.loaded.len(),
    {
        self.jars.len()
    }

    /// Number of classes with a registry entry.
    pub fn indexed_classes(&self) -> (n: usize)
        ensures
            self@.registry.dom().finite(),
            n == self@.registry.dom().len(),
    {
        self.class_registry.len()
    }

    /// Number of artifacts marked as cataloged.
    pub fn cataloged_jars(&self) -> (n: usize)
        ensures
            self@.cataloged.finite(),
            n == self@.cataloged.len(),
    {
        self.artifact_manifest.len()
    }

    /// Number of artifacts with an access record.
    pub fn hotspot_jars(&self) -> (n: usize)
        ensures
            self@.hotspots.dom().finite(),
            n == self@.hotspots.dom().len(),
    {
        self.jar_hotspot.len()
    }

    /// Number of artifacts whose access record says they were warmed.
    pub fn warmed_jars(&self) -> (n: usize)
        ensures
            warmed_keys(self@.hotspots).finite(),
            n == warmed_keys(self@.hotspots).len(),
    {
        let t = &self.jar_hotspot;
        let total = t.len();
        let ghost m = t.model();
        let ghost keys = t.keys();
        let mut n: usize = 0;
        let mut i: usize = 0;
        let ghost mut seen: Set<Seq<char>> = Set::empty();
        while i < total
            invariant
                i <= total,
                n <= i,
                total == t.keys().len(),
                m == t.model(),
                keys == t.keys(),
                keys.no_duplicates(),
                keys.len() == t.values().len(),
                forall|j: int|
                    0 <= j < keys.len() ==> m.contains_key(#[trigger] keys[j]) && m[keys[j]]
                        == t.values()[j],
                seen.finite(),
                n == seen.len(),
                forall|k: Seq<char>|
                    seen.contains(k) <==> (exists|j: int|
                        0 <= j < i && #[trigger] keys[j] == k && m[k].warmed),
            decreases total - i,
        {
            let h = t.value_at(i);
            if h.warmed {
                proof {
                    let k = keys[i as int];
                    assert(!seen.contains(k)) by {
                        if seen.contains(k) {
                            let j = choose|j: int| 0 <= j < i && #[trigger] keys[j] == k && m[k].warmed;
                            assert(keys[j] == keys[i as int]);
                        }
                    }
                    seen = seen.insert(k);
                }
                n = n + 1;
            }
            i = i + 1;
        }
        proof {
            assert forall|k: Seq<char>| seen.contains(k) == warmed_keys(m).contains(k) by {
                if warmed_keys(m).contains(k) {
                    assert(keys.contains(k));
                    let j = keys.index_of(k);
                    assert(0 <= j < i && keys[j] == k);
                }
            }
            assert(seen =~= warmed_keys(m));
        }
        n
    }

    /// The counts of every table and the ten most used artifacts, given
    /// what the pending-write gauge shows.
    pub fn stats(&self, write_buffer_pending: u64) -> (r: CacheStats)
        ensures
            describes(r, self.path(), self@, write_buffer_pending),
    {
        let t = &self.jar_hotspot;
        let total = t.len();
        let rows = ranked_rows(t, HOTSPOT_TOP, false);
        let mut top: Vec<HotspotTopEntry> = Vec::new();
        let mut i: usize = 0;
        while i < rows.len()
            invariant
                i <= rows.len(),
                top.len() == i,
                total == t.keys().len(),
                t.keys().len() == t.values().len(),
                forall|j: int| 0 <= j < rows.len() ==> (#[trigger] rows[j]) < t.keys().len(),
                forall|j: int|
                    0 <= j < i ==> {
                        let e = #[trigger] top[j];
                        let h = t.values()[rows[j] as int];
                        e.jar_path@ == t.keys()[rows[j] as int] && e.access_count == h.access_count
                            && e.last_access == h.last_access && e.warmed == h.warmed
                    },
            decreases rows.len() - i,
        {
            let h = t.value_at(rows[i]);
            top.push(
                HotspotTopEntry {
                    jar_path: t.key_at(rows[i]).clone(),
                    access_count: h.access_count,
                    last_access: h.last_access,
                    warmed: h.warmed,
                },
            );
            i = i + 1;
        }
        proof {
            let paths = listing_paths(top@);
            assert(paths =~= Seq::new(rows.len() as nat, |i: int| t.keys()[rows[i] as int]));
            lemma_ranking(rows@, t, HOTSPOT_TOP as nat, false, paths);
        }
        CacheStats {
            db_path: self.db_path.clone(),
            source_entries: self.source_entries() as u64,
            indexed_classes: self.indexed_classes() as u64,
            cataloged_jars: self.cataloged_jars() as u64,
            loaded_jars: self.loaded_jars() as u64,
            write_buffer_pending,
            hotspot_jars: self.hotspot_jars() as u64,
            warmed_jars: self.warmed_jars() as u64,
            warmup_threshold: 2,
            warmup_pending_tasks: 0,
            hotspot_top: top,
        }
    }
}

/// A store that is only read, such as a published snapshot.
pub struct ReadOnlyCache {
    inner: PersistentCache,
}

impl View for ReadOnlyCache {
    type V = StoreView;

    closed spec fn view(&self) -> StoreView {
        self.inner@
    }
}

impl ReadOnlyCache {
    /// The path that names this store.
    pub closed spec fn path(&self) -> Seq<char> {
        self.inner.path()
    }

    /// A store at `db_path` with all tables created and empty.
    pub fn open(db_path: String) -> (s: Self)
        ensures
            s@ == StoreView::empty(),
            s.path() == db_path@,
    {
        ReadOnlyCache { inner: PersistentCache::open(db_path) }
    }

    /// The store `cache`, from now on only read.
    pub fn of(cache: PersistentCache) -> (s: Self)
        ensures
            s@ == cache@,
            s.path() == cache.path(),
    {
        ReadOnlyCache { inner: cache }
    }

    /// The cached source under `key`.
    pub fn get_class_source(&self, key: &str) -> (r: Option<String>)
        ensures
            match r {
                Some(src) => self@.sources.contains_key(key@) && self@.sources[key@] == src@,
                None => !self@.sources.contains_key(key@),
            },
    {
        self.inner.get_class_source(key)
    }

    /// The counts of every table and the ten most used artifacts, given
    /// what the pending-write gauge shows.
    pub fn stats(&self, write_buffer_pending: u64) -> (r: CacheStats)
        ensures
            describes(r, self.path(), self@, write_buffer_pending),
    {
        self.inner.stats(write_buffer_pending)
    }
}

} // verus!
