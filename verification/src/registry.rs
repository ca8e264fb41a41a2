//! The class registry: which artifacts are known to hold each class.

use vstd::prelude::*;
use crate::cache::{PersistentCache, StoreView};

verus! {

/// `paths` with `jar` appended, unless it is there already.
pub open spec fn entry_with(paths: Seq<Seq<char>>, jar: Seq<char>) -> Seq<Seq<char>> {
    if paths.contains(jar) {
        paths
    } else {
        paths.push(jar)
    }
}

/// The artifacts that `reg` records for `fqn`; none when it has no entry.
pub open spec fn paths_of(reg: Map<Seq<char>, Seq<Seq<char>>>, fqn: Seq<char>) -> Seq<Seq<char>> {
    if reg.contains_key(fqn) {
        reg[fqn]
    } else {
        Seq::empty()
    }
}

/// The registry once `jar` is recorded for each of `classes`.
pub open spec fn registry_after(
    reg: Map<Seq<char>, Seq<Seq<char>>>,
    jar: Seq<char>,
    classes: Seq<Seq<char>>,
) -> Map<Seq<char>, Seq<Seq<char>>> {
    Map::new(
        |k: Seq<char>| reg.contains_key(k) || classes.contains(k),
        |k: Seq<char>|
            if classes.contains(k) {
                entry_with(paths_of(reg, k), jar)
            } else {
                reg[k]
            },
    )
}

/// The classes among `classes` for which `reg` does not record `jar` yet.
pub open spec fn new_associations(
    reg: Map<Seq<char>, Seq<Seq<char>>>,
    jar: Seq<char>,
    classes: Seq<Seq<char>>,
) -> Set<Seq<char>> {
    Set::new(|k: Seq<char>| classes.contains(k) && !paths_of(reg, k).contains(jar))
}

/// The store once the class list of `jar` is merged into the registry and
/// `jar` is marked as cataloged.
pub open spec fn cataloged_with(s: StoreView, jar: Seq<char>, classes: Seq<Seq<char>>) -> StoreView {
    StoreView {
        registry: registry_after(s.registry, jar, classes),
        cataloged: s.cataloged.insert(jar),
        ..s
    }
}

/// Recording an artifact keeps an entry free of duplicates and leaves the
/// artifacts that were there in their places.
pub proof fn lemma_entry_with(paths: Seq<Seq<char>>, jar: Seq<char>)
    ensures
        entry_with(paths, jar).contains(jar),
        paths.no_duplicates() ==> entry_with(paths, jar).no_duplicates(),
        paths.len() <= entry_with(paths, jar).len(),
        forall|i: int| 0 <= i < paths.len() ==> entry_with(paths, jar)[i] == paths[i],
        entry_with(entry_with(paths, jar), jar) == entry_with(paths, jar),
{
    if !paths.contains(jar) {
        let e = paths.push(jar);
        assert(e[paths.len() as int] == jar);
        assert(e.contains(jar));
        if paths.no_duplicates() {
            assert forall|i: int, j: int| 0 <= i < e.len() && 0 <= j < e.len() && i != j implies e[i]
                != e[j] by {
                if i < paths.len() {
                    assert(paths.contains(e[i]));
                }
                if j < paths.len() {
                    assert(paths.contains(e[j]));
                }
            }
        }
    }
}

/// Cataloging an artifact a second time with the same class list changes
/// nothing and finds no new association.
pub proof fn lemma_catalog_idempotent(s: StoreView, jar: Seq<char>, classes: Seq<Seq<char>>)
    ensures
        cataloged_with(cataloged_with(s, jar, classes), jar, classes) == cataloged_with(
            s,
            jar,
            classes,
        ),
        new_associations(cataloged_with(s, jar, classes).registry, jar, classes) == Set::<
            Seq<char>,
        >::empty(),
        new_associations(cataloged_with(s, jar, classes).registry, jar, classes).len() == 0,
{
    let once = cataloged_with(s, jar, classes);
    let twice = cataloged_with(once, jar, classes);
    assert forall|k: Seq<char>| once.registry.contains_key(k) implies #[trigger] twice.registry[k]
        == once.registry[k] by {
        if classes.contains(k) {
            lemma_entry_with(paths_of(s.registry, k), jar);
        }
    }
    assert(twice.registry =~= once.registry);
    assert(twice.cataloged =~= once.cataloged);
    assert forall|k: Seq<char>| !new_associations(once.registry, jar, classes).contains(k) by {
        if classes.contains(k) {
            lemma_entry_with(paths_of(s.registry, k), jar);
        }
    }
    assert(new_associations(once.registry, jar, classes) =~= Set::<Seq<char>>::empty());
}

/// Whether `paths` holds `jar`.
pub fn holds_path(paths: &Vec<String>, jar: &String) -> (b: bool)
    ensures
        b == paths.deep_view().contains(jar@),
{
    let mut i: usize = 0;
    while i < paths.len()
        invariant
            i <= paths.len(),
            forall|j: int| 0 <= j < i ==> paths.deep_view()[j] != jar@,
        decreases paths.len() - i,
    {
        if paths[i] == *jar {
            assert(paths.deep_view()[i as int] == jar@);
            return true;
        }
        i = i + 1;
    }
    false
}

/// A copy of `paths`.
pub fn copy_paths(paths: &Vec<String>) -> (r: Vec<String>)
    ensures
        r.deep_view() == paths.deep_view(),
{
    let mut r: Vec<String> = Vec::new();
    let mut i: usize = 0;
    while i < paths.len()
        invariant
            i <= paths.len(),
            r.len() == i,
            forall|j: int| 0 <= j < i ==> r[j]@ == paths[j]@,
        decreases paths.len() - i,
    {
        r.push(paths[i].clone());
        i = i + 1;
    }
    assert(r.deep_view() =~= paths.deep_view());
    r
}

/// Reads and extends the registry held in the store.
#[derive(Debug, Clone, Copy)]
pub struct ClassRegistry {}

/// Reads the registry held in the store.
#[derive(Debug, Clone, Copy)]
pub struct ReadOnlyClassRegistry {}

impl ClassRegistry {
    pub fn new() -> Self {
        ClassRegistry {  }
    }

    /// The artifacts known to hold `fqn`, in the order they were recorded;
    /// none when the class has no entry.
    pub fn get_artifacts(&self, db: &PersistentCache, fqn: &str) -> (r: Vec<String>)
        ensures
            r.deep_view() == db@.artifacts_of(fqn@),
    {
        match db.registry_entry(fqn) {
            Some(paths) => copy_paths(paths),
            None => {
                let r: Vec<String> = Vec::new();
                assert(r.deep_view() =~= Seq::<Seq<char>>::empty());
                r
            },
        }
    }

    /// Whether the class list of `jar_key` was merged already.
    pub fn is_cataloged(&self, db: &PersistentCache, jar_key: &str) -> (b: bool)
        ensures
            b == db@.cataloged.contains(jar_key@),
    {
        db.is_cataloged(jar_key)
    }

    /// Records `jar_key` for each of `classes` that does not list it yet,
    /// marks `jar_key` as cataloged and returns the number of classes whose
    /// entry grew.
    pub fn update_registry_and_mark_cataloged(
        &self,
        db: &mut PersistentCache,
        jar_key: &str,
        classes: &Vec<String>,
    ) -> (updated: usize)
        ensures
            final(db)@ == cataloged_with(old(db)@, jar_key@, classes.deep_view()),
            final(db).path() == old(db).path(),
            new_associations(old(db)@.registry, jar_key@, classes.deep_view()).finite(),
            updated == new_associations(old(db)@.registry, jar_key@, classes.deep_view()).len(),
    {
        let jar = jar_key.to_owned();
        let ghost start = db@;
        let ghost names = classes.deep_view();
        let mut updated: usize = 0;
        let mut i: usize = 0;
        proof {
            assert(names.take(0) =~= Seq::<Seq<char>>::empty());
            assert(registry_after(start.registry, jar@, names.take(0)) =~= start.registry);
            assert(new_associations(start.registry, jar@, names.take(0)) =~= Set::<
                Seq<char>,
            >::empty());
        }
        while i < classes.len()
            invariant
                i <= classes.len(),
                updated <= i,
                jar@ == jar_key@,
                names == classes.deep_view(),
                start == old(db)@,
                db.path() == old(db).path(),
                db@ == (StoreView {
                    registry: registry_after(start.registry, jar@, names.take(i as int)),
                    ..start
                }),
                new_associations(start.registry, jar@, names.take(i as int)).finite(),
                updated == new_associations(start.registry, jar@, names.take(i as int)).len(),
            decreases classes.len() - i,
        {
            let class = &classes[i];
            let ghost c = names[i as int];
            let ghost done = names.take(i as int);
            let ghost next = names.take(i + 1);
            let ghost reg = db@.registry;
            proof {
                assert(class@ == c);
                assert(next =~= done.push(c));
                assert forall|k: Seq<char>| next.contains(k) == (done.contains(k) || k == c) by {
                    if done.contains(k) {
                        let j = done.index_of(k);
                        assert(next[j] == k);
                    }
                    if k == c {
                        assert(next[i as int] == k);
                    }
                    if next.contains(k) {
                        let j = next.index_of(k);
                        if j < i {
                            assert(done[j] == k);
                        }
                    }
                }
                lemma_entry_with(paths_of(start.registry, c), jar@);
            }
            let present = match db.registry_entry(class.as_str()) {
                Some(paths) => holds_path(paths, &jar),
                None => false,
            };
            if !present {
                let mut paths = match db.registry_entry(class.as_str()) {
                    Some(paths) => copy_paths(paths),
                    None => Vec::new(),
                };
                let ghost before = paths.deep_view();
                assert(before =~= paths_of(reg, c));
                paths.push(jar.clone());
                assert(paths.deep_view() =~= before.push(jar@));
                db.put_registry_entry(class.clone(), paths);
                updated = updated + 1;
                proof {
                    assert(!done.contains(c));
                    assert(db@.registry =~= registry_after(start.registry, jar@, next));
                    assert(new_associations(start.registry, jar@, next) =~= new_associations(
                        start.registry,
                        jar@,
                        done,
                    ).insert(c));
                }
            } else {
                proof {
                    assert(reg.contains_key(c));
                    assert(reg =~= registry_after(start.registry, jar@, next));
                    assert(new_associations(start.registry, jar@, next) =~= new_associations(
                        start.registry,
                        jar@,
                        done,
                    ));
                }
            }
            i = i + 1;
        }
        assert(names.take(classes.len() as int) =~= names);
        db.mark_cataloged(jar_key);
        updated
    }

    /// Number of classes with an entry.
    pub fn indexed_classes(&self, db: &PersistentCache) -> (n: u64)
        ensures
            n == db@.registry.dom().len(),
    {
        db.indexed_classes() as u64
    }

    /// Number of artifacts marked as cataloged.
    pub fn cataloged_jars(&self, db: &PersistentCache) -> (n: u64)
        ensures
            n == db@.cataloged.len(),
    {
        db.cataloged_jars() as u64
    }
}

impl ReadOnlyClassRegistry {
    pub fn new() -> Self {
        ReadOnlyClassRegistry {  }
    }

    /// The artifacts known to hold `fqn`, in the order they were recorded;
    /// none when the class has no entry.
    pub fn get_artifacts(&self, db: &PersistentCache, fqn: &str) -> (r: Vec<String>)
        ensures
            r.deep_view() == db@.artifacts_of(fqn@),
    {
        ClassRegistry::new().get_artifacts(db, fqn)
    }
}

} // verus!
