//! Where the store, its snapshot and the repository are found.

use vstd::prelude::*;
use crate::cache::{PersistentCache, StoreView};
use crate::cli::Cli;
use crate::paths::{dir_prefix_of, file_name_of, is_dot_dot, join_path, joined, name_bounds, stem_of};
use crate::text::{append_range, chars_of, rfind_char, to_string};

verus! {

/// A place could not be worked out.
#[derive(Debug, Clone, Copy, PartialEq, Eq, Structural)]
pub enum ConfigError {
    /// Neither a data directory, a cache directory nor a home directory is
    /// known.
    NoDataDirectory,
    /// The home directory is not known.
    NoHomeDirectory,
}

impl ConfigError {
    pub fn message(&self) -> (r: String)
        ensures
            r@ == match *self {
                ConfigError::NoDataDirectory => "Failed to resolve data directory"@,
                ConfigError::NoHomeDirectory => "Failed to resolve home directory"@,
            },
    {
        match self {
            ConfigError::NoDataDirectory => "Failed to resolve data directory".to_owned(),
            ConfigError::NoHomeDirectory => "Failed to resolve home directory".to_owned(),
        }
    }
}

/// The directories that the system offers to a user's programs.
#[derive(Debug, Clone)]
pub struct UserDirs {
    pub data_local: Option<String>,
    pub cache: Option<String>,
    pub home: Option<String>,
}

/// Calls `dirs::data_local_dir`: the user's local data directory, if the
/// system knows one.
#[verifier::external_body]
fn data_local_dir() -> (r: Option<String>) {
    match dirs::data_local_dir() {
        Some(p) => Some(p.to_string_lossy().into_owned()),
        None => None,
    }
}

/// Calls `dirs::cache_dir`: the user's cache directory, if the system
/// knows one.
#[verifier::external_body]
fn cache_dir() -> (r: Option<String>) {
    match dirs::cache_dir() {
        Some(p) => Some(p.to_string_lossy().into_owned()),
        None => None,
    }
}

/// Calls `dirs::home_dir`: the user's home directory, if the system knows
/// one.
#[verifier::external_body]
fn home_dir() -> (r: Option<String>) {
    match dirs::home_dir() {
        Some(p) => Some(p.to_string_lossy().into_owned()),
        None => None,
    }
}

/// The directories of the current user.
pub fn user_dirs() -> UserDirs {
    UserDirs { data_local: data_local_dir(), cache: cache_dir(), home: home_dir() }
}

/// The directory in which this program keeps its files: `class-finder`
/// under the first known of the data, cache and home directory.
pub open spec fn home_under(dirs: UserDirs) -> Option<Seq<char>> {
    match dirs.data_local {
        Some(d) => Some(joined(d@, "class-finder"@)),
        None => match dirs.cache {
            Some(c) => Some(joined(c@, "class-finder"@)),
            None => match dirs.home {
                Some(h) => Some(joined(h@, "class-finder"@)),
                None => None,
            },
        },
    }
}

/// The path of the store: the one given on the command line, else
/// `db.lmdb` in the program's directory.
pub open spec fn db_path_for(cli: Cli, dirs: UserDirs) -> Result<Seq<char>, ConfigError> {
    match cli.db {
        Some(p) => Ok(p@),
        None => match home_under(dirs) {
            Some(h) => Ok(joined(h, "db.lmdb"@)),
            None => Err(ConfigError::NoDataDirectory),
        },
    }
}

/// The path of the repository: the one given on the command line, else
/// `.m2/repository` in the home directory.
pub open spec fn m2_repo_for(cli: Cli, dirs: UserDirs) -> Result<Seq<char>, ConfigError> {
    match cli.m2 {
        Some(p) => Ok(p@),
        None => match dirs.home {
            Some(h) => Ok(joined(joined(h@, ".m2"@), "repository"@)),
            None => Err(ConfigError::NoHomeDirectory),
        },
    }
}

/// The snapshot of the store at `p`: beside it, named by its stem and
/// `.snapshot.lmdb`. A store without a name has the stem `db`.
pub open spec fn snapshot_of(p: Seq<char>) -> Seq<char> {
    let name = file_name_of(p);
    let stem = if name.len() == 0 || name == seq!['.', '.'] {
        "db"@
    } else {
        stem_of(name)
    };
    dir_prefix_of(p) + stem + ".snapshot.lmdb"@
}

/// The lock file of the store at `p`.
pub open spec fn lock_of(p: Seq<char>) -> Seq<char> {
    p + "-lock"@
}

/// The directory in which this program keeps its files.
pub fn class_finder_home(dirs: &UserDirs) -> (r: Option<String>)
    ensures
        match r {
            Some(h) => home_under(*dirs) == Some(h@),
            None => home_under(*dirs) is None,
        },
{
    match &dirs.data_local {
        Some(d) => Some(join_path(d.as_str(), "class-finder")),
        None => match &dirs.cache {
            Some(c) => Some(join_path(c.as_str(), "class-finder")),
            None => match &dirs.home {
                Some(h) => Some(join_path(h.as_str(), "class-finder")),
                None => None,
            },
        },
    }
}

/// The path of the store, given the user's directories.
pub fn resolve_db_path_in(cli: &Cli, dirs: &UserDirs) -> (r: Result<String, ConfigError>)
    ensures
        match r {
            Ok(p) => db_path_for(*cli, *dirs) == Ok::<Seq<char>, ConfigError>(p@),
            Err(e) => db_path_for(*cli, *dirs) == Err::<Seq<char>, ConfigError>(e),
        },
{
    match &cli.db {
        Some(p) => Ok(p.clone()),
        None => match class_finder_home(dirs) {
            Some(h) => Ok(join_path(h.as_str(), "db.lmdb")),
            None => Err(ConfigError::NoDataDirectory),
        },
    }
}

/// The path of the repository, given the user's directories.
pub fn resolve_m2_repo_in(cli: &Cli, dirs: &UserDirs) -> (r: Result<String, ConfigError>)
    ensures
        match r {
            Ok(p) => m2_repo_for(*cli, *dirs) == Ok::<Seq<char>, ConfigError>(p@),
            Err(e) => m2_repo_for(*cli, *dirs) == Err::<Seq<char>, ConfigError>(e),
        },
{
    match &cli.m2 {
        Some(p) => Ok(p.clone()),
        None => match &dirs.home {
            Some(h) => {
                let m2 = join_path(h.as_str(), ".m2");
                Ok(join_path(m2.as_str(), "repository"))
            },
            None => Err(ConfigError::NoHomeDirectory),
        },
    }
}

/// The repository that belongs to the home directory `home`:
/// `.m2/repository` in it.
pub open spec fn repository_under(home: Seq<char>) -> Seq<char> {
    joined(joined(home, ".m2"@), "repository"@)
}

/// The repository of the current user: `.m2/repository` in the home
/// directory that the system reports. Without a home directory there is
/// none.
pub fn default_m2_repository() -> (r: Result<String, ConfigError>)
    ensures
        match r {
            Ok(p) => exists|home: Seq<char>| p@ == #[trigger] repository_under(home),
            Err(e) => e == ConfigError::NoHomeDirectory,
        },
{
    match home_dir() {
        Some(h) => {
            let m2 = join_path(h.as_str(), ".m2");
            let p = join_path(m2.as_str(), "repository");
            assert(p@ == repository_under(h@));
            Ok(p)
        },
        None => Err(ConfigError::NoHomeDirectory),
    }
}

/// The path of the store: the one given on the command line, else the
/// default for the current user. It is given whenever the command line
/// names one.
pub fn resolve_db_path(cli: &Cli) -> (r: Result<String, ConfigError>)
    ensures
        cli.db is Some ==> r is Ok && r->Ok_0@ == cli.db->0@,
        r is Err ==> r->Err_0 == ConfigError::NoDataDirectory,
{
    let dirs = user_dirs();
    resolve_db_path_in(cli, &dirs)
}

/// The path of the repository: the one given on the command line, else
/// the default for the current user.
pub fn resolve_m2_repo(cli: &Cli) -> (r: Result<String, ConfigError>)
    ensures
        cli.m2 is Some ==> r is Ok && r->Ok_0@ == cli.m2->0@,
        r is Err ==> r->Err_0 == ConfigError::NoHomeDirectory,
{
    let dirs = user_dirs();
    resolve_m2_repo_in(cli, &dirs)
}

/// The path of the snapshot of the store that `resolve_db_path` gives.
pub fn resolve_snapshot_db_path(cli: &Cli) -> (r: Result<String, ConfigError>)
    ensures
        cli.db is Some ==> r is Ok && r->Ok_0@ == snapshot_of(cli.db->0@),
        r is Err ==> r->Err_0 == ConfigError::NoDataDirectory,
{
    match resolve_db_path(cli) {
        Ok(p) => Ok(snapshot_db_path(p.as_str())),
        Err(e) => Err(e),
    }
}

/// The path of the snapshot of the store at `db_path`.
pub fn snapshot_db_path(db_path: &str) -> (r: String)
    ensures
        r@ == snapshot_of(db_path@),
{
    let v = chars_of(db_path);
    assert(v@.take(v.len() as int) =~= v@);
    let (a, b) = name_bounds(&v, v.len());
    let mut out: Vec<char> = Vec::new();
    append_range(&mut out, &v, 0, a);
    assert(v@.subrange(0, a as int) =~= v@.take(a as int));
    let ghost name = v@.subrange(a as int, b as int);
    if a == b || is_dot_dot(&v, a, b) {
        let word = chars_of("db");
        append_range(&mut out, &word, 0, word.len());
        assert(word@.subrange(0, word.len() as int) =~= word@);
    } else {
        let stem_end = match rfind_char(&v, b, '.') {
            Some(i) => if i > a {
                i
            } else {
                b
            },
            None => b,
        };
        proof {
            lemma_last_dot(v@, a as int, b as int);
            assert(stem_of(name) =~= v@.subrange(a as int, stem_end as int));
        }
        append_range(&mut out, &v, a, stem_end);
    }
    let tail = chars_of(".snapshot.lmdb");
    append_range(&mut out, &tail, 0, tail.len());
    proof {
        assert(tail@.subrange(0, tail.len() as int) =~= tail@);
        assert(out@ =~= snapshot_of(db_path@));
    }
    to_string(&out)
}

/// The last dot of `v[a..b]` is the last dot of `v[..b]` when that one lies
/// at or after `a`; else `v[a..b]` has no dot.
proof fn lemma_last_dot(v: Seq<char>, a: int, b: int)
    requires
        0 <= a <= b <= v.len(),
    ensures
        crate::text::last_index_of(v.subrange(a, b), '.') == if crate::text::last_index_of(
            v.take(b),
            '.',
        ) >= a {
            crate::text::last_index_of(v.take(b), '.') - a
        } else {
            -1
        },
    decreases b - a,
{
    let s = v.subrange(a, b);
    let t = v.take(b);
    if a == b {
        crate::paths::lemma_last_index_of(t, '.');
        lemma_no_dot_before(v, a);
    } else {
        assert(s.last() == v[b - 1]);
        assert(t.last() == v[b - 1]);
        if v[b - 1] != '.' {
            assert(s.drop_last() =~= v.subrange(a, b - 1));
            assert(t.drop_last() =~= v.take(b - 1));
            lemma_last_dot(v, a, b - 1);
        }
    }
}

/// The last dot of `v[..a]` lies before `a`.
proof fn lemma_no_dot_before(v: Seq<char>, a: int)
    requires
        0 <= a <= v.len(),
    ensures
        crate::text::last_index_of(v.take(a), '.') < a,
{
    crate::paths::lemma_last_index_of(v.take(a), '.');
}

/// The lock file of the store at `db_path`.
pub fn lmdb_lock_path(db_path: &str) -> (r: String)
    ensures
        r@ == lock_of(db_path@),
{
    let mut r = db_path.to_owned();
    r.append("-lock");
    r
}

/// The pending-write gauge of the store at `p`.
pub open spec fn gauge_of(p: Seq<char>) -> Seq<char> {
    p + ".pending"@
}

/// The files that hold the store at `p`, in the order in which a clear
/// removes them: the store, its lock, its snapshot, the lock of the
/// snapshot, and the pending-write gauge.
pub open spec fn files_of(p: Seq<char>) -> Seq<Seq<char>> {
    seq![p, lock_of(p), snapshot_of(p), lock_of(snapshot_of(p)), gauge_of(p)]
}

/// The files that hold the store at `db_path`, in the order in which a
/// clear removes them.
pub fn clear_db_files(db_path: &str) -> (r: Vec<String>)
    ensures
        r.deep_view() == files_of(db_path@),
{
    let snapshot = snapshot_db_path(db_path);
    let mut gauge = db_path.to_owned();
    gauge.append(".pending");
    let mut r: Vec<String> = Vec::new();
    r.push(db_path.to_owned());
    r.push(lmdb_lock_path(db_path));
    r.push(snapshot.clone());
    r.push(lmdb_lock_path(snapshot.as_str()));
    r.push(gauge);
    assert(r.deep_view() =~= files_of(db_path@));
    r
}

/// Clears the store: every table is emptied, and the files that held it
/// are named so that they can be removed.
pub fn clear_db(db: &mut PersistentCache) -> (files: Vec<String>)
    ensures
        final(db)@ == StoreView::empty(),
        final(db).path() == old(db).path(),
        files.deep_view() == files_of(old(db).path()),
{
    db.clear();
    clear_db_files(db.db_path().as_str())
}

} // verus!
