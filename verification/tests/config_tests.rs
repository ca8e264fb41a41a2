use class_finder::cli::{Cli, Commands};
use class_finder::cache::PersistentCache;
use class_finder::config::{
    class_finder_home, clear_db, clear_db_files, default_m2_repository, lmdb_lock_path, resolve_db_path, resolve_db_path_in,
    resolve_m2_repo, resolve_m2_repo_in, resolve_snapshot_db_path, snapshot_db_path, ConfigError,
    UserDirs,
};

fn cli(m2: Option<&str>, db: Option<&str>) -> Cli {
    Cli {
        command: Commands::Stats,
        m2: m2.map(|s| s.to_string()),
        cfr: None,
        db: db.map(|s| s.to_string()),
    }
}

fn dirs(data: Option<&str>, cache: Option<&str>, home: Option<&str>) -> UserDirs {
    UserDirs {
        data_local: data.map(|s| s.to_string()),
        cache: cache.map(|s| s.to_string()),
        home: home.map(|s| s.to_string()),
    }
}

#[test]
fn snapshot_db_path_sits_beside_the_store() {
    assert_eq!(snapshot_db_path("/data/cf/db.lmdb"), "/data/cf/db.snapshot.lmdb");
    assert_eq!(snapshot_db_path("db.lmdb"), "db.snapshot.lmdb");
    assert_eq!(snapshot_db_path("/db.lmdb"), "/db.snapshot.lmdb");
    assert_eq!(snapshot_db_path("dir/a.b.c"), "dir/a.b.snapshot.lmdb");
    assert_eq!(snapshot_db_path("dir/noext"), "dir/noext.snapshot.lmdb");
    assert_eq!(snapshot_db_path("dir/.hidden"), "dir/.hidden.snapshot.lmdb");
    assert_eq!(snapshot_db_path(""), "db.snapshot.lmdb");
    assert_eq!(snapshot_db_path("dir/.."), "dir/db.snapshot.lmdb");
    assert_eq!(snapshot_db_path("dir/cf.redb/"), "dir/cf.snapshot.lmdb");
}

#[test]
fn lock_and_clear_files() {
    assert_eq!(lmdb_lock_path("/d/db.lmdb"), "/d/db.lmdb-lock");
    assert_eq!(
        clear_db_files("/d/db.lmdb"),
        vec![
            "/d/db.lmdb",
            "/d/db.lmdb-lock",
            "/d/db.snapshot.lmdb",
            "/d/db.snapshot.lmdb-lock",
            "/d/db.lmdb.pending"
        ]
    );
    let mut cache = PersistentCache::open("/d/db.lmdb".to_string());
    cache.mark_jar_loaded("a.jar");
    assert_eq!(clear_db(&mut cache), clear_db_files("/d/db.lmdb"));
    assert!(!cache.is_jar_loaded("a.jar"));
    assert_eq!(cache.pending_gauge_path(), "/d/db.lmdb.pending");
}

#[test]
fn paths_given_on_the_command_line_win() {
    let c = cli(Some("/repo"), Some("/x/db.lmdb"));
    assert_eq!(resolve_db_path(&c), Ok("/x/db.lmdb".to_string()));
    assert_eq!(resolve_m2_repo(&c), Ok("/repo".to_string()));
    assert_eq!(
        resolve_snapshot_db_path(&c),
        Ok("/x/db.snapshot.lmdb".to_string())
    );
}

#[test]
fn defaults_come_from_the_user_directories() {
    let c = cli(None, None);
    let all = dirs(Some("/data"), Some("/cache"), Some("/home/u"));
    assert_eq!(class_finder_home(&all).as_deref(), Some("/data/class-finder"));
    assert_eq!(
        resolve_db_path_in(&c, &all),
        Ok("/data/class-finder/db.lmdb".to_string())
    );
    assert_eq!(
        resolve_db_path_in(&c, &dirs(None, Some("/cache"), Some("/home/u"))),
        Ok("/cache/class-finder/db.lmdb".to_string())
    );
    assert_eq!(
        resolve_db_path_in(&c, &dirs(None, None, Some("/home/u"))),
        Ok("/home/u/class-finder/db.lmdb".to_string())
    );
    assert_eq!(
        resolve_m2_repo_in(&c, &all),
        Ok("/home/u/.m2/repository".to_string())
    );
}

#[test]
fn default_repository_lies_in_the_home_directory() {
    match default_m2_repository() {
        Ok(path) => assert!(path.ends_with(".m2/repository")),
        Err(e) => assert_eq!(e, ConfigError::NoHomeDirectory),
    }
}

#[test]
fn missing_directories_are_errors() {
    let c = cli(None, None);
    let none = dirs(None, None, None);
    assert_eq!(resolve_db_path_in(&c, &none), Err(ConfigError::NoDataDirectory));
    assert_eq!(
        resolve_m2_repo_in(&c, &dirs(Some("/data"), None, None)),
        Err(ConfigError::NoHomeDirectory)
    );
    assert_eq!(
        ConfigError::NoDataDirectory.message(),
        "Failed to resolve data directory"
    );
    assert_eq!(
        ConfigError::NoHomeDirectory.message(),
        "Failed to resolve home directory"
    );
}

#[test]
fn snapshot_db_path_agrees_with_the_platform_on_unix_paths() {
    for p in [
        "/data/cf/db.lmdb",
        "db.lmdb",
        "/db.lmdb",
        "dir/a.b.c",
        "dir/noext",
        "dir/.hidden",
        "",
        "dir/..",
        "dir/./db.lmdb",
        "dir//db.lmdb/",
        "dir/db.lmdb/.",
        ".",
        "/",
    ] {
        let path = std::path::Path::new(p);
        let stem = path
            .file_stem()
            .and_then(|s| s.to_str())
            .filter(|s| !s.is_empty())
            .unwrap_or("db");
        let file_name = format!("{stem}.snapshot.lmdb");
        let expected = match path.parent() {
            Some(parent) => parent.join(file_name),
            None => std::path::PathBuf::from(file_name),
        };
        let ours = snapshot_db_path(p);
        assert_eq!(std::path::Path::new(&ours), expected.as_path(), "snapshot of {:?}", p);
    }
}
