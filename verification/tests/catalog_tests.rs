use class_finder::catalog::{catalog, entry_class, ArchiveError};
use class_finder::probe::{entry_fqn, find_class_fqns_in_jar, insert_rising, jar_contains_class};
use std::io::Write;

fn write_jar(entries: &[(&str, &[u8])]) -> Vec<u8> {
    let mut zip = zip::ZipWriter::new(std::io::Cursor::new(Vec::new()));
    let options = zip::write::FileOptions::default()
        .compression_method(zip::CompressionMethod::Deflated);
    for (name, content) in entries {
        zip.start_file(*name, options).unwrap();
        zip.write_all(content).unwrap();
    }
    zip.finish().unwrap().into_inner()
}

#[test]
fn catalog_extracts_top_level_classes() {
    let jar = write_jar(&[
        ("org/example/A.class", b""),
        ("org/example/A$Inner.class", b""),
        ("META-INF/MANIFEST.MF", b""),
    ]);

    let classes = catalog(jar).unwrap();
    assert!(classes.contains(&"org.example.A".to_string()));
    assert!(!classes.iter().any(|c| c.contains('$')));
    assert_eq!(classes, vec!["org.example.A"]);
}

#[test]
fn catalog_handles_empty_jar() {
    let jar = write_jar(&[]);
    let classes = catalog(jar).unwrap();
    assert!(classes.is_empty());
}

#[test]
fn catalog_keeps_directory_order_and_rejects_other_bytes() {
    let jar = write_jar(&[
        ("z/Z.class", b"x"),
        ("a/A.class", b"y"),
        ("a/b/", b""),
        ("a\\W.class.class", b""),
    ]);
    assert_eq!(catalog(jar).unwrap(), vec!["z.Z", "a.A", "a.W"]);
    assert_eq!(catalog(b"not a zip".to_vec()), Err(ArchiveError::NotAnArchive));
    assert_eq!(catalog(Vec::new()), Err(ArchiveError::NotAnArchive));
    assert!(!ArchiveError::NotAnArchive.message().is_empty());
    assert!(!ArchiveError::BadEntry(0).message().is_empty());
}

#[test]
fn entry_class_cases() {
    assert_eq!(entry_class("a/B.class").as_deref(), Some("a.B"));
    assert_eq!(entry_class("B.class").as_deref(), Some("B"));
    assert_eq!(entry_class(".class").as_deref(), Some(""));
    assert_eq!(entry_class("a/B.class.class").as_deref(), Some("a.B"));
    assert_eq!(entry_class("a/B$1.class"), None);
    assert_eq!(entry_class("a/B.clazz"), None);
    assert_eq!(entry_class("a/B.CLASS"), None);
}

#[test]
fn jar_contains_class_works() {
    let jar = write_jar(&[("org/apache/commons/lang3/StringUtils.class", b"dummy")]);

    assert!(
        jar_contains_class(jar.clone(), "org/apache/commons/lang3/StringUtils.class").unwrap()
    );
    assert!(
        !jar_contains_class(jar, "org/apache/commons/lang3/ArrayUtils.class").unwrap()
    );
    assert_eq!(
        jar_contains_class(vec![1, 2, 3], "a.class"),
        Err(ArchiveError::NotAnArchive)
    );
}

#[test]
fn find_class_fqns_in_jar_finds_by_basename() {
    let jar = write_jar(&[
        ("org/springframework/stereotype/Component.class", b"dummy"),
        ("org/springframework/stereotype/Component$Inner.class", b"dummy"),
    ]);

    let fqns = find_class_fqns_in_jar(jar, "Component").unwrap();
    assert_eq!(fqns, vec!["org.springframework.stereotype.Component"]);
}

#[test]
fn find_class_fqns_in_jar_sorts_and_needs_a_package() {
    let jar = write_jar(&[
        ("z/Component.class", b""),
        ("Component.class", b""),
        ("a/b/Component.class", b""),
        ("a/MyComponent.class", b""),
        ("a/Component.txt", b""),
    ]);
    assert_eq!(
        find_class_fqns_in_jar(jar, "Component").unwrap(),
        vec!["a.b.Component", "z.Component"]
    );
    assert_eq!(
        find_class_fqns_in_jar(vec![0u8; 4], "Component"),
        Err(ArchiveError::NotAnArchive)
    );
}

#[test]
fn entry_fqn_and_rising_insert() {
    assert_eq!(entry_fqn("a/b/C.class", "C").as_deref(), Some("a.b.C"));
    assert_eq!(entry_fqn("C.class", "C"), None);
    assert_eq!(entry_fqn("a/b/C.class", "b/C").as_deref(), Some("a.b.C"));
    let mut v: Vec<String> = Vec::new();
    for s in ["m", "a", "z", "m", "b", "a"] {
        insert_rising(&mut v, s.to_string());
    }
    assert_eq!(v, vec!["a", "b", "m", "z"]);
}
