use class_finder::cli::{normalize_class_name, rewrite_args_for_implicit_find};

fn strings(items: &[&str]) -> Vec<String> {
    items.iter().map(|s| s.to_string()).collect()
}

#[test]
fn normalize_class_name_strips_import_whitespace_and_semicolon() {
    let raw = "import org.springframework.stereotype. Component ;";
    assert_eq!(
        normalize_class_name(raw),
        "org.springframework.stereotype.Component"
    );
}

#[test]
fn normalize_class_name_edge_cases() {
    assert_eq!(normalize_class_name("  a.B  "), "a.B");
    assert_eq!(normalize_class_name("a.B;;; "), "a.B");
    assert_eq!(normalize_class_name("importa.B"), "a.B");
    assert_eq!(normalize_class_name("import"), "");
    assert_eq!(normalize_class_name(""), "");
    assert_eq!(normalize_class_name("a.\u{3000}B\t;"), "a.B");
    assert_eq!(normalize_class_name("a.B; x"), "a.B;x");
}

#[test]
fn rewrite_args_for_implicit_find_inserts_find_after_global_flags() {
    let args = vec![
        "class-finder".to_string(),
        "--db".to_string(),
        "/tmp/cf.lmdb".to_string(),
        "org.example.Demo".to_string(),
    ];
    let rewritten = rewrite_args_for_implicit_find(args);
    assert_eq!(rewritten[3], "find");
    assert_eq!(rewritten[4], "org.example.Demo");
}

#[test]
fn rewrite_args_for_implicit_find_keeps_explicit_subcommand() {
    let args = vec![
        "class-finder".to_string(),
        "--db=/tmp/cf.lmdb".to_string(),
        "stats".to_string(),
    ];
    let rewritten = rewrite_args_for_implicit_find(args);
    assert_eq!(
        rewritten,
        vec!["class-finder", "--db=/tmp/cf.lmdb", "stats"]
    );
}

#[test]
fn rewrite_args_edge_cases() {
    assert_eq!(rewrite_args_for_implicit_find(Vec::new()), Vec::<String>::new());
    assert_eq!(rewrite_args_for_implicit_find(strings(&["cf"])), strings(&["cf"]));
    assert_eq!(
        rewrite_args_for_implicit_find(strings(&["cf", "a.B"])),
        strings(&["cf", "find", "a.B"])
    );
    assert_eq!(
        rewrite_args_for_implicit_find(strings(&["cf", "--m2"])),
        strings(&["cf", "--m2"])
    );
    assert_eq!(
        rewrite_args_for_implicit_find(strings(&["cf", "--cfr", "x.jar"])),
        strings(&["cf", "--cfr", "x.jar"])
    );
    assert_eq!(
        rewrite_args_for_implicit_find(strings(&["cf", "-v", "--", "stats2"])),
        strings(&["cf", "-v", "--", "find", "stats2"])
    );
    assert_eq!(
        rewrite_args_for_implicit_find(strings(&["cf", "--", "help"])),
        strings(&["cf", "--", "help"])
    );
    assert_eq!(
        rewrite_args_for_implicit_find(strings(&["cf", "--"])),
        strings(&["cf", "--"])
    );
    assert_eq!(
        rewrite_args_for_implicit_find(strings(&["cf", "--m2", "find", "load"])),
        strings(&["cf", "--m2", "find", "load"])
    );
    assert_eq!(
        rewrite_args_for_implicit_find(strings(&["cf", "", "x"])),
        strings(&["cf", "find", "", "x"])
    );
}
