use class_finder::cfr::{Cfr, JavaOutput};

#[test]
fn decompile_class_uses_extraclasspath() {
    let cfr = Cfr::new("/tools/cfr.jar".to_string());
    assert_eq!(cfr.cfr_jar(), "/tools/cfr.jar");
    let args = cfr.class_args("/m2/demo.jar", "org.example.Demo");
    assert_eq!(
        args,
        vec![
            "-jar",
            "/tools/cfr.jar",
            "--extraclasspath",
            "/m2/demo.jar",
            "org.example.Demo",
            "--silent",
            "true",
            "--comments",
            "false"
        ]
    );
    let out = Cfr::read_output(&JavaOutput {
        success: true,
        stdout: "package org.example;\n\npublic class Demo {\n}\n".to_string(),
        stderr: "warning\n".to_string(),
    })
    .unwrap();
    assert!(out.contains("public class Demo"));
}

#[test]
fn decompile_jar_returns_cfr_error_stderr() {
    let cfr = Cfr::new("/tools/cfr.jar".to_string());
    assert_eq!(
        cfr.jar_args("/m2/demo.jar"),
        vec![
            "-jar",
            "/tools/cfr.jar",
            "/m2/demo.jar",
            "--silent",
            "true",
            "--comments",
            "false"
        ]
    );
    let err = Cfr::read_output(&JavaOutput {
        success: false,
        stdout: "ignored".to_string(),
        stderr: "  boom from fake cfr\n".to_string(),
    })
    .unwrap_err()
    .message();
    assert!(err.contains("CFR decompilation failed"));
    assert!(err.contains("boom from fake cfr"));
    assert_eq!(err, "CFR decompilation failed: boom from fake cfr");
}
