use class_finder::parse::{
    extract_class_name, extract_type_name_from_line, hash_content, parse_decompiled_output,
};

#[test]
fn parse_decompiled_output_splits_multiple_classes() {
    let input = r#"/*
 * Decompiled with CFR 0.152.
 */
package org.apache.commons.lang3;

public class StringUtils {
}
/*
 * Decompiled with CFR 0.152.
 */
package org.apache.commons.lang3;

public class ArrayUtils {
}
"#;

    let parsed = parse_decompiled_output(input);
    assert_eq!(parsed.len(), 2);
    assert_eq!(parsed[0].class_name, "org.apache.commons.lang3.StringUtils");
    assert_eq!(parsed[1].class_name, "org.apache.commons.lang3.ArrayUtils");
}

#[test]
fn extract_class_name_handles_generics() {
    let input = r#"
package a.b;
public final class Foo<T> extends Bar {
}
"#;
    assert_eq!(extract_class_name(input).as_deref(), Some("a.b.Foo"));
}

#[test]
fn parse_keeps_trimmed_section_text_and_digest() {
    let input = "/*\n * Decompiled with CFR 0.152.\n */\npackage p;\nclass A {}\n\n";
    let parsed = parse_decompiled_output(input);
    assert_eq!(parsed.len(), 1);
    assert_eq!(parsed[0].class_name, "p.A");
    assert_eq!(
        parsed[0].content,
        "/*\n * Decompiled with CFR 0.152.\n */\npackage p;\nclass A {}"
    );
    assert_eq!(parsed[0].content_hash, hash_content(&parsed[0].content));
}

#[test]
fn parse_normalizes_windows_line_ends() {
    let input = "/*\r\n * Decompiled with CFR 0.152.\r\n */\r\npackage p;\r\nclass A {}\r\n";
    let parsed = parse_decompiled_output(input);
    assert_eq!(parsed.len(), 1);
    assert_eq!(
        parsed[0].content,
        "/*\n * Decompiled with CFR 0.152.\n */\npackage p;\nclass A {}"
    );
}

#[test]
fn parse_without_banner_takes_whole_text() {
    let parsed = parse_decompiled_output("package q;\r\ninterface I {}\r\n");
    assert_eq!(parsed.len(), 1);
    assert_eq!(parsed[0].class_name, "q.I");
    assert_eq!(parsed[0].content, "package q;\ninterface I {}\n");
}

#[test]
fn parse_without_banner_and_type_is_empty() {
    assert!(parse_decompiled_output("").is_empty());
    assert!(parse_decompiled_output("package q;\n").is_empty());
}

#[test]
fn parse_skips_sections_without_a_type() {
    let input = "/*\n * Decompiled with CFR 0.152.\n */\npackage p;\n/*\n * Decompiled with CFR 0.152.\n */\nenum E { A }\n";
    let parsed = parse_decompiled_output(input);
    assert_eq!(parsed.len(), 1);
    assert_eq!(parsed[0].class_name, "E");
}

#[test]
fn extract_class_name_without_package() {
    assert_eq!(extract_class_name("public record Point(int x) {}").as_deref(), Some("Point(int"));
    assert_eq!(extract_class_name("enum Color{").as_deref(), Some("Color"));
    assert_eq!(extract_class_name("int x = 1;"), None);
}

#[test]
fn extract_class_name_package_after_type() {
    let input = "class A {\n}\npackage   late.pkg ;;\n";
    assert_eq!(extract_class_name(input).as_deref(), Some("late.pkg.A"));
}

#[test]
fn extract_class_name_repeated_package_word() {
    assert_eq!(
        extract_class_name("package package a;\nclass B").as_deref(),
        Some("a.B")
    );
}

#[test]
fn extract_type_name_from_line_cases() {
    assert_eq!(
        extract_type_name_from_line("public final class Foo<T> extends Bar {").as_deref(),
        Some("Foo")
    );
    assert_eq!(
        extract_type_name_from_line("public @interface Component {").as_deref(),
        Some("Component")
    );
    assert_eq!(extract_type_name_from_line("class "), None);
    assert_eq!(extract_type_name_from_line("class { enum E"), Some("E".to_string()));
    assert_eq!(extract_type_name_from_line("class <T> enum E"), Some("E".to_string()));
    assert_eq!(extract_type_name_from_line("final int x;"), None);
    assert_eq!(extract_type_name_from_line("class\u{2003}Wide"), None);
    assert_eq!(
        extract_type_name_from_line("class \u{2003}Wide{{").as_deref(),
        Some("Wide")
    );
}

#[test]
fn hash_content_is_sha256_in_lowercase_hex() {
    assert_eq!(
        hash_content("abc"),
        "ba7816bf8f01cfea414140de5dae2223b00361a396177a9cb410ff61f20015ad"
    );
    assert_eq!(
        hash_content(""),
        "e3b0c44298fc1c149afbf4c8996fb92427ae41e4649b934ca495991b7852b855"
    );
}
