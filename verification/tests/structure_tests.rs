use class_finder::structure::{
    needs_no_leading_space, normalize_whitespace, parse_class_structure,
};

#[test]
fn parse_simple_class() {
    let source = r#"
package org.example;

import java.util.List;
import java.util.Map;

public class Foo extends Bar implements Baz {
    private String name;
    private int count;

    public Foo(String name) {
        this.name = name;
    }

    public String getName() {
        return name;
    }

    public void setName(String name) {
        this.name = name;
    }
}
"#;
    let result = parse_class_structure(source).unwrap();
    assert_eq!(result.package, "org.example");
    assert_eq!(result.imports, vec!["java.util.List", "java.util.Map"]);
    assert!(
        result
            .class_declaration
            .contains("public class Foo extends Bar implements Baz")
    );
    assert_eq!(result.fields.len(), 2);
    assert!(result.fields[0].contains("private String name"));
    assert!(result.fields[1].contains("private int count"));
    assert_eq!(result.methods.len(), 3);
    assert!(result.methods[0].contains("public Foo(String name)"));
    assert!(result.methods[1].contains("public String getName()"));
    assert!(result.methods[2].contains("public void setName(String name)"));
}

#[test]
fn parse_interface() {
    let source = r#"
package org.example;

public interface Service<T> {
    T find(String id);
    void save(T entity);
}
"#;
    let result = parse_class_structure(source).unwrap();
    assert_eq!(result.package, "org.example");
    assert!(
        result
            .class_declaration
            .contains("public interface Service<T>")
    );
    assert_eq!(result.methods.len(), 2);
    assert!(result.methods[0].contains("T find(String id)"));
    assert!(result.methods[1].contains("void save(T entity)"));
}

#[test]
fn parse_enum() {
    let source = r#"
package org.example;

public enum Color {
    RED,
    GREEN,
    BLUE;

    private int value;

    public int getValue() {
        return value;
    }
}
"#;
    let result = parse_class_structure(source).unwrap();
    assert!(result.class_declaration.contains("public enum Color"));
    assert!(result.fields.iter().any(|f| f.contains("RED")));
    assert!(
        result
            .fields
            .iter()
            .any(|f| f.contains("private int value"))
    );
    assert!(result.methods[0].contains("public int getValue()"));
}

#[test]
fn parse_annotation_type() {
    let source = r#"
package org.springframework.stereotype;

import java.lang.annotation.Documented;
import java.lang.annotation.ElementType;
import java.lang.annotation.Retention;
import java.lang.annotation.RetentionPolicy;
import java.lang.annotation.Target;

@Target({ElementType.TYPE})
@Retention(RetentionPolicy.RUNTIME)
@Documented
public @interface Component {
    String value() default "";
}
"#;
    let result = parse_class_structure(source).unwrap();
    assert_eq!(result.package, "org.springframework.stereotype");
    assert_eq!(result.imports.len(), 5);
    assert!(result.class_declaration.contains("@interface Component"));
    assert!(result.methods.iter().any(|m| m.contains("value()")));
}

#[test]
fn parse_class_with_annotations_and_generics() {
    let source = r#"
package org.example;

import java.util.List;

public abstract class AbstractRepository<T, ID> implements Repository<T, ID> {
    @Autowired
    private EntityManager em;

    @Override
    public T findById(ID id) {
        return em.find(getEntityClass(), id);
    }

    protected abstract Class<T> getEntityClass();
}
"#;
    let result = parse_class_structure(source).unwrap();
    assert!(
        result
            .class_declaration
            .contains("public abstract class AbstractRepository<T, ID>")
    );
    assert!(result.fields.iter().any(|f| f.contains("EntityManager em")));
    assert_eq!(result.methods.len(), 2);
}

#[test]
fn parse_static_import() {
    let source = r#"
package org.example;

import static org.junit.Assert.assertEquals;

public class Test {
}
"#;
    let result = parse_class_structure(source).unwrap();
    assert_eq!(result.imports, vec!["org.junit.Assert.assertEquals"]);
}

#[test]
fn parse_empty_source_returns_none() {
    assert!(parse_class_structure("").is_none());
    assert!(parse_class_structure(" \n\t ").is_none());
}

#[test]
fn parse_gives_exact_heads_and_members() {
    let source = "package p;\nimport a.*;\npublic   class  Foo<T>\n  extends Bar {\n  int   x   =  1;\n  void  run( int  a )  { }\n  Foo() {}\n}\n";
    let result = parse_class_structure(source).unwrap();
    assert_eq!(result.package, "p");
    assert_eq!(result.imports, vec!["*"]);
    assert_eq!(result.class_declaration, "public class Foo<T> extends Bar");
    assert_eq!(result.fields, vec!["int x = 1;"]);
    assert_eq!(result.methods, vec!["void run( int  a )", "Foo()"]);
}

#[test]
fn parse_handles_text_beyond_ascii() {
    let source = "package p;\nclass Grüße {\n  String s = \"日本\";\n}\n";
    let result = parse_class_structure(source).unwrap();
    assert_eq!(result.class_declaration, "class Grüße");
    assert_eq!(result.fields, vec!["String s = \"日本\";"]);
}

#[test]
fn whitespace_helpers() {
    assert_eq!(normalize_whitespace("  a \n\t b  c "), "a b c");
    assert_eq!(normalize_whitespace(""), "");
    assert_eq!(normalize_whitespace(" \u{2003} "), "");
    assert_eq!(normalize_whitespace("ab"), "ab");
    assert!(needs_no_leading_space("type_parameters"));
    assert!(needs_no_leading_space("formal_parameters"));
    assert!(needs_no_leading_space("type_arguments"));
    assert!(!needs_no_leading_space("identifier"));
}
