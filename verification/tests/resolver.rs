use schema_resolver::resolver::copy_source;
use schema_resolver::{CentralSchemaResolver, ResolveError, Source};

fn text(s: &str) -> Source {
    Source::Text(s.to_string())
}

fn unreadable(s: &str) -> Source {
    Source::Unreadable(s.to_string())
}

fn not_found(name: &str) -> ResolveError {
    ResolveError::NotFound { typename: name.to_string() }
}

#[test]
fn a_new_index_is_empty() {
    let resolver = CentralSchemaResolver::new();
    assert!(resolver.is_empty());
    assert_eq!(resolver.len(), 0);
    assert_eq!(resolver.type_names(), Vec::<String>::new());
    assert_eq!(resolver.generate_all_raw(), Ok(vec![]));
    assert_eq!(resolver.generate_all_flattened(), Ok(vec![]));
}

#[test]
fn the_default_index_is_empty() {
    let resolver = CentralSchemaResolver::default();
    assert!(resolver.is_empty());
    assert_eq!(format!("{:?}", resolver), format!("{:?}", CentralSchemaResolver::new()));
}

#[test]
fn resolve_missing_type_is_not_found() {
    let resolver = CentralSchemaResolver::new();
    assert_eq!(resolver.resolve("nonexistent/msg/Foo"), Err(not_found("nonexistent/msg/Foo")));
    let mut resolver = CentralSchemaResolver::new();
    resolver.register("nonexistent/msg/Fo", text("int32 x"));
    resolver.register("nonexistent/msg/Foo2", text("int32 x"));
    resolver.register("nonexistent/msg/foo", text("int32 x"));
    assert_eq!(resolver.resolve("nonexistent/msg/Foo"), Err(not_found("nonexistent/msg/Foo")));
    assert_eq!(resolver.flatten("nonexistent/msg/Foo"), Err(not_found("nonexistent/msg/Foo")));
}

#[test]
fn the_message_names_the_missing_type() {
    let err = not_found("nonexistent/msg/Foo");
    assert_eq!(err.message(), "Definition not found for: nonexistent/msg/Foo");
    let err = ResolveError::IoError {
        typename: "pkg/msg/Locked".to_string(),
        reason: "permission denied".to_string(),
    };
    assert_eq!(err.message(), "Cannot read the definition of pkg/msg/Locked: permission denied");
}

#[test]
fn resolve_trims_the_whole_text_only() {
    let mut resolver = CentralSchemaResolver::new();
    resolver.register("pkg/msg/A", text("\n\n  int32 x  \n\n  # note \n string s\t\n\n"));
    assert_eq!(
        resolver.resolve("pkg/msg/A"),
        Ok("int32 x  \n\n  # note \n string s".to_string())
    );
    resolver.register("pkg/msg/Blank", text(" \n\t "));
    assert_eq!(resolver.resolve("pkg/msg/Blank"), Ok(String::new()));
    resolver.register("pkg/msg/Wide", text("\u{3000}int32 x\u{a0}"));
    assert_eq!(resolver.resolve("pkg/msg/Wide"), Ok("int32 x".to_string()));
}

#[test]
fn resolve_unreadable_source_is_an_io_error() {
    let mut resolver = CentralSchemaResolver::new();
    resolver.register("pkg/msg/Locked", unreadable("permission denied"));
    let expected = ResolveError::IoError {
        typename: "pkg/msg/Locked".to_string(),
        reason: "permission denied".to_string(),
    };
    assert_eq!(resolver.resolve("pkg/msg/Locked"), Err(expected.clone()));
    assert_eq!(resolver.flatten("pkg/msg/Locked"), Err(expected));
}

#[test]
fn registering_again_replaces() {
    let mut resolver = CentralSchemaResolver::new();
    resolver.register("pkg/msg/A", text("int32 x"));
    resolver.register("pkg/msg/B", text("int32 y"));
    resolver.register("pkg/msg/A", text("int64 z"));
    assert_eq!(resolver.len(), 2);
    assert!(!resolver.is_empty());
    assert_eq!(resolver.resolve("pkg/msg/A"), Ok("int64 z".to_string()));
    assert_eq!(resolver.resolve("pkg/msg/B"), Ok("int32 y".to_string()));
    resolver.register("pkg/msg/A", unreadable("gone"));
    assert!(resolver.resolve("pkg/msg/A").is_err());
    assert_eq!(resolver.len(), 2);
}

#[test]
fn names_are_case_sensitive_and_byte_exact() {
    let mut resolver = CentralSchemaResolver::new();
    resolver.register("pkg/msg/A", text("int32 x"));
    assert_eq!(resolver.resolve("pkg/msg/a"), Err(not_found("pkg/msg/a")));
    assert_eq!(resolver.resolve("pkg/msg/A "), Err(not_found("pkg/msg/A ")));
    assert_eq!(resolver.resolve("pkg/A"), Err(not_found("pkg/A")));
    assert_eq!(resolver.resolve(""), Err(not_found("")));
}

#[test]
fn names_come_in_lexicographic_order() {
    let mut resolver = CentralSchemaResolver::new();
    let names = [
        "std_msgs/msg/Header", "a/msg/b", "a/msg/B", "geometry_msgs/msg/Vector3", "a/msg/Bb",
        "Z/msg/A", "a/msg/", "é/msg/A", "a0/msg/A", "a/msg/B", "",
    ];
    for name in names {
        resolver.register(name, text(name));
    }
    let mut expected: Vec<String> = names.iter().map(|s| s.to_string()).collect();
    expected.sort();
    expected.dedup();
    assert_eq!(resolver.type_names(), expected);
    assert_eq!(resolver.len(), expected.len());
    for name in names {
        assert_eq!(resolver.resolve(name), Ok(name.trim().to_string()));
    }
}

#[test]
fn many_entries_are_all_found() {
    let mut resolver = CentralSchemaResolver::new();
    for i in 0..200u32 {
        let k = (i * 37) % 200;
        resolver.register(&format!("pkg{}/msg/T{}", k % 7, k), text(&format!("int32 f{}", k)));
    }
    assert_eq!(resolver.len(), 200);
    for k in 0..200u32 {
        assert_eq!(
            resolver.resolve(&format!("pkg{}/msg/T{}", k % 7, k)),
            Ok(format!("int32 f{}", k))
        );
    }
    let names = resolver.type_names();
    let mut sorted = names.clone();
    sorted.sort();
    assert_eq!(names, sorted);
}

#[test]
fn a_message_directory_registers_its_msg_files() {
    let mut resolver = CentralSchemaResolver::new();
    let files = vec![
        ("Header.msg".to_string(), text("string frame_id\n")),
        ("README.md".to_string(), text("read me")),
        ("String.msg".to_string(), text("string data")),
        (".msg".to_string(), text("hidden")),
        ("Upper.MSG".to_string(), text("upper")),
        ("msg".to_string(), text("bare")),
        ("Old.msg.bak".to_string(), text("backup")),
        ("a.b.msg".to_string(), text("dotted")),
        ("Header.msg".to_string(), text("string frame_id_again")),
        ("Broken.msg".to_string(), unreadable("no permission")),
    ];
    resolver.register_msg_dir("std_msgs", &files);
    assert_eq!(
        resolver.type_names(),
        vec![
            "std_msgs/msg/Broken",
            "std_msgs/msg/Header",
            "std_msgs/msg/String",
            "std_msgs/msg/a.b",
        ]
    );
    assert_eq!(resolver.resolve("std_msgs/msg/Header"), Ok("string frame_id_again".to_string()));
    assert_eq!(resolver.resolve("std_msgs/msg/a.b"), Ok("dotted".to_string()));
    assert!(resolver.resolve("std_msgs/msg/Broken").is_err());
}

#[test]
fn a_later_directory_overwrites_an_earlier_one() {
    let mut resolver = CentralSchemaResolver::new();
    resolver.register_msg_dir("pkg", &vec![("A.msg".to_string(), text("int32 first"))]);
    resolver.register_msg_dir("pkg", &vec![("A.msg".to_string(), text("int32 second"))]);
    resolver.register_msg_dir("pkg", &vec![]);
    assert_eq!(resolver.len(), 1);
    assert_eq!(resolver.resolve("pkg/msg/A"), Ok("int32 second".to_string()));
}

#[test]
fn all_raw_texts_come_in_name_order() {
    let mut resolver = CentralSchemaResolver::new();
    resolver.register("b/msg/B", text(" A a \n"));
    resolver.register("a/msg/Z", text("int32 z"));
    resolver.register("a/msg/A", text("b/B b"));
    assert_eq!(
        resolver.generate_all_raw(),
        Ok(vec![
            ("a/msg/A".to_string(), "b/B b".to_string()),
            ("a/msg/Z".to_string(), "int32 z".to_string()),
            ("b/msg/B".to_string(), "A a".to_string()),
        ])
    );
}

#[test]
fn all_raw_fails_at_the_first_name_that_fails() {
    let mut resolver = CentralSchemaResolver::new();
    resolver.register("c/msg/C", unreadable("third"));
    resolver.register("a/msg/A", text("int32 x"));
    resolver.register("b/msg/B", unreadable("second"));
    assert_eq!(
        resolver.generate_all_raw(),
        Err(ResolveError::IoError { typename: "b/msg/B".to_string(), reason: "second".to_string() })
    );
}

#[test]
fn a_copy_of_a_source_is_equal() {
    for source in [text("int32 x"), unreadable("why"), text("")] {
        assert_eq!(copy_source(&source), source);
    }
}
