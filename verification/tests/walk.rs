use schema_resolver::{CentralSchemaResolver, ResolveError, Source};
use vstd::hash_set::StringHashSet;

const SEPARATOR: &str =
    "================================================================================";

fn index(entries: &[(&str, &str)]) -> CentralSchemaResolver {
    let mut resolver = CentralSchemaResolver::new();
    for (name, body) in entries {
        resolver.register(name, Source::Text(body.to_string()));
    }
    resolver
}

#[test]
fn flatten_inner_appends_blocks_and_marks_what_it_emits() {
    let resolver = index(&[("p/msg/B", "C c"), ("p/msg/C", "int8 x"), ("p/msg/D", "int8 y")]);
    let mut visited = StringHashSet::new();
    let mut flat = vec!["before".to_string()];
    let result = resolver.flatten_inner("p/msg/A", "B b\nC c\nD d", &mut visited, &mut flat);
    assert_eq!(result, Ok(()));
    assert_eq!(
        flat,
        vec![
            "before".to_string(),
            format!("{}\nMSG: p/B\nC c", SEPARATOR),
            format!("{}\nMSG: p/C\nint8 x", SEPARATOR),
            format!("{}\nMSG: p/D\nint8 y", SEPARATOR),
        ]
    );
    assert_eq!(visited.len(), 4);
    for name in ["p/msg/A", "p/msg/B", "p/msg/C", "p/msg/D"] {
        assert!(visited.contains(name));
    }
}

#[test]
fn flatten_inner_passes_over_what_was_visited() {
    let resolver = index(&[("p/msg/B", "C c"), ("p/msg/C", "int8 x")]);
    let mut visited = StringHashSet::new();
    visited.insert("p/msg/B".to_string());
    let mut flat = Vec::new();
    let result = resolver.flatten_inner("p/msg/A", "B b\nC c", &mut visited, &mut flat);
    assert_eq!(result, Ok(()));
    assert_eq!(flat, vec![format!("{}\nMSG: p/C\nint8 x", SEPARATOR)]);
    assert_eq!(visited.len(), 3);
}

#[test]
fn flatten_inner_keeps_what_it_emitted_before_a_failure() {
    let resolver = index(&[("p/msg/B", "int8 x")]);
    let mut visited = StringHashSet::new();
    let mut flat = Vec::new();
    let result = resolver.flatten_inner("p/msg/A", "B b\nGone g\nB again", &mut visited, &mut flat);
    assert_eq!(result, Err(ResolveError::NotFound { typename: "p/msg/Gone".to_string() }));
    assert_eq!(flat, vec![format!("{}\nMSG: p/B\nint8 x", SEPARATOR)]);
    assert!(visited.contains("p/msg/A"));
    assert!(visited.contains("p/msg/B"));
    assert!(!visited.contains("p/msg/Gone"));
}
