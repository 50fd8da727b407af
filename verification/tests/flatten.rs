use schema_resolver::{CentralSchemaResolver, ResolveError, Source};

const SEPARATOR: &str =
    "================================================================================";

fn index(entries: &[(&str, &str)]) -> CentralSchemaResolver {
    let mut resolver = CentralSchemaResolver::new();
    for (name, body) in entries {
        resolver.register(name, Source::Text(body.to_string()));
    }
    resolver
}

fn block(shown: &str, body: &str) -> String {
    format!("{}\nMSG: {}\n{}", SEPARATOR, shown, body)
}

fn headers(flat: &str) -> Vec<String> {
    flat.lines().filter(|l| l.starts_with("MSG: ")).map(|l| l[5..].to_string()).collect()
}

#[test]
fn the_separator_has_eighty_signs() {
    assert_eq!(SEPARATOR.len(), 80);
    let resolver = index(&[("p/msg/A", "B b"), ("p/msg/B", "int32 x")]);
    let flat = resolver.flatten("p/msg/A").unwrap();
    let line = flat.lines().nth(2).unwrap();
    assert_eq!(line.len(), 80);
    assert!(line.chars().all(|c| c == '='));
}

#[test]
fn a_schema_of_builtins_flattens_to_itself() {
    let resolver = index(&[("p/msg/A", "\nint32 x\nstring<=8[] names\nfloat64[3] v\n")]);
    assert_eq!(
        resolver.flatten("p/msg/A"),
        Ok("int32 x\nstring<=8[] names\nfloat64[3] v".to_string())
    );
}

#[test]
fn a_cycle_ends_and_emits_each_once() {
    let resolver = index(&[("p/msg/A", "B b\n"), ("p/msg/B", "A a")]);
    assert_eq!(
        resolver.flatten("p/msg/A"),
        Ok(format!("B b\n\n{}", block("p/B", "A a")))
    );
    assert_eq!(
        resolver.flatten("p/msg/B"),
        Ok(format!("A a\n\n{}", block("p/A", "B b")))
    );
}

#[test]
fn a_schema_that_refers_to_itself_is_not_repeated() {
    let resolver = index(&[("p/msg/Node", "Node[] children\nNode parent\nint32 value")]);
    assert_eq!(
        resolver.flatten("p/msg/Node"),
        Ok("Node[] children\nNode parent\nint32 value".to_string())
    );
}

#[test]
fn a_longer_cycle_ends() {
    let resolver = index(&[
        ("p/msg/A", "B b"),
        ("p/msg/B", "C c"),
        ("p/msg/C", "A a\nB b\nD d"),
        ("p/msg/D", "int8 x"),
    ]);
    let flat = resolver.flatten("p/msg/B").unwrap();
    assert_eq!(headers(&flat), vec!["p/C", "p/A", "p/D"]);
}

#[test]
fn a_shared_dependency_is_emitted_at_its_first_occurrence() {
    let resolver = index(&[
        ("p/msg/Root", "std_msgs/Header first\nOther other\nstd_msgs/Header second"),
        ("p/msg/Other", "std_msgs/Header h\nint32 x"),
        ("std_msgs/msg/Header", "string frame_id"),
    ]);
    assert_eq!(
        resolver.flatten("p/msg/Root"),
        Ok(format!(
            "std_msgs/Header first\nOther other\nstd_msgs/Header second\n\n{}\n\n{}",
            block("std_msgs/Header", "string frame_id"),
            block("p/Other", "std_msgs/Header h\nint32 x")
        ))
    );
}

#[test]
fn a_dependency_found_deeper_first_is_not_emitted_again() {
    let resolver = index(&[
        ("p/msg/Root", "Other other\nstd_msgs/Header late"),
        ("p/msg/Other", "std_msgs/Header h"),
        ("std_msgs/msg/Header", "string frame_id"),
    ]);
    let flat = resolver.flatten("p/msg/Root").unwrap();
    assert_eq!(headers(&flat), vec!["p/Other", "std_msgs/Header"]);
}

#[test]
fn the_walk_is_depth_first_in_field_order() {
    let resolver = index(&[
        ("p/msg/Root", "Z z\nA a"),
        ("p/msg/Z", "Y y\nX x"),
        ("p/msg/A", "X x\nW w"),
        ("p/msg/Y", "int8 v"),
        ("p/msg/X", "int8 v"),
        ("p/msg/W", "int8 v"),
    ]);
    let flat = resolver.flatten("p/msg/Root").unwrap();
    assert_eq!(headers(&flat), vec!["p/Z", "p/Y", "p/X", "p/A", "p/W"]);
}

#[test]
fn an_unqualified_name_is_looked_up_in_the_package_of_its_schema() {
    let resolver = index(&[
        ("a/msg/Root", "b/Mid mid\nLeaf own"),
        ("b/msg/Mid", "Leaf leaf"),
        ("b/msg/Leaf", "int8 of_b"),
        ("a/msg/Leaf", "int8 of_a"),
    ]);
    assert_eq!(
        resolver.flatten("a/msg/Root"),
        Ok(format!(
            "b/Mid mid\nLeaf own\n\n{}\n\n{}\n\n{}",
            block("b/Mid", "Leaf leaf"),
            block("b/Leaf", "int8 of_b"),
            block("a/Leaf", "int8 of_a")
        ))
    );
}

#[test]
fn a_root_without_a_slash_is_its_own_package() {
    let resolver = index(&[("Root", "Leaf l"), ("Root/msg/Leaf", "int8 x")]);
    assert_eq!(
        resolver.flatten("Root"),
        Ok(format!("Leaf l\n\n{}", block("Root/Leaf", "int8 x")))
    );
}

#[test]
fn comments_blank_lines_and_single_words_are_passed_over() {
    let resolver = index(&[(
        "p/msg/A",
        "# Missing m\n\n   \n  # Also missing\nMissing\n   Lonely   \n#Missing m\nint32 x # Missing m",
    )]);
    assert_eq!(
        resolver.flatten("p/msg/A"),
        Ok("# Missing m\n\n   \n  # Also missing\nMissing\n   Lonely   \n#Missing m\nint32 x # Missing m"
            .to_string())
    );
}

#[test]
fn lines_are_trimmed_before_they_are_read() {
    let resolver = index(&[
        ("p/msg/A", "int8 a\r\n\t B\tb\r\n\u{3000}C\u{a0}c = 1\r\n"),
        ("p/msg/B", "int8 x"),
        ("p/msg/C", "int8 y"),
    ]);
    let flat = resolver.flatten("p/msg/A").unwrap();
    assert_eq!(headers(&flat), vec!["p/B", "p/C"]);
    assert!(flat.starts_with("int8 a\r\n\t B\tb\r\n\u{3000}C\u{a0}c = 1\n\n"));
}

#[test]
fn an_unresolvable_name_is_not_followed() {
    let resolver = index(&[("p/msg/A", "a/b/c field\nq/srv/R other\nint8 x")]);
    assert_eq!(resolver.flatten("p/msg/A"), Ok("a/b/c field\nq/srv/R other\nint8 x".to_string()));
}

#[test]
fn arrays_of_custom_types_are_followed() {
    let resolver = index(&[
        ("p/msg/A", "B[] many\nq/C[<=4] few\nq/msg/D[2] two\nE[x] odd"),
        ("p/msg/B", "int8 x"),
        ("q/msg/C", "int8 y"),
        ("q/msg/D", "int8 z"),
        ("p/msg/E[x]", "int8 w"),
    ]);
    let flat = resolver.flatten("p/msg/A").unwrap();
    assert_eq!(headers(&flat), vec!["p/B", "q/C", "q/D", "p/E[x]"]);
}

#[test]
fn the_header_collapses_every_msg_segment() {
    let resolver = index(&[("p/msg/A", "q/msg/x/msg/B b"), ("q/msg/x/msg/B", "int8 x")]);
    assert_eq!(
        resolver.flatten("p/msg/A"),
        Ok(format!("q/msg/x/msg/B b\n\n{}", block("q/x/B", "int8 x")))
    );
}

#[test]
fn the_failure_is_that_of_the_type_it_names() {
    let mut resolver = index(&[("p/msg/A", "B b"), ("p/msg/B", "q/C c\nD d")]);
    resolver.register("p/msg/D", Source::Unreadable("denied".to_string()));
    let err = resolver.flatten("p/msg/A").unwrap_err();
    assert_eq!(err, ResolveError::NotFound { typename: "q/msg/C".to_string() });
    assert_eq!(resolver.resolve("q/msg/C"), Err(err));
    resolver.register("q/msg/C", Source::Text("int8 x".to_string()));
    let err = resolver.flatten("p/msg/A").unwrap_err();
    assert_eq!(resolver.resolve("p/msg/D"), Err(err));
}

#[test]
fn the_first_failure_ends_the_walk() {
    let mut resolver = index(&[
        ("p/msg/A", "B b\nMissing m\nLocked l"),
        ("p/msg/B", "Locked l"),
    ]);
    resolver.register("p/msg/Locked", Source::Unreadable("denied".to_string()));
    assert_eq!(
        resolver.flatten("p/msg/A"),
        Err(ResolveError::IoError { typename: "p/msg/Locked".to_string(), reason: "denied".to_string() })
    );
    resolver.register("p/msg/Locked", Source::Text("int8 x".to_string()));
    assert_eq!(
        resolver.flatten("p/msg/A"),
        Err(ResolveError::NotFound { typename: "p/msg/Missing".to_string() })
    );
    assert_eq!(
        resolver.flatten("p/msg/B"),
        Ok(format!("Locked l\n\n{}", block("p/Locked", "int8 x")))
    );
}

#[test]
fn a_bound_without_digits_is_followed_as_a_custom_type() {
    let resolver = index(&[("p/msg/A", "string<= s")]);
    assert_eq!(
        resolver.flatten("p/msg/A"),
        Err(ResolveError::NotFound { typename: "p/msg/string<=".to_string() })
    );
}

#[test]
fn nested_text_is_trimmed_in_its_block() {
    let resolver = index(&[("p/msg/A", "B b"), ("p/msg/B", "\n\n  int8 x  \n# end\n\n")]);
    assert_eq!(
        resolver.flatten("p/msg/A"),
        Ok(format!("B b\n\n{}", block("p/B", "int8 x  \n# end")))
    );
}

#[test]
fn an_empty_nested_schema_has_an_empty_body() {
    let resolver = index(&[("p/msg/A", "B b\nC c"), ("p/msg/B", ""), ("p/msg/C", "  ")]);
    assert_eq!(
        resolver.flatten("p/msg/A"),
        Ok(format!("B b\nC c\n\n{}\n\n{}", block("p/B", ""), block("p/C", "")))
    );
}

#[test]
fn flatten_twice_gives_the_same_text() {
    let resolver = index(&[("p/msg/A", "B b\nC c"), ("p/msg/B", "C c"), ("p/msg/C", "A a")]);
    assert_eq!(resolver.flatten("p/msg/A"), resolver.flatten("p/msg/A"));
}

#[test]
fn a_deep_chain_is_followed_to_its_end() {
    let mut resolver = CentralSchemaResolver::new();
    for i in 0..300 {
        resolver.register(
            &format!("p/msg/T{}", i),
            Source::Text(format!("T{} next\nint32 depth", i + 1)),
        );
    }
    resolver.register("p/msg/T300", Source::Text("int32 depth".to_string()));
    let flat = resolver.flatten("p/msg/T0").unwrap();
    let shown = headers(&flat);
    assert_eq!(shown.len(), 300);
    for (i, name) in shown.iter().enumerate() {
        assert_eq!(name, &format!("p/T{}", i + 1));
    }
}

#[test]
fn all_flattened_texts_come_in_name_order() {
    let resolver = index(&[("p/msg/B", "A a"), ("p/msg/A", "int8 x"), ("p/msg/C", "B b")]);
    assert_eq!(
        resolver.generate_all_flattened(),
        Ok(vec![
            ("p/msg/A".to_string(), "int8 x".to_string()),
            ("p/msg/B".to_string(), format!("A a\n\n{}", block("p/A", "int8 x"))),
            (
                "p/msg/C".to_string(),
                format!("B b\n\n{}\n\n{}", block("p/B", "A a"), block("p/A", "int8 x"))
            ),
        ])
    );
}

#[test]
fn all_flattened_fails_at_the_first_name_that_fails() {
    let resolver = index(&[
        ("p/msg/A", "int8 x"),
        ("p/msg/B", "Gone g"),
        ("p/msg/C", "Lost l"),
    ]);
    assert_eq!(
        resolver.generate_all_flattened(),
        Err(ResolveError::NotFound { typename: "p/msg/Gone".to_string() })
    );
}
