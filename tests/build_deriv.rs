use eval_nix::build_deriv::{parse_nix_instantiate, parse_nix_instantiate_list, ParsableNixValue, StorePath};

#[test]
fn parse_simples() {
    assert!(parse_nix_instantiate("null") == Ok(ParsableNixValue::Null));
    assert!(parse_nix_instantiate("true") == Ok(ParsableNixValue::Bool(true)));
    assert!(parse_nix_instantiate("false") == Ok(ParsableNixValue::Bool(false)));
    assert!(parse_nix_instantiate("<CODE>") == Ok(ParsableNixValue::Unevaluated));
    assert!(parse_nix_instantiate("<LAMBDA>") == Ok(ParsableNixValue::Function));
}

#[test]
fn parse_list() {
    assert!(parse_nix_instantiate("[ ]") == Ok(ParsableNixValue::List(vec!())));
}

#[test]
fn lists_of_values() {
    assert_eq!(
        parse_nix_instantiate("[1 \"a\" [true] {k = -2;}]"),
        Ok(ParsableNixValue::List(vec![
            ParsableNixValue::Int(1),
            ParsableNixValue::String("a".to_string()),
            ParsableNixValue::List(vec![ParsableNixValue::Bool(true)]),
            ParsableNixValue::AttrSet(vec![("k".to_string(), ParsableNixValue::Int(-2))]),
        ]))
    );
}

#[test]
fn unrecognized_output() {
    assert_eq!(
        parse_nix_instantiate("42"),
        Err("Unrecognized output: 42".to_string())
    );
    assert_eq!(
        parse_nix_instantiate("[/nix/store]"),
        Err("Unrecognized output: [/nix/store]".to_string())
    );
    assert_eq!(
        parse_nix_instantiate("[1 2 ]x]"),
        Ok(ParsableNixValue::List(vec![ParsableNixValue::Int(1), ParsableNixValue::Int(2)]))
    );
    assert_eq!(
        parse_nix_instantiate_list("{a = 1;}".to_string()),
        Err("Unrecognized output: {a = 1;}".to_string())
    );
    assert_eq!(
        parse_nix_instantiate_list("[1".to_string()),
        Err("Unrecognized output: [1".to_string())
    );
}

#[test]
fn store_path_is_built() {
    let p = StorePath::new("abc123".to_string(), "hello-2.10".to_string());
    let shown = format!("{:?}", p);
    assert!(shown.contains("abc123"));
    assert!(shown.contains("hello-2.10"));
}

#[test]
fn parsable_sets_compare_as_mappings() {
    let a = ParsableNixValue::AttrSet(vec![
        ("x".to_string(), ParsableNixValue::Int(1)),
        ("y".to_string(), ParsableNixValue::Null),
    ]);
    let b = ParsableNixValue::AttrSet(vec![
        ("y".to_string(), ParsableNixValue::Null),
        ("x".to_string(), ParsableNixValue::Int(1)),
    ]);
    let c = ParsableNixValue::AttrSet(vec![("x".to_string(), ParsableNixValue::Int(1))]);
    assert!(a == b);
    assert!(a != c);
    assert!(ParsableNixValue::List(vec![a]) == ParsableNixValue::List(vec![b]));
}
