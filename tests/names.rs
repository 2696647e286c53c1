use wit_names::names::{resolve_error, Error, Id, Index, Namespace, Span};

fn id(name: &str, offset: usize) -> Id {
    Id {
        name: name.to_string(),
        gen: 0,
        span: Span { offset },
    }
}

#[test]
fn indices_are_dense_in_any_mix() {
    let mut ns = Namespace::default();
    assert_eq!(ns.register(Some(id("a", 0)), "func").unwrap(), 0);
    assert_eq!(ns.alloc_index(), 1);
    assert_eq!(ns.register(None, "func").unwrap(), 2);
    assert_eq!(ns.register(Some(id("b", 4)), "func").unwrap(), 3);
    assert_eq!(ns.alloc_index(), 4);
}

#[test]
fn failed_register_still_consumes_an_index() {
    let mut ns = Namespace::default();
    assert_eq!(ns.register(Some(id("a", 0)), "function").unwrap(), 0);
    assert!(ns.register(Some(id("a", 1)), "function").is_err());
    assert_eq!(ns.alloc_index(), 2);
}

#[test]
fn duplicate_function_is_an_error() {
    let mut ns = Namespace::default();
    ns.register(Some(id("f", 0)), "function").unwrap();
    match ns.register(Some(id("f", 9)), "function") {
        Err(Error::DuplicateIdentifier { span, desc }) => {
            assert_eq!(span, Span { offset: 9 });
            assert_eq!(desc, "function");
        }
        other => panic!("unexpected {:?}", other),
    }
}

#[test]
fn duplicate_data_and_elem_rebind() {
    for desc in ["data", "elem"] {
        let mut ns = Namespace::default();
        assert_eq!(ns.register(Some(id("s", 0)), desc).unwrap(), 0);
        assert_eq!(ns.register(Some(id("s", 1)), desc).unwrap(), 1);
        let mut r = Index::Id(id("s", 2));
        assert_eq!(ns.resolve(&mut r, desc).unwrap(), 1);
    }
}

#[test]
fn similar_descriptions_are_not_exempt() {
    let mut ns = Namespace::default();
    ns.register(Some(id("s", 0)), "dat").unwrap();
    assert!(ns.register(Some(id("s", 1)), "dat").is_err());
    let mut ns = Namespace::default();
    ns.register(Some(id("s", 0)), "elems").unwrap();
    assert!(ns.register(Some(id("s", 1)), "elems").is_err());
}

#[test]
fn register_specific_binds_given_index() {
    let mut ns = Namespace::default();
    ns.register_specific(id("imp", 0), 7, "func").unwrap();
    let mut r = Index::Id(id("imp", 3));
    assert_eq!(ns.resolve(&mut r, "func").unwrap(), 7);
    // no index was handed out
    assert_eq!(ns.alloc_index(), 0);
}

#[test]
fn register_specific_duplicate_fails_even_for_data() {
    let mut ns = Namespace::default();
    ns.register_specific(id("d", 0), 0, "data").unwrap();
    match ns.register_specific(id("d", 5), 1, "data") {
        Err(Error::DuplicateIdentifierFor { span, desc }) => {
            assert_eq!(span.offset, 5);
            assert_eq!(desc, "data");
        }
        other => panic!("unexpected {:?}", other),
    }
}

#[test]
fn resolve_turns_name_into_number() {
    let mut ns = Namespace::default();
    ns.register(None, "type").unwrap();
    ns.register(Some(id("t", 0)), "type").unwrap();
    let mut r = Index::Id(id("t", 12));
    assert_eq!(ns.resolve(&mut r, "type").unwrap(), 1);
    match r {
        Index::Num(n, span) => {
            assert_eq!(n, 1);
            assert_eq!(span.offset, 12);
        }
        Index::Id(_) => panic!("reference was not resolved"),
    }
    // resolving again gives the same index
    assert_eq!(ns.resolve(&mut r, "type").unwrap(), 1);
}

#[test]
fn resolve_of_number_needs_no_table() {
    let ns = Namespace::default();
    let mut r = Index::Num(42, Span { offset: 1 });
    assert_eq!(ns.resolve(&mut r, "func").unwrap(), 42);
    assert!(matches!(r, Index::Num(42, Span { offset: 1 })));
}

#[test]
fn resolve_unknown_name_fails() {
    let mut ns = Namespace::default();
    ns.register(Some(id("known", 0)), "global").unwrap();
    let mut r = Index::Id(id("missing", 8));
    match ns.resolve(&mut r, "global") {
        Err(Error::UnknownIdentifier { span, desc, name }) => {
            assert_eq!(span.offset, 8);
            assert_eq!(desc, "global");
            assert_eq!(name, "missing");
        }
        other => panic!("unexpected {:?}", other),
    }
    assert!(matches!(r, Index::Id(_)));
}

#[test]
fn generation_distinguishes_names() {
    let mut ns = Namespace::default();
    let made_up = Id {
        name: "x".to_string(),
        gen: 1,
        span: Span { offset: 0 },
    };
    assert!(made_up.is_gensym());
    ns.register(Some(made_up.clone()), "local").unwrap();
    ns.register(Some(id("x", 0)), "local").unwrap();
    let mut r = Index::Id(made_up);
    assert_eq!(ns.resolve(&mut r, "local").unwrap(), 0);
    let mut r = Index::Id(id("x", 0));
    assert_eq!(ns.resolve(&mut r, "local").unwrap(), 1);
}

#[test]
fn resolve_error_carries_name_and_scope() {
    match resolve_error(&id("f", 4), "func") {
        Error::UnknownIdentifier { span, desc, name } => {
            assert_eq!(span.offset, 4);
            assert_eq!(desc, "func");
            assert_eq!(name, "f");
        }
        other => panic!("unexpected {:?}", other),
    }
}

#[test]
fn namespace_error_messages() {
    let mut ns = Namespace::default();
    ns.register(Some(id("f", 0)), "func").unwrap();
    let dup = ns.register(Some(id("f", 1)), "func").unwrap_err();
    assert_eq!(dup.message(), "duplicate func identifier");
    let unknown = resolve_error(&id("g", 2), "func");
    assert_eq!(unknown.message(), "unknown func: failed to find name `$g`");
    ns.register_specific(id("h", 3), 4, "func").unwrap();
    let dup_for = ns.register_specific(id("h", 5), 6, "func").unwrap_err();
    assert_eq!(dup_for.message(), "duplicate identifier for func");
}
