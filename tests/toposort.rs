use indexmap::IndexMap;
use wit_names::toposort::{toposort, Error, Id, Span};

fn id(name: &str) -> Id {
    Id {
        name: name.to_string(),
        span: Span { start: 0, end: 0 },
    }
}

fn id_at(name: &str, start: u32) -> Id {
    Id {
        name: name.to_string(),
        span: Span { start, end: start + 1 },
    }
}

#[test]
fn smoke() {
    let empty: Vec<&str> = Vec::new();
    assert_eq!(toposort("", &IndexMap::new()).unwrap(), empty);

    let mut nonexistent = IndexMap::new();
    let mut test1 = Vec::new();
    test1.push(id("b"));
    nonexistent.insert("a".to_string(), test1);
    assert!(matches!(
        toposort("", &nonexistent),
        Err(Error::NonexistentDep { .. })
    ));

    let mut one = IndexMap::new();
    one.insert("a".to_string(), Vec::new());
    assert_eq!(toposort("", &one).unwrap(), ["a"]);

    let mut two = IndexMap::new();
    two.insert("a".to_string(), Vec::new());
    let mut test2 = Vec::new();
    test2.push(id("a"));
    two.insert("b".to_string(), test2);
    assert_eq!(toposort("", &two).unwrap(), ["a", "b"]);

    let mut two = IndexMap::new();
    let mut test3 = Vec::new();
    test3.push(id("b"));
    two.insert("a".to_string(), test3);
    two.insert("b".to_string(), Vec::new());
    assert_eq!(toposort("", &two).unwrap(), ["b", "a"]);
}

#[test]
fn cycles() {
    let mut cycle = IndexMap::new();
    let mut test1 = Vec::new();
    test1.push(id("a"));
    cycle.insert("a".to_string(), test1);
    assert!(matches!(toposort("", &cycle), Err(Error::Cycle { .. })));

    let mut cycle = IndexMap::new();
    let mut test2 = Vec::new();
    test2.push(id("b"));
    cycle.insert("a".to_string(), test2);
    let mut test3 = Vec::new();
    test3.push(id("c"));
    cycle.insert("b".to_string(), test3);
    let mut test4 = Vec::new();
    test4.push(id("a"));
    cycle.insert("c".to_string(), test4);
    assert!(matches!(toposort("", &cycle), Err(Error::Cycle { .. })));
}

#[test]
fn depend_twice() {
    let mut two = IndexMap::new();
    let mut test1 = Vec::new();
    test1.push(id("a"));
    test1.push(id("a"));
    two.insert("b".to_string(), test1);
    two.insert("a".to_string(), Vec::new());
    assert_eq!(toposort("", &two).unwrap(), ["a", "b"]);
}

#[test]
fn missing_dependency_reports_name_span_and_kind() {
    let mut g = IndexMap::new();
    g.insert("a".to_string(), vec![id_at("x", 3), id_at("b", 7)]);
    g.insert("x".to_string(), Vec::new());
    match toposort("world", &g) {
        Err(Error::NonexistentDep { span, name, kind }) => {
            assert_eq!(span, Span { start: 7, end: 8 });
            assert_eq!(name, "b");
            assert_eq!(kind, "world");
        }
        other => panic!("unexpected {:?}", other),
    }
}

#[test]
fn first_missing_dependency_in_graph_order_is_reported() {
    let mut g = IndexMap::new();
    g.insert("a".to_string(), vec![id_at("q", 1)]);
    g.insert("b".to_string(), vec![id_at("p", 2)]);
    match toposort("", &g) {
        Err(Error::NonexistentDep { name, span, .. }) => {
            assert_eq!(name, "q");
            assert_eq!(span.start, 1);
        }
        other => panic!("unexpected {:?}", other),
    }
}

#[test]
fn missing_dependency_wins_over_cycle() {
    let mut g = IndexMap::new();
    g.insert("a".to_string(), vec![id("a")]);
    g.insert("b".to_string(), vec![id("zzz")]);
    assert!(matches!(toposort("", &g), Err(Error::NonexistentDep { .. })));
}

#[test]
fn self_cycle_reports_the_edge() {
    let mut g = IndexMap::new();
    g.insert("a".to_string(), vec![id_at("a", 5)]);
    match toposort("interface", &g) {
        Err(Error::Cycle { span, name, kind }) => {
            assert_eq!(span.start, 5);
            assert_eq!(name, "a");
            assert_eq!(kind, "interface");
        }
        other => panic!("unexpected {:?}", other),
    }
}

#[test]
fn cycle_reports_first_stuck_node_and_edge() {
    // "free" can be placed; "b" and "c" form a cycle; "a" depends on "free" then "c".
    let mut g = IndexMap::new();
    g.insert("free".to_string(), Vec::new());
    g.insert("a".to_string(), vec![id_at("free", 1), id_at("c", 2)]);
    g.insert("b".to_string(), vec![id_at("c", 3)]);
    g.insert("c".to_string(), vec![id_at("b", 4)]);
    match toposort("", &g) {
        Err(Error::Cycle { span, name, .. }) => {
            assert_eq!(name, "c");
            assert_eq!(span.start, 2);
        }
        other => panic!("unexpected {:?}", other),
    }
}

#[test]
fn ties_go_to_the_greatest_name() {
    let mut g = IndexMap::new();
    g.insert("b".to_string(), Vec::new());
    g.insert("c".to_string(), Vec::new());
    g.insert("a".to_string(), Vec::new());
    assert_eq!(toposort("", &g).unwrap(), ["c", "b", "a"]);

    let mut g = IndexMap::new();
    g.insert("root".to_string(), vec![id("x"), id("y")]);
    g.insert("x".to_string(), Vec::new());
    g.insert("y".to_string(), vec![id("x")]);
    g.insert("ab".to_string(), Vec::new());
    g.insert("a".to_string(), Vec::new());
    assert_eq!(toposort("", &g).unwrap(), ["x", "y", "root", "ab", "a"]);
}

#[test]
fn order_does_not_depend_on_edge_listing() {
    let mut g1 = IndexMap::new();
    g1.insert("d".to_string(), vec![id("a"), id("b"), id("c")]);
    g1.insert("a".to_string(), Vec::new());
    g1.insert("b".to_string(), vec![id("a")]);
    g1.insert("c".to_string(), Vec::new());

    let mut g2 = IndexMap::new();
    g2.insert("d".to_string(), vec![id("c"), id("b"), id("a"), id("b")]);
    g2.insert("a".to_string(), Vec::new());
    g2.insert("b".to_string(), vec![id("a"), id("a")]);
    g2.insert("c".to_string(), Vec::new());

    let r1 = toposort("", &g1).unwrap();
    let r2 = toposort("", &g2).unwrap();
    assert_eq!(r1, r2);
    assert_eq!(r1, ["c", "a", "b", "d"]);
}

#[test]
fn non_ascii_names_sort_by_character() {
    let mut g = IndexMap::new();
    g.insert("é".to_string(), Vec::new());
    g.insert("z".to_string(), Vec::new());
    assert_eq!(toposort("", &g).unwrap(), ["é", "z"]);
}

#[test]
fn error_messages() {
    let missing = Error::NonexistentDep {
        span: Span { start: 0, end: 1 },
        name: "foo".to_string(),
        kind: "world".to_string(),
    };
    assert_eq!(missing.message(), "world `foo` does not exist");
    let cycle = Error::Cycle {
        span: Span { start: 0, end: 1 },
        name: "bar".to_string(),
        kind: "interface".to_string(),
    };
    assert_eq!(cycle.message(), "interface `bar` depends on itself");
}
