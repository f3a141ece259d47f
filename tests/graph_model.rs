use calltree::graph::Graph;
use calltree::node::{Location, Node};

#[test]
fn location_text_and_emptiness() {
    let l = Location::new(String::from("src/a.cpp"), 12);
    assert_eq!(l.to_string(), "[src/a.cpp +12]");
    assert!(!l.is_empty());
    assert!(Location::new_empty().is_empty());
}

#[test]
fn node_constructors() {
    let n = Node::new("foo()", "a.cpp", 3);
    assert_eq!(n.name, "foo()");
    assert!(!n.alias);
    assert_eq!(n.location.len(), 1);
    let a = Node::new_alias("Alias", "b.h", 7);
    assert!(a.alias);
    let u = Node::new_without_loc("unknown::bar()");
    assert!(u.location.is_empty());
    assert_eq!(u.to_string(), "unknown::bar()");
}

#[test]
fn merge_same_name_appends_locations() {
    let mut n = Node::new("foo()", "a.cpp", 3);
    n.merge_node(&Node::new("foo()", "b.cpp", 9));
    assert_eq!(n.name, "foo()");
    assert_eq!(n.location.len(), 2);
    assert!(!n.is_undefined());
    assert_eq!(n.to_string(), "foo() [a.cpp +3] [b.cpp +9]");
}

#[test]
fn merge_different_names_makes_undefined_node() {
    let mut n = Node::new("foo()", "a.cpp", 3);
    n.merge_node(&Node::new("bar()", "b.cpp", 9));
    assert_eq!(n.name, "foo()#bar()");
    assert!(n.is_undefined());
    assert_eq!(n.location.len(), 3);
    assert!(n.location[1].is_empty());
    assert_eq!(n.to_string(), "foo() [a.cpp +3]\nbar() [b.cpp +9]");
}

#[test]
fn label_sorts_locations_case_insensitively() {
    let mut n = Node::new("f()", "b.cpp", 1);
    n.merge_node(&Node::new("f()", "A.cpp", 2));
    n.merge_node(&Node::new("f()", "c.cpp", 3));
    assert_eq!(n.to_string(), "f() [A.cpp +2] [b.cpp +1] [c.cpp +3]");
}

#[test]
fn add_node_merges_locations_by_name() {
    let mut g = Graph::new();
    g.add_node(&Node::new("foo()", "a.cpp", 1));
    g.add_node(&Node::new("foo()", "b.cpp", 2));
    g.add_node(&Node::new_without_loc("foo()"));
    g.add_node(&Node::new("bar()", "a.cpp", 5));
    assert_eq!(g.len(), 2);
    let foo = g.get_node("foo()").unwrap();
    assert_eq!(foo.location.len(), 2);
    assert!(g.get_node("baz()").is_none());
}

#[test]
fn edges_keep_order_and_duplicates() {
    let mut g = Graph::new();
    let a = Node::new("a()", "x.cpp", 1);
    let b = Node::new("b()", "x.cpp", 2);
    let c = Node::new("c()", "x.cpp", 3);
    g.add_node(&a);
    g.add_node(&b);
    g.add_node(&c);
    g.add_edge(&a, &b);
    g.add_edge(&a, &c);
    g.add_edge(&a, &b);
    let adj = g.adjacency();
    assert_eq!(adj[0], vec![1, 2, 1]);
    assert!(adj[1].is_empty());
}

#[test]
fn add_edge_appends_to_the_source_list() {
    let mut g = Graph::new();
    let a = Node::new("a()", "x.cpp", 1);
    let b = Node::new("b()", "x.cpp", 2);
    g.add_node(&a);
    g.add_node(&b);
    g.add_edge(&b, &a);
    g.add_edge(&a, &b);
    assert_eq!(g.edge_list(), &vec![(1, 0), (0, 1)]);
}

#[test]
fn reverse_flips_and_reverse_twice_restores() {
    let mut g = Graph::new();
    let a = Node::new("a()", "x.cpp", 1);
    let b = Node::new("b()", "x.cpp", 2);
    g.add_node(&a);
    g.add_node(&b);
    g.add_edge(&a, &b);
    g.add_edge(&a, &b);
    let r = g.reverse();
    assert_eq!(r.edge_list(), &vec![(1, 0), (1, 0)]);
    assert_eq!(r.len(), 2);
    let rr = r.reverse();
    assert_eq!(rr.edge_list(), g.edge_list());
}

#[test]
fn repeated_registration_keeps_every_location() {
    let mut g = Graph::new();
    for row in 1..6 {
        g.add_node(&Node::new("f()", "a.cpp", row));
    }
    assert_eq!(g.get_node("f()").unwrap().location.len(), 5);
}
