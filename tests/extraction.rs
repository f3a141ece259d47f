use calltree::analyzer::Driver;
use calltree::call::CallAnalyzer;
use calltree::class::ClassAnalyzer;
use calltree::display::Display;
use calltree::graph::Graph;
use calltree::syntax::{SyntaxKind, SyntaxNode, SyntaxTree};
use calltree::tree::RenderOptions;

fn parse(file: &str, source: &str) -> SyntaxTree {
    SyntaxTree::new(String::from(file), String::from(source), &vec![]).unwrap()
}

fn call_graph(trees: &[SyntaxTree]) -> Graph {
    let mut analyzer = CallAnalyzer::new();
    let mut g = Graph::new();
    for t in trees {
        analyzer.extract_nodes(t, &mut g);
    }
    for t in trees {
        analyzer.extract_edges(t, &mut g);
    }
    g
}

fn class_graph(trees: &[SyntaxTree]) -> Graph {
    let mut analyzer = ClassAnalyzer::new();
    let mut g = Graph::new();
    for t in trees {
        analyzer.extract_nodes(t, &mut g);
    }
    for t in trees {
        analyzer.extract_edges(t, &mut g);
    }
    g
}

fn options(succinct: bool) -> RenderOptions {
    RenderOptions {
        succinct,
        color: false,
        paint: false,
        max_depth: -1,
        ignore_unknown: false,
        sort_children: false,
    }
}

fn edge_names(g: &Graph) -> Vec<(String, String)> {
    g.edge_list()
        .iter()
        .map(|&(a, b)| (g.node(a).name.clone(), g.node(b).name.clone()))
        .collect()
}

#[test]
fn call_example_foo_calls_bar() {
    let g = call_graph(&[parse("a.cpp", "void foo() { bar(); } void bar() {}")]);
    assert_eq!(g.len(), 2);
    assert_eq!(edge_names(&g), vec![(String::from("foo()"), String::from("bar()"))]);
    let text = Display::new(&g, &vec![], true, false, false, -1, false, false).to_text();
    assert_eq!(text, "a.cpp\n└── foo() [a.cpp +1]\n    └── bar() [a.cpp +1]\n");
}

#[test]
fn call_example_reversed() {
    let g = call_graph(&[parse("a.cpp", "void foo() { bar(); } void bar() {}")]).reverse();
    let text = Display::new(&g, &vec![], true, false, false, -1, false, false).to_text();
    assert_eq!(text, "a.cpp\n└── bar() [a.cpp +1]\n    └── foo() [a.cpp +1]\n");
}

#[test]
fn call_example_through_driver() {
    let trees = vec![parse("a.cpp", "void foo() { bar(); } void bar() {}")];
    let (text, rejected) =
        Driver::run(&mut CallAnalyzer::new(), &trees, &vec![], options(true), false, false);
    assert!(rejected.is_empty());
    assert_eq!(text, "a.cpp\n└── foo() [a.cpp +1]\n    └── bar() [a.cpp +1]\n");
}

#[test]
fn class_example_base_and_derived() {
    let g = class_graph(&[parse("a.cpp", "struct Base {}; struct Derived : Base {};")]);
    assert_eq!(edge_names(&g), vec![(String::from("Base"), String::from("Derived"))]);
    let text = Display::new(&g, &vec![], true, false, false, -1, false, false).to_text();
    assert_eq!(text, "a.cpp\n└── Base [a.cpp +1]\n    └── Derived [a.cpp +1]\n");
}

#[test]
fn member_call_on_unknown_receiver_is_unknown() {
    let source = "struct A { void foo() {} };\nstruct B { void foo() {} };\nvoid run() { A obj; obj.foo(); }\n";
    let g = call_graph(&[parse("a.cpp", source)]);
    assert!(g.get_node("A::foo()").is_some());
    assert!(g.get_node("B::foo()").is_some());
    let unknown = g.get_node("unknown::foo()").unwrap();
    assert!(unknown.location.is_empty());
    assert_eq!(
        edge_names(&g),
        vec![(String::from("run()"), String::from("unknown::foo()"))]
    );
}

#[test]
fn member_call_resolves_through_unique_method() {
    let source = "struct A { void foo() {} };\nvoid run() { A obj; obj.foo(); }\n";
    let g = call_graph(&[parse("a.cpp", source)]);
    assert_eq!(edge_names(&g), vec![(String::from("run()"), String::from("A::foo()"))]);
}

#[test]
fn unresolved_free_call_gets_placeholder() {
    let g = call_graph(&[parse("a.cpp", "void foo() { missing(); }")]);
    let p = g.get_node("unknown::missing()").unwrap();
    assert!(p.location.is_empty());
    assert_eq!(
        edge_names(&g),
        vec![(String::from("foo()"), String::from("unknown::missing()"))]
    );
}

#[test]
fn nested_calls_commit_inner_first() {
    let g = call_graph(&[parse("a.cpp", "int g(int x) { return x; }\nint h() { return 1; }\nvoid f() { g(h()); }\n")]);
    assert_eq!(
        edge_names(&g),
        vec![
            (String::from("f()"), String::from("h()")),
            (String::from("f()"), String::from("g()")),
        ]
    );
}

#[test]
fn calls_resolve_across_files() {
    let trees = vec![
        parse("a.cpp", "void foo() { bar(); }"),
        parse("b.cpp", "void bar() {}"),
    ];
    let g = call_graph(&trees);
    assert_eq!(edge_names(&g), vec![(String::from("foo()"), String::from("bar()"))]);
    assert_eq!(g.get_node("bar()").unwrap().location[0].file, "b.cpp");
}

#[test]
fn deleted_definitions_are_skipped() {
    let g = call_graph(&[parse("a.cpp", "struct S { S(const S&) = delete; void run() {} };")]);
    assert!(g.get_node("S::run()").is_some());
    assert_eq!(g.len(), 1);
}

#[test]
fn class_methods_are_qualified() {
    let g = call_graph(&[parse("a.cpp", "class C { public: int get() { return 1; } };\n")]);
    let n = g.get_node("C::get()").unwrap();
    assert_eq!(n.location[0].row, 1);
}

#[test]
fn typedef_and_alias_become_alias_nodes() {
    let g = class_graph(&[parse(
        "a.h",
        "struct Base {};\ntypedef Base Other;\nusing Third = Base;\n",
    )]);
    let other = g.get_node("Other").unwrap();
    assert!(other.alias);
    assert_eq!(other.location[0].row, 2);
    assert!(g.get_node("Third").unwrap().alias);
    assert!(!g.get_node("Base").unwrap().alias);
}

#[test]
fn unknown_base_gets_placeholder() {
    let g = class_graph(&[parse("a.h", "struct D : ns::Missing<int> {};\n")]);
    let p = g.get_node("ns::Missing").unwrap();
    assert!(p.location.is_empty());
    assert_eq!(edge_names(&g), vec![(String::from("ns::Missing"), String::from("D"))]);
}

#[test]
fn macros_are_blanked_before_parsing() {
    let t = SyntaxTree::new(
        String::from("a.cpp"),
        String::from("EXPORT void foo() {}"),
        &vec![String::from("EXPORT")],
    )
    .unwrap();
    assert_eq!(t.source_bytes(), &b" void foo() {}".to_vec());
    let g = call_graph(&[t]);
    assert!(g.get_node("foo()").is_some());
}

#[test]
fn source_slices_node_text() {
    let t = parse("a.cpp", "void foo() {}");
    let first = t.iter()[0];
    assert_eq!(t.source(&first), "void foo() {}");
}

#[test]
fn extracted_edges_never_dangle() {
    let source = "struct A { void m() { helper(); } };\nvoid helper() { A a; a.m(); other(); }\nclass B : public A, Missing {};\n";
    let trees = vec![parse("a.cpp", source)];
    for g in [call_graph(&trees), class_graph(&trees)] {
        for &(a, b) in g.edge_list() {
            assert!(a < g.len() && b < g.len());
        }
    }
}

#[test]
fn from_parts_rejects_nodes_outside_the_source() {
    let node = SyntaxNode { kind: SyntaxKind::Identifier, start_byte: 2, end_byte: 9, row: 0 };
    assert!(SyntaxTree::from_parts(String::from("a.cpp"), b"abc".to_vec(), vec![node]).is_none());
    let inside = SyntaxNode { kind: SyntaxKind::Identifier, start_byte: 0, end_byte: 3, row: 0 };
    let t = SyntaxTree::from_parts(String::from("a.cpp"), b"abc".to_vec(), vec![inside]).unwrap();
    assert_eq!(t.source(&inside), "abc");
}

#[test]
fn kinds_are_told_apart_by_grammar_name() {
    assert_eq!(SyntaxKind::from_name("call_expression"), SyntaxKind::CallExpression);
    assert_eq!(SyntaxKind::from_name("base_class_clause"), SyntaxKind::BaseClassClause);
    assert_eq!(SyntaxKind::from_name("comment"), SyntaxKind::Other);
}

#[test]
fn varied_source_extracts_expected_calls() {
    let source = r#"
namespace ns {
template <typename T>
struct Box : public Base<T> {
  ~Box() { release(); }
  Box& operator=(const Box& o) { copy(o); return *this; }
  void copy(const Box& o) {}
  void release() {}
};
}
struct Base2 {};
void release() {}
void drive(ns::Box<int>* p) {
  p->release();
  p->template copy<int>(*p);
  release();
}
"#;
    let trees = vec![parse("v.cpp", source)];
    let g = call_graph(&trees);
    assert!(g.get_node("drive()").is_some());
    let edges = edge_names(&g);
    assert!(edges.contains(&(String::from("drive()"), String::from("release()"))));
    assert!(edges.iter().all(|(a, _)| a == "drive()" || a.contains("::")));
    let classes = class_graph(&trees);
    assert!(classes.get_node("Base2").is_some());
    assert!(classes.get_node("Box").is_some());
    assert!(classes.get_node("Base").is_some());
    assert_eq!(
        edge_names(&classes),
        vec![(String::from("Base"), String::from("Box"))]
    );
}

#[test]
fn aliases_inside_class_bodies_are_not_registered() {
    let g = class_graph(&[parse(
        "a.cpp",
        "struct S { using T = int; typedef int U; };\nusing V = S;\n",
    )]);
    assert!(g.get_node("S").is_some());
    assert!(g.get_node("T").is_none());
    assert!(g.get_node("U").is_none());
    assert!(g.get_node("V").unwrap().alias);
    assert_eq!(g.len(), 2);
}

#[test]
fn deleted_definitions_with_unicode_spacing_are_skipped() {
    let g = call_graph(&[parse("a.cpp", "struct S { void f() =\u{a0}delete; void run() {} };")]);
    assert!(g.get_node("S::f()").is_none());
    assert!(g.get_node("S::run()").is_some());
}
