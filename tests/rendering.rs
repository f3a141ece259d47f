use calltree::display::Display;
use calltree::graph::Graph;
use calltree::node::Node;
use calltree::roots::select_roots;

fn graph_of(nodes: &[Node], edges: &[(usize, usize)]) -> Graph {
    let mut g = Graph::new();
    for n in nodes {
        g.add_node(n);
    }
    for &(a, b) in edges {
        g.add_edge(&nodes[a], &nodes[b]);
    }
    g
}

fn plain(g: &Graph, succinct: bool, depth: i32) -> String {
    Display::new(g, &vec![], succinct, false, false, depth, false, false).to_text()
}

#[test]
fn cycle_terminates_and_repeats_once() {
    let a = Node::new("A", "x.cpp", 1);
    let b = Node::new("B", "x.cpp", 2);
    let g = graph_of(&[a, b], &[(0, 1), (1, 0)]);
    let text = plain(&g, false, -1);
    assert_eq!(
        text,
        "x.cpp\n├── A [x.cpp +1]\n│   └── B [x.cpp +2]\n│       └── A [x.cpp +1]\n└── B [x.cpp +2]\n    └── A [x.cpp +1]\n        └── B [x.cpp +2]\n"
    );
    assert!(text.matches("A [x.cpp +1]").count() >= 2);
}

#[test]
fn succinct_mode_picks_a_root_inside_a_cycle() {
    let a = Node::new("A", "x.cpp", 1);
    let b = Node::new("B", "x.cpp", 2);
    let g = graph_of(&[a, b], &[(0, 1), (1, 0)]);
    assert_eq!(select_roots(&g), vec![0]);
    assert_eq!(
        plain(&g, true, -1),
        "x.cpp\n└── A [x.cpp +1]\n    └── B [x.cpp +2]\n        └── A [x.cpp +1]\n"
    );
}

#[test]
fn succinct_roots_cover_every_node() {
    let nodes: Vec<Node> = (0..6).map(|i| Node::new(&format!("n{}", i), "x.cpp", i + 1)).collect();
    let g = graph_of(&nodes, &[(0, 1), (1, 2), (3, 4), (4, 3), (4, 5), (5, 3)]);
    let roots = select_roots(&g);
    assert_eq!(roots, vec![0, 4]);
}

#[test]
fn shared_child_expands_under_each_parent() {
    let nodes = [
        Node::new("top", "x.cpp", 1),
        Node::new("left", "x.cpp", 2),
        Node::new("right", "x.cpp", 3),
        Node::new("leaf", "x.cpp", 4),
    ];
    let g = graph_of(&nodes, &[(0, 1), (0, 2), (1, 3), (2, 3)]);
    assert_eq!(
        plain(&g, true, -1),
        "x.cpp\n└── top [x.cpp +1]\n    ├── left [x.cpp +2]\n    │   └── leaf [x.cpp +4]\n    └── right [x.cpp +3]\n        └── leaf [x.cpp +4]\n"
    );
}

#[test]
fn depth_limit_cuts_the_tree() {
    let nodes = [Node::new("a", "x.cpp", 1), Node::new("b", "x.cpp", 2), Node::new("c", "x.cpp", 3)];
    let g = graph_of(&nodes, &[(0, 1), (1, 2)]);
    assert_eq!(plain(&g, true, 1), "x.cpp\n└── a [x.cpp +1]\n    └── b [x.cpp +2]\n");
    assert_eq!(plain(&g, true, 0), "x.cpp\n└── a [x.cpp +1]\n");
}

#[test]
fn unknown_group_and_its_suppression() {
    let nodes = [Node::new("f()", "x.cpp", 1), Node::new_without_loc("unknown::g()")];
    let g = graph_of(&nodes, &[(0, 1)]);
    assert_eq!(
        plain(&g, false, -1),
        "x.cpp\n└── f() [x.cpp +1]\n    └── unknown::g()\n\nunknown\n└── unknown::g()"
    );
    let hidden = Display::new(&g, &vec![], false, false, false, -1, true, false).to_text();
    assert_eq!(hidden, "x.cpp\n└── f() [x.cpp +1]\n");
}

#[test]
fn children_sorted_on_request() {
    let nodes = [Node::new("p", "x.cpp", 1), Node::new("Zed", "x.cpp", 2), Node::new("alpha", "x.cpp", 3)];
    let g = graph_of(&nodes, &[(0, 1), (0, 2)]);
    let sorted = Display::new(&g, &vec![], true, false, false, -1, false, true).to_text();
    assert_eq!(
        sorted,
        "x.cpp\n└── p [x.cpp +1]\n    ├── alpha [x.cpp +3]\n    └── Zed [x.cpp +2]\n"
    );
    let unsorted = plain(&g, true, -1);
    assert_eq!(
        unsorted,
        "x.cpp\n└── p [x.cpp +1]\n    ├── Zed [x.cpp +2]\n    └── alpha [x.cpp +3]\n"
    );
}

#[test]
fn files_group_case_insensitively() {
    let nodes = [Node::new("b()", "b.cpp", 1), Node::new("a()", "A.cpp", 1)];
    let g = graph_of(&nodes, &[]);
    assert_eq!(plain(&g, false, -1), "A.cpp\n└── a() [A.cpp +1]\n\nb.cpp\n└── b() [b.cpp +1]\n");
}

#[test]
fn patterns_filter_and_invalid_ones_are_set_aside() {
    let nodes = [Node::new("alpha()", "x.cpp", 1), Node::new("beta()", "x.cpp", 2)];
    let g = graph_of(&nodes, &[]);
    let d = Display::new(&g, &vec![String::from("^al"), String::from("(")], true, false, false, -1, false, false);
    assert_eq!(d.rejected_patterns(), &vec![String::from("(")]);
    assert_eq!(d.to_text(), "x.cpp\n└── alpha() [x.cpp +1]\n");
}

#[test]
fn long_labels_wrap_after_a_bracket() {
    let mut n = Node::new("f()", "a_rather_long_directory_name/with_a_long_file_name.cpp", 1);
    for row in 2..5 {
        n.merge_node(&Node::new("f()", "a_rather_long_directory_name/with_a_long_file_name.cpp", row));
    }
    let g = graph_of(&[n], &[]);
    let text = plain(&g, false, -1);
    let file = "a_rather_long_directory_name/with_a_long_file_name.cpp";
    assert_eq!(
        text,
        format!(
            "{f}\n└── f() [{f} +1] [{f} +2]\n        [{f} +3] [{f} +4]\n",
            f = file
        )
    );
}

#[test]
fn colors_mark_unknown_entries() {
    let nodes = [Node::new_without_loc("unknown::g()")];
    let g = graph_of(&nodes, &[]);
    let painted = Display::new(&g, &vec![], false, true, true, -1, false, false).to_text();
    assert!(painted.contains("\u{1b}[38;5;11munknown::g()\u{1b}[0m"));
    assert!(painted.contains("unknown::g()"));
    assert_ne!(painted, plain(&g, false, -1));
}

#[test]
fn digraph_lists_a_node_in_two_files_once() {
    let mut f = Node::new("f()", "a.cpp", 1);
    f.merge_node(&Node::new("f()", "b.cpp", 2));
    let nodes = [f, Node::new("g()", "a.cpp", 3)];
    let g = graph_of(&nodes, &[(0, 1)]);
    let dot = Display::new(&g, &vec![], false, false, false, -1, false, false).to_dot();
    assert_eq!(dot.matches("\"f()\";").count(), 1);
    assert_eq!(dot.matches("\"f()\"->\"g()\";").count(), 1);
}

#[test]
fn digraph_leaves_out_unknown_nodes_on_request() {
    let nodes = [Node::new("f()", "x.cpp", 1), Node::new_without_loc("unknown::g()")];
    let g = graph_of(&nodes, &[(0, 1)]);
    let dot = Display::new(&g, &vec![], false, false, false, -1, true, false).to_dot();
    assert_eq!(
        dot,
        "digraph g {\nnode [margin=0,width=.5,height=.2];edge [arrowsize=.5,arrowhead=vee];\n\"f()\";}\n"
    );
}

#[test]
fn digraph_lists_nodes_and_edges() {
    let nodes = [Node::new("f()", "x.cpp", 1), Node::new("g()", "x.cpp", 2)];
    let g = graph_of(&nodes, &[(0, 1)]);
    let dot = Display::new(&g, &vec![], false, false, false, -1, false, false).to_dot();
    assert_eq!(
        dot,
        "digraph g {\nnode [margin=0,width=.5,height=.2];edge [arrowsize=.5,arrowhead=vee];\n\"f()\";\"f()\"->\"g()\";\"g()\";}\n"
    );
    let no_edges = Display::new(&g, &vec![], false, false, false, 0, false, false).to_dot();
    assert!(!no_edges.contains("->"));
}
