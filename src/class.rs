//! The class-hierarchy extractor: class bodies and type aliases become
//! nodes, base clause entries become edges from base to derived class.
use crate::call::{has_body, has_body_at, node_bytes, opens_class, passed, text, text_at};
use crate::graph::{has_name, name_index, registered, Graph, GraphView};
use crate::node::{LocationView, Node, NodeView};
use crate::scan::{find_byte, first_of, last_of, rfind_byte};
use crate::syntax::{node_in, SyntaxKind, SyntaxNode, SyntaxTree};
use vstd::prelude::*;

verus! {

/// One frame of the context stack, as the specification sees it.
pub ghost enum ClassFrame {
    /// Inside a class body that ends at the given byte.
    ClassSpecifier(int),
    /// The class about to be registered.
    ClassIdentifier(NodeView),
    /// The registered class at the given node position.
    ClassAt(int),
    /// Inside a base clause; entries must start after the given byte.
    BaseClassClause(int),
    /// Inside a `using` alias declaration.
    AliasDeclaration,
    /// Inside a `typedef`; the alias's name comes after the given byte (0
    /// until the aliased type has been seen).
    TypeDefinition(int),
}

/// One frame of the context stack.
pub enum ClassContext {
    ClassSpecifier(usize),
    ClassIdentifier(Node),
    ClassAt(usize),
    BaseClassClause(usize),
    AliasDeclaration,
    TypeDefinition(usize),
}

impl View for ClassContext {
    type V = ClassFrame;

    open spec fn view(&self) -> ClassFrame {
        match self {
            ClassContext::ClassSpecifier(p) => ClassFrame::ClassSpecifier(*p as int),
            ClassContext::ClassIdentifier(c) => ClassFrame::ClassIdentifier(c@),
            ClassContext::ClassAt(i) => ClassFrame::ClassAt(*i as int),
            ClassContext::BaseClassClause(p) => ClassFrame::BaseClassClause(*p as int),
            ClassContext::AliasDeclaration => ClassFrame::AliasDeclaration,
            ClassContext::TypeDefinition(p) => ClassFrame::TypeDefinition(*p as int),
        }
    }
}

/// The frames of a context stack.
pub open spec fn class_frames(v: Seq<ClassContext>) -> Seq<ClassFrame> {
    v.map_values(|c: ClassContext| c@)
}

/// A type named `name` at node `n` of `file`.
pub open spec fn type_node(name: Seq<char>, file: Seq<char>, n: SyntaxNode, alias: bool) -> NodeView {
    NodeView { name, alias, locations: seq![LocationView { file, row: (n.row + 1) as nat }] }
}

/// The state of a class pass.
pub ghost struct ClassScan {
    pub ctx: Seq<ClassFrame>,
    pub graph: GraphView,
    /// The end of the outermost class body seen so far (0 before any):
    /// declarations that start before it stand inside a class body.
    pub body_end: int,
}

/// One step of the definition pass at node `n` of a file named `file` whose
/// bytes are `src`.
pub open spec fn class_node_step(s: ClassScan, src: Seq<u8>, file: Seq<char>, n: SyntaxNode) -> ClassScan {
    let t = node_bytes(src, n);
    let len = s.ctx.len();
    if len == 0 && opens_class(n.kind) {
        if has_body(t) {
            ClassScan {
                ctx: s.ctx.push(ClassFrame::ClassSpecifier(n.end_byte as int)),
                body_end: if n.end_byte > s.body_end {
                    n.end_byte as int
                } else {
                    s.body_end
                },
                ..s
            }
        } else {
            s
        }
    } else if len == 0 && n.kind == SyntaxKind::AliasDeclaration {
        if n.start_byte < s.body_end {
            s
        } else {
            ClassScan { ctx: s.ctx.push(ClassFrame::AliasDeclaration), ..s }
        }
    } else if len == 0 && n.kind == SyntaxKind::TypeDefinition {
        if n.start_byte < s.body_end {
            s
        } else {
            ClassScan { ctx: s.ctx.push(ClassFrame::TypeDefinition(0)), ..s }
        }
    } else if len == 1 && n.kind == SyntaxKind::TemplateType && s.ctx[0] == ClassFrame::TypeDefinition(
        0,
    ) {
        ClassScan { ctx: s.ctx.update(0, ClassFrame::TypeDefinition(n.end_byte as int)), ..s }
    } else if len == 1 && n.kind == SyntaxKind::TypeIdentifier {
        match s.ctx[0] {
            ClassFrame::ClassSpecifier(_) => ClassScan {
                ctx: s.ctx.update(
                    0,
                    ClassFrame::ClassIdentifier(type_node(text(t), file, n, false)),
                ),
                ..s
            },
            ClassFrame::ClassIdentifier(_) => ClassScan {
                ctx: s.ctx.update(
                    0,
                    ClassFrame::ClassIdentifier(type_node(text(t), file, n, false)),
                ),
                ..s
            },
            ClassFrame::TypeDefinition(e) => if e == 0 {
                ClassScan {
                    ctx: s.ctx.update(0, ClassFrame::TypeDefinition(n.end_byte as int)),
                    ..s
                }
            } else if n.end_byte <= e {
                s
            } else {
                ClassScan {
                    ctx: s.ctx.drop_last(),
                    graph: registered(s.graph, type_node(text(t), file, n, true)),
                    ..s
                }
            },
            _ => ClassScan {
                ctx: s.ctx.drop_last(),
                graph: registered(s.graph, type_node(text(t), file, n, true)),
                ..s
            },
        }
    } else if len >= 1 {
        if n.kind == SyntaxKind::FieldDeclarationList || n.kind == SyntaxKind::BaseClassClause {
            ClassScan {
                ctx: Seq::empty(),
                graph: if let ClassFrame::ClassIdentifier(c) = s.ctx[0] {
                    if len == 1 {
                        registered(s.graph, c)
                    } else {
                        s.graph
                    }
                } else {
                    s.graph
                },
                ..s
            }
        } else if let ClassFrame::ClassSpecifier(p) = s.ctx[0] {
            if passed(n, p) {
                ClassScan { ctx: Seq::empty(), ..s }
            } else {
                s
            }
        } else {
            s
        }
    } else {
        s
    }
}

/// The definition pass over the first nodes of a stream.
pub open spec fn class_node_pass(s: ClassScan, src: Seq<u8>, file: Seq<char>, nodes: Seq<SyntaxNode>) -> ClassScan
    decreases nodes.len(),
{
    if nodes.len() == 0 {
        s
    } else {
        class_node_step(class_node_pass(s, src, file, nodes.drop_last()), src, file, nodes.last())
    }
}

/// The bytes of a base clause entry without its template arguments.
pub open spec fn base_bytes(t: Seq<u8>) -> Seq<u8> {
    match first_of(t, 60) {
        Some(i) => t.take(i),
        None => t,
    }
}

/// The bytes of a base name after its last `:`.
pub open spec fn unqualified_bytes(b: Seq<u8>) -> Seq<u8> {
    match last_of(b, 58) {
        Some(i) => b.skip(i + 1),
        None => b,
    }
}

/// A node for a base class whose definition is unknown.
pub open spec fn base_placeholder(name: Seq<char>) -> NodeView {
    NodeView { name, alias: false, locations: Seq::empty() }
}

/// The kinds of node that name a base class.
pub open spec fn names_base(k: SyntaxKind) -> bool {
    k == SyntaxKind::TypeIdentifier || k == SyntaxKind::TemplateType || k
        == SyntaxKind::QualifiedIdentifier
}

/// The graph after the base clause entry `t` of the class at position `class`:
/// an edge from the base, found by its unqualified name, to the class; an
/// unknown base is registered first, under its qualified name, with no location.
pub open spec fn with_base(g: GraphView, t: Seq<u8>, class: int) -> GraphView {
    let base = base_bytes(t);
    let short = text(unqualified_bytes(base));
    if has_name(g, short) {
        GraphView { edges: g.edges.push((name_index(g, short), class)), ..g }
    } else {
        let r = registered(g, base_placeholder(text(base)));
        GraphView { edges: r.edges.push((name_index(r, text(base)), class)), ..r }
    }
}

/// One step of the base pass at node `n`.
pub open spec fn class_edge_step(s: ClassScan, src: Seq<u8>, n: SyntaxNode) -> ClassScan {
    let t = node_bytes(src, n);
    let len = s.ctx.len();
    if len == 0 && opens_class(n.kind) {
        if has_body(t) {
            ClassScan { ctx: s.ctx.push(ClassFrame::ClassSpecifier(n.end_byte as int)), ..s }
        } else {
            s
        }
    } else if len == 1 && n.kind == SyntaxKind::TypeIdentifier {
        if has_name(s.graph, text(t)) {
            ClassScan {
                ctx: s.ctx.push(ClassFrame::ClassAt(name_index(s.graph, text(t)))),
                ..s
            }
        } else {
            ClassScan { ctx: s.ctx.drop_last(), ..s }
        }
    } else if len == 2 && n.kind == SyntaxKind::BaseClassClause {
        ClassScan { ctx: s.ctx.push(ClassFrame::BaseClassClause(0)), ..s }
    } else if len == 3 && names_base(n.kind) {
        if let ClassFrame::ClassAt(class) = s.ctx[1] {
            if let ClassFrame::BaseClassClause(p) = s.ctx[2] {
                if n.start_byte > p {
                    ClassScan {
                        ctx: s.ctx.update(2, ClassFrame::BaseClassClause(n.end_byte as int)),
                        graph: with_base(s.graph, t, class),
                        ..s
                    }
                } else {
                    s
                }
            } else {
                s
            }
        } else {
            ClassScan { ctx: Seq::empty(), ..s }
        }
    } else if len >= 1 {
        if n.kind == SyntaxKind::FieldDeclarationList {
            ClassScan { ctx: Seq::empty(), ..s }
        } else if let ClassFrame::ClassSpecifier(p) = s.ctx[0] {
            if passed(n, p) {
                ClassScan { ctx: Seq::empty(), ..s }
            } else {
                s
            }
        } else {
            s
        }
    } else {
        s
    }
}

/// The base pass over the first nodes of a stream.
pub open spec fn class_edge_pass(s: ClassScan, src: Seq<u8>, nodes: Seq<SyntaxNode>) -> ClassScan
    decreases nodes.len(),
{
    if nodes.len() == 0 {
        s
    } else {
        class_edge_step(class_edge_pass(s, src, nodes.drop_last()), src, nodes.last())
    }
}


/// Every registered class frame names a node among the first `n`.
pub open spec fn class_positions_ok(ctx: Seq<ClassFrame>, n: int) -> bool {
    forall|k: int|
        0 <= k < ctx.len() ==> match #[trigger] ctx[k] {
            ClassFrame::ClassAt(i) => 0 <= i < n,
            _ => true,
        }
}

/// Adds the edge for the base clause entry `src[lo..hi]` of the class at
/// position `class`.
fn add_base(graph: &mut Graph, src: &[u8], lo: usize, hi: usize, class: usize)
    requires
        old(graph).wf(),
        lo <= hi <= src@.len(),
        class < old(graph)@.nodes.len(),
    ensures
        final(graph).wf(),
        final(graph)@.nodes.len() >= old(graph)@.nodes.len(),
        final(graph)@ == with_base(old(graph)@, src@.subrange(lo as int, hi as int), class as int),
{
    let ghost g = graph@;
    let ghost t = src@.subrange(lo as int, hi as int);
    let cut = match find_byte(src, lo, hi, 60) {
        Some(i) => lo + i,
        None => hi,
    };
    proof {
        assert(src@.subrange(lo as int, cut as int) =~= base_bytes(t));
    }
    let start = match rfind_byte(src, lo, cut, 58) {
        Some(i) => lo + i + 1,
        None => lo,
    };
    proof {
        assert(src@.subrange(start as int, cut as int) =~= unqualified_bytes(base_bytes(t)));
    }
    let short = text_at(src, start, cut);
    match graph.find(short.as_str()) {
        Some(b) => {
            graph.add_edge_at(b, class);
        },
        None => {
            let name = text_at(src, lo, cut);
            let placeholder = Node::new_without_loc(name.as_str());
            graph.add_node(&placeholder);
            proof {
                crate::graph::lemma_registered_well_formed(g, placeholder@);
            }
            match graph.find(name.as_str()) {
                Some(b) => {
                    graph.add_edge_at(b, class);
                },
                None => {},
            }
        },
    }
}

/// Extracts a class hierarchy: a first pass over every file registers the
/// classes with a body and the type aliases, a second pass adds an edge from
/// each base class to each class derived from it.
pub struct ClassAnalyzer {}

impl ClassAnalyzer {
    pub fn new() -> (r: Self) {
        ClassAnalyzer {  }
    }

    /// One step of the definition pass.
    fn node_step(
        tree: &SyntaxTree,
        n: SyntaxNode,
        ctx: &mut Vec<ClassContext>,
        graph: &mut Graph,
        body_end: &mut usize,
    )
        requires
            old(graph).wf(),
            node_in(n, tree.bytes().len()),
        ensures
            final(graph).wf(),
            *final(body_end) == class_node_step(
                ClassScan {
                    ctx: class_frames(old(ctx)@),
                    graph: old(graph)@,
                    body_end: *old(body_end) as int,
                },
                tree.bytes(),
                tree.file@,
                n,
            ).body_end,
            class_frames(final(ctx)@) == class_node_step(
                ClassScan {
                    ctx: class_frames(old(ctx)@),
                    graph: old(graph)@,
                    body_end: *old(body_end) as int,
                },
                tree.bytes(),
                tree.file@,
                n,
            ).ctx,
            final(graph)@ == class_node_step(
                ClassScan {
                    ctx: class_frames(old(ctx)@),
                    graph: old(graph)@,
                    body_end: *old(body_end) as int,
                },
                tree.bytes(),
                tree.file@,
                n,
            ).graph,
    {
        let ghost pre = ClassScan { ctx: class_frames(ctx@), graph: graph@, body_end: *body_end as int };
        let ghost post = class_node_step(pre, tree.bytes(), tree.file@, n);
        let src = tree.source.as_slice();
        let lo = n.start_byte;
        let hi = n.end_byte;
        let len = ctx.len();
        let k = n.kind;
        let td_zero = len == 1 && match &ctx[0] {
            ClassContext::TypeDefinition(e) => *e == 0,
            _ => false,
        };
        if len == 0 && (k == SyntaxKind::StructSpecifier || k == SyntaxKind::ClassSpecifier) {
            if has_body_at(src, lo, hi) {
                ctx.push(ClassContext::ClassSpecifier(hi));
                if hi > *body_end {
                    *body_end = hi;
                }
            }
        } else if len == 0 && k == SyntaxKind::AliasDeclaration {
            if lo >= *body_end {
                ctx.push(ClassContext::AliasDeclaration);
            }
        } else if len == 0 && k == SyntaxKind::TypeDefinition {
            if lo >= *body_end {
                ctx.push(ClassContext::TypeDefinition(0));
            }
        } else if len == 1 && k == SyntaxKind::TemplateType && td_zero {
            ctx.set(0, ClassContext::TypeDefinition(hi));
        } else if len == 1 && k == SyntaxKind::TypeIdentifier {
            let td = match &ctx[0] {
                ClassContext::TypeDefinition(e) => Some(*e),
                _ => None,
            };
            let in_class = match &ctx[0] {
                ClassContext::ClassSpecifier(_) => true,
                ClassContext::ClassIdentifier(_) => true,
                _ => false,
            };
            let name = text_at(src, lo, hi);
            if td == Some(0usize) {
                ctx.set(0, ClassContext::TypeDefinition(hi));
            } else if in_class {
                ctx.set(
                    0,
                    ClassContext::ClassIdentifier(
                        Node::new(name.as_str(), tree.file.as_str(), n.row + 1),
                    ),
                );
            } else if td.is_some() && hi <= td.unwrap() {
            } else {
                ctx.pop();
                let alias = Node::new_alias(name.as_str(), tree.file.as_str(), n.row + 1);
                graph.add_node(&alias);
            }
        } else if len >= 1 {
            if k == SyntaxKind::FieldDeclarationList || k == SyntaxKind::BaseClassClause {
                if len == 1 {
                    match &ctx[0] {
                        ClassContext::ClassIdentifier(c) => graph.add_node(c),
                        _ => {},
                    }
                }
                ctx.clear();
            } else {
                let end = match &ctx[0] {
                    ClassContext::ClassSpecifier(p) => Some(*p),
                    _ => None,
                };
                match end {
                    Some(p) => {
                        if lo as u128 + 1 >= p as u128 {
                            ctx.clear();
                        }
                    },
                    None => {},
                }
            }
        }
        proof {
            assert(class_frames(ctx@) =~= post.ctx);
        }
    }

    /// The definition pass over one file: registers each class or struct with
    /// a body under the name that precedes it, and each type alias or typedef
    /// outside a class body as an alias node.
    pub fn extract_nodes(&mut self, syntax_tree: &SyntaxTree, graph: &mut Graph)
        requires
            old(graph).wf(),
            syntax_tree.wf(),
        ensures
            final(graph).wf(),
            final(graph)@ == class_node_pass(
                ClassScan { ctx: Seq::empty(), graph: old(graph)@, body_end: 0 },
                syntax_tree.bytes(),
                syntax_tree.file@,
                syntax_tree.stream(),
            ).graph,
    {
        let mut context: Vec<ClassContext> = Vec::new();
        let mut body_end: usize = 0;
        let ghost init = ClassScan { ctx: Seq::empty(), graph: graph@, body_end: 0 };
        let ghost src = syntax_tree.bytes();
        let ghost file = syntax_tree.file@;
        let ghost stream = syntax_tree.stream();
        proof {
            assert(class_frames(context@) =~= Seq::<ClassFrame>::empty());
            assert(stream.take(0) =~= Seq::<SyntaxNode>::empty());
        }
        for i in 0..syntax_tree.nodes.len()
            invariant
                graph.wf(),
                syntax_tree.wf(),
                src == syntax_tree.bytes(),
                file == syntax_tree.file@,
                stream == syntax_tree.stream(),
                class_frames(context@) == class_node_pass(init, src, file, stream.take(i as int)).ctx,
                graph@ == class_node_pass(init, src, file, stream.take(i as int)).graph,
                body_end as int == class_node_pass(init, src, file, stream.take(i as int)).body_end,
        {
            proof {
                assert(stream.take(i + 1).drop_last() =~= stream.take(i as int));
                assert(node_in(stream[i as int], src.len()));
            }
            Self::node_step(syntax_tree, syntax_tree.nodes[i], &mut context, graph, &mut body_end);
        }
        proof {
            assert(stream.take(stream.len() as int) =~= stream);
        }
    }

    /// One step of the base pass.
    fn edge_step(tree: &SyntaxTree, n: SyntaxNode, ctx: &mut Vec<ClassContext>, graph: &mut Graph)
        requires
            old(graph).wf(),
            node_in(n, tree.bytes().len()),
            class_positions_ok(class_frames(old(ctx)@), old(graph)@.nodes.len() as int),
        ensures
            final(graph).wf(),
            class_positions_ok(class_frames(final(ctx)@), final(graph)@.nodes.len() as int),
            class_frames(final(ctx)@) == class_edge_step(
                ClassScan { ctx: class_frames(old(ctx)@), graph: old(graph)@, body_end: 0 },
                tree.bytes(),
                n,
            ).ctx,
            final(graph)@ == class_edge_step(
                ClassScan { ctx: class_frames(old(ctx)@), graph: old(graph)@, body_end: 0 },
                tree.bytes(),
                n,
            ).graph,
    {
        let ghost pre = ClassScan { ctx: class_frames(ctx@), graph: graph@, body_end: 0 };
        let ghost post = class_edge_step(pre, tree.bytes(), n);
        let src = tree.source.as_slice();
        let lo = n.start_byte;
        let hi = n.end_byte;
        let len = ctx.len();
        let k = n.kind;
        if len == 0 && (k == SyntaxKind::StructSpecifier || k == SyntaxKind::ClassSpecifier) {
            if has_body_at(src, lo, hi) {
                ctx.push(ClassContext::ClassSpecifier(hi));
            }
        } else if len == 1 && k == SyntaxKind::TypeIdentifier {
            let name = text_at(src, lo, hi);
            match graph.find(name.as_str()) {
                Some(i) => {
                    ctx.push(ClassContext::ClassAt(i));
                },
                None => {
                    ctx.pop();
                },
            }
        } else if len == 2 && k == SyntaxKind::BaseClassClause {
            ctx.push(ClassContext::BaseClassClause(0));
        } else if len == 3 && (k == SyntaxKind::TypeIdentifier || k == SyntaxKind::TemplateType || k
            == SyntaxKind::QualifiedIdentifier) {
            let class = match &ctx[1] {
                ClassContext::ClassAt(i) => Some(*i),
                _ => None,
            };
            match class {
                Some(class) => {
                    let clause = match &ctx[2] {
                        ClassContext::BaseClassClause(p) => Some(*p),
                        _ => None,
                    };
                    match clause {
                        Some(p) => {
                            if lo > p {
                                proof {
                                    assert(pre.ctx[1] == ClassFrame::ClassAt(class as int));
                                }
                                add_base(graph, src, lo, hi, class);
                                ctx.set(2, ClassContext::BaseClassClause(hi));
                            }
                        },
                        None => {},
                    }
                },
                None => {
                    ctx.clear();
                },
            }
        } else if len >= 1 {
            if k == SyntaxKind::FieldDeclarationList {
                ctx.clear();
            } else {
                let end = match &ctx[0] {
                    ClassContext::ClassSpecifier(p) => Some(*p),
                    _ => None,
                };
                match end {
                    Some(p) => {
                        if lo as u128 + 1 >= p as u128 {
                            ctx.clear();
                        }
                    },
                    None => {},
                }
            }
        }
        proof {
            assert(class_frames(ctx@) =~= post.ctx);
        }
    }

    /// The base pass over one file: inside the base clause of each registered
    /// class, every entry adds an edge from the base class to the class.
    pub fn extract_edges(&mut self, syntax_tree: &SyntaxTree, graph: &mut Graph)
        requires
            old(graph).wf(),
            syntax_tree.wf(),
        ensures
            final(graph).wf(),
            final(graph)@ == class_edge_pass(
                ClassScan { ctx: Seq::empty(), graph: old(graph)@, body_end: 0 },
                syntax_tree.bytes(),
                syntax_tree.stream(),
            ).graph,
    {
        let mut context: Vec<ClassContext> = Vec::new();
        let ghost init = ClassScan { ctx: Seq::empty(), graph: graph@, body_end: 0 };
        let ghost src = syntax_tree.bytes();
        let ghost stream = syntax_tree.stream();
        proof {
            assert(class_frames(context@) =~= Seq::<ClassFrame>::empty());
            assert(stream.take(0) =~= Seq::<SyntaxNode>::empty());
        }
        for i in 0..syntax_tree.nodes.len()
            invariant
                graph.wf(),
                syntax_tree.wf(),
                src == syntax_tree.bytes(),
                stream == syntax_tree.stream(),
                class_positions_ok(class_frames(context@), graph@.nodes.len() as int),
                class_frames(context@) == class_edge_pass(init, src, stream.take(i as int)).ctx,
                graph@ == class_edge_pass(init, src, stream.take(i as int)).graph,
        {
            proof {
                assert(stream.take(i + 1).drop_last() =~= stream.take(i as int));
                assert(node_in(stream[i as int], src.len()));
            }
            Self::edge_step(syntax_tree, syntax_tree.nodes[i], &mut context, graph);
        }
        proof {
            assert(stream.take(stream.len() as int) =~= stream);
        }
    }
}


proof fn lemma_class_edge_step_grows(s: ClassScan, src: Seq<u8>, n: SyntaxNode)
    ensures
        crate::graph::grows_by_placeholders(s.graph, class_edge_step(s, src, n).graph),
{
    let t = node_bytes(src, n);
    let g = s.graph;
    let base = base_bytes(t);
    let short = text(unqualified_bytes(base));
    let class = if let ClassFrame::ClassAt(c) = s.ctx[1] {
        c
    } else {
        0int
    };
    crate::graph::lemma_placeholder_grows(g, base_placeholder(text(base)), (name_index(g, short), class));
    let r = registered(g, base_placeholder(text(base)));
    crate::graph::lemma_placeholder_grows(r, base_placeholder(text(base)), (name_index(r, text(base)), class));
    crate::graph::lemma_grows_trans(g, r, GraphView { edges: r.edges.push((name_index(r, text(base)), class)), ..r });
}

/// The base pass adds nothing but placeholder nodes with no location and
/// edges: every node already in the graph stays as it is, at its position,
/// and the edges already there come first.
pub proof fn lemma_class_pass_grows(s: ClassScan, src: Seq<u8>, nodes: Seq<SyntaxNode>)
    ensures
        crate::graph::grows_by_placeholders(s.graph, class_edge_pass(s, src, nodes).graph),
    decreases nodes.len(),
{
    if nodes.len() == 0 {
        crate::graph::lemma_placeholder_grows(
            s.graph,
            NodeView { name: Seq::empty(), alias: false, locations: Seq::empty() },
            (0, 0),
        );
    } else {
        let before = class_edge_pass(s, src, nodes.drop_last());
        lemma_class_pass_grows(s, src, nodes.drop_last());
        lemma_class_edge_step_grows(before, src, nodes.last());
        crate::graph::lemma_grows_trans(s.graph, before.graph, class_edge_pass(s, src, nodes).graph);
    }
}

} // verus!
