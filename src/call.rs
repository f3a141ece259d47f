//! The call-graph extractor: function definitions become nodes, call sites
//! inside them become edges from caller to callee.
use crate::graph::{has_name, name_index, registered, Graph, GraphView};
use crate::node::{LocationView, Node, NodeView};
use crate::scan::{compact, compact_of, find_byte, first_of, last_of, last_pair_of, occurs, occurs_in, rfind_byte, rfind_pair};
use crate::syntax::{node_in, utf8_text, SyntaxKind, SyntaxNode, SyntaxTree};
use vstd::prelude::*;
use vstd::string::*;

verus! {

/// One frame of the context stack, as the specification sees it.
pub ghost enum Frame {
    /// Inside a class body that ends at the given byte.
    ClassSpecifier(int),
    /// The class body's name.
    ClassIdentifier(Seq<char>),
    /// Inside a function definition that ends at the given byte.
    FunctionDefinition(int),
    /// Inside the definition's declarator.
    FunctionDeclarator,
    /// Inside the body of the function at the given node position.
    FunctionIdentifier(int),
    /// Inside a call expression that ends at the given byte.
    CallExpression(int),
}

/// One frame of the context stack.
pub enum Context {
    ClassSpecifier(usize),
    ClassIdentifier(String),
    FunctionDefinition(usize),
    FunctionDeclarator,
    FunctionIdentifier(usize),
    CallExpression(usize),
}

impl View for Context {
    type V = Frame;

    open spec fn view(&self) -> Frame {
        match self {
            Context::ClassSpecifier(p) => Frame::ClassSpecifier(*p as int),
            Context::ClassIdentifier(s) => Frame::ClassIdentifier(s@),
            Context::FunctionDefinition(p) => Frame::FunctionDefinition(*p as int),
            Context::FunctionDeclarator => Frame::FunctionDeclarator,
            Context::FunctionIdentifier(i) => Frame::FunctionIdentifier(*i as int),
            Context::CallExpression(p) => Frame::CallExpression(*p as int),
        }
    }
}

/// The frames of a context stack.
pub open spec fn frames(v: Seq<Context>) -> Seq<Frame> {
    v.map_values(|c: Context| c@)
}

/// The table from unqualified to qualified names: `None` marks a name seen
/// under two different qualified forms.
pub type PoolView = Seq<(Seq<char>, Option<Seq<char>>)>;

/// Whether `key` is in the table.
pub open spec fn has_key(pool: PoolView, key: Seq<char>) -> bool {
    exists|i: int| 0 <= i < pool.len() && #[trigger] pool[i].0 == key
}

/// The entry of `key`.
pub open spec fn key_index(pool: PoolView, key: Seq<char>) -> int {
    choose|i: int| 0 <= i < pool.len() && #[trigger] pool[i].0 == key
}

/// No key is in the table twice.
pub open spec fn pool_wf(pool: PoolView) -> bool {
    forall|i: int, j: int|
        0 <= i < pool.len() && 0 <= j < pool.len() && i != j ==> pool[i].0 != pool[j].0
}

/// What the table says of `key`: nothing where it was never seen.
pub open spec fn pool_get(pool: PoolView, key: Seq<char>) -> Option<Option<Seq<char>>> {
    if has_key(pool, key) {
        Some(pool[key_index(pool, key)].1)
    } else {
        None
    }
}

/// The table after `key` was seen with qualified form `q`: the first sighting
/// records `q`; a later one under another form makes the entry ambiguous.
pub open spec fn pool_record(pool: PoolView, key: Seq<char>, q: Seq<char>) -> PoolView {
    if has_key(pool, key) {
        let i = key_index(pool, key);
        if pool[i].1 == Some(q) {
            pool
        } else {
            pool.update(i, (key, None))
        }
    } else {
        pool.push((key, Some(q)))
    }
}

/// The text of `t`, as a name.
pub open spec fn text(t: Seq<u8>) -> Seq<char> {
    utf8_text(t)
}

/// The bytes of `n`'s text.
pub open spec fn node_bytes(src: Seq<u8>, n: SyntaxNode) -> Seq<u8> {
    src.subrange(n.start_byte as int, n.end_byte as int)
}

pub open spec fn open_brace() -> u8 {
    123
}

pub open spec fn close_brace() -> u8 {
    125
}

pub open spec fn colon() -> u8 {
    58
}

/// `=delete;`
pub open spec fn delete_mark() -> Seq<char> {
    seq!['=', 'd', 'e', 'l', 'e', 't', 'e', ';']
}

/// `=default;`
pub open spec fn default_mark() -> Seq<char> {
    seq!['=', 'd', 'e', 'f', 'a', 'u', 'l', 't', ';']
}

/// Whether a class specifier's text holds a body: a `{` and a final `}`.
pub open spec fn has_body(t: Seq<u8>) -> bool {
    t.contains(open_brace()) && t.len() > 0 && t.last() == close_brace()
}

/// Whether a definition's text, white space removed, says `=delete;`.
pub open spec fn is_deleted(t: Seq<u8>) -> bool {
    occurs(compact(text(t)), delete_mark())
}

/// Whether a definition's text, white space removed, says `=default;`.
pub open spec fn is_defaulted(t: Seq<u8>) -> bool {
    occurs(compact(text(t)), default_mark())
}

/// The kinds of node that name a declared function.
pub open spec fn names_function(k: SyntaxKind) -> bool {
    k == SyntaxKind::Identifier || k == SyntaxKind::FieldIdentifier || k
        == SyntaxKind::QualifiedIdentifier || k == SyntaxKind::DestructorName || k
        == SyntaxKind::OperatorName
}

/// The kinds of node that open a class body.
pub open spec fn opens_class(k: SyntaxKind) -> bool {
    k == SyntaxKind::StructSpecifier || k == SyntaxKind::ClassSpecifier
}

/// Whether the cursor at `n` has passed the end `pos` of a construct.
pub open spec fn passed(n: SyntaxNode, pos: int) -> bool {
    n.start_byte + 1 >= pos
}

/// Whether `f` is a function definition that the cursor at `n` has passed.
pub open spec fn definition_passed(f: Frame, n: SyntaxNode) -> bool {
    match f {
        Frame::FunctionDefinition(p) => passed(n, p),
        _ => false,
    }
}

/// The stack after the cursor reached `n`: an expired definition two frames
/// deep is dropped with what stands above it, and an expired outermost class
/// or definition empties the stack.
pub open spec fn close_scopes(ctx: Seq<Frame>, n: SyntaxNode) -> Seq<Frame> {
    let c = if ctx.len() > 2 && definition_passed(ctx[2], n) {
        ctx.take(2)
    } else {
        ctx
    };
    match c[0] {
        Frame::ClassSpecifier(p) => if passed(n, p) {
            Seq::empty()
        } else {
            c
        },
        Frame::FunctionDefinition(p) => if passed(n, p) {
            Seq::empty()
        } else {
            c
        },
        _ => c,
    }
}

/// A function defined at `n` of `file`, named `name`.
pub open spec fn defined(name: Seq<char>, file: Seq<char>, n: SyntaxNode) -> NodeView {
    NodeView {
        name,
        alias: false,
        locations: seq![LocationView { file, row: (n.row + 1) as nat }],
    }
}

/// A node for a callee whose definition is unknown.
pub open spec fn placeholder(name: Seq<char>) -> NodeView {
    NodeView { name: "unknown::"@ + name, alias: false, locations: Seq::empty() }
}

/// The state of the definition pass.
pub ghost struct NodeScan {
    pub ctx: Seq<Frame>,
    pub graph: GraphView,
    pub pool: PoolView,
}

/// One step of the definition pass, at node `n` of a file named `file` whose
/// bytes are `src`.
pub open spec fn node_step(s: NodeScan, src: Seq<u8>, file: Seq<char>, n: SyntaxNode) -> NodeScan {
    let t = node_bytes(src, n);
    let len = s.ctx.len();
    if len == 0 && opens_class(n.kind) {
        if has_body(t) {
            NodeScan { ctx: s.ctx.push(Frame::ClassSpecifier(n.end_byte as int)), ..s }
        } else {
            s
        }
    } else if len == 1 && n.kind == SyntaxKind::TypeIdentifier {
        if s.ctx[0] is ClassSpecifier {
            NodeScan { ctx: s.ctx.push(Frame::ClassIdentifier(text(t))), ..s }
        } else {
            s
        }
    } else if (len == 0 || len == 2) && n.kind == SyntaxKind::FunctionDefinition {
        if !is_deleted(t) {
            NodeScan { ctx: s.ctx.push(Frame::FunctionDefinition(n.end_byte as int)), ..s }
        } else {
            s
        }
    } else if (len == 1 || len == 3) && n.kind == SyntaxKind::FunctionDeclarator {
        if s.ctx.last() is FunctionDefinition {
            NodeScan { ctx: s.ctx.push(Frame::FunctionDeclarator), ..s }
        } else {
            s
        }
    } else if len == 2 && names_function(n.kind) {
        if s.ctx[1] is FunctionDeclarator {
            let name = text(t) + "()"@;
            NodeScan {
                ctx: Seq::empty(),
                graph: registered(s.graph, defined(name, file, n)),
                pool: match last_of(t, colon()) {
                    Some(k) => pool_record(s.pool, text(t.skip(k + 1)) + "()"@, name),
                    None => s.pool,
                },
            }
        } else {
            s
        }
    } else if len == 4 && names_function(n.kind) {
        if s.ctx[3] is FunctionDeclarator {
            if let Frame::ClassIdentifier(class) = s.ctx[1] {
                let function = text(t) + "()"@;
                let name = class + "::"@ + function;
                NodeScan {
                    ctx: s.ctx.take(2),
                    graph: registered(s.graph, defined(name, file, n)),
                    pool: pool_record(s.pool, function, name),
                }
            } else {
                NodeScan { ctx: Seq::empty(), ..s }
            }
        } else {
            s
        }
    } else if len >= 1 {
        NodeScan { ctx: close_scopes(s.ctx, n), ..s }
    } else {
        s
    }
}

/// The definition pass over the first nodes of a stream.
pub open spec fn node_pass(s: NodeScan, src: Seq<u8>, file: Seq<char>, nodes: Seq<SyntaxNode>) -> NodeScan
    decreases nodes.len(),
{
    if nodes.len() == 0 {
        s
    } else {
        node_step(node_pass(s, src, file, nodes.drop_last()), src, file, nodes.last())
    }
}

/// `t` before any `<`.
pub open spec fn before_template(t: Seq<u8>) -> Seq<u8> {
    match first_of(t, 60) {
        Some(i) => t.take(i),
        None => t,
    }
}

/// `t` after its last `.` or `->`, whichever comes later.
pub open spec fn after_access(cf: Seq<u8>) -> Seq<u8> {
    match last_of(cf, 46) {
        Some(i) => {
            let j = match last_pair_of(cf, 45, 62) {
                Some(k) => if k > i {
                    k + 1
                } else {
                    i
                },
                None => i,
            };
            cf.skip(j + 1)
        },
        None => match last_pair_of(cf, 45, 62) {
            Some(k) => cf.skip(k + 2),
            None => cf,
        },
    }
}

/// `t` before any `(`.
pub open spec fn before_paren(name: Seq<u8>) -> Seq<u8> {
    match first_of(name, 40) {
        Some(i) => name.take(i),
        None => name,
    }
}

/// The bytes of the bare function name that a callee expression names: the
/// text before any `<`, after the last `.` or `->`, and before any `(`.
pub open spec fn callee_bytes(t: Seq<u8>) -> Seq<u8> {
    before_paren(after_access(before_template(t)))
}

/// The state of the call pass: the stack, the graph, and the calls whose
/// edges wait for the cursor to pass their end (end byte, callee position).
pub ghost struct EdgeScan {
    pub ctx: Seq<Frame>,
    pub graph: GraphView,
    pub pending: Seq<(int, int)>,
}

/// The state after a callee named `f` has been resolved for a call ending at
/// `pos`, `member` telling whether the call went through `.` or `->`.
pub open spec fn resolve(s: EdgeScan, pool: PoolView, f: Seq<char>, member: bool, pos: int) -> EdgeScan {
    let g = s.graph;
    let unknown = registered(g, placeholder(f));
    let with_unknown = EdgeScan {
        graph: unknown,
        pending: s.pending.push((pos, name_index(unknown, placeholder(f).name))),
        ..s
    };
    if member {
        if let Some(Some(q)) = pool_get(pool, f) {
            if has_name(g, q) {
                EdgeScan { pending: s.pending.push((pos, name_index(g, q))), ..s }
            } else {
                s
            }
        } else {
            with_unknown
        }
    } else if has_name(g, f) {
        EdgeScan { pending: s.pending.push((pos, name_index(g, f))), ..s }
    } else if let Some(Some(q)) = pool_get(pool, f) {
        if has_name(g, q) {
            EdgeScan { pending: s.pending.push((pos, name_index(g, q))), ..s }
        } else {
            s
        }
    } else {
        with_unknown
    }
}

/// The kinds of node that name a callee.
pub open spec fn names_callee(k: SyntaxKind) -> bool {
    k == SyntaxKind::Identifier || k == SyntaxKind::QualifiedIdentifier || k
        == SyntaxKind::FieldExpression
}

/// One step of the call pass at node `n`, the table being `pool`.
pub open spec fn edge_step(s: EdgeScan, pool: PoolView, src: Seq<u8>, n: SyntaxNode) -> EdgeScan {
    let t = node_bytes(src, n);
    let len = s.ctx.len();
    if len == 0 && opens_class(n.kind) {
        if has_body(t) {
            EdgeScan { ctx: s.ctx.push(Frame::ClassSpecifier(n.end_byte as int)), ..s }
        } else {
            s
        }
    } else if len == 1 && n.kind == SyntaxKind::TypeIdentifier {
        if s.ctx[0] is ClassSpecifier {
            EdgeScan { ctx: s.ctx.push(Frame::ClassIdentifier(text(t))), ..s }
        } else {
            s
        }
    } else if (len == 0 || len == 2) && n.kind == SyntaxKind::FunctionDefinition {
        if !is_defaulted(t) && !is_deleted(t) {
            EdgeScan { ctx: s.ctx.push(Frame::FunctionDefinition(n.end_byte as int)), ..s }
        } else {
            s
        }
    } else if (len == 1 || len == 3) && n.kind == SyntaxKind::FunctionDeclarator {
        if s.ctx.last() is FunctionDefinition {
            EdgeScan { ctx: s.ctx.push(Frame::FunctionDeclarator), ..s }
        } else {
            s
        }
    } else if len == 2 && names_function(n.kind) {
        if s.ctx[1] is FunctionDeclarator {
            let name = text(t) + "()"@;
            if has_name(s.graph, name) {
                EdgeScan {
                    ctx: s.ctx.update(1, Frame::FunctionIdentifier(name_index(s.graph, name))),
                    ..s
                }
            } else {
                EdgeScan { ctx: Seq::empty(), ..s }
            }
        } else {
            s
        }
    } else if len == 4 && names_function(n.kind) {
        if s.ctx[3] is FunctionDeclarator {
            if let Frame::ClassIdentifier(class) = s.ctx[1] {
                let name = class + "::"@ + (text(t) + "()"@);
                if has_name(s.graph, name) {
                    EdgeScan {
                        ctx: s.ctx.update(3, Frame::FunctionIdentifier(name_index(s.graph, name))),
                        ..s
                    }
                } else {
                    EdgeScan { ctx: s.ctx.take(2), ..s }
                }
            } else {
                EdgeScan { ctx: Seq::empty(), ..s }
            }
        } else {
            s
        }
    } else if (len == 2 || len == 4) && n.kind == SyntaxKind::CallExpression {
        if s.ctx.last() is FunctionIdentifier {
            EdgeScan { ctx: s.ctx.push(Frame::CallExpression(n.end_byte as int)), ..s }
        } else {
            s
        }
    } else if (len == 3 || len == 5) && names_callee(n.kind) {
        if let Frame::CallExpression(pos) = s.ctx.last() {
            let c = s.ctx.drop_last();
            if c.last() is FunctionIdentifier {
                resolve(
                    EdgeScan { ctx: c, ..s },
                    pool,
                    text(callee_bytes(t)) + "()"@,
                    n.kind == SyntaxKind::FieldExpression,
                    pos,
                )
            } else {
                EdgeScan { ctx: c.drop_last().drop_last(), ..s }
            }
        } else {
            EdgeScan { ctx: s.ctx.drop_last(), ..s }
        }
    } else if len >= 1 {
        let committed = if let Frame::FunctionIdentifier(caller) = s.ctx.last() {
            if s.pending.len() > 0 && passed(n, s.pending.last().0) {
                EdgeScan {
                    graph: GraphView {
                        edges: s.graph.edges.push((caller, s.pending.last().1)),
                        ..s.graph
                    },
                    pending: s.pending.drop_last(),
                    ..s
                }
            } else {
                s
            }
        } else {
            s
        };
        EdgeScan { ctx: close_scopes(s.ctx, n), ..committed }
    } else {
        s
    }
}

/// The call pass over the first nodes of a stream.
pub open spec fn edge_pass(s: EdgeScan, pool: PoolView, src: Seq<u8>, nodes: Seq<SyntaxNode>) -> EdgeScan
    decreases nodes.len(),
{
    if nodes.len() == 0 {
        s
    } else {
        edge_step(edge_pass(s, pool, src, nodes.drop_last()), pool, src, nodes.last())
    }
}


/// The pool entries' views.
pub open spec fn pool_view(v: Seq<(String, Option<String>)>) -> PoolView {
    v.map_values(
        |e: (String, Option<String>)|
            (
                e.0@,
                match e.1 {
                    Some(q) => Some(q@),
                    None => None,
                },
            ),
    )
}

/// Extracts a call graph: a first pass over every file registers the
/// defined functions, a second pass adds an edge from each function to each
/// function it calls.
pub struct CallAnalyzer {
    qualified_function_pool: Vec<(String, Option<String>)>,
}

impl View for CallAnalyzer {
    type V = PoolView;

    closed spec fn view(&self) -> PoolView {
        pool_view(self.qualified_function_pool@)
    }
}

/// Whether `t[lo..hi]` holds a class body.
pub(crate) fn has_body_at(src: &[u8], lo: usize, hi: usize) -> (r: bool)
    requires
        lo <= hi <= src@.len(),
    ensures
        r == has_body(src@.subrange(lo as int, hi as int)),
{
    let brace = find_byte(src, lo, hi, 123);
    proof {
        let t = src@.subrange(lo as int, hi as int);
        if t.contains(open_brace()) {
            let k = choose|k: int| 0 <= k < t.len() && t[k] == open_brace();
            assert(t[k] == 123);
        }
    }
    brace.is_some() && hi > lo && src[hi - 1] == 125
}

/// Whether the definition `t[lo..hi]` is deleted.
fn deleted_at(src: &[u8], lo: usize, hi: usize) -> (r: bool)
    requires
        lo <= hi <= src@.len(),
    ensures
        r == is_deleted(src@.subrange(lo as int, hi as int)),
{
    let c = compact_of(crate::text::chars_of(text_at(src, lo, hi).as_str()).as_slice());
    let mark: [char; 8] = ['=', 'd', 'e', 'l', 'e', 't', 'e', ';'];
    proof {
        assert(mark@ =~= delete_mark());
    }
    occurs_in(c.as_slice(), mark.as_slice())
}

/// Whether the definition `t[lo..hi]` is defaulted.
fn defaulted_at(src: &[u8], lo: usize, hi: usize) -> (r: bool)
    requires
        lo <= hi <= src@.len(),
    ensures
        r == is_defaulted(src@.subrange(lo as int, hi as int)),
{
    let c = compact_of(crate::text::chars_of(text_at(src, lo, hi).as_str()).as_slice());
    let mark: [char; 9] = ['=', 'd', 'e', 'f', 'a', 'u', 'l', 't', ';'];
    proof {
        assert(mark@ =~= default_mark());
    }
    occurs_in(c.as_slice(), mark.as_slice())
}

/// The text of `src[lo..hi]`.
pub(crate) fn text_at(src: &[u8], lo: usize, hi: usize) -> (r: String)
    requires
        lo <= hi <= src@.len(),
    ensures
        r@ == text(src@.subrange(lo as int, hi as int)),
{
    crate::syntax::text_of(crate::syntax::slice_of(src, lo, hi))
}

/// The text of `src[lo..hi]` followed by `()`.
fn function_text(src: &[u8], lo: usize, hi: usize) -> (r: String)
    requires
        lo <= hi <= src@.len(),
    ensures
        r@ == text(src@.subrange(lo as int, hi as int)) + "()"@,
{
    let mut s = text_at(src, lo, hi);
    s.append("()");
    s
}

/// `class::function`.
fn qualified(class: &String, function: &String) -> (r: String)
    ensures
        r@ == class@ + "::"@ + function@,
{
    let mut s = class.clone();
    s.append("::");
    s.append(function.as_str());
    s
}

/// Whether `c` is a class specifier frame.
fn is_class_specifier(c: &Context) -> (r: bool)
    ensures
        r == (c@ is ClassSpecifier),
{
    match c {
        Context::ClassSpecifier(_) => true,
        _ => false,
    }
}

/// Whether `c` is a function definition frame.
fn is_function_definition(c: &Context) -> (r: bool)
    ensures
        r == (c@ is FunctionDefinition),
{
    match c {
        Context::FunctionDefinition(_) => true,
        _ => false,
    }
}

/// Whether `c` is a declarator frame.
fn is_function_declarator(c: &Context) -> (r: bool)
    ensures
        r == (c@ is FunctionDeclarator),
{
    match c {
        Context::FunctionDeclarator => true,
        _ => false,
    }
}

/// The stack after the cursor reached `n`.
fn close_scopes_exec(ctx: &mut Vec<Context>, n: SyntaxNode)
    requires
        old(ctx)@.len() >= 1,
    ensures
        frames(final(ctx)@) == close_scopes(frames(old(ctx)@), n),
{
    let ghost before = frames(ctx@);
    if ctx.len() > 2 {
        if let Context::FunctionDefinition(pos) = ctx[2] {
            if n.start_byte as u128 + 1 >= pos as u128 {
                ctx.truncate(2);
            }
        }
    }
    proof {
        let c = if before.len() > 2 && definition_passed(before[2], n) {
            before.take(2)
        } else {
            before
        };
        assert(frames(ctx@) =~= c);
    }
    let clear = match ctx[0] {
        Context::ClassSpecifier(pos) => n.start_byte as u128 + 1 >= pos as u128,
        Context::FunctionDefinition(pos) => n.start_byte as u128 + 1 >= pos as u128,
        _ => false,
    };
    if clear {
        ctx.clear();
    }
    proof {
        assert(frames(ctx@) =~= close_scopes(before, n));
    }
}

impl CallAnalyzer {
    /// The table's invariant: no key twice.
    pub open spec fn wf(&self) -> bool {
        pool_wf(self@)
    }

    pub fn new() -> (r: Self)
        ensures
            r@ == Seq::<(Seq<char>, Option<Seq<char>>)>::empty(),
            r.wf(),
    {
        let r = CallAnalyzer { qualified_function_pool: Vec::new() };
        proof {
            assert(r@ =~= Seq::<(Seq<char>, Option<Seq<char>>)>::empty());
        }
        r
    }

    /// The entry of `key`, if there is one.
    fn pool_find(&self, key: &String) -> (r: Option<usize>)
        requires
            self.wf(),
        ensures
            r is Some <==> has_key(self@, key@),
            r is Some ==> r->0 == key_index(self@, key@) && r->0 < self@.len(),
    {
        let mut i: usize = 0;
        while i < self.qualified_function_pool.len()
            invariant
                0 <= i <= self.qualified_function_pool.len(),
                self.wf(),
                forall|k: int| 0 <= k < i ==> self@[k].0 != key@,
            decreases self.qualified_function_pool.len() - i,
        {
            if self.qualified_function_pool[i].0 == *key {
                proof {
                    assert(self@[i as int].0 == key@);
                    let j = key_index(self@, key@);
                    assert(self@[j].0 == key@);
                }
                return Some(i);
            }
            i = i + 1;
        }
        proof {
            assert forall|k: int| 0 <= k < self@.len() implies #[trigger] self@[k].0 != key@ by {}
        }
        None
    }

    /// What the table says of `key`.
    fn pool_lookup(&self, key: &String) -> (r: Option<Option<String>>)
        requires
            self.wf(),
        ensures
            match r {
                None => pool_get(self@, key@) is None,
                Some(None) => pool_get(self@, key@) == Some(None::<Seq<char>>),
                Some(Some(q)) => pool_get(self@, key@) == Some(Some(q@)),
            },
    {
        match self.pool_find(key) {
            None => None,
            Some(i) => match &self.qualified_function_pool[i].1 {
                None => Some(None),
                Some(q) => Some(Some(q.clone())),
            },
        }
    }

    /// Records that `key` was seen with qualified form `q`.
    fn pool_record(&mut self, key: String, q: String)
        requires
            old(self).wf(),
        ensures
            final(self).wf(),
            final(self)@ == pool_record(old(self)@, key@, q@),
    {
        let ghost before = self@;
        match self.pool_find(&key) {
            None => {
                self.qualified_function_pool.push((key, Some(q)));
                proof {
                    assert(self@ =~= before.push((key@, Some(q@))));
                }
            },
            Some(i) => {
                let same = match &self.qualified_function_pool[i].1 {
                    Some(old_q) => *old_q == q,
                    None => false,
                };
                if !same {
                    self.qualified_function_pool.set(i, (key, None));
                    proof {
                        assert(self@ =~= before.update(i as int, (key@, None)));
                    }
                }
            },
        }
    }
}


/// Whether `k` names a declared function.
fn names_function_exec(k: SyntaxKind) -> (r: bool)
    ensures
        r == names_function(k),
{
    k == SyntaxKind::Identifier || k == SyntaxKind::FieldIdentifier || k
        == SyntaxKind::QualifiedIdentifier || k == SyntaxKind::DestructorName || k
        == SyntaxKind::OperatorName
}

impl CallAnalyzer {
    /// One step of the definition pass.
    fn node_step(
        &mut self,
        tree: &SyntaxTree,
        n: SyntaxNode,
        ctx: &mut Vec<Context>,
        graph: &mut Graph,
    )
        requires
            old(self).wf(),
            old(graph).wf(),
            node_in(n, tree.bytes().len()),
        ensures
            final(self).wf(),
            final(graph).wf(),
            frames(final(ctx)@) == node_step(
                NodeScan { ctx: frames(old(ctx)@), graph: old(graph)@, pool: old(self)@ },
                tree.bytes(),
                tree.file@,
                n,
            ).ctx,
            final(graph)@ == node_step(
                NodeScan { ctx: frames(old(ctx)@), graph: old(graph)@, pool: old(self)@ },
                tree.bytes(),
                tree.file@,
                n,
            ).graph,
            final(self)@ == node_step(
                NodeScan { ctx: frames(old(ctx)@), graph: old(graph)@, pool: old(self)@ },
                tree.bytes(),
                tree.file@,
                n,
            ).pool,
    {
        let ghost pre = NodeScan { ctx: frames(ctx@), graph: graph@, pool: self@ };
        let ghost post = node_step(pre, tree.bytes(), tree.file@, n);
        let ghost t = node_bytes(tree.bytes(), n);
        let src = tree.source.as_slice();
        let lo = n.start_byte;
        let hi = n.end_byte;
        let len = ctx.len();
        let k = n.kind;
        if len == 0 && (k == SyntaxKind::StructSpecifier || k == SyntaxKind::ClassSpecifier) {
            if has_body_at(src, lo, hi) {
                ctx.push(Context::ClassSpecifier(hi));
                proof {
                    assert(frames(ctx@) =~= post.ctx);
                }
            }
        } else if len == 1 && k == SyntaxKind::TypeIdentifier {
            if is_class_specifier(&ctx[0]) {
                ctx.push(Context::ClassIdentifier(text_at(src, lo, hi)));
                proof {
                    assert(frames(ctx@) =~= post.ctx);
                }
            }
        } else if (len == 0 || len == 2) && k == SyntaxKind::FunctionDefinition {
            if !deleted_at(src, lo, hi) {
                ctx.push(Context::FunctionDefinition(hi));
                proof {
                    assert(frames(ctx@) =~= post.ctx);
                }
            }
        } else if (len == 1 || len == 3) && k == SyntaxKind::FunctionDeclarator {
            if is_function_definition(&ctx[len - 1]) {
                ctx.push(Context::FunctionDeclarator);
                proof {
                    assert(frames(ctx@) =~= post.ctx);
                }
            }
        } else if len == 2 && names_function_exec(k) {
            if is_function_declarator(&ctx[1]) {
                ctx.clear();
                let function = function_text(src, lo, hi);
                let call = Node::new(function.as_str(), tree.file.as_str(), n.row + 1);
                graph.add_node(&call);
                match rfind_byte(src, lo, hi, 58) {
                    Some(c) => {
                        let key = function_text(src, lo + c + 1, hi);
                        proof {
                            assert(src@.subrange(lo + c + 1, hi as int) =~= t.skip(c + 1));
                        }
                        self.pool_record(key, function);
                    },
                    None => {},
                }
                proof {
                    assert(frames(ctx@) =~= post.ctx);
                }
            }
        } else if len == 4 && names_function_exec(k) {
            if is_function_declarator(&ctx[3]) {
                ctx.truncate(2);
                let class = match &ctx[1] {
                    Context::ClassIdentifier(c) => Some(c.clone()),
                    _ => None,
                };
                match class {
                    Some(class) => {
                        let function = function_text(src, lo, hi);
                        let name = qualified(&class, &function);
                        let call = Node::new(name.as_str(), tree.file.as_str(), n.row + 1);
                        graph.add_node(&call);
                        self.pool_record(function, name);
                        proof {
                            assert(frames(ctx@) =~= post.ctx);
                        }
                    },
                    None => {
                        ctx.clear();
                        proof {
                            assert(frames(ctx@) =~= post.ctx);
                        }
                    },
                }
            }
        } else if len >= 1 {
            close_scopes_exec(ctx, n);
        }
    }

    /// The definition pass over one file: registers every function defined at
    /// file scope or with a body inside a class body, and records the
    /// qualified form of each unqualified name.
    pub fn extract_nodes(&mut self, syntax_tree: &SyntaxTree, graph: &mut Graph)
        requires
            old(self).wf(),
            old(graph).wf(),
            syntax_tree.wf(),
        ensures
            final(self).wf(),
            final(graph).wf(),
            final(graph)@ == node_pass(
                NodeScan { ctx: Seq::empty(), graph: old(graph)@, pool: old(self)@ },
                syntax_tree.bytes(),
                syntax_tree.file@,
                syntax_tree.stream(),
            ).graph,
            final(self)@ == node_pass(
                NodeScan { ctx: Seq::empty(), graph: old(graph)@, pool: old(self)@ },
                syntax_tree.bytes(),
                syntax_tree.file@,
                syntax_tree.stream(),
            ).pool,
    {
        let mut context: Vec<Context> = Vec::new();
        let ghost init = NodeScan { ctx: Seq::empty(), graph: graph@, pool: self@ };
        let ghost src = syntax_tree.bytes();
        let ghost file = syntax_tree.file@;
        let ghost stream = syntax_tree.stream();
        proof {
            assert(frames(context@) =~= Seq::<Frame>::empty());
            assert(stream.take(0) =~= Seq::<SyntaxNode>::empty());
        }
        for i in 0..syntax_tree.nodes.len()
            invariant
                self.wf(),
                graph.wf(),
                syntax_tree.wf(),
                src == syntax_tree.bytes(),
                file == syntax_tree.file@,
                stream == syntax_tree.stream(),
                frames(context@) == node_pass(init, src, file, stream.take(i as int)).ctx,
                graph@ == node_pass(init, src, file, stream.take(i as int)).graph,
                self@ == node_pass(init, src, file, stream.take(i as int)).pool,
        {
            proof {
                assert(stream.take(i + 1).drop_last() =~= stream.take(i as int));
                assert(node_in(stream[i as int], src.len()));
            }
            self.node_step(syntax_tree, syntax_tree.nodes[i], &mut context, graph);
        }
        proof {
            assert(stream.take(stream.len() as int) =~= stream);
        }
    }
}


/// The pending calls as the specification sees them.
pub open spec fn pending_view(v: Seq<(usize, usize)>) -> Seq<(int, int)> {
    v.map_values(|p: (usize, usize)| (p.0 as int, p.1 as int))
}

/// Every function frame and pending callee names a node among the first `n`.
pub open spec fn positions_ok(ctx: Seq<Frame>, pending: Seq<(int, int)>, n: int) -> bool {
    &&& forall|k: int|
        0 <= k < ctx.len() ==> match #[trigger] ctx[k] {
            Frame::FunctionIdentifier(i) => 0 <= i < n,
            _ => true,
        }
    &&& forall|k: int| 0 <= k < pending.len() ==> 0 <= #[trigger] pending[k].1 < n
}

/// Whether `c` is a function body frame.
fn is_function_identifier(c: &Context) -> (r: bool)
    ensures
        r == (c@ is FunctionIdentifier),
{
    match c {
        Context::FunctionIdentifier(_) => true,
        _ => false,
    }
}

/// Where `src[lo..hi]` ends before any `<`.
fn template_cut(src: &[u8], lo: usize, hi: usize) -> (r: usize)
    requires
        lo <= hi <= src@.len(),
    ensures
        lo <= r <= hi,
        src@.subrange(lo as int, r as int) == before_template(src@.subrange(lo as int, hi as int)),
{
    let r = match find_byte(src, lo, hi, 60) {
        Some(i) => lo + i,
        None => hi,
    };
    proof {
        assert(src@.subrange(lo as int, r as int) =~= before_template(
            src@.subrange(lo as int, hi as int),
        ));
    }
    r
}

/// Where the name after the last `.` or `->` of `src[lo..hi]` starts.
fn access_start(src: &[u8], lo: usize, hi: usize) -> (r: usize)
    requires
        lo <= hi <= src@.len(),
    ensures
        lo <= r <= hi,
        src@.subrange(r as int, hi as int) == after_access(src@.subrange(lo as int, hi as int)),
{
    let dot = rfind_byte(src, lo, hi, 46);
    let arrow = rfind_pair(src, lo, hi, 45, 62);
    let r = match dot {
        Some(i) => {
            let j = match arrow {
                Some(k) => if k > i {
                    k + 1
                } else {
                    i
                },
                None => i,
            };
            lo + j + 1
        },
        None => match arrow {
            Some(k) => lo + k + 2,
            None => lo,
        },
    };
    proof {
        assert(src@.subrange(r as int, hi as int) =~= after_access(
            src@.subrange(lo as int, hi as int),
        ));
    }
    r
}

/// Where `src[lo..hi]` ends before any `(`.
fn paren_cut(src: &[u8], lo: usize, hi: usize) -> (r: usize)
    requires
        lo <= hi <= src@.len(),
    ensures
        lo <= r <= hi,
        src@.subrange(lo as int, r as int) == before_paren(src@.subrange(lo as int, hi as int)),
{
    let r = match find_byte(src, lo, hi, 40) {
        Some(i) => lo + i,
        None => hi,
    };
    proof {
        assert(src@.subrange(lo as int, r as int) =~= before_paren(
            src@.subrange(lo as int, hi as int),
        ));
    }
    r
}

/// The range of the bare function name inside the callee text `src[lo..hi]`.
fn callee_range(src: &[u8], lo: usize, hi: usize) -> (r: (usize, usize))
    requires
        lo <= hi <= src@.len(),
    ensures
        lo <= r.0 <= r.1 <= hi,
        src@.subrange(r.0 as int, r.1 as int) == callee_bytes(src@.subrange(lo as int, hi as int)),
{
    let cut = template_cut(src, lo, hi);
    let start = access_start(src, lo, cut);
    let end = paren_cut(src, start, cut);
    (start, end)
}

impl CallAnalyzer {
    /// Resolves the callee named `f` of a call ending at `pos`.
    fn resolve_exec(
        &self,
        graph: &mut Graph,
        pending: &mut Vec<(usize, usize)>,
        f: String,
        member: bool,
        pos: usize,
        ctx: Ghost<Seq<Frame>>,
    )
        requires
            self.wf(),
            old(graph).wf(),
            positions_ok(ctx@, pending_view(old(pending)@), old(graph)@.nodes.len() as int),
        ensures
            final(graph).wf(),
            final(graph)@.nodes.len() >= old(graph)@.nodes.len(),
            positions_ok(ctx@, pending_view(final(pending)@), final(graph)@.nodes.len() as int),
            final(graph)@ == resolve(
                EdgeScan { ctx: ctx@, graph: old(graph)@, pending: pending_view(old(pending)@) },
                self@,
                f@,
                member,
                pos as int,
            ).graph,
            pending_view(final(pending)@) == resolve(
                EdgeScan { ctx: ctx@, graph: old(graph)@, pending: pending_view(old(pending)@) },
                self@,
                f@,
                member,
                pos as int,
            ).pending,
    {
        let ghost g = graph@;
        let ghost p = pending_view(pending@);
        let entry = self.pool_lookup(&f);
        let known = if member {
            None
        } else {
            graph.find(f.as_str())
        };
        let target = match known {
            Some(i) => Some(Some(i)),
            None => match entry {
                Some(Some(q)) => Some(graph.find(q.as_str())),
                _ => None,
            },
        };
        match target {
            Some(Some(i)) => {
                pending.push((pos, i));
                proof {
                    assert(pending_view(pending@) =~= p.push((pos as int, i as int)));
                }
            },
            Some(None) => {},
            None => {
                let mut u = String::from_str("unknown::");
                u.append(f.as_str());
                let callee = Node::new_without_loc(u.as_str());
                graph.add_node(&callee);
                proof {
                    crate::graph::lemma_registered_well_formed(g, callee@);
                }
                match graph.find(u.as_str()) {
                    Some(i) => {
                        pending.push((pos, i));
                        proof {
                            assert(pending_view(pending@) =~= p.push((pos as int, i as int)));
                        }
                    },
                    None => {},
                }
            },
        }
    }

    /// One step of the call pass.
    fn edge_step(
        &self,
        tree: &SyntaxTree,
        n: SyntaxNode,
        ctx: &mut Vec<Context>,
        pending: &mut Vec<(usize, usize)>,
        graph: &mut Graph,
    )
        requires
            self.wf(),
            old(graph).wf(),
            node_in(n, tree.bytes().len()),
            positions_ok(
                frames(old(ctx)@),
                pending_view(old(pending)@),
                old(graph)@.nodes.len() as int,
            ),
        ensures
            final(graph).wf(),
            positions_ok(
                frames(final(ctx)@),
                pending_view(final(pending)@),
                final(graph)@.nodes.len() as int,
            ),
            frames(final(ctx)@) == edge_step(
                EdgeScan {
                    ctx: frames(old(ctx)@),
                    graph: old(graph)@,
                    pending: pending_view(old(pending)@),
                },
                self@,
                tree.bytes(),
                n,
            ).ctx,
            final(graph)@ == edge_step(
                EdgeScan {
                    ctx: frames(old(ctx)@),
                    graph: old(graph)@,
                    pending: pending_view(old(pending)@),
                },
                self@,
                tree.bytes(),
                n,
            ).graph,
            pending_view(final(pending)@) == edge_step(
                EdgeScan {
                    ctx: frames(old(ctx)@),
                    graph: old(graph)@,
                    pending: pending_view(old(pending)@),
                },
                self@,
                tree.bytes(),
                n,
            ).pending,
    {
        let ghost pre = EdgeScan { ctx: frames(ctx@), graph: graph@, pending: pending_view(pending@) };
        let ghost post = edge_step(pre, self@, tree.bytes(), n);
        let src = tree.source.as_slice();
        let lo = n.start_byte;
        let hi = n.end_byte;
        let len = ctx.len();
        let k = n.kind;
        if len == 0 && (k == SyntaxKind::StructSpecifier || k == SyntaxKind::ClassSpecifier) {
            if has_body_at(src, lo, hi) {
                ctx.push(Context::ClassSpecifier(hi));
                proof {
                    assert(frames(ctx@) =~= post.ctx);
                }
            }
        } else if len == 1 && k == SyntaxKind::TypeIdentifier {
            if is_class_specifier(&ctx[0]) {
                ctx.push(Context::ClassIdentifier(text_at(src, lo, hi)));
                proof {
                    assert(frames(ctx@) =~= post.ctx);
                }
            }
        } else if (len == 0 || len == 2) && k == SyntaxKind::FunctionDefinition {
            if !defaulted_at(src, lo, hi) && !deleted_at(src, lo, hi) {
                ctx.push(Context::FunctionDefinition(hi));
                proof {
                    assert(frames(ctx@) =~= post.ctx);
                }
            }
        } else if (len == 1 || len == 3) && k == SyntaxKind::FunctionDeclarator {
            if is_function_definition(&ctx[len - 1]) {
                ctx.push(Context::FunctionDeclarator);
                proof {
                    assert(frames(ctx@) =~= post.ctx);
                }
            }
        } else if len == 2 && names_function_exec(k) {
            if is_function_declarator(&ctx[1]) {
                let name = function_text(src, lo, hi);
                match graph.find(name.as_str()) {
                    Some(i) => {
                        ctx.set(1, Context::FunctionIdentifier(i));
                    },
                    None => {
                        ctx.clear();
                    },
                }
                proof {
                    assert(frames(ctx@) =~= post.ctx);
                }
            }
        } else if len == 4 && names_function_exec(k) {
            if is_function_declarator(&ctx[3]) {
                let class = match &ctx[1] {
                    Context::ClassIdentifier(c) => Some(c.clone()),
                    _ => None,
                };
                match class {
                    Some(class) => {
                        let function = function_text(src, lo, hi);
                        let name = qualified(&class, &function);
                        match graph.find(name.as_str()) {
                            Some(i) => {
                                ctx.set(3, Context::FunctionIdentifier(i));
                            },
                            None => {
                                ctx.truncate(2);
                            },
                        }
                    },
                    None => {
                        ctx.clear();
                    },
                }
                proof {
                    assert(frames(ctx@) =~= post.ctx);
                }
            }
        } else if (len == 2 || len == 4) && k == SyntaxKind::CallExpression {
            if is_function_identifier(&ctx[len - 1]) {
                ctx.push(Context::CallExpression(hi));
                proof {
                    assert(frames(ctx@) =~= post.ctx);
                }
            }
        } else if (len == 3 || len == 5) && (k == SyntaxKind::Identifier || k
            == SyntaxKind::QualifiedIdentifier || k == SyntaxKind::FieldExpression) {
            let top = match ctx[len - 1] {
                Context::CallExpression(p) => Some(p),
                _ => None,
            };
            match top {
                Some(pos) => {
                    ctx.pop();
                    if is_function_identifier(&ctx[len - 2]) {
                        let (a, b) = callee_range(src, lo, hi);
                        let f = function_text(src, a, b);
                        proof {
                            assert(frames(ctx@) =~= pre.ctx.drop_last());
                        }
                        self.resolve_exec(
                            graph,
                            pending,
                            f,
                            k == SyntaxKind::FieldExpression,
                            pos,
                            Ghost(frames(ctx@)),
                        );
                    } else {
                        ctx.pop();
                        ctx.pop();
                    }
                    proof {
                        assert(frames(ctx@) =~= post.ctx);
                    }
                },
                None => {
                    ctx.pop();
                    proof {
                        assert(frames(ctx@) =~= post.ctx);
                    }
                },
            }
        } else if len >= 1 {
            let caller = match ctx[len - 1] {
                Context::FunctionIdentifier(c) => Some(c),
                _ => None,
            };
            match caller {
                Some(c) => {
                    if pending.len() > 0 {
                        let (pos, callee) = pending[pending.len() - 1];
                        if lo as u128 + 1 >= pos as u128 {
                            proof {
                                assert(pre.ctx[len - 1] == Frame::FunctionIdentifier(c as int));
                                assert(pre.pending[pending@.len() - 1].1 == callee);
                            }
                            graph.add_edge_at(c, callee);
                            pending.pop();
                            proof {
                                assert(pending_view(pending@) =~= pre.pending.drop_last());
                            }
                        }
                    }
                },
                None => {},
            }
            close_scopes_exec(ctx, n);
        }
    }
}


impl CallAnalyzer {
    /// The call pass over one file: inside each registered function, every
    /// call adds an edge from the function to the resolved callee, committed
    /// once the cursor has passed the end of the call expression so that
    /// calls nested in arguments come first.
    pub fn extract_edges(&mut self, syntax_tree: &SyntaxTree, graph: &mut Graph)
        requires
            old(self).wf(),
            old(graph).wf(),
            syntax_tree.wf(),
        ensures
            final(self)@ == old(self)@,
            final(self).wf(),
            final(graph).wf(),
            final(graph)@ == edge_pass(
                EdgeScan { ctx: Seq::empty(), graph: old(graph)@, pending: Seq::empty() },
                old(self)@,
                syntax_tree.bytes(),
                syntax_tree.stream(),
            ).graph,
    {
        let mut context: Vec<Context> = Vec::new();
        let mut call_stack: Vec<(usize, usize)> = Vec::new();
        let ghost init = EdgeScan { ctx: Seq::empty(), graph: graph@, pending: Seq::empty() };
        let ghost src = syntax_tree.bytes();
        let ghost stream = syntax_tree.stream();
        proof {
            assert(frames(context@) =~= Seq::<Frame>::empty());
            assert(pending_view(call_stack@) =~= Seq::<(int, int)>::empty());
            assert(stream.take(0) =~= Seq::<SyntaxNode>::empty());
        }
        for i in 0..syntax_tree.nodes.len()
            invariant
                self.wf(),
                graph.wf(),
                syntax_tree.wf(),
                src == syntax_tree.bytes(),
                stream == syntax_tree.stream(),
                positions_ok(
                    frames(context@),
                    pending_view(call_stack@),
                    graph@.nodes.len() as int,
                ),
                frames(context@) == edge_pass(init, self@, src, stream.take(i as int)).ctx,
                graph@ == edge_pass(init, self@, src, stream.take(i as int)).graph,
                pending_view(call_stack@) == edge_pass(
                    init,
                    self@,
                    src,
                    stream.take(i as int),
                ).pending,
        {
            proof {
                assert(stream.take(i + 1).drop_last() =~= stream.take(i as int));
                assert(node_in(stream[i as int], src.len()));
            }
            self.edge_step(syntax_tree, syntax_tree.nodes[i], &mut context, &mut call_stack, graph);
        }
        proof {
            assert(stream.take(stream.len() as int) =~= stream);
        }
    }
}


proof fn lemma_edge_step_grows(s: EdgeScan, pool: PoolView, src: Seq<u8>, n: SyntaxNode)
    ensures
        crate::graph::grows_by_placeholders(s.graph, edge_step(s, pool, src, n).graph),
{
    let t = node_bytes(src, n);
    let f = text(callee_bytes(t)) + "()"@;
    let e = if let Frame::FunctionIdentifier(caller) = s.ctx.last() {
        if s.pending.len() > 0 {
            (caller, s.pending.last().1)
        } else {
            (0int, 0int)
        }
    } else {
        (0int, 0int)
    };
    crate::graph::lemma_placeholder_grows(s.graph, placeholder(f), e);
}

/// The call pass adds nothing but placeholder nodes with no location and
/// edges: every node already in the graph stays as it is, at its position,
/// and the edges already there come first.
pub proof fn lemma_call_pass_grows(s: EdgeScan, pool: PoolView, src: Seq<u8>, nodes: Seq<SyntaxNode>)
    ensures
        crate::graph::grows_by_placeholders(s.graph, edge_pass(s, pool, src, nodes).graph),
    decreases nodes.len(),
{
    if nodes.len() == 0 {
        crate::graph::lemma_placeholder_grows(
            s.graph,
            NodeView { name: Seq::empty(), alias: false, locations: Seq::empty() },
            (0, 0),
        );
    } else {
        let before = edge_pass(s, pool, src, nodes.drop_last());
        lemma_call_pass_grows(s, pool, src, nodes.drop_last());
        lemma_edge_step_grows(before, pool, src, nodes.last());
        crate::graph::lemma_grows_trans(s.graph, before.graph, edge_pass(s, pool, src, nodes).graph);
    }
}

} // verus!
