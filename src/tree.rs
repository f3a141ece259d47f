//! The indented tree below one node: each child on a branch of its own,
//! ancestors shown again as a leaf instead of being expanded.
use crate::graph::{successors, Graph, GraphView};
use crate::label::{label, lower_chars, lower_of, push_chars, sort_order, sorted_order, split_chars, split_on};
use crate::node::NodeView;
use crate::roots::{adjacency_of, ints};
use crate::wrap::{push_wrapped, wrapped_lines, Shade};
use vstd::prelude::*;
use vstd::string::*;

verus! {

/// How the graph is shown.
#[derive(PartialEq, Eq, Structural, Clone, Copy, Debug)]
pub struct RenderOptions {
    /// Show only a covering set of roots.
    pub succinct: bool,
    /// Mark aliases, repeats and unknown entries (trimmed, and painted where
    /// `paint` is set).
    pub color: bool,
    /// The terminal takes colour codes.
    pub paint: bool,
    /// The deepest level shown below a root (the root is level 0); -1 for no
    /// limit.
    pub max_depth: i32,
    /// Leave out entries with no location.
    pub ignore_unknown: bool,
    /// Sort each node's children case-insensitively by name.
    pub sort_children: bool,
}

/// The glyph that continues an ancestor's branch (or not, after its last child).
pub open spec fn bar(last: bool) -> Seq<char> {
    if last {
        "    "@
    } else {
        "│   "@
    }
}

/// The bytes that `bar` takes.
pub open spec fn bar_width(last: bool) -> int {
    if last {
        4
    } else {
        6
    }
}

/// The glyph that opens an entry.
pub open spec fn branch(last: bool) -> Seq<char> {
    if last {
        "└── "@
    } else {
        "├── "@
    }
}

/// The glyphs of the first `d` levels.
pub open spec fn bars(end: Seq<bool>, d: int) -> Seq<char>
    decreases d,
{
    if d <= 0 {
        Seq::empty()
    } else {
        bars(end, d - 1) + bar(end[d - 1])
    }
}

/// The bytes that `bars(end, d)` takes.
pub open spec fn bars_width(end: Seq<bool>, d: int) -> int
    decreases d,
{
    if d <= 0 {
        0
    } else {
        bars_width(end, d - 1) + bar_width(end[d - 1])
    }
}

/// A width, counted up to the full line width (more makes no difference).
pub open spec fn capped(w: int) -> int {
    if w > 100 {
        100
    } else {
        w
    }
}

/// The colour of an entry: aliases, then repeats, then unknown entries.
pub open spec fn shade_of(o: RenderOptions, n: NodeView, repeat: bool) -> Option<Shade> {
    if !o.color {
        None
    } else if n.alias {
        Some(Shade::LightGreen)
    } else if repeat {
        Some(Shade::LightCyan)
    } else if n.locations.len() == 0 {
        Some(Shade::LightYellow)
    } else {
        None
    }
}

/// One entry: its glyphs, then its label wrapped under the branch.
pub open spec fn entry_text(o: RenderOptions, n: NodeView, repeat: bool, end: Seq<bool>) -> Seq<char> {
    let d = end.len() - 1;
    bars(end, d) + branch(end[d]) + wrapped_lines(
        split_on(label(n), '\n'),
        0,
        true,
        bars(end, d) + bar(end[d]),
        capped(bars_width(end, d) + bar_width(end[d])),
        shade_of(o, n, repeat),
        o.paint,
    )
}

/// Whether node `v` has a location.
pub open spec fn known(g: GraphView, v: int) -> bool {
    g.nodes[v].locations.len() > 0
}

/// The nodes of `s` that have a location.
pub open spec fn known_only(g: GraphView, s: Seq<int>) -> Seq<int>
    decreases s.len(),
{
    if s.len() == 0 {
        s
    } else if known(g, s.last()) {
        known_only(g, s.drop_last()).push(s.last())
    } else {
        known_only(g, s.drop_last())
    }
}

/// The lowercase names of the nodes `s`.
pub open spec fn name_keys(g: GraphView, s: Seq<int>) -> Seq<Seq<char>> {
    s.map_values(|v: int| lower_of(g.nodes[v].name))
}

/// The nodes `s`, stably sorted by lowercase name.
pub open spec fn by_name(g: GraphView, s: Seq<int>) -> Seq<int> {
    sorted_order(name_keys(g, s), s.len() as int).map_values(|i: int| s[i])
}

/// The children shown under `u`.
pub open spec fn children(g: GraphView, o: RenderOptions, u: int) -> Seq<int> {
    let s = successors(g, u);
    let s = if o.ignore_unknown {
        known_only(g, s)
    } else {
        s
    };
    if o.sort_children {
        by_name(g, s)
    } else {
        s
    }
}

/// The tree below `u`, at the place that `end` describes (for each level,
/// whether the entry is its parent's last child), under the ancestors `path`:
/// an ancestor is shown once more but not expanded.
pub open spec fn node_text(g: GraphView, o: RenderOptions, u: int, end: Seq<bool>, path: Seq<int>) -> Seq<char>
    decreases g.nodes.len() - path.len(), 0int, 0int,
{
    if end.len() == 0 || u < 0 || u >= g.nodes.len() {
        Seq::empty()
    } else if o.max_depth != -1 && end.len() - 1 > o.max_depth {
        Seq::empty()
    } else {
        let repeat = path.contains(u);
        entry_text(o, g.nodes[u], repeat, end) + if !repeat && path.len() < g.nodes.len() {
            children_text(g, o, children(g, o, u), 0, end, path.push(u))
        } else {
            Seq::empty()
        }
    }
}

/// The trees below `kids[k..]`, children of the node at the place `end`.
pub open spec fn children_text(
    g: GraphView,
    o: RenderOptions,
    kids: Seq<int>,
    k: int,
    end: Seq<bool>,
    path: Seq<int>,
) -> Seq<char>
    decreases g.nodes.len() - path.len(), 1int, kids.len() - k,
{
    if k < 0 || k >= kids.len() || path.len() > g.nodes.len() {
        Seq::empty()
    } else {
        node_text(g, o, kids[k], end.push(k + 1 == kids.len()), path) + children_text(
            g,
            o,
            kids,
            k + 1,
            end,
            path,
        )
    }
}


proof fn lemma_bars_width(end: Seq<bool>, d: int)
    ensures
        bars_width(end, d) >= 0,
    decreases d,
{
    if d > 0 {
        lemma_bars_width(end, d - 1);
    }
}

/// Appends the lines of `text`, each wrapped.
fn push_label(
    s: &mut String,
    text: &String,
    indent: &String,
    width: usize,
    shade: Option<Shade>,
    paint: bool,
)
    ensures
        final(s)@ == old(s)@ + wrapped_lines(
            split_on(text@, '\n'),
            0,
            true,
            indent@,
            width as int,
            shade,
            paint,
        ),
{
    let lines = split_chars(text.as_str(), '\n');
    let ghost ls = lines@.map_values(|l: Vec<char>| l@);
    let ghost start = s@;
    let mut first = true;
    for k in 0..lines.len()
        invariant
            ls == lines@.map_values(|l: Vec<char>| l@),
            ls == split_on(text@, '\n'),
            s@ + wrapped_lines(ls, k as int, first, indent@, width as int, shade, paint) == start
                + wrapped_lines(ls, 0, true, indent@, width as int, shade, paint),
    {
        let mut l = String::new();
        push_chars(&mut l, &lines[k]);
        let b = l.as_str().as_bytes_vec();
        let ghost before = s@;
        proof {
            assert(l@ =~= ls[k as int]);
        }
        push_wrapped(s, &b, first, indent, width, shade, paint);
        proof {
            assert(s@ + wrapped_lines(ls, k + 1, first && b@.len() == 0, indent@, width as int, shade, paint)
                =~= before + wrapped_lines(ls, k as int, first, indent@, width as int, shade, paint));
        }
        first = first && b.len() == 0;
    }
    proof {
        assert(s@ + wrapped_lines(ls, lines@.len() as int, first, indent@, width as int, shade, paint)
            =~= s@);
    }
}

/// The colour of an entry.
fn shade_exec(o: RenderOptions, n: &crate::node::Node, repeat: bool) -> (r: Option<Shade>)
    ensures
        r == shade_of(o, n@, repeat),
{
    if !o.color {
        None
    } else if n.alias {
        Some(Shade::LightGreen)
    } else if repeat {
        Some(Shade::LightCyan)
    } else if n.location.len() == 0 {
        Some(Shade::LightYellow)
    } else {
        None
    }
}

/// Whether `path` holds `u`.
fn holds(path: &Vec<usize>, u: usize) -> (r: bool)
    ensures
        r == ints(path@).contains(u as int),
{
    let mut i: usize = 0;
    while i < path.len()
        invariant
            i <= path@.len(),
            forall|j: int| 0 <= j < i ==> path@[j] != u,
        decreases path.len() - i,
    {
        if path[i] == u {
            proof {
                assert(ints(path@)[i as int] == u as int);
            }
            return true;
        }
        i = i + 1;
    }
    proof {
        if ints(path@).contains(u as int) {
            let j = choose|j: int| 0 <= j < path@.len() && ints(path@)[j] == u as int;
            assert(path@[j] == u);
        }
    }
    false
}

/// The children shown under `u`.
fn children_of(graph: &Graph, o: RenderOptions, adj: &Vec<Vec<usize>>, u: usize) -> (r: Vec<usize>)
    requires
        graph.wf(),
        adjacency_of(graph@, adj@),
        u < graph@.nodes.len(),
    ensures
        ints(r@) == children(graph@, o, u as int),
        forall|k: int| 0 <= k < r@.len() ==> (#[trigger] r@[k]) < graph@.nodes.len(),
{
    let ghost g = graph@;
    let succ = &adj[u];
    proof {
        assert(ints(succ@) =~= succ@.map_values(|x: usize| x as int));
        assert forall|k: int| 0 <= k < succ@.len() implies (#[trigger] succ@[k]) < g.nodes.len() by {
            assert(successors(g, u as int).contains(succ@[k] as int)) by {
                assert(ints(succ@)[k] == succ@[k] as int);
            }
            crate::roots::lemma_successor_edge(g.edges, u as int, succ@[k] as int);
            let e = choose|e: int| 0 <= e < g.edges.len() && g.edges[e] == (u as int, succ@[k] as int);
            assert(g.edges[e].1 < g.nodes.len());
        }
    }
    let mut kept: Vec<usize> = Vec::new();
    for k in 0..succ.len()
        invariant
            g == graph@,
            forall|j: int| 0 <= j < succ@.len() ==> (#[trigger] succ@[j]) < g.nodes.len(),
            ints(kept@) == (if o.ignore_unknown {
                known_only(g, ints(succ@).take(k as int))
            } else {
                ints(succ@).take(k as int)
            }),
            forall|j: int| 0 <= j < kept@.len() ==> (#[trigger] kept@[j]) < g.nodes.len(),
    {
        let v = succ[k];
        proof {
            assert(ints(succ@).take(k + 1).drop_last() =~= ints(succ@).take(k as int));
            assert(ints(succ@).take(k + 1).last() == v as int);
        }
        let keep = !o.ignore_unknown || graph.node(v).location.len() > 0;
        if keep {
            kept.push(v);
        }
        proof {
            assert(ints(kept@) =~= (if o.ignore_unknown {
                known_only(g, ints(succ@).take(k + 1))
            } else {
                ints(succ@).take(k + 1)
            }));
        }
    }
    proof {
        assert(ints(succ@).take(succ@.len() as int) =~= ints(succ@));
        assert(ints(succ@) == successors(g, u as int));
    }
    if !o.sort_children {
        return kept;
    }
    order_by_name(graph, &kept)
}

/// `kept`, stably sorted by lowercase name.
pub(crate) fn order_by_name(graph: &Graph, kept: &Vec<usize>) -> (r: Vec<usize>)
    requires
        forall|j: int| 0 <= j < kept@.len() ==> (#[trigger] kept@[j]) < graph@.nodes.len(),
    ensures
        ints(r@) == by_name(graph@, ints(kept@)),
        forall|k: int| 0 <= k < r@.len() ==> (#[trigger] r@[k]) < graph@.nodes.len(),
{
    let ghost g = graph@;
    let mut keys: Vec<Vec<char>> = Vec::new();
    for k in 0..kept.len()
        invariant
            g == graph@,
            forall|j: int| 0 <= j < kept@.len() ==> (#[trigger] kept@[j]) < g.nodes.len(),
            keys@.len() == k,
            forall|j: int| 0 <= j < k ==> (#[trigger] keys@[j])@ == name_keys(g, ints(kept@))[j],
    {
        keys.push(lower_chars(graph.node(kept[k]).name.as_str()));
    }
    proof {
        assert(keys@.map_values(|k: Vec<char>| k@) =~= name_keys(g, ints(kept@)));
    }
    let order = sort_order(&keys);
    let mut r: Vec<usize> = Vec::new();
    for j in 0..order.len()
        invariant
            forall|m: int| 0 <= m < order@.len() ==> (#[trigger] order@[m]) < keys@.len(),
            keys@.len() == kept@.len(),
            forall|m: int| 0 <= m < kept@.len() ==> (#[trigger] kept@[m]) < g.nodes.len(),
            r@.len() == j,
            forall|m: int| 0 <= m < j ==> (#[trigger] r@[m]) == kept@[order@[m] as int],
    {
        r.push(kept[order[j]]);
    }
    proof {
        let so = sorted_order(name_keys(g, ints(kept@)), kept@.len() as int);
        assert(order@.map_values(|i: usize| i as int) == so);
        assert(ints(r@) =~= so.map_values(|i: int| ints(kept@)[i])) by {
            assert forall|m: int| 0 <= m < r@.len() implies ints(r@)[m] == so.map_values(
                |i: int| ints(kept@)[i],
            )[m] by {
                assert(so[m] == order@[m] as int);
            }
        }
    }
    r
}

/// Appends the glyphs of the first `d` levels, and counts their width.
fn push_bars(s: &mut String, end: &Vec<bool>, d: usize) -> (w: usize)
    requires
        d <= end@.len(),
    ensures
        final(s)@ == old(s)@ + bars(end@, d as int),
        w == capped(bars_width(end@, d as int)),
{
    let ghost start = s@;
    let mut w: usize = 0;
    for i in 0..d
        invariant
            d <= end@.len(),
            s@ == start + bars(end@, i as int),
            w == capped(bars_width(end@, i as int)),
    {
        if end[i] {
            s.append("    ");
            w = if w + 4 > 100 { 100 } else { w + 4 };
        } else {
            s.append("│   ");
            w = if w + 6 > 100 { 100 } else { w + 6 };
        }
        proof {
            lemma_bars_width(end@, i as int);
            assert(s@ =~= start + bars(end@, i + 1));
        }
    }
    w
}

/// The tree below node `u` at the place `end`, under the ancestors `path`.
pub fn node_to_text(
    graph: &Graph,
    o: RenderOptions,
    adj: &Vec<Vec<usize>>,
    u: usize,
    end: &mut Vec<bool>,
    path: &mut Vec<usize>,
) -> (r: String)
    requires
        graph.wf(),
        adjacency_of(graph@, adj@),
        u < graph@.nodes.len(),
        old(end)@.len() >= 1,
        old(path)@.len() <= graph@.nodes.len(),
    ensures
        r@ == node_text(graph@, o, u as int, old(end)@, ints(old(path)@)),
        final(end)@ == old(end)@,
        final(path)@ == old(path)@,
    decreases graph@.nodes.len() - old(path)@.len(),
{
    let ghost g = graph@;
    let n = graph.len();
    let d = end.len() - 1;
    if o.max_depth != -1 && (o.max_depth < 0 || d > o.max_depth as usize) {
        return String::new();
    }
    let repeat = holds(path, u);
    let mut s = String::new();
    let mut indent = String::new();
    let w0 = push_bars(&mut indent, end, d);
    s.append(indent.as_str());
    let last = end[d];
    if last {
        s.append("└── ");
        indent.append("    ");
    } else {
        s.append("├── ");
        indent.append("│   ");
    }
    let w: usize = if last {
        if w0 + 4 > 100 { 100 } else { w0 + 4 }
    } else {
        if w0 + 6 > 100 { 100 } else { w0 + 6 }
    };
    proof {
        lemma_bars_width(end@, d as int);
    }
    let node = graph.node(u);
    let text = node.to_string();
    let shade = shade_exec(o, node, repeat);
    push_label(&mut s, &text, &indent, w, shade, o.paint);
    let ghost head = s@;
    proof {
        assert(head =~= entry_text(o, g.nodes[u as int], repeat, end@));
    }
    if !repeat && path.len() < n {
        let kids = children_of(graph, o, adj, u);
        path.push(u);
        let ghost p = ints(path@);
        proof {
            assert(p =~= ints(old(path)@).push(u as int));
        }
        for k in 0..kids.len()
            invariant
                graph.wf(),
                adjacency_of(graph@, adj@),
                g == graph@,
                n == g.nodes.len(),
                ints(kids@) == children(g, o, u as int),
                forall|j: int| 0 <= j < kids@.len() ==> (#[trigger] kids@[j]) < n,
                end@ == old(end)@,
                ints(path@) == p,
                path@ == old(path)@.push(u),
                path@.len() <= n,
                s@ + children_text(g, o, ints(kids@), k as int, end@, p) == head + children_text(
                    g,
                    o,
                    ints(kids@),
                    0,
                    end@,
                    p,
                ),
        {
            let ghost before = s@;
            end.push(k + 1 == kids.len());
            let t = node_to_text(graph, o, adj, kids[k], end, path);
            end.pop();
            s.append(t.as_str());
            proof {
                assert(end@ =~= old(end)@);
                assert(ints(kids@)[k as int] == kids@[k as int] as int);
                assert(s@ + children_text(g, o, ints(kids@), k + 1, end@, p) =~= before
                    + children_text(g, o, ints(kids@), k as int, end@, p));
            }
        }
        path.pop();
        proof {
            assert(path@ =~= old(path)@);
            assert(s@ + children_text(g, o, ints(kids@), kids@.len() as int, end@, p) =~= s@);
        }
    }
    s
}

} // verus!
