//! Rendering a graph: as an indented tree grouped by file, or as a digraph.
use crate::graph::{successors, Graph, GraphView};
use crate::label::{lower_chars, lower_of, push_char, push_chars, sort_order, sorted_order};
use crate::roots::{adjacency_of, ints, select_roots, succinct_roots};
use crate::tree::{by_name, known, known_only, node_text, node_to_text, order_by_name, RenderOptions};
use crate::wrap::{paint_text, painted, Shade};
use vstd::prelude::*;
use vstd::string::*;

verus! {

/// regex's `Regex`, carried through opaque.
#[verifier::external_type_specification]
#[verifier::external_body]
pub struct ExRegex(regex::Regex);

/// Whether `regex::Regex::new` accepts a pattern.
pub uninterp spec fn valid_pattern(p: Seq<char>) -> bool;

/// Whether the regex compiled from `p` matches somewhere in `s`.
pub uninterp spec fn pattern_matches(p: Seq<char>, s: Seq<char>) -> bool;

/// Relies on `regex::Regex::new`: the compiled pattern, or nothing where the
/// pattern is invalid.
#[verifier::external_body]
fn compile_regex(p: &str) -> (r: Option<regex::Regex>)
    ensures
        r is Some <==> valid_pattern(p@),
{
    regex::Regex::new(p).ok()
}

/// A compiled name pattern.
pub struct NamePattern {
    source: String,
    regex: regex::Regex,
}

impl NamePattern {
    /// The pattern's text.
    pub closed spec fn text(&self) -> Seq<char> {
        self.source@
    }

    /// The pattern `p` compiled; nothing where it is invalid.
    pub fn compile(p: &String) -> (r: Option<NamePattern>)
        ensures
            r is Some <==> valid_pattern(p@),
            r is Some ==> r->0.text() == p@,
    {
        match compile_regex(p.as_str()) {
            Some(regex) => Some(NamePattern { source: p.clone(), regex }),
            None => None,
        }
    }

    /// Relies on `regex::Regex::is_match`, on the regex that `compile` built
    /// from this pattern's text: whether it matches somewhere in `s`.
    #[verifier::external_body]
    fn is_match(&self, s: &str) -> (r: bool)
        ensures
            r == pattern_matches(self.text(), s@),
    {
        self.regex.is_match(s)
    }
}

/// The valid patterns of `ps`, in order.
pub open spec fn valid_only(ps: Seq<Seq<char>>) -> Seq<Seq<char>>
    decreases ps.len(),
{
    if ps.len() == 0 {
        ps
    } else if valid_pattern(ps.last()) {
        valid_only(ps.drop_last()).push(ps.last())
    } else {
        valid_only(ps.drop_last())
    }
}

/// The invalid patterns of `ps`, in order.
pub open spec fn invalid_only(ps: Seq<Seq<char>>) -> Seq<Seq<char>>
    decreases ps.len(),
{
    if ps.len() == 0 {
        ps
    } else if !valid_pattern(ps.last()) {
        invalid_only(ps.drop_last()).push(ps.last())
    } else {
        invalid_only(ps.drop_last())
    }
}

/// Whether a name is kept by the patterns `ps`: all are kept where there is no
/// pattern, else those that some pattern matches.
pub open spec fn kept_by(ps: Seq<Seq<char>>, name: Seq<char>) -> bool {
    ps.len() == 0 || exists|i: int| 0 <= i < ps.len() && #[trigger] pattern_matches(ps[i], name)
}

/// The nodes of `s` whose name the patterns keep.
pub open spec fn matching(g: GraphView, ps: Seq<Seq<char>>, s: Seq<int>) -> Seq<int>
    decreases s.len(),
{
    if s.len() == 0 {
        s
    } else if kept_by(ps, g.nodes[s.last()].name) {
        matching(g, ps, s.drop_last()).push(s.last())
    } else {
        matching(g, ps, s.drop_last())
    }
}

/// The files of the locations of the nodes `s`, in order.
pub open spec fn files_of(g: GraphView, s: Seq<int>) -> Seq<Seq<char>>
    decreases s.len(),
{
    if s.len() == 0 {
        Seq::empty()
    } else {
        files_of(g, s.drop_last()) + g.nodes[s.last()].locations.map_values(
            |l: crate::node::LocationView| l.file,
        )
    }
}

/// `fs` with each text kept at its first occurrence only.
pub open spec fn distinct(fs: Seq<Seq<char>>) -> Seq<Seq<char>>
    decreases fs.len(),
{
    if fs.len() == 0 {
        fs
    } else if distinct(fs.drop_last()).contains(fs.last()) {
        distinct(fs.drop_last())
    } else {
        distinct(fs.drop_last()).push(fs.last())
    }
}

/// `fs`, stably sorted by lowercase text.
pub open spec fn by_lowercase(fs: Seq<Seq<char>>) -> Seq<Seq<char>> {
    sorted_order(fs.map_values(|f: Seq<char>| lower_of(f)), fs.len() as int).map_values(
        |i: int| fs[i],
    )
}

/// Whether node `v` has a location in file `f`.
pub open spec fn in_file(g: GraphView, v: int, f: Seq<char>) -> bool {
    exists|k: int|
        0 <= k < g.nodes[v].locations.len() && #[trigger] g.nodes[v].locations[k].file == f
}

/// The nodes of `s` with a location in file `f`.
pub open spec fn nodes_in(g: GraphView, s: Seq<int>, f: Seq<char>) -> Seq<int>
    decreases s.len(),
{
    if s.len() == 0 {
        s
    } else if in_file(g, s.last(), f) {
        nodes_in(g, s.drop_last(), f).push(s.last())
    } else {
        nodes_in(g, s.drop_last(), f)
    }
}

/// The nodes of `s` with no location.
pub open spec fn unknown_nodes(g: GraphView, s: Seq<int>) -> Seq<int>
    decreases s.len(),
{
    if s.len() == 0 {
        s
    } else if !known(g, s.last()) {
        unknown_nodes(g, s.drop_last()).push(s.last())
    } else {
        unknown_nodes(g, s.drop_last())
    }
}

/// The trees below the roots `ns[k..]`, each root on the top level.
pub open spec fn forest(g: GraphView, o: RenderOptions, ns: Seq<int>, k: int) -> Seq<char>
    decreases ns.len() - k,
{
    if k < 0 || k >= ns.len() {
        Seq::empty()
    } else {
        node_text(g, o, ns[k], seq![k + 1 == ns.len()], Seq::empty()) + forest(g, o, ns, k + 1)
    }
}

/// A group heading, painted where colours are asked for and the terminal
/// takes them.
pub open spec fn heading(o: RenderOptions, t: Seq<char>, shade: Shade) -> Seq<char> {
    if o.color && o.paint {
        painted(t, shade)
    } else {
        t
    }
}

/// The groups of the files `files[k..]`: each file that holds some of the
/// nodes `ns` heads the trees of those nodes, sorted by lowercase name.
pub open spec fn file_groups(
    g: GraphView,
    o: RenderOptions,
    ns: Seq<int>,
    files: Seq<Seq<char>>,
    k: int,
) -> Seq<char>
    decreases files.len() - k,
{
    if k < 0 || k >= files.len() {
        Seq::empty()
    } else {
        let group = by_name(g, nodes_in(g, ns, files[k]));
        (if group.len() > 0 {
            heading(o, files[k], Shade::LightMagenta) + seq!['\n'] + forest(g, o, group, 0)
                + seq!['\n']
        } else {
            Seq::empty()
        }) + file_groups(g, o, ns, files, k + 1)
    }
}

/// The group of the nodes with no location, unless those are left out.
pub open spec fn unknown_group(g: GraphView, o: RenderOptions, ns: Seq<int>) -> Seq<char> {
    let group = by_name(g, unknown_nodes(g, ns));
    if !o.ignore_unknown && group.len() > 0 {
        heading(o, "unknown"@, Shade::LightYellow) + seq!['\n'] + forest(g, o, group, 0)
    } else {
        Seq::empty()
    }
}

/// `t` without a final line break.
pub open spec fn chomp(t: Seq<char>) -> Seq<char> {
    if t.len() > 0 && t.last() == '\n' {
        t.drop_last()
    } else {
        t
    }
}

/// The text of the trees below the roots `ns`: grouped by file, files sorted
/// by lowercase name, then the unknown group.
pub open spec fn forest_text(g: GraphView, o: RenderOptions, ns: Seq<int>) -> Seq<char> {
    chomp(
        file_groups(g, o, ns, by_lowercase(distinct(files_of(g, ns))), 0) + unknown_group(g, o, ns),
    )
}

/// The node positions `0..n`.
pub open spec fn all_nodes(n: int) -> Seq<int> {
    Seq::new(n as nat, |i: int| i)
}

/// `"name"`.
pub open spec fn quoted(name: Seq<char>) -> Seq<char> {
    seq!['"'] + name + seq!['"']
}

/// The digraph statements of node `u`: the node, then an edge to each
/// successor shown (none at depth 0).
pub open spec fn node_dot(g: GraphView, o: RenderOptions, u: int) -> Seq<char> {
    quoted(g.nodes[u].name) + seq![';'] + if o.max_depth != 0 {
        edges_dot(g, o, u, successors(g, u), 0)
    } else {
        Seq::empty()
    }
}

/// The edge statements from `u` to `vs[k..]`.
pub open spec fn edges_dot(g: GraphView, o: RenderOptions, u: int, vs: Seq<int>, k: int) -> Seq<char>
    decreases vs.len() - k,
{
    if k < 0 || k >= vs.len() {
        Seq::empty()
    } else {
        (if !o.ignore_unknown || known(g, vs[k]) {
            quoted(g.nodes[u].name) + seq!['-', '>'] + quoted(g.nodes[vs[k]].name) + seq![';']
        } else {
            Seq::empty()
        }) + edges_dot(g, o, u, vs, k + 1)
    }
}

/// The statements of the nodes `ns[k..]`.
pub open spec fn nodes_dot(g: GraphView, o: RenderOptions, ns: Seq<int>, k: int) -> Seq<char>
    decreases ns.len() - k,
{
    if k < 0 || k >= ns.len() {
        Seq::empty()
    } else {
        node_dot(g, o, ns[k]) + nodes_dot(g, o, ns, k + 1)
    }
}

/// The opening of the digraph.
pub open spec fn dot_opening() -> Seq<char> {
    "digraph g {\nnode [margin=0,width=.5,height=.2];edge [arrowsize=.5,arrowhead=vee];\n"@
}

/// The nodes of `ns` that the digraph lists: all of them, or those with a
/// location where unknown entries are left out.
pub open spec fn dot_nodes(g: GraphView, o: RenderOptions, ns: Seq<int>) -> Seq<int> {
    if o.ignore_unknown {
        known_only(g, ns)
    } else {
        ns
    }
}

/// The digraph of the nodes `ns`: one statement for each listed node, in
/// case-insensitive order of name, each followed by its edge statements.
pub open spec fn dot_text(g: GraphView, o: RenderOptions, ns: Seq<int>) -> Seq<char> {
    dot_opening() + nodes_dot(g, o, by_name(g, dot_nodes(g, o, ns)), 0) + "}\n"@
}


/// The views of some texts.
pub open spec fn texts(v: Seq<String>) -> Seq<Seq<char>> {
    v.map_values(|s: String| s@)
}

/// Whether `v` holds `t`.
fn holds_text(v: &Vec<String>, t: &String) -> (r: bool)
    ensures
        r == texts(v@).contains(t@),
{
    let mut i: usize = 0;
    while i < v.len()
        invariant
            i <= v@.len(),
            forall|j: int| 0 <= j < i ==> v@[j]@ != t@,
        decreases v.len() - i,
    {
        if v[i] == *t {
            proof {
                assert(texts(v@)[i as int] == t@);
            }
            return true;
        }
        i = i + 1;
    }
    proof {
        if texts(v@).contains(t@) {
            let j = choose|j: int| 0 <= j < v@.len() && texts(v@)[j] == t@;
            assert(v@[j]@ == t@);
        }
    }
    false
}

/// The files of the nodes `ns`, each once, in order of first occurrence.
fn distinct_files(graph: &Graph, ns: &Vec<usize>) -> (r: Vec<String>)
    requires
        forall|k: int| 0 <= k < ns@.len() ==> (#[trigger] ns@[k]) < graph@.nodes.len(),
    ensures
        texts(r@) == distinct(files_of(graph@, ints(ns@))),
{
    let ghost g = graph@;
    let mut r: Vec<String> = Vec::new();
    proof {
        assert(texts(r@) =~= distinct(files_of(g, ints(ns@).take(0))));
    }
    for i in 0..ns.len()
        invariant
            g == graph@,
            forall|k: int| 0 <= k < ns@.len() ==> (#[trigger] ns@[k]) < g.nodes.len(),
            texts(r@) == distinct(files_of(g, ints(ns@).take(i as int))),
    {
        let node = graph.node(ns[i]);
        let ghost base = files_of(g, ints(ns@).take(i as int));
        let ghost fs = node@.locations.map_values(|l: crate::node::LocationView| l.file);
        proof {
            assert(ints(ns@).take(i + 1).drop_last() =~= ints(ns@).take(i as int));
            assert(ints(ns@).take(i + 1).last() == ns@[i as int] as int);
            assert(base + fs.take(0) =~= base);
        }
        for j in 0..node.location.len()
            invariant
                fs == node@.locations.map_values(|l: crate::node::LocationView| l.file),
                fs.len() == node.location@.len(),
                texts(r@) == distinct(base + fs.take(j as int)),
        {
            let f = &node.location[j].file;
            proof {
                assert(base + fs.take(j + 1) =~= (base + fs.take(j as int)).push(f@));
                assert((base + fs.take(j + 1)).drop_last() =~= base + fs.take(j as int));
            }
            if !holds_text(&r, f) {
                r.push(f.clone());
                proof {
                    assert(texts(r@) =~= distinct(base + fs.take(j as int)).push(f@));
                }
            }
        }
        proof {
            assert(fs.take(fs.len() as int) =~= fs);
        }
    }
    proof {
        assert(ints(ns@).take(ns@.len() as int) =~= ints(ns@));
    }
    r
}

/// `v`, stably sorted by lowercase text.
fn sort_texts(v: &Vec<String>) -> (r: Vec<String>)
    ensures
        texts(r@) == by_lowercase(texts(v@)),
{
    let mut keys: Vec<Vec<char>> = Vec::new();
    for k in 0..v.len()
        invariant
            keys@.len() == k,
            forall|j: int| 0 <= j < k ==> (#[trigger] keys@[j])@ == lower_of(v@[j]@),
    {
        keys.push(lower_chars(v[k].as_str()));
    }
    proof {
        assert(keys@.map_values(|k: Vec<char>| k@) =~= texts(v@).map_values(|f: Seq<char>| lower_of(f)));
    }
    let order = sort_order(&keys);
    let mut r: Vec<String> = Vec::new();
    for j in 0..order.len()
        invariant
            forall|m: int| 0 <= m < order@.len() ==> (#[trigger] order@[m]) < keys@.len(),
            keys@.len() == v@.len(),
            r@.len() == j,
            forall|m: int| 0 <= m < j ==> (#[trigger] r@[m])@ == v@[order@[m] as int]@,
    {
        r.push(v[order[j]].clone());
    }
    proof {
        let so = sorted_order(texts(v@).map_values(|f: Seq<char>| lower_of(f)), v@.len() as int);
        assert(order@.map_values(|i: usize| i as int) == so);
        assert forall|m: int| 0 <= m < r@.len() implies texts(r@)[m] == so.map_values(
            |i: int| texts(v@)[i],
        )[m] by {
            assert(so[m] == order@[m] as int);
        }
        assert(texts(r@) =~= by_lowercase(texts(v@)));
    }
    r
}

/// The nodes of `ns` with a location in file `f`.
fn nodes_in_file(graph: &Graph, ns: &Vec<usize>, f: &String) -> (r: Vec<usize>)
    requires
        forall|k: int| 0 <= k < ns@.len() ==> (#[trigger] ns@[k]) < graph@.nodes.len(),
    ensures
        ints(r@) == nodes_in(graph@, ints(ns@), f@),
        forall|k: int| 0 <= k < r@.len() ==> (#[trigger] r@[k]) < graph@.nodes.len(),
{
    let ghost g = graph@;
    let mut r: Vec<usize> = Vec::new();
    proof {
        assert(ints(r@) =~= nodes_in(g, ints(ns@).take(0), f@));
    }
    for i in 0..ns.len()
        invariant
            g == graph@,
            forall|k: int| 0 <= k < ns@.len() ==> (#[trigger] ns@[k]) < g.nodes.len(),
            ints(r@) == nodes_in(g, ints(ns@).take(i as int), f@),
            forall|k: int| 0 <= k < r@.len() ==> (#[trigger] r@[k]) < g.nodes.len(),
    {
        let v = ns[i];
        let node = graph.node(v);
        let mut found = false;
        for j in 0..node.location.len()
            invariant
                (v as int) < g.nodes.len(),
                node@ == g.nodes[v as int],
                found == exists|k: int|
                    0 <= k < j && #[trigger] g.nodes[v as int].locations[k].file == f@,
        {
            let same = node.location[j].file == *f;
            proof {
                assert(g.nodes[v as int].locations[j as int] == node.location@[j as int]@);
                assert(same == (g.nodes[v as int].locations[j as int].file == f@));
                if !same {
                    assert forall|k: int| 0 <= k < j + 1 && #[trigger] g.nodes[v as int].locations[k].file == f@ implies k < j by {}
                }
            }
            if same {
                found = true;
            }
        }
        proof {
            assert(ints(ns@).take(i + 1).drop_last() =~= ints(ns@).take(i as int));
            assert(ints(ns@).take(i + 1).last() == v as int);
            assert(found == in_file(g, v as int, f@));
        }
        if found {
            r.push(v);
        }
        proof {
            assert(ints(r@) =~= nodes_in(g, ints(ns@).take(i + 1), f@));
        }
    }
    proof {
        assert(ints(ns@).take(ns@.len() as int) =~= ints(ns@));
    }
    r
}

/// The nodes of `ns` with no location.
fn unknown_of(graph: &Graph, ns: &Vec<usize>) -> (r: Vec<usize>)
    requires
        forall|k: int| 0 <= k < ns@.len() ==> (#[trigger] ns@[k]) < graph@.nodes.len(),
    ensures
        ints(r@) == unknown_nodes(graph@, ints(ns@)),
        forall|k: int| 0 <= k < r@.len() ==> (#[trigger] r@[k]) < graph@.nodes.len(),
{
    let ghost g = graph@;
    let mut r: Vec<usize> = Vec::new();
    proof {
        assert(ints(r@) =~= unknown_nodes(g, ints(ns@).take(0)));
    }
    for i in 0..ns.len()
        invariant
            g == graph@,
            forall|k: int| 0 <= k < ns@.len() ==> (#[trigger] ns@[k]) < g.nodes.len(),
            ints(r@) == unknown_nodes(g, ints(ns@).take(i as int)),
            forall|k: int| 0 <= k < r@.len() ==> (#[trigger] r@[k]) < g.nodes.len(),
    {
        let v = ns[i];
        proof {
            assert(ints(ns@).take(i + 1).drop_last() =~= ints(ns@).take(i as int));
            assert(ints(ns@).take(i + 1).last() == v as int);
        }
        if graph.node(v).location.len() == 0 {
            r.push(v);
        }
        proof {
            assert(ints(r@) =~= unknown_nodes(g, ints(ns@).take(i + 1)));
        }
    }
    proof {
        assert(ints(ns@).take(ns@.len() as int) =~= ints(ns@));
    }
    r
}

/// The nodes of `ns` with a location.
fn known_of(graph: &Graph, ns: &Vec<usize>) -> (r: Vec<usize>)
    requires
        forall|k: int| 0 <= k < ns@.len() ==> (#[trigger] ns@[k]) < graph@.nodes.len(),
    ensures
        ints(r@) == known_only(graph@, ints(ns@)),
        forall|k: int| 0 <= k < r@.len() ==> (#[trigger] r@[k]) < graph@.nodes.len(),
{
    let ghost g = graph@;
    let mut r: Vec<usize> = Vec::new();
    proof {
        assert(ints(r@) =~= known_only(g, ints(ns@).take(0)));
    }
    for i in 0..ns.len()
        invariant
            g == graph@,
            forall|k: int| 0 <= k < ns@.len() ==> (#[trigger] ns@[k]) < g.nodes.len(),
            ints(r@) == known_only(g, ints(ns@).take(i as int)),
            forall|k: int| 0 <= k < r@.len() ==> (#[trigger] r@[k]) < g.nodes.len(),
    {
        let v = ns[i];
        proof {
            assert(ints(ns@).take(i + 1).drop_last() =~= ints(ns@).take(i as int));
            assert(ints(ns@).take(i + 1).last() == v as int);
        }
        if graph.node(v).location.len() > 0 {
            r.push(v);
        }
        proof {
            assert(ints(r@) =~= known_only(g, ints(ns@).take(i + 1)));
        }
    }
    proof {
        assert(ints(ns@).take(ns@.len() as int) =~= ints(ns@));
    }
    r
}

/// Appends the trees below the roots `ns`.
fn push_forest(
    s: &mut String,
    graph: &Graph,
    o: RenderOptions,
    adj: &Vec<Vec<usize>>,
    ns: &Vec<usize>,
)
    requires
        graph.wf(),
        adjacency_of(graph@, adj@),
        forall|k: int| 0 <= k < ns@.len() ==> (#[trigger] ns@[k]) < graph@.nodes.len(),
    ensures
        final(s)@ == old(s)@ + forest(graph@, o, ints(ns@), 0),
{
    let ghost start = s@;
    for k in 0..ns.len()
        invariant
            graph.wf(),
            adjacency_of(graph@, adj@),
            forall|m: int| 0 <= m < ns@.len() ==> (#[trigger] ns@[m]) < graph@.nodes.len(),
            s@ + forest(graph@, o, ints(ns@), k as int) == start + forest(graph@, o, ints(ns@), 0),
    {
        let mut end: Vec<bool> = Vec::new();
        end.push(k + 1 == ns.len());
        let mut path: Vec<usize> = Vec::new();
        let ghost before = s@;
        let t = node_to_text(graph, o, adj, ns[k], &mut end, &mut path);
        s.append(t.as_str());
        proof {
            assert(end@ =~= seq![k + 1 == ns@.len()]);
            assert(ints(path@) =~= Seq::<int>::empty());
            assert(ints(ns@)[k as int] == ns@[k as int] as int);
            assert(s@ + forest(graph@, o, ints(ns@), k + 1) =~= before + forest(
                graph@,
                o,
                ints(ns@),
                k as int,
            ));
        }
    }
    proof {
        assert(s@ + forest(graph@, o, ints(ns@), ns@.len() as int) =~= s@);
    }
}

/// Appends a group heading.
fn push_heading(s: &mut String, o: RenderOptions, t: &str, shade: Shade)
    ensures
        final(s)@ == old(s)@ + heading(o, t@, shade),
{
    if o.color && o.paint {
        let p = paint_text(t, shade);
        s.append(p.as_str());
    } else {
        s.append(t);
    }
}

/// `s` without a final line break.
fn chomp_exec(s: String) -> (r: String)
    ensures
        r@ == chomp(s@),
{
    let mut cs = crate::text::chars_of(s.as_str());
    let n = cs.len();
    if n > 0 && cs[n - 1] == '\n' {
        cs.truncate(n - 1);
        let mut r = String::new();
        push_chars(&mut r, &cs);
        proof {
            assert(r@ =~= chomp(s@));
        }
        r
    } else {
        s
    }
}

/// Renders a graph: the tree of each shown root grouped by file, or a digraph.
pub struct Display<'a> {
    graph: &'a Graph,
    patterns: Vec<NamePattern>,
    rejected: Vec<String>,
    options: RenderOptions,
}

impl<'a> Display<'a> {
    /// The graph shown.
    pub closed spec fn shown(&self) -> GraphView {
        self.graph@
    }

    /// The texts of the valid patterns.
    pub closed spec fn pattern_texts(&self) -> Seq<Seq<char>> {
        self.patterns@.map_values(|p: NamePattern| p.text())
    }

    /// How the graph is shown.
    pub closed spec fn options(&self) -> RenderOptions {
        self.options
    }

    /// The graph shown is well formed.
    pub closed spec fn wf(&self) -> bool {
        self.graph.wf()
    }

    /// A renderer of `graph`; of `patterns`, the valid ones filter the names
    /// shown and the invalid ones are set aside.
    pub fn new(
        graph: &'a Graph,
        patterns: &Vec<String>,
        succinct: bool,
        color: bool,
        paint: bool,
        max_depth: i32,
        ignore_unknown: bool,
        sort_children: bool,
    ) -> (r: Display<'a>)
        requires
            graph.wf(),
        ensures
            r.wf(),
            r.shown() == graph@,
            r.pattern_texts() == valid_only(texts(patterns@)),
            texts(r.rejected_view()) == invalid_only(texts(patterns@)),
            r.options() == (RenderOptions {
                succinct,
                color,
                paint,
                max_depth,
                ignore_unknown,
                sort_children,
            }),
    {
        let mut compiled: Vec<NamePattern> = Vec::new();
        let mut rejected: Vec<String> = Vec::new();
        for k in 0..patterns.len()
            invariant
                compiled@.map_values(|p: NamePattern| p.text()) == valid_only(
                    texts(patterns@).take(k as int),
                ),
                texts(rejected@) == invalid_only(texts(patterns@).take(k as int)),
        {
            proof {
                assert(texts(patterns@).take(k + 1).drop_last() =~= texts(patterns@).take(k as int));
                assert(texts(patterns@).take(k + 1).last() == patterns@[k as int]@);
            }
            let ghost before = compiled@;
            match NamePattern::compile(&patterns[k]) {
                Some(p) => {
                    compiled.push(p);
                    proof {
                        assert(compiled@.map_values(|p: NamePattern| p.text()) =~= before.map_values(
                            |p: NamePattern| p.text(),
                        ).push(patterns@[k as int]@));
                    }
                },
                None => {
                    rejected.push(patterns[k].clone());
                    proof {
                        assert(texts(rejected@) =~= invalid_only(texts(patterns@).take(k as int)).push(
                            patterns@[k as int]@,
                        ));
                    }
                },
            }
        }
        proof {
            assert(texts(patterns@).take(patterns@.len() as int) =~= texts(patterns@));
        }
        Display {
            graph,
            patterns: compiled,
            rejected,
            options: RenderOptions { succinct, color, paint, max_depth, ignore_unknown, sort_children },
        }
    }

    /// The patterns that were set aside as invalid.
    pub closed spec fn rejected_view(&self) -> Seq<String> {
        self.rejected@
    }

    /// The patterns that were set aside as invalid.
    pub fn rejected_patterns(&self) -> (r: &Vec<String>)
        ensures
            r@ == self.rejected_view(),
    {
        &self.rejected
    }

    /// The roots to show: in succinct mode with no pattern, a covering set;
    /// otherwise every node.
    fn filter_root_nodes(&self) -> (r: Vec<usize>)
        requires
            self.wf(),
        ensures
            forall|k: int| 0 <= k < r@.len() ==> (#[trigger] r@[k]) < self.shown().nodes.len(),
            self.options().succinct && self.pattern_texts().len() == 0 ==> succinct_roots(
                self.shown(),
                ints(r@),
            ),
            !(self.options().succinct && self.pattern_texts().len() == 0) ==> ints(r@) == all_nodes(
                self.shown().nodes.len() as int,
            ),
    {
        if self.options.succinct && self.patterns.len() == 0 {
            select_roots(self.graph)
        } else {
            let n = self.graph.len();
            let mut r: Vec<usize> = Vec::new();
            for i in 0..n
                invariant
                    n == self.shown().nodes.len(),
                    r@.len() == i,
                    forall|k: int| 0 <= k < i ==> (#[trigger] r@[k]) == k,
            {
                r.push(i);
            }
            proof {
                assert(ints(r@) =~= all_nodes(n as int));
            }
            r
        }
    }

    /// The nodes of `nodes` whose name some pattern matches (all where there is
    /// no pattern).
    fn filter_nodes(&self, nodes: &Vec<usize>) -> (r: Vec<usize>)
        requires
            self.wf(),
            forall|k: int| 0 <= k < nodes@.len() ==> (#[trigger] nodes@[k]) < self.shown().nodes.len(),
        ensures
            ints(r@) == matching(self.shown(), self.pattern_texts(), ints(nodes@)),
            forall|k: int| 0 <= k < r@.len() ==> (#[trigger] r@[k]) < self.shown().nodes.len(),
    {
        let ghost g = self.shown();
        let ghost ps = self.pattern_texts();
        let mut r: Vec<usize> = Vec::new();
        proof {
            assert(ints(r@) =~= matching(g, ps, ints(nodes@).take(0)));
        }
        for i in 0..nodes.len()
            invariant
                g == self.shown(),
                ps == self.pattern_texts(),
                self.wf(),
                forall|k: int| 0 <= k < nodes@.len() ==> (#[trigger] nodes@[k]) < g.nodes.len(),
                ints(r@) == matching(g, ps, ints(nodes@).take(i as int)),
                forall|k: int| 0 <= k < r@.len() ==> (#[trigger] r@[k]) < g.nodes.len(),
        {
            let v = nodes[i];
            let name = &self.graph.node(v).name;
            let mut keep = self.patterns.len() == 0;
            for j in 0..self.patterns.len()
                invariant
                    ps == self.pattern_texts(),
                    ps.len() == self.patterns@.len(),
                    keep == (ps.len() == 0 || exists|m: int| 0 <= m < j && #[trigger] pattern_matches(ps[m], name@)),
            {
                proof {
                    assert(ps[j as int] == self.patterns@[j as int].text());
                }
                if self.patterns[j].is_match(name.as_str()) {
                    keep = true;
                }
            }
            proof {
                assert(ints(nodes@).take(i + 1).drop_last() =~= ints(nodes@).take(i as int));
                assert(ints(nodes@).take(i + 1).last() == v as int);
                assert(keep == kept_by(ps, g.nodes[v as int].name));
            }
            if keep {
                r.push(v);
            }
            proof {
                assert(ints(r@) =~= matching(g, ps, ints(nodes@).take(i + 1)));
            }
        }
        proof {
            assert(ints(nodes@).take(nodes@.len() as int) =~= ints(nodes@));
        }
        r
    }
}


/// Appends the statements of node `u`.
fn push_node_dot(s: &mut String, graph: &Graph, o: RenderOptions, adj: &Vec<Vec<usize>>, u: usize)
    requires
        graph.wf(),
        adjacency_of(graph@, adj@),
        u < graph@.nodes.len(),
    ensures
        final(s)@ == old(s)@ + node_dot(graph@, o, u as int),
{
    let ghost g = graph@;
    let ghost start = s@;
    let name = &graph.node(u).name;
    push_char(s, '"');
    s.append(name.as_str());
    push_char(s, '"');
    push_char(s, ';');
    let ghost head = s@;
    proof {
        assert(head =~= start + quoted(g.nodes[u as int].name) + seq![';']);
    }
    if o.max_depth != 0 {
        let succ = &adj[u];
        proof {
            assert(ints(succ@) =~= succ@.map_values(|x: usize| x as int));
            assert forall|k: int| 0 <= k < succ@.len() implies (#[trigger] succ@[k]) < g.nodes.len() by {
                assert(successors(g, u as int).contains(succ@[k] as int)) by {
                    assert(ints(succ@)[k] == succ@[k] as int);
                }
                crate::roots::lemma_successor_edge(g.edges, u as int, succ@[k] as int);
                let e = choose|e: int| 0 <= e < g.edges.len() && g.edges[e] == (u as int, succ@[k] as int);
                assert(g.edges[e].1 < g.nodes.len());
            }
        }
        for k in 0..succ.len()
            invariant
                g == graph@,
                u < g.nodes.len(),
                name@ == g.nodes[u as int].name,
                ints(succ@) == successors(g, u as int),
                forall|m: int| 0 <= m < succ@.len() ==> (#[trigger] succ@[m]) < g.nodes.len(),
                s@ + edges_dot(g, o, u as int, ints(succ@), k as int) == head + edges_dot(
                    g,
                    o,
                    u as int,
                    ints(succ@),
                    0,
                ),
        {
            let v = succ[k];
            let target = graph.node(v);
            let ghost before = s@;
            if !o.ignore_unknown || target.location.len() > 0 {
                push_char(s, '"');
                s.append(name.as_str());
                push_char(s, '"');
                push_char(s, '-');
                push_char(s, '>');
                push_char(s, '"');
                s.append(target.name.as_str());
                push_char(s, '"');
                push_char(s, ';');
            }
            proof {
                assert(ints(succ@)[k as int] == v as int);
                assert(s@ + edges_dot(g, o, u as int, ints(succ@), k + 1) =~= before + edges_dot(
                    g,
                    o,
                    u as int,
                    ints(succ@),
                    k as int,
                ));
            }
        }
        proof {
            assert(s@ + edges_dot(g, o, u as int, ints(succ@), succ@.len() as int) =~= s@);
            assert(s@ =~= start + node_dot(g, o, u as int));
        }
    } else {
        proof {
            assert(s@ =~= start + node_dot(g, o, u as int));
        }
    }
}

/// Appends the statements of the nodes `ns`.
fn push_nodes_dot(
    s: &mut String,
    graph: &Graph,
    o: RenderOptions,
    adj: &Vec<Vec<usize>>,
    ns: &Vec<usize>,
)
    requires
        graph.wf(),
        adjacency_of(graph@, adj@),
        forall|k: int| 0 <= k < ns@.len() ==> (#[trigger] ns@[k]) < graph@.nodes.len(),
    ensures
        final(s)@ == old(s)@ + nodes_dot(graph@, o, ints(ns@), 0),
{
    let ghost start = s@;
    for k in 0..ns.len()
        invariant
            graph.wf(),
            adjacency_of(graph@, adj@),
            forall|m: int| 0 <= m < ns@.len() ==> (#[trigger] ns@[m]) < graph@.nodes.len(),
            s@ + nodes_dot(graph@, o, ints(ns@), k as int) == start + nodes_dot(graph@, o, ints(ns@), 0),
    {
        let ghost before = s@;
        push_node_dot(s, graph, o, adj, ns[k]);
        proof {
            assert(ints(ns@)[k as int] == ns@[k as int] as int);
            assert(s@ + nodes_dot(graph@, o, ints(ns@), k + 1) =~= before + nodes_dot(
                graph@,
                o,
                ints(ns@),
                k as int,
            ));
        }
    }
    proof {
        assert(s@ + nodes_dot(graph@, o, ints(ns@), ns@.len() as int) =~= s@);
    }
}

impl<'a> Display<'a> {
    /// The shown nodes: the roots to show, then those the patterns keep.
    fn shown_nodes(&self) -> (r: Vec<usize>)
        requires
            self.wf(),
        ensures
            forall|k: int| 0 <= k < r@.len() ==> (#[trigger] r@[k]) < self.shown().nodes.len(),
            self.options().succinct && self.pattern_texts().len() == 0 ==> exists|roots: Seq<int>|
                succinct_roots(self.shown(), roots) && ints(r@) == matching(
                    self.shown(),
                    self.pattern_texts(),
                    roots,
                ),
            !(self.options().succinct && self.pattern_texts().len() == 0) ==> ints(r@) == matching(
                self.shown(),
                self.pattern_texts(),
                all_nodes(self.shown().nodes.len() as int),
            ),
    {
        let roots = self.filter_root_nodes();
        let r = self.filter_nodes(&roots);
        proof {
            if self.options().succinct && self.pattern_texts().len() == 0 {
                assert(succinct_roots(self.shown(), ints(roots@)) && ints(r@) == matching(
                    self.shown(),
                    self.pattern_texts(),
                    ints(roots@),
                ));
            }
        }
        r
    }

    /// The text tree: for each file, in case-insensitive order, the trees of
    /// the shown nodes located there, sorted by name; then the nodes with no
    /// location, unless they are left out.
    pub fn to_text(&self) -> (r: String)
        requires
            self.wf(),
        ensures
            self.options().succinct && self.pattern_texts().len() == 0 ==> exists|roots: Seq<int>|
                succinct_roots(self.shown(), roots) && r@ == forest_text(
                    self.shown(),
                    self.options(),
                    matching(self.shown(), self.pattern_texts(), roots),
                ),
            !(self.options().succinct && self.pattern_texts().len() == 0) ==> r@ == forest_text(
                self.shown(),
                self.options(),
                matching(
                    self.shown(),
                    self.pattern_texts(),
                    all_nodes(self.shown().nodes.len() as int),
                ),
            ),
    {
        let ghost g = self.shown();
        let o = self.options;
        let ns = self.shown_nodes();
        let adj = self.graph.adjacency();
        let files = sort_texts(&distinct_files(self.graph, &ns));
        let ghost fs = texts(files@);
        let mut text = String::new();
        proof {
            assert(text@ + file_groups(g, o, ints(ns@), fs, 0) =~= file_groups(g, o, ints(ns@), fs, 0));
        }
        for k in 0..files.len()
            invariant
                g == self.shown(),
                self.wf(),
                o == self.options(),
                adjacency_of(g, adj@),
                fs == texts(files@),
                forall|m: int| 0 <= m < ns@.len() ==> (#[trigger] ns@[m]) < g.nodes.len(),
                text@ + file_groups(g, o, ints(ns@), fs, k as int) == file_groups(
                    g,
                    o,
                    ints(ns@),
                    fs,
                    0,
                ),
        {
            let ghost before = text@;
            let here = nodes_in_file(self.graph, &ns, &files[k]);
            let group = order_by_name(self.graph, &here);
            if group.len() > 0 {
                push_heading(&mut text, o, files[k].as_str(), Shade::LightMagenta);
                push_char(&mut text, '\n');
                push_forest(&mut text, self.graph, o, &adj, &group);
                push_char(&mut text, '\n');
            }
            proof {
                assert(fs[k as int] == files@[k as int]@);
                assert(text@ + file_groups(g, o, ints(ns@), fs, k + 1) =~= before + file_groups(
                    g,
                    o,
                    ints(ns@),
                    fs,
                    k as int,
                ));
            }
        }
        proof {
            assert(text@ + file_groups(g, o, ints(ns@), fs, files@.len() as int) =~= text@);
        }
        let ghost before_unknown = text@;
        let unknown = order_by_name(self.graph, &unknown_of(self.graph, &ns));
        if !o.ignore_unknown && unknown.len() > 0 {
            push_heading(&mut text, o, "unknown", Shade::LightYellow);
            push_char(&mut text, '\n');
            push_forest(&mut text, self.graph, o, &adj, &unknown);
        }
        proof {
            assert(text@ =~= before_unknown + unknown_group(g, o, ints(ns@)));
        }
        let r = chomp_exec(text);
        proof {
            if o.succinct && self.pattern_texts().len() == 0 {
                let roots = choose|roots: Seq<int>|
                    succinct_roots(g, roots) && ints(ns@) == matching(g, self.pattern_texts(), roots);
                assert(succinct_roots(g, roots) && r@ == forest_text(
                    g,
                    o,
                    matching(g, self.pattern_texts(), roots),
                ));
            }
        }
        r
    }

    /// The digraph: for each file the statements of the shown nodes located
    /// there, sorted by name; then those of the nodes with no location, unless
    /// they are left out. A depth of 0 leaves out every edge.
    pub fn to_dot(&self) -> (r: String)
        requires
            self.wf(),
        ensures
            self.options().succinct && self.pattern_texts().len() == 0 ==> exists|roots: Seq<int>|
                succinct_roots(self.shown(), roots) && r@ == dot_text(
                    self.shown(),
                    self.options(),
                    matching(self.shown(), self.pattern_texts(), roots),
                ),
            !(self.options().succinct && self.pattern_texts().len() == 0) ==> r@ == dot_text(
                self.shown(),
                self.options(),
                matching(
                    self.shown(),
                    self.pattern_texts(),
                    all_nodes(self.shown().nodes.len() as int),
                ),
            ),
    {
        let ghost g = self.shown();
        let o = self.options;
        let ns = self.shown_nodes();
        let adj = self.graph.adjacency();
        let listed = if o.ignore_unknown {
            known_of(self.graph, &ns)
        } else {
            ns.clone()
        };
        let ordered = order_by_name(self.graph, &listed);
        let mut text = String::from_str(
            "digraph g {\nnode [margin=0,width=.5,height=.2];edge [arrowsize=.5,arrowhead=vee];\n",
        );
        push_nodes_dot(&mut text, self.graph, o, &adj, &ordered);
        text.append("}\n");
        proof {
            assert(text@ =~= dot_text(g, o, ints(ns@)));
            if o.succinct && self.pattern_texts().len() == 0 {
                let roots = choose|roots: Seq<int>|
                    succinct_roots(g, roots) && ints(ns@) == matching(g, self.pattern_texts(), roots);
                assert(succinct_roots(g, roots) && text@ == dot_text(
                    g,
                    o,
                    matching(g, self.pattern_texts(), roots),
                ));
            }
        }
        text
    }
}

} // verus!
