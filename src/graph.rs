//! A directed graph whose node identity is the canonical name.
use crate::node::{merged, Node, NodeView};
use vstd::prelude::*;
use vstd::string::*;

verus! {

/// What a graph is: its nodes, and its edges in discovery order as pairs of
/// node positions (duplicates are kept: each one is a separate call site or
/// base clause entry).
pub ghost struct GraphView {
    pub nodes: Seq<NodeView>,
    pub edges: Seq<(int, int)>,
}

/// No two nodes share a name.
pub open spec fn unique_names(g: GraphView) -> bool {
    forall|i: int, j: int|
        0 <= i < g.nodes.len() && 0 <= j < g.nodes.len() && i != j ==> g.nodes[i].name
            != g.nodes[j].name
}

/// Every edge joins two nodes of the graph: no edge dangles.
pub open spec fn no_dangling_edges(g: GraphView) -> bool {
    forall|k: int|
        #![trigger g.edges[k]]
        0 <= k < g.edges.len() ==> 0 <= g.edges[k].0 < g.nodes.len() && 0 <= g.edges[k].1
            < g.nodes.len()
}

/// The graph invariant: names are unique and no edge dangles.
pub open spec fn well_formed(g: GraphView) -> bool {
    unique_names(g) && no_dangling_edges(g)
}

/// Whether a node of `g` is named `name`.
pub open spec fn has_name(g: GraphView, name: Seq<char>) -> bool {
    exists|i: int| 0 <= i < g.nodes.len() && #[trigger] g.nodes[i].name == name
}

/// The position of the node named `name`.
pub open spec fn name_index(g: GraphView, name: Seq<char>) -> int {
    choose|i: int| 0 <= i < g.nodes.len() && #[trigger] g.nodes[i].name == name
}

/// `g` after `u` has been registered: a new name adds the node, a known one
/// gains `u`'s locations.
pub open spec fn registered(g: GraphView, u: NodeView) -> GraphView {
    if has_name(g, u.name) {
        let i = name_index(g, u.name);
        GraphView { nodes: g.nodes.update(i, merged(g.nodes[i], u)), ..g }
    } else {
        GraphView { nodes: g.nodes.push(u), ..g }
    }
}

/// `g` after each of `us` has been registered, in order.
pub open spec fn registered_all(g: GraphView, us: Seq<NodeView>) -> GraphView
    decreases us.len(),
{
    if us.len() == 0 {
        g
    } else {
        registered(registered_all(g, us.drop_last()), us.last())
    }
}

/// `g` after an edge from the node named `u` to the node named `v` has been
/// appended: `v` comes last in `u`'s adjacency list.
pub open spec fn with_edge(g: GraphView, u: Seq<char>, v: Seq<char>) -> GraphView {
    GraphView { edges: g.edges.push((name_index(g, u), name_index(g, v))), ..g }
}

/// The edge `e` pointing the other way.
pub open spec fn flipped(e: (int, int)) -> (int, int) {
    (e.1, e.0)
}

/// `g` with every edge pointing the other way.
pub open spec fn reversed(g: GraphView) -> GraphView {
    GraphView { nodes: g.nodes, edges: g.edges.map_values(|e: (int, int)| flipped(e)) }
}

/// The targets of the edges out of `u` among `edges`, in order.
pub open spec fn successors_in(edges: Seq<(int, int)>, u: int) -> Seq<int>
    decreases edges.len(),
{
    if edges.len() == 0 {
        Seq::empty()
    } else {
        let before = successors_in(edges.drop_last(), u);
        if edges.last().0 == u {
            before.push(edges.last().1)
        } else {
            before
        }
    }
}

/// The targets of the edges out of node `u` of `g`, in discovery order.
pub open spec fn successors(g: GraphView, u: int) -> Seq<int> {
    successors_in(g.edges, u)
}

/// A directed graph. Nodes are identified by their canonical name; edges
/// keep their discovery order and their multiplicity.
pub struct Graph {
    nodes: Vec<Node>,
    edges: Vec<(usize, usize)>,
}

impl View for Graph {
    type V = GraphView;

    closed spec fn view(&self) -> GraphView {
        GraphView {
            nodes: self.nodes@.map_values(|n: Node| n@),
            edges: self.edges@.map_values(|e: (usize, usize)| (e.0 as int, e.1 as int)),
        }
    }
}

impl Graph {
    /// The graph's invariant, which every constructor establishes and every
    /// method keeps.
    pub open spec fn wf(&self) -> bool {
        well_formed(self@)
    }

    pub fn new() -> (r: Self)
        ensures
            r@.nodes == Seq::<NodeView>::empty(),
            r@.edges == Seq::<(int, int)>::empty(),
            well_formed(r@),
    {
        let r = Graph { nodes: Vec::new(), edges: Vec::new() };
        proof {
            assert(r@.nodes =~= Seq::<NodeView>::empty());
            assert(r@.edges =~= Seq::<(int, int)>::empty());
        }
        r
    }

    /// The number of nodes.
    pub fn len(&self) -> (r: usize)
        requires
            self.wf(),
        ensures
            r == self@.nodes.len(),
    {
        self.nodes.len()
    }

    /// The node at position `i`.
    pub fn node(&self, i: usize) -> (r: &Node)
        requires
            i < self@.nodes.len(),
        ensures
            r@ == self@.nodes[i as int],
    {
        &self.nodes[i]
    }

    /// The edges, as pairs of node positions in discovery order.
    pub fn edge_list(&self) -> (r: &Vec<(usize, usize)>)
        ensures
            r@.len() == self@.edges.len(),
            forall|k: int|
                0 <= k < r@.len() ==> (r@[k].0 as int, r@[k].1 as int) == #[trigger] self@.edges[k],
    {
        &self.edges
    }

    /// The position of the node named `name`, if there is one.
    pub fn find(&self, name: &str) -> (r: Option<usize>)
        requires
            self.wf(),
        ensures
            r is Some <==> has_name(self@, name@),
            r is Some ==> r->0 == name_index(self@, name@) && r->0 < self@.nodes.len(),
    {
        let key = String::from_str(name);
        let mut i: usize = 0;
        while i < self.nodes.len()
            invariant
                0 <= i <= self.nodes.len(),
                key@ == name@,
                well_formed(self@),
                forall|k: int| 0 <= k < i ==> self@.nodes[k].name != name@,
            decreases self.nodes.len() - i,
        {
            if self.nodes[i].name == key {
                proof {
                    assert(self@.nodes[i as int].name == name@);
                    let j = name_index(self@, name@);
                    assert(self@.nodes[j].name == name@);
                }
                return Some(i);
            }
            i = i + 1;
        }
        proof {
            assert forall|k: int| 0 <= k < self@.nodes.len() implies #[trigger] self@.nodes[k].name
                != name@ by {}
        }
        None
    }

    /// Registers `u`: a new name adds it; a known name gains its locations.
    pub fn add_node(&mut self, u: &Node)
        requires
            old(self).wf(),
        ensures
            final(self)@ == registered(old(self)@, u@),
            well_formed(final(self)@),
    {
        let ghost g = self@;
        match self.find(u.name.as_str()) {
            None => {
                let c = u.clone();
                self.nodes.push(c);
                proof {
                    assert(self@.nodes =~= g.nodes.push(u@));
                    assert(self@.edges =~= g.edges);
                }
            },
            Some(i) => {
                let mut n = self.nodes[i].clone();
                n.merge_node(u);
                self.nodes.set(i, n);
                proof {
                    assert(self@.nodes =~= g.nodes.update(i as int, merged(g.nodes[i as int], u@)));
                    assert(self@.edges =~= g.edges);
                }
            },
        }
    }

    /// The node named `name`.
    pub fn get_node(&self, name: &str) -> (r: Option<&Node>)
        requires
            self.wf(),
        ensures
            r is Some <==> has_name(self@, name@),
            r is Some ==> r->0@ == self@.nodes[name_index(self@, name@)],
    {
        match self.find(name) {
            Some(i) => Some(&self.nodes[i]),
            None => None,
        }
    }

    /// Appends an edge from `u` to `v`, both found by name; both must be
    /// nodes of the graph, so that no edge dangles.
    pub fn add_edge(&mut self, u: &Node, v: &Node)
        requires
            old(self).wf(),
            has_name(old(self)@, u@.name),
            has_name(old(self)@, v@.name),
        ensures
            final(self)@ == with_edge(old(self)@, u@.name, v@.name),
            well_formed(final(self)@),
    {
        let iu = self.find(u.name.as_str());
        let iv = self.find(v.name.as_str());
        let a = iu.unwrap();
        let b = iv.unwrap();
        self.add_edge_at(a, b);
    }

    /// Adds an edge between the nodes at positions `a` and `b`.
    pub fn add_edge_at(&mut self, a: usize, b: usize)
        requires
            old(self).wf(),
            a < old(self)@.nodes.len(),
            b < old(self)@.nodes.len(),
        ensures
            final(self)@ == (GraphView {
                edges: old(self)@.edges.push((a as int, b as int)),
                ..old(self)@
            }),
            well_formed(final(self)@),
    {
        let ghost g = self@;
        self.edges.push((a, b));
        proof {
            assert(self@.edges =~= g.edges.push((a as int, b as int)));
            assert(self@.nodes =~= g.nodes);
        }
    }

    /// A graph with the same nodes and every edge pointing the other way.
    pub fn reverse(&self) -> (r: Self)
        requires
            self.wf(),
        ensures
            r@ == reversed(self@),
            well_formed(r@),
    {
        let mut nodes: Vec<Node> = Vec::new();
        for i in 0..self.nodes.len()
            invariant
                nodes@.len() == i,
                forall|k: int| 0 <= k < i ==> #[trigger] nodes@[k]@ == self.nodes@[k]@,
        {
            nodes.push(self.nodes[i].clone());
        }
        let mut edges: Vec<(usize, usize)> = Vec::new();
        for k in 0..self.edges.len()
            invariant
                edges@.len() == k,
                forall|j: int|
                    0 <= j < k ==> #[trigger] edges@[j] == (self.edges@[j].1, self.edges@[j].0),
        {
            edges.push((self.edges[k].1, self.edges[k].0));
        }
        let r = Graph { nodes, edges };
        proof {
            assert(r@.nodes =~= self@.nodes);
            assert(r@.edges =~= reversed(self@).edges);
        }
        r
    }

    /// For each node position, the targets of its out-edges in discovery order.
    pub fn adjacency(&self) -> (r: Vec<Vec<usize>>)
        requires
            self.wf(),
        ensures
            r@.len() == self@.nodes.len(),
            forall|u: int|
                0 <= u < r@.len() ==> (#[trigger] r@[u])@.map_values(|x: usize| x as int)
                    == successors(self@, u),
    {
        let n = self.nodes.len();
        let mut r: Vec<Vec<usize>> = Vec::new();
        for i in 0..n
            invariant
                n == self@.nodes.len(),
                r@.len() == i,
                forall|u: int| 0 <= u < i ==> (#[trigger] r@[u])@ == Seq::<usize>::empty(),
        {
            r.push(Vec::new());
        }
        let ghost es = self@.edges;
        proof {
            assert forall|u: int| 0 <= u < r@.len() implies (#[trigger] r@[u])@.map_values(
                |x: usize| x as int,
            ) == successors_in(es.take(0), u) by {
                assert(es.take(0).len() == 0);
                assert(r@[u]@.map_values(|x: usize| x as int) =~= Seq::<int>::empty());
            }
        }
        for k in 0..self.edges.len()
            invariant
                n == self@.nodes.len(),
                es == self@.edges,
                well_formed(self@),
                r@.len() == n,
                forall|u: int|
                    0 <= u < r@.len() ==> (#[trigger] r@[u])@.map_values(|x: usize| x as int)
                        == successors_in(es.take(k as int), u),
        {
            let (a, b) = self.edges[k];
            proof {
                assert(es[k as int] == (a as int, b as int));
                assert(es.take(k + 1).drop_last() =~= es.take(k as int));
                assert(es.take(k + 1).last() == es[k as int]);
            }
            let ghost before = r@;
            let mut row = Vec::new();
            std::mem::swap(&mut row, &mut r[a]);
            row.push(b);
            r.set(a, row);
            proof {
                assert forall|u: int| 0 <= u < r@.len() implies (#[trigger] r@[u])@.map_values(
                    |x: usize| x as int,
                ) == successors_in(es.take(k + 1), u) by {
                    if u == a {
                        assert(r@[u]@ =~= before[u]@.push(b));
                        assert(r@[u]@.map_values(|x: usize| x as int) =~= before[u]@.map_values(
                            |x: usize| x as int,
                        ).push(b as int));
                    } else {
                        assert(r@[u] == before[u]);
                    }
                }
            }
        }
        proof {
            assert(es.take(es.len() as int) =~= es);
        }
        r
    }
}

/// Registering nodes that share a name never loses a location: the node
/// named `name` ends with as many locations as it had, plus those of every
/// registration under that name.
pub proof fn lemma_registrations_keep_locations(
    g: GraphView,
    us: Seq<NodeView>,
    name: Seq<char>,
)
    requires
        well_formed(g),
        forall|k: int| 0 <= k < us.len() ==> (#[trigger] us[k]).name == name,
    ensures
        well_formed(registered_all(g, us)),
        us.len() > 0 ==> has_name(registered_all(g, us), name),
        has_name(registered_all(g, us), name) ==> registered_all(g, us).nodes[name_index(
            registered_all(g, us),
            name,
        )].locations.len() == (if has_name(g, name) {
            g.nodes[name_index(g, name)].locations.len() as int
        } else {
            0int
        }) + location_total(us),
    decreases us.len(),
{
    if us.len() > 0 {
        let before = registered_all(g, us.drop_last());
        lemma_registrations_keep_locations(g, us.drop_last(), name);
        lemma_registered_well_formed(before, us.last());
        assert(us.last().name == name);
        if us.drop_last().len() == 0 {
            assert(before == g);
            assert(location_total(us.drop_last()) == 0);
        }
    }
}

/// The number of locations that `us` carry, all together.
pub open spec fn location_total(us: Seq<NodeView>) -> int
    decreases us.len(),
{
    if us.len() == 0 {
        0
    } else {
        location_total(us.drop_last()) + us.last().locations.len()
    }
}

/// Registering a node keeps a graph well formed and makes its name known;
/// the node under that name gains exactly the registered locations.
pub proof fn lemma_registered_well_formed(g: GraphView, u: NodeView)
    requires
        well_formed(g),
    ensures
        well_formed(registered(g, u)),
        has_name(registered(g, u), u.name),
        registered(g, u).nodes[name_index(registered(g, u), u.name)].locations.len() == (if has_name(
            g,
            u.name,
        ) {
            g.nodes[name_index(g, u.name)].locations.len() as int
        } else {
            0int
        }) + u.locations.len(),
        forall|n: Seq<char>| n != u.name ==> (has_name(registered(g, u), n) <==> has_name(g, n)),
        forall|n: Seq<char>|
            n != u.name && has_name(g, n) ==> #[trigger] registered(g, u).nodes[name_index(
                registered(g, u),
                n,
            )] == g.nodes[name_index(g, n)],
{
    let r = registered(g, u);
    if has_name(g, u.name) {
        let i = name_index(g, u.name);
        assert(g.nodes[i].name == u.name);
        assert(r.nodes[i].name == u.name);
        let j = name_index(r, u.name);
        assert(r.nodes[j].name == u.name);
        assert(j == i);
        assert forall|n: Seq<char>| n != u.name && has_name(g, n) implies #[trigger] r.nodes[name_index(
            r,
            n,
        )] == g.nodes[name_index(g, n)] by {
            let a = name_index(g, n);
            assert(r.nodes[a].name == n);
            let b = name_index(r, n);
            assert(r.nodes[b].name == n);
        }
        assert forall|n: Seq<char>| n != u.name implies (has_name(r, n) <==> has_name(g, n)) by {
            if has_name(r, n) {
                let b = name_index(r, n);
                assert(r.nodes[b].name == n);
                assert(g.nodes[b].name == n);
            }
            if has_name(g, n) {
                let a = name_index(g, n);
                assert(r.nodes[a].name == n);
            }
        }
    } else {
        let i = g.nodes.len() as int;
        assert(r.nodes[i].name == u.name);
        let j = name_index(r, u.name);
        assert(r.nodes[j].name == u.name);
        assert(j == i);
        assert forall|n: Seq<char>| n != u.name && has_name(g, n) implies #[trigger] r.nodes[name_index(
            r,
            n,
        )] == g.nodes[name_index(g, n)] by {
            let a = name_index(g, n);
            assert(r.nodes[a].name == n);
            let b = name_index(r, n);
            assert(r.nodes[b].name == n);
        }
        assert forall|n: Seq<char>| n != u.name implies (has_name(r, n) <==> has_name(g, n)) by {
            if has_name(r, n) {
                let b = name_index(r, n);
                assert(r.nodes[b].name == n);
                assert(g.nodes[b].name == n);
            }
            if has_name(g, n) {
                let a = name_index(g, n);
                assert(r.nodes[a].name == n);
            }
        }
    }
}

/// Reversing twice gives back the same graph, so in particular the same
/// multiset of edges.
pub proof fn lemma_reverse_twice(g: GraphView)
    ensures
        reversed(reversed(g)) == g,
        reversed(reversed(g)).edges.to_multiset() == g.edges.to_multiset(),
{
    assert(reversed(reversed(g)).edges =~= g.edges);
}


/// `b` is `a` with only location-less nodes added and edges appended: every
/// node of `a` is unchanged and keeps its position, and the edges of `a`
/// come first, in order.
pub open spec fn grows_by_placeholders(a: GraphView, b: GraphView) -> bool {
    &&& a.nodes.len() <= b.nodes.len()
    &&& forall|i: int| 0 <= i < a.nodes.len() ==> #[trigger] b.nodes[i] == a.nodes[i]
    &&& forall|i: int|
        a.nodes.len() <= i < b.nodes.len() ==> (#[trigger] b.nodes[i]).locations.len() == 0
    &&& a.edges.len() <= b.edges.len()
    &&& b.edges.take(a.edges.len() as int) == a.edges
}

/// Growing by placeholders twice is growing by placeholders.
pub proof fn lemma_grows_trans(a: GraphView, b: GraphView, c: GraphView)
    requires
        grows_by_placeholders(a, b),
        grows_by_placeholders(b, c),
    ensures
        grows_by_placeholders(a, c),
{
    assert forall|i: int| 0 <= i < a.nodes.len() implies #[trigger] c.nodes[i] == a.nodes[i] by {
        assert(c.nodes[i] == b.nodes[i]);
    }
    assert forall|i: int| a.nodes.len() <= i < c.nodes.len() implies (
    #[trigger] c.nodes[i]).locations.len() == 0 by {
        if i < b.nodes.len() {
            assert(c.nodes[i] == b.nodes[i]);
        }
    }
    assert(c.edges.take(a.edges.len() as int) =~= c.edges.take(b.edges.len() as int).take(
        a.edges.len() as int,
    ));
}

/// Registering a node without location, or appending an edge, grows a graph
/// by placeholders only.
pub proof fn lemma_placeholder_grows(g: GraphView, u: NodeView, e: (int, int))
    requires
        u.locations.len() == 0,
    ensures
        grows_by_placeholders(g, registered(g, u)),
        grows_by_placeholders(g, GraphView { edges: g.edges.push(e), ..g }),
        grows_by_placeholders(g, g),
{
    let r = registered(g, u);
    if has_name(g, u.name) {
        let i = name_index(g, u.name);
        assert(merged(g.nodes[i], u).locations =~= g.nodes[i].locations);
        assert(merged(g.nodes[i], u) == g.nodes[i]);
        assert(r.nodes =~= g.nodes);
    }
    assert(r.edges.take(g.edges.len() as int) =~= g.edges);
    assert(g.edges.push(e).take(g.edges.len() as int) =~= g.edges);
    assert(g.edges.take(g.edges.len() as int) =~= g.edges);
}

} // verus!
