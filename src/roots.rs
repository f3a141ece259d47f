//! Succinct root selection: a small set of display roots from which every
//! node can be reached.
use crate::graph::{successors, successors_in, well_formed, Graph, GraphView};
use vstd::prelude::*;

verus! {

/// Node positions as integers.
pub open spec fn ints(v: Seq<usize>) -> Seq<int> {
    v.map_values(|i: usize| i as int)
}

/// Whether `p` is a path of `g`: each step follows an edge.
pub open spec fn is_path(g: GraphView, p: Seq<int>) -> bool {
    p.len() >= 1 && forall|k: int| 0 <= k < p.len() - 1 ==> #[trigger] g.edges.contains((p[k], p[k + 1]))
}

/// Whether `v` can be reached from `u` by following edges (every node
/// reaches itself).
pub open spec fn reaches(g: GraphView, u: int, v: int) -> bool {
    exists|p: Seq<int>| #[trigger] is_path(g, p) && p[0] == u && p.last() == v
}

/// Whether `v` can be reached from one of `roots`.
pub open spec fn reached_from(g: GraphView, roots: Seq<int>, v: int) -> bool {
    exists|k: int| 0 <= k < roots.len() && #[trigger] reaches(g, roots[k], v)
}

/// Whether some edge ends at `v`.
pub open spec fn has_incoming(g: GraphView, v: int) -> bool {
    exists|k: int| 0 <= k < g.edges.len() && #[trigger] g.edges[k].1 == v
}

/// The number of edges out of `u`.
pub open spec fn out_degree(g: GraphView, u: int) -> nat {
    successors(g, u).len()
}

/// The nodes among the first `n` that no edge enters, in order.
pub open spec fn sources_upto(g: GraphView, n: int) -> Seq<int>
    decreases n,
{
    if n <= 0 {
        Seq::empty()
    } else if has_incoming(g, n - 1) {
        sources_upto(g, n - 1)
    } else {
        sources_upto(g, n - 1).push(n - 1)
    }
}

/// Whether `v` is the node that the greedy step adds to `roots`: among the
/// nodes not reached from `roots`, one of largest out-degree, the first such.
pub open spec fn best_unreached(g: GraphView, roots: Seq<int>, v: int) -> bool {
    &&& 0 <= v < g.nodes.len()
    &&& !reached_from(g, roots, v)
    &&& forall|w: int|
        0 <= w < g.nodes.len() && !reached_from(g, roots, w) ==> #[trigger] out_degree(g, w)
            <= out_degree(g, v)
    &&& forall|w: int|
        0 <= w < v && !reached_from(g, roots, w) ==> #[trigger] out_degree(g, w) < out_degree(g, v)
}

/// The roots that succinct mode shows: first every node that no edge enters,
/// in node order; then, while some node is not reached, the greedy choice;
/// until every node is reached.
pub open spec fn succinct_roots(g: GraphView, roots: Seq<int>) -> bool {
    let s = sources_upto(g, g.nodes.len() as int);
    &&& s.len() <= roots.len()
    &&& roots.take(s.len() as int) == s
    &&& forall|k: int| s.len() <= k < roots.len() ==> best_unreached(g, roots.take(k), #[trigger] roots[k])
    &&& forall|v: int| 0 <= v < g.nodes.len() ==> reached_from(g, roots, v)
}

/// An element is in `s.push(x)` exactly when it is `x` or in `s`.
proof fn lemma_push_contains<A>(s: Seq<A>, x: A, y: A)
    ensures
        s.push(x).contains(y) <==> (s.contains(y) || x == y),
{
    if s.contains(y) {
        let i = choose|i: int| 0 <= i < s.len() && s[i] == y;
        assert(s.push(x)[i] == y);
    }
    if x == y {
        assert(s.push(x)[s.len() as int] == y);
    }
    if s.push(x).contains(y) {
        let i = choose|i: int| 0 <= i < s.push(x).len() && s.push(x)[i] == y;
        if i < s.len() {
            assert(s[i] == y);
        }
    }
}

/// The targets listed for `u` are exactly the ends of `u`'s edges.
pub proof fn lemma_successor_edge(edges: Seq<(int, int)>, u: int, w: int)
    ensures
        successors_in(edges, u).contains(w) <==> edges.contains((u, w)),
    decreases edges.len(),
{
    if edges.len() > 0 {
        let rest = edges.drop_last();
        let e = edges.last();
        lemma_successor_edge(rest, u, w);
        assert(edges =~= rest.push(e));
        lemma_push_contains(rest, e, (u, w));
        let s = successors_in(rest, u);
        if e.0 == u {
            lemma_push_contains(s, e.1, w);
        }
    }
}

/// The greedy choice is unique: one largest out-degree, the first such.
proof fn lemma_best_unique(g: GraphView, roots: Seq<int>, a: int, b: int)
    requires
        best_unreached(g, roots, a),
        best_unreached(g, roots, b),
    ensures
        a == b,
{
    assert(out_degree(g, a) <= out_degree(g, b));
    assert(out_degree(g, b) <= out_degree(g, a));
    if a < b {
        assert(out_degree(g, a) < out_degree(g, b));
    }
    if b < a {
        assert(out_degree(g, b) < out_degree(g, a));
    }
}

proof fn lemma_same_prefix(g: GraphView, r1: Seq<int>, r2: Seq<int>, k: int)
    requires
        succinct_roots(g, r1),
        succinct_roots(g, r2),
        0 <= k <= r1.len(),
        k <= r2.len(),
    ensures
        r1.take(k) == r2.take(k),
    decreases k,
{
    if k > 0 {
        lemma_same_prefix(g, r1, r2, k - 1);
        let s = sources_upto(g, g.nodes.len() as int);
        if k - 1 < s.len() {
            assert(r1.take(s.len() as int)[k - 1] == r1[k - 1]);
            assert(r2.take(s.len() as int)[k - 1] == r2[k - 1]);
        } else {
            assert(best_unreached(g, r1.take(k - 1), r1[k - 1]));
            assert(best_unreached(g, r2.take(k - 1), r2[k - 1]));
            lemma_best_unique(g, r1.take(k - 1), r1[k - 1], r2[k - 1]);
        }
        assert(r1.take(k) =~= r1.take(k - 1).push(r1[k - 1]));
        assert(r2.take(k) =~= r2.take(k - 1).push(r2[k - 1]));
    }
}

/// The succinct roots are determined by the graph: two root sequences that
/// both meet the description are the same sequence.
pub proof fn lemma_succinct_roots_unique(g: GraphView, r1: Seq<int>, r2: Seq<int>)
    requires
        succinct_roots(g, r1),
        succinct_roots(g, r2),
    ensures
        r1 == r2,
{
    if r1.len() < r2.len() {
        lemma_same_prefix(g, r1, r2, r1.len() as int);
        let k = r1.len() as int;
        assert(r2.take(k) =~= r1.take(k));
        assert(r1.take(k) =~= r1);
        assert(best_unreached(g, r2.take(k), r2[k]));
        assert(reached_from(g, r1, r2[k]));
    } else if r2.len() < r1.len() {
        lemma_same_prefix(g, r1, r2, r2.len() as int);
        let k = r2.len() as int;
        assert(r1.take(k) =~= r2.take(k));
        assert(r2.take(k) =~= r2);
        assert(best_unreached(g, r1.take(k), r1[k]));
        assert(reached_from(g, r2, r1[k]));
    } else {
        lemma_same_prefix(g, r1, r2, r1.len() as int);
        assert(r1.take(r1.len() as int) =~= r1);
        assert(r2.take(r2.len() as int) =~= r2);
    }
}

/// The number of `true` entries of `s`.
pub open spec fn count_true(s: Seq<bool>) -> nat
    decreases s.len(),
{
    if s.len() == 0 {
        0
    } else {
        count_true(s.drop_last()) + if s.last() {
            1nat
        } else {
            0nat
        }
    }
}

proof fn lemma_count_bound(s: Seq<bool>)
    ensures
        count_true(s) <= s.len(),
    decreases s.len(),
{
    if s.len() > 0 {
        lemma_count_bound(s.drop_last());
    }
}

proof fn lemma_count_set(s: Seq<bool>, i: int)
    requires
        0 <= i < s.len(),
        !s[i],
    ensures
        count_true(s.update(i, true)) == count_true(s) + 1,
    decreases s.len(),
{
    let t = s.update(i, true);
    if i < s.len() - 1 {
        assert(t.drop_last() =~= s.drop_last().update(i, true));
        lemma_count_set(s.drop_last(), i);
    } else {
        assert(t.drop_last() =~= s.drop_last());
    }
}

/// A path to `u` extended by an edge out of `u` reaches further.
proof fn lemma_extend(g: GraphView, roots: Seq<int>, u: int, w: int)
    requires
        reached_from(g, roots, u),
        g.edges.contains((u, w)),
    ensures
        reached_from(g, roots, w),
{
    let k = choose|k: int| 0 <= k < roots.len() && #[trigger] reaches(g, roots[k], u);
    let p = choose|p: Seq<int>| #[trigger] is_path(g, p) && p[0] == roots[k] && p.last() == u;
    let q = p.push(w);
    assert forall|j: int| 0 <= j < q.len() - 1 implies #[trigger] g.edges.contains((q[j], q[j + 1])) by {
        if j < p.len() - 1 {
            assert(q[j] == p[j] && q[j + 1] == p[j + 1]);
        }
    }
    assert(is_path(g, q));
    assert(reaches(g, roots[k], w));
}

/// What is reached from some roots stays reached when roots are added.
proof fn lemma_more_roots(g: GraphView, roots: Seq<int>, more: Seq<int>, v: int)
    requires
        reached_from(g, roots, v),
        more.len() >= roots.len(),
        more.take(roots.len() as int) == roots,
    ensures
        reached_from(g, more, v),
{
    let k = choose|k: int| 0 <= k < roots.len() && #[trigger] reaches(g, roots[k], v);
    assert(more.take(roots.len() as int)[k] == more[k]);
    assert(reaches(g, more[k], v));
}

/// A root reaches itself.
proof fn lemma_root_reached(g: GraphView, roots: Seq<int>, k: int)
    requires
        0 <= k < roots.len(),
    ensures
        reached_from(g, roots, roots[k]),
{
    let p = seq![roots[k]];
    assert(is_path(g, p));
    assert(reaches(g, roots[k], roots[k]));
}

/// When every covered node has all its successors covered, whatever is
/// reached from covered roots is covered.
proof fn lemma_closed(g: GraphView, roots: Seq<int>, covered: Seq<bool>, v: int)
    requires
        well_formed(g),
        covered.len() == g.nodes.len(),
        forall|k: int| 0 <= k < roots.len() ==> 0 <= #[trigger] roots[k] < covered.len() && covered[roots[k]],
        forall|x: int, w: int|
            0 <= x < covered.len() && covered[x] && #[trigger] g.edges.contains((x, w)) ==> 0 <= w
                < covered.len() && covered[w],
        reached_from(g, roots, v),
    ensures
        0 <= v < covered.len() && covered[v],
{
    let k = choose|k: int| 0 <= k < roots.len() && #[trigger] reaches(g, roots[k], v);
    let p = choose|p: Seq<int>| #[trigger] is_path(g, p) && p[0] == roots[k] && p.last() == v;
    assert forall|i: int| 0 <= i < p.len() implies 0 <= #[trigger] p[i] < covered.len() && covered[p[i]] by {
        lemma_path_covered(g, p, covered, i);
    }
}

proof fn lemma_path_covered(g: GraphView, p: Seq<int>, covered: Seq<bool>, i: int)
    requires
        is_path(g, p),
        0 <= i < p.len(),
        0 <= p[0] < covered.len() && covered[p[0]],
        forall|x: int, w: int|
            0 <= x < covered.len() && covered[x] && #[trigger] g.edges.contains((x, w)) ==> 0 <= w
                < covered.len() && covered[w],
    ensures
        0 <= p[i] < covered.len() && covered[p[i]],
    decreases i,
{
    if i > 0 {
        lemma_path_covered(g, p, covered, i - 1);
        let k = i - 1;
        assert(g.edges.contains((p[k], p[k + 1])));
        assert(k + 1 == i);
    }
}


/// The queue holds exactly the covered nodes, each once.
pub open spec fn queue_matches(covered: Seq<bool>, queue: Seq<usize>) -> bool {
    &&& forall|j: int| 0 <= j < queue.len() ==> (#[trigger] queue[j]) < covered.len()
    &&& forall|x: int|
        0 <= x < covered.len() ==> (covered[x] <==> #[trigger] queue.contains(x as usize))
    &&& queue.no_duplicates()
    &&& queue.len() == count_true(covered)
}

/// Every node before `head` in the queue has all its successors covered.
pub open spec fn processed(g: GraphView, covered: Seq<bool>, queue: Seq<usize>, head: int) -> bool {
    forall|j: int, w: int|
        0 <= j < head && #[trigger] g.edges.contains((queue[j] as int, w)) ==> 0 <= w
            < covered.len() && covered[w]
}

/// Every queued node is reached from `rs`.
pub open spec fn all_reached(g: GraphView, rs: Seq<int>, queue: Seq<usize>) -> bool {
    forall|j: int| 0 <= j < queue.len() ==> #[trigger] reached_from(g, rs, queue[j] as int)
}

/// `adj` lists the successors of every node of `g`.
pub open spec fn adjacency_of(g: GraphView, adj: Seq<Vec<usize>>) -> bool {
    &&& adj.len() == g.nodes.len()
    &&& forall|u: int|
        0 <= u < adj.len() ==> (#[trigger] adj[u])@.map_values(|x: usize| x as int)
            == successors(g, u)
}

proof fn lemma_queue_push(covered: Seq<bool>, queue: Seq<usize>, w: usize)
    requires
        queue_matches(covered, queue),
        w < covered.len(),
        covered.len() <= usize::MAX,
        !covered[w as int],
    ensures
        queue_matches(covered.update(w as int, true), queue.push(w)),
{
    lemma_count_set(covered, w as int);
    let c2 = covered.update(w as int, true);
    let q2 = queue.push(w);
    assert forall|x: int| 0 <= x < c2.len() implies (c2[x] <==> #[trigger] q2.contains(x as usize)) by {
        lemma_push_contains(queue, w, x as usize);
    }
    assert forall|a: int, b: int| 0 <= a < q2.len() && 0 <= b < q2.len() && a != b implies q2[a]
        != q2[b] by {
        if a < queue.len() && b < queue.len() {
            assert(q2[a] == queue[a]);
            assert(q2[b] == queue[b]);
        } else {
            let o = if a == queue.len() { b } else { a };
            assert(q2[o] == queue[o]);
            if queue[o] == w {
                assert(queue.contains(w));
                assert(queue.contains((w as int) as usize));
                assert(covered[w as int]);
            }
        }
    }
}

/// Where all the queue is processed and the roots are covered, the covered
/// nodes are exactly those reached from the roots.
proof fn lemma_covered_is_reached(
    g: GraphView,
    covered: Seq<bool>,
    queue: Seq<usize>,
    rs: Seq<int>,
    x: int,
)
    requires
        well_formed(g),
        covered.len() == g.nodes.len(),
        covered.len() <= usize::MAX,
        queue_matches(covered, queue),
        processed(g, covered, queue, queue.len() as int),
        all_reached(g, rs, queue),
        forall|k: int| 0 <= k < rs.len() ==> 0 <= #[trigger] rs[k] < covered.len() && covered[rs[k]],
        0 <= x < covered.len(),
    ensures
        covered[x] <==> reached_from(g, rs, x),
{
    assert forall|y: int, w: int|
        0 <= y < covered.len() && covered[y] && #[trigger] g.edges.contains((y, w)) implies 0 <= w
        < covered.len() && covered[w] by {
        assert(queue.contains(y as usize));
        let j = choose|j: int| 0 <= j < queue.len() && queue[j] == y as usize;
        assert(g.edges.contains((queue[j] as int, w)));
    }
    if reached_from(g, rs, x) {
        lemma_closed(g, rs, covered, x);
    }
    if covered[x] {
        assert(queue.contains(x as usize));
        let j = choose|j: int| 0 <= j < queue.len() && queue[j] == x as usize;
        assert(reached_from(g, rs, queue[j] as int));
    }
}

/// Covers every successor of `u`, queueing those newly covered.
fn visit(
    adj: &Vec<Vec<usize>>,
    covered: &mut Vec<bool>,
    queue: &mut Vec<usize>,
    u: usize,
    head: usize,
    g: Ghost<GraphView>,
    rs: Ghost<Seq<int>>,
)
    requires
        well_formed(g@),
        adjacency_of(g@, adj@),
        old(covered)@.len() == g@.nodes.len(),
        old(covered)@.len() <= usize::MAX,
        queue_matches(old(covered)@, old(queue)@),
        head < old(queue)@.len(),
        old(queue)@[head as int] == u,
        processed(g@, old(covered)@, old(queue)@, head as int),
        all_reached(g@, rs@, old(queue)@),
    ensures
        final(covered)@.len() == g@.nodes.len(),
        queue_matches(final(covered)@, final(queue)@),
        final(queue)@.len() >= old(queue)@.len(),
        final(queue)@.take(old(queue)@.len() as int) == old(queue)@,
        processed(g@, final(covered)@, final(queue)@, head + 1),
        all_reached(g@, rs@, final(queue)@),
{
    let ghost q0 = queue@;
    let succ = &adj[u];
    proof {
        assert(q0.take(q0.len() as int) =~= q0);
    }
    for j in 0..succ.len()
        invariant
            well_formed(g@),
            adjacency_of(g@, adj@),
            u < g@.nodes.len(),
            succ@.map_values(|x: usize| x as int) == successors(g@, u as int),
            covered@.len() == g@.nodes.len(),
            covered@.len() <= usize::MAX,
            queue_matches(covered@, queue@),
            head < q0.len(),
            q0[head as int] == u,
            queue@.len() >= q0.len(),
            queue@.take(q0.len() as int) == q0,
            processed(g@, covered@, queue@, head as int),
            all_reached(g@, rs@, queue@),
            forall|i: int| 0 <= i < j ==> (#[trigger] succ@[i]) < covered@.len() && covered@[succ@[i] as int],
    {
        let w = succ[j];
        proof {
            assert(succ@.map_values(|x: usize| x as int)[j as int] == w as int);
            lemma_successor_edge(g@.edges, u as int, w as int);
            let e = choose|e: int| 0 <= e < g@.edges.len() && g@.edges[e] == (u as int, w as int);
            assert(g@.edges[e].1 < g@.nodes.len());
        }
        if !covered[w] {
            let ghost cv = covered@;
            let ghost qv = queue@;
            proof {
                lemma_queue_push(cv, qv, w);
                assert(qv[head as int] == u) by {
                    assert(qv.take(q0.len() as int)[head as int] == q0[head as int]);
                }
                assert(reached_from(g@, rs@, u as int));
                lemma_extend(g@, rs@, u as int, w as int);
            }
            covered.set(w, true);
            queue.push(w);
            proof {
                assert(queue@.take(q0.len() as int) =~= qv.take(q0.len() as int));
                assert forall|i: int, x: int|
                    0 <= i < head && #[trigger] g@.edges.contains((queue@[i] as int, x)) implies 0
                    <= x < covered@.len() && covered@[x] by {
                    assert(queue@[i] == qv[i]);
                }
                assert forall|i: int| 0 <= i < queue@.len() implies #[trigger] reached_from(
                    g@,
                    rs@,
                    queue@[i] as int,
                ) by {
                    if i < qv.len() {
                        assert(queue@[i] == qv[i]);
                    }
                }
            }
        }
    }
    proof {
        assert(queue@[head as int] == u) by {
            assert(queue@.take(q0.len() as int)[head as int] == q0[head as int]);
        }
        assert forall|i: int, w: int|
            0 <= i < head + 1 && #[trigger] g@.edges.contains((queue@[i] as int, w)) implies 0 <= w
            < covered@.len() && covered@[w] by {
            if i == head {
                lemma_successor_edge(g@.edges, u as int, w);
                let k = choose|k: int|
                    0 <= k < successors(g@, u as int).len() && successors(g@, u as int)[k] == w;
                assert(succ@.map_values(|x: usize| x as int)[k] == w);
                assert(covered@[succ@[k] as int]);
            }
        }
    }
}

/// Processes the whole queue: afterwards every covered node has all its
/// successors covered.
fn drain(
    adj: &Vec<Vec<usize>>,
    covered: &mut Vec<bool>,
    queue: &mut Vec<usize>,
    head: usize,
    g: Ghost<GraphView>,
    rs: Ghost<Seq<int>>,
)
    requires
        well_formed(g@),
        adjacency_of(g@, adj@),
        old(covered)@.len() == g@.nodes.len(),
        old(covered)@.len() <= usize::MAX,
        queue_matches(old(covered)@, old(queue)@),
        head <= old(queue)@.len(),
        processed(g@, old(covered)@, old(queue)@, head as int),
        all_reached(g@, rs@, old(queue)@),
    ensures
        final(covered)@.len() == g@.nodes.len(),
        queue_matches(final(covered)@, final(queue)@),
        final(queue)@.len() >= old(queue)@.len(),
        final(queue)@.take(old(queue)@.len() as int) == old(queue)@,
        processed(g@, final(covered)@, final(queue)@, final(queue)@.len() as int),
        all_reached(g@, rs@, final(queue)@),
{
    let ghost q0 = queue@;
    let mut head = head;
    proof {
        assert(q0.take(q0.len() as int) =~= q0);
    }
    while head < queue.len()
        invariant
            well_formed(g@),
            adjacency_of(g@, adj@),
            covered@.len() == g@.nodes.len(),
            covered@.len() <= usize::MAX,
            queue_matches(covered@, queue@),
            head <= queue@.len(),
            queue@.len() >= q0.len(),
            queue@.take(q0.len() as int) == q0,
            processed(g@, covered@, queue@, head as int),
            all_reached(g@, rs@, queue@),
        decreases g@.nodes.len() - head,
    {
        proof {
            lemma_count_bound(covered@);
        }
        let u = queue[head];
        let ghost qv = queue@;
        visit(adj, covered, queue, u, head, g, rs);
        proof {
            assert(queue@.take(q0.len() as int) =~= queue@.take(qv.len() as int).take(
                q0.len() as int,
            ));
        }
        head = head + 1;
    }
}

/// The uncovered node of largest out-degree, the first such; nothing where
/// every node is covered.
fn pick(adj: &Vec<Vec<usize>>, covered: &Vec<bool>, g: Ghost<GraphView>) -> (r: Option<usize>)
    requires
        adjacency_of(g@, adj@),
        covered@.len() == g@.nodes.len(),
    ensures
        r is None ==> forall|w: int| 0 <= w < covered@.len() ==> #[trigger] covered@[w],
        r is Some ==> {
            let b = r->0 as int;
            &&& 0 <= b < covered@.len()
            &&& !covered@[b]
            &&& forall|w: int|
                0 <= w < covered@.len() && !covered@[w] ==> #[trigger] out_degree(g@, w)
                    <= out_degree(g@, b)
            &&& forall|w: int|
                0 <= w < b && !covered@[w] ==> #[trigger] out_degree(g@, w) < out_degree(g@, b)
        },
{
    let n = covered.len();
    let mut best: Option<usize> = None;
    for v in 0..n
        invariant
            n == covered@.len(),
            adjacency_of(g@, adj@),
            covered@.len() == g@.nodes.len(),
            match best {
                Some(b) => b < v && !covered@[b as int] && (forall|w: int|
                    0 <= w < v && !covered@[w] ==> #[trigger] out_degree(g@, w) <= out_degree(
                        g@,
                        b as int,
                    )) && (forall|w: int|
                    0 <= w < b && !covered@[w] ==> #[trigger] out_degree(g@, w) < out_degree(
                        g@,
                        b as int,
                    )),
                None => forall|w: int| 0 <= w < v ==> #[trigger] covered@[w],
            },
    {
        proof {
            assert(adj@[v as int]@.map_values(|x: usize| x as int).len() == adj@[v as int]@.len());
        }
        if !covered[v] {
            match best {
                None => {
                    best = Some(v);
                },
                Some(b) => {
                    proof {
                        assert(adj@[b as int]@.map_values(|x: usize| x as int).len()
                            == adj@[b as int]@.len());
                    }
                    if adj[v].len() > adj[b].len() {
                        best = Some(v);
                    }
                },
            }
        }
    }
    best
}


/// Which nodes some edge enters.
fn incoming_flags(graph: &Graph) -> (r: Vec<bool>)
    requires
        graph.wf(),
    ensures
        r@.len() == graph@.nodes.len(),
        forall|v: int| 0 <= v < r@.len() ==> (#[trigger] r@[v] <==> has_incoming(graph@, v)),
{
    let ghost g = graph@;
    let n = graph.len();
    let edges = graph.edge_list();
    let mut incoming: Vec<bool> = Vec::new();
    for i in 0..n
        invariant
            incoming@.len() == i,
            forall|v: int| 0 <= v < i ==> !(#[trigger] incoming@[v]),
    {
        incoming.push(false);
    }
    for k in 0..edges.len()
        invariant
            g == graph@,
            well_formed(g),
            n == g.nodes.len(),
            edges@.len() == g.edges.len(),
            forall|j: int|
                0 <= j < edges@.len() ==> (edges@[j].0 as int, edges@[j].1 as int)
                    == #[trigger] g.edges[j],
            incoming@.len() == n,
            forall|v: int|
                0 <= v < n ==> (#[trigger] incoming@[v] <==> exists|j: int|
                    0 <= j < k && #[trigger] g.edges[j].1 == v),
    {
        let b = edges[k].1;
        proof {
            assert(g.edges[k as int].1 == b as int);
        }
        incoming.set(b, true);
    }
    incoming
}

/// The nodes that no edge enters, in node order; then, while some node is
/// not reached from the roots so far, the unreached node of largest
/// out-degree (the first of those on a tie). Every node is then reachable from
/// a root.
pub fn select_roots(graph: &Graph) -> (r: Vec<usize>)
    requires
        graph.wf(),
    ensures
        succinct_roots(graph@, ints(r@)),
        forall|k: int| 0 <= k < r@.len() ==> (#[trigger] r@[k]) < graph@.nodes.len(),
{
    let ghost g = graph@;
    let n = graph.len();
    let adj = graph.adjacency();
    let incoming = incoming_flags(graph);
    let mut covered: Vec<bool> = Vec::new();
    let mut queue: Vec<usize> = Vec::new();
    proof {
        assert(count_true(covered@) == 0);
    }
    for v in 0..n
        invariant
            g == graph@,
            n == g.nodes.len(),
            incoming@.len() == n,
            forall|x: int| 0 <= x < n ==> (#[trigger] incoming@[x] <==> has_incoming(g, x)),
            covered@.len() == v,
            queue_matches(covered@, queue@),
            ints(queue@) == sources_upto(g, v as int),
            forall|x: int| 0 <= x < v ==> (#[trigger] covered@[x] <==> !has_incoming(g, x)),
    {
        let ghost cv = covered@;
        let ghost qv = queue@;
        let fresh = !incoming[v];
        proof {
            assert forall|j: int| 0 <= j < qv.len() implies (#[trigger] qv[j]) < v by {}
        }
        covered.push(fresh);
        if fresh {
            queue.push(v);
        }
        proof {
            assert(covered@.drop_last() =~= cv);
            assert forall|x: int| 0 <= x < covered@.len() implies (covered@[x] <==> #[trigger] queue@.contains(
                x as usize,
            )) by {
                if fresh {
                    lemma_push_contains(qv, v, x as usize);
                }
                if x == v as int && queue@.contains(x as usize) {
                    let i = choose|i: int| 0 <= i < queue@.len() && queue@[i] == x as usize;
                    if !fresh {
                        assert(qv[i] < v);
                    }
                }
            }
            if fresh {
                assert forall|a: int, b: int|
                    0 <= a < queue@.len() && 0 <= b < queue@.len() && a != b implies queue@[a]
                    != queue@[b] by {
                    if a < qv.len() && b < qv.len() {
                        assert(queue@[a] == qv[a] && queue@[b] == qv[b]);
                    } else {
                        let o = if a == qv.len() { b } else { a };
                        assert(queue@[o] == qv[o]);
                        assert(qv[o] < v);
                    }
                }
            }
            assert(ints(queue@) =~= sources_upto(g, v + 1));
        }
    }
    let mut roots: Vec<usize> = queue.clone();
    let ghost src = sources_upto(g, n as int);
    proof {
        assert(roots@ == queue@);
        assert(ints(roots@).take(src.len() as int) =~= src);
        assert forall|j: int| 0 <= j < queue@.len() implies #[trigger] reached_from(
            g,
            ints(roots@),
            queue@[j] as int,
        ) by {
            lemma_root_reached(g, ints(roots@), j);
        }
        assert forall|k: int| 0 <= k < ints(roots@).len() implies 0 <= #[trigger] ints(roots@)[k]
            < covered@.len() && covered@[ints(roots@)[k]] by {
            let x = queue@[k] as int;
            assert(queue@[k] < covered@.len());
            assert(queue@.contains(x as usize)) by {
                assert(queue@[k] == x as usize);
            }
        }
    }
    let mut head: usize = 0;
    loop
        invariant
            g == graph@,
            well_formed(g),
            n == g.nodes.len(),
            adjacency_of(g, adj@),
            src == sources_upto(g, n as int),
            covered@.len() == n,
            queue_matches(covered@, queue@),
            head <= queue@.len(),
            processed(g, covered@, queue@, head as int),
            all_reached(g, ints(roots@), queue@),
            forall|k: int|
                0 <= k < ints(roots@).len() ==> 0 <= #[trigger] ints(roots@)[k] < covered@.len()
                    && covered@[ints(roots@)[k]],
            src.len() <= roots@.len(),
            ints(roots@).take(src.len() as int) == src,
            forall|k: int|
                src.len() <= k < roots@.len() ==> best_unreached(
                    g,
                    ints(roots@).take(k),
                    #[trigger] ints(roots@)[k],
                ),
        ensures
            forall|v: int| 0 <= v < n ==> #[trigger] reached_from(g, ints(roots@), v),
            forall|k: int| 0 <= k < roots@.len() ==> (#[trigger] roots@[k]) < n,
            src.len() <= roots@.len(),
            ints(roots@).take(src.len() as int) == src,
            forall|k: int|
                src.len() <= k < roots@.len() ==> best_unreached(
                    g,
                    ints(roots@).take(k),
                    #[trigger] ints(roots@)[k],
                ),
        decreases n - queue@.len(),
    {
        let ghost rs = ints(roots@);
        let ghost cv0 = covered@;
        let ghost q0 = queue@;
        drain(&adj, &mut covered, &mut queue, head, Ghost(g), Ghost(rs));
        head = queue.len();
        proof {
            assert forall|k: int| 0 <= k < rs.len() implies 0 <= #[trigger] rs[k] < covered@.len()
                && covered@[rs[k]] by {
                let x = rs[k];
                assert(cv0[x]);
                assert(q0.contains(x as usize));
                let i = choose|i: int| 0 <= i < q0.len() && q0[i] == x as usize;
                assert(queue@.take(q0.len() as int)[i] == q0[i]);
                assert(queue@[i] == x as usize);
                assert(queue@.contains(x as usize));
            }
        }
        let best = pick(&adj, &covered, Ghost(g));
        match best {
            None => {
                proof {
                    assert forall|v: int| 0 <= v < n implies #[trigger] reached_from(g, rs, v) by {
                        lemma_covered_is_reached(g, covered@, queue@, rs, v);
                    }
                    assert forall|k: int| 0 <= k < roots@.len() implies (#[trigger] roots@[k]) < n by {
                        assert(rs[k] == roots@[k] as int);
                    }
                }
                break ;
            },
            Some(v) => {
                let ghost cv = covered@;
                let ghost qv = queue@;
                let ghost old_roots = roots@;
                proof {
                    assert forall|w: int| 0 <= w < n implies (cv[w] <==> #[trigger] reached_from(
                        g,
                        rs,
                        w,
                    )) by {
                        lemma_covered_is_reached(g, cv, qv, rs, w);
                    }
                    assert(best_unreached(g, rs, v as int));
                    lemma_queue_push(cv, qv, v);
                }
                covered.set(v, true);
                queue.push(v);
                roots.push(v);
                proof {
                    let rs2 = ints(roots@);
                    assert(rs2 =~= rs.push(v as int));
                    assert(rs2.take(rs.len() as int) =~= rs);
                    assert(rs2.take(src.len() as int) =~= rs.take(src.len() as int));
                    assert forall|k: int| src.len() <= k < roots@.len() implies best_unreached(
                        g,
                        rs2.take(k),
                        #[trigger] rs2[k],
                    ) by {
                        if k < rs.len() {
                            assert(rs2.take(k) =~= rs.take(k));
                            assert(rs2[k] == rs[k]);
                        } else {
                            assert(rs2.take(k) =~= rs);
                        }
                    }
                    assert forall|j: int| 0 <= j < queue@.len() implies #[trigger] reached_from(
                        g,
                        rs2,
                        queue@[j] as int,
                    ) by {
                        if j < qv.len() {
                            assert(queue@[j] == qv[j]);
                            assert(reached_from(g, rs, qv[j] as int));
                            lemma_more_roots(g, rs, rs2, qv[j] as int);
                        } else {
                            lemma_root_reached(g, rs2, rs.len() as int);
                        }
                    }
                    assert forall|k: int| 0 <= k < rs2.len() implies 0 <= #[trigger] rs2[k]
                        < covered@.len() && covered@[rs2[k]] by {
                        if k < rs.len() {
                            assert(rs2[k] == rs[k]);
                        }
                    }
                    assert forall|j: int, w: int|
                        0 <= j < head && #[trigger] g.edges.contains((queue@[j] as int, w)) implies 0
                        <= w < covered@.len() && covered@[w] by {
                        assert(queue@[j] == qv[j]);
                        assert(g.edges.contains((qv[j] as int, w)));
                    }
                    lemma_count_bound(covered@);
                }
            },
        }
    }
    roots
}

} // verus!
