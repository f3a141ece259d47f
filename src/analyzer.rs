//! The two-pass contract that both extractors follow, and the pipeline that
//! runs them over a corpus.
use crate::call::{edge_pass, node_pass, CallAnalyzer, EdgeScan, NodeScan, PoolView};
use crate::class::{class_edge_pass, class_node_pass, ClassAnalyzer, ClassScan};
use crate::display::{
    all_nodes, dot_text, forest_text, invalid_only, matching, texts, valid_only, Display,
};
use crate::graph::{reversed, Graph, GraphView};
use crate::roots::succinct_roots;
use crate::syntax::SyntaxTree;
use crate::tree::RenderOptions;
use vstd::prelude::*;

verus! {

/// An extractor: a definition pass that registers nodes, then an edge pass
/// that resolves names against the nodes of every file.
pub trait Analyzer {
    /// The extractor's own invariant.
    spec fn ready(&self) -> bool;

    /// What the extractor carries from one file to the next: its table from
    /// unqualified to qualified names (empty where it keeps none).
    spec fn memory(&self) -> PoolView;

    /// The memory and the graph after the definition pass over `t`.
    spec fn definitions_in(m: PoolView, g: GraphView, t: SyntaxTree) -> (PoolView, GraphView);

    /// The graph after the edge pass over `t`.
    spec fn edges_in(m: PoolView, g: GraphView, t: SyntaxTree) -> GraphView;

    /// The definition pass over one file.
    fn extract_nodes(&mut self, syntax_tree: &SyntaxTree, graph: &mut Graph)
        requires
            old(self).ready(),
            old(graph).wf(),
            syntax_tree.wf(),
        ensures
            final(self).ready(),
            final(graph).wf(),
            (final(self).memory(), final(graph)@) == Self::definitions_in(
                old(self).memory(),
                old(graph)@,
                *syntax_tree,
            ),
    ;

    /// The edge pass over one file.
    fn extract_edges(&mut self, syntax_tree: &SyntaxTree, graph: &mut Graph)
        requires
            old(self).ready(),
            old(graph).wf(),
            syntax_tree.wf(),
        ensures
            final(self).ready(),
            final(graph).wf(),
            final(self).memory() == old(self).memory(),
            final(graph)@ == Self::edges_in(old(self).memory(), old(graph)@, *syntax_tree),
    ;
}

impl Analyzer for CallAnalyzer {
    open spec fn ready(&self) -> bool {
        self.wf()
    }

    open spec fn memory(&self) -> PoolView {
        self@
    }

    open spec fn definitions_in(m: PoolView, g: GraphView, t: SyntaxTree) -> (PoolView, GraphView) {
        let s = node_pass(NodeScan { ctx: Seq::empty(), graph: g, pool: m }, t.bytes(), t.file@, t.stream());
        (s.pool, s.graph)
    }

    open spec fn edges_in(m: PoolView, g: GraphView, t: SyntaxTree) -> GraphView {
        edge_pass(EdgeScan { ctx: Seq::empty(), graph: g, pending: Seq::empty() }, m, t.bytes(), t.stream()).graph
    }

    fn extract_nodes(&mut self, syntax_tree: &SyntaxTree, graph: &mut Graph) {
        CallAnalyzer::extract_nodes(self, syntax_tree, graph);
    }

    fn extract_edges(&mut self, syntax_tree: &SyntaxTree, graph: &mut Graph) {
        CallAnalyzer::extract_edges(self, syntax_tree, graph);
    }
}

impl Analyzer for ClassAnalyzer {
    open spec fn ready(&self) -> bool {
        true
    }

    open spec fn memory(&self) -> PoolView {
        Seq::empty()
    }

    open spec fn definitions_in(m: PoolView, g: GraphView, t: SyntaxTree) -> (PoolView, GraphView) {
        (m, class_node_pass(ClassScan { ctx: Seq::empty(), graph: g, body_end: 0 }, t.bytes(), t.file@, t.stream()).graph)
    }

    open spec fn edges_in(m: PoolView, g: GraphView, t: SyntaxTree) -> GraphView {
        class_edge_pass(ClassScan { ctx: Seq::empty(), graph: g, body_end: 0 }, t.bytes(), t.stream()).graph
    }

    fn extract_nodes(&mut self, syntax_tree: &SyntaxTree, graph: &mut Graph) {
        ClassAnalyzer::extract_nodes(self, syntax_tree, graph);
    }

    fn extract_edges(&mut self, syntax_tree: &SyntaxTree, graph: &mut Graph) {
        ClassAnalyzer::extract_edges(self, syntax_tree, graph);
    }
}

/// The memory and the graph after the definition pass over each of `trees`.
pub open spec fn all_definitions<T: Analyzer>(m: PoolView, g: GraphView, trees: Seq<SyntaxTree>) -> (PoolView, GraphView)
    decreases trees.len(),
{
    if trees.len() == 0 {
        (m, g)
    } else {
        let (m2, g2) = all_definitions::<T>(m, g, trees.drop_last());
        T::definitions_in(m2, g2, trees.last())
    }
}

/// The graph after the edge pass over each of `trees`.
pub open spec fn all_edges<T: Analyzer>(m: PoolView, g: GraphView, trees: Seq<SyntaxTree>) -> GraphView
    decreases trees.len(),
{
    if trees.len() == 0 {
        g
    } else {
        T::edges_in(m, all_edges::<T>(m, g, trees.drop_last()), trees.last())
    }
}

/// The graph of a corpus: every definition pass first, then every edge pass
/// with what the definitions left.
pub open spec fn corpus_graph<T: Analyzer>(m: PoolView, trees: Seq<SyntaxTree>) -> GraphView {
    let (m2, g) = all_definitions::<T>(
        m,
        GraphView { nodes: Seq::empty(), edges: Seq::empty() },
        trees,
    );
    all_edges::<T>(m2, g, trees)
}

/// The graph of a corpus as shown: reversed where asked.
pub open spec fn shown_graph<T: Analyzer>(m: PoolView, trees: Seq<SyntaxTree>, reverse: bool) -> GraphView {
    if reverse {
        reversed(corpus_graph::<T>(m, trees))
    } else {
        corpus_graph::<T>(m, trees)
    }
}

/// The output for the shown nodes `ns` of `g`.
pub open spec fn rendered(g: GraphView, o: RenderOptions, ns: Seq<int>, dot: bool) -> Seq<char> {
    if dot {
        dot_text(g, o, ns)
    } else {
        forest_text(g, o, ns)
    }
}

/// Runs an extractor over a corpus and renders the result.
pub struct Driver {}

impl Driver {
    /// The graph of a corpus: the definition pass over every file, and only
    /// then the edge pass over every file, so that names resolve across files.
    pub fn build<T: Analyzer>(analyzer: &mut T, trees: &Vec<SyntaxTree>) -> (r: Graph)
        requires
            old(analyzer).ready(),
            forall|i: int| 0 <= i < trees@.len() ==> (#[trigger] trees@[i]).wf(),
        ensures
            r.wf(),
            r@ == corpus_graph::<T>(old(analyzer).memory(), trees@),
            final(analyzer).ready(),
    {
        let ghost m0 = analyzer.memory();
        let mut graph = Graph::new();
        proof {
            assert(trees@.take(0) =~= Seq::<SyntaxTree>::empty());
            assert(graph@ == GraphView { nodes: Seq::empty(), edges: Seq::empty() });
        }
        for i in 0..trees.len()
            invariant
                analyzer.ready(),
                graph.wf(),
                forall|j: int| 0 <= j < trees@.len() ==> (#[trigger] trees@[j]).wf(),
                (analyzer.memory(), graph@) == all_definitions::<T>(
                    m0,
                    GraphView { nodes: Seq::empty(), edges: Seq::empty() },
                    trees@.take(i as int),
                ),
        {
            proof {
                assert(trees@.take(i + 1).drop_last() =~= trees@.take(i as int));
            }
            analyzer.extract_nodes(&trees[i], &mut graph);
        }
        let ghost m1 = analyzer.memory();
        let ghost g1 = graph@;
        proof {
            assert(trees@.take(trees@.len() as int) =~= trees@);
        }
        for i in 0..trees.len()
            invariant
                analyzer.ready(),
                graph.wf(),
                forall|j: int| 0 <= j < trees@.len() ==> (#[trigger] trees@[j]).wf(),
                analyzer.memory() == m1,
                graph@ == all_edges::<T>(m1, g1, trees@.take(i as int)),
        {
            proof {
                assert(trees@.take(i + 1).drop_last() =~= trees@.take(i as int));
            }
            analyzer.extract_edges(&trees[i], &mut graph);
        }
        proof {
            assert(trees@.take(trees@.len() as int) =~= trees@);
        }
        graph
    }

    /// Builds the graph of `trees`, reverses it if asked, and renders it as a
    /// digraph or as a text tree. Also hands back the patterns that were set
    /// aside as invalid.
    pub fn run<T: Analyzer>(
        analyzer: &mut T,
        trees: &Vec<SyntaxTree>,
        patterns: &Vec<String>,
        options: RenderOptions,
        reverse: bool,
        dot: bool,
    ) -> (r: (String, Vec<String>))
        requires
            old(analyzer).ready(),
            forall|i: int| 0 <= i < trees@.len() ==> (#[trigger] trees@[i]).wf(),
        ensures
            texts(r.1@) == invalid_only(texts(patterns@)),
            ({
                let g = shown_graph::<T>(old(analyzer).memory(), trees@, reverse);
                let ps = valid_only(texts(patterns@));
                if options.succinct && ps.len() == 0 {
                    exists|roots: Seq<int>|
                        succinct_roots(g, roots) && r.0@ == rendered(
                            g,
                            options,
                            matching(g, ps, roots),
                            dot,
                        )
                } else {
                    r.0@ == rendered(g, options, matching(g, ps, all_nodes(g.nodes.len() as int)), dot)
                }
            }),
    {
        let mut graph = Driver::build(analyzer, trees);
        let ghost built = graph@;
        if reverse {
            graph = graph.reverse();
        }
        let display = Display::new(
            &graph,
            patterns,
            options.succinct,
            options.color,
            options.paint,
            options.max_depth,
            options.ignore_unknown,
            options.sort_children,
        );
        proof {
            assert(display.options() == options);
        }
        let text = if dot {
            display.to_dot()
        } else {
            display.to_text()
        };
        let rejected = display.rejected_patterns().clone();
        proof {
            let g = graph@;
            let ps = valid_only(texts(patterns@));
            assert(display.shown() == g);
            assert(display.pattern_texts() == ps);
            assert(g == shown_graph::<T>(old(analyzer).memory(), trees@, reverse));
            if options.succinct && ps.len() == 0 {
                if dot {
                    let roots = choose|roots: Seq<int>|
                        succinct_roots(g, roots) && text@ == dot_text(g, options, matching(g, ps, roots));
                    assert(succinct_roots(g, roots) && text@ == rendered(
                        g,
                        options,
                        matching(g, ps, roots),
                        dot,
                    ));
                } else {
                    let roots = choose|roots: Seq<int>|
                        succinct_roots(g, roots) && text@ == forest_text(
                            g,
                            options,
                            matching(g, ps, roots),
                        );
                    assert(succinct_roots(g, roots) && text@ == rendered(
                        g,
                        options,
                        matching(g, ps, roots),
                        dot,
                    ));
                }
            }
        }
        (text, rejected)
    }
}

} // verus!
