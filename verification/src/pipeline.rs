//! The diagram pipeline: from file texts to the list of named diagram
//! texts a run should produce.
//!
//! The caller reads the input files and hands their texts over; the result
//! names each artifact by file stem (`<module>_forward`,
//! `<module>_backward`, and optionally `(EntireGraph)`) together with its
//! canonical dot text. Writing the texts out and invoking the external
//! layout program stay with the caller.

use crate::builder::{build_graphs, build_spec};
use crate::graph::{wf, Graph};
use crate::options::DiagenOptions;
use crate::render::{dot_text, global_items, graph_lines, render_dot};
use crate::subgraph::{derive_subgraph, subgraph_lines};
use vstd::prelude::*;

verus! {

/// One planned output artifact: the file stem it is written under and its
/// canonical dot text.
pub struct Diagram {
    pub file_stem: String,
    pub dot: String,
}

impl View for Diagram {
    type V = (Seq<char>, Seq<char>);

    open spec fn view(&self) -> (Seq<char>, Seq<char>) {
        (self.file_stem@, self.dot@)
    }
}

impl DeepView for Diagram {
    type V = (Seq<char>, Seq<char>);

    open spec fn deep_view(&self) -> (Seq<char>, Seq<char>) {
        self.view()
    }
}

/// The file stem of one module's diagram in the given direction.
pub open spec fn stem_text(m: Seq<char>, forward: bool) -> Seq<char> {
    if forward {
        m + "_forward"@
    } else {
        m + "_backward"@
    }
}

/// The diagrams of every module of `g[i..]`, in stored (sorted) key order:
/// each module's reachability subgraph, rendered.
pub open spec fn module_diagrams(
    g: Seq<(Seq<char>, Seq<Seq<char>>)>,
    i: int,
    forward: bool,
) -> Seq<(Seq<char>, Seq<char>)>
    decreases g.len() - i,
    when 0 <= i <= g.len()
{
    if i >= g.len() {
        Seq::empty()
    } else {
        seq![(stem_text(g[i].0, forward), dot_text(subgraph_lines(g, g[i].0, forward)))]
            + module_diagrams(g, i + 1, forward)
    }
}

/// Derives and renders one diagram per module key of `graph`, in stored
/// (sorted) key order: the module's breadth-first reachability subgraph,
/// serialized, under the stem `<module>_forward` or `<module>_backward` as
/// the direction says.
pub fn generate_diagram_per_module(graph: &Graph, forward: bool) -> (r: Vec<Diagram>)
    requires
        wf(graph@),
    ensures
        r.deep_view() == module_diagrams(graph@, 0, forward),
{
    let ghost g = graph@;
    let mut out: Vec<Diagram> = Vec::new();
    let n = graph.entries.len();
    proof {
        assert(out.deep_view() + module_diagrams(g, 0, forward) =~= module_diagrams(
            g,
            0,
            forward,
        ));
    }
    let mut i: usize = 0;
    while i < n
        invariant
            0 <= i <= n,
            n == graph.entries.len(),
            g == graph@,
            wf(g),
            out.deep_view() + module_diagrams(g, i as int, forward) == module_diagrams(
                g,
                0,
                forward,
            ),
        decreases n - i,
    {
        let ghost o0 = out.deep_view();
        let module = &graph.entries[i].key;
        proof {
            assert(g[i as int].0 == module@);
        }
        let items = derive_subgraph(graph, module, forward);
        let dot = render_dot(&items);
        let stem = if forward {
            module.clone().concat("_forward")
        } else {
            module.clone().concat("_backward")
        };
        out.push(Diagram { file_stem: stem, dot });
        proof {
            assert(out.deep_view() =~= o0.push(
                (stem_text(g[i as int].0, forward), dot_text(subgraph_lines(g, g[i as int].0, forward))),
            ));
            assert(out.deep_view() + module_diagrams(g, i + 1, forward) =~= o0 + (seq![
                (stem_text(g[i as int].0, forward), dot_text(subgraph_lines(g, g[i as int].0, forward))),
            ] + module_diagrams(g, i + 1, forward)));
        }
        i = i + 1;
    }
    proof {
        assert(module_diagrams(g, n as int, forward) == Seq::<(Seq<char>, Seq<char>)>::empty());
        assert(out.deep_view() + Seq::<(Seq<char>, Seq<char>)>::empty() =~= out.deep_view());
    }
    out
}

/// Every diagram of one run over the built graphs: the global forward
/// diagram when asked for, then every module's forward diagram, then every
/// module's backward diagram.
pub open spec fn plan_spec(contents: Seq<Seq<char>>, global: bool) -> Seq<(Seq<char>, Seq<char>)> {
    let fwd = build_spec(contents).0;
    let inv = build_spec(contents).1;
    (if global {
        seq![("(EntireGraph)"@, dot_text(graph_lines(fwd)))]
    } else {
        Seq::empty()
    }) + module_diagrams(fwd, 0, true) + module_diagrams(inv, 0, false)
}

/// Runs the whole computation of one invocation: builds the forward and
/// inverse graphs from the file texts, and returns every requested diagram
/// in order — the global diagram of the forward graph when
/// `generate_global_graph` is set, each module's forward subgraph, and each
/// module's backward subgraph (derived from the inverse graph, edges
/// oriented dependent-to-dependency).
pub fn plan_diagrams(contents: &Vec<String>, options: &DiagenOptions) -> (r: Vec<Diagram>)
    ensures
        r.deep_view() == plan_spec(contents.deep_view(), options.generate_global_graph),
{
    let g = build_graphs(contents);
    let mut out: Vec<Diagram> = Vec::new();
    if options.generate_global_graph {
        let items = global_items(&g.forward);
        let dot = render_dot(&items);
        out.push(Diagram { file_stem: String::from_str("(EntireGraph)"), dot });
    }
    let mut fwd_diagrams = generate_diagram_per_module(&g.forward, true);
    let mut bwd_diagrams = generate_diagram_per_module(&g.inverse, false);
    let ghost head = out.deep_view();
    let ghost fdv = fwd_diagrams.deep_view();
    let ghost bdv = bwd_diagrams.deep_view();
    out.append(&mut fwd_diagrams);
    proof {
        assert(out.deep_view() =~= head + fdv);
    }
    out.append(&mut bwd_diagrams);
    proof {
        assert(out.deep_view() =~= head + fdv + bdv);
        let cv = contents.deep_view();
        if options.generate_global_graph {
            assert(head =~= seq![("(EntireGraph)"@, dot_text(graph_lines(build_spec(cv).0)))]);
        } else {
            assert(head =~= Seq::<(Seq<char>, Seq<char>)>::empty());
        }
        assert(out.deep_view() =~= plan_spec(cv, options.generate_global_graph));
    }
    out
}

} // verus!
