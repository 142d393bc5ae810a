//! Deterministic serialization of diagram lines into the textual
//! directed-graph format consumed by an external layout program.
//!
//! The canonical form is a `digraph G {` header, one indented line per node
//! or edge in the order the producing traversal emitted them, and a closing
//! brace. Rendering is a pure function of the line sequence, so equal
//! inputs give byte-identical text.

use crate::graph::Graph;
use crate::subgraph::{DotItem, DotLine};
use vstd::prelude::*;

verus! {

/// The text of one diagram line: an indented node name, or an indented
/// `source -> target` edge, each ending in a line feed.
pub open spec fn line_text(l: DotLine) -> Seq<char> {
    match l {
        DotLine::Node(n) => "    "@ + n + "\n"@,
        DotLine::Edge(a, b) => "    "@ + a + " -> "@ + b + "\n"@,
    }
}

/// The concatenated text of `items[i..]`.
pub open spec fn lines_text(items: Seq<DotLine>, i: int) -> Seq<char>
    decreases items.len() - i,
    when 0 <= i <= items.len()
{
    if i >= items.len() {
        Seq::empty()
    } else {
        line_text(items[i]) + lines_text(items, i + 1)
    }
}

/// The canonical text of a whole diagram.
pub open spec fn dot_text(items: Seq<DotLine>) -> Seq<char> {
    "digraph G {\n"@ + lines_text(items, 0) + "}\n"@
}

/// Appends the text of one line to `out`.
fn push_line(out: &mut String, item: &DotItem)
    ensures
        final(out)@ == old(out)@ + line_text(item@),
{
    let ghost o0 = old(out)@;
    match item {
        DotItem::Node(n) => {
            out.append("    ");
            out.append(n.as_str());
            out.append("\n");
            assert(out@ =~= o0 + ("    "@ + n@ + "\n"@));
        },
        DotItem::Edge(a, b) => {
            out.append("    ");
            out.append(a.as_str());
            out.append(" -> ");
            out.append(b.as_str());
            out.append("\n");
            assert(out@ =~= o0 + ("    "@ + a@ + " -> "@ + b@ + "\n"@));
        },
    }
}

/// Serializes diagram lines into the canonical directed-graph text: the
/// header, each line's text in emission order, and the closing brace. The
/// result is a function of the lines alone, so rendering the same sequence
/// twice gives byte-identical text.
pub fn render_dot(items: &Vec<DotItem>) -> (r: String)
    ensures
        r@ == dot_text(items.deep_view()),
{
    let ghost dv = items.deep_view();
    let mut s = String::from_str("digraph G {\n");
    let n = items.len();
    let mut i: usize = 0;
    while i < n
        invariant
            0 <= i <= n,
            n == items.len(),
            dv == items.deep_view(),
            s@ + lines_text(dv, i as int) == "digraph G {\n"@ + lines_text(dv, 0),
        decreases n - i,
    {
        let ghost s0 = s@;
        proof {
            assert(dv[i as int] == items[i as int]@);
        }
        push_line(&mut s, &items[i]);
        proof {
            assert(s@ + lines_text(dv, i + 1) =~= s0 + (line_text(dv[i as int]) + lines_text(
                dv,
                i + 1,
            )));
        }
        i = i + 1;
    }
    proof {
        assert(lines_text(dv, n as int) == Seq::<char>::empty());
        assert(s@ + Seq::<char>::empty() =~= s@);
    }
    let r = s.concat("}\n");
    proof {
        assert(r@ =~= dot_text(dv));
    }
    r
}

/// The lines of the global diagram of a whole graph: for each entry in
/// stored (sorted) key order, the key's node line followed by one edge line
/// per listed dependency, in list order.
pub open spec fn graph_lines_from(g: Seq<(Seq<char>, Seq<Seq<char>>)>, i: int) -> Seq<DotLine>
    decreases g.len() - i,
    when 0 <= i <= g.len()
{
    if i >= g.len() {
        Seq::empty()
    } else {
        seq![DotLine::Node(g[i].0)] + Seq::new(
            g[i].1.len(),
            |l: int| DotLine::Edge(g[i].0, g[i].1[l]),
        ) + graph_lines_from(g, i + 1)
    }
}

/// The lines of the global diagram of a whole graph.
pub open spec fn graph_lines(g: Seq<(Seq<char>, Seq<Seq<char>>)>) -> Seq<DotLine> {
    graph_lines_from(g, 0)
}

/// Collects the lines of the global diagram: every entry of the graph in
/// stored key order, each key's node line followed by its edge lines.
pub fn global_items(graph: &Graph) -> (r: Vec<DotItem>)
    ensures
        r.deep_view() == graph_lines(graph@),
{
    let ghost g = graph@;
    let mut out: Vec<DotItem> = Vec::new();
    let n = graph.entries.len();
    proof {
        assert(out.deep_view() =~= Seq::<DotLine>::empty());
    }
    let mut i: usize = 0;
    while i < n
        invariant
            0 <= i <= n,
            n == graph.entries.len(),
            g == graph@,
            out.deep_view() + graph_lines_from(g, i as int) == graph_lines(g),
        decreases n - i,
    {
        let ghost o0 = out.deep_view();
        let entry = &graph.entries[i];
        proof {
            assert(g[i as int].0 == entry.key@);
            assert(g[i as int].1 == entry.vals.deep_view());
        }
        out.push(DotItem::Node(entry.key.clone()));
        proof {
            assert(out.deep_view() =~= o0.push(DotLine::Node(g[i as int].0)));
        }
        let ghost edges = Seq::new(g[i as int].1.len(), |l: int| DotLine::Edge(g[i as int].0, g[i as int].1[l]));
        let m = entry.vals.len();
        let mut j: usize = 0;
        while j < m
            invariant
                0 <= j <= m,
                m == entry.vals.len(),
                g == graph@,
                0 <= (i as int) < g.len(),
                g[i as int].1 == entry.vals.deep_view(),
                edges == Seq::new(
                    g[i as int].1.len(),
                    |l: int| DotLine::Edge(g[i as int].0, g[i as int].1[l]),
                ),
                g[i as int].0 == entry.key@,
                out.deep_view() == o0.push(DotLine::Node(g[i as int].0)) + edges.take(j as int),
            decreases m - j,
        {
            let ghost o1 = out.deep_view();
            proof {
                assert(g[i as int].1[j as int] == entry.vals[j as int]@);
            }
            out.push(DotItem::Edge(entry.key.clone(), entry.vals[j].clone()));
            proof {
                assert(out.deep_view() =~= o1.push(DotLine::Edge(g[i as int].0, g[i as int].1[j as int])));
                assert(edges.take(j + 1) =~= edges.take(j as int).push(edges[j as int]));
                assert(o1.push(edges[j as int]) =~= o0.push(DotLine::Node(g[i as int].0)) + edges.take(
                    j + 1,
                ));
            }
            j = j + 1;
        }
        proof {
            assert(edges.take(m as int) =~= edges);
            assert(out.deep_view() + graph_lines_from(g, i + 1) =~= o0 + (seq![
                DotLine::Node(g[i as int].0),
            ] + edges + graph_lines_from(g, i + 1)));
        }
        i = i + 1;
    }
    proof {
        assert(graph_lines_from(g, n as int) == Seq::<DotLine>::empty());
        assert(out.deep_view() + Seq::<DotLine>::empty() =~= out.deep_view());
    }
    out
}

/// Law: rendering is idempotent. Serializing the same line sequence twice
/// produces byte-identical text.
pub proof fn lemma_render_idempotent(items: Seq<DotLine>, t1: Seq<char>, t2: Seq<char>)
    requires
        t1 == dot_text(items),
        t2 == dot_text(items),
    ensures
        t1 == t2,
{
}

} // verus!
