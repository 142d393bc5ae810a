//! Reachability subgraphs: breadth-first traversal of a graph from a start
//! module, recording every visited edge in emission order.
//!
//! The traversal uses a first-in-first-out frontier and walks each node's
//! adjacency list in stored order, so the emitted line sequence is a
//! function of the graph and the start node alone. An edge back to an
//! already-visited node is still recorded but does not re-enqueue the node,
//! so cycles terminate. The direction flag only orients the recorded edges:
//! a backward derivation records `neighbor -> current` instead of
//! `current -> neighbor`.

use crate::graph::{has_key, key_index, lookup, wf, Graph};
use std::collections::VecDeque;
use vstd::prelude::*;
use vstd::seq_lib::seq_to_set_is_finite;
use vstd::set_lib::lemma_len_subset;

verus! {

/// One line of a diagram in mathematical form: a node, or a directed edge.
pub enum DotLine {
    Node(Seq<char>),
    Edge(Seq<char>, Seq<char>),
}

/// One line of a diagram: a node declaration, or a directed edge.
pub enum DotItem {
    Node(String),
    Edge(String, String),
}

impl View for DotItem {
    type V = DotLine;

    open spec fn view(&self) -> DotLine {
        match self {
            DotItem::Node(n) => DotLine::Node(n@),
            DotItem::Edge(a, b) => DotLine::Edge(a@, b@),
        }
    }
}

impl DeepView for DotItem {
    type V = DotLine;

    open spec fn deep_view(&self) -> DotLine {
        self.view()
    }
}

/// The views of a sequence of strings.
pub open spec fn str_seq(q: Seq<String>) -> Seq<Seq<char>> {
    Seq::new(q.len(), |i: int| q[i]@)
}

/// Every name appearing in `g[i..]`, keys first within each entry.
pub open spec fn all_nodes_from(g: Seq<(Seq<char>, Seq<Seq<char>>)>, i: int) -> Seq<Seq<char>>
    decreases g.len() - i,
    when 0 <= i <= g.len()
{
    if i >= g.len() {
        Seq::empty()
    } else {
        seq![g[i].0] + g[i].1 + all_nodes_from(g, i + 1)
    }
}

/// The set of every name appearing anywhere in `g`.
pub open spec fn nodes_set(g: Seq<(Seq<char>, Seq<Seq<char>>)>) -> Set<Seq<char>> {
    all_nodes_from(g, 0).to_set()
}

proof fn lemma_all_nodes_from(g: Seq<(Seq<char>, Seq<Seq<char>>)>, i: int, j: int)
    requires
        0 <= i <= j < g.len(),
    ensures
        all_nodes_from(g, i).contains(g[j].0),
        forall|x: Seq<char>| g[j].1.contains(x) ==> all_nodes_from(g, i).contains(x),
    decreases j - i,
{
    let whole = all_nodes_from(g, i);
    let rest = all_nodes_from(g, i + 1);
    assert(whole == seq![g[i].0] + g[i].1 + rest);
    if i == j {
        assert(whole[0] == g[j].0);
        assert forall|x: Seq<char>| g[j].1.contains(x) implies whole.contains(x) by {
            let l = choose|l: int| 0 <= l < g[j].1.len() && g[j].1[l] == x;
            assert(whole[1 + l] == x);
        }
    } else {
        lemma_all_nodes_from(g, i + 1, j);
        assert forall|x: Seq<char>| rest.contains(x) implies whole.contains(x) by {
            let l = choose|l: int| 0 <= l < rest.len() && rest[l] == x;
            assert(whole[1 + g[i].1.len() + l] == x);
        }
        assert(rest.contains(g[j].0));
    }
}

/// Every name in a lookup result, and every key, is a node of the graph.
proof fn lemma_lookup_in_nodes(g: Seq<(Seq<char>, Seq<Seq<char>>)>, d: Seq<char>)
    ensures
        forall|x: Seq<char>| lookup(g, d).contains(x) ==> nodes_set(g).contains(x),
{
    if has_key(g, d) {
        let j = key_index(g, d);
        lemma_all_nodes_from(g, 0, j);
        assert forall|x: Seq<char>| lookup(g, d).contains(x) implies nodes_set(g).contains(x) by {
            assert(all_nodes_from(g, 0).contains(x));
        }
    } else {
        assert(lookup(g, d) == Seq::<Seq<char>>::empty());
    }
}

/// One node's adjacency list folded into the traversal state, from position
/// `i` on: emits one edge line per listed name (oriented by `forward`), and
/// visits and enqueues each name not seen before.
pub open spec fn process_deps(
    d: Seq<char>,
    deps: Seq<Seq<char>>,
    visited: Set<Seq<char>>,
    queue: Seq<Seq<char>>,
    forward: bool,
    i: int,
) -> (Seq<DotLine>, Set<Seq<char>>, Seq<Seq<char>>)
    decreases deps.len() - i,
    when 0 <= i <= deps.len()
{
    if i >= deps.len() {
        (Seq::empty(), visited, queue)
    } else {
        let dep = deps[i];
        let e = if forward {
            DotLine::Edge(d, dep)
        } else {
            DotLine::Edge(dep, d)
        };
        let v2 = if visited.contains(dep) {
            visited
        } else {
            visited.insert(dep)
        };
        let q2 = if visited.contains(dep) {
            queue
        } else {
            queue.push(dep)
        };
        let rest = process_deps(d, deps, v2, q2, forward, i + 1);
        (seq![e] + rest.0, rest.1, rest.2)
    }
}

/// What `process_deps` does to the visited set and the queue: the visited
/// set only grows, new members come from `deps`, and the queue is extended
/// exactly by the newly visited names.
proof fn lemma_process_frame(
    d: Seq<char>,
    deps: Seq<Seq<char>>,
    visited: Set<Seq<char>>,
    queue: Seq<Seq<char>>,
    forward: bool,
    i: int,
)
    requires
        0 <= i <= deps.len(),
    ensures
        forall|x: Seq<char>|
            visited.contains(x) ==> #[trigger] process_deps(
                d,
                deps,
                visited,
                queue,
                forward,
                i,
            ).1.contains(x),
        forall|x: Seq<char>|
            #[trigger] process_deps(d, deps, visited, queue, forward, i).1.contains(x)
                ==> visited.contains(x) || deps.contains(x),
        process_deps(d, deps, visited, queue, forward, i).1 == visited ==> process_deps(
            d,
            deps,
            visited,
            queue,
            forward,
            i,
        ).2 == queue,
    decreases deps.len() - i,
{
    if i < deps.len() {
        let dep = deps[i];
        let v2 = if visited.contains(dep) {
            visited
        } else {
            visited.insert(dep)
        };
        let q2 = if visited.contains(dep) {
            queue
        } else {
            queue.push(dep)
        };
        lemma_process_frame(d, deps, v2, q2, forward, i + 1);
        let p = process_deps(d, deps, visited, queue, forward, i);
        assert(p.1 == process_deps(d, deps, v2, q2, forward, i + 1).1);
        if !visited.contains(dep) {
            assert(v2.contains(dep));
            assert(p.1.contains(dep));
            assert(p.1 != visited);
        }
    }
}

/// The lines emitted by a breadth-first traversal resumed with the given
/// frontier queue and visited set.
pub open spec fn bfs_lines(
    g: Seq<(Seq<char>, Seq<Seq<char>>)>,
    queue: Seq<Seq<char>>,
    visited: Set<Seq<char>>,
    forward: bool,
) -> Seq<DotLine>
    decreases nodes_set(g).difference(visited).len(), queue.len(),
{
    if queue.len() == 0 {
        Seq::empty()
    } else {
        let d = queue[0];
        let deps = lookup(g, d);
        let p = process_deps(d, deps, visited, queue.drop_first(), forward, 0);
        proof {
            lemma_bfs_step_decreases(g, queue, visited, forward);
        }
        seq![DotLine::Node(d)] + p.0 + bfs_lines(g, p.2, p.1, forward)
    }
}

/// One traversal step shrinks the pair (unvisited nodes of the graph,
/// frontier length) lexicographically.
pub proof fn lemma_bfs_step_decreases(
    g: Seq<(Seq<char>, Seq<Seq<char>>)>,
    queue: Seq<Seq<char>>,
    visited: Set<Seq<char>>,
    forward: bool,
)
    requires
        queue.len() > 0,
    ensures
        ({
            let d = queue[0];
            let p = process_deps(d, lookup(g, d), visited, queue.drop_first(), forward, 0);
            let m0 = nodes_set(g).difference(visited);
            let m1 = nodes_set(g).difference(p.1);
            m1.len() < m0.len() || (m1 == m0 && p.2.len() < queue.len())
        }),
{
    broadcast use seq_to_set_is_finite;

    let d = queue[0];
    let deps = lookup(g, d);
    let p = process_deps(d, deps, visited, queue.drop_first(), forward, 0);
    let u = nodes_set(g);
    let m0 = u.difference(visited);
    let m1 = u.difference(p.1);
    lemma_process_frame(d, deps, visited, queue.drop_first(), forward, 0);
    lemma_lookup_in_nodes(g, d);
    if p.1 == visited {
        assert(m1 == m0);
        assert(p.2 == queue.drop_first());
    } else {
        assert(!(p.1 =~= visited));
        let x = choose|x: Seq<char>| p.1.contains(x) != visited.contains(x);
        assert(p.1.contains(x) && !visited.contains(x));
        assert(deps.contains(x));
        assert(u.contains(x));
        assert(m0.contains(x));
        lemma_len_subset(m0, u);
        assert(m1.subset_of(m0.remove(x)));
        lemma_len_subset(m1, m0.remove(x));
        assert(m0.remove(x).len() == m0.len() - 1);
    }
}

/// The full line sequence of the reachability subgraph of `start`: breadth
/// first from `start`, every visited edge recorded in emission order,
/// oriented by `forward`.
pub open spec fn subgraph_lines(
    g: Seq<(Seq<char>, Seq<Seq<char>>)>,
    start: Seq<char>,
    forward: bool,
) -> Seq<DotLine> {
    bfs_lines(g, seq![start], Set::<Seq<char>>::empty().insert(start), forward)
}

/// Whether some string of `v` reads `s`.
fn contains_str(v: &Vec<String>, s: &String) -> (b: bool)
    ensures
        b == v.deep_view().contains(s@),
{
    let n = v.len();
    let mut i: usize = 0;
    while i < n
        invariant
            0 <= i <= n,
            n == v.len(),
            forall|l: int| 0 <= l < i ==> v.deep_view()[l] != s@,
        decreases n - i,
    {
        if v[i] == *s {
            assert(v.deep_view()[i as int] == s@);
            return true;
        }
        i = i + 1;
    }
    false
}

/// Derives the reachability subgraph of `start`: a breadth-first traversal
/// over the graph's adjacency lists, emitting each dequeued node followed by
/// one edge per adjacency entry, edges oriented forward or backward as
/// `forward` says. The result is exactly `subgraph_lines`, so the emission
/// order is a function of the graph and the start node alone.
pub fn derive_subgraph(graph: &Graph, start: &String, forward: bool) -> (r: Vec<DotItem>)
    requires
        wf(graph@),
    ensures
        r.deep_view() == subgraph_lines(graph@, start@, forward),
{
    broadcast use seq_to_set_is_finite;

    let ghost g = graph@;
    let ghost total = subgraph_lines(g, start@, forward);
    let mut visited: Vec<String> = Vec::new();
    visited.push(start.clone());
    let mut queue: VecDeque<String> = VecDeque::new();
    queue.push_back(start.clone());
    let mut out: Vec<DotItem> = Vec::new();
    proof {
        assert(visited.deep_view() =~= seq![start@]);
        assert(visited.deep_view().to_set() =~= Set::<Seq<char>>::empty().insert(start@));
        assert(str_seq(queue@) =~= seq![start@]);
        assert(out.deep_view() + bfs_lines(g, str_seq(queue@), visited.deep_view().to_set(), forward)
            =~= total);
    }
    while queue.len() > 0
        invariant
            wf(g),
            g == graph@,
            total == subgraph_lines(g, start@, forward),
            out.deep_view() + bfs_lines(g, str_seq(queue@), visited.deep_view().to_set(), forward)
                == total,
        decreases nodes_set(g).difference(visited.deep_view().to_set()).len(), queue@.len(),
    {
        let ghost qpre = str_seq(queue@);
        let ghost v1 = visited.deep_view().to_set();
        let ghost out0 = out.deep_view();
        let d = queue.pop_front().unwrap();
        proof {
            assert(qpre[0] == d@);
            assert(str_seq(queue@) =~= qpre.drop_first());
        }
        let ghost q1 = str_seq(queue@);
        let ghost deps_spec = lookup(g, d@);
        let ghost ptotal = process_deps(d@, deps_spec, v1, q1, forward, 0);
        proof {
            lemma_bfs_step_decreases(g, qpre, v1, forward);
            assert(bfs_lines(g, qpre, v1, forward) == seq![DotLine::Node(d@)] + ptotal.0
                + bfs_lines(g, ptotal.2, ptotal.1, forward));
        }
        out.push(DotItem::Node(d.clone()));
        proof {
            assert(out.deep_view() =~= out0.push(DotLine::Node(d@)));
        }
        let deps_opt = graph.get(&d);
        match deps_opt {
            None => {
                proof {
                    assert(deps_spec == Seq::<Seq<char>>::empty());
                    assert(ptotal.0 =~= Seq::<DotLine>::empty());
                    assert(ptotal.1 == v1 && ptotal.2 == q1);
                    assert(out.deep_view() + bfs_lines(g, q1, v1, forward) =~= out0 + bfs_lines(
                        g,
                        qpre,
                        v1,
                        forward,
                    ));
                }
            },
            Some(deps) => {
                let ghost dv = deps.deep_view();
                proof {
                    assert(dv == deps_spec);
                }
                let m = deps.len();
                let mut j: usize = 0;
                while j < m
                    invariant
                        wf(g),
                        g == graph@,
                        0 <= j <= m,
                        m == deps.len(),
                        dv == deps.deep_view(),
                        dv == deps_spec,
                        ptotal == process_deps(d@, dv, v1, q1, forward, 0),
                        out0.push(DotLine::Node(d@)) + ptotal.0 == out.deep_view() + process_deps(
                            d@,
                            dv,
                            visited.deep_view().to_set(),
                            str_seq(queue@),
                            forward,
                            j as int,
                        ).0,
                        ptotal.1 == process_deps(
                            d@,
                            dv,
                            visited.deep_view().to_set(),
                            str_seq(queue@),
                            forward,
                            j as int,
                        ).1,
                        ptotal.2 == process_deps(
                            d@,
                            dv,
                            visited.deep_view().to_set(),
                            str_seq(queue@),
                            forward,
                            j as int,
                        ).2,
                    decreases m - j,
                {
                    let ghost vcur = visited.deep_view().to_set();
                    let ghost qcur = str_seq(queue@);
                    let ghost outcur = out.deep_view();
                    let dep = &deps[j];
                    proof {
                        assert(dv[j as int] == dep@);
                    }
                    let e = if forward {
                        DotItem::Edge(d.clone(), dep.clone())
                    } else {
                        DotItem::Edge(dep.clone(), d.clone())
                    };
                    let ghost eline = e@;
                    out.push(e);
                    proof {
                        assert(out.deep_view() =~= outcur.push(eline));
                    }
                    let seen = contains_str(&visited, dep);
                    if !seen {
                        let ghost vdv = visited.deep_view();
                        visited.push(dep.clone());
                        queue.push_back(dep.clone());
                        proof {
                            assert(visited.deep_view() =~= vdv.push(dep@));
                            vdv.lemma_push_to_set_commute(dep@);
                        }
                    }
                    proof {
                        if seen {
                            assert(visited.deep_view().to_set() == vcur);
                            assert(str_seq(queue@) == qcur);
                        } else {
                            assert(visited.deep_view().to_set() == vcur.insert(dep@));
                            assert(str_seq(queue@) =~= qcur.push(dep@));
                        }
                        assert(process_deps(d@, dv, vcur, qcur, forward, j as int) == (
                            seq![eline] + process_deps(
                                d@,
                                dv,
                                visited.deep_view().to_set(),
                                str_seq(queue@),
                                forward,
                                j + 1,
                            ).0,
                            process_deps(
                                d@,
                                dv,
                                visited.deep_view().to_set(),
                                str_seq(queue@),
                                forward,
                                j + 1,
                            ).1,
                            process_deps(
                                d@,
                                dv,
                                visited.deep_view().to_set(),
                                str_seq(queue@),
                                forward,
                                j + 1,
                            ).2,
                        ));
                        assert(outcur.push(eline) + process_deps(
                            d@,
                            dv,
                            visited.deep_view().to_set(),
                            str_seq(queue@),
                            forward,
                            j + 1,
                        ).0 =~= outcur + (seq![eline] + process_deps(
                            d@,
                            dv,
                            visited.deep_view().to_set(),
                            str_seq(queue@),
                            forward,
                            j + 1,
                        ).0));
                    }
                    j = j + 1;
                }
                proof {
                    assert(process_deps(
                        d@,
                        dv,
                        visited.deep_view().to_set(),
                        str_seq(queue@),
                        forward,
                        m as int,
                    ).0 =~= Seq::<DotLine>::empty());
                    assert(out.deep_view() =~= out0.push(DotLine::Node(d@)) + ptotal.0);
                }
            },
        }
        proof {
            assert(out.deep_view() + bfs_lines(
                g,
                str_seq(queue@),
                visited.deep_view().to_set(),
                forward,
            ) =~= out0 + bfs_lines(g, qpre, v1, forward));
        }
    }
    proof {
        assert(bfs_lines(g, str_seq(queue@), visited.deep_view().to_set(), forward)
            == Seq::<DotLine>::empty());
        assert(out.deep_view() + Seq::<DotLine>::empty() =~= out.deep_view());
    }
    out
}

/// Law: a module whose adjacency list is empty (it has no dependencies in a
/// forward graph, no dependents in an inverse graph) has a subgraph of
/// exactly one node, itself, and no edges.
pub proof fn lemma_no_deps_singleton(
    g: Seq<(Seq<char>, Seq<Seq<char>>)>,
    m: Seq<char>,
    forward: bool,
)
    requires
        lookup(g, m) == Seq::<Seq<char>>::empty(),
    ensures
        subgraph_lines(g, m, forward) == seq![DotLine::Node(m)],
{
    let v0 = Set::<Seq<char>>::empty().insert(m);
    let q0 = seq![m];
    let p = process_deps(m, lookup(g, m), v0, q0.drop_first(), forward, 0);
    assert(p.0 == Seq::<DotLine>::empty() && p.1 == v0 && p.2 == q0.drop_first());
    assert(q0.drop_first().len() == 0);
    assert(bfs_lines(g, q0.drop_first(), v0, forward) == Seq::<DotLine>::empty());
    assert(bfs_lines(g, q0, v0, forward) == seq![DotLine::Node(m)] + p.0 + bfs_lines(
        g,
        p.2,
        p.1,
        forward,
    ));
    assert(seq![DotLine::Node(m)] + Seq::<DotLine>::empty() + Seq::<DotLine>::empty()
        =~= seq![DotLine::Node(m)]);
}

/// Law: breadth-first derivation is deterministic. Two derivations over the
/// same graph, start module and direction emit identical line sequences, in
/// particular the same node-visit order and the same edge order.
pub proof fn lemma_derivation_deterministic(
    g: Seq<(Seq<char>, Seq<Seq<char>>)>,
    start: Seq<char>,
    forward: bool,
    r1: Seq<DotLine>,
    r2: Seq<DotLine>,
)
    requires
        r1 == subgraph_lines(g, start, forward),
        r2 == subgraph_lines(g, start, forward),
    ensures
        r1 == r2,
{
}

} // verus!
