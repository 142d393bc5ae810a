//! Folding extracted module declarations into a forward graph (module to
//! its declared dependencies) and an inverse graph (module to the modules
//! that depend on it).
//!
//! The inverse graph has an entry for every module that appears anywhere,
//! as declarer or as referenced dependency; the forward graph's keys are
//! exactly the declared modules.

use crate::extract::{extract_module_name, extract_use_deps, module_decl, use_deps};
use crate::graph::{
    append_val, ensure_entry, has_key, lemma_upsert_props, lookup, upsert, wf, Graph,
};
use vstd::prelude::*;

verus! {

/// The inverse graph after recording `module` as a dependent of each of
/// `deps[i..]`, in order.
pub open spec fn add_dependents(
    inv: Seq<(Seq<char>, Seq<Seq<char>>)>,
    module: Seq<char>,
    deps: Seq<Seq<char>>,
    i: int,
) -> Seq<(Seq<char>, Seq<Seq<char>>)>
    decreases deps.len() - i,
    when 0 <= i <= deps.len()
{
    if i >= deps.len() {
        inv
    } else {
        add_dependents(append_val(inv, deps[i], module), module, deps, i + 1)
    }
}

/// Both graphs after folding in one declaration: the forward entry for
/// `module` is set to `deps`, the inverse graph gains an entry for `module`
/// and lists `module` as a dependent of every name in `deps`.
pub open spec fn apply_decl(
    fwd: Seq<(Seq<char>, Seq<Seq<char>>)>,
    inv: Seq<(Seq<char>, Seq<Seq<char>>)>,
    module: Seq<char>,
    deps: Seq<Seq<char>>,
) -> (Seq<(Seq<char>, Seq<Seq<char>>)>, Seq<(Seq<char>, Seq<Seq<char>>)>) {
    (upsert(fwd, module, deps), add_dependents(ensure_entry(inv, module), module, deps, 0))
}

/// Both graphs after folding in the declarations extracted from
/// `contents[i..]`, in order; a text that declares no module contributes
/// nothing.
pub open spec fn build_from(
    contents: Seq<Seq<char>>,
    i: int,
    fwd: Seq<(Seq<char>, Seq<Seq<char>>)>,
    inv: Seq<(Seq<char>, Seq<Seq<char>>)>,
) -> (Seq<(Seq<char>, Seq<Seq<char>>)>, Seq<(Seq<char>, Seq<Seq<char>>)>)
    decreases contents.len() - i,
    when 0 <= i <= contents.len()
{
    if i >= contents.len() {
        (fwd, inv)
    } else {
        match module_decl(contents[i]) {
            None => build_from(contents, i + 1, fwd, inv),
            Some(m) => {
                let p = apply_decl(fwd, inv, m, use_deps(contents[i]));
                build_from(contents, i + 1, p.0, p.1)
            },
        }
    }
}

/// The pair of graphs built from the given file texts.
pub open spec fn build_spec(contents: Seq<Seq<char>>) -> (
    Seq<(Seq<char>, Seq<Seq<char>>)>,
    Seq<(Seq<char>, Seq<Seq<char>>)>,
) {
    build_from(
        contents,
        0,
        Seq::<(Seq<char>, Seq<Seq<char>>)>::empty(),
        Seq::<(Seq<char>, Seq<Seq<char>>)>::empty(),
    )
}

/// The forward and inverse adjacency graphs of one input set.
pub struct GraphPair {
    pub forward: Graph,
    pub inverse: Graph,
}

impl GraphPair {
    /// Two empty graphs.
    pub fn new() -> (g: GraphPair)
        ensures
            g.forward@ == Seq::<(Seq<char>, Seq<Seq<char>>)>::empty(),
            g.inverse@ == Seq::<(Seq<char>, Seq<Seq<char>>)>::empty(),
            wf(g.forward@),
            wf(g.inverse@),
    {
        GraphPair { forward: Graph::new(), inverse: Graph::new() }
    }

    /// Records one declaration: `module` with its ordered dependency list.
    /// The forward entry for `module` is set to `deps` (overwriting any
    /// earlier declaration of the same name), the inverse graph gains an
    /// entry for `module`, and `module` is appended as a dependent of every
    /// name in `deps`, duplicates included.
    pub fn add_module(&mut self, module: &String, deps: Vec<String>)
        requires
            wf(old(self).forward@),
            wf(old(self).inverse@),
        ensures
            final(self).forward@ == upsert(old(self).forward@, module@, deps.deep_view()),
            final(self).inverse@ == add_dependents(
                ensure_entry(old(self).inverse@, module@),
                module@,
                deps.deep_view(),
                0,
            ),
            wf(final(self).forward@),
            wf(final(self).inverse@),
    {
        let ghost dv = deps.deep_view();
        let ghost fwd0 = self.forward@;
        self.inverse.ensure_key(module);
        let ghost inv0 = self.inverse@;
        let n = deps.len();
        let mut idx: usize = 0;
        while idx < n
            invariant
                0 <= idx <= n,
                n == deps.len(),
                dv == deps.deep_view(),
                self.forward@ == fwd0,
                wf(self.forward@),
                wf(self.inverse@),
                add_dependents(self.inverse@, module@, dv, idx as int) == add_dependents(
                    inv0,
                    module@,
                    dv,
                    0,
                ),
            decreases n - idx,
        {
            assert(dv[idx as int] == deps[idx as int]@);
            self.inverse.push_val(&deps[idx], module.clone());
            idx = idx + 1;
        }
        self.forward.insert(module, deps);
    }
}

/// Builds the forward and inverse graphs from the given file texts: each
/// text that declares a module contributes that module and its dependency
/// references; a text with no module declaration is skipped.
pub fn build_graphs(contents: &Vec<String>) -> (g: GraphPair)
    ensures
        g.forward@ == build_spec(contents.deep_view()).0,
        g.inverse@ == build_spec(contents.deep_view()).1,
        wf(g.forward@),
        wf(g.inverse@),
{
    let ghost cv = contents.deep_view();
    let mut g = GraphPair::new();
    let n = contents.len();
    let mut i: usize = 0;
    while i < n
        invariant
            0 <= i <= n,
            n == contents@.len(),
            cv == contents.deep_view(),
            wf(g.forward@),
            wf(g.inverse@),
            build_from(cv, i as int, g.forward@, g.inverse@) == build_spec(cv),
        decreases n - i,
    {
        assert(cv[i as int] == contents[i as int]@);
        match extract_module_name(contents[i].as_str()) {
            Some(m) => {
                let deps = extract_use_deps(contents[i].as_str());
                g.add_module(&m, deps);
            },
            None => {},
        }
        i = i + 1;
    }
    g
}

/// An edge of a graph: `a`'s entry lists `b`.
pub open spec fn edge(g: Seq<(Seq<char>, Seq<Seq<char>>)>, a: Seq<char>, b: Seq<char>) -> bool {
    has_key(g, a) && lookup(g, a).contains(b)
}

/// The two graphs are exact transposes of one another: `a` lists `b` in one
/// exactly when `b` lists `a` in the other.
pub open spec fn transposed(
    fwd: Seq<(Seq<char>, Seq<Seq<char>>)>,
    inv: Seq<(Seq<char>, Seq<Seq<char>>)>,
) -> bool {
    forall|a: Seq<char>, b: Seq<char>|
        #![trigger edge(fwd, a, b)]
        #![trigger edge(inv, b, a)]
        edge(fwd, a, b) <==> edge(inv, b, a)
}

/// Whether some text in `contents[..i]` declares module `k`.
pub open spec fn declared_before(contents: Seq<Seq<char>>, i: int, k: Seq<char>) -> bool {
    exists|l: int| 0 <= l < i && #[trigger] module_decl(contents[l]) == Some(k)
}

/// No module name is declared by two different texts of the input set.
pub open spec fn distinct_decls(contents: Seq<Seq<char>>) -> bool {
    forall|i: int, j: int|
        0 <= i < j < contents.len() && #[trigger] module_decl(contents[i]) is Some ==> #[trigger] module_decl(
            contents[j],
        ) != module_decl(contents[i])
}

proof fn lemma_push_contains(s: Seq<Seq<char>>, v: Seq<char>, x: Seq<char>)
    ensures
        s.push(v).contains(x) <==> (s.contains(x) || x == v),
{
    if s.contains(x) {
        let i = choose|i: int| 0 <= i < s.len() && s[i] == x;
        assert(s.push(v)[i] == x);
    }
    assert(s.push(v)[s.len() as int] == v);
    if s.push(v).contains(x) && x != v {
        let i = choose|i: int| 0 <= i < s.push(v).len() && s.push(v)[i] == x;
        assert(s[i] == x);
    }
}

/// What `add_dependents` does: an entry's list gains `module`, once per
/// occurrence of its key in `deps[i..]`, and the keys gain every name in
/// `deps[i..]`.
proof fn lemma_add_dependents_props(
    inv: Seq<(Seq<char>, Seq<Seq<char>>)>,
    module: Seq<char>,
    deps: Seq<Seq<char>>,
    i: int,
)
    requires
        wf(inv),
        0 <= i <= deps.len(),
    ensures
        wf(add_dependents(inv, module, deps, i)),
        forall|b: Seq<char>|
            #[trigger] has_key(add_dependents(inv, module, deps, i), b) <==> (has_key(inv, b) || (
            exists|l: int| i <= l < deps.len() && #[trigger] deps[l] == b)),
        forall|b: Seq<char>, x: Seq<char>|
            #[trigger] lookup(add_dependents(inv, module, deps, i), b).contains(x) <==> (lookup(
                inv,
                b,
            ).contains(x) || (x == module && (exists|l: int|
                i <= l < deps.len() && #[trigger] deps[l] == b))),
    decreases deps.len() - i,
{
    if i < deps.len() {
        let d = deps[i];
        let inv1 = append_val(inv, d, module);
        lemma_upsert_props(inv, d, lookup(inv, d).push(module));
        assert(lookup(inv1, d) == lookup(inv, d).push(module));
        lemma_add_dependents_props(inv1, module, deps, i + 1);
        let r = add_dependents(inv, module, deps, i);
        assert(r == add_dependents(inv1, module, deps, i + 1));
        assert forall|b: Seq<char>| #[trigger] has_key(r, b) <==> (has_key(inv, b) || (
        exists|l: int| i <= l < deps.len() && #[trigger] deps[l] == b)) by {
            if has_key(r, b) {
                if !has_key(inv, b) {
                    if b == d {
                        assert(deps[i] == b);
                    } else {
                        if has_key(inv1, b) {
                        } else {
                            let l = choose|l: int|
                                i + 1 <= l < deps.len() && #[trigger] deps[l] == b;
                            assert(deps[l] == b);
                        }
                    }
                }
            } else {
                assert(!has_key(inv1, b));
                assert(!has_key(inv, b) || b == d || !has_key(inv, b));
                if exists|l: int| i <= l < deps.len() && #[trigger] deps[l] == b {
                    let l = choose|l: int| i <= l < deps.len() && #[trigger] deps[l] == b;
                    if l == i {
                        assert(has_key(inv1, d));
                        assert(has_key(r, b));
                    } else {
                        assert(has_key(r, b));
                    }
                }
            }
        }
        assert forall|b: Seq<char>, x: Seq<char>| #[trigger] lookup(r, b).contains(x) <==> (lookup(
            inv,
            b,
        ).contains(x) || (x == module && (exists|l: int|
            i <= l < deps.len() && #[trigger] deps[l] == b))) by {
            lemma_push_contains(lookup(inv, b), module, x);
            if b == d {
                assert(lookup(inv1, b).contains(x) <==> (lookup(inv, b).contains(x) || x
                    == module));
            } else {
                assert(lookup(inv1, b) == lookup(inv, b));
            }
            if lookup(r, b).contains(x) {
                if !lookup(inv, b).contains(x) {
                    assert(x == module);
                    if lookup(inv1, b).contains(x) {
                        assert(b == d);
                        assert(deps[i] == b);
                    } else {
                        let l = choose|l: int| i + 1 <= l < deps.len() && #[trigger] deps[l] == b;
                        assert(deps[l] == b);
                    }
                }
            } else {
                if x == module && (exists|l: int| i <= l < deps.len() && #[trigger] deps[l] == b) {
                    let l = choose|l: int| i <= l < deps.len() && #[trigger] deps[l] == b;
                    if l == i {
                        assert(lookup(inv1, b).contains(x));
                        assert(lookup(r, b).contains(x));
                    } else {
                        assert(lookup(r, b).contains(x));
                    }
                }
            }
        }
    }
}

/// Folding in one declaration of a not-yet-declared module preserves the
/// transpose relation.
proof fn lemma_apply_decl_transposed(
    fwd: Seq<(Seq<char>, Seq<Seq<char>>)>,
    inv: Seq<(Seq<char>, Seq<Seq<char>>)>,
    module: Seq<char>,
    deps: Seq<Seq<char>>,
)
    requires
        wf(fwd),
        wf(inv),
        transposed(fwd, inv),
        !has_key(fwd, module),
    ensures
        wf(apply_decl(fwd, inv, module, deps).0),
        wf(apply_decl(fwd, inv, module, deps).1),
        transposed(apply_decl(fwd, inv, module, deps).0, apply_decl(fwd, inv, module, deps).1),
        forall|k: Seq<char>|
            #[trigger] has_key(apply_decl(fwd, inv, module, deps).0, k) <==> (has_key(fwd, k) || k
                == module),
{
    let fwd2 = upsert(fwd, module, deps);
    let inv1 = ensure_entry(inv, module);
    let inv2 = add_dependents(inv1, module, deps, 0);
    lemma_upsert_props(fwd, module, deps);
    if !has_key(inv, module) {
        lemma_upsert_props(inv, module, Seq::empty());
    }
    assert(wf(inv1));
    assert(forall|b: Seq<char>, x: Seq<char>|
        #[trigger] lookup(inv1, b).contains(x) == lookup(inv, b).contains(x));
    lemma_add_dependents_props(inv1, module, deps, 0);
    assert forall|a: Seq<char>, b: Seq<char>| edge(fwd2, a, b) <==> edge(inv2, b, a) by {
        if a == module {
            // fwd2's entry for the new module lists exactly `deps`; the
            // inverse fold has appended `module` to exactly those keys.
            assert(lookup(fwd2, module) == deps);
            assert(edge(fwd, module, b) == false);
            assert(!lookup(inv, b).contains(module)) by {
                if lookup(inv, b).contains(module) {
                    assert(has_key(inv, b));
                    assert(edge(inv, b, module));
                    assert(edge(fwd, module, b));
                }
            }
            if edge(fwd2, a, b) {
                let l = choose|l: int| 0 <= l < deps.len() && deps[l] == b;
                assert(0 <= l < deps.len() && #[trigger] deps[l] == b);
                assert(has_key(inv2, b));
                assert(lookup(inv2, b).contains(module));
            }
            if edge(inv2, b, a) {
                assert(lookup(inv2, b).contains(module));
                assert(exists|l: int| 0 <= l < deps.len() && #[trigger] deps[l] == b);
                let l = choose|l: int| 0 <= l < deps.len() && #[trigger] deps[l] == b;
                assert(deps.contains(b));
            }
        } else {
            assert(lookup(fwd2, a) == lookup(fwd, a));
            assert(has_key(fwd2, a) == has_key(fwd, a));
            assert(edge(fwd2, a, b) == edge(fwd, a, b));
            assert(lookup(inv2, b).contains(a) == lookup(inv1, b).contains(a));
            assert(edge(inv2, b, a) == edge(inv, b, a)) by {
                if lookup(inv, b).contains(a) {
                    assert(has_key(inv, b));
                    assert(has_key(inv2, b));
                }
                if edge(inv2, b, a) {
                    assert(lookup(inv, b).contains(a));
                    assert(has_key(inv, b));
                }
            }
        }
    }
}

/// Folding declarations from `i` on preserves the transpose relation, given
/// that the forward keys so far are exactly the modules declared before `i`
/// and no module is declared twice.
proof fn lemma_build_from_transposed(
    contents: Seq<Seq<char>>,
    i: int,
    fwd: Seq<(Seq<char>, Seq<Seq<char>>)>,
    inv: Seq<(Seq<char>, Seq<Seq<char>>)>,
)
    requires
        0 <= i <= contents.len(),
        distinct_decls(contents),
        wf(fwd),
        wf(inv),
        transposed(fwd, inv),
        forall|k: Seq<char>| #[trigger] has_key(fwd, k) <==> declared_before(contents, i, k),
    ensures
        transposed(build_from(contents, i, fwd, inv).0, build_from(contents, i, fwd, inv).1),
    decreases contents.len() - i,
{
    if i < contents.len() {
        match module_decl(contents[i]) {
            None => {
                assert forall|k: Seq<char>| #[trigger] has_key(fwd, k) <==> declared_before(
                    contents,
                    i + 1,
                    k,
                ) by {
                    if declared_before(contents, i + 1, k) {
                        let l = choose|l: int|
                            0 <= l < i + 1 && #[trigger] module_decl(contents[l]) == Some(k);
                        assert(l < i);
                        assert(declared_before(contents, i, k));
                    }
                    if declared_before(contents, i, k) {
                        let l = choose|l: int|
                            0 <= l < i && #[trigger] module_decl(contents[l]) == Some(k);
                        assert(declared_before(contents, i + 1, k));
                    }
                }
                lemma_build_from_transposed(contents, i + 1, fwd, inv);
            },
            Some(m) => {
                assert(!has_key(fwd, m)) by {
                    if has_key(fwd, m) {
                        let l = choose|l: int|
                            0 <= l < i && #[trigger] module_decl(contents[l]) == Some(m);
                        assert(module_decl(contents[i]) == Some(m));
                    }
                }
                let deps = use_deps(contents[i]);
                lemma_apply_decl_transposed(fwd, inv, m, deps);
                let p = apply_decl(fwd, inv, m, deps);
                assert forall|k: Seq<char>| #[trigger] has_key(p.0, k) <==> declared_before(
                    contents,
                    i + 1,
                    k,
                ) by {
                    if has_key(p.0, k) {
                        if k == m {
                            assert(module_decl(contents[i]) == Some(k));
                            assert(declared_before(contents, i + 1, k));
                        } else {
                            assert(has_key(fwd, k));
                            let l = choose|l: int|
                                0 <= l < i && #[trigger] module_decl(contents[l]) == Some(k);
                            assert(declared_before(contents, i + 1, k));
                        }
                    }
                    if declared_before(contents, i + 1, k) {
                        let l = choose|l: int|
                            0 <= l < i + 1 && #[trigger] module_decl(contents[l]) == Some(k);
                        if l == i {
                            assert(k == m);
                        } else {
                            assert(declared_before(contents, i, k));
                        }
                    }
                }
                lemma_build_from_transposed(contents, i + 1, p.0, p.1);
            },
        }
    }
}

/// Whether some text of the input set declares module `k`.
pub open spec fn declared_in(contents: Seq<Seq<char>>, k: Seq<char>) -> bool {
    exists|l: int| 0 <= l < contents.len() && #[trigger] module_decl(contents[l]) == Some(k)
}

/// Whether `k` appears anywhere in the input set: declared by some text, or
/// referenced as a dependency by a text that declares a module.
pub open spec fn mentioned_in(contents: Seq<Seq<char>>, k: Seq<char>) -> bool {
    exists|l: int|
        0 <= l < contents.len() && (#[trigger] module_decl(contents[l]) is Some && (module_decl(
            contents[l],
        ) == Some(k) || use_deps(contents[l]).contains(k)))
}

proof fn lemma_build_from_keys(
    contents: Seq<Seq<char>>,
    i: int,
    fwd: Seq<(Seq<char>, Seq<Seq<char>>)>,
    inv: Seq<(Seq<char>, Seq<Seq<char>>)>,
)
    requires
        0 <= i <= contents.len(),
        wf(fwd),
        wf(inv),
    ensures
        forall|k: Seq<char>|
            #[trigger] has_key(build_from(contents, i, fwd, inv).0, k) <==> (has_key(fwd, k) || (
            exists|l: int| i <= l < contents.len() && #[trigger] module_decl(contents[l]) == Some(k))),
        forall|k: Seq<char>|
            #[trigger] has_key(build_from(contents, i, fwd, inv).1, k) <==> (has_key(inv, k) || (
            exists|l: int|
                i <= l < contents.len() && (#[trigger] module_decl(contents[l]) is Some && (
                module_decl(contents[l]) == Some(k) || use_deps(contents[l]).contains(k))))),
    decreases contents.len() - i,
{
    if i < contents.len() {
        match module_decl(contents[i]) {
            None => {
                lemma_build_from_keys(contents, i + 1, fwd, inv);
                assert(build_from(contents, i, fwd, inv) == build_from(contents, i + 1, fwd, inv));
                assert forall|k: Seq<char>|
                    #[trigger] has_key(build_from(contents, i, fwd, inv).0, k) <==> (has_key(
                        fwd,
                        k,
                    ) || (exists|l: int|
                        i <= l < contents.len() && #[trigger] module_decl(contents[l]) == Some(
                            k,
                        ))) by {
                    if has_key(build_from(contents, i, fwd, inv).0, k) && !has_key(fwd, k) {
                        let l = choose|l: int|
                            i + 1 <= l < contents.len() && #[trigger] module_decl(contents[l])
                                == Some(k);
                        assert(module_decl(contents[l]) == Some(k));
                    }
                    if exists|l: int|
                        i <= l < contents.len() && #[trigger] module_decl(contents[l]) == Some(k) {
                        let l = choose|l: int|
                            i <= l < contents.len() && #[trigger] module_decl(contents[l]) == Some(
                                k,
                            );
                        assert(l != i);
                        assert(has_key(build_from(contents, i + 1, fwd, inv).0, k));
                    }
                }
                assert forall|k: Seq<char>|
                    #[trigger] has_key(build_from(contents, i, fwd, inv).1, k) <==> (has_key(
                        inv,
                        k,
                    ) || (exists|l: int|
                        i <= l < contents.len() && (#[trigger] module_decl(contents[l]) is Some && (
                        module_decl(contents[l]) == Some(k) || use_deps(contents[l]).contains(
                            k,
                        ))))) by {
                    if has_key(build_from(contents, i, fwd, inv).1, k) && !has_key(inv, k) {
                        let l = choose|l: int|
                            i + 1 <= l < contents.len() && (#[trigger] module_decl(
                                contents[l],
                            ) is Some && (module_decl(contents[l]) == Some(k) || use_deps(
                                contents[l],
                            ).contains(k)));
                        assert(module_decl(contents[l]) is Some && (module_decl(contents[l])
                            == Some(k) || use_deps(contents[l]).contains(k)));
                    }
                    if exists|l: int|
                        i <= l < contents.len() && (#[trigger] module_decl(contents[l]) is Some && (
                        module_decl(contents[l]) == Some(k) || use_deps(contents[l]).contains(k))) {
                        let l = choose|l: int|
                            i <= l < contents.len() && (#[trigger] module_decl(
                                contents[l],
                            ) is Some && (module_decl(contents[l]) == Some(k) || use_deps(
                                contents[l],
                            ).contains(k)));
                        assert(l != i);
                        assert(has_key(build_from(contents, i + 1, fwd, inv).1, k));
                    }
                }
            },
            Some(m) => {
                let deps = use_deps(contents[i]);
                let fwd2 = upsert(fwd, m, deps);
                let inv1 = ensure_entry(inv, m);
                let inv2 = add_dependents(inv1, m, deps, 0);
                assert(apply_decl(fwd, inv, m, deps) == (fwd2, inv2));
                assert(build_from(contents, i, fwd, inv) == build_from(contents, i + 1, fwd2, inv2));
                lemma_upsert_props(fwd, m, deps);
                if !has_key(inv, m) {
                    lemma_upsert_props(inv, m, Seq::empty());
                }
                lemma_add_dependents_props(inv1, m, deps, 0);
                lemma_build_from_keys(contents, i + 1, fwd2, inv2);
                assert forall|k: Seq<char>|
                    #[trigger] has_key(build_from(contents, i, fwd, inv).0, k) <==> (has_key(
                        fwd,
                        k,
                    ) || (exists|l: int|
                        i <= l < contents.len() && #[trigger] module_decl(contents[l]) == Some(
                            k,
                        ))) by {
                    if has_key(build_from(contents, i, fwd, inv).0, k) {
                        if !has_key(fwd, k) {
                            if has_key(fwd2, k) {
                                assert(k == m);
                                assert(module_decl(contents[i]) == Some(k));
                            } else {
                                let l = choose|l: int|
                                    i + 1 <= l < contents.len() && #[trigger] module_decl(
                                        contents[l],
                                    ) == Some(k);
                                assert(module_decl(contents[l]) == Some(k));
                            }
                        }
                    } else {
                        assert(!has_key(fwd2, k));
                        if exists|l: int|
                            i <= l < contents.len() && #[trigger] module_decl(contents[l]) == Some(
                                k,
                            ) {
                            let l = choose|l: int|
                                i <= l < contents.len() && #[trigger] module_decl(contents[l])
                                    == Some(k);
                            if l == i {
                                assert(k == m);
                                assert(has_key(fwd2, k));
                            } else {
                                assert(has_key(build_from(contents, i + 1, fwd2, inv2).0, k));
                            }
                        }
                    }
                }
                assert forall|k: Seq<char>|
                    #[trigger] has_key(build_from(contents, i, fwd, inv).1, k) <==> (has_key(
                        inv,
                        k,
                    ) || (exists|l: int|
                        i <= l < contents.len() && (#[trigger] module_decl(contents[l]) is Some && (
                        module_decl(contents[l]) == Some(k) || use_deps(contents[l]).contains(
                            k,
                        ))))) by {
                    if has_key(build_from(contents, i, fwd, inv).1, k) {
                        if !has_key(inv, k) {
                            if has_key(inv2, k) {
                                if k == m {
                                    assert(module_decl(contents[i]) == Some(k));
                                } else {
                                    assert(!has_key(inv1, k));
                                    let l = choose|l: int|
                                        0 <= l < deps.len() && #[trigger] deps[l] == k;
                                    assert(use_deps(contents[i]).contains(k));
                                }
                            } else {
                                let l = choose|l: int|
                                    i + 1 <= l < contents.len() && (#[trigger] module_decl(
                                        contents[l],
                                    ) is Some && (module_decl(contents[l]) == Some(k) || use_deps(
                                        contents[l],
                                    ).contains(k)));
                                assert(module_decl(contents[l]) is Some && (module_decl(
                                    contents[l],
                                ) == Some(k) || use_deps(contents[l]).contains(k)));
                            }
                        }
                    } else {
                        assert(!has_key(inv2, k));
                        if exists|l: int|
                            i <= l < contents.len() && (#[trigger] module_decl(
                                contents[l],
                            ) is Some && (module_decl(contents[l]) == Some(k) || use_deps(
                                contents[l],
                            ).contains(k))) {
                            let l = choose|l: int|
                                i <= l < contents.len() && (#[trigger] module_decl(
                                    contents[l],
                                ) is Some && (module_decl(contents[l]) == Some(k) || use_deps(
                                    contents[l],
                                ).contains(k)));
                            if l == i {
                                if k == m {
                                    assert(has_key(inv1, k));
                                    assert(has_key(inv2, k));
                                } else {
                                    assert(use_deps(contents[i]).contains(k));
                                    let d = choose|d: int|
                                        0 <= d < deps.len() && deps[d] == k;
                                    assert(0 <= d < deps.len() && #[trigger] deps[d] == k);
                                    assert(has_key(inv2, k));
                                }
                            } else {
                                assert(has_key(build_from(contents, i + 1, fwd2, inv2).1, k));
                            }
                        }
                    }
                }
            },
        }
    }
}

/// Law: the forward graph's keys are exactly the declared modules, and the
/// inverse graph has an entry for every module that appears anywhere in the
/// input set — declared by a text, or referenced as a dependency by a text
/// that declares a module.
pub proof fn lemma_build_keys(contents: Seq<Seq<char>>)
    ensures
        forall|k: Seq<char>|
            #[trigger] has_key(build_spec(contents).0, k) <==> declared_in(contents, k),
        forall|k: Seq<char>|
            #[trigger] has_key(build_spec(contents).1, k) <==> mentioned_in(contents, k),
{
    let fwd0 = Seq::<(Seq<char>, Seq<Seq<char>>)>::empty();
    let inv0 = Seq::<(Seq<char>, Seq<Seq<char>>)>::empty();
    assert(forall|k: Seq<char>| !(#[trigger] has_key(fwd0, k)));
    assert(forall|k: Seq<char>| !(#[trigger] has_key(inv0, k)));
    lemma_build_from_keys(contents, 0, fwd0, inv0);
}

/// Folding declarations preserves the one-directional containment of
/// forward edges in the inverse graph, with no assumption on the input.
proof fn lemma_build_from_edges(
    contents: Seq<Seq<char>>,
    i: int,
    fwd: Seq<(Seq<char>, Seq<Seq<char>>)>,
    inv: Seq<(Seq<char>, Seq<Seq<char>>)>,
)
    requires
        0 <= i <= contents.len(),
        wf(fwd),
        wf(inv),
        forall|a: Seq<char>, b: Seq<char>| #[trigger] edge(fwd, a, b) ==> edge(inv, b, a),
    ensures
        forall|a: Seq<char>, b: Seq<char>|
            #[trigger] edge(build_from(contents, i, fwd, inv).0, a, b) ==> edge(
                build_from(contents, i, fwd, inv).1,
                b,
                a,
            ),
    decreases contents.len() - i,
{
    if i < contents.len() {
        match module_decl(contents[i]) {
            None => {
                lemma_build_from_edges(contents, i + 1, fwd, inv);
                assert(build_from(contents, i, fwd, inv) == build_from(contents, i + 1, fwd, inv));
            },
            Some(m) => {
                let deps = use_deps(contents[i]);
                let fwd2 = upsert(fwd, m, deps);
                let inv1 = ensure_entry(inv, m);
                let inv2 = add_dependents(inv1, m, deps, 0);
                assert(apply_decl(fwd, inv, m, deps) == (fwd2, inv2));
                assert(build_from(contents, i, fwd, inv) == build_from(contents, i + 1, fwd2, inv2));
                lemma_upsert_props(fwd, m, deps);
                if !has_key(inv, m) {
                    lemma_upsert_props(inv, m, Seq::empty());
                }
                assert(forall|b: Seq<char>, x: Seq<char>|
                    #[trigger] lookup(inv1, b).contains(x) == lookup(inv, b).contains(x));
                lemma_add_dependents_props(inv1, m, deps, 0);
                assert forall|a: Seq<char>, b: Seq<char>| #[trigger] edge(fwd2, a, b) implies edge(
                    inv2,
                    b,
                    a,
                ) by {
                    if a == m {
                        assert(lookup(fwd2, m) == deps);
                        let l = choose|l: int| 0 <= l < deps.len() && deps[l] == b;
                        assert(0 <= l < deps.len() && #[trigger] deps[l] == b);
                        assert(has_key(inv2, b));
                        assert(lookup(inv2, b).contains(m));
                    } else {
                        assert(lookup(fwd2, a) == lookup(fwd, a));
                        assert(has_key(fwd2, a) == has_key(fwd, a));
                        assert(edge(fwd, a, b));
                        assert(edge(inv, b, a));
                        assert(lookup(inv2, b).contains(a));
                        assert(has_key(inv2, b));
                    }
                }
                lemma_build_from_edges(contents, i + 1, fwd2, inv2);
            },
        }
    }
}

/// Law: every edge recorded while building the forward graph appears in the
/// inverse graph, for any input set (duplicate declarations included): if
/// `a`'s forward entry lists `b`, then `b`'s inverse entry lists `a`.
pub proof fn lemma_build_edges_in_inverse(contents: Seq<Seq<char>>)
    ensures
        forall|a: Seq<char>, b: Seq<char>|
            #[trigger] edge(build_spec(contents).0, a, b) ==> edge(build_spec(contents).1, b, a),
{
    let fwd0 = Seq::<(Seq<char>, Seq<Seq<char>>)>::empty();
    let inv0 = Seq::<(Seq<char>, Seq<Seq<char>>)>::empty();
    lemma_build_from_edges(contents, 0, fwd0, inv0);
}

/// Law: when no module name is declared by two different texts, the forward
/// and inverse graphs built from the texts are exact transposes: `a`'s
/// forward entry lists `b` exactly when `b`'s inverse entry lists `a`.
pub proof fn lemma_build_transposed(contents: Seq<Seq<char>>)
    requires
        distinct_decls(contents),
    ensures
        transposed(build_spec(contents).0, build_spec(contents).1),
{
    let fwd0 = Seq::<(Seq<char>, Seq<Seq<char>>)>::empty();
    let inv0 = Seq::<(Seq<char>, Seq<Seq<char>>)>::empty();
    assert forall|k: Seq<char>| #[trigger] has_key(fwd0, k) <==> declared_before(contents, 0, k)
        by {
            if has_key(fwd0, k) {
                let l = choose|l: int| 0 <= l < fwd0.len() && (#[trigger] fwd0[l]).0 == k;
            }
            if declared_before(contents, 0, k) {
                let l = choose|l: int| 0 <= l < 0 && #[trigger] module_decl(contents[l]) == Some(k);
            }
        }
    lemma_build_from_transposed(contents, 0, fwd0, inv0);
}

} // verus!
