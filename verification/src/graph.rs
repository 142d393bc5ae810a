//! An adjacency mapping from module names to ordered lists of module names,
//! kept sorted by key so that iteration over entries is deterministic.
//!
//! The view of a [`Graph`] is the sequence of its entries, each a pair of the
//! key and its ordered value list. The well-formedness predicate [`wf`] says
//! the keys are strictly increasing in lexicographic order, which makes them
//! unique and fixes the iteration order.

use vstd::prelude::*;

verus! {

/// Strict lexicographic order on character sequences, compared from
/// position `i` on: code-point order on the first differing character, with
/// a proper prefix ordered first.
pub open spec fn lex_lt_from(a: Seq<char>, b: Seq<char>, i: int) -> bool
    decreases a.len() - i,
    when 0 <= i <= a.len()
{
    if i >= a.len() {
        i < b.len()
    } else if i >= b.len() {
        false
    } else if a[i] != b[i] {
        (a[i] as u32) < (b[i] as u32)
    } else {
        lex_lt_from(a, b, i + 1)
    }
}

/// Strict lexicographic order on character sequences.
pub open spec fn lex_lt(a: Seq<char>, b: Seq<char>) -> bool {
    lex_lt_from(a, b, 0)
}

proof fn lemma_lex_irrefl_from(a: Seq<char>, i: int)
    requires
        0 <= i <= a.len(),
    ensures
        !lex_lt_from(a, a, i),
    decreases a.len() - i,
{
    if i < a.len() {
        lemma_lex_irrefl_from(a, i + 1);
    }
}

pub proof fn lemma_lex_irrefl(a: Seq<char>)
    ensures
        !lex_lt(a, a),
{
    lemma_lex_irrefl_from(a, 0);
}

proof fn lemma_lex_connex_from(a: Seq<char>, b: Seq<char>, i: int)
    requires
        0 <= i <= a.len(),
        0 <= i <= b.len(),
        forall|l: int| 0 <= l < i ==> a[l] == b[l],
    ensures
        a == b || lex_lt_from(a, b, i) || lex_lt_from(b, a, i),
    decreases a.len() - i,
{
    if i >= a.len() {
        if i >= b.len() {
            assert(a =~= b);
        }
    } else if i >= b.len() {
    } else if a[i] != b[i] {
        assert((a[i] as u32) != (b[i] as u32)) by {
            vstd::utf8::char_u32_cast(a[i], a[i] as u32);
            vstd::utf8::char_u32_cast(b[i], b[i] as u32);
        }
    } else {
        lemma_lex_connex_from(a, b, i + 1);
    }
}

/// Any two character sequences are equal or ordered one way by `lex_lt`.
pub proof fn lemma_lex_connex(a: Seq<char>, b: Seq<char>)
    ensures
        a == b || lex_lt(a, b) || lex_lt(b, a),
{
    lemma_lex_connex_from(a, b, 0);
}

proof fn lemma_lex_trans_from(a: Seq<char>, b: Seq<char>, c: Seq<char>, i: int)
    requires
        0 <= i <= a.len(),
        0 <= i <= b.len(),
        0 <= i <= c.len(),
        lex_lt_from(a, b, i),
        lex_lt_from(b, c, i),
    ensures
        lex_lt_from(a, c, i),
    decreases a.len() - i,
{
    if i >= a.len() {
    } else if i >= b.len() {
    } else if i >= c.len() {
    } else if a[i] == b[i] && b[i] == c[i] {
        lemma_lex_trans_from(a, b, c, i + 1);
    }
}

/// `lex_lt` is transitive.
pub proof fn lemma_lex_trans(a: Seq<char>, b: Seq<char>, c: Seq<char>)
    requires
        lex_lt(a, b),
        lex_lt(b, c),
    ensures
        lex_lt(a, c),
{
    lemma_lex_trans_from(a, b, c, 0);
}

/// One graph entry: a module name and its ordered list of adjacent module
/// names.
pub struct GraphEntry {
    pub key: String,
    pub vals: Vec<String>,
}

/// An adjacency mapping with entries kept sorted by key.
pub struct Graph {
    pub entries: Vec<GraphEntry>,
}

impl View for Graph {
    type V = Seq<(Seq<char>, Seq<Seq<char>>)>;

    open spec fn view(&self) -> Seq<(Seq<char>, Seq<Seq<char>>)> {
        Seq::new(self.entries@.len(), |i: int| (self.entries@[i].key@, self.entries@[i].vals.deep_view()))
    }
}

/// Entries are strictly increasing by key, so keys are unique and the entry
/// order is determined by the key set.
pub open spec fn wf(g: Seq<(Seq<char>, Seq<Seq<char>>)>) -> bool {
    forall|i: int, j: int| 0 <= i < j < g.len() ==> lex_lt((#[trigger] g[i]).0, (#[trigger] g[j]).0)
}

/// Whether some entry of `g` has key `k`.
pub open spec fn has_key(g: Seq<(Seq<char>, Seq<Seq<char>>)>, k: Seq<char>) -> bool {
    exists|i: int| 0 <= i < g.len() && (#[trigger] g[i]).0 == k
}

/// The index of the entry with key `k`, meaningful when `has_key` holds and
/// the keys are unique.
pub open spec fn key_index(g: Seq<(Seq<char>, Seq<Seq<char>>)>, k: Seq<char>) -> int {
    choose|i: int| 0 <= i < g.len() && (#[trigger] g[i]).0 == k
}

/// The value list of the entry with key `k`, or the empty list when `g` has
/// no such entry.
pub open spec fn lookup(g: Seq<(Seq<char>, Seq<Seq<char>>)>, k: Seq<char>) -> Seq<Seq<char>> {
    if has_key(g, k) {
        g[key_index(g, k)].1
    } else {
        Seq::empty()
    }
}

/// In a well-formed graph an entry's index is determined by its key.
pub proof fn lemma_wf_unique(g: Seq<(Seq<char>, Seq<Seq<char>>)>, i: int, j: int)
    requires
        wf(g),
        0 <= i < g.len(),
        0 <= j < g.len(),
        g[i].0 == g[j].0,
    ensures
        i == j,
{
    if i < j || j < i {
        lemma_lex_irrefl(g[i].0);
    }
}

/// In a well-formed graph, an index whose entry carries key `k` is the
/// `key_index` for `k`, and `lookup` returns that entry's value list.
pub proof fn lemma_found_index(g: Seq<(Seq<char>, Seq<Seq<char>>)>, k: Seq<char>, j: int)
    requires
        wf(g),
        0 <= j < g.len(),
        g[j].0 == k,
    ensures
        has_key(g, k),
        key_index(g, k) == j,
        lookup(g, k) == g[j].1,
{
    assert(has_key(g, k));
    lemma_wf_unique(g, key_index(g, k), j);
}

/// The position at or after `i` where an entry with key `k` belongs: the
/// first index whose key is not lexicographically below `k`.
pub open spec fn ins_pos_from(g: Seq<(Seq<char>, Seq<Seq<char>>)>, k: Seq<char>, i: int) -> int
    decreases g.len() - i,
    when 0 <= i <= g.len()
{
    if i >= g.len() {
        i
    } else if lex_lt(g[i].0, k) {
        ins_pos_from(g, k, i + 1)
    } else {
        i
    }
}

/// The position where an entry with key `k` belongs in `g`.
pub open spec fn ins_pos(g: Seq<(Seq<char>, Seq<Seq<char>>)>, k: Seq<char>) -> int {
    ins_pos_from(g, k, 0)
}

proof fn lemma_ins_pos_from_bounds(g: Seq<(Seq<char>, Seq<Seq<char>>)>, k: Seq<char>, i: int)
    requires
        0 <= i <= g.len(),
    ensures
        i <= ins_pos_from(g, k, i) <= g.len(),
        forall|l: int| i <= l < ins_pos_from(g, k, i) ==> lex_lt((#[trigger] g[l]).0, k),
        ins_pos_from(g, k, i) < g.len() ==> !lex_lt(g[ins_pos_from(g, k, i)].0, k),
    decreases g.len() - i,
{
    if i < g.len() && lex_lt(g[i].0, k) {
        lemma_ins_pos_from_bounds(g, k, i + 1);
    }
}

pub proof fn lemma_ins_pos_bounds(g: Seq<(Seq<char>, Seq<Seq<char>>)>, k: Seq<char>)
    ensures
        0 <= ins_pos(g, k) <= g.len(),
        forall|l: int| 0 <= l < ins_pos(g, k) ==> lex_lt((#[trigger] g[l]).0, k),
        ins_pos(g, k) < g.len() ==> !lex_lt(g[ins_pos(g, k)].0, k),
{
    lemma_ins_pos_from_bounds(g, k, 0);
}

/// `g` with the entry for `k` set to `vals`: overwritten in place when `k`
/// is present, inserted at its sorted position when it is not.
pub open spec fn upsert(
    g: Seq<(Seq<char>, Seq<Seq<char>>)>,
    k: Seq<char>,
    vals: Seq<Seq<char>>,
) -> Seq<(Seq<char>, Seq<Seq<char>>)> {
    let j = ins_pos(g, k);
    if j < g.len() && g[j].0 == k {
        g.update(j, (k, vals))
    } else {
        g.insert(j, (k, vals))
    }
}

/// `g` with an entry for `k`, created empty when missing.
pub open spec fn ensure_entry(
    g: Seq<(Seq<char>, Seq<Seq<char>>)>,
    k: Seq<char>,
) -> Seq<(Seq<char>, Seq<Seq<char>>)> {
    if has_key(g, k) {
        g
    } else {
        upsert(g, k, Seq::empty())
    }
}

/// `g` with `v` appended to the value list of `k`, creating the entry with
/// `v` as sole value when `k` is missing.
pub open spec fn append_val(
    g: Seq<(Seq<char>, Seq<Seq<char>>)>,
    k: Seq<char>,
    v: Seq<char>,
) -> Seq<(Seq<char>, Seq<Seq<char>>)> {
    upsert(g, k, lookup(g, k).push(v))
}

/// What `upsert` does to a well-formed graph: well-formedness is preserved,
/// the entry for `k` holds exactly `vals`, and every other key's entry is
/// untouched.
pub proof fn lemma_upsert_props(
    g: Seq<(Seq<char>, Seq<Seq<char>>)>,
    k: Seq<char>,
    vals: Seq<Seq<char>>,
)
    requires
        wf(g),
    ensures
        wf(upsert(g, k, vals)),
        has_key(upsert(g, k, vals), k),
        lookup(upsert(g, k, vals), k) == vals,
        forall|k2: Seq<char>| k2 != k ==> has_key(upsert(g, k, vals), k2) == has_key(g, k2),
        forall|k2: Seq<char>| k2 != k ==> lookup(upsert(g, k, vals), k2) == lookup(g, k2),
        upsert(g, k, vals).len() == if has_key(g, k) {
            g.len()
        } else {
            g.len() + 1
        },
{
    let j = ins_pos(g, k);
    lemma_ins_pos_bounds(g, k);
    if j < g.len() && g[j].0 == k {
        let g2 = g.update(j, (k, vals));
        assert(forall|i: int| 0 <= i < g2.len() ==> (#[trigger] g2[i]).0 == g[i].0);
        assert(wf(g2));
        lemma_found_index(g2, k, j);
        lemma_found_index(g, k, j);
        assert forall|k2: Seq<char>| k2 != k implies has_key(g2, k2) == has_key(g, k2)
            && lookup(g2, k2) == lookup(g, k2) by {
            if has_key(g, k2) {
                let l = key_index(g, k2);
                assert(g2[l].0 == k2);
                lemma_found_index(g2, k2, l);
            }
            if has_key(g2, k2) {
                let l = key_index(g2, k2);
                assert(g[l].0 == k2);
                lemma_found_index(g, k2, l);
            }
        }
    } else {
        // `k` is absent: entries before `j` are below `k`, and `j` (when in
        // range) is strictly above `k`.
        assert(!has_key(g, k)) by {
            if has_key(g, k) {
                let l = key_index(g, k);
                if l < j {
                    lemma_lex_irrefl(k);
                } else if l > j {
                    // wf gives lex_lt(g[j].0, g[l].0) == lex_lt(g[j].0, k),
                    // contradicting !lex_lt(g[j].0, k) .. unless g[j].0 == k,
                    // excluded in this branch.
                    assert(lex_lt(g[j].0, k));
                } else {
                }
            }
        }
        if j < g.len() {
            lemma_lex_connex(g[j].0, k);
            assert(lex_lt(k, g[j].0));
        }
        let g2 = g.insert(j, (k, vals));
        assert(g2.len() == g.len() + 1);
        assert(forall|i: int| 0 <= i < j ==> g2[i] == g[i]);
        assert(g2[j] == (k, vals));
        assert(forall|i: int| j < i < g2.len() ==> g2[i] == g[i - 1]);
        assert forall|x: int, y: int| 0 <= x < y < g2.len() implies lex_lt(
            (#[trigger] g2[x]).0,
            (#[trigger] g2[y]).0,
        ) by {
            if x < j && y == j {
                // g2[x].0 == g[x].0 lex_lt k
            } else if x == j && y > j {
                // k lex_lt g[j].0 and wf chains upward
                if y == j + 1 {
                } else {
                    lemma_lex_trans(k, g[j].0, g[y - 1].0);
                }
            } else if x < j && y > j {
            } else {
            }
        }
        assert(wf(g2));
        lemma_found_index(g2, k, j);
        assert forall|k2: Seq<char>| k2 != k implies has_key(g2, k2) == has_key(g, k2)
            && lookup(g2, k2) == lookup(g, k2) by {
            if has_key(g, k2) {
                let l = key_index(g, k2);
                if l < j {
                    assert(g2[l].0 == k2);
                    lemma_found_index(g2, k2, l);
                    lemma_found_index(g, k2, l);
                } else {
                    assert(g2[l + 1].0 == k2);
                    lemma_found_index(g2, k2, l + 1);
                    lemma_found_index(g, k2, l);
                }
            } else {
                if has_key(g2, k2) {
                    let l = key_index(g2, k2);
                    if l < j {
                        assert(g[l].0 == k2);
                    } else if l > j {
                        assert(g[l - 1].0 == k2);
                    } else {
                    }
                }
            }
        }
    }
}

/// Lexicographic comparison of two strings, character by character.
fn str_lt(a: &String, b: &String) -> (r: bool)
    ensures
        r == lex_lt(a@, b@),
{
    let la = a.as_str().unicode_len();
    let lb = b.as_str().unicode_len();
    let mut i: usize = 0;
    while i < la && i < lb
        invariant
            0 <= i <= la,
            0 <= i <= lb,
            la == a@.len(),
            lb == b@.len(),
            lex_lt(a@, b@) == lex_lt_from(a@, b@, i as int),
        decreases la - i,
    {
        let ca = a.as_str().get_char(i);
        let cb = b.as_str().get_char(i);
        if ca != cb {
            return (ca as u32) < (cb as u32);
        }
        i = i + 1;
    }
    la < lb
}

impl Graph {
    /// The empty graph.
    pub fn new() -> (g: Graph)
        ensures
            g@ == Seq::<(Seq<char>, Seq<Seq<char>>)>::empty(),
            wf(g@),
    {
        let g = Graph { entries: Vec::new() };
        proof {
            assert(g@ =~= Seq::<(Seq<char>, Seq<Seq<char>>)>::empty());
        }
        g
    }

    /// The number of entries.
    pub fn len(&self) -> (n: usize)
        ensures
            n == self@.len(),
    {
        self.entries.len()
    }

    /// The position where an entry with key `k` is or belongs.
    fn scan_pos(&self, k: &String) -> (j: usize)
        ensures
            j == ins_pos(self@, k@),
    {
        let n = self.entries.len();
        let mut j: usize = 0;
        while j < n && str_lt(&self.entries[j].key, k)
            invariant
                0 <= j <= n,
                n == self@.len(),
                ins_pos(self@, k@) == ins_pos_from(self@, k@, j as int),
            decreases n - j,
        {
            j = j + 1;
        }
        j
    }

    /// The value list recorded for `k`, when `k` has an entry.
    pub fn get(&self, k: &String) -> (r: Option<&Vec<String>>)
        requires
            wf(self@),
        ensures
            match r {
                Some(v) => has_key(self@, k@) && v.deep_view() == lookup(self@, k@),
                None => !has_key(self@, k@),
            },
    {
        let j = self.scan_pos(k);
        proof {
            lemma_ins_pos_bounds(self@, k@);
        }
        if j < self.entries.len() && self.entries[j].key == *k {
            proof {
                lemma_found_index(self@, k@, j as int);
            }
            Some(&self.entries[j].vals)
        } else {
            proof {
                if has_key(self@, k@) {
                    let l = key_index(self@, k@);
                    if l > j {
                        assert(lex_lt(self@[j as int].0, k@));
                    } else if l < j {
                        lemma_lex_irrefl(k@);
                    }
                }
            }
            None
        }
    }

    /// Sets the entry for `k` to exactly `vals`, overwriting any previous
    /// list and creating the entry when missing.
    pub fn insert(&mut self, k: &String, vals: Vec<String>)
        requires
            wf(old(self)@),
        ensures
            final(self)@ == upsert(old(self)@, k@, vals.deep_view()),
            wf(final(self)@),
    {
        let ghost g0 = self@;
        let j = self.scan_pos(k);
        proof {
            lemma_ins_pos_bounds(g0, k@);
            lemma_upsert_props(g0, k@, vals.deep_view());
        }
        if j < self.entries.len() && self.entries[j].key == *k {
            self.entries.remove(j);
            self.entries.insert(j, GraphEntry { key: k.clone(), vals });
            proof {
                assert(self@ =~= g0.update(j as int, (k@, vals.deep_view())));
            }
        } else {
            self.entries.insert(j, GraphEntry { key: k.clone(), vals });
            proof {
                assert(self@ =~= g0.insert(j as int, (k@, vals.deep_view())));
            }
        }
    }

    /// Creates an empty entry for `k` when `k` has none; otherwise leaves
    /// the graph unchanged.
    pub fn ensure_key(&mut self, k: &String)
        requires
            wf(old(self)@),
        ensures
            final(self)@ == ensure_entry(old(self)@, k@),
            wf(final(self)@),
    {
        let ghost g0 = self@;
        let j = self.scan_pos(k);
        proof {
            lemma_ins_pos_bounds(g0, k@);
        }
        if j < self.entries.len() && self.entries[j].key == *k {
            proof {
                lemma_found_index(g0, k@, j as int);
            }
        } else {
            proof {
                lemma_upsert_props(g0, k@, Seq::empty());
                if has_key(g0, k@) {
                    let l = key_index(g0, k@);
                    if l > j {
                        assert(lex_lt(g0[j as int].0, k@));
                    } else if l < j {
                        lemma_lex_irrefl(k@);
                    }
                }
            }
            let vals: Vec<String> = Vec::new();
            proof {
                assert(vals.deep_view() =~= Seq::<Seq<char>>::empty());
            }
            self.entries.insert(j, GraphEntry { key: k.clone(), vals });
            proof {
                assert(self@ =~= g0.insert(j as int, (k@, Seq::<Seq<char>>::empty())));
            }
        }
    }

    /// Appends `v` to the value list of `k`, creating the entry with `v` as
    /// its sole value when `k` is missing.
    pub fn push_val(&mut self, k: &String, v: String)
        requires
            wf(old(self)@),
        ensures
            final(self)@ == append_val(old(self)@, k@, v@),
            wf(final(self)@),
    {
        let ghost g0 = self@;
        let j = self.scan_pos(k);
        proof {
            lemma_ins_pos_bounds(g0, k@);
            lemma_upsert_props(g0, k@, lookup(g0, k@).push(v@));
        }
        if j < self.entries.len() && self.entries[j].key == *k {
            proof {
                lemma_found_index(g0, k@, j as int);
            }
            let mut e = self.entries.remove(j);
            let ghost vs = e.vals.deep_view();
            e.vals.push(v);
            proof {
                assert(e.vals.deep_view() =~= vs.push(v@));
            }
            self.entries.insert(j, e);
            proof {
                assert(self@ =~= g0.update(j as int, (k@, lookup(g0, k@).push(v@))));
            }
        } else {
            proof {
                if has_key(g0, k@) {
                    let l = key_index(g0, k@);
                    if l > j {
                        assert(lex_lt(g0[j as int].0, k@));
                    } else if l < j {
                        lemma_lex_irrefl(k@);
                    }
                }
            }
            let mut vals: Vec<String> = Vec::new();
            vals.push(v);
            proof {
                assert(vals.deep_view() =~= lookup(g0, k@).push(v@));
            }
            self.entries.insert(j, GraphEntry { key: k.clone(), vals });
            proof {
                assert(self@ =~= g0.insert(j as int, (k@, lookup(g0, k@).push(v@))));
            }
        }
    }
}

} // verus!
