//! Structural extraction of module identity and dependency references from
//! raw source text.
//!
//! A module declaration is a line that begins with the keyword `module`,
//! followed by whitespace, an identifier and an opening brace. A dependency
//! reference is an import statement of the form `use 0x1::Name` terminated by
//! `;` or `:` (so `use 0x1::Name::item;` also counts, capturing `Name`).
//! Identifiers are ASCII word characters; this is deliberately not a full
//! parser: references made only through full qualification, without an import
//! statement, are not recognized.

use vstd::prelude::*;

verus! {

/// An ASCII word character: a letter, a digit or an underscore.
pub open spec fn is_word_char(c: char) -> bool {
    let u = c as u32;
    (97 <= u && u <= 122) || (65 <= u && u <= 90) || (48 <= u && u <= 57) || u == 95
}

/// An ASCII whitespace character (space, tab, line feed, vertical tab,
/// form feed or carriage return).
pub open spec fn is_space_char(c: char) -> bool {
    let u = c as u32;
    u == 32 || (9 <= u && u <= 13)
}

/// The first position at or after `i` that does not continue a run of word
/// characters starting at `i`.
pub open spec fn word_end(s: Seq<char>, i: int) -> int
    decreases s.len() - i,
    when 0 <= i <= s.len()
{
    if i < s.len() && is_word_char(s[i]) {
        word_end(s, i + 1)
    } else {
        i
    }
}

/// The first position at or after `i` that does not continue a run of
/// whitespace characters starting at `i`.
pub open spec fn space_end(s: Seq<char>, i: int) -> int
    decreases s.len() - i,
    when 0 <= i <= s.len()
{
    if i < s.len() && is_space_char(s[i]) {
        space_end(s, i + 1)
    } else {
        i
    }
}

pub proof fn lemma_word_end_bounds(s: Seq<char>, i: int)
    requires
        0 <= i <= s.len(),
    ensures
        i <= word_end(s, i) <= s.len(),
    decreases s.len() - i,
{
    if i < s.len() && is_word_char(s[i]) {
        lemma_word_end_bounds(s, i + 1);
    }
}

pub proof fn lemma_space_end_bounds(s: Seq<char>, i: int)
    requires
        0 <= i <= s.len(),
    ensures
        i <= space_end(s, i) <= s.len(),
    decreases s.len() - i,
{
    if i < s.len() && is_space_char(s[i]) {
        lemma_space_end_bounds(s, i + 1);
    }
}

/// Whether position `i` starts a line of `s`.
pub open spec fn line_start(s: Seq<char>, i: int) -> bool {
    i == 0 || (0 < i <= s.len() && s[i - 1] == '\n')
}

/// The module name captured by a declaration whose keyword starts exactly at
/// position `i`, if the text at `i` reads `module`, one or more whitespace
/// characters, an identifier, optional whitespace and `{`.
pub open spec fn decl_capture_at(s: Seq<char>, i: int) -> Option<Seq<char>>
    recommends
        0 <= i <= s.len(),
{
    if i + 6 <= s.len() && s.subrange(i, i + 6) == "module"@ {
        let b = space_end(s, i + 6);
        if b > i + 6 {
            let c = word_end(s, b);
            if c > b {
                let d = space_end(s, c);
                if d < s.len() && s[d] == '{' {
                    Some(s.subrange(b, c))
                } else {
                    None
                }
            } else {
                None
            }
        } else {
            None
        }
    } else {
        None
    }
}

/// The capture of the leftmost module declaration at a line start at or after
/// position `i`, if any.
pub open spec fn first_decl_from(s: Seq<char>, i: int) -> Option<Seq<char>>
    decreases s.len() - i,
    when 0 <= i <= s.len()
{
    if i >= s.len() {
        None
    } else if line_start(s, i) && decl_capture_at(s, i) is Some {
        decl_capture_at(s, i)
    } else {
        first_decl_from(s, i + 1)
    }
}

/// The module declared by the text, if a declaration marker is present.
pub open spec fn module_decl(s: Seq<char>) -> Option<Seq<char>> {
    first_decl_from(s, 0)
}

/// The dependency name captured by an import statement starting exactly at
/// position `i`, together with the position just past its terminator, if the
/// text at `i` reads `use 0x1::`, an identifier, optional whitespace and `;`
/// or `:`.
pub open spec fn use_capture_at(s: Seq<char>, i: int) -> Option<(Seq<char>, int)>
    recommends
        0 <= i <= s.len(),
{
    if i + 9 <= s.len() && s.subrange(i, i + 9) == "use 0x1::"@ {
        let b = word_end(s, i + 9);
        if b > i + 9 {
            let c = space_end(s, b);
            if c < s.len() && (s[c] == ';' || s[c] == ':') {
                Some((s.subrange(i + 9, b), c + 1))
            } else {
                None
            }
        } else {
            None
        }
    } else {
        None
    }
}

/// All dependency names captured by non-overlapping import statements at or
/// after position `i`, leftmost first, duplicates preserved.
pub open spec fn deps_from(s: Seq<char>, i: int) -> Seq<Seq<char>>
    decreases s.len() - i,
    when 0 <= i <= s.len()
{
    if i >= s.len() {
        Seq::empty()
    } else if use_capture_at(s, i) is Some {
        let (cap, e) = use_capture_at(s, i)->Some_0;
        proof {
            lemma_word_end_bounds(s, i + 9);
            lemma_space_end_bounds(s, word_end(s, i + 9));
        }
        seq![cap] + deps_from(s, e)
    } else {
        deps_from(s, i + 1)
    }
}

/// The ordered list of dependency references in the text.
pub open spec fn use_deps(s: Seq<char>) -> Seq<Seq<char>> {
    deps_from(s, 0)
}

fn word_char(c: char) -> (b: bool)
    ensures
        b == is_word_char(c),
{
    let u = c as u32;
    (97 <= u && u <= 122) || (65 <= u && u <= 90) || (48 <= u && u <= 57) || u == 95
}

fn space_char(c: char) -> (b: bool)
    ensures
        b == is_space_char(c),
{
    let u = c as u32;
    u == 32 || (9 <= u && u <= 13)
}

fn word_end_at(s: &str, i: usize) -> (r: usize)
    requires
        i <= s@.len(),
    ensures
        r == word_end(s@, i as int),
        i <= r <= s@.len(),
{
    let n = s.unicode_len();
    let mut j = i;
    while j < n && word_char(s.get_char(j))
        invariant
            i <= j <= n,
            n == s@.len(),
            word_end(s@, i as int) == word_end(s@, j as int),
        decreases n - j,
    {
        j = j + 1;
    }
    j
}

fn space_end_at(s: &str, i: usize) -> (r: usize)
    requires
        i <= s@.len(),
    ensures
        r == space_end(s@, i as int),
        i <= r <= s@.len(),
{
    let n = s.unicode_len();
    let mut j = i;
    while j < n && space_char(s.get_char(j))
        invariant
            i <= j <= n,
            n == s@.len(),
            space_end(s@, i as int) == space_end(s@, j as int),
        decreases n - j,
    {
        j = j + 1;
    }
    j
}

/// Whether the characters of `s` starting at `i` spell out the whole of
/// `pat`.
fn match_at(s: &str, i: usize, pat: &str) -> (b: bool)
    requires
        i <= s@.len(),
    ensures
        b == (i + pat@.len() <= s@.len() && s@.subrange(
            i as int,
            i + pat@.len(),
        ) == pat@),
{
    let n = s.unicode_len();
    let m = pat.unicode_len();
    if n - i < m {
        return false;
    }
    let mut j: usize = 0;
    while j < m
        invariant
            0 <= j <= m,
            n == s@.len(),
            m == pat@.len(),
            i + m <= n,
            forall|k: int| 0 <= k < j ==> s@[i + k] == pat@[k],
        decreases m - j,
    {
        if s.get_char(i + j) != pat.get_char(j) {
            assert(s@[i + j] != pat@[j as int]);
            assert(s@.subrange(i as int, i + pat@.len()) != pat@) by {
                assert(s@.subrange(i as int, i + pat@.len())[j as int] == s@[i + j]);
            }
            return false;
        }
        j = j + 1;
    }
    assert(s@.subrange(i as int, i + pat@.len()) =~= pat@);
    true
}

/// The module name captured by a declaration starting at `i`, as
/// `decl_capture_at` describes.
fn decl_at(s: &str, i: usize) -> (r: Option<String>)
    requires
        i <= s@.len(),
    ensures
        match r {
            Some(m) => decl_capture_at(s@, i as int) == Some(m@),
            None => decl_capture_at(s@, i as int) is None,
        },
{
    proof {
        reveal_strlit("module");
    }
    let n = s.unicode_len();
    if !match_at(s, i, "module") {
        return None;
    }
    let a = i + 6;
    let b = space_end_at(s, a);
    if b == a {
        return None;
    }
    let c = word_end_at(s, b);
    if c == b {
        return None;
    }
    let d = space_end_at(s, c);
    if d < n && s.get_char(d) == '{' {
        Some(s.substring_char(b, c).to_owned())
    } else {
        None
    }
}

/// Scans the text for a module declaration: a line beginning with `module`,
/// an identifier and an opening brace. Returns the leftmost such
/// declaration's module name, or `None` when the text declares no module.
pub fn extract_module_name(s: &str) -> (r: Option<String>)
    ensures
        match r {
            Some(m) => module_decl(s@) == Some(m@),
            None => module_decl(s@) is None,
        },
{
    let n = s.unicode_len();
    let mut i: usize = 0;
    while i < n
        invariant
            0 <= i <= n,
            n == s@.len(),
            first_decl_from(s@, 0) == first_decl_from(s@, i as int),
        decreases n - i,
    {
        let at_line_start = i == 0 || s.get_char(i - 1) == '\n';
        if at_line_start {
            let r = decl_at(s, i);
            if r.is_some() {
                return r;
            }
        }
        i = i + 1;
    }
    None
}

/// The dependency capture at `i`, as `use_capture_at` describes, together
/// with the position just past the match.
fn use_at(s: &str, i: usize) -> (r: Option<(String, usize)>)
    requires
        i <= s@.len(),
    ensures
        match r {
            Some(p) => use_capture_at(s@, i as int) == Some((p.0@, p.1 as int)) && i < p.1
                <= s@.len(),
            None => use_capture_at(s@, i as int) is None,
        },
{
    proof {
        reveal_strlit("use 0x1::");
    }
    let n = s.unicode_len();
    if !match_at(s, i, "use 0x1::") {
        return None;
    }
    let a = i + 9;
    let b = word_end_at(s, a);
    if b == a {
        return None;
    }
    let c = space_end_at(s, b);
    if c < n {
        let t = s.get_char(c);
        if t == ';' || t == ':' {
            return Some((s.substring_char(a, b).to_owned(), c + 1));
        }
    }
    None
}

/// Scans the text for import statements of the form `use 0x1::Name`
/// terminated by `;` or `:` and returns the referenced names,
/// non-overlapping and leftmost first, duplicates preserved.
pub fn extract_use_deps(s: &str) -> (r: Vec<String>)
    ensures
        r.deep_view() == use_deps(s@),
{
    let n = s.unicode_len();
    let mut out: Vec<String> = Vec::new();
    let mut i: usize = 0;
    while i < n
        invariant
            0 <= i <= n,
            n == s@.len(),
            out.deep_view() + deps_from(s@, i as int) == use_deps(s@),
        decreases n - i,
    {
        let ghost prev = out.deep_view();
        match use_at(s, i) {
            Some((cap, e)) => {
                out.push(cap);
                assert(out.deep_view() =~= prev.push(cap@));
                i = e;
            },
            None => {
                i = i + 1;
            },
        }
    }
    out
}

} // verus!
