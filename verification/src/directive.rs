//! The line grammar: `#pragma once` lines and `#include`-style reference
//! lines, with flexible whitespace. Any line matching neither form is plain
//! text and passes through the engine unmodified.
use vstd::prelude::*;

verus! {

/// Whitespace tolerated around the tokens of a directive line.
pub open spec fn is_ws(c: char) -> bool {
    c == ' ' || c == '\t' || c == '\n' || c == '\r' || c == '\x0b' || c == '\x0c'
}

/// A line consisting of whitespace only.
pub open spec fn is_blank(s: Seq<char>) -> bool {
    forall|k: int| 0 <= k < s.len() ==> is_ws(s[k])
}

/// First index at or after `i` whose character satisfies `p`, or `s.len()`.
pub open spec fn find_from(s: Seq<char>, i: int, p: spec_fn(char) -> bool) -> int
    decreases s.len() - i,
{
    if 0 <= i < s.len() {
        if p(s[i]) {
            i
        } else {
            find_from(s, i + 1, p)
        }
    } else {
        s.len() as int
    }
}

pub proof fn lemma_find_from(s: Seq<char>, i: int, p: spec_fn(char) -> bool)
    requires
        0 <= i <= s.len(),
    ensures
        i <= find_from(s, i, p) <= s.len(),
        forall|k: int| i <= k < find_from(s, i, p) ==> !p(s[k]),
        find_from(s, i, p) < s.len() ==> p(s[find_from(s, i, p)]),
    decreases s.len() - i,
{
    if i < s.len() && !p(s[i]) {
        lemma_find_from(s, i + 1, p);
    }
}

/// First index at or after `i` holding a non-whitespace character, or `s.len()`.
pub open spec fn skip_ws(s: Seq<char>, i: int) -> int {
    find_from(s, i, |c: char| !is_ws(c))
}

/// The word `w` occurs in `s` starting at `i`.
pub open spec fn word_at(s: Seq<char>, i: int, w: Seq<char>) -> bool {
    &&& 0 <= i
    &&& i + w.len() <= s.len()
    &&& s.subrange(i, i + w.len() as int) == w
}

pub open spec fn kw_pragma() -> Seq<char> {
    seq!['p', 'r', 'a', 'g', 'm', 'a']
}

pub open spec fn kw_once() -> Seq<char> {
    seq!['o', 'n', 'c', 'e']
}

pub open spec fn kw_ref() -> Seq<char> {
    seq!['i', 'n', 'c', 'l', 'u', 'd', 'e']
}

/// A syntactically valid `#pragma once` line: optional whitespace around `#`,
/// at least one whitespace character between the two words, and nothing but
/// whitespace after them.
pub open spec fn pragma_line(s: Seq<char>) -> bool {
    let i = skip_ws(s, 0);
    &&& i < s.len()
    &&& s[i] == '#'
    &&& {
        let j = skip_ws(s, i + 1);
        &&& word_at(s, j, kw_pragma())
        &&& {
            let k = j + kw_pragma().len();
            &&& k < s.len()
            &&& is_ws(s[k as int])
            &&& {
                let m = skip_ws(s, k as int);
                &&& word_at(s, m, kw_once())
                &&& skip_ws(s, m + kw_once().len()) == s.len()
            }
        }
    }
}

/// A reference line: `#` then the reference keyword, then either `"X"` with
/// `X` free of `"`, or `<X>` with `X` free of `<` and `>`, then only
/// whitespace. Returns the bare reference text and whether it is a system
/// reference (angle brackets).
pub open spec fn ref_line(s: Seq<char>) -> Option<(Seq<char>, bool)> {
    let i = skip_ws(s, 0);
    if i < s.len() && s[i] == '#' {
        let j = skip_ws(s, i + 1);
        if word_at(s, j, kw_ref()) {
            let k = skip_ws(s, j + kw_ref().len());
            if k < s.len() && s[k] == '"' {
                let e = find_from(s, k + 1, |c: char| c == '"');
                if e < s.len() && skip_ws(s, e + 1) == s.len() {
                    Some((s.subrange(k + 1, e), false))
                } else {
                    None
                }
            } else if k < s.len() && s[k] == '<' {
                let e = find_from(s, k + 1, |c: char| c == '<' || c == '>');
                if e < s.len() && s[e] == '>' && skip_ws(s, e + 1) == s.len() {
                    Some((s.subrange(k + 1, e), true))
                } else {
                    None
                }
            } else {
                None
            }
        } else {
            None
        }
    } else {
        None
    }
}

/// What the engine sees in one line.
pub enum LineClass {
    /// A `#pragma once` line: dropped from the output unconditionally.
    Pragma,
    /// A reference line with its bare reference text and kind.
    Reference { rf: String, system: bool },
    /// Anything else: emitted verbatim.
    Plain,
}

/// Spec-level counterpart of `LineClass`.
pub enum ClassV {
    Pragma,
    Reference { rf: Seq<char>, system: bool },
    Plain,
}

impl View for LineClass {
    type V = ClassV;

    open spec fn view(&self) -> ClassV {
        match self {
            LineClass::Pragma => ClassV::Pragma,
            LineClass::Reference { rf, system } => ClassV::Reference {
                rf: rf@,
                system: *system,
            },
            LineClass::Plain => ClassV::Plain,
        }
    }
}

/// The classification of a line: pragma first, then the reference grammar,
/// else plain.
pub open spec fn classify(s: Seq<char>) -> ClassV {
    if pragma_line(s) {
        ClassV::Pragma
    } else {
        match ref_line(s) {
            Some((rf, system)) => ClassV::Reference { rf, system },
            None => ClassV::Plain,
        }
    }
}

/// Executable `is_blank`.
pub fn is_blank_exec(s: &str) -> (r: bool)
    ensures
        r == is_blank(s@),
{
    let n = s.unicode_len();
    let mut j: usize = 0;
    while j < n
        invariant
            0 <= j <= n,
            n == s@.len(),
            forall|k: int| 0 <= k < j ==> is_ws(s@[k]),
        decreases n - j,
    {
        if !is_ws_exec(s.get_char(j)) {
            return false;
        }
        j = j + 1;
    }
    true
}

fn is_ws_exec(c: char) -> (r: bool)
    ensures
        r == is_ws(c),
{
    c == ' ' || c == '\t' || c == '\n' || c == '\r' || c == '\x0b' || c == '\x0c'
}

/// Executable `skip_ws`.
fn skip_ws_exec(s: &str, i: usize) -> (r: usize)
    requires
        i <= s@.len(),
    ensures
        r == skip_ws(s@, i as int),
        i <= r <= s@.len(),
{
    proof {
        lemma_find_from(s@, i as int, |c: char| !is_ws(c));
    }
    let n = s.unicode_len();
    let mut j = i;
    while j < n && is_ws_exec(s.get_char(j))
        invariant
            i <= j <= n,
            n == s@.len(),
            skip_ws(s@, i as int) >= j,
            skip_ws(s@, i as int) == skip_ws(s@, j as int),
        decreases n - j,
    {
        proof {
            lemma_find_from(s@, j as int, |c: char| !is_ws(c));
            assert(skip_ws(s@, j as int) == skip_ws(s@, j + 1));
        }
        j = j + 1;
    }
    proof {
        lemma_find_from(s@, j as int, |c: char| !is_ws(c));
    }
    j
}

/// Executable `find_from` for a closing double quote.
fn find_quote_exec(s: &str, i: usize) -> (r: usize)
    requires
        i <= s@.len(),
    ensures
        r == find_from(s@, i as int, |c: char| c == '"'),
        i <= r <= s@.len(),
{
    proof {
        lemma_find_from(s@, i as int, |c: char| c == '"');
    }
    let n = s.unicode_len();
    let mut j = i;
    while j < n && s.get_char(j) != '"'
        invariant
            i <= j <= n,
            n == s@.len(),
            find_from(s@, i as int, |c: char| c == '"') >= j,
            find_from(s@, i as int, |c: char| c == '"') == find_from(
                s@,
                j as int,
                |c: char| c == '"',
            ),
        decreases n - j,
    {
        proof {
            lemma_find_from(s@, j as int, |c: char| c == '"');
            assert(find_from(s@, j as int, |c: char| c == '"') == find_from(
                s@,
                j + 1,
                |c: char| c == '"',
            ));
        }
        j = j + 1;
    }
    proof {
        lemma_find_from(s@, j as int, |c: char| c == '"');
    }
    j
}

/// Executable `find_from` for an angle bracket.
fn find_angle_exec(s: &str, i: usize) -> (r: usize)
    requires
        i <= s@.len(),
    ensures
        r == find_from(s@, i as int, |c: char| c == '<' || c == '>'),
        i <= r <= s@.len(),
{
    proof {
        lemma_find_from(s@, i as int, |c: char| c == '<' || c == '>');
    }
    let n = s.unicode_len();
    let mut j = i;
    while j < n && s.get_char(j) != '<' && s.get_char(j) != '>'
        invariant
            i <= j <= n,
            n == s@.len(),
            find_from(s@, i as int, |c: char| c == '<' || c == '>') >= j,
            find_from(s@, i as int, |c: char| c == '<' || c == '>') == find_from(
                s@,
                j as int,
                |c: char| c == '<' || c == '>',
            ),
        decreases n - j,
    {
        proof {
            lemma_find_from(s@, j as int, |c: char| c == '<' || c == '>');
            assert(find_from(s@, j as int, |c: char| c == '<' || c == '>') == find_from(
                s@,
                j + 1,
                |c: char| c == '<' || c == '>',
            ));
        }
        j = j + 1;
    }
    proof {
        lemma_find_from(s@, j as int, |c: char| c == '<' || c == '>');
    }
    j
}

/// The word `w` occurs in `s` at `i`.
pub fn word_at_exec(s: &str, i: usize, w: &str) -> (r: bool)
    requires
        i <= s@.len(),
    ensures
        r == word_at(s@, i as int, w@),
{
    let n = s.unicode_len();
    let m = w.unicode_len();
    if n - i < m {
        proof {
            assert(!word_at(s@, i as int, w@));
        }
        return false;
    }
    let mut k: usize = 0;
    while k < m
        invariant
            0 <= k <= m,
            m == w@.len(),
            n == s@.len(),
            i + m <= n,
            forall|t: int| 0 <= t < k ==> s@[i + t] == w@[t],
        decreases m - k,
    {
        if s.get_char(i + k) != w.get_char(k) {
            proof {
                assert(s@.subrange(i as int, i + w@.len() as int)[k as int] == s@[i + k]);
                assert(!word_at(s@, i as int, w@));
            }
            return false;
        }
        k = k + 1;
    }
    proof {
        assert(s@.subrange(i as int, i + w@.len() as int) =~= w@);
    }
    true
}

/// Classifies one line of input against the directive grammar.
pub fn classify_line(s: &str) -> (r: LineClass)
    ensures
        r@ == classify(s@),
{
    let n = s.unicode_len();
    let i = skip_ws_exec(s, 0);
    if !(i < n && s.get_char(i) == '#') {
        return LineClass::Plain;
    }
    let j = skip_ws_exec(s, i + 1);
    if word_at_exec(s, j, "pragma") {
        proof {
            reveal_strlit("pragma");
            assert("pragma"@ =~= kw_pragma());
        }
        // require one whitespace character, then the second word, then
        // whitespace to the end
        let k = j + 6;
        if k < n && is_ws_exec(s.get_char(k)) {
            let m = skip_ws_exec(s, k);
            if word_at_exec(s, m, "once") {
                proof {
                    reveal_strlit("once");
                    assert("once"@ =~= kw_once());
                }
                if skip_ws_exec(s, m + 4) == n {
                    return LineClass::Pragma;
                }
            } else {
                proof {
                    reveal_strlit("once");
                    assert("once"@ =~= kw_once());
                }
            }
        }
        proof {
            assert(!pragma_line(s@));
            assert(ref_line(s@) is None) by {
                assert(!word_at(s@, j as int, kw_ref())) by {
                    if word_at(s@, j as int, kw_ref()) {
                        assert(s@.subrange(j as int, j + 7)[0] == s@[j as int]);
                        assert(s@.subrange(j as int, j + 6)[0] == s@[j as int]);
                    }
                }
            }
        }
        return LineClass::Plain;
    }
    proof {
        reveal_strlit("pragma");
        assert("pragma"@ =~= kw_pragma());
        assert(!pragma_line(s@));
    }
    if !word_at_exec(s, j, "include") {
        proof {
            reveal_strlit("include");
            assert("include"@ =~= kw_ref());
        }
        return LineClass::Plain;
    }
    proof {
        reveal_strlit("include");
        assert("include"@ =~= kw_ref());
    }
    let k = skip_ws_exec(s, j + 7);
    if k < n && s.get_char(k) == '"' {
        let e = find_quote_exec(s, k + 1);
        if e < n && skip_ws_exec(s, e + 1) == n {
            let rf = s.substring_char(k + 1, e).to_owned();
            return LineClass::Reference { rf, system: false };
        }
        return LineClass::Plain;
    } else if k < n && s.get_char(k) == '<' {
        let e = find_angle_exec(s, k + 1);
        if e < n && s.get_char(e) == '>' && skip_ws_exec(s, e + 1) == n {
            let rf = s.substring_char(k + 1, e).to_owned();
            return LineClass::Reference { rf, system: true };
        }
        return LineClass::Plain;
    }
    LineClass::Plain
}

} // verus!
