//! Plain text utilities: splitting file contents into lines the way a
//! buffered line reader hands them out, decimal rendering of line numbers,
//! and executable string comparison.
use vstd::prelude::*;

verus! {

/// Index of the first newline in `s`, or `s.len()` if there is none.
pub open spec fn first_nl(s: Seq<char>) -> int
    decreases s.len(),
{
    if s.len() == 0 {
        0
    } else if s[0] == '\n' {
        0
    } else {
        1 + first_nl(s.subrange(1, s.len() as int))
    }
}

pub proof fn lemma_first_nl(s: Seq<char>)
    ensures
        0 <= first_nl(s) <= s.len(),
        forall|k: int| 0 <= k < first_nl(s) ==> s[k] != '\n',
        first_nl(s) < s.len() ==> s[first_nl(s)] == '\n',
    decreases s.len(),
{
    if s.len() == 0 {
    } else if s[0] == '\n' {
    } else {
        let t = s.subrange(1, s.len() as int);
        lemma_first_nl(t);
        assert forall|k: int| 1 <= k < first_nl(s) implies s[k] != '\n' by {
            assert(t[k - 1] == s[k]);
        }
        if first_nl(s) < s.len() {
            assert(s[first_nl(s)] == t[first_nl(t)]);
        }
    }
}

/// The lines of `s`, split after each newline; every line except possibly the
/// last ends with a newline, and their concatenation is `s`.
pub open spec fn split_lines(s: Seq<char>) -> Seq<Seq<char>>
    decreases s.len(),
{
    if s.len() == 0 {
        Seq::empty()
    } else {
        let k = first_nl(s);
        let end = if 0 <= k < s.len() {
            k + 1
        } else {
            s.len() as int
        };
        seq![s.subrange(0, end)] + split_lines(s.subrange(end, s.len() as int))
    }
}

/// Splits a file's content into lines, each keeping its trailing newline
/// (the final line may lack one), exactly as a buffered line reader yields them.
pub fn split_lines_exec(s: &str) -> (lines: Vec<String>)
    ensures
        lines.deep_view() == split_lines(s@),
{
    let mut lines: Vec<String> = Vec::new();
    let n = s.unicode_len();
    let mut start: usize = 0;
    proof {
        assert(s@.subrange(0, n as int) =~= s@);
        assert(lines.deep_view() + split_lines(s@) =~= split_lines(s@));
    }
    while start < n
        invariant
            0 <= start <= n,
            n == s@.len(),
            lines.deep_view() + split_lines(s@.subrange(start as int, n as int)) == split_lines(
                s@,
            ),
        decreases n - start,
    {
        let ghost rest = s@.subrange(start as int, n as int);
        proof {
            lemma_first_nl(rest);
        }
        // scan for the next newline
        let mut j: usize = start;
        while j < n && s.get_char(j) != '\n'
            invariant
                start <= j <= n,
                n == s@.len(),
                start + first_nl(rest) >= j,
                forall|k: int| start <= k < j ==> s@[k] != '\n',
                rest == s@.subrange(start as int, n as int),
            decreases n - j,
        {
            proof {
                lemma_first_nl(rest);
                assert(rest[j - start] == s@[j as int]);
            }
            j = j + 1;
        }
        proof {
            lemma_first_nl(rest);
            if j < n {
                assert(rest[j - start] == s@[j as int]);
            }
            assert(first_nl(rest) == j - start) by {
                if first_nl(rest) < j - start {
                    assert(s@[start + first_nl(rest)] == rest[first_nl(rest)]);
                }
            }
        }
        let end = if j < n {
            j + 1
        } else {
            n
        };
        let line = s.substring_char(start, end).to_owned();
        proof {
            assert(line@ == rest.subrange(0, end - start)) by {
                assert(line@ == s@.subrange(start as int, end as int));
                assert(rest.subrange(0, end - start) == s@.subrange(start as int, end as int));
            }
            assert(split_lines(rest) == seq![line@] + split_lines(
                s@.subrange(end as int, n as int),
            )) by {
                assert(rest.subrange(end - start, rest.len() as int) == s@.subrange(
                    end as int,
                    n as int,
                ));
            }
        }
        lines.push(line);
        proof {
            assert(lines.deep_view() + split_lines(s@.subrange(end as int, n as int))
                == split_lines(s@)) by {
                assert(lines.deep_view() == lines.deep_view().subrange(
                    0,
                    lines.deep_view().len() - 1,
                ).push(line@));
                assert(lines.deep_view().subrange(0, lines.deep_view().len() - 1) + (seq![line@]
                    + split_lines(s@.subrange(end as int, n as int))) == lines.deep_view()
                    + split_lines(s@.subrange(end as int, n as int)));
            }
        }
        start = end;
    }
    proof {
        assert(s@.subrange(start as int, n as int).len() == 0);
        assert(split_lines(s@.subrange(start as int, n as int)) == Seq::<Seq<char>>::empty());
        assert(lines.deep_view() + Seq::<Seq<char>>::empty() == lines.deep_view());
    }
    lines
}

/// The decimal digit for `d`, which must be in 0..10.
pub open spec fn digit_char(d: int) -> char {
    if d == 0 {
        '0'
    } else if d == 1 {
        '1'
    } else if d == 2 {
        '2'
    } else if d == 3 {
        '3'
    } else if d == 4 {
        '4'
    } else if d == 5 {
        '5'
    } else if d == 6 {
        '6'
    } else if d == 7 {
        '7'
    } else if d == 8 {
        '8'
    } else {
        '9'
    }
}

/// Decimal representation of `n`, most significant digit first.
pub open spec fn dec_rep(n: nat) -> Seq<char>
    decreases n,
{
    if n < 10 {
        seq![digit_char(n as int)]
    } else {
        dec_rep(n / 10) + seq![digit_char((n % 10) as int)]
    }
}

fn digit_str(d: u64) -> (r: &'static str)
    requires
        d < 10,
    ensures
        r@ == seq![digit_char(d as int)],
{
    proof {
        reveal_strlit("0");
        reveal_strlit("1");
        reveal_strlit("2");
        reveal_strlit("3");
        reveal_strlit("4");
        reveal_strlit("5");
        reveal_strlit("6");
        reveal_strlit("7");
        reveal_strlit("8");
        reveal_strlit("9");
    }
    let r = if d == 0 {
        "0"
    } else if d == 1 {
        "1"
    } else if d == 2 {
        "2"
    } else if d == 3 {
        "3"
    } else if d == 4 {
        "4"
    } else if d == 5 {
        "5"
    } else if d == 6 {
        "6"
    } else if d == 7 {
        "7"
    } else if d == 8 {
        "8"
    } else {
        "9"
    };
    proof {
        assert(r@ =~= seq![digit_char(d as int)]);
    }
    r
}

/// Renders `n` in decimal.
pub fn u64_to_dec(n: u64) -> (r: String)
    ensures
        r@ == dec_rep(n as nat),
    decreases n,
{
    if n < 10 {
        digit_str(n).to_owned()
    } else {
        let mut s = u64_to_dec(n / 10);
        s.append(digit_str(n % 10));
        proof {
            assert(s@ =~= dec_rep(n as nat));
        }
        s
    }
}

/// The placeholder replaced by a file's display path.
pub open spec fn marker_disp() -> Seq<char> {
    seq!['{', 'f', 'i', 'l', 'e', '}']
}

/// The placeholder replaced by a file's canonical path.
pub open spec fn marker_canon() -> Seq<char> {
    seq!['{', 'p', 'a', 't', 'h', '}']
}

/// The template `t` with every occurrence of the display-path placeholder
/// replaced by `disp` and of the canonical-path placeholder by `canon`,
/// scanning left to right.
pub open spec fn subst(t: Seq<char>, disp: Seq<char>, canon: Seq<char>) -> Seq<char>
    decreases t.len(),
{
    if t.len() == 0 {
        Seq::empty()
    } else if crate::directive::word_at(t, 0, marker_disp()) {
        disp + subst(t.subrange(marker_disp().len() as int, t.len() as int), disp, canon)
    } else if crate::directive::word_at(t, 0, marker_canon()) {
        canon + subst(t.subrange(marker_canon().len() as int, t.len() as int), disp, canon)
    } else {
        seq![t[0]] + subst(t.subrange(1, t.len() as int), disp, canon)
    }
}

/// A file has no more lines than characters: every line but the last holds
/// at least its newline, and the last is nonempty.
pub proof fn lemma_split_lines_count(s: Seq<char>)
    ensures
        split_lines(s).len() <= s.len(),
    decreases s.len(),
{
    if s.len() > 0 {
        let k = first_nl(s);
        let end = if 0 <= k < s.len() {
            k + 1
        } else {
            s.len() as int
        };
        lemma_split_lines_count(s.subrange(end, s.len() as int));
    }
}

/// Executable `subst`.
pub fn subst_exec(t: &str, disp: &str, canon: &str) -> (r: String)
    ensures
        r@ == subst(t@, disp@, canon@),
{
    let n = t.unicode_len();
    let mut out = String::new();
    let mut i: usize = 0;
    proof {
        assert(t@.subrange(0, n as int) =~= t@);
        assert(out@ + subst(t@, disp@, canon@) =~= subst(t@, disp@, canon@));
    }
    while i < n
        invariant
            0 <= i <= n,
            n == t@.len(),
            out@ + subst(t@.subrange(i as int, n as int), disp@, canon@) == subst(
                t@,
                disp@,
                canon@,
            ),
        decreases n - i,
    {
        let ghost rest = t@.subrange(i as int, n as int);
        let ghost before = out@;
        proof {
            reveal_strlit("{file}");
            reveal_strlit("{path}");
            assert("{file}"@ =~= marker_disp());
            assert("{path}"@ =~= marker_canon());
        }
        if crate::directive::word_at_exec(t, i, "{file}") {
            proof {
                assert(rest.subrange(0, 6) =~= t@.subrange(i as int, i + 6));
                assert(crate::directive::word_at(rest, 0, marker_disp()));
            }
            out.append(disp);
            i = i + 6;
            proof {
                assert(rest.subrange(6, rest.len() as int) =~= t@.subrange(i as int, n as int));
                assert(out@ + subst(t@.subrange(i as int, n as int), disp@, canon@) =~= before
                    + subst(rest, disp@, canon@));
            }
        } else if crate::directive::word_at_exec(t, i, "{path}") {
            proof {
                assert(rest.subrange(0, 6) =~= t@.subrange(i as int, i + 6));
                assert(crate::directive::word_at(rest, 0, marker_canon()));
                assert(!crate::directive::word_at(rest, 0, marker_disp())) by {
                    if crate::directive::word_at(rest, 0, marker_disp()) {
                        assert(rest.subrange(0, 6)[1] == rest[1]);
                        assert(t@.subrange(i as int, i + 6)[1] == t@[i + 1]);
                    }
                }
            }
            out.append(canon);
            i = i + 6;
            proof {
                assert(rest.subrange(6, rest.len() as int) =~= t@.subrange(i as int, n as int));
                assert(out@ + subst(t@.subrange(i as int, n as int), disp@, canon@) =~= before
                    + subst(rest, disp@, canon@));
            }
        } else {
            proof {
                assert(!crate::directive::word_at(rest, 0, marker_disp())) by {
                    if crate::directive::word_at(rest, 0, marker_disp()) {
                        assert(rest.subrange(0, 6) =~= t@.subrange(i as int, i + 6));
                    }
                }
                assert(!crate::directive::word_at(rest, 0, marker_canon())) by {
                    if crate::directive::word_at(rest, 0, marker_canon()) {
                        assert(rest.subrange(0, 6) =~= t@.subrange(i as int, i + 6));
                    }
                }
            }
            let piece = t.substring_char(i, i + 1);
            out.append(piece);
            i = i + 1;
            proof {
                assert(piece@ =~= seq![rest[0]]);
                assert(rest.subrange(1, rest.len() as int) =~= t@.subrange(i as int, n as int));
                assert(out@ + subst(t@.subrange(i as int, n as int), disp@, canon@) =~= before
                    + subst(rest, disp@, canon@));
            }
        }
    }
    proof {
        assert(subst(t@.subrange(n as int, n as int), disp@, canon@) =~= Seq::<char>::empty());
        assert(out@ + Seq::<char>::empty() =~= out@);
    }
    out
}

/// Compares two string slices by their character sequences.
pub fn str_eq(a: &str, b: &str) -> (r: bool)
    ensures
        r == (a@ == b@),
{
    let x = a.to_owned();
    let y = b.to_owned();
    x == y
}

} // verus!
