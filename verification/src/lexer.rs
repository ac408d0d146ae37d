//! Lexical layer of the grammar: byte classes, separator and comment
//! skipping, quoted strings, numeric literals and bare token names.
//!
//! Every lexeme has a specification function over `Seq<u8>` that consumes a
//! prefix of the input and yields the recognised text together with the
//! remaining suffix; the executable functions are proved to agree with it.

use vstd::prelude::*;

verus! {

/// Blank bytes: space, tab, carriage return and line feed.
pub open spec fn is_space(b: u8) -> bool {
    b == 32 || b == 9 || b == 13 || b == 10
}

/// ASCII decimal digit.
pub open spec fn is_digit(b: u8) -> bool {
    48 <= b <= 57
}

/// Executable test for [`is_space`].
pub fn space(b: u8) -> (r: bool)
    ensures
        r == is_space(b),
{
    b == 32 || b == 9 || b == 13 || b == 10
}

/// Executable test for [`is_digit`].
pub fn digit(b: u8) -> (r: bool)
    ensures
        r == is_digit(b),
{
    48 <= b && b <= 57
}

/// Suffix of `s` after dropping `n` leading bytes, then after dropping `m`
/// more, is the suffix after dropping `n + m`.
pub proof fn lemma_skip_skip<T>(s: Seq<T>, n: int, m: int)
    requires
        0 <= n,
        0 <= m,
        n + m <= s.len(),
    ensures
        s.skip(n).skip(m) == s.skip(n + m),
{
    assert(s.skip(n).skip(m) =~= s.skip(n + m));
}

/// One line comment: `//` through the next line terminator, terminator
/// included.  Yields the remaining suffix, or `None` when the input does not
/// begin with a complete comment.
pub open spec fn spec_comment(s: Seq<u8>) -> Option<Seq<u8>> {
    if s.len() >= 2 && s[0] == 47 && s[1] == 47 {
        spec_comment_body(s.skip(2))
    } else {
        None
    }
}

/// Rest of a comment after the leading `//`: anything up to a line
/// terminator (`\n` or `\r\n`), which is consumed as part of the comment.
pub open spec fn spec_comment_body(s: Seq<u8>) -> Option<Seq<u8>>
    decreases s.len(),
{
    if s.len() == 0 {
        None
    } else if s[0] == 10 {
        Some(s.skip(1))
    } else if s[0] == 13 {
        if s.len() >= 2 && s[1] == 10 {
            Some(s.skip(2))
        } else {
            None
        }
    } else {
        spec_comment_body(s.skip(1))
    }
}

/// A comment consumes at least one byte, and what remains is a suffix of the
/// input.
pub proof fn lemma_comment_body_shrinks(s: Seq<u8>)
    ensures
        spec_comment_body(s) matches Some(r) ==> exists|n: int|
            1 <= n <= s.len() && r == #[trigger] s.skip(n),
    decreases s.len(),
{
    if s.len() == 0 {
    } else if s[0] == 10 {
        assert(spec_comment_body(s) == Some(s.skip(1)));
    } else if s[0] == 13 {
    } else {
        lemma_comment_body_shrinks(s.skip(1));
        if spec_comment_body(s.skip(1)) is Some {
            let r = spec_comment_body(s.skip(1))->Some_0;
            let n = choose|n: int| 1 <= n <= s.skip(1).len() && r == s.skip(1).skip(n);
            lemma_skip_skip(s, 1, n);
            assert(r == s.skip(1 + n));
        }
    }
}

/// Maximal run of blanks and complete line comments.  Always succeeds,
/// possibly consuming nothing; yields the remaining suffix.
pub open spec fn spec_skip_sep(s: Seq<u8>) -> Seq<u8>
    decreases s.len(),
{
    if s.len() > 0 && is_space(s[0]) {
        spec_skip_sep(s.skip(1))
    } else if spec_comment(s) is Some {
        let r = spec_comment(s)->Some_0;
        if r.len() < s.len() {
            spec_skip_sep(r)
        } else {
            s
        }
    } else {
        s
    }
}

/// Separator skipping yields a suffix of its input.
pub proof fn lemma_skip_sep_suffix(s: Seq<u8>)
    ensures
        exists|n: int| 0 <= n <= s.len() && spec_skip_sep(s) == #[trigger] s.skip(n),
    decreases s.len(),
{
    if s.len() > 0 && is_space(s[0]) {
        lemma_skip_sep_suffix(s.skip(1));
        let n = choose|n: int| 0 <= n <= s.skip(1).len() && spec_skip_sep(s.skip(1)) == s.skip(
            1,
        ).skip(n);
        lemma_skip_skip(s, 1, n);
        assert(spec_skip_sep(s) == s.skip(1 + n));
    } else if spec_comment(s) is Some {
        let r = spec_comment(s)->Some_0;
        if r.len() < s.len() {
            lemma_comment_body_shrinks(s.skip(2));
            let m = choose|m: int| 1 <= m <= s.skip(2).len() && r == s.skip(2).skip(m);
            lemma_skip_skip(s, 2, m);
            lemma_skip_sep_suffix(r);
            let n = choose|n: int| 0 <= n <= r.len() && spec_skip_sep(r) == r.skip(n);
            lemma_skip_skip(s, 2 + m, n);
            assert(spec_skip_sep(s) == s.skip(2 + m + n));
        } else {
            assert(spec_skip_sep(s) == s.skip(0));
        }
    } else {
        assert(spec_skip_sep(s) == s.skip(0));
    }
}

/// Skip one line comment starting at `i`, if a complete one stands there.
pub fn comment(s: &[u8], i: usize) -> (r: Option<usize>)
    requires
        i <= s@.len(),
    ensures
        match r {
            Some(j) => i < j <= s@.len() && spec_comment(s@.skip(i as int)) == Some(
                s@.skip(j as int),
            ),
            None => spec_comment(s@.skip(i as int)) is None,
        },
{
    let ghost t = s@.skip(i as int);
    if s.len() < 2 || i > s.len() - 2 || s[i] != 47 || s[i + 1] != 47 {
        return None;
    }
    let mut j = i + 2;
    proof {
        lemma_skip_skip(s@, i as int, 2);
    }
    loop
        invariant
            i + 2 <= j <= s@.len(),
            t == s@.skip(i as int),
            t.len() >= 2 && t[0] == 47 && t[1] == 47,
            spec_comment_body(t.skip(2)) == spec_comment_body(s@.skip(j as int)),
        decreases s@.len() - j,
    {
        proof {
            lemma_skip_skip(s@, i as int, 2);
        }
        if j == s.len() {
            return None;
        }
        let b = s[j];
        if b == 10 {
            proof {
                lemma_skip_skip(s@, j as int, 1);
            }
            return Some(j + 1);
        } else if b == 13 {
            if j + 1 < s.len() && s[j + 1] == 10 {
                proof {
                    lemma_skip_skip(s@, j as int, 2);
                }
                return Some(j + 2);
            } else {
                return None;
            }
        } else {
            proof {
                lemma_skip_skip(s@, j as int, 1);
            }
            j = j + 1;
        }
    }
}

/// Prefix of length `n` taken from a suffix is a subrange of the whole.
pub proof fn lemma_skip_take(s: Seq<u8>, i: int, n: int)
    requires
        0 <= i,
        0 <= n,
        i + n <= s.len(),
    ensures
        s.skip(i).take(n) == s.subrange(i, i + n),
{
    assert(s.skip(i).take(n) =~= s.subrange(i, i + n));
}

/// Skip the maximal separator run (blanks and line comments) starting at
/// `i`.  Never fails; consumes nothing when no separator is present.
pub fn separator(s: &[u8], i: usize) -> (j: usize)
    requires
        i <= s@.len(),
    ensures
        i <= j <= s@.len(),
        spec_skip_sep(s@.skip(i as int)) == spec_skip_sep(s@.skip(j as int)),
        spec_skip_sep(s@.skip(j as int)) == s@.skip(j as int),
{
    let mut j = i;
    loop
        invariant
            i <= j <= s@.len(),
            spec_skip_sep(s@.skip(i as int)) == spec_skip_sep(s@.skip(j as int)),
        decreases s@.len() - j,
    {
        if j < s.len() && space(s[j]) {
            proof {
                lemma_skip_skip(s@, j as int, 1);
            }
            j = j + 1;
        } else {
            match comment(s, j) {
                Some(k) => {
                    proof {
                        let t = s@.skip(j as int);
                        assert(t.len() == 0 || !is_space(t[0]));
                        assert(spec_skip_sep(t) == spec_skip_sep(s@.skip(k as int)));
                    }
                    j = k;
                },
                None => {
                    proof {
                        let t = s@.skip(j as int);
                        assert(t.len() == 0 || !is_space(t[0]));
                        assert(spec_skip_sep(t) == t);
                    }
                    return j;
                },
            }
        }
    }
}

/// A `"`-delimited run.  The stored text is the body between the quotes,
/// kept verbatim: a backslash escapes the byte after it (so `\"` does not
/// close the run) and both bytes are preserved.  Fails when no closing
/// quote comes before the end of the input.
pub open spec fn spec_lex_qstring(s: Seq<u8>) -> Option<(Seq<u8>, Seq<u8>)> {
    if s.len() > 0 && s[0] == 34 {
        spec_qbody(s.skip(1))
    } else {
        None
    }
}

/// Body of a quoted run up to the first unescaped `"`, which is consumed
/// but not part of the text.
pub open spec fn spec_qbody(s: Seq<u8>) -> Option<(Seq<u8>, Seq<u8>)>
    decreases s.len(),
{
    if s.len() == 0 {
        None
    } else if s[0] == 34 {
        Some((Seq::empty(), s.skip(1)))
    } else if s[0] == 92 {
        if s.len() >= 2 {
            match spec_qbody(s.skip(2)) {
                Some((b, r)) => Some((s.take(2) + b, r)),
                None => None,
            }
        } else {
            None
        }
    } else {
        match spec_qbody(s.skip(1)) {
            Some((b, r)) => Some((s.take(1) + b, r)),
            None => None,
        }
    }
}

/// Lex a quoted run starting at `i`; yields its body and the position after
/// the closing quote.
pub fn qstring(s: &[u8], i: usize) -> (r: Option<(Vec<u8>, usize)>)
    requires
        i <= s@.len(),
    ensures
        match r {
            Some((v, j)) => i < j <= s@.len() && spec_lex_qstring(s@.skip(i as int)) == Some(
                (v@, s@.skip(j as int)),
            ),
            None => spec_lex_qstring(s@.skip(i as int)) is None,
        },
{
    if i == s.len() || s[i] != 34 {
        return None;
    }
    let mut j = i + 1;
    let mut body: Vec<u8> = Vec::new();
    proof {
        lemma_skip_skip(s@, i as int, 1);
    }
    loop
        invariant
            i + 1 <= j <= s@.len(),
            s@.len() > i && s@[i as int] == 34,
            spec_lex_qstring(s@.skip(i as int)) == spec_qbody(s@.skip(i + 1)),
            spec_qbody(s@.skip(i + 1)) == match spec_qbody(s@.skip(j as int)) {
                Some((b, r)) => Some((body@ + b, r)),
                None => None::<(Seq<u8>, Seq<u8>)>,
            },
        decreases s@.len() - j,
    {
        if j == s.len() {
            proof {
                assert(s@.skip(j as int).len() == 0);
            }
            return None;
        }
        let b = s[j];
        if b == 34 {
            proof {
                lemma_skip_skip(s@, j as int, 1);
                assert(spec_qbody(s@.skip(j as int)) == Some(
                    (Seq::<u8>::empty(), s@.skip(j + 1)),
                ));
                assert(body@ + Seq::<u8>::empty() =~= body@);
            }
            return Some((body, j + 1));
        } else if b == 92 {
            if j + 1 == s.len() {
                proof {
                    assert(s@.skip(j as int).len() == 1);
                }
                return None;
            }
            let ghost prev = body@;
            let ghost t2 = s@.skip(j as int).take(2);
            proof {
                lemma_skip_skip(s@, j as int, 2);
            }
            body.push(b);
            let b2 = s[j + 1];
            body.push(b2);
            proof {
                assert(body@ =~= prev + t2);
                if spec_qbody(s@.skip(j + 2)) is Some {
                    let (bb, r) = spec_qbody(s@.skip(j + 2))->Some_0;
                    assert(prev + (t2 + bb) =~= body@ + bb);
                }
            }
            j = j + 2;
        } else {
            let ghost prev = body@;
            let ghost t1 = s@.skip(j as int).take(1);
            proof {
                lemma_skip_skip(s@, j as int, 1);
            }
            body.push(b);
            proof {
                assert(body@ =~= prev + t1);
                if spec_qbody(s@.skip(j + 1)) is Some {
                    let (bb, r) = spec_qbody(s@.skip(j + 1))->Some_0;
                    assert(prev + (t1 + bb) =~= body@ + bb);
                }
            }
            j = j + 1;
        }
    }
}

/// `t` does not begin with a separator: no blank and no `//`.  Separator
/// skipping leaves such a suffix unchanged.
pub open spec fn sep_opaque(t: Seq<u8>) -> bool {
    t.len() == 0 || (!is_space(t[0]) && !(t.len() >= 2 && t[0] == 47 && t[1] == 47))
}

/// Separator skipping does not touch a suffix that begins with no
/// separator.
pub proof fn lemma_skip_sep_opaque(t: Seq<u8>)
    requires
        sep_opaque(t),
    ensures
        spec_skip_sep(t) == t,
{
    if t.len() > 0 && !is_space(t[0]) {
        assert(spec_comment(t) is None);
    }
}

/// One leading blank before a separator-opaque suffix is skipped exactly.
pub proof fn lemma_skip_sep_blank(b: u8, t: Seq<u8>)
    requires
        is_space(b),
        sep_opaque(t),
    ensures
        spec_skip_sep(seq![b] + t) == t,
{
    let w = seq![b] + t;
    assert(w[0] == b);
    assert(w.skip(1) =~= t);
    lemma_skip_sep_opaque(t);
}

/// Length of the leading run of decimal digits.
pub open spec fn digits_len(s: Seq<u8>) -> int
    decreases s.len(),
{
    if s.len() > 0 && is_digit(s[0]) {
        1 + digits_len(s.skip(1))
    } else {
        0
    }
}

/// The digit run never reaches past the end of the input.
pub proof fn lemma_digits_len_bound(s: Seq<u8>)
    ensures
        0 <= digits_len(s) <= s.len(),
    decreases s.len(),
{
    if s.len() > 0 && is_digit(s[0]) {
        lemma_digits_len_bound(s.skip(1));
    }
}

/// Scan the digit run starting at `i`.
pub fn digits(s: &[u8], i: usize) -> (j: usize)
    requires
        i <= s@.len(),
    ensures
        i <= j <= s@.len(),
        j - i == digits_len(s@.skip(i as int)),
{
    let mut j = i;
    loop
        invariant
            i <= j <= s@.len(),
            digits_len(s@.skip(i as int)) == (j - i) + digits_len(s@.skip(j as int)),
        decreases s@.len() - j,
    {
        proof {
            lemma_digits_len_bound(s@.skip(j as int));
        }
        if j < s.len() && digit(s[j]) {
            proof {
                lemma_skip_skip(s@, j as int, 1);
            }
            j = j + 1;
        } else {
            return j;
        }
    }
}

/// A numeric literal: optional sign, then either a digit run with an
/// optional fraction (`.` and further digits, possibly none) or a fraction
/// alone (`.` with at least one digit), then an optional exponent
/// (`e` or `E`, optional sign, at least one digit).  Yields the lexeme
/// verbatim and the remaining suffix.
pub open spec fn spec_lex_number(s: Seq<u8>) -> Option<(Seq<u8>, Seq<u8>)> {
    let sg: int = if s.len() > 0 && (s[0] == 43 || s[0] == 45) {
        1
    } else {
        0
    };
    let t = s.skip(sg);
    let m = spec_mantissa_len(t);
    if m < 0 {
        None
    } else {
        let n = sg + m + spec_exponent_len(t.skip(m));
        Some((s.take(n), s.skip(n)))
    }
}

/// Length of the unsigned mantissa at the start of `t`, or `-1` when there
/// is none.
pub open spec fn spec_mantissa_len(t: Seq<u8>) -> int {
    let d = digits_len(t);
    if d > 0 {
        if t.len() > d && t[d] == 46 {
            d + 1 + digits_len(t.skip(d + 1))
        } else {
            d
        }
    } else {
        if t.len() >= 2 && t[0] == 46 && is_digit(t[1]) {
            1 + digits_len(t.skip(1))
        } else {
            -1
        }
    }
}

/// Length of the exponent part at the start of `u`, `0` when no complete
/// exponent stands there.
pub open spec fn spec_exponent_len(u: Seq<u8>) -> int {
    if u.len() >= 2 && (u[0] == 101 || u[0] == 69) {
        let es: int = if u[1] == 43 || u[1] == 45 {
            1
        } else {
            0
        };
        let ed = digits_len(u.skip(1 + es));
        if ed > 0 {
            1 + es + ed
        } else {
            0
        }
    } else {
        0
    }
}

/// The mantissa and exponent stay within the input.
pub proof fn lemma_number_parts_bound(t: Seq<u8>)
    ensures
        spec_mantissa_len(t) <= t.len(),
        0 <= spec_exponent_len(t) <= t.len(),
{
    lemma_digits_len_bound(t);
    let d = digits_len(t);
    if d > 0 && t.len() > d && t[d] == 46 {
        lemma_digits_len_bound(t.skip(d + 1));
    }
    if d == 0 && t.len() >= 2 && t[0] == 46 && is_digit(t[1]) {
        lemma_digits_len_bound(t.skip(1));
    }
    if t.len() >= 2 && (t[0] == 101 || t[0] == 69) {
        let es: int = if t[1] == 43 || t[1] == 45 {
            1
        } else {
            0
        };
        lemma_digits_len_bound(t.skip(1 + es));
    }
}

/// Scan the unsigned mantissa starting at `p`; yields the position after
/// it, or `None` when no mantissa stands there.
fn mantissa(s: &[u8], p: usize) -> (r: Option<usize>)
    requires
        p <= s@.len(),
    ensures
        match r {
            Some(m) => p < m <= s@.len() && m - p == spec_mantissa_len(s@.skip(p as int)),
            None => spec_mantissa_len(s@.skip(p as int)) == -1,
        },
{
    let ghost t = s@.skip(p as int);
    let d = digits(s, p);
    if d > p {
        if d < s.len() && s[d] == 46 {
            let f = digits(s, d + 1);
            proof {
                lemma_skip_skip(s@, p as int, d + 1 - p);
                assert(t[d - p] == s@[d as int]);
                assert(spec_mantissa_len(t) == (d - p) + 1 + digits_len(s@.skip(d + 1)));
            }
            Some(f)
        } else {
            proof {
                lemma_digits_len_bound(t);
                if t.len() > d - p {
                    assert(t[d - p] == s@[d as int]);
                }
                assert(spec_mantissa_len(t) == d - p);
            }
            Some(d)
        }
    } else {
        if s.len() - p >= 2 && s[p] == 46 && digit(s[p + 1]) {
            let f = digits(s, p + 1);
            proof {
                lemma_skip_skip(s@, p as int, 1);
                assert(t[0] == s@[p as int] && t[1] == s@[p + 1]);
                assert(spec_mantissa_len(t) == 1 + digits_len(s@.skip(p + 1)));
            }
            Some(f)
        } else {
            proof {
                if t.len() >= 2 {
                    assert(t[0] == s@[p as int] && t[1] == s@[p + 1]);
                }
                assert(spec_mantissa_len(t) == -1);
            }
            None
        }
    }
}

/// Scan the optional exponent starting at `m`; yields the position after it
/// (which is `m` itself when no complete exponent stands there).
fn exponent(s: &[u8], m: usize) -> (j: usize)
    requires
        m <= s@.len(),
    ensures
        m <= j <= s@.len(),
        j - m == spec_exponent_len(s@.skip(m as int)),
{
    let ghost u = s@.skip(m as int);
    if s.len() - m >= 2 && (s[m] == 101 || s[m] == 69) {
        proof {
            assert(u[0] == s@[m as int] && u[1] == s@[m + 1]);
        }
        let es: usize = if s[m + 1] == 43 || s[m + 1] == 45 {
            1
        } else {
            0
        };
        let ed = digits(s, m + 1 + es);
        proof {
            lemma_skip_skip(s@, m as int, 1 + es as int);
        }
        if ed > m + 1 + es {
            proof {
                assert(spec_exponent_len(u) == 1 + es + (ed - (m + 1 + es)));
            }
            ed
        } else {
            proof {
                assert(spec_exponent_len(u) == 0);
            }
            m
        }
    } else {
        proof {
            if u.len() >= 2 {
                assert(u[0] == s@[m as int] && u[1] == s@[m + 1]);
            }
            assert(spec_exponent_len(u) == 0);
        }
        m
    }
}

/// Lex a numeric literal starting at `i`; yields the lexeme and the
/// position after it.
pub fn number(s: &[u8], i: usize) -> (r: Option<(Vec<u8>, usize)>)
    requires
        i <= s@.len(),
    ensures
        match r {
            Some((v, j)) => i < j <= s@.len() && v@ == s@.subrange(i as int, j as int)
                && spec_lex_number(s@.skip(i as int)) == Some((v@, s@.skip(j as int))),
            None => spec_lex_number(s@.skip(i as int)) is None,
        },
{
    let ghost t0 = s@.skip(i as int);
    let sg: usize = if i < s.len() && (s[i] == 43 || s[i] == 45) {
        1
    } else {
        0
    };
    let p = i + sg;
    proof {
        assert(t0.len() > 0 ==> t0[0] == s@[i as int]);
        lemma_skip_skip(s@, i as int, sg as int);
    }
    let m = match mantissa(s, p) {
        Some(m) => m,
        None => {
            return None;
        },
    };
    let j = exponent(s, m);
    proof {
        lemma_skip_skip(s@, i as int, sg as int);
        lemma_number_parts_bound(s@.skip(p as int));
        assert(s@.skip(p as int).skip(m - p) == s@.skip(m as int)) by {
            lemma_skip_skip(s@, p as int, m - p);
        }
        assert(j - i == sg + spec_mantissa_len(s@.skip(p as int)) + spec_exponent_len(
            s@.skip(m as int),
        ));
        lemma_skip_take(s@, i as int, j - i);
        lemma_skip_skip(s@, i as int, j - i);
    }
    let v = vstd::slice::slice_to_vec(vstd::slice::slice_subrange(s, i, j));
    Some((v, j))
}

/// Length of the leading run of non-blank bytes.
pub open spec fn nonblank_len(s: Seq<u8>) -> int
    decreases s.len(),
{
    if s.len() > 0 && !is_space(s[0]) {
        1 + nonblank_len(s.skip(1))
    } else {
        0
    }
}

/// The non-blank run never reaches past the end of the input.
pub proof fn lemma_nonblank_len_bound(s: Seq<u8>)
    ensures
        0 <= nonblank_len(s) <= s.len(),
    decreases s.len(),
{
    if s.len() > 0 && !is_space(s[0]) {
        lemma_nonblank_len_bound(s.skip(1));
    }
}

/// A bare token name: the maximal (possibly empty) run of non-blank bytes.
pub open spec fn spec_lex_name(s: Seq<u8>) -> (Seq<u8>, Seq<u8>) {
    let n = nonblank_len(s);
    (s.take(n), s.skip(n))
}

/// Lex a bare token name starting at `i`; yields the name (possibly empty)
/// and the position after it.
pub fn name(s: &[u8], i: usize) -> (r: (Vec<u8>, usize))
    requires
        i <= s@.len(),
    ensures
        i <= r.1 <= s@.len(),
        spec_lex_name(s@.skip(i as int)).0 == r.0@,
        spec_lex_name(s@.skip(i as int)).1 == s@.skip(r.1 as int),
        r.0@ == s@.subrange(i as int, r.1 as int),
{
    let mut j = i;
    loop
        invariant
            i <= j <= s@.len(),
            nonblank_len(s@.skip(i as int)) == (j - i) + nonblank_len(s@.skip(j as int)),
        decreases s@.len() - j,
    {
        proof {
            lemma_nonblank_len_bound(s@.skip(j as int));
        }
        if j < s.len() && !space(s[j]) {
            proof {
                lemma_skip_skip(s@, j as int, 1);
            }
            j = j + 1;
        } else {
            proof {
                lemma_skip_take(s@, i as int, j - i);
                lemma_skip_skip(s@, i as int, j - i);
            }
            let v = vstd::slice::slice_to_vec(vstd::slice::slice_subrange(s, i, j));
            return (v, j);
        }
    }
}


/// How a digit run behaves on a concatenation: it either stops inside `a`
/// or runs through all of `a` and continues into `b`.
pub proof fn lemma_digits_len_concat(a: Seq<u8>, b: Seq<u8>)
    ensures
        digits_len(a + b) == if digits_len(a) == a.len() {
            a.len() + digits_len(b)
        } else {
            digits_len(a)
        },
    decreases a.len(),
{
    lemma_digits_len_bound(a);
    if a.len() == 0 {
        assert(a + b =~= b);
    } else if is_digit(a[0]) {
        assert((a + b)[0] == a[0]);
        assert((a + b).skip(1) =~= a.skip(1) + b);
        lemma_digits_len_concat(a.skip(1), b);
    } else {
        assert((a + b)[0] == a[0]);
    }
}

/// How a non-blank run behaves on a concatenation.
pub proof fn lemma_nonblank_len_concat(a: Seq<u8>, b: Seq<u8>)
    ensures
        nonblank_len(a + b) == if nonblank_len(a) == a.len() {
            a.len() + nonblank_len(b)
        } else {
            nonblank_len(a)
        },
    decreases a.len(),
{
    lemma_nonblank_len_bound(a);
    if a.len() == 0 {
        assert(a + b =~= b);
    } else if !is_space(a[0]) {
        assert((a + b)[0] == a[0]);
        assert((a + b).skip(1) =~= a.skip(1) + b);
        lemma_nonblank_len_concat(a.skip(1), b);
    } else {
        assert((a + b)[0] == a[0]);
    }
}

/// `t` can stand verbatim as the body of a quoted run: every `\` is
/// followed by another byte, and no `"` stands outside such an escape.
pub open spec fn qbody_ok(t: Seq<u8>) -> bool
    decreases t.len(),
{
    if t.len() == 0 {
        true
    } else if t[0] == 34 {
        false
    } else if t[0] == 92 {
        t.len() >= 2 && qbody_ok(t.skip(2))
    } else {
        qbody_ok(t.skip(1))
    }
}

/// A well-formed body followed by a closing quote lexes back to exactly
/// that body, whatever follows the quote.
pub proof fn lemma_qbody_closes(k: Seq<u8>, rest: Seq<u8>)
    requires
        qbody_ok(k),
    ensures
        spec_qbody(k + seq![34u8] + rest) == Some((k, rest)),
    decreases k.len(),
{
    let s = k + seq![34u8] + rest;
    if k.len() == 0 {
        assert(s[0] == 34);
        assert(s.skip(1) =~= rest);
        assert(k =~= Seq::<u8>::empty());
    } else if k[0] == 92 {
        assert(s[0] == 92);
        assert(s.len() >= 2);
        assert(s.skip(2) =~= k.skip(2) + seq![34u8] + rest);
        lemma_qbody_closes(k.skip(2), rest);
        assert(s.take(2) + k.skip(2) =~= k);
    } else {
        assert(s[0] == k[0]);
        assert(s[0] != 34 && s[0] != 92);
        assert(s.skip(1) =~= k.skip(1) + seq![34u8] + rest);
        lemma_qbody_closes(k.skip(1), rest);
        assert(s.take(1) + k.skip(1) =~= k);
    }
}

/// A full quoted run re-lexes to its body, whatever follows it.
pub proof fn lemma_qstring_closes(k: Seq<u8>, rest: Seq<u8>)
    requires
        qbody_ok(k),
    ensures
        spec_lex_qstring(seq![34u8] + k + seq![34u8] + rest) == Some((k, rest)),
{
    let s = seq![34u8] + k + seq![34u8] + rest;
    assert(s[0] == 34);
    assert(s.skip(1) =~= k + seq![34u8] + rest);
    lemma_qbody_closes(k, rest);
}

/// Bytes that could extend a numeric literal to its right.
pub open spec fn num_opaque(t: Seq<u8>) -> bool {
    t.len() == 0 || (!is_digit(t[0]) && t[0] != 46 && t[0] != 101 && t[0] != 69)
}

/// A complete numeric lexeme followed by a byte that cannot extend it
/// lexes back to exactly that lexeme.
pub proof fn lemma_number_extends(lx: Seq<u8>, rest: Seq<u8>)
    requires
        spec_lex_number(lx) == Some((lx, Seq::<u8>::empty())),
        num_opaque(rest),
    ensures
        spec_lex_number(lx + rest) == Some((lx, rest)),
{
    let s = lx + rest;
    lemma_number_parts_bound(lx);
    let sgl: int = if lx.len() > 0 && (lx[0] == 43 || lx[0] == 45) {
        1
    } else {
        0
    };
    let tl = lx.skip(sgl);
    let ml = spec_mantissa_len(tl);
    // full consumption pins the lexeme's shape
    assert(ml >= 0);
    lemma_number_parts_bound(tl);
    lemma_number_parts_bound(tl.skip(ml));
    let el = spec_exponent_len(tl.skip(ml));
    assert(lx.take(sgl + ml + el) == lx && lx.skip(sgl + ml + el) =~= Seq::<u8>::empty());
    assert(lx.skip(sgl + ml + el).len() == lx.len() - sgl - ml - el);
    assert(sgl + ml + el == lx.len());
    assert(lx.len() >= 1) by {
        lemma_digits_len_bound(tl);
        if digits_len(tl) == 0 {
            lemma_digits_len_bound(tl.skip(1));
        }
    }
    // the sign reads the same on the extension
    assert(s.len() > 0 && s[0] == lx[0]);
    let sg: int = if s[0] == 43 || s[0] == 45 {
        1
    } else {
        0
    };
    assert(sg == sgl);
    let t = s.skip(sg);
    assert(t =~= tl + rest);
    // the mantissa reads the same
    lemma_digits_len_bound(tl);
    lemma_digits_len_concat(tl, rest);
    let dl = digits_len(tl);
    assert(digits_len(rest) == 0);
    let m = spec_mantissa_len(t);
    if dl > 0 {
        if tl.len() > dl && tl[dl] == 46 {
            assert(t[dl] == tl[dl]);
            assert(t.skip(dl + 1) =~= tl.skip(dl + 1) + rest);
            lemma_digits_len_concat(tl.skip(dl + 1), rest);
            lemma_digits_len_bound(tl.skip(dl + 1));
            assert(m == ml);
        } else if dl == tl.len() {
            if t.len() > dl {
                assert(t[dl] == rest[0]);
                assert(rest[0] != 46);
            }
            assert(m == ml);
        } else {
            assert(t[dl] == tl[dl]);
            assert(m == ml);
        }
    } else {
        if tl.len() >= 2 && tl[0] == 46 && is_digit(tl[1]) {
            assert(t[0] == tl[0] && t[1] == tl[1]);
            assert(t.skip(1) =~= tl.skip(1) + rest);
            lemma_digits_len_concat(tl.skip(1), rest);
            lemma_digits_len_bound(tl.skip(1));
            assert(m == ml);
        } else {
            // a lexeme with no digits and no fraction cannot be complete
            assert(ml == -1);
            assert(false);
        }
    }
    assert(m == ml);
    // the exponent reads the same
    let ul = tl.skip(ml);
    let u = t.skip(m);
    assert(u =~= ul + rest);
    assert(el == ul.len());
    if ul.len() == 0 {
        assert(u =~= rest);
        if u.len() >= 2 && (u[0] == 101 || u[0] == 69) {
            assert(false);
        }
        assert(spec_exponent_len(u) == 0);
    } else {
        assert(ul[0] == 101 || ul[0] == 69) by {
            if !(ul[0] == 101 || ul[0] == 69) {
                assert(spec_exponent_len(ul) == 0);
            }
        }
        assert(el >= 1);
        assert(ul.len() >= 2) by {
            if ul.len() == 1 {
                assert(spec_exponent_len(ul) == 0);
            }
        }
        assert(u[0] == ul[0] && u[1] == ul[1]);
        let es: int = if ul[1] == 43 || ul[1] == 45 {
            1
        } else {
            0
        };
        assert(u.skip(1 + es) =~= ul.skip(1 + es) + rest);
        lemma_digits_len_concat(ul.skip(1 + es), rest);
        lemma_digits_len_bound(ul.skip(1 + es));
        let edl = digits_len(ul.skip(1 + es));
        assert(el == 1 + es + edl);
        assert(edl == ul.len() - 1 - es);
        assert(edl > 0);
        assert(digits_len(ul.skip(1 + es) + rest) == edl);
        assert(spec_exponent_len(u) == el);
    }
    assert(spec_exponent_len(u) == el);
    assert(sg + m + spec_exponent_len(u) == lx.len());
    assert(s.take(lx.len() as int) =~= lx);
    assert(s.skip(lx.len() as int) =~= rest);
}


/// Skipping separators is idempotent: a second skip right after a first
/// consumes nothing more.
pub proof fn lemma_skip_sep_idempotent(s: Seq<u8>)
    ensures
        spec_skip_sep(spec_skip_sep(s)) == spec_skip_sep(s),
    decreases s.len(),
{
    if s.len() > 0 && is_space(s[0]) {
        lemma_skip_sep_idempotent(s.skip(1));
    } else if spec_comment(s) is Some {
        let r = spec_comment(s)->Some_0;
        if r.len() < s.len() {
            lemma_skip_sep_idempotent(r);
        }
    }
}

/// A complete comment keeps its extent when more text follows the input.
pub proof fn lemma_comment_body_extends(a: Seq<u8>, t: Seq<u8>)
    ensures
        spec_comment_body(a) matches Some(r) ==> spec_comment_body(a + t) == Some(r + t),
    decreases a.len(),
{
    if a.len() == 0 {
    } else if a[0] == 10 {
        assert((a + t)[0] == 10);
        assert((a + t).skip(1) =~= a.skip(1) + t);
    } else if a[0] == 13 {
        if a.len() >= 2 && a[1] == 10 {
            assert((a + t)[0] == 13 && (a + t)[1] == 10);
            assert((a + t).skip(2) =~= a.skip(2) + t);
        }
    } else {
        assert((a + t)[0] == a[0]);
        assert((a + t).skip(1) =~= a.skip(1) + t);
        lemma_comment_body_extends(a.skip(1), t);
    }
}

/// Text that is nothing but separators absorbs into the skip of whatever
/// follows it: inserting it at a skipping point changes no parse.
pub proof fn lemma_skip_sep_absorbs(w: Seq<u8>, t: Seq<u8>)
    requires
        spec_skip_sep(w) == Seq::<u8>::empty(),
    ensures
        spec_skip_sep(w + t) == spec_skip_sep(t),
    decreases w.len(),
{
    if w.len() == 0 {
        assert(w + t =~= t);
    } else if is_space(w[0]) {
        assert((w + t)[0] == w[0]);
        assert((w + t).skip(1) =~= w.skip(1) + t);
        lemma_skip_sep_absorbs(w.skip(1), t);
    } else if spec_comment(w) is Some {
        let r = spec_comment(w)->Some_0;
        lemma_comment_body_shrinks(w.skip(2));
        if r.len() < w.len() {
            assert((w + t).len() >= 2 && (w + t)[0] == 47 && (w + t)[1] == 47);
            assert((w + t).skip(2) =~= w.skip(2) + t);
            lemma_comment_body_extends(w.skip(2), t);
            assert(spec_comment(w + t) == Some(r + t));
            assert((r + t).len() < (w + t).len());
            lemma_skip_sep_absorbs(r, t);
        } else {
            assert(spec_skip_sep(w) == w);
            assert(false);
        }
    } else {
        assert(spec_skip_sep(w) == w);
        assert(false);
    }
}


/// How a digit run behaves on a prefix: it is cut off at `k` when it
/// would reach past it.
pub proof fn lemma_digits_len_take(t: Seq<u8>, k: int)
    requires
        0 <= k <= t.len(),
    ensures
        digits_len(t.take(k)) == if digits_len(t) <= k {
            digits_len(t)
        } else {
            k
        },
    decreases k,
{
    lemma_digits_len_bound(t);
    if k == 0 {
        assert(t.take(0).len() == 0);
    } else if t.len() > 0 && is_digit(t[0]) {
        assert(t.take(k)[0] == t[0]);
        assert(t.take(k).skip(1) =~= t.skip(1).take(k - 1));
        lemma_digits_len_take(t.skip(1), k - 1);
    } else {
        assert(t.take(k)[0] == t[0]);
        assert(digits_len(t.take(k)) == 0);
    }
}

/// What the number lexer hands out is a complete numeric lexeme: lexed on
/// its own it consumes itself exactly.
pub proof fn lemma_number_restrict(s: Seq<u8>)
    ensures
        spec_lex_number(s) matches Some((lx, r)) ==> spec_lex_number(lx) == Some(
            (lx, Seq::<u8>::empty()),
        ),
{
    if spec_lex_number(s) is Some {
        let sg: int = if s.len() > 0 && (s[0] == 43 || s[0] == 45) {
            1
        } else {
            0
        };
        let t = s.skip(sg);
        lemma_number_parts_bound(t);
        let m = spec_mantissa_len(t);
        assert(m >= 0);
        lemma_number_parts_bound(t.skip(m));
        let e = spec_exponent_len(t.skip(m));
        let n = sg + m + e;
        let lx = s.take(n);
        lemma_digits_len_bound(t);
        if digits_len(t) == 0 {
            lemma_digits_len_bound(t.skip(1));
        } else {
            if t.len() > digits_len(t) && t[digits_len(t)] == 46 {
                lemma_digits_len_bound(t.skip(digits_len(t) + 1));
            }
        }
        assert(1 <= m);
        assert(n <= s.len());
        // the lexeme's sign reads the same
        assert(lx.len() == n >= 1);
        assert(lx[0] == s[0]);
        let tl = lx.skip(sg);
        assert(tl =~= t.take(m + e));
        // the mantissa reads the same
        let d = digits_len(t);
        lemma_digits_len_take(t, m + e);
        let dl = digits_len(tl);
        let ml = spec_mantissa_len(tl);
        if d > 0 {
            if t.len() > d && t[d] == 46 {
                // integer part, point, fraction
                assert(d < m);
                assert(dl == d);
                assert(tl.len() > d && tl[d] == t[d]);
                assert(tl.skip(d + 1) =~= t.skip(d + 1).take(m + e - d - 1));
                lemma_digits_len_take(t.skip(d + 1), m + e - d - 1);
                lemma_digits_len_bound(t.skip(d + 1));
                if e > 0 {
                    // an exponent follows the fraction, so the fraction's
                    // digit run ends before the cut
                    assert(t.skip(m)[0] == t[m]);
                    assert(!is_digit(t[m]));
                    assert(t.skip(d + 1)[m - d - 1] == t[m]);
                    assert(digits_len(t.skip(d + 1)) <= m - d - 1) by {
                        lemma_digits_run(t.skip(d + 1), m - d - 1);
                    }
                }
                assert(ml == m);
            } else {
                assert(m == d);
                assert(dl == if d <= m + e { d } else { m + e });
                if e > 0 {
                    assert(t.skip(m)[0] == t[m]);
                    assert(!is_digit(t[m]));
                }
                assert(dl == d);
                if tl.len() > d {
                    assert(tl[d] == t[d]);
                }
                assert(ml == m);
            }
        } else {
            // fraction only
            assert(t.len() >= 2 && t[0] == 46 && is_digit(t[1]));
            assert(t.skip(1)[0] == t[1]);
            lemma_digits_len_bound(t.skip(1).skip(1));
            assert(digits_len(t.skip(1)) >= 1);
            assert(m >= 2);
            assert(dl == 0) by {
                assert(tl[0] == t[0]);
            }
            assert(tl.len() >= 2 && tl[0] == t[0] && tl[1] == t[1]);
            assert(tl.skip(1) =~= t.skip(1).take(m + e - 1));
            lemma_digits_len_take(t.skip(1), m + e - 1);
            lemma_digits_len_bound(t.skip(1));
            if e > 0 {
                assert(t.skip(m)[0] == t[m]);
                assert(!is_digit(t[m]));
                assert(t.skip(1)[m - 1] == t[m]);
                assert(digits_len(t.skip(1)) <= m - 1) by {
                    lemma_digits_run(t.skip(1), m - 1);
                }
            }
            assert(ml == m);
        }
        // the exponent reads the same
        let ul = tl.skip(ml);
        let u = t.skip(m);
        assert(ul =~= u.take(e));
        if e == 0 {
            assert(ul.len() == 0);
            assert(spec_exponent_len(ul) == 0);
        } else {
            assert(u.len() >= 2 && (u[0] == 101 || u[0] == 69));
            let es: int = if u[1] == 43 || u[1] == 45 {
                1
            } else {
                0
            };
            let ed = digits_len(u.skip(1 + es));
            assert(ed > 0 && e == 1 + es + ed);
            assert(ul.len() == e);
            assert(ul[0] == u[0]);
            if ul.len() >= 2 {
                assert(ul[1] == u[1]);
            }
            assert(ul.skip(1 + es) =~= u.skip(1 + es).take(ed));
            lemma_digits_len_take(u.skip(1 + es), ed);
            lemma_digits_len_bound(u.skip(1 + es));
            assert(spec_exponent_len(ul) == e);
        }
        assert(sg + ml + spec_exponent_len(ul) == n);
        assert(lx.take(n) =~= lx);
        assert(lx.skip(n) =~= Seq::<u8>::empty());
    }
}

/// A digit run stops no later than the first non-digit.
pub proof fn lemma_digits_run(t: Seq<u8>, k: int)
    requires
        0 <= k < t.len(),
        !is_digit(t[k]),
    ensures
        digits_len(t) <= k,
    decreases k,
{
    if t.len() > 0 && is_digit(t[0]) {
        assert(k > 0);
        assert(t.skip(1)[k - 1] == t[k]);
        lemma_digits_run(t.skip(1), k - 1);
    }
}

} // verus!
