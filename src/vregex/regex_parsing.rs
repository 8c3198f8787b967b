//! Pattern syntax, by decreasing precedence of what binds loosest:
//!
//! ```text
//! expr          := alternation
//! alternation   := concatenation ('+' concatenation)*
//! concatenation := repetition repetition*
//! repetition    := atom ('*')*
//! atom          := '(' expr ')' | literal
//! literal       := 'a' ..= 'z'
//! ```
//!
//! `+` is alternation (either side), not one-or-more. Binary operators
//! associate to the left, and the whole input must be consumed.
use vstd::prelude::*;

verus! {

/// Syntax tree of a pattern.
#[derive(Debug)]
pub enum Regex {
    Literal(char),
    Concat(Box<Regex>, Box<Regex>),
    Plus(Box<Regex>, Box<Regex>),
    Star(Box<Regex>),
}

/// Why a pattern was refused.
#[derive(Debug, PartialEq, Eq, Structural)]
pub enum ParseErrorKind {
    /// The pattern ended where an atom was expected.
    UnexpectedEnd,
    /// A `(` was not closed by a `)`.
    UnclosedParen,
    /// A character outside `'a'..='z'` stood where a literal was expected.
    InvalidLiteral(char),
    /// Input remained after a complete expression.
    TrailingInput,
}

/// A refused pattern: what went wrong, and at which character position.
#[derive(Debug, PartialEq, Eq, Structural)]
pub struct ParseError {
    pub kind: ParseErrorKind,
    pub position: usize,
}

impl ParseError {
    /// A human-readable description of the error.
    pub fn description(&self) -> &'static str {
        match self.kind {
            ParseErrorKind::UnexpectedEnd => "parse error: unexpected end of pattern",
            ParseErrorKind::UnclosedParen => "parse error: '(' without matching ')'",
            ParseErrorKind::InvalidLiteral(_) => "parse error: expected a letter from 'a' to 'z' or '('",
            ParseErrorKind::TrailingInput => "parse error: unexpected input after the pattern",
        }
    }
}

pub open spec fn is_literal(c: char) -> bool {
    'a' <= c && c <= 'z'
}

/// `s` derives the tree `r` from the grammar symbol of the given level:
/// 0 atom, 1 repetition, 2 concatenation, 3 alternation.
pub open spec fn derives(s: Seq<char>, r: Regex, level: nat) -> bool
    decreases s.len(), level,
{
    if level == 0 {
        ||| (s.len() == 1 && is_literal(s[0]) && r == Regex::Literal(s[0]))
        ||| (s.len() >= 2 && s[0] == '(' && s.last() == ')' && derives(
            s.subrange(1, s.len() - 1),
            r,
            3,
        ))
    } else if level == 1 {
        ||| derives(s, r, 0)
        ||| (s.len() >= 1 && s.last() == '*' && r is Star && derives(s.drop_last(), *r->Star_0, 1))
    } else if level == 2 {
        ||| derives(s, r, 1)
        ||| (r is Concat && exists|k: int|
            0 < k < s.len() && derives(#[trigger] s.subrange(0, k), *r->Concat_0, 2) && derives(
                s.subrange(k, s.len() as int),
                *r->Concat_1,
                1,
            ))
    } else {
        ||| derives(s, r, 2)
        ||| (r is Plus && exists|k: int|
            0 < k < s.len() - 1 && s[k] == '+' && derives(#[trigger] s.subrange(0, k), *r->Plus_0, 3)
                && derives(s.subrange(k + 1, s.len() as int), *r->Plus_1, 2))
    }
}

/// `s` is a whole pattern denoting `r`.
pub open spec fn is_pattern_of(s: Seq<char>, r: Regex) -> bool {
    derives(s, r, 3)
}

pub open spec fn atom_start(c: char) -> bool {
    c == '(' || is_literal(c)
}

/// `c` can extend a phrase of the given level.
pub open spec fn continues(c: char, level: nat) -> bool {
    ||| (level >= 1 && c == '*')
    ||| (level >= 2 && atom_start(c))
    ||| (level >= 3 && c == '+')
}

/// A phrase of the given level may end before position `q`.
pub open spec fn ends_at(s: Seq<char>, q: int, level: nat) -> bool {
    q == s.len() || !continues(s[q], level)
}

/// `s[a..b]` is a phrase of the given level.
pub open spec fn phrase(s: Seq<char>, a: int, b: int, level: nat) -> bool {
    exists|t: Regex| #[trigger] derives(s.subrange(a, b), t, level)
}

/// `s[a..b]` is a sequence of zero or more repetitions.
pub open spec fn reps(s: Seq<char>, a: int, b: int) -> bool
    decreases b - a,
{
    a == b || exists|m: int| a < m <= b && #[trigger] phrase(s, a, m, 1) && reps(s, m, b)
}

/// `s[a..b]` is zero or more of `'+' concatenation`.
pub open spec fn alts(s: Seq<char>, a: int, b: int) -> bool
    decreases b - a,
{
    a == b || (a < b && s[a] == '+' && exists|m: int| a + 1 < m <= b && #[trigger] phrase(s, a + 1, m, 2) && alts(s, m, b))
}

/// Every phrase is non-empty and starts with `(` or a letter.
pub proof fn lemma_phrase_start(s: Seq<char>, t: Regex, level: nat)
    requires
        derives(s, t, level),
    ensures
        s.len() >= 1,
        atom_start(s[0]),
    decreases s.len(), level,
{
    if level == 1 {
        if !derives(s, t, 0) {
            lemma_phrase_start(s.drop_last(), *t->Star_0, 1);
            assert(s.drop_last()[0] == s[0]);
        } else {
            lemma_phrase_start(s, t, 0);
        }
    } else if level == 2 {
        if derives(s, t, 1) {
            lemma_phrase_start(s, t, 1);
        } else {
            let k = choose|k: int| 0 < k < s.len() && derives(#[trigger] s.subrange(0, k), *t->Concat_0, 2) && derives(
                s.subrange(k, s.len() as int),
                *t->Concat_1,
                1,
            );
            lemma_phrase_start(s.subrange(0, k), *t->Concat_0, 2);
            assert(s.subrange(0, k)[0] == s[0]);
        }
    } else if level >= 3 {
        if derives(s, t, 2) {
            lemma_phrase_start(s, t, 2);
        } else {
            let k = choose|k: int| 0 < k < s.len() - 1 && s[k] == '+' && derives(#[trigger] s.subrange(0, k), *t->Plus_0, 3)
                && derives(s.subrange(k + 1, s.len() as int), *t->Plus_1, 2);
            lemma_phrase_start(s.subrange(0, k), *t->Plus_0, 3);
            assert(s.subrange(0, k)[0] == s[0]);
        }
    }
}

proof fn lemma_reps_append(s: Seq<char>, a: int, b: int, c: int)
    requires
        a <= b < c,
        reps(s, a, b),
        phrase(s, b, c, 1),
    ensures
        reps(s, a, c),
    decreases b - a,
{
    if a == b {
        assert(reps(s, c, c));
    } else {
        let m = choose|m: int| a < m <= b && #[trigger] phrase(s, a, m, 1) && reps(s, m, b);
        lemma_reps_append(s, m, b, c);
    }
}

proof fn lemma_alts_append(s: Seq<char>, a: int, b: int, c: int)
    requires
        a <= b,
        b + 1 < c,
        s[b] == '+',
        alts(s, a, b),
        phrase(s, b + 1, c, 2),
    ensures
        alts(s, a, c),
    decreases b - a,
{
    if a == b {
        assert(alts(s, c, c));
    } else {
        let m = choose|m: int| a + 1 < m <= b && #[trigger] phrase(s, a + 1, m, 2) && alts(s, m, b);
        lemma_alts_append(s, m, b, c);
    }
}

/// A repetition is an atom followed by stars only.
proof fn lemma_rep_shape(s: Seq<char>, a: int, q: int, t: Regex)
    requires
        0 <= a < q <= s.len(),
        derives(s.subrange(a, q), t, 1),
    ensures
        exists|m: int| a < m <= q && #[trigger] phrase(s, a, m, 0) && forall|i: int| m <= i < q ==> s[i] == '*',
    decreases q - a,
{
    if derives(s.subrange(a, q), t, 0) {
        assert(phrase(s, a, q, 0));
    } else {
        assert(s.subrange(a, q).drop_last() =~= s.subrange(a, q - 1));
        lemma_phrase_start(s.subrange(a, q - 1), *t->Star_0, 1);
        lemma_rep_shape(s, a, q - 1, *t->Star_0);
        let m = choose|m: int| a < m <= q - 1 && #[trigger] phrase(s, a, m, 0) && forall|i: int| m <= i < q - 1 ==> s[i] == '*';
        assert(s.subrange(a, q)[q - a - 1] == '*');
    }
}

/// A concatenation is a repetition followed by zero or more repetitions.
proof fn lemma_concat_shape(s: Seq<char>, a: int, q: int, t: Regex)
    requires
        0 <= a < q <= s.len(),
        derives(s.subrange(a, q), t, 2),
    ensures
        exists|m: int| a < m <= q && #[trigger] phrase(s, a, m, 1) && reps(s, m, q),
    decreases q - a,
{
    if derives(s.subrange(a, q), t, 1) {
        assert(phrase(s, a, q, 1));
        assert(reps(s, q, q));
    } else {
        let w = s.subrange(a, q);
        let k = choose|k: int| 0 < k < w.len() && derives(#[trigger] w.subrange(0, k), *t->Concat_0, 2) && derives(
            w.subrange(k, w.len() as int),
            *t->Concat_1,
            1,
        );
        assert(w.subrange(0, k) =~= s.subrange(a, a + k));
        assert(w.subrange(k, w.len() as int) =~= s.subrange(a + k, q));
        lemma_concat_shape(s, a, a + k, *t->Concat_0);
        let m = choose|m: int| a < m <= a + k && #[trigger] phrase(s, a, m, 1) && reps(s, m, a + k);
        assert(phrase(s, a + k, q, 1));
        lemma_reps_append(s, m, a + k, q);
    }
}

/// An alternation is a concatenation followed by zero or more `'+' concatenation`.
proof fn lemma_alt_shape(s: Seq<char>, a: int, q: int, t: Regex)
    requires
        0 <= a < q <= s.len(),
        derives(s.subrange(a, q), t, 3),
    ensures
        exists|m: int| a < m <= q && #[trigger] phrase(s, a, m, 2) && alts(s, m, q),
    decreases q - a,
{
    if derives(s.subrange(a, q), t, 2) {
        assert(phrase(s, a, q, 2));
        assert(alts(s, q, q));
    } else {
        let w = s.subrange(a, q);
        let k = choose|k: int| 0 < k < w.len() - 1 && w[k] == '+' && derives(#[trigger] w.subrange(0, k), *t->Plus_0, 3)
            && derives(w.subrange(k + 1, w.len() as int), *t->Plus_1, 2);
        assert(w.subrange(0, k) =~= s.subrange(a, a + k));
        assert(w.subrange(k + 1, w.len() as int) =~= s.subrange(a + k + 1, q));
        lemma_alt_shape(s, a, a + k, *t->Plus_0);
        let m = choose|m: int| a < m <= a + k && #[trigger] phrase(s, a, m, 2) && alts(s, m, a + k);
        assert(phrase(s, a + k + 1, q, 2));
        lemma_alts_append(s, m, a + k, q);
    }
}

/// Whether `c` can start an atom.
fn starts_atom(c: char) -> (r: bool)
    ensures
        r == (c == '(' || is_literal(c)),
{
    c == '(' || ('a' <= c && c <= 'z')
}

proof fn lemma_reps_first(s: Seq<char>, a: int, b: int)
    requires
        0 <= a < b <= s.len(),
        reps(s, a, b),
    ensures
        atom_start(s[a]),
{
    let m = choose|m: int| a < m <= b && #[trigger] phrase(s, a, m, 1) && reps(s, m, b);
    let t = choose|t: Regex| #[trigger] derives(s.subrange(a, m), t, 1);
    lemma_phrase_start(s.subrange(a, m), t, 1);
    assert(s.subrange(a, m)[0] == s[a]);
}

/// Parses an atom at `pos`; on success returns the tree and the position
/// after it. Every atom that starts at `pos` ends where the parse ends.
fn parse_atom(s: &Vec<char>, pos: usize) -> (r: Result<(Regex, usize), ParseError>)
    requires
        pos <= s@.len(),
    ensures
        r matches Ok((t, end)) ==> pos < end <= s@.len() && derives(s@.subrange(pos as int, end as int), t, 0),
        forall|q: int, t: Regex|
            pos < q <= s@.len() && #[trigger] derives(s@.subrange(pos as int, q), t, 0) ==> r is Ok && r->Ok_0.1 == q,
        r matches Err(e) ==> e.position <= s@.len() && e.kind != ParseErrorKind::TrailingInput && (e.kind
            == ParseErrorKind::UnexpectedEnd ==> e.position
            == s@.len()) && (e.kind is InvalidLiteral ==> e.position < s@.len() && e.kind
            == ParseErrorKind::InvalidLiteral(s@[e.position as int])),
        pos == s@.len() ==> r == Err::<(Regex, usize), _>(
            ParseError { kind: ParseErrorKind::UnexpectedEnd, position: pos },
        ),
    decreases s@.len() - pos, 0nat,
{
    if pos == s.len() {
        return Err(ParseError { kind: ParseErrorKind::UnexpectedEnd, position: pos });
    }
    let c = s[pos];
    proof {
        assert forall|q: int, t: Regex| pos < q <= s@.len() && #[trigger] derives(s@.subrange(pos as int, q), t, 0)
            implies if c == '(' {
                pos + 1 < q - 1 && s@[q - 1] == ')' && derives(s@.subrange(pos + 1, q - 1), t, 3)
            } else {
                is_literal(c) && q == pos + 1
            } by {
            let w = s@.subrange(pos as int, q);
            assert(w[0] == c);
            if c == '(' {
                assert(w.subrange(1, w.len() - 1) =~= s@.subrange(pos + 1, q - 1));
                assert(w.last() == s@[q - 1]);
                lemma_phrase_start(s@.subrange(pos + 1, q - 1), t, 3);
            }
        }
    }
    if c == '(' {
        match parse_alternation(s, pos + 1) {
            Err(e) => Err(e),
            Ok((t, p)) => {
                if p < s.len() && s[p] == ')' {
                    proof {
                        let w = s@.subrange(pos as int, p + 1);
                        assert(w.subrange(1, w.len() - 1) =~= s@.subrange(pos + 1, p as int));
                    }
                    Ok((t, p + 1))
                } else {
                    Err(ParseError { kind: ParseErrorKind::UnclosedParen, position: p })
                }
            },
        }
    } else if 'a' <= c && c <= 'z' {
        Ok((Regex::Literal(c), pos + 1))
    } else {
        Err(ParseError { kind: ParseErrorKind::InvalidLiteral(c), position: pos })
    }
}

/// Parses an atom followed by any number of `*`. Every repetition that
/// starts at `pos` and may end at `q` ends where the parse ends.
fn parse_repetition(s: &Vec<char>, pos: usize) -> (r: Result<(Regex, usize), ParseError>)
    requires
        pos <= s@.len(),
    ensures
        r matches Ok((t, end)) ==> pos < end <= s@.len() && derives(s@.subrange(pos as int, end as int), t, 1),
        forall|q: int, t: Regex|
            pos < q <= s@.len() && #[trigger] derives(s@.subrange(pos as int, q), t, 1) && ends_at(s@, q, 1) ==> r is Ok
                && r->Ok_0.1 == q,
        r matches Err(e) ==> e.position <= s@.len() && e.kind != ParseErrorKind::TrailingInput && (e.kind
            == ParseErrorKind::UnexpectedEnd ==> e.position
            == s@.len()) && (e.kind is InvalidLiteral ==> e.position < s@.len() && e.kind
            == ParseErrorKind::InvalidLiteral(s@[e.position as int])),
        pos == s@.len() ==> r == Err::<(Regex, usize), _>(
            ParseError { kind: ParseErrorKind::UnexpectedEnd, position: pos },
        ),
    decreases s@.len() - pos, 1nat,
{
    let first = parse_atom(s, pos);
    proof {
        assert forall|q: int, t: Regex|
            pos < q <= s@.len() && #[trigger] derives(s@.subrange(pos as int, q), t, 1) implies first is Ok
                && first->Ok_0.1 <= q && forall|i: int| first->Ok_0.1 <= i < q ==> s@[i] == '*' by {
            lemma_rep_shape(s@, pos as int, q, t);
            let m = choose|m: int| pos < m <= q && #[trigger] phrase(s@, pos as int, m, 0) && forall|i: int|
                m <= i < q ==> s@[i] == '*';
            let ta = choose|ta: Regex| #[trigger] derives(s@.subrange(pos as int, m), ta, 0);
        }
    }
    let (mut node, mut p) = match first {
        Err(e) => return Err(e),
        Ok(x) => x,
    };
    assert(derives(s@.subrange(pos as int, p as int), node, 1));
    while p < s.len() && s[p] == '*'
        invariant
            pos < p <= s@.len(),
            derives(s@.subrange(pos as int, p as int), node, 1),
            forall|q: int, t: Regex|
                pos < q <= s@.len() && #[trigger] derives(s@.subrange(pos as int, q), t, 1) && ends_at(s@, q, 1) ==> p
                    <= q && forall|i: int| p <= i < q ==> s@[i] == '*',
        decreases s@.len() - p,
    {
        node = Regex::Star(Box::new(node));
        p = p + 1;
        assert(s@.subrange(pos as int, p as int).drop_last() =~= s@.subrange(pos as int, p - 1));
    }
    Ok((node, p))
}

/// Parses one or more repetitions, folded to the left into concatenations.
/// Every concatenation that starts at `pos` and may end at `q` ends where
/// the parse ends.
fn parse_concatenation(s: &Vec<char>, pos: usize) -> (r: Result<(Regex, usize), ParseError>)
    requires
        pos <= s@.len(),
    ensures
        r matches Ok((t, end)) ==> pos < end <= s@.len() && derives(s@.subrange(pos as int, end as int), t, 2),
        forall|q: int, t: Regex|
            pos < q <= s@.len() && #[trigger] derives(s@.subrange(pos as int, q), t, 2) && ends_at(s@, q, 2) ==> r is Ok
                && r->Ok_0.1 == q,
        r matches Err(e) ==> e.position <= s@.len() && e.kind != ParseErrorKind::TrailingInput && (e.kind
            == ParseErrorKind::UnexpectedEnd ==> e.position
            == s@.len()) && (e.kind is InvalidLiteral ==> e.position < s@.len() && e.kind
            == ParseErrorKind::InvalidLiteral(s@[e.position as int])),
        pos == s@.len() ==> r == Err::<(Regex, usize), _>(
            ParseError { kind: ParseErrorKind::UnexpectedEnd, position: pos },
        ),
    decreases s@.len() - pos, 2nat,
{
    let first = parse_repetition(s, pos);
    proof {
        assert forall|q: int, t: Regex|
            pos < q <= s@.len() && #[trigger] derives(s@.subrange(pos as int, q), t, 2) && ends_at(s@, q, 2)
                implies first is Ok && first->Ok_0.1 <= q && reps(s@, first->Ok_0.1 as int, q) by {
            lemma_concat_shape(s@, pos as int, q, t);
            let m = choose|m: int| pos < m <= q && #[trigger] phrase(s@, pos as int, m, 1) && reps(s@, m, q);
            let tr = choose|tr: Regex| #[trigger] derives(s@.subrange(pos as int, m), tr, 1);
            if m < q {
                lemma_reps_first(s@, m, q);
            }
            assert(ends_at(s@, m, 1));
        }
    }
    let (mut node, mut p) = match first {
        Err(e) => return Err(e),
        Ok(x) => x,
    };
    assert(derives(s@.subrange(pos as int, p as int), node, 2));
    while p < s.len() && starts_atom(s[p])
        invariant
            pos < p <= s@.len(),
            derives(s@.subrange(pos as int, p as int), node, 2),
            forall|q: int, t: Regex|
                pos < q <= s@.len() && #[trigger] derives(s@.subrange(pos as int, q), t, 2) && ends_at(s@, q, 2) ==> p
                    <= q && reps(s@, p as int, q),
        decreases s@.len() - p,
    {
        let res = parse_repetition(s, p);
        proof {
            assert forall|q: int, t: Regex|
                pos < q <= s@.len() && #[trigger] derives(s@.subrange(pos as int, q), t, 2) && ends_at(s@, q, 2)
                    implies res is Ok && res->Ok_0.1 <= q && reps(s@, res->Ok_0.1 as int, q) by {
                assert(p < q);
                let m = choose|m: int| p < m <= q && #[trigger] phrase(s@, p as int, m, 1) && reps(s@, m, q);
                let tr = choose|tr: Regex| #[trigger] derives(s@.subrange(p as int, m), tr, 1);
                if m < q {
                    lemma_reps_first(s@, m, q);
                }
                assert(ends_at(s@, m, 1));
            }
        }
        let (next, q) = match res {
            Err(e) => return Err(e),
            Ok(x) => x,
        };
        let ghost left = node;
        node = Regex::Concat(Box::new(node), Box::new(next));
        proof {
            let w = s@.subrange(pos as int, q as int);
            let k = p - pos;
            assert(w.subrange(0, k) =~= s@.subrange(pos as int, p as int));
            assert(w.subrange(k, w.len() as int) =~= s@.subrange(p as int, q as int));
            assert(derives(w.subrange(0, k), left, 2));
            assert(derives(w.subrange(k, w.len() as int), next, 1));
            assert(derives(w, node, 2));
        }
        p = q;
    }
    proof {
        assert forall|q: int, t: Regex|
            pos < q <= s@.len() && #[trigger] derives(s@.subrange(pos as int, q), t, 2) && ends_at(s@, q, 2)
                implies p == q by {
            if p < q {
                lemma_reps_first(s@, p as int, q);
            }
        }
    }
    Ok((node, p))
}

/// Parses concatenations separated by `+`, folded to the left into
/// alternations. Every alternation that starts at `pos` and may end at `q`
/// ends where the parse ends.
fn parse_alternation(s: &Vec<char>, pos: usize) -> (r: Result<(Regex, usize), ParseError>)
    requires
        pos <= s@.len(),
    ensures
        r matches Ok((t, end)) ==> pos < end <= s@.len() && derives(s@.subrange(pos as int, end as int), t, 3),
        forall|q: int, t: Regex|
            pos < q <= s@.len() && #[trigger] derives(s@.subrange(pos as int, q), t, 3) && ends_at(s@, q, 3) ==> r is Ok
                && r->Ok_0.1 == q,
        r matches Err(e) ==> e.position <= s@.len() && e.kind != ParseErrorKind::TrailingInput && (e.kind
            == ParseErrorKind::UnexpectedEnd ==> e.position
            == s@.len()) && (e.kind is InvalidLiteral ==> e.position < s@.len() && e.kind
            == ParseErrorKind::InvalidLiteral(s@[e.position as int])),
        pos == s@.len() ==> r == Err::<(Regex, usize), _>(
            ParseError { kind: ParseErrorKind::UnexpectedEnd, position: pos },
        ),
    decreases s@.len() - pos, 3nat,
{
    let first = parse_concatenation(s, pos);
    proof {
        assert forall|q: int, t: Regex|
            pos < q <= s@.len() && #[trigger] derives(s@.subrange(pos as int, q), t, 3) && ends_at(s@, q, 3)
                implies first is Ok && first->Ok_0.1 <= q && alts(s@, first->Ok_0.1 as int, q) by {
            lemma_alt_shape(s@, pos as int, q, t);
            let m = choose|m: int| pos < m <= q && #[trigger] phrase(s@, pos as int, m, 2) && alts(s@, m, q);
            let tc = choose|tc: Regex| #[trigger] derives(s@.subrange(pos as int, m), tc, 2);
            assert(ends_at(s@, m, 2));
        }
    }
    let (mut node, mut p) = match first {
        Err(e) => return Err(e),
        Ok(x) => x,
    };
    assert(derives(s@.subrange(pos as int, p as int), node, 3));
    while p < s.len() && s[p] == '+'
        invariant
            pos < p <= s@.len(),
            derives(s@.subrange(pos as int, p as int), node, 3),
            forall|q: int, t: Regex|
                pos < q <= s@.len() && #[trigger] derives(s@.subrange(pos as int, q), t, 3) && ends_at(s@, q, 3) ==> p
                    <= q && alts(s@, p as int, q),
        decreases s@.len() - p,
    {
        let res = parse_concatenation(s, p + 1);
        proof {
            assert forall|q: int, t: Regex|
                pos < q <= s@.len() && #[trigger] derives(s@.subrange(pos as int, q), t, 3) && ends_at(s@, q, 3)
                    implies res is Ok && res->Ok_0.1 <= q && alts(s@, res->Ok_0.1 as int, q) by {
                assert(p < q);
                let m = choose|m: int| p + 1 < m <= q && #[trigger] phrase(s@, p + 1, m, 2) && alts(s@, m, q);
                let tc = choose|tc: Regex| #[trigger] derives(s@.subrange(p + 1, m), tc, 2);
                assert(ends_at(s@, m, 2));
            }
        }
        let (next, q) = match res {
            Err(e) => return Err(e),
            Ok(x) => x,
        };
        let ghost left = node;
        node = Regex::Plus(Box::new(node), Box::new(next));
        proof {
            let w = s@.subrange(pos as int, q as int);
            let k = p - pos;
            assert(w.subrange(0, k) =~= s@.subrange(pos as int, p as int));
            assert(w.subrange(k + 1, w.len() as int) =~= s@.subrange(p + 1, q as int));
            assert(w[k] == '+');
            assert(derives(w.subrange(0, k), left, 3));
            assert(derives(w.subrange(k + 1, w.len() as int), next, 2));
            assert(derives(w, node, 3));
        }
        p = q;
    }
    Ok((node, p))
}

/// The characters of `input`, in order.
fn chars_of(input: &str) -> (r: Vec<char>)
    ensures
        r@ == input@,
{
    let n = input.unicode_len();
    let mut out: Vec<char> = Vec::new();
    let mut i: usize = 0;
    while i < n
        invariant
            n == input@.len(),
            i <= n,
            out@ == input@.subrange(0, i as int),
        decreases n - i,
    {
        out.push(input.get_char(i));
        i += 1;
        assert(out@ =~= input@.subrange(0, i as int));
    }
    assert(input@.subrange(0, n as int) =~= input@);
    out
}

/// Parses a whole pattern. On success the tree is a derivation of all of
/// `input`; input left after a complete expression is an error.
pub fn parse_regex(input: &str) -> (r: Result<Regex, ParseError>)
    ensures
        r matches Ok(t) ==> is_pattern_of(input@, t),
        r is Ok <==> exists|t: Regex| is_pattern_of(input@, t),
        input@.len() == 0 ==> r == Err::<Regex, _>(ParseError { kind: ParseErrorKind::UnexpectedEnd, position: 0 }),
        r matches Err(e) ==> (e.kind == ParseErrorKind::UnexpectedEnd ==> e.position == input@.len()) && (e.kind
            is InvalidLiteral ==> e.position < input@.len() && e.kind == ParseErrorKind::InvalidLiteral(
            input@[e.position as int],
        )) && (e.kind == ParseErrorKind::TrailingInput ==> 0 < e.position < input@.len() && phrase(
            input@,
            0,
            e.position as int,
            3,
        )),
{
    let s = chars_of(input);
    assert(s@.subrange(0, s@.len() as int) =~= input@);
    let res = parse_alternation(&s, 0);
    proof {
        assert forall|t: Regex| is_pattern_of(input@, t) implies res is Ok && res->Ok_0.1 == s@.len() by {
            lemma_phrase_start(input@, t, 3);
            assert(derives(s@.subrange(0, s@.len() as int), t, 3));
            assert(ends_at(s@, s@.len() as int, 3));
        }
    }
    match res {
        Err(e) => {
            assert forall|t: Regex| !is_pattern_of(input@, t) by {
                if is_pattern_of(input@, t) {
                    assert(res is Ok);
                }
            }
            Err(e)
        },
        Ok((t, p)) => {
            if p == s.len() {
                assert(s@.subrange(0, p as int) =~= input@);
                assert(is_pattern_of(input@, t));
                Ok(t)
            } else {
                assert(derives(s@.subrange(0, p as int), t, 3));
                assert forall|t: Regex| !is_pattern_of(input@, t) by {
                    if is_pattern_of(input@, t) {
                        assert(res->Ok_0.1 == s@.len());
                    }
                }
                Err(ParseError { kind: ParseErrorKind::TrailingInput, position: p })
            }
        },
    }
}

} // verus!
