use vstd::prelude::*;
use crate::cursor::{CharClass, Cursor, is_ascii_letter, lemma_run_end, run_end};
use crate::lexer::{
    ErrorKind, ParseError, Token, TokenModel, number, number_end, number_ok, number_starts,
};

verus! {

/// An expression: a single value, or the sum of two expressions.
#[derive(Debug, PartialEq)]
pub enum Expression<'a> {
    Value(Token<'a>),
    Add(Box<Expression<'a>>, Box<Expression<'a>>),
}

/// What an expression is.
pub enum ExprModel {
    Value(TokenModel),
    Add(Box<ExprModel>, Box<ExprModel>),
}

impl<'a> Expression<'a> {
    pub open spec fn model(&self) -> ExprModel
        decreases self,
    {
        match self {
            Expression::Value(t) => ExprModel::Value(t@),
            Expression::Add(l, r) => ExprModel::Add(Box::new(l.model()), Box::new(r.model())),
        }
    }
}

/// The outcome of a parse step: the position after what was read and the
/// expression read, or the kind and position of the failure.
pub type Step = Result<(int, ExprModel), (ErrorKind, int)>;

/// The position after the blanks (space, tab, line feed, carriage return)
/// that start at `pos`.
pub open spec fn blank_end(s: Seq<char>, pos: int) -> int {
    run_end(s, pos, CharClass::Blank)
}

/// An identifier of the expression grammar starts at `pos`: a letter or `_`.
pub open spec fn word_starts(s: Seq<char>, pos: int) -> bool {
    0 <= pos < s.len() && (is_ascii_letter(s[pos]) || s[pos] == '_')
}

/// Where that identifier ends: letters, digits and `_` follow its first
/// character.
pub open spec fn word_end(s: Seq<char>, pos: int) -> int {
    run_end(s, pos + 1, CharClass::Word)
}

/// A term read at `pos`, blanks around it included: a number, an identifier,
/// or an expression in parentheses. The guards on positions always hold (see
/// `lemma_term_bounds`); they make the recursion visibly well-founded.
pub open spec fn term_spec(s: Seq<char>, pos: int) -> Step
    decreases s.len() - pos, 1int,
{
    let p = blank_end(s, pos);
    if !(0 <= pos <= p <= s.len()) {
        Err((ErrorKind::UnmatchedToken, pos))
    } else if number_starts(s, p) {
        if number_ok(s, p) {
            let e = number_end(s, p);
            Ok((blank_end(s, e), ExprModel::Value(TokenModel::Number(s.subrange(p, e)))))
        } else {
            Err((ErrorKind::MalformedNumber, p))
        }
    } else if word_starts(s, p) {
        let e = word_end(s, p);
        Ok((blank_end(s, e), ExprModel::Value(TokenModel::Ident(s.subrange(p, e)))))
    } else if p < s.len() && s[p] == '(' {
        match expr_spec(s, p + 1) {
            Err(err) => Err(err),
            Ok((q, x)) => {
                if 0 <= q < s.len() && s[q] == ')' {
                    Ok((blank_end(s, q + 1), x))
                } else {
                    Err((ErrorKind::UnmatchedParenthesis, q))
                }
            },
        }
    } else {
        Err((ErrorKind::UnmatchedToken, p))
    }
}

/// An expression read at `pos`: a term, then as many `+ term` as follow,
/// folded to the left.
pub open spec fn expr_spec(s: Seq<char>, pos: int) -> Step
    decreases s.len() - pos, 2int,
{
    match term_spec(s, pos) {
        Err(err) => Err(err),
        Ok((p, t)) => {
            if 0 <= pos <= p <= s.len() {
                Ok(fold_spec(s, p, t))
            } else {
                Ok((p, t))
            }
        },
    }
}

/// Adds to `acc`, from the left, each term that follows a `+` from `pos` on.
/// Stops before the first `+ term` that does not match, and consumes nothing
/// of it.
pub open spec fn fold_spec(s: Seq<char>, pos: int, acc: ExprModel) -> (int, ExprModel)
    decreases s.len() - pos, 0int,
{
    let q = blank_end(s, pos);
    if 0 <= pos <= q < s.len() && s[q] == '+' {
        let r = blank_end(s, q + 1);
        if pos < r <= s.len() {
            match term_spec(s, r) {
                Ok((t, x)) => {
                    if pos < t <= s.len() {
                        fold_spec(s, t, ExprModel::Add(Box::new(acc), Box::new(x)))
                    } else {
                        (pos, acc)
                    }
                },
                Err(_) => (pos, acc),
            }
        } else {
            (pos, acc)
        }
    } else {
        (pos, acc)
    }
}

/// Where a term or expression read at `pos` ends: a success moves forward, a
/// failure lies between `pos` and the end of the text.
pub open spec fn step_bounded(s: Seq<char>, pos: int, st: Step) -> bool {
    match st {
        Ok((e, _)) => pos < e <= s.len(),
        Err((_, e)) => pos <= e <= s.len(),
    }
}

pub proof fn lemma_term_bounds(s: Seq<char>, pos: int)
    requires
        0 <= pos <= s.len(),
    ensures
        step_bounded(s, pos, term_spec(s, pos)),
    decreases s.len() - pos, 1int,
{
    let p = blank_end(s, pos);
    lemma_run_end(s, pos, CharClass::Blank);
    if number_starts(s, p) {
        if number_ok(s, p) {
            lemma_run_end(s, p + 1, CharClass::DigitOrDot);
            lemma_run_end(s, number_end(s, p), CharClass::Blank);
        }
    } else if word_starts(s, p) {
        lemma_run_end(s, p + 1, CharClass::Word);
        lemma_run_end(s, word_end(s, p), CharClass::Blank);
    } else if p < s.len() && s[p] == '(' {
        lemma_expr_bounds(s, p + 1);
        if let Ok((q, _)) = expr_spec(s, p + 1) {
            if 0 <= q < s.len() && s[q] == ')' {
                lemma_run_end(s, q + 1, CharClass::Blank);
            }
        }
    }
}

pub proof fn lemma_expr_bounds(s: Seq<char>, pos: int)
    requires
        0 <= pos <= s.len(),
    ensures
        step_bounded(s, pos, expr_spec(s, pos)),
    decreases s.len() - pos, 2int,
{
    lemma_term_bounds(s, pos);
    if let Ok((p, t)) = term_spec(s, pos) {
        lemma_fold_bounds(s, p, t);
    }
}

pub proof fn lemma_fold_bounds(s: Seq<char>, pos: int, acc: ExprModel)
    requires
        0 <= pos <= s.len(),
    ensures
        pos <= fold_spec(s, pos, acc).0 <= s.len(),
    decreases s.len() - pos, 0int,
{
    let q = blank_end(s, pos);
    lemma_run_end(s, pos, CharClass::Blank);
    if q < s.len() && s[q] == '+' {
        let r = blank_end(s, q + 1);
        lemma_run_end(s, q + 1, CharClass::Blank);
        lemma_term_bounds(s, r);
        if let Ok((t, x)) = term_spec(s, r) {
            lemma_fold_bounds(s, t, ExprModel::Add(Box::new(acc), Box::new(x)));
        }
    }
}

/// The executable result agrees with the step it is specified by.
pub open spec fn agrees<'a>(r: Result<(usize, Expression<'a>), ParseError>, st: Step) -> bool {
    match (r, st) {
        (Ok((e, x)), Ok((e2, m))) => e == e2 && x.model() == m,
        (Err(err), Err((k, p))) => err.kind == k && err.pos == p,
        _ => false,
    }
}

/// Reads an identifier of the expression grammar at `pos`: an ASCII letter or
/// `_`, then ASCII letters, digits and `_`, as many as follow.
pub fn word<'a>(cur: &Cursor<'a>, pos: usize) -> (r: Option<(usize, &'a str)>)
    requires
        cur.wf(),
        pos <= cur.chars().len(),
    ensures
        word_starts(cur.chars(), pos as int) <==> r is Some,
        r matches Some((end, text)) ==> {
            &&& end == word_end(cur.chars(), pos as int)
            &&& pos < end <= cur.chars().len()
            &&& text@ == cur.chars().subrange(pos as int, end as int)
        },
{
    match cur.peek(pos) {
        Some(c) => {
            if ('a' <= c && c <= 'z') || ('A' <= c && c <= 'Z') || c == '_' {
                let start = cur.advance(pos);
                let end = cur.scan(start, CharClass::Word);
                proof {
                    lemma_run_end(cur.chars(), start as int, CharClass::Word);
                }
                Some((end, cur.slice(pos, end)))
            } else {
                None
            }
        },
        None => None,
    }
}

/// Reads a term at `pos` (see `term_spec`).
pub fn term_at<'a>(cur: &Cursor<'a>, pos: usize) -> (r: Result<(usize, Expression<'a>), ParseError>)
    requires
        cur.wf(),
        pos <= cur.chars().len(),
    ensures
        agrees(r, term_spec(cur.chars(), pos as int)),
    decreases cur.chars().len() - pos, 1int,
{
    let ghost s = cur.chars();
    let n = cur.len();
    proof {
        lemma_run_end(s, pos as int, CharClass::Blank);
    }
    let p = cur.scan(pos, CharClass::Blank);
    let c = match cur.peek(p) {
        Some(c) => c,
        None => {
            return Err(ParseError { kind: ErrorKind::UnmatchedToken, pos: p });
        },
    };
    if c == '+' || c == '-' || c == '.' || ('0' <= c && c <= '9') {
        match number(cur, p) {
            Ok((e, text)) => {
                proof {
                    lemma_run_end(s, e as int, CharClass::Blank);
                }
                let end = cur.scan(e, CharClass::Blank);
                Ok((end, Expression::Value(Token::Number(text))))
            },
            Err(err) => Err(err),
        }
    } else if let Some((e, text)) = word(cur, p) {
        proof {
            lemma_run_end(s, e as int, CharClass::Blank);
        }
        let end = cur.scan(e, CharClass::Blank);
        Ok((end, Expression::Value(Token::Ident(text))))
    } else if c == '(' {
        proof {
            lemma_expr_bounds(s, p + 1);
        }
        match expr_at(cur, p + 1) {
            Err(err) => Err(err),
            Ok((q, x)) => {
                if q < cur.len() && cur.peek(q) == Some(')') {
                    proof {
                        lemma_run_end(s, q + 1, CharClass::Blank);
                    }
                    let end = cur.scan(q + 1, CharClass::Blank);
                    Ok((end, x))
                } else {
                    Err(ParseError { kind: ErrorKind::UnmatchedParenthesis, pos: q })
                }
            },
        }
    } else {
        Err(ParseError { kind: ErrorKind::UnmatchedToken, pos: p })
    }
}

/// Reads an expression at `pos` (see `expr_spec`).
pub fn expr_at<'a>(cur: &Cursor<'a>, pos: usize) -> (r: Result<(usize, Expression<'a>), ParseError>)
    requires
        cur.wf(),
        pos <= cur.chars().len(),
    ensures
        agrees(r, expr_spec(cur.chars(), pos as int)),
    decreases cur.chars().len() - pos, 2int,
{
    let ghost s = cur.chars();
    proof {
        lemma_term_bounds(s, pos as int);
    }
    let (mut p, mut acc) = match term_at(cur, pos) {
        Err(err) => {
            return Err(err);
        },
        Ok(first) => first,
    };
    let ghost goal = fold_spec(s, p as int, acc.model());
    assert(expr_spec(s, pos as int) == Ok::<(int, ExprModel), (ErrorKind, int)>(goal));
    loop
        invariant
            cur.wf(),
            s == cur.chars(),
            expr_spec(s, pos as int) == Ok::<(int, ExprModel), (ErrorKind, int)>(goal),
            pos < p <= s.len(),
            fold_spec(s, p as int, acc.model()) == goal,
        decreases s.len() - p,
    {
        proof {
            lemma_run_end(s, p as int, CharClass::Blank);
        }
        let q = cur.scan(p, CharClass::Blank);
        if q < cur.len() && cur.peek(q) == Some('+') {
            proof {
                lemma_run_end(s, q + 1, CharClass::Blank);
            }
            let r = cur.scan(q + 1, CharClass::Blank);
            proof {
                lemma_term_bounds(s, r as int);
            }
            match term_at(cur, r) {
                Ok((t, x)) => {
                    let ghost prev = acc.model();
                    acc = Expression::Add(Box::new(acc), Box::new(x));
                    assert(acc.model() == ExprModel::Add(Box::new(prev), Box::new(x.model())));
                    p = t;
                },
                Err(_) => {
                    return Ok((p, acc));
                },
            }
        } else {
            return Ok((p, acc));
        }
    }
}

/// A whole text read as one expression: the expression must reach the end of
/// the text. What stops it short is a `)` that closes nothing, or else an
/// unmatched token.
pub open spec fn parse_spec(s: Seq<char>) -> Result<ExprModel, (ErrorKind, int)> {
    match expr_spec(s, 0) {
        Err(err) => Err(err),
        Ok((end, x)) => {
            if end == s.len() {
                Ok(x)
            } else if 0 <= end < s.len() && s[end] == ')' {
                Err((ErrorKind::UnmatchedParenthesis, end))
            } else {
                Err((ErrorKind::UnmatchedToken, end))
            }
        },
    }
}

/// The public result of a parse that hands back the rest of its input agrees
/// with the step it is specified by.
pub open spec fn agrees_rest<'a>(
    text: Seq<char>,
    r: Result<(&'a str, Expression<'a>), ParseError>,
    st: Step,
) -> bool {
    match (r, st) {
        (Ok((rest, x)), Ok((e, m))) => rest@ == text.subrange(e, text.len() as int) && x.model()
            == m,
        (Err(err), Err((k, p))) => err.kind == k && err.pos == p,
        _ => false,
    }
}

/// Reads a term at the start of `i`: a number, an identifier, or an expression
/// in parentheses, with the blanks around it. Returns the rest of the text and
/// the term as an expression.
pub fn term<'a>(i: &'a str) -> (r: Result<(&'a str, Expression<'a>), ParseError>)
    ensures
        agrees_rest(i@, r, term_spec(i@, 0)),
{
    let cur = Cursor::new(i);
    proof {
        lemma_term_bounds(i@, 0);
    }
    match term_at(&cur, 0) {
        Ok((end, x)) => Ok((cur.slice(end, cur.len()), x)),
        Err(err) => Err(err),
    }
}

/// Reads an expression at the start of `i`: a term, then each `+ term` that
/// follows, folded to the left. Returns the rest of the text and the
/// expression.
pub fn expr<'a>(i: &'a str) -> (r: Result<(&'a str, Expression<'a>), ParseError>)
    ensures
        agrees_rest(i@, r, expr_spec(i@, 0)),
{
    let cur = Cursor::new(i);
    proof {
        lemma_expr_bounds(i@, 0);
    }
    match expr_at(&cur, 0) {
        Ok((end, x)) => Ok((cur.slice(end, cur.len()), x)),
        Err(err) => Err(err),
    }
}

/// Parses the whole of `i` as one expression (see `parse_spec`).
pub fn parse_expression<'a>(i: &'a str) -> (r: Result<Expression<'a>, ParseError>)
    ensures
        match (r, parse_spec(i@)) {
            (Ok(x), Ok(m)) => x.model() == m,
            (Err(err), Err((k, p))) => err.kind == k && err.pos == p,
            _ => false,
        },
{
    let cur = Cursor::new(i);
    proof {
        lemma_expr_bounds(i@, 0);
    }
    match expr_at(&cur, 0) {
        Ok((end, x)) => {
            if end == cur.len() {
                Ok(x)
            } else if cur.peek(end) == Some(')') {
                Err(ParseError { kind: ErrorKind::UnmatchedParenthesis, pos: end })
            } else {
                Err(ParseError { kind: ErrorKind::UnmatchedToken, pos: end })
            }
        },
        Err(err) => Err(err),
    }
}

} // verus!
