use vstd::prelude::*;
use crate::cursor::{
    CharClass, Cursor, in_class, is_ascii_digit, is_ascii_letter, lemma_run_end, run_end,
};

verus! {

/// A token. Identifiers and numbers are slices of the input text; a number
/// keeps the decimal literal it was read from, which denotes its value exactly.
#[derive(Clone, Copy, Debug, PartialEq)]
pub enum Token<'a> {
    Ident(&'a str),
    Number(&'a str),
    LParen,
    RParen,
}

/// What a token is, with its text as a sequence of characters.
pub enum TokenModel {
    Ident(Seq<char>),
    Number(Seq<char>),
    LParen,
    RParen,
}

impl<'a> View for Token<'a> {
    type V = TokenModel;

    open spec fn view(&self) -> TokenModel {
        match *self {
            Token::Ident(t) => TokenModel::Ident(t@),
            Token::Number(t) => TokenModel::Number(t@),
            Token::LParen => TokenModel::LParen,
            Token::RParen => TokenModel::RParen,
        }
    }
}

/// Why a parse failed.
#[derive(Clone, Copy, Debug, PartialEq, Eq, Structural)]
pub enum ErrorKind {
    /// No alternative of the grammar matches at this position.
    UnmatchedToken,
    /// A run of number characters that is not a decimal literal.
    MalformedNumber,
    /// An opening parenthesis whose closing one is missing, or a closing one
    /// that closes nothing.
    UnmatchedParenthesis,
}

/// A failed parse: its kind and the character position where it was found.
#[derive(Clone, Copy, Debug, PartialEq, Eq, Structural)]
pub struct ParseError {
    pub kind: ErrorKind,
    pub pos: usize,
}

pub open spec fn is_sign(c: char) -> bool {
    c == '+' || c == '-'
}

/// A character that can begin a number.
pub open spec fn is_number_start(c: char) -> bool {
    is_sign(c) || in_class(CharClass::DigitOrDot, c)
}

/// The literal without its leading sign, if it has one.
pub open spec fn unsigned_part(t: Seq<char>) -> Seq<char> {
    if t.len() > 0 && is_sign(t[0]) {
        t.drop_first()
    } else {
        t
    }
}

/// A decimal literal without exponent: an optional sign, then digits with at
/// most one `.` among them, and at least one digit.
pub open spec fn is_decimal_literal(t: Seq<char>) -> bool {
    let u = unsigned_part(t);
    &&& forall|i: int| 0 <= i < u.len() ==> in_class(CharClass::DigitOrDot, #[trigger] u[i])
    &&& forall|i: int, j: int| 0 <= i < j < u.len() && #[trigger] u[i] == '.' ==> #[trigger] u[j] != '.'
    &&& exists|i: int| 0 <= i < u.len() && is_ascii_digit(#[trigger] u[i])
}

/// An identifier starts at `pos`.
pub open spec fn ident_starts(s: Seq<char>, pos: int) -> bool {
    0 <= pos < s.len() && is_ascii_letter(s[pos])
}

/// Where the identifier that starts at `pos` ends.
pub open spec fn ident_end(s: Seq<char>, pos: int) -> int {
    run_end(s, pos + 1, CharClass::AlphaNum)
}

/// A number starts at `pos`.
pub open spec fn number_starts(s: Seq<char>, pos: int) -> bool {
    0 <= pos < s.len() && is_number_start(s[pos])
}

/// Where the run of number characters that starts at `pos` ends.
pub open spec fn number_end(s: Seq<char>, pos: int) -> int {
    run_end(s, pos + 1, CharClass::DigitOrDot)
}

/// The run of number characters at `pos` is a well-formed number.
pub open spec fn number_ok(s: Seq<char>, pos: int) -> bool {
    number_starts(s, pos) && is_decimal_literal(s.subrange(pos, number_end(s, pos)))
}

/// The next token after the spaces at `pos`, and the position after it.
/// Identifiers are tried first, then numbers, then `(`, then `)`.
pub open spec fn next_token_spec(s: Seq<char>, pos: int) -> Option<(int, TokenModel)> {
    let p = run_end(s, pos, CharClass::Space);
    if ident_starts(s, p) {
        Some((ident_end(s, p), TokenModel::Ident(s.subrange(p, ident_end(s, p)))))
    } else if number_ok(s, p) {
        Some((number_end(s, p), TokenModel::Number(s.subrange(p, number_end(s, p)))))
    } else if 0 <= p < s.len() && s[p] == '(' {
        Some((p + 1, TokenModel::LParen))
    } else if 0 <= p < s.len() && s[p] == ')' {
        Some((p + 1, TokenModel::RParen))
    } else {
        None
    }
}

/// Reads an identifier at `pos`: an ASCII letter, then ASCII letters and
/// digits, as many as follow. Returns the position after it and its text.
pub fn identifier<'a>(cur: &Cursor<'a>, pos: usize) -> (r: Option<(usize, &'a str)>)
    requires
        cur.wf(),
        pos <= cur.chars().len(),
    ensures
        ident_starts(cur.chars(), pos as int) <==> r is Some,
        r matches Some((end, text)) ==> {
            &&& end == ident_end(cur.chars(), pos as int)
            &&& pos < end <= cur.chars().len()
            &&& text@ == cur.chars().subrange(pos as int, end as int)
        },
{
    match cur.peek(pos) {
        Some(c) => {
            if ('a' <= c && c <= 'z') || ('A' <= c && c <= 'Z') {
                let start = cur.advance(pos);
                let end = cur.scan(start, CharClass::AlphaNum);
                proof {
                    lemma_run_end(cur.chars(), start as int, CharClass::AlphaNum);
                }
                Some((end, cur.slice(pos, end)))
            } else {
                None
            }
        },
        None => None,
    }
}


/// Tells whether the text from `from` to `to` is a decimal literal.
fn is_decimal(cur: &Cursor, from: usize, to: usize) -> (r: bool)
    requires
        cur.wf(),
        from <= to <= cur.chars().len(),
    ensures
        r == is_decimal_literal(cur.chars().subrange(from as int, to as int)),
{
    let ghost s = cur.chars();
    let ghost t = s.subrange(from as int, to as int);
    let mut start = from;
    if from < to {
        let c = cur.peek(from).unwrap();
        if c == '+' || c == '-' {
            start = from + 1;
        }
    }
    let ghost u = s.subrange(start as int, to as int);
    assert(u =~= unsigned_part(t));
    let mut seen_dot = false;
    let mut seen_digit = false;
    let mut k = start;
    while k < to
        invariant
            cur.wf(),
            s == cur.chars(),
            from <= start <= k <= to <= s.len(),
            u == s.subrange(start as int, to as int),
            u == unsigned_part(t),
            t == s.subrange(from as int, to as int),
            forall|i: int| start <= i < k ==> in_class(CharClass::DigitOrDot, #[trigger] s[i]),
            forall|i: int, j: int| start <= i < j < k && #[trigger] s[i] == '.' ==> #[trigger] s[j] != '.',
            !seen_dot ==> forall|i: int| start <= i < k ==> #[trigger] s[i] != '.',
            seen_dot ==> exists|i: int| start <= i < k && #[trigger] s[i] == '.',
            seen_digit <==> exists|i: int| start <= i < k && is_ascii_digit(#[trigger] s[i]),
        decreases to - k,
    {
        let c = cur.peek(k).unwrap();
        if c == '.' {
            if seen_dot {
                proof {
                    let i = choose|i: int| start <= i < k && #[trigger] s[i] == '.';
                    assert(u[i - start] == '.' && u[k - start] == '.');
                    assert(!is_decimal_literal(t));
                }
                return false;
            }
            seen_dot = true;
        } else if '0' <= c && c <= '9' {
            seen_digit = true;
            assert(is_ascii_digit(s[k as int]));
        } else {
            assert(!in_class(CharClass::DigitOrDot, u[k - start]));
            assert(!is_decimal_literal(t));
            return false;
        }
        k = k + 1;
    }
    proof {
        if seen_digit {
            let i = choose|i: int| start <= i < k && is_ascii_digit(#[trigger] s[i]);
            assert(is_ascii_digit(u[i - start]));
        } else {
            assert forall|i: int| 0 <= i < u.len() implies !is_ascii_digit(#[trigger] u[i]) by {
                assert(u[i] == s[start + i]);
            }
        }
        assert forall|i: int, j: int| 0 <= i < j < u.len() && #[trigger] u[i] == '.' implies #[trigger] u[j] != '.' by {
            assert(u[i] == s[start + i] && u[j] == s[start + j]);
        }
        assert forall|i: int| 0 <= i < u.len() implies in_class(CharClass::DigitOrDot, #[trigger] u[i]) by {
            assert(u[i] == s[start + i]);
        }
    }
    seen_digit
}

/// Reads a number at `pos`: one of `+ - . 0-9`, then `.` and digits, as many
/// as follow. The run must be a decimal literal; if it is not, the result is
/// a `MalformedNumber` error. Where no number starts at `pos`, the error is
/// `UnmatchedToken`. Both errors point at `pos`.
pub fn number<'a>(cur: &Cursor<'a>, pos: usize) -> (r: Result<(usize, &'a str), ParseError>)
    requires
        cur.wf(),
        pos <= cur.chars().len(),
    ensures
        number_ok(cur.chars(), pos as int) <==> r is Ok,
        r matches Ok((end, text)) ==> {
            &&& end == number_end(cur.chars(), pos as int)
            &&& pos < end <= cur.chars().len()
            &&& text@ == cur.chars().subrange(pos as int, end as int)
        },
        r matches Err(e) ==> e.pos == pos && (e.kind == ErrorKind::MalformedNumber
            <==> number_starts(cur.chars(), pos as int)),
        r matches Err(e) ==> e.kind != ErrorKind::UnmatchedParenthesis,
{
    match cur.peek(pos) {
        Some(c) => {
            if c == '+' || c == '-' || c == '.' || ('0' <= c && c <= '9') {
                let start = cur.advance(pos);
                let end = cur.scan(start, CharClass::DigitOrDot);
                proof {
                    lemma_run_end(cur.chars(), start as int, CharClass::DigitOrDot);
                }
                if is_decimal(cur, pos, end) {
                    Ok((end, cur.slice(pos, end)))
                } else {
                    Err(ParseError { kind: ErrorKind::MalformedNumber, pos })
                }
            } else {
                Err(ParseError { kind: ErrorKind::UnmatchedToken, pos })
            }
        },
        None => Err(ParseError { kind: ErrorKind::UnmatchedToken, pos }),
    }
}

/// Reads the single character `want` at `pos`: returns the position after it.
pub fn punct(cur: &Cursor, pos: usize, want: char) -> (r: Option<usize>)
    requires
        cur.wf(),
        pos <= cur.chars().len(),
    ensures
        r is Some <==> (pos < cur.chars().len() && cur.chars()[pos as int] == want),
        r matches Some(end) ==> end == pos + 1,
{
    match cur.peek(pos) {
        Some(c) => {
            if c == want {
                Some(cur.advance(pos))
            } else {
                None
            }
        },
        None => None,
    }
}

/// The next token after the spaces at `pos`, with the position after it, or
/// `None` where no token follows (the end of the text, a malformed number or a
/// character that starts no token).
pub fn next_token<'a>(cur: &Cursor<'a>, pos: usize) -> (r: Option<(usize, Token<'a>)>)
    requires
        cur.wf(),
        pos <= cur.chars().len(),
    ensures
        r matches Some((end, tok)) ==> next_token_spec(cur.chars(), pos as int) == Some(
            (end as int, tok@),
        ),
        r is None ==> next_token_spec(cur.chars(), pos as int) is None,
        r matches Some((end, tok)) ==> pos < end <= cur.chars().len(),
{
    let p = cur.skip_whitespace(pos);
    if let Some((end, text)) = identifier(cur, p) {
        return Some((end, Token::Ident(text)));
    }
    if let Ok((end, text)) = number(cur, p) {
        return Some((end, Token::Number(text)));
    }
    if let Some(end) = punct(cur, p, '(') {
        return Some((end, Token::LParen));
    }
    if let Some(end) = punct(cur, p, ')') {
        return Some((end, Token::RParen));
    }
    None
}

/// An identifier read at `pos` is the longest run that fits: every character
/// after the first is a letter or digit, and the next one, if any, is not.
pub proof fn lemma_identifier_maximal(s: Seq<char>, pos: int)
    requires
        ident_starts(s, pos),
    ensures
        pos < ident_end(s, pos) <= s.len(),
        forall|i: int|
            pos < i < ident_end(s, pos) ==> in_class(CharClass::AlphaNum, #[trigger] s[i]),
        ident_end(s, pos) == s.len() || !in_class(CharClass::AlphaNum, s[ident_end(s, pos)]),
{
    lemma_run_end(s, pos + 1, CharClass::AlphaNum);
}

/// A text made of an identifier alone is read whole, leaving nothing.
pub proof fn lemma_identifier_whole(s: Seq<char>)
    requires
        s.len() > 0,
        is_ascii_letter(s[0]),
        forall|i: int| 1 <= i < s.len() ==> in_class(CharClass::AlphaNum, #[trigger] s[i]),
    ensures
        ident_starts(s, 0),
        ident_end(s, 0) == s.len(),
{
    lemma_run_end(s, 1, CharClass::AlphaNum);
    let e = ident_end(s, 0);
    if e < s.len() {
        assert(in_class(CharClass::AlphaNum, s[e]));
    }
}

/// A decimal literal read as a number is read whole, and the number's text is
/// the literal itself.
pub proof fn lemma_number_round_trip(t: Seq<char>)
    requires
        is_decimal_literal(t),
    ensures
        number_ok(t, 0),
        number_end(t, 0) == t.len(),
        t.subrange(0, number_end(t, 0)) == t,
{
    let u = unsigned_part(t);
    let w = choose|i: int| 0 <= i < u.len() && is_ascii_digit(#[trigger] u[i]);
    assert(t.len() > 0);
    assert forall|i: int| 1 <= i < t.len() implies in_class(CharClass::DigitOrDot, #[trigger] t[i]) by {
        if t.len() > 0 && is_sign(t[0]) {
            assert(t[i] == u[i - 1]);
        } else {
            assert(t[i] == u[i]);
        }
    }
    if !is_sign(t[0]) {
        assert(t[0] == u[0]);
    }
    lemma_run_end(t, 1, CharClass::DigitOrDot);
    let e = number_end(t, 0);
    if e < t.len() {
        assert(in_class(CharClass::DigitOrDot, t[e]));
    }
    assert(t.subrange(0, e) =~= t);
}

} // verus!
