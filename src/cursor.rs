use vstd::prelude::*;

verus! {

/// The character classes that the scanners of this library skip over.
#[derive(Clone, Copy, Debug, PartialEq, Eq, Structural)]
pub enum CharClass {
    /// The space character alone.
    Space,
    /// Space, tab, line feed and carriage return.
    Blank,
    /// ASCII letters and digits.
    AlphaNum,
    /// ASCII letters, digits and `_`.
    Word,
    /// ASCII digits and `.`.
    DigitOrDot,
}

pub open spec fn is_ascii_letter(c: char) -> bool {
    ('a' <= c && c <= 'z') || ('A' <= c && c <= 'Z')
}

pub open spec fn is_ascii_digit(c: char) -> bool {
    '0' <= c && c <= '9'
}

pub open spec fn in_class(class: CharClass, c: char) -> bool {
    match class {
        CharClass::Space => c == ' ',
        CharClass::Blank => c == ' ' || c == '\t' || c == '\n' || c == '\r',
        CharClass::AlphaNum => is_ascii_letter(c) || is_ascii_digit(c),
        CharClass::Word => is_ascii_letter(c) || is_ascii_digit(c) || c == '_',
        CharClass::DigitOrDot => is_ascii_digit(c) || c == '.',
    }
}

/// The end of the longest run of characters of `class` that starts at `pos`.
pub open spec fn run_end(s: Seq<char>, pos: int, class: CharClass) -> int
    decreases s.len() - pos,
{
    if 0 <= pos < s.len() && in_class(class, s[pos]) {
        run_end(s, pos + 1, class)
    } else {
        pos
    }
}

/// What `run_end` is: every character of the run is in the class, and the run
/// stops at the end of the text or at a character outside it.
pub proof fn lemma_run_end(s: Seq<char>, pos: int, class: CharClass)
    requires
        0 <= pos <= s.len(),
    ensures
        pos <= run_end(s, pos, class) <= s.len(),
        forall|i: int| pos <= i < run_end(s, pos, class) ==> in_class(class, #[trigger] s[i]),
        run_end(s, pos, class) == s.len() || !in_class(class, s[run_end(s, pos, class)]),
    decreases s.len() - pos,
{
    if pos < s.len() && in_class(class, s[pos]) {
        lemma_run_end(s, pos + 1, class);
    }
}

/// Skipping a run twice stops where skipping it once did.
pub proof fn lemma_run_end_idempotent(s: Seq<char>, pos: int, class: CharClass)
    requires
        0 <= pos <= s.len(),
    ensures
        run_end(s, run_end(s, pos, class), class) == run_end(s, pos, class),
{
    lemma_run_end(s, pos, class);
}

pub fn is_in_class(class: CharClass, c: char) -> (r: bool)
    ensures
        r == in_class(class, c),
{
    let letter = ('a' <= c && c <= 'z') || ('A' <= c && c <= 'Z');
    let digit = '0' <= c && c <= '9';
    match class {
        CharClass::Space => c == ' ',
        CharClass::Blank => c == ' ' || c == '\t' || c == '\n' || c == '\r',
        CharClass::AlphaNum => letter || digit,
        CharClass::Word => letter || digit || c == '_',
        CharClass::DigitOrDot => digit || c == '.',
    }
}

/// The input text, read by position. Positions count characters, not bytes;
/// every parsing step takes a position and hands back a new one, so the text
/// itself is never changed.
pub struct Cursor<'a> {
    text: &'a str,
    chars: Vec<char>,
}

impl<'a> Cursor<'a> {
    /// The characters of the text.
    pub closed spec fn chars(&self) -> Seq<char> {
        self.text@
    }

    pub closed spec fn wf(&self) -> bool {
        &&& self.chars@ == self.text@
        &&& self.text@.len() <= usize::MAX
    }

    pub fn new(text: &'a str) -> (r: Cursor<'a>)
        ensures
            r.wf(),
            r.chars() == text@,
    {
        let n = text.unicode_len();
        let mut chars: Vec<char> = Vec::new();
        let mut i: usize = 0;
        while i < n
            invariant
                n == text@.len(),
                i <= n,
                chars@ == text@.subrange(0, i as int),
            decreases n - i,
        {
            chars.push(text.get_char(i));
            i = i + 1;
            assert(chars@ =~= text@.subrange(0, i as int));
        }
        assert(chars@ =~= text@);
        Cursor { text, chars }
    }

    pub fn len(&self) -> (r: usize)
        requires
            self.wf(),
        ensures
            r == self.chars().len(),
    {
        self.chars.len()
    }

    /// The character at `pos`, or `None` at the end of the text.
    pub fn peek(&self, pos: usize) -> (r: Option<char>)
        requires
            self.wf(),
        ensures
            pos < self.chars().len() ==> r == Some(self.chars()[pos as int]),
            pos >= self.chars().len() ==> r is None,
    {
        if pos < self.chars.len() {
            Some(self.chars[pos])
        } else {
            None
        }
    }

    /// The position after the character at `pos`.
    pub fn advance(&self, pos: usize) -> (r: usize)
        requires
            self.wf(),
            pos < self.chars().len(),
        ensures
            r == pos + 1,
    {
        pos + 1
    }

    /// The text from `from` to `to`, as a slice of the input text.
    pub fn slice(&self, from: usize, to: usize) -> (r: &'a str)
        requires
            self.wf(),
            from <= to <= self.chars().len(),
        ensures
            r@ == self.chars().subrange(from as int, to as int),
    {
        self.text.substring_char(from, to)
    }

    /// The end of the longest run of characters of `class` from `pos`.
    pub fn scan(&self, pos: usize, class: CharClass) -> (r: usize)
        requires
            self.wf(),
            pos <= self.chars().len(),
        ensures
            r == run_end(self.chars(), pos as int, class),
    {
        let mut i = pos;
        while i < self.chars.len() && is_in_class(class, self.chars[i])
            invariant
                self.wf(),
                pos <= i <= self.chars().len(),
                run_end(self.chars(), i as int, class) == run_end(self.chars(), pos as int, class),
            decreases self.chars().len() - i,
        {
            i = i + 1;
        }
        i
    }

    /// The position after the spaces that start at `pos`. Only the space
    /// character counts here, not tabs or line breaks.
    pub fn skip_whitespace(&self, pos: usize) -> (r: usize)
        requires
            self.wf(),
            pos <= self.chars().len(),
        ensures
            r == run_end(self.chars(), pos as int, CharClass::Space),
            pos <= r <= self.chars().len(),
    {
        proof {
            lemma_run_end(self.chars(), pos as int, CharClass::Space);
        }
        self.scan(pos, CharClass::Space)
    }
}

/// Skipping whitespace a second time moves no further.
pub proof fn lemma_skip_whitespace_idempotent(s: Seq<char>, pos: int)
    requires
        0 <= pos <= s.len(),
    ensures
        run_end(s, run_end(s, pos, CharClass::Space), CharClass::Space)
            == run_end(s, pos, CharClass::Space),
{
    lemma_run_end_idempotent(s, pos, CharClass::Space);
}

} // verus!
