use vstd::prelude::*;
use crate::cursor::{CharClass, Cursor, lemma_run_end, run_end};
use crate::lexer::{
    Token, TokenModel, ident_end, ident_starts, next_token, next_token_spec, number_end,
    number_ok,
};

verus! {

broadcast use vstd::std_specs::vec::group_vec_axioms;

/// A tree of tokens grouped by parentheses: each pair of parentheses becomes a
/// branch that holds what stood between them.
#[derive(Debug, PartialEq)]
pub enum TokenTree<'a> {
    Leaf(Token<'a>),
    Branch(Vec<TokenTree<'a>>),
}

/// What a token tree is.
pub enum TreeModel {
    Leaf(TokenModel),
    Branch(Seq<TreeModel>),
}

impl<'a> TokenTree<'a> {
    pub open spec fn model(&self) -> TreeModel
        decreases self,
    {
        match self {
            TokenTree::Leaf(t) => TreeModel::Leaf(t@),
            TokenTree::Branch(v) => TreeModel::Branch(
                Seq::new(
                    v@.len(),
                    |i: int|
                        if 0 <= i < v@.len() {
                            v[i].model()
                        } else {
                            TreeModel::Branch(Seq::empty())
                        },
                ),
            ),
        }
    }
}


/// The models of a list of trees.
pub open spec fn models<'a>(v: Seq<TokenTree<'a>>) -> Seq<TreeModel> {
    v.map_values(|t: TokenTree<'a>| t.model())
}

/// A branch's model holds the models of its children.
pub proof fn lemma_branch_model<'a>(v: Vec<TokenTree<'a>>)
    ensures
        TokenTree::Branch(v).model() == TreeModel::Branch(models(v@)),
{
    let m = TokenTree::Branch(v).model();
    if let TreeModel::Branch(x) = m {
        assert(x =~= models(v@));
    }
}

/// A token that was read moves the position forward and stays in the text.
pub proof fn lemma_next_token_progress(s: Seq<char>, pos: int)
    requires
        0 <= pos <= s.len(),
    ensures
        next_token_spec(s, pos) matches Some((p, _)) ==> pos < p <= s.len(),
{
    let p = run_end(s, pos, CharClass::Space);
    lemma_run_end(s, pos, CharClass::Space);
    if ident_starts(s, p) {
        lemma_run_end(s, p + 1, CharClass::AlphaNum);
    } else if number_ok(s, p) {
        lemma_run_end(s, p + 1, CharClass::DigitOrDot);
    }
}

/// One nesting level read from `pos`: the trees up to the `)` that closes the
/// level or up to where no token follows, and the position after them.
///
/// A `(` opens a nested level whose trees become one branch; a `)` closes the
/// current level and is consumed; identifiers and numbers become leaves. The
/// end of the text, or a character that starts no token, ends the level
/// without error. The guards on positions always hold (see
/// `lemma_level_bounds`); they make the recursion visibly well-founded.
pub open spec fn level(s: Seq<char>, pos: int) -> (int, Seq<TreeModel>)
    decreases s.len() - pos,
{
    match next_token_spec(s, pos) {
        None => (pos, Seq::empty()),
        Some((p, tok)) => {
            if !(0 <= pos < p <= s.len()) {
                (pos, Seq::empty())
            } else {
                match tok {
                    TokenModel::RParen => (p, Seq::empty()),
                    TokenModel::LParen => {
                        let (q, inner) = level(s, p);
                        if pos < q <= s.len() {
                            let (r, rest) = level(s, q);
                            (r, seq![TreeModel::Branch(inner)] + rest)
                        } else {
                            (q, seq![TreeModel::Branch(inner)])
                        }
                    },
                    _ => {
                        let (r, rest) = level(s, p);
                        (r, seq![TreeModel::Leaf(tok)] + rest)
                    },
                }
            }
        },
    }
}

/// The tree of a whole text: the top level read from its start, as a branch.
pub open spec fn tree_of(s: Seq<char>) -> TreeModel {
    TreeModel::Branch(level(s, 0).1)
}

/// A level ends between where it starts and the end of the text.
pub proof fn lemma_level_bounds(s: Seq<char>, pos: int)
    requires
        0 <= pos <= s.len(),
    ensures
        pos <= level(s, pos).0 <= s.len(),
    decreases s.len() - pos,
{
    lemma_next_token_progress(s, pos);
    if let Some((p, tok)) = next_token_spec(s, pos) {
        match tok {
            TokenModel::RParen => {},
            TokenModel::LParen => {
                lemma_level_bounds(s, p);
                let q = level(s, p).0;
                lemma_level_bounds(s, q);
            },
            _ => {
                lemma_level_bounds(s, p);
            },
        }
    }
}

/// Reads one nesting level from `pos` (see `level`).
pub fn parse_tree<'a>(cur: &Cursor<'a>, pos: usize) -> (r: (usize, Vec<TokenTree<'a>>))
    requires
        cur.wf(),
        pos <= cur.chars().len(),
    ensures
        r.0 == level(cur.chars(), pos as int).0,
        models(r.1@) == level(cur.chars(), pos as int).1,
        pos <= r.0 <= cur.chars().len(),
    decreases cur.chars().len() - pos,
{
    let ghost s = cur.chars();
    let mut children: Vec<TokenTree<'a>> = Vec::new();
    let mut i = pos;
    proof {
        assert(models(children@) + level(s, pos as int).1 =~= level(s, pos as int).1);
    }
    loop
        invariant
            cur.wf(),
            s == cur.chars(),
            pos <= i <= s.len(),
            level(s, pos as int).0 == level(s, i as int).0,
            level(s, pos as int).1 == models(children@) + level(s, i as int).1,
        decreases s.len() - i,
    {
        proof {
            lemma_next_token_progress(s, i as int);
        }
        match next_token(cur, i) {
            None => {
                assert(models(children@) =~= models(children@) + level(s, i as int).1);
                return (i, children);
            },
            Some((p, Token::RParen)) => {
                assert(models(children@) =~= models(children@) + level(s, i as int).1);
                return (p, children);
            },
            Some((p, Token::LParen)) => {
                let (q, inner) = parse_tree(cur, p);
                let ghost old_children = children@;
                let branch = TokenTree::Branch(inner);
                proof {
                    lemma_branch_model(inner);
                }
                children.push(branch);
                proof {
                    lemma_level_bounds(s, q as int);
                    assert(models(children@) =~= models(old_children) + seq![branch.model()]);
                    assert(level(s, pos as int).1 =~= models(children@) + level(s, q as int).1);
                }
                i = q;
            },
            Some((p, tok)) => {
                let ghost old_children = children@;
                children.push(TokenTree::Leaf(tok));
                proof {
                    assert(models(children@) =~= models(old_children) + seq![TreeModel::Leaf(tok@)]);
                    assert(level(s, pos as int).1 =~= models(children@) + level(s, p as int).1);
                }
                i = p;
            },
        }
    }
}

/// Groups the tokens of `text` into a tree by its parentheses. This never
/// fails: a `(` left open is closed by the end of the text, each `)` too many
/// closes one level early (the top level too, which ends the parse there), and
/// a character that starts no token ends the level where it stands.
pub fn tokenize_tree<'a>(text: &'a str) -> (r: TokenTree<'a>)
    ensures
        r.model() == tree_of(text@),
{
    let cur = Cursor::new(text);
    let (_, children) = parse_tree(&cur, 0);
    proof {
        lemma_branch_model(children);
    }
    TokenTree::Branch(children)
}

/// The empty text gives an empty branch.
pub proof fn lemma_tree_of_empty()
    ensures
        tree_of(Seq::<char>::empty()) == TreeModel::Branch(Seq::empty()),
{
    let s = Seq::<char>::empty();
    lemma_run_end(s, 0, CharClass::Space);
    assert(next_token_spec(s, 0) is None);
}

} // verus!
