use vstd::prelude::*;

use crate::ast::{terms_view, Expression, Proposition, SExpr, SProp, STerm, Term};
use crate::errors::GicError;

verus! {

/// The tokens of the knowledge-base and query language.
pub enum Token {
    Ident(String),
    Num(i64),
    LParen,
    RParen,
    LBrack,
    RBrack,
    Comma,
    Bar,
    Dot,
    Semi,
    Not,
    Forall,
    Exists,
    And,
    Or,
    Impl,
    Bottom,
}

/// Mathematical model of a token.
pub enum SToken {
    Ident(Seq<char>),
    Num(int),
    LParen,
    RParen,
    LBrack,
    RBrack,
    Comma,
    Bar,
    Dot,
    Semi,
    Not,
    Forall,
    Exists,
    And,
    Or,
    Impl,
    Bottom,
}

impl View for Token {
    type V = SToken;

    open spec fn view(&self) -> SToken {
        match self {
            Token::Ident(s) => SToken::Ident(s@),
            Token::Num(n) => SToken::Num(*n as int),
            Token::LParen => SToken::LParen,
            Token::RParen => SToken::RParen,
            Token::LBrack => SToken::LBrack,
            Token::RBrack => SToken::RBrack,
            Token::Comma => SToken::Comma,
            Token::Bar => SToken::Bar,
            Token::Dot => SToken::Dot,
            Token::Semi => SToken::Semi,
            Token::Not => SToken::Not,
            Token::Forall => SToken::Forall,
            Token::Exists => SToken::Exists,
            Token::And => SToken::And,
            Token::Or => SToken::Or,
            Token::Impl => SToken::Impl,
            Token::Bottom => SToken::Bottom,
        }
    }
}

pub open spec fn toks_view(t: Seq<Token>) -> Seq<SToken> {
    Seq::new(t.len(), |i: int| t[i]@)
}

fn parse_error(msg: &str) -> (r: GicError)
    ensures
        r is ParseError,
{
    GicError::ParseError(String::from_str(msg))
}

pub open spec fn alpha(b: u8) -> bool {
    (65 <= b <= 90) || (97 <= b <= 122) || b == 95
}

pub open spec fn digit(b: u8) -> bool {
    48 <= b <= 57
}

pub open spec fn space(b: u8) -> bool {
    b == 32 || b == 9 || b == 10 || b == 13
}

/// The byte of the ASCII character at `i`.
pub open spec fn byte(s: Seq<char>, i: int) -> u8 {
    s[i] as u8
}

fn is_alpha(b: u8) -> (r: bool)
    ensures
        r == alpha(b),
{
    (b >= 65 && b <= 90) || (b >= 97 && b <= 122) || b == 95
}

fn is_digit(b: u8) -> (r: bool)
    ensures
        r == digit(b),
{
    b >= 48 && b <= 57
}

fn is_space(b: u8) -> (r: bool)
    ensures
        r == space(b),
{
    b == 32 || b == 9 || b == 10 || b == 13
}

/// The keyword that `w` is, or else the identifier `w`.
pub open spec fn word_tok(w: Seq<char>) -> SToken {
    if w == "not"@ {
        SToken::Not
    } else if w == "forall"@ {
        SToken::Forall
    } else if w == "exists"@ {
        SToken::Exists
    } else if w == "and"@ {
        SToken::And
    } else if w == "or"@ {
        SToken::Or
    } else if w == "impl"@ {
        SToken::Impl
    } else if w == "bottom"@ {
        SToken::Bottom
    } else {
        SToken::Ident(w)
    }
}

/// The keyword or identifier `s`.
fn word_token(s: String) -> (r: Token)
    ensures
        r@ == word_tok(s@),
{
    if crate::builtins::name_is(&s, "not") {
        Token::Not
    } else if crate::builtins::name_is(&s, "forall") {
        Token::Forall
    } else if crate::builtins::name_is(&s, "exists") {
        Token::Exists
    } else if crate::builtins::name_is(&s, "and") {
        Token::And
    } else if crate::builtins::name_is(&s, "or") {
        Token::Or
    } else if crate::builtins::name_is(&s, "impl") {
        Token::Impl
    } else if crate::builtins::name_is(&s, "bottom") {
        Token::Bottom
    } else {
        Token::Ident(s)
    }
}

pub open spec fn prepend(k: SToken, r: Option<Seq<SToken>>) -> Option<Seq<SToken>> {
    match r {
        Some(x) => Some(seq![k] + x),
        None => None,
    }
}

/// The punctuation token of a byte.
pub open spec fn punct(b: u8) -> Option<SToken> {
    if b == 40 {
        Some(SToken::LParen)
    } else if b == 41 {
        Some(SToken::RParen)
    } else if b == 91 {
        Some(SToken::LBrack)
    } else if b == 93 {
        Some(SToken::RBrack)
    } else if b == 44 {
        Some(SToken::Comma)
    } else if b == 124 {
        Some(SToken::Bar)
    } else if b == 46 {
        Some(SToken::Dot)
    } else if b == 59 {
        Some(SToken::Semi)
    } else {
        None
    }
}

/// One more decimal digit `b` of a number whose digits so far give `v`; `None`
/// when the number leaves the 64-bit range.
pub open spec fn next_value(v: i64, b: u8, negative: bool) -> Option<i64> {
    match v.checked_mul(10) {
        Some(t) => if negative {
            t.checked_sub((b - 48) as i64)
        } else {
            t.checked_add((b - 48) as i64)
        },
        None => None,
    }
}

/// The tokens of `s` from position `i` on: blanks separate tokens, `//` starts
/// a comment to the end of the line, identifiers are letters, digits and `_`
/// (keywords aside), and integers are digits with an optional leading `-`.
pub open spec fn lex(s: Seq<char>, i: int) -> Option<Seq<SToken>>
    decreases s.len() - i, 0nat,
{
    if i < 0 || i >= s.len() {
        Some(Seq::empty())
    } else {
        let b = byte(s, i);
        if space(b) {
            lex(s, i + 1)
        } else if b == 47 {
            if i + 1 < s.len() && byte(s, i + 1) == 47 {
                lex_comment(s, i + 2)
            } else {
                None
            }
        } else if alpha(b) {
            lex_word(s, i, i + 1)
        } else if digit(b) {
            lex_num(s, i + 1, false, (b - 48) as i64)
        } else if b == 45 && i + 1 < s.len() && digit(byte(s, i + 1)) {
            lex_num(s, i + 2, true, (0 - (byte(s, i + 1) - 48)) as i64)
        } else {
            match punct(b) {
                Some(k) => prepend(k, lex(s, i + 1)),
                None => None,
            }
        }
    }
}

pub open spec fn lex_comment(s: Seq<char>, j: int) -> Option<Seq<SToken>>
    decreases s.len() - j, 1nat,
{
    if j < 0 || j >= s.len() {
        Some(Seq::empty())
    } else if byte(s, j) == 10 {
        lex(s, j)
    } else {
        lex_comment(s, j + 1)
    }
}

pub open spec fn lex_word(s: Seq<char>, st: int, j: int) -> Option<Seq<SToken>>
    decreases s.len() - j, 1nat,
{
    if 0 <= st <= j < s.len() && (alpha(byte(s, j)) || digit(byte(s, j))) {
        lex_word(s, st, j + 1)
    } else if 0 <= st <= j <= s.len() {
        prepend(word_tok(s.subrange(st, j)), lex(s, j))
    } else {
        None
    }
}

pub open spec fn lex_num(s: Seq<char>, j: int, negative: bool, v: i64) -> Option<Seq<SToken>>
    decreases s.len() - j, 1nat,
{
    if 0 <= j < s.len() && digit(byte(s, j)) {
        match next_value(v, byte(s, j), negative) {
            Some(w) => lex_num(s, j + 1, negative, w),
            None => None,
        }
    } else {
        prepend(SToken::Num(v as int), lex(s, j))
    }
}

/// The tokens of an ASCII text; `None` for any other text or a lexical error.
pub open spec fn tokens_of(s: Seq<char>) -> Option<Seq<SToken>> {
    if vstd::utf8::is_ascii_chars(s) {
        lex(s, 0)
    } else {
        None
    }
}

pub open spec fn after(a: Seq<SToken>, r: Option<Seq<SToken>>) -> Option<Seq<SToken>> {
    match r {
        Some(x) => Some(a + x),
        None => None,
    }
}

/// Splits ASCII text into tokens; `//` starts a comment that runs to the end
/// of the line.
pub fn tokenize(input: &str) -> (r: Result<Vec<Token>, GicError>)
    ensures
        r is Err ==> r->Err_0 is ParseError,
        match r {
            Ok(t) => tokens_of(input@) == Some(toks_view(t@)),
            Err(_) => tokens_of(input@) is None,
        },
{
    if !input.is_ascii() {
        return Err(parse_error("the text holds a character that is not ASCII"));
    }
    let ghost s = input@;
    let n = input.unicode_len();
    let mut toks: Vec<Token> = Vec::new();
    let mut i: usize = 0;
    assert(toks_view(toks@) =~= Seq::<SToken>::empty());
    assert(after(Seq::<SToken>::empty(), lex(s, 0)) == lex(s, 0)) by {
        match lex(s, 0) {
            Some(x) => {
                assert(Seq::<SToken>::empty() + x =~= x);
            },
            None => {},
        }
    }
    while i < n
        invariant
            input.is_ascii(),
            s == input@,
            n == input@.len(),
            i <= n,
            lex(s, 0) == after(toks_view(toks@), lex(s, i as int)),
        decreases n - i,
    {
        let ghost i0 = i as int;
        let ghost before = toks_view(toks@);
        let b = input.get_ascii(i);
        assert(byte(s, i0) == b);
        if is_space(b) {
            i = i + 1;
        } else if b == 47 {
            if i + 1 < n && input.get_ascii(i + 1) == 47 {
                i = i + 2;
                while i < n && input.get_ascii(i) != 10
                    invariant
                        input.is_ascii(),
                        s == input@,
                        n == input@.len(),
                        i0 < i <= n,
                        lex(s, i0) == lex_comment(s, i as int),
                        lex(s, 0) == after(toks_view(toks@), lex(s, i0)),
                    decreases n - i,
                {
                    i = i + 1;
                }
            } else {
                assert(lex(s, 0) is None);
                return Err(parse_error("a lone '/'"));
            }
        } else if is_alpha(b) {
            let start = i;
            i = i + 1;
            while i < n && (is_alpha(input.get_ascii(i)) || is_digit(input.get_ascii(i)))
                invariant
                    input.is_ascii(),
                    s == input@,
                    n == input@.len(),
                    start < i <= n,
                    start == i0,
                    lex(s, i0) == lex_word(s, i0, i as int),
                    lex(s, 0) == after(toks_view(toks@), lex(s, i0)),
                    before == toks_view(toks@),
                decreases n - i,
            {
                i = i + 1;
            }
            let w = input.substring_ascii(start, i).to_owned();
            let k = word_token(w);
            let ghost kv = k@;
            toks.push(k);
            proof {
                assert(toks_view(toks@) =~= before.push(kv));
                match lex(s, i as int) {
                    Some(x) => {
                        assert(before + (seq![kv] + x) =~= before.push(kv) + x);
                    },
                    None => {},
                }
            }
        } else if is_digit(b) || (b == 45 && i + 1 < n && is_digit(input.get_ascii(i + 1))) {
            let negative = !is_digit(b);
            if negative {
                i = i + 1;
            }
            let d0 = input.get_ascii(i);
            let mut v: i64 = if negative {
                -((d0 - 48) as i64)
            } else {
                (d0 - 48) as i64
            };
            i = i + 1;
            while i < n && is_digit(input.get_ascii(i))
                invariant
                    input.is_ascii(),
                    s == input@,
                    n == input@.len(),
                    i0 < i <= n,
                    lex(s, i0) == lex_num(s, i as int, negative, v),
                    lex(s, 0) == after(toks_view(toks@), lex(s, i0)),
                    before == toks_view(toks@),
                decreases n - i,
            {
                let d = input.get_ascii(i);
                let next = match v.checked_mul(10) {
                    Some(t) => if negative {
                        t.checked_sub((d - 48) as i64)
                    } else {
                        t.checked_add((d - 48) as i64)
                    },
                    None => None,
                };
                assert(next == next_value(v, byte(s, i as int), negative));
                v = match next {
                    Some(t) => t,
                    None => {
                        assert(lex_num(s, i as int, negative, v) is None);
                        assert(lex(s, 0) is None);
                        return Err(parse_error("an integer that does not fit in 64 bits"));
                    },
                };
                i = i + 1;
            }
            toks.push(Token::Num(v));
            proof {
                let kv = SToken::Num(v as int);
                assert(toks_view(toks@) =~= before.push(kv));
                match lex(s, i as int) {
                    Some(x) => {
                        assert(before + (seq![kv] + x) =~= before.push(kv) + x);
                    },
                    None => {},
                }
            }
        } else {
            let t = if b == 40 {
                Token::LParen
            } else if b == 41 {
                Token::RParen
            } else if b == 91 {
                Token::LBrack
            } else if b == 93 {
                Token::RBrack
            } else if b == 44 {
                Token::Comma
            } else if b == 124 {
                Token::Bar
            } else if b == 46 {
                Token::Dot
            } else if b == 59 {
                Token::Semi
            } else {
                assert(punct(b) is None);
                assert(lex(s, 0) is None);
                return Err(parse_error("an unexpected character"));
            };
            let ghost kv = t@;
            toks.push(t);
            i = i + 1;
            proof {
                assert(toks_view(toks@) =~= before.push(kv));
                match lex(s, i as int) {
                    Some(x) => {
                        assert(before + (seq![kv] + x) =~= before.push(kv) + x);
                    },
                    None => {},
                }
            }
        }
    }
    assert(toks_view(toks@) + Seq::<SToken>::empty() =~= toks_view(toks@));
    Ok(toks)
}

/// The token at `pos` is `k`.
pub open spec fn tok(t: Seq<SToken>, pos: int, k: SToken) -> bool {
    0 <= pos < t.len() && t[pos] == k
}

/// A name that reads as a variable: it starts with an upper-case letter or `_`.
pub open spec fn var_name(x: Seq<char>) -> bool {
    x.len() > 0 && (x[0] == '_' || ('A' <= x[0] && x[0] <= 'Z'))
}

pub open spec fn empty_list() -> STerm {
    STerm::Fun("empty_list"@, Seq::empty())
}

/// The list of `items` followed by `tail`.
pub open spec fn cons_fold(items: Seq<STerm>, tail: STerm) -> STerm
    decreases items.len(),
{
    if items.len() == 0 {
        tail
    } else {
        cons_fold(items.drop_last(), STerm::Fun("cons"@, seq![items.last(), tail]))
    }
}

/// A term at `pos`, and where it ends: a variable, a constant, an
/// application `f(t, ..)`, an integer, or a list `[]`, `[a, b]`, `[a, b|T]`.
pub open spec fn p_term(t: Seq<SToken>, pos: int) -> Option<(STerm, int)>
    decreases t.len() - pos, 1nat,
{
    if pos < 0 || pos >= t.len() {
        None
    } else {
        match t[pos] {
            SToken::Num(n) => Some((STerm::Num(n), pos + 1)),
            SToken::Ident(name) => if tok(t, pos + 1, SToken::LParen) {
                if tok(t, pos + 2, SToken::RParen) {
                    Some((STerm::Fun(name, Seq::empty()), pos + 3))
                } else {
                    match p_term_list(t, pos + 2) {
                        Some((args, p)) => if tok(t, p, SToken::RParen) {
                            Some((STerm::Fun(name, args), p + 1))
                        } else {
                            None
                        },
                        None => None,
                    }
                }
            } else if var_name(name) {
                Some((STerm::Var(name), pos + 1))
            } else {
                Some((STerm::Fun(name, Seq::empty()), pos + 1))
            },
            SToken::LBrack => if tok(t, pos + 1, SToken::RBrack) {
                Some((empty_list(), pos + 2))
            } else {
                match p_term_list(t, pos + 1) {
                    Some((items, p)) => {
                        let tl = if tok(t, p, SToken::Bar) {
                            if p + 1 <= pos {
                                None
                            } else {
                                p_term(t, p + 1)
                            }
                        } else {
                            Some((empty_list(), p))
                        };
                        match tl {
                            Some((tail, q)) => if tok(t, q, SToken::RBrack) {
                                Some((cons_fold(items, tail), q + 1))
                            } else {
                                None
                            },
                            None => None,
                        }
                    },
                    None => None,
                }
            },
            _ => None,
        }
    }
}

/// Terms separated by commas.
pub open spec fn p_term_list(t: Seq<SToken>, pos: int) -> Option<(Seq<STerm>, int)>
    decreases t.len() - pos, 2nat,
{
    match p_term(t, pos) {
        Some((x, p)) => if p <= pos || p > t.len() {
            None
        } else {
            list_tail(t, p, seq![x])
        },
        None => None,
    }
}

pub open spec fn list_tail(t: Seq<SToken>, p: int, acc: Seq<STerm>) -> Option<(Seq<STerm>, int)>
    decreases t.len() - p, 3nat,
{
    if tok(t, p, SToken::Comma) {
        match p_term(t, p + 1) {
            Some((x, q)) => if q <= p || q > t.len() {
                None
            } else {
                list_tail(t, q, acc.push(x))
            },
            None => None,
        }
    } else {
        Some((acc, p))
    }
}

/// An atom: a proposition `P(t, ..)` or `P`, `bottom`, or a formula in parentheses.
pub open spec fn p_primary(t: Seq<SToken>, pos: int) -> Option<(SExpr, int)>
    decreases t.len() - pos, 0nat,
{
    if pos < 0 || pos >= t.len() {
        None
    } else {
        match t[pos] {
            SToken::LParen => match p_impl(t, pos + 1) {
                Some((e, p)) => if tok(t, p, SToken::RParen) {
                    Some((e, p + 1))
                } else {
                    None
                },
                None => None,
            },
            SToken::Bottom => Some((SExpr::Bottom, pos + 1)),
            SToken::Ident(name) => if tok(t, pos + 1, SToken::LParen) {
                if tok(t, pos + 2, SToken::RParen) {
                    Some((SExpr::Prop(SProp { name, terms: Seq::empty() }), pos + 3))
                } else {
                    match p_term_list(t, pos + 2) {
                        Some((ts, p)) => if tok(t, p, SToken::RParen) {
                            Some((SExpr::Prop(SProp { name, terms: ts }), p + 1))
                        } else {
                            None
                        },
                        None => None,
                    }
                }
            } else {
                Some((SExpr::Prop(SProp { name, terms: Seq::empty() }), pos + 1))
            },
            _ => None,
        }
    }
}

/// `not F`, `forall V. F`, `exists V. F`, or an atom; a quantifier's body is
/// a whole formula.
pub open spec fn p_unary(t: Seq<SToken>, pos: int) -> Option<(SExpr, int)>
    decreases t.len() - pos, 1nat,
{
    if pos < 0 {
        None
    } else if tok(t, pos, SToken::Not) {
        match p_unary(t, pos + 1) {
            Some((e, p)) => Some((SExpr::Not(Box::new(e)), p)),
            None => None,
        }
    } else if tok(t, pos, SToken::Forall) || tok(t, pos, SToken::Exists) {
        if pos + 1 >= t.len() {
            None
        } else {
            match t[pos + 1] {
                SToken::Ident(v) => if tok(t, pos + 2, SToken::Dot) {
                    match p_impl(t, pos + 3) {
                        Some((e, p)) => if tok(t, pos, SToken::Forall) {
                            Some((SExpr::ForAll(v, Box::new(e)), p))
                        } else {
                            Some((SExpr::Exists(v, Box::new(e)), p))
                        },
                        None => None,
                    }
                } else {
                    None
                },
                _ => None,
            }
        }
    } else {
        p_primary(t, pos)
    }
}

/// Conjunctions, left-associative.
pub open spec fn p_and(t: Seq<SToken>, pos: int) -> Option<(SExpr, int)>
    decreases t.len() - pos, 2nat,
{
    match p_unary(t, pos) {
        Some((e, p)) => if p <= pos || p > t.len() {
            None
        } else {
            and_tail(t, p, e)
        },
        None => None,
    }
}

pub open spec fn and_tail(t: Seq<SToken>, p: int, acc: SExpr) -> Option<(SExpr, int)>
    decreases t.len() - p, 3nat,
{
    if tok(t, p, SToken::And) {
        match p_unary(t, p + 1) {
            Some((r, q)) => if q <= p || q > t.len() {
                None
            } else {
                and_tail(t, q, SExpr::And(Box::new(acc), Box::new(r)))
            },
            None => None,
        }
    } else {
        Some((acc, p))
    }
}

/// Disjunctions, left-associative.
pub open spec fn p_or(t: Seq<SToken>, pos: int) -> Option<(SExpr, int)>
    decreases t.len() - pos, 4nat,
{
    match p_and(t, pos) {
        Some((e, p)) => if p <= pos || p > t.len() {
            None
        } else {
            or_tail(t, p, e)
        },
        None => None,
    }
}

pub open spec fn or_tail(t: Seq<SToken>, p: int, acc: SExpr) -> Option<(SExpr, int)>
    decreases t.len() - p, 5nat,
{
    if tok(t, p, SToken::Or) {
        match p_and(t, p + 1) {
            Some((r, q)) => if q <= p || q > t.len() {
                None
            } else {
                or_tail(t, q, SExpr::Or(Box::new(acc), Box::new(r)))
            },
            None => None,
        }
    } else {
        Some((acc, p))
    }
}

/// Implications, right-associative: the loosest connective.
pub open spec fn p_impl(t: Seq<SToken>, pos: int) -> Option<(SExpr, int)>
    decreases t.len() - pos, 6nat,
{
    match p_or(t, pos) {
        Some((l, p)) => if p <= pos {
            None
        } else if tok(t, p, SToken::Impl) {
            match p_impl(t, p + 1) {
                Some((r, q)) => Some((SExpr::Implies(Box::new(l), Box::new(r)), q)),
                None => None,
            }
        } else {
            Some((l, p))
        },
        None => None,
    }
}

/// The formula that the tokens `t` spell, optionally followed by `;`.
pub open spec fn formula_of_tokens(t: Seq<SToken>) -> Option<SExpr> {
    match p_impl(t, 0) {
        Some((e, p)) => {
            let q = if tok(t, p, SToken::Semi) {
                p + 1
            } else {
                p
            };
            if q == t.len() {
                Some(e)
            } else {
                None
            }
        },
        None => None,
    }
}

/// The formulas, each ended by `;`, that the tokens from `pos` on spell.
pub open spec fn file_tokens(t: Seq<SToken>, pos: int) -> Option<Seq<SExpr>>
    decreases t.len() - pos,
{
    if pos < 0 || pos >= t.len() {
        Some(Seq::empty())
    } else {
        match p_impl(t, pos) {
            Some((e, q)) => if tok(t, q, SToken::Semi) && q >= pos {
                match file_tokens(t, q + 1) {
                    Some(es) => Some(seq![e] + es),
                    None => None,
                }
            } else {
                None
            },
            None => None,
        }
    }
}

/// Whether the token at `pos` is `t`, for tokens without payload.
fn at(toks: &Vec<Token>, pos: usize, t: &Token) -> (r: bool)
    ensures
        r == (tok(toks_view(toks@), pos as int, t@) && !(t@ is Ident) && !(t@ is Num)),
        r ==> pos < toks@.len(),
        toks@.len() <= usize::MAX,
{
    if pos >= toks.len() {
        return false;
    }
    match (&toks[pos], t) {
        (Token::LParen, Token::LParen) => true,
        (Token::RParen, Token::RParen) => true,
        (Token::LBrack, Token::LBrack) => true,
        (Token::RBrack, Token::RBrack) => true,
        (Token::Comma, Token::Comma) => true,
        (Token::Bar, Token::Bar) => true,
        (Token::Dot, Token::Dot) => true,
        (Token::Semi, Token::Semi) => true,
        (Token::Not, Token::Not) => true,
        (Token::Forall, Token::Forall) => true,
        (Token::Exists, Token::Exists) => true,
        (Token::And, Token::And) => true,
        (Token::Or, Token::Or) => true,
        (Token::Impl, Token::Impl) => true,
        (Token::Bottom, Token::Bottom) => true,
        _ => false,
    }
}

fn empty_list_term() -> (r: Term)
    ensures
        r@ == empty_list(),
{
    let r = Term::FunctionApplication { name: String::from_str("empty_list"), args: Vec::new() };
    assert(r@->Fun_1 =~= Seq::<STerm>::empty());
    r
}

fn cons_term(h: Term, t: Term) -> (r: Term)
    ensures
        r@ == STerm::Fun("cons"@, seq![h@, t@]),
{
    let ghost hv = h@;
    let ghost tv = t@;
    let mut args: Vec<Term> = Vec::new();
    args.push(h);
    args.push(t);
    let r = Term::FunctionApplication { name: String::from_str("cons"), args };
    assert(r@->Fun_1 =~= seq![hv, tv]);
    r
}

/// Whether an identifier names a variable: it starts with an upper-case letter or `_`.
fn is_var_name(s: &String) -> (r: bool)
    ensures
        r == var_name(s@),
{
    let w = s.as_str();
    if w.unicode_len() == 0 {
        return false;
    }
    let c = w.get_char(0);
    c == '_' || ('A' <= c && c <= 'Z')
}

/// Terms separated by commas.
fn parse_term_list(toks: &Vec<Token>, pos: usize) -> (r: Result<(Vec<Term>, usize), GicError>)
    requires
        pos <= toks@.len(),
    ensures
        r matches Ok((_, p)) ==> pos < p <= toks@.len(),
        r is Err ==> r->Err_0 is ParseError,
        match r {
            Ok((v, p)) => p_term_list(toks_view(toks@), pos as int) == Some((terms_view(v@), p as int)),
            Err(_) => p_term_list(toks_view(toks@), pos as int) is None,
        },
    decreases toks@.len() - pos, 2nat,
{
    let ghost t = toks_view(toks@);
    let mut out: Vec<Term> = Vec::new();
    let (x, p) = parse_term(toks, pos)?;
    out.push(x);
    let mut p = p;
    assert(terms_view(out@) =~= seq![x@]);
    while at(toks, p, &Token::Comma)
        invariant
            pos < p <= toks@.len(),
            t == toks_view(toks@),
            p_term_list(t, pos as int) == list_tail(t, p as int, terms_view(out@)),
        decreases toks@.len() - p,
    {
        let ghost acc = terms_view(out@);
        let (x, q) = parse_term(toks, p + 1)?;
        out.push(x);
        assert(terms_view(out@) =~= acc.push(x@));
        p = q;
    }
    Ok((out, p))
}

/// A term: a variable, a constant, an application, an integer or a list.
fn parse_term(toks: &Vec<Token>, pos: usize) -> (r: Result<(Term, usize), GicError>)
    requires
        pos <= toks@.len(),
    ensures
        r matches Ok((_, p)) ==> pos < p <= toks@.len(),
        r is Err ==> r->Err_0 is ParseError,
        match r {
            Ok((x, p)) => p_term(toks_view(toks@), pos as int) == Some((x@, p as int)),
            Err(_) => p_term(toks_view(toks@), pos as int) is None,
        },
    decreases toks@.len() - pos, 1nat,
{
    let ghost t = toks_view(toks@);
    if pos >= toks.len() {
        return Err(parse_error("a term is missing at the end"));
    }
    assert(t[pos as int] == toks@[pos as int]@);
    match &toks[pos] {
        Token::Num(n) => Ok((Term::Number(*n), pos + 1)),
        Token::Ident(name) => {
            if at(toks, pos + 1, &Token::LParen) {
                if at(toks, pos + 2, &Token::RParen) {
                    let x = Term::FunctionApplication { name: name.clone(), args: Vec::new() };
                    assert(x@->Fun_1 =~= Seq::<STerm>::empty());
                    return Ok((x, pos + 3));
                }
                let (args, p) = parse_term_list(toks, pos + 2)?;
                if !at(toks, p, &Token::RParen) {
                    return Err(parse_error("')' expected after the arguments of a function"));
                }
                Ok((Term::FunctionApplication { name: name.clone(), args }, p + 1))
            } else if is_var_name(name) {
                Ok((Term::Identifier(name.clone()), pos + 1))
            } else {
                let x = Term::FunctionApplication { name: name.clone(), args: Vec::new() };
                assert(x@->Fun_1 =~= Seq::<STerm>::empty());
                Ok((x, pos + 1))
            }
        },
        Token::LBrack => {
            if at(toks, pos + 1, &Token::RBrack) {
                return Ok((empty_list_term(), pos + 2));
            }
            let (items, p) = parse_term_list(toks, pos + 1)?;
            let (tail, p2) = if at(toks, p, &Token::Bar) {
                let (x, q) = parse_term(toks, p + 1)?;
                (x, q)
            } else {
                (empty_list_term(), p)
            };
            if !at(toks, p2, &Token::RBrack) {
                return Err(parse_error("']' expected at the end of a list"));
            }
            let ghost all = terms_view(items@);
            let ghost tv = tail@;
            let mut list = tail;
            let mut items = items;
            while items.len() > 0
                invariant
                    cons_fold(all, tv) == cons_fold(terms_view(items@), list@),
                decreases items.len(),
            {
                let ghost before = terms_view(items@);
                let h = items.pop().unwrap();
                assert(terms_view(items@) =~= before.drop_last());
                list = cons_term(h, list);
            }
            assert(terms_view(items@) =~= Seq::<STerm>::empty());
            Ok((list, p2 + 1))
        },
        _ => Err(parse_error("a term is expected")),
    }
}

/// An atom: a proposition, `bottom`, or a formula in parentheses.
fn parse_primary(toks: &Vec<Token>, pos: usize) -> (r: Result<(Expression, usize), GicError>)
    requires
        pos <= toks@.len(),
    ensures
        r matches Ok((_, p)) ==> pos < p <= toks@.len(),
        r is Err ==> r->Err_0 is ParseError,
        match r {
            Ok((e, p)) => p_primary(toks_view(toks@), pos as int) == Some((e@, p as int)),
            Err(_) => p_primary(toks_view(toks@), pos as int) is None,
        },
    decreases toks@.len() - pos, 0nat,
{
    let ghost t = toks_view(toks@);
    if pos >= toks.len() {
        return Err(parse_error("a formula is missing at the end"));
    }
    assert(t[pos as int] == toks@[pos as int]@);
    match &toks[pos] {
        Token::LParen => {
            let (e, p) = parse_impl(toks, pos + 1)?;
            if !at(toks, p, &Token::RParen) {
                return Err(parse_error("')' expected"));
            }
            Ok((e, p + 1))
        },
        Token::Bottom => Ok((Expression::Bottom, pos + 1)),
        Token::Ident(name) => {
            if at(toks, pos + 1, &Token::LParen) {
                if at(toks, pos + 2, &Token::RParen) {
                    let p = Proposition { name: name.clone(), terms: Vec::new() };
                    assert(p@.terms =~= Seq::<STerm>::empty());
                    return Ok((Expression::Proposition(p), pos + 3));
                }
                let (terms, p) = parse_term_list(toks, pos + 2)?;
                if !at(toks, p, &Token::RParen) {
                    return Err(parse_error("')' expected after the arguments of a predicate"));
                }
                Ok((Expression::Proposition(Proposition { name: name.clone(), terms }), p + 1))
            } else {
                let p = Proposition { name: name.clone(), terms: Vec::new() };
                assert(p@.terms =~= Seq::<STerm>::empty());
                Ok((Expression::Proposition(p), pos + 1))
            }
        },
        _ => Err(parse_error("a formula is expected")),
    }
}

/// Prefix forms: `not F`, `forall V. F`, `exists V. F`, or an atom. `not`
/// binds tighter than every binary connective; the body of a quantifier runs
/// as far to the right as it can.
fn parse_unary(toks: &Vec<Token>, pos: usize) -> (r: Result<(Expression, usize), GicError>)
    requires
        pos <= toks@.len(),
    ensures
        r matches Ok((_, p)) ==> pos < p <= toks@.len(),
        r is Err ==> r->Err_0 is ParseError,
        match r {
            Ok((e, p)) => p_unary(toks_view(toks@), pos as int) == Some((e@, p as int)),
            Err(_) => p_unary(toks_view(toks@), pos as int) is None,
        },
    decreases toks@.len() - pos, 1nat,
{
    let ghost t = toks_view(toks@);
    if at(toks, pos, &Token::Not) {
        let (e, p) = parse_unary(toks, pos + 1)?;
        return Ok((Expression::Not(Box::new(e)), p));
    }
    let universal = at(toks, pos, &Token::Forall);
    if universal || at(toks, pos, &Token::Exists) {
        assert(pos < toks@.len());
        if pos + 1 >= toks.len() {
            return Err(parse_error("a quantifier without its variable"));
        }
        assert(t[pos + 1] == toks@[pos + 1]@);
        let v = match &toks[pos + 1] {
            Token::Ident(v) => v.clone(),
            _ => {
                return Err(parse_error("a quantifier without its variable"));
            },
        };
        if !at(toks, pos + 2, &Token::Dot) {
            return Err(parse_error("'.' expected after the variable of a quantifier"));
        }
        let (e, p) = parse_impl(toks, pos + 3)?;
        let q = if universal {
            Expression::ForAll(v, Box::new(e))
        } else {
            Expression::Exists(v, Box::new(e))
        };
        return Ok((q, p));
    }
    parse_primary(toks, pos)
}

/// Conjunctions, left-associative.
fn parse_and(toks: &Vec<Token>, pos: usize) -> (r: Result<(Expression, usize), GicError>)
    requires
        pos <= toks@.len(),
    ensures
        r matches Ok((_, p)) ==> pos < p <= toks@.len(),
        r is Err ==> r->Err_0 is ParseError,
        match r {
            Ok((e, p)) => p_and(toks_view(toks@), pos as int) == Some((e@, p as int)),
            Err(_) => p_and(toks_view(toks@), pos as int) is None,
        },
    decreases toks@.len() - pos, 2nat,
{
    let ghost t = toks_view(toks@);
    let (first, p) = parse_unary(toks, pos)?;
    let mut e = first;
    let mut p = p;
    while at(toks, p, &Token::And)
        invariant
            pos < p <= toks@.len(),
            t == toks_view(toks@),
            p_and(t, pos as int) == and_tail(t, p as int, e@),
        decreases toks@.len() - p,
    {
        let (rhs, q) = parse_unary(toks, p + 1)?;
        e = Expression::And(Box::new(e), Box::new(rhs));
        p = q;
    }
    Ok((e, p))
}

/// Disjunctions, left-associative.
fn parse_or(toks: &Vec<Token>, pos: usize) -> (r: Result<(Expression, usize), GicError>)
    requires
        pos <= toks@.len(),
    ensures
        r matches Ok((_, p)) ==> pos < p <= toks@.len(),
        r is Err ==> r->Err_0 is ParseError,
        match r {
            Ok((e, p)) => p_or(toks_view(toks@), pos as int) == Some((e@, p as int)),
            Err(_) => p_or(toks_view(toks@), pos as int) is None,
        },
    decreases toks@.len() - pos, 4nat,
{
    let ghost t = toks_view(toks@);
    let (first, p) = parse_and(toks, pos)?;
    let mut e = first;
    let mut p = p;
    while at(toks, p, &Token::Or)
        invariant
            pos < p <= toks@.len(),
            t == toks_view(toks@),
            p_or(t, pos as int) == or_tail(t, p as int, e@),
        decreases toks@.len() - p,
    {
        let (rhs, q) = parse_and(toks, p + 1)?;
        e = Expression::Or(Box::new(e), Box::new(rhs));
        p = q;
    }
    Ok((e, p))
}

/// Implications, right-associative: the loosest connective.
fn parse_impl(toks: &Vec<Token>, pos: usize) -> (r: Result<(Expression, usize), GicError>)
    requires
        pos <= toks@.len(),
    ensures
        r matches Ok((_, p)) ==> pos < p <= toks@.len(),
        r is Err ==> r->Err_0 is ParseError,
        match r {
            Ok((e, p)) => p_impl(toks_view(toks@), pos as int) == Some((e@, p as int)),
            Err(_) => p_impl(toks_view(toks@), pos as int) is None,
        },
    decreases toks@.len() - pos, 6nat,
{
    let (lhs, p) = parse_or(toks, pos)?;
    if at(toks, p, &Token::Impl) {
        let (rhs, q) = parse_impl(toks, p + 1)?;
        return Ok((Expression::Implies(Box::new(lhs), Box::new(rhs)), q));
    }
    Ok((lhs, p))
}

/// The formula that the text spells: one formula, optionally followed by `;`.
pub open spec fn formula_of(input: Seq<char>) -> Option<SExpr> {
    match tokens_of(input) {
        Some(t) => formula_of_tokens(t),
        None => None,
    }
}

/// The formulas that a knowledge-base text spells, each ended by `;`.
pub open spec fn file_of(input: Seq<char>) -> Option<Seq<SExpr>> {
    match tokens_of(input) {
        Some(t) => file_tokens(t, 0),
        None => None,
    }
}

pub open spec fn exprs_view(v: Seq<Expression>) -> Seq<SExpr> {
    Seq::new(v.len(), |i: int| v[i]@)
}

/// One formula, optionally followed by `;`, and nothing else.
pub fn parse_formula(input: &str) -> (r: Result<Expression, GicError>)
    ensures
        r is Err ==> r->Err_0 is ParseError,
        match r {
            Ok(e) => formula_of(input@) == Some(e@),
            Err(_) => formula_of(input@) is None,
        },
{
    let toks = tokenize(input)?;
    let (e, p) = parse_impl(&toks, 0)?;
    let p = if at(&toks, p, &Token::Semi) {
        p + 1
    } else {
        p
    };
    if p != toks.len() {
        return Err(parse_error("text after the end of the formula"));
    }
    Ok(e)
}

/// The formulas of a knowledge-base file, each ended by `;`.
pub fn parse_gic_file(input: &str) -> (r: Result<Vec<Expression>, GicError>)
    ensures
        r is Err ==> r->Err_0 is ParseError,
        match r {
            Ok(v) => file_of(input@) == Some(exprs_view(v@)),
            Err(_) => file_of(input@) is None,
        },
{
    let toks = tokenize(input)?;
    let ghost t = toks_view(toks@);
    let mut out: Vec<Expression> = Vec::new();
    let mut p: usize = 0;
    assert(exprs_view(out@) =~= Seq::<SExpr>::empty());
    while p < toks.len()
        invariant
            p <= toks@.len(),
            t == toks_view(toks@),
            tokens_of(input@) == Some(t),
            file_tokens(t, 0) == match file_tokens(t, p as int) {
                Some(es) => Some(exprs_view(out@) + es),
                None => None,
            },
        decreases toks@.len() - p,
    {
        let (e, q) = match parse_impl(&toks, p) {
            Ok(x) => x,
            Err(err) => {
                assert(file_tokens(t, p as int) is None);
                return Err(err);
            },
        };
        if !at(&toks, q, &Token::Semi) {
            assert(file_tokens(t, p as int) is None);
            return Err(parse_error("';' expected after a formula"));
        }
        let ghost before = exprs_view(out@);
        out.push(e);
        proof {
            assert(exprs_view(out@) =~= before.push(e@));
            match file_tokens(t, q + 1) {
                Some(es) => {
                    assert(exprs_view(out@) + es =~= before + (seq![e@] + es));
                },
                None => {},
            }
        }
        p = q + 1;
    }
    assert(exprs_view(out@) + Seq::<SExpr>::empty() =~= exprs_view(out@));
    Ok(out)
}

} // verus!
