//! The annotated notation, in which every variable carries its type:
//! `λx:Nat. F:Nat->Nat x:Nat ?= g:Nat->Nat x:Nat`. Upper-case letters are
//! free variables, `f`, `g` and `h` constants, other lower-case letters
//! bound variables; `/l` or `λ` starts an abstraction. Every term read is
//! α-renamed apart from its free symbols.
use crate::alpha::{alpha_rename_checked, alpha_renamed};
use crate::term::{Constraint, ConstraintV, Term, TermKind, TermV, Type, TypeV, Var, Variable, VariableV, type_of};
use crate::names::{decimal, usize_to_string};
use crate::text::{char_debug, debug_char, char_string, chars_of, is_lowercase, is_uppercase, is_whitespace, unicode_lowercase, unicode_uppercase, unicode_whitespace};
use crate::utils::{wrap_abs, wrap_with_abstractions};
use vstd::prelude::*;
use vstd::slice::slice_subrange;
use vstd::string::*;

verus! {

/// A token of the annotated notation.
#[derive(Debug, PartialEq, Eq, Clone, Copy, Structural)]
pub enum Token {
    Lambda,
    Letter(char),
    Dot,
    Comma,
    LParen,
    RParen,
    Eq,
    Colon,
    Arrow,
}

/// What can go wrong while reading an annotated constraint.
#[derive(Debug, PartialEq, Eq, Clone, Copy)]
pub enum ParseError {
    InvalidCharacter((usize, char)),
    InvalidExpression,
    EmptyExpression,
    MissingEq,
    MissingParem,
    LengthWrong((usize, usize)),
    UnexpectedToken(Token),
    UnexpectedEnd,
}

/// An ASCII letter.
pub open spec fn ascii_letter(c: char) -> bool {
    ('A' <= c && c <= 'Z') || ('a' <= c && c <= 'z')
}

/// A letter token of an ASCII letter.
pub open spec fn ascii_letter_token(t: Token) -> bool {
    t matches Token::Letter(c) && ascii_letter(c)
}

/// Whether `c` is an ASCII letter.
fn is_ascii_letter(c: char) -> (res: bool)
    ensures
        res == ascii_letter(c),
{
    ('A' <= c && c <= 'Z') || ('a' <= c && c <= 'z')
}

/// The tokens of `cs` from `i` on, or the first character that fits none:
/// whitespace is skipped, `/l` and `λ` are the lambda, `?=` the equation
/// sign, `->` the arrow; each ASCII letter is a token of its own.
pub open spec fn tokens_from(cs: Seq<char>, i: int) -> Result<Seq<Token>, ParseError>
    decreases cs.len() - i,
{
    if i < 0 || i >= cs.len() {
        Ok(Seq::empty())
    } else {
        let c = cs[i];
        let two = |t: Token, second: char|
            if i + 1 < cs.len() && cs[i + 1] == second {
                match tokens_from(cs, i + 2) {
                    Ok(ts) => Ok(seq![t] + ts),
                    Err(e) => Err(e),
                }
            } else {
                Err(ParseError::InvalidCharacter((i as usize, c)))
            };
        let one = |t: Token|
            match tokens_from(cs, i + 1) {
                Ok(ts) => Ok(seq![t] + ts),
                Err(e) => Err(e),
            };
        if unicode_whitespace(c) {
            tokens_from(cs, i + 1)
        } else if c == '/' {
            two(Token::Lambda, 'l')
        } else if c == '?' {
            two(Token::Eq, '=')
        } else if c == 'λ' {
            one(Token::Lambda)
        } else if c == '(' {
            one(Token::LParen)
        } else if c == ')' {
            one(Token::RParen)
        } else if c == '.' {
            one(Token::Dot)
        } else if c == ',' {
            one(Token::Comma)
        } else if c == ':' {
            one(Token::Colon)
        } else if c == '-' {
            two(Token::Arrow, '>')
        } else if ascii_letter(c) {
            one(Token::Letter(c))
        } else {
            Err(ParseError::InvalidCharacter((i as usize, c)))
        }
    }
}

/// The tokens of a line; an empty line is an error.
pub open spec fn tokenize_spec(cs: Seq<char>) -> Result<Seq<Token>, ParseError> {
    match tokens_from(cs, 0) {
        Ok(ts) => if ts.len() == 0 {
            Err(ParseError::EmptyExpression)
        } else {
            Ok(ts)
        },
        Err(e) => Err(e),
    }
}

/// `done` in front of the tokens of `r`, or the error of `r`.
pub open spec fn after(done: Seq<Token>, r: Result<Seq<Token>, ParseError>) -> Result<Seq<Token>, ParseError> {
    match r {
        Ok(ts) => Ok(done + ts),
        Err(e) => Err(e),
    }
}

/// Splits a line into tokens.
fn tokenize(input: &str) -> (res: Result<Vec<Token>, ParseError>)
    ensures
        match res {
            Ok(ts) => tokenize_spec(input@) == Ok::<Seq<Token>, ParseError>(ts@),
            Err(e) => tokenize_spec(input@) == Err::<Seq<Token>, ParseError>(e),
        },
{
    let cs = chars_of(input);
    let mut tokens: Vec<Token> = Vec::new();
    let mut i: usize = 0;
    while i < cs.len()
        invariant
            i <= cs.len(),
            cs@ == input@,
            tokens_from(input@, 0) == after(tokens@, tokens_from(input@, i as int)),
        decreases cs.len() - i,
    {
        let c = cs[i];
        let ghost done = tokens@;
        if is_whitespace(c) {
            i += 1;
        } else if c == '/' || c == '?' || c == '-' {
            let (t, second) = if c == '/' {
                (Token::Lambda, 'l')
            } else if c == '?' {
                (Token::Eq, '=')
            } else {
                (Token::Arrow, '>')
            };
            if i + 1 < cs.len() && cs[i + 1] == second {
                tokens.push(t);
                proof {
                    lemma_after_prepend(done, t, tokens_from(input@, i + 2));
                }
                i += 2;
            } else {
                return Err(ParseError::InvalidCharacter((i, c)));
            }
        } else if c == 'λ' || c == '(' || c == ')' || c == '.' || c == ',' || c == ':' || is_ascii_letter(c) {
            let t = if c == 'λ' {
                Token::Lambda
            } else if c == '(' {
                Token::LParen
            } else if c == ')' {
                Token::RParen
            } else if c == '.' {
                Token::Dot
            } else if c == ',' {
                Token::Comma
            } else if c == ':' {
                Token::Colon
            } else {
                Token::Letter(c)
            };
            tokens.push(t);
            proof {
                lemma_after_prepend(done, t, tokens_from(input@, i + 1));
            }
            i += 1;
        } else {
            return Err(ParseError::InvalidCharacter((i, c)));
        }
    }
    assert(tokens@ + Seq::<Token>::empty() =~= tokens@);
    if tokens.len() == 0 {
        Err(ParseError::EmptyExpression)
    } else {
        Ok(tokens)
    }
}

/// Moving one token from what is left to what is done.
proof fn lemma_after_prepend(done: Seq<Token>, t: Token, r: Result<Seq<Token>, ParseError>)
    ensures
        after(done.push(t), r) == after(done, match r {
            Ok(ts) => Ok(seq![t] + ts),
            Err(e) => Err(e),
        }),
{
    match r {
        Ok(ts) => {
            assert(done + (seq![t] + ts) =~= done.push(t) + ts);
        },
        Err(_) => {},
    }
}

/// The outcome of reading from a position: the value and the position after
/// it, an error, or a read past the end of the tokens or an alphabet run out
/// while renaming.
pub enum Read<T> {
    Done(T, int),
    Failed(ParseError),
    Stuck,
}

/// The end of the run of ASCII letters from `j` on.
pub open spec fn letters_end(ts: Seq<Token>, j: int) -> int
    decreases ts.len() - j,
{
    if 0 <= j < ts.len() && ascii_letter_token(ts[j]) {
        letters_end(ts, j + 1)
    } else {
        j
    }
}

proof fn lemma_letters_end(ts: Seq<Token>, j: int)
    requires
        0 <= j <= ts.len(),
    ensures
        j <= letters_end(ts, j) <= ts.len(),
    decreases ts.len() - j,
{
    if j < ts.len() && ascii_letter_token(ts[j]) {
        lemma_letters_end(ts, j + 1);
    }
}

/// The characters of the letters `ts[a..b]`.
pub open spec fn letters_text(ts: Seq<Token>, a: int, b: int) -> Seq<char> {
    Seq::new((b - a) as nat, |k: int| ts[a + k]->Letter_0)
}

/// A base type by its name: `Bool`, `Nat`, `Real`, and `Int` as a declared
/// type of that name.
pub open spec fn base_named(name: Seq<char>) -> Option<TypeV> {
    if name == "Bool"@ {
        Some(TypeV::Bool)
    } else if name == "Nat"@ {
        Some(TypeV::Nat)
    } else if name == "Int"@ {
        Some(TypeV::Custom("Int"@))
    } else if name == "Real"@ {
        Some(TypeV::Real)
    } else {
        None
    }
}

/// A type from `pos`: a type in parentheses or a base type by name,
/// followed by `->` and a type.
pub open spec fn a_type(ts: Seq<Token>, pos: int) -> Read<TypeV>
    decreases ts.len() - pos,
{
    if pos < 0 || pos > ts.len() {
        Read::Stuck
    } else {
        let first: Read<TypeV> = if pos < ts.len() && ts[pos] is LParen {
            match a_type(ts, pos + 1) {
                Read::Done(inner, p) => if 0 <= p < ts.len() && ts[p] is RParen {
                    Read::Done(inner, p + 1)
                } else {
                    Read::Failed(ParseError::MissingParem)
                },
                Read::Failed(e) => Read::Failed(e),
                Read::Stuck => Read::Stuck,
            }
        } else if pos < ts.len() && ascii_letter_token(ts[pos]) {
            let e = letters_end(ts, pos + 1);
            let name = letters_text(ts, pos, e);
            match base_named(name) {
                Some(t) => Read::Done(t, e),
                None => Read::Failed(ParseError::UnexpectedToken(Token::Letter(name[0]))),
            }
        } else {
            Read::Failed(ParseError::InvalidExpression)
        };
        match first {
            Read::Done(ty, p) => if 0 <= p < ts.len() && ts[p] is Arrow {
                if p + 1 > pos {
                    match a_type(ts, p + 1) {
                        Read::Done(r, p2) => Read::Done(TypeV::Arrow(Box::new(ty), Box::new(r)), p2),
                        Read::Failed(e) => Read::Failed(e),
                        Read::Stuck => Read::Stuck,
                    }
                } else {
                    Read::Stuck
                }
            } else {
                Read::Done(ty, p)
            },
            other => other,
        }
    }
}

/// Every type read ends after where it starts, within the tokens.
pub proof fn lemma_type_advances(ts: Seq<Token>, pos: int)
    requires
        0 <= pos,
    ensures
        a_type(ts, pos) matches Read::Done(_, p) ==> pos < p <= ts.len(),
    decreases ts.len() - pos,
{
    if pos <= ts.len() {
        if pos < ts.len() && ts[pos] is LParen {
            lemma_type_advances(ts, pos + 1);
        } else if pos < ts.len() && ascii_letter_token(ts[pos]) {
            lemma_letters_end(ts, pos + 1);
        }
        let first: Read<TypeV> = if pos < ts.len() && ts[pos] is LParen {
            match a_type(ts, pos + 1) {
                Read::Done(inner, p) => if 0 <= p < ts.len() && ts[p] is RParen {
                    Read::Done(inner, p + 1)
                } else {
                    Read::Failed(ParseError::MissingParem)
                },
                Read::Failed(e) => Read::Failed(e),
                Read::Stuck => Read::Stuck,
            }
        } else if pos < ts.len() && ascii_letter_token(ts[pos]) {
            let e = letters_end(ts, pos + 1);
            let name = letters_text(ts, pos, e);
            match base_named(name) {
                Some(t) => Read::Done(t, e),
                None => Read::Failed(ParseError::UnexpectedToken(Token::Letter(name[0]))),
            }
        } else {
            Read::Failed(ParseError::InvalidExpression)
        };
        if let Read::Done(ty, p) = first {
            if 0 <= p < ts.len() && ts[p] is Arrow {
                lemma_type_advances(ts, p + 1);
            }
        }
    }
}

/// The kind of a variable named by the letter `c`: upper case is free,
/// `f`, `g` and `h` are constants, the rest is bound.
pub open spec fn letter_kind(c: char) -> TermKind {
    if unicode_uppercase(c) {
        TermKind::FVar
    } else if c == 'f' || c == 'h' || c == 'g' {
        TermKind::Const
    } else {
        TermKind::BVar
    }
}

/// The variable named by the letter `c`, of type `ty`.
pub open spec fn letter_var(c: char, kind: TermKind, ty: TypeV) -> VariableV {
    VariableV { name: seq![c], term_kind: kind, ty, var: Var::Basic }
}

/// A term from `pos`: an atom and the atoms that follow, applied in turn,
/// then renamed apart.
pub open spec fn a_term(ts: Seq<Token>, pos: int) -> Read<TermV>
    decreases ts.len() - pos, 3nat,
{
    match a_atom(ts, pos) {
        Read::Done(f, p1) => if pos < p1 <= ts.len() {
            match a_rest(ts, p1, f) {
                Read::Done(node, p2) => match alpha_renamed(node) {
                    Some(n2) => Read::Done(n2, p2),
                    None => Read::Stuck,
                },
                other => other,
            }
        } else {
            Read::Stuck
        },
        Read::Failed(e) => Read::Failed(e),
        Read::Stuck => Read::Stuck,
    }
}

/// `node` applied to the atoms from `pos` on, as long as a lambda, a letter
/// or an opening parenthesis follows; the function must have a function
/// type whose argument type is the argument's. (Atoms always consume
/// tokens: the guard on positions never fails.)
pub open spec fn a_rest(ts: Seq<Token>, pos: int, node: TermV) -> Read<TermV>
    decreases ts.len() - pos, 2nat,
{
    if 0 <= pos < ts.len() && (ts[pos] is Lambda || ts[pos] is Letter || ts[pos] is LParen) {
        match a_atom(ts, pos) {
            Read::Done(rhs, p1) => match type_of(node) {
                TypeV::Arrow(i, o) => if *i != type_of(rhs) {
                    Read::Failed(ParseError::InvalidExpression)
                } else if pos < p1 <= ts.len() {
                    a_rest(ts, p1, TermV::App { func: Box::new(node), arg: Box::new(rhs), result_ty: *o })
                } else {
                    Read::Stuck
                },
                _ => Read::Failed(ParseError::InvalidExpression),
            },
            Read::Failed(e) => Read::Failed(e),
            Read::Stuck => Read::Stuck,
        }
    } else {
        Read::Done(node, pos)
    }
}

/// The binders of an abstraction from `pos` on, after those in `acc`: each
/// a lower-case letter other than `f`, `g`, `h`, a colon and its type,
/// separated by commas; at the dot, the body.
pub open spec fn a_params(ts: Seq<Token>, pos: int, acc: Seq<VariableV>) -> Read<TermV>
    decreases ts.len() - pos, 1nat,
{
    if pos < 0 || pos >= ts.len() {
        Read::Failed(ParseError::UnexpectedEnd)
    } else {
        match ts[pos] {
            Token::Letter(c) => if unicode_lowercase(c) && c != 'f' && c != 'g' && c != 'h' {
                if pos + 1 >= ts.len() {
                    Read::Stuck
                } else if !(ts[pos + 1] is Colon) {
                    Read::Failed(ParseError::UnexpectedToken(ts[pos + 1]))
                } else {
                    match a_type(ts, pos + 2) {
                        Read::Done(ty, p) => {
                            proof {
                                lemma_type_advances(ts, pos + 2);
                            }
                            a_params(ts, p, acc.push(letter_var(c, TermKind::BVar, ty)))
                        },
                        Read::Failed(e) => Read::Failed(e),
                        Read::Stuck => Read::Stuck,
                    }
                }
            } else {
                Read::Failed(ParseError::UnexpectedToken(ts[pos]))
            },
            Token::Comma => a_params(ts, pos + 1, acc),
            Token::Dot => match a_term(ts, pos + 1) {
                Read::Done(body, p) => Read::Done(wrap_abs(acc, body), p),
                Read::Failed(e) => Read::Failed(e),
                Read::Stuck => Read::Stuck,
            },
            t => Read::Failed(ParseError::UnexpectedToken(t)),
        }
    }
}

/// An atom at `pos`: an abstraction, a letter with a colon and its type,
/// or a term in parentheses.
pub open spec fn a_atom(ts: Seq<Token>, pos: int) -> Read<TermV>
    decreases ts.len() - pos, 0nat,
{
    if pos < 0 || pos >= ts.len() {
        Read::Failed(ParseError::InvalidExpression)
    } else {
        match ts[pos] {
            Token::Lambda => a_params(ts, pos + 1, Seq::empty()),
            Token::Letter(c) => if pos + 1 >= ts.len() {
                Read::Stuck
            } else if !(ts[pos + 1] is Colon) {
                Read::Failed(ParseError::UnexpectedToken(ts[pos + 1]))
            } else {
                match a_type(ts, pos + 2) {
                    Read::Done(ty, p) => Read::Done(TermV::Var(letter_var(c, letter_kind(c), ty)), p),
                    Read::Failed(e) => Read::Failed(e),
                    Read::Stuck => Read::Stuck,
                }
            },
            Token::LParen => match a_term(ts, pos + 1) {
                Read::Done(inner, p) => if 0 <= p < ts.len() && ts[p] is RParen {
                    Read::Done(inner, p + 1)
                } else {
                    Read::Failed(ParseError::MissingParem)
                },
                Read::Failed(e) => Read::Failed(e),
                Read::Stuck => Read::Stuck,
            },
            _ => Read::Failed(ParseError::InvalidExpression),
        }
    }
}

/// The position of the first `?=`.
pub open spec fn first_eq(ts: Seq<Token>, i: int) -> Option<int>
    decreases ts.len() - i,
{
    if i < 0 || i >= ts.len() {
        None
    } else if ts[i] is Eq {
        Some(i)
    } else {
        first_eq(ts, i + 1)
    }
}

/// The constraint of the tokens: the terms before and after the first `?=`,
/// each using up its tokens (a mismatch is reported with the length of the
/// right side). `None` where reading runs past the end of the tokens or
/// renaming runs out of letters.
pub open spec fn a_constraint(ts: Seq<Token>) -> Option<Result<ConstraintV, ParseError>> {
    match first_eq(ts, 0) {
        None => Some(Err(ParseError::MissingEq)),
        Some(k) => {
            let left = ts.subrange(0, k);
            let right = ts.subrange(k + 1, ts.len() as int);
            match a_term(left, 0) {
                Read::Stuck => None,
                Read::Failed(e) => Some(Err(e)),
                Read::Done(l, lp) => if lp != left.len() {
                    Some(Err(ParseError::LengthWrong((lp as usize, right.len() as usize))))
                } else {
                    match a_term(right, 0) {
                        Read::Stuck => None,
                        Read::Failed(e) => Some(Err(e)),
                        Read::Done(r, rp) => if rp != right.len() {
                            Some(Err(ParseError::LengthWrong((rp as usize, right.len() as usize))))
                        } else {
                            Some(Ok(ConstraintV(l, r)))
                        },
                    }
                },
            }
        },
    }
}

/// The constraint of an annotated line, or the first error. `None` where
/// reading runs past the end of the tokens or renaming runs out of letters.
pub open spec fn parse_outcome(input: Seq<char>) -> Option<Result<ConstraintV, ParseError>> {
    match tokenize_spec(input) {
        Err(e) => Some(Err(e)),
        Ok(ts) => a_constraint(ts),
    }
}

/// The exec outcome matches the spec outcome of a read from `pos`.
pub open spec fn matches_read<T, V>(res: Option<Result<T, ParseError>>, view: spec_fn(T) -> V, r: Read<V>, end: int) -> bool {
    match res {
        None => r is Stuck,
        Some(Ok(t)) => r == Read::Done(view(t), end),
        Some(Err(e)) => r == Read::<V>::Failed(e),
    }
}

/// Reads a type.
fn parse_type(tokens: &[Token], pos: &mut usize) -> (res: Option<Result<Type, ParseError>>)
    requires
        *old(pos) <= tokens.len(),
    ensures
        matches_read(res, |t: Type| t@, a_type(tokens@, *old(pos) as int), *final(pos) as int),
        *final(pos) <= tokens.len(),
        res matches Some(Ok(_)) ==> *old(pos) < *final(pos),
    decreases tokens.len() - *old(pos),
{
    let ghost ts = tokens@;
    let ghost start = *pos as int;
    proof {
        lemma_type_advances(ts, start);
    }
    let ty = if *pos < tokens.len() && tokens[*pos] == Token::LParen {
        *pos += 1;
        let inner = match parse_type(tokens, pos) {
            None => {
                return None;
            },
            Some(Err(e)) => {
                return Some(Err(e));
            },
            Some(Ok(t)) => t,
        };
        if !(*pos < tokens.len() && tokens[*pos] == Token::RParen) {
            return Some(Err(ParseError::MissingParem));
        }
        *pos += 1;
        inner
    } else if *pos < tokens.len() && tokens[*pos].is_ascii_letter_token() {
        let first = *pos;
        let mut name: Vec<char> = Vec::new();
        proof {
            lemma_letters_end(ts, start + 1);
        }
        let c0 = match tokens[*pos] {
            Token::Letter(c) => c,
            _ => ' ',
        };
        name.push(c0);
        *pos += 1;
        assert(name@ =~= letters_text(ts, first as int, *pos as int));
        while *pos < tokens.len() && tokens[*pos].is_ascii_letter_token()
            invariant
                first == start,
                first < *pos <= tokens.len(),
                ts == tokens@,
                letters_end(ts, first + 1) == letters_end(ts, *pos as int),
                forall|k: int| first <= k < *pos ==> ascii_letter_token(#[trigger] ts[k]),
                name@ == letters_text(ts, first as int, *pos as int),
            decreases tokens.len() - *pos,
        {
            let c = match tokens[*pos] {
                Token::Letter(c) => c,
                _ => ' ',
            };
            name.push(c);
            assert(name@ =~= letters_text(ts, first as int, *pos + 1));
            *pos += 1;
        }
        assert(*pos as int == letters_end(ts, first + 1));
        let text = crate::text::string_of(name.as_slice());
        match base_type_named(&text) {
            Some(t) => t,
            None => {
                return Some(Err(ParseError::UnexpectedToken(Token::Letter(name[0]))));
            },
        }
    } else {
        return Some(Err(ParseError::InvalidExpression));
    };
    if *pos < tokens.len() && tokens[*pos] == Token::Arrow {
        *pos += 1;
        let right = match parse_type(tokens, pos) {
            None => {
                return None;
            },
            Some(Err(e)) => {
                return Some(Err(e));
            },
            Some(Ok(t)) => t,
        };
        return Some(Ok(Type::Arrow(Box::new(ty), Box::new(right))));
    }
    Some(Ok(ty))
}

/// The base type of the given name.
fn base_type_named(name: &String) -> (res: Option<Type>)
    ensures
        match res {
            Some(t) => base_named(name@) == Some(t@),
            None => base_named(name@) is None,
        },
{
    if crate::text::same_chars(name.as_str(), "Bool") {
        Some(Type::Bool)
    } else if crate::text::same_chars(name.as_str(), "Nat") {
        Some(Type::Nat)
    } else if crate::text::same_chars(name.as_str(), "Int") {
        Some(Type::Custom(String::from_str("Int")))
    } else if crate::text::same_chars(name.as_str(), "Real") {
        Some(Type::Real)
    } else {
        None
    }
}

impl Token {
    /// Whether this token is an ASCII letter.
    pub fn is_ascii_letter_token(&self) -> (res: bool)
        ensures
            res == ascii_letter_token(*self),
    {
        match self {
            Token::Letter(c) => is_ascii_letter(*c),
            _ => false,
        }
    }
}

/// The variable named by the letter `c`.
fn make_var(c: char, kind: TermKind, ty: Type) -> (res: Variable)
    ensures
        res@ == letter_var(c, kind, ty@),
{
    Variable { name: char_string(c), term_kind: kind, ty, var: Var::Basic }
}

/// Reads a term: an atom and the atoms that follow, applied in turn, then
/// renamed apart.
fn parse_term(tokens: &[Token], pos: &mut usize) -> (res: Option<Result<Term, ParseError>>)
    requires
        *old(pos) <= tokens.len(),
    ensures
        matches_read(res, |t: Term| t@, a_term(tokens@, *old(pos) as int), *final(pos) as int),
        *final(pos) <= tokens.len(),
        res matches Some(Ok(_)) ==> *old(pos) < *final(pos),
    decreases tokens.len() - *old(pos), 3nat,
{
    let ghost ts = tokens@;
    let ghost start = *pos as int;
    let mut node = match parse_atom(tokens, pos) {
        None => {
            return None;
        },
        Some(Err(e)) => {
            return Some(Err(e));
        },
        Some(Ok(t)) => t,
    };
    loop
        invariant
            start < *pos <= tokens.len(),
            ts == tokens@,
            start == *old(pos),
            a_term(ts, start) == match a_rest(ts, *pos as int, node@) {
                Read::Done(n, p2) => match alpha_renamed(n) {
                    Some(n2) => Read::Done(n2, p2),
                    None => Read::Stuck,
                },
                other => other,
            },
        decreases tokens.len() - *pos,
    {
        if !(*pos < tokens.len() && (tokens[*pos] == Token::Lambda || tokens[*pos].is_letter() || tokens[*pos] == Token::LParen)) {
            return match alpha_rename_checked(&node) {
                Some(n2) => Some(Ok(n2)),
                None => None,
            };
        }
        let rhs = match parse_atom(tokens, pos) {
            None => {
                return None;
            },
            Some(Err(e)) => {
                return Some(Err(e));
            },
            Some(Ok(t)) => t,
        };
        let func_ty = node.get_type();
        let (ty_in, ty_out) = match func_ty {
            Type::Arrow(i, o) => (i, o),
            _ => {
                return Some(Err(ParseError::InvalidExpression));
            },
        };
        if !(*ty_in).equals(&rhs.get_type()) {
            return Some(Err(ParseError::InvalidExpression));
        }
        node = Term::App { func: Box::new(node), arg: Box::new(rhs), result_ty: *ty_out };
    }
}

impl Token {
    /// Whether this token is a letter.
    pub fn is_letter(&self) -> (res: bool)
        ensures
            res == (*self is Letter),
    {
        match self {
            Token::Letter(_) => true,
            _ => false,
        }
    }
}

/// Reads an atom: an abstraction, a typed letter, or a term in parentheses.
fn parse_atom(tokens: &[Token], pos: &mut usize) -> (res: Option<Result<Term, ParseError>>)
    requires
        *old(pos) <= tokens.len(),
    ensures
        matches_read(res, |t: Term| t@, a_atom(tokens@, *old(pos) as int), *final(pos) as int),
        *final(pos) <= tokens.len(),
        res matches Some(Ok(_)) ==> *old(pos) < *final(pos),
    decreases tokens.len() - *old(pos), 0nat,
{
    let ghost ts = tokens@;
    let ghost start = *pos as int;
    if *pos >= tokens.len() {
        return Some(Err(ParseError::InvalidExpression));
    }
    match tokens[*pos] {
        Token::Lambda => {
            *pos += 1;
            let mut params: Vec<Variable> = Vec::new();
            assert(params.deep_view() =~= Seq::<VariableV>::empty());
            loop
                invariant
                    start < *pos <= tokens.len(),
                    ts == tokens@,
                    start == *old(pos),
                    a_atom(ts, start) == a_params(ts, *pos as int, params.deep_view()),
                decreases tokens.len() - *pos,
            {
                if *pos >= tokens.len() {
                    return Some(Err(ParseError::UnexpectedEnd));
                }
                match tokens[*pos] {
                    Token::Letter(c) => {
                        if !(is_lowercase(c) && c != 'f' && c != 'g' && c != 'h') {
                            return Some(Err(ParseError::UnexpectedToken(tokens[*pos])));
                        }
                        *pos += 1;
                        if *pos >= tokens.len() {
                            return None;
                        }
                        if tokens[*pos] != Token::Colon {
                            return Some(Err(ParseError::UnexpectedToken(tokens[*pos])));
                        }
                        *pos += 1;
                        let param_ty = match parse_type(tokens, pos) {
                            None => {
                                return None;
                            },
                            Some(Err(e)) => {
                                return Some(Err(e));
                            },
                            Some(Ok(t)) => t,
                        };
                        let v = make_var(c, TermKind::BVar, param_ty);
                        let ghost before = params.deep_view();
                        params.push(v);
                        assert(params.deep_view() =~= before.push(v@));
                    },
                    Token::Comma => {
                        *pos += 1;
                    },
                    Token::Dot => {
                        *pos += 1;
                        let body = match parse_term(tokens, pos) {
                            None => {
                                return None;
                            },
                            Some(Err(e)) => {
                                return Some(Err(e));
                            },
                            Some(Ok(b)) => b,
                        };
                        return Some(Ok(wrap_with_abstractions(&body, &params)));
                    },
                    t => {
                        return Some(Err(ParseError::UnexpectedToken(t)));
                    },
                }
            }
        },
        Token::Letter(c) => {
            *pos += 1;
            if *pos >= tokens.len() {
                return None;
            }
            if tokens[*pos] != Token::Colon {
                return Some(Err(ParseError::UnexpectedToken(tokens[*pos])));
            }
            *pos += 1;
            let ty = match parse_type(tokens, pos) {
                None => {
                    return None;
                },
                Some(Err(e)) => {
                    return Some(Err(e));
                },
                Some(Ok(t)) => t,
            };
            let kind = if is_uppercase(c) {
                TermKind::FVar
            } else if c == 'f' || c == 'h' || c == 'g' {
                TermKind::Const
            } else {
                TermKind::BVar
            };
            Some(Ok(Term::Var(make_var(c, kind, ty))))
        },
        Token::LParen => {
            *pos += 1;
            let inner = match parse_term(tokens, pos) {
                None => {
                    return None;
                },
                Some(Err(e)) => {
                    return Some(Err(e));
                },
                Some(Ok(t)) => t,
            };
            if !(*pos < tokens.len() && tokens[*pos] == Token::RParen) {
                return Some(Err(ParseError::MissingParem));
            }
            *pos += 1;
            Some(Ok(inner))
        },
        _ => Some(Err(ParseError::InvalidExpression)),
    }
}

/// The position of the first `?=`.
fn find_eq(tokens: &Vec<Token>) -> (res: Option<usize>)
    ensures
        match res {
            Some(k) => first_eq(tokens@, 0) == Some(k as int) && k < tokens.len(),
            None => first_eq(tokens@, 0) is None,
        },
{
    let mut i: usize = 0;
    while i < tokens.len()
        invariant
            i <= tokens.len(),
            first_eq(tokens@, 0) == first_eq(tokens@, i as int),
        decreases tokens.len() - i,
    {
        if tokens[i] == Token::Eq {
            return Some(i);
        }
        i += 1;
    }
    None
}

/// Reads the constraint of a list of tokens.
fn parser(tokens: &Vec<Token>) -> (res: Option<Result<Constraint, ParseError>>)
    ensures
        match res {
            None => a_constraint(tokens@) is None,
            Some(Ok(c)) => a_constraint(tokens@) == Some(Ok::<ConstraintV, ParseError>(c@)),
            Some(Err(e)) => a_constraint(tokens@) == Some(Err::<ConstraintV, ParseError>(e)),
        },
{
    let eq_pos = match find_eq(tokens) {
        Some(k) => k,
        None => {
            return Some(Err(ParseError::MissingEq));
        },
    };
    let left_tokens = slice_subrange(tokens.as_slice(), 0, eq_pos);
    let right_tokens = slice_subrange(tokens.as_slice(), eq_pos + 1, tokens.len());
    let mut left_pos: usize = 0;
    let left = match parse_term(left_tokens, &mut left_pos) {
        None => {
            return None;
        },
        Some(Err(e)) => {
            return Some(Err(e));
        },
        Some(Ok(t)) => t,
    };
    if left_pos != left_tokens.len() {
        return Some(Err(ParseError::LengthWrong((left_pos, right_tokens.len()))));
    }
    let mut right_pos: usize = 0;
    let right = match parse_term(right_tokens, &mut right_pos) {
        None => {
            return None;
        },
        Some(Err(e)) => {
            return Some(Err(e));
        },
        Some(Ok(t)) => t,
    };
    if right_pos != right_tokens.len() {
        return Some(Err(ParseError::LengthWrong((right_pos, right_tokens.len()))));
    }
    Some(Ok(Constraint(left, right)))
}

/// Reads an annotated line, telling apart the lines on which reading runs
/// past the end of the tokens or renaming runs out of letters (`None`).
pub fn parse_checked(input: &str) -> (res: Option<Result<Constraint, ParseError>>)
    ensures
        match res {
            None => parse_outcome(input@) is None,
            Some(Ok(c)) => parse_outcome(input@) == Some(Ok::<ConstraintV, ParseError>(c@)),
            Some(Err(e)) => parse_outcome(input@) == Some(Err::<ConstraintV, ParseError>(e)),
        },
{
    let known = match tokenize(input) {
        Err(_) => true,
        Ok(tokens) => parser(&tokens).is_some(),
    };
    if known {
        Some(parse(input))
    } else {
        None
    }
}

/// Reads an annotated constraint `lhs ?= rhs`: the tokens, then the terms
/// before and after the first `?=`, each using up its tokens.
pub fn parse(input: &str) -> (res: Result<Constraint, ParseError>)
    requires
        parse_outcome(input@) is Some,
    ensures
        match res {
            Ok(c) => parse_outcome(input@) == Some(Ok::<ConstraintV, ParseError>(c@)),
            Err(e) => parse_outcome(input@) == Some(Err::<ConstraintV, ParseError>(e)),
        },
{
    let tokens = match tokenize(input) {
        Ok(ts) => ts,
        Err(e) => {
            return Err(e);
        },
    };
    match parser(&tokens) {
        Some(r) => r,
        None => vstd::pervasive::unreached(),
    }
}

/// A token as `{:?}` writes it.
pub open spec fn token_debug(t: Token) -> Seq<char> {
    match t {
        Token::Lambda => "Lambda"@,
        Token::Letter(c) => "Letter("@ + char_debug(c) + ")"@,
        Token::Dot => "Dot"@,
        Token::Comma => "Comma"@,
        Token::LParen => "LParen"@,
        Token::RParen => "RParen"@,
        Token::Eq => "Eq"@,
        Token::Colon => "Colon"@,
        Token::Arrow => "Arrow"@,
    }
}

/// The message of an error.
pub open spec fn error_text(e: ParseError) -> Seq<char> {
    match e {
        ParseError::InvalidCharacter((i, c)) => "Ungültiges Zeichen '"@ + seq![c] + "' bei "@ + decimal(i as nat),
        ParseError::InvalidExpression => "The expression is invalid"@,
        ParseError::EmptyExpression => "The expression is empty"@,
        ParseError::MissingEq => "Es konnte nur 1 Term gefunden werden. '?='  fehlt"@,
        ParseError::MissingParem => "Es fehlt eine Klammer!"@,
        ParseError::LengthWrong((a, b)) => "Term wurde nicht komplett umgewandelt. Erwartete Länge: '"@ + decimal(a as nat)
            + "' Aktuelle Länge: '"@ + decimal(b as nat) + "'"@,
        ParseError::UnexpectedToken(t) => "Unerwartetes Token: "@ + token_debug(t),
        ParseError::UnexpectedEnd => "Unerwartetes Ende der Eingabe"@,
    }
}

impl Token {
    /// This token as `{:?}` writes it.
    pub fn debug_text(&self) -> (res: String)
        ensures
            res@ == token_debug(*self),
    {
        match self {
            Token::Lambda => String::from_str("Lambda"),
            Token::Letter(c) => {
                let mut s = String::from_str("Letter(");
                let d = debug_char(*c);
                s.append(d.as_str());
                s.append(")");
                s
            },
            Token::Dot => String::from_str("Dot"),
            Token::Comma => String::from_str("Comma"),
            Token::LParen => String::from_str("LParen"),
            Token::RParen => String::from_str("RParen"),
            Token::Eq => String::from_str("Eq"),
            Token::Colon => String::from_str("Colon"),
            Token::Arrow => String::from_str("Arrow"),
        }
    }
}

impl ParseError {
    /// The message of this error.
    pub fn to_string(&self) -> (res: String)
        ensures
            res@ == error_text(*self),
    {
        match self {
            ParseError::InvalidCharacter((i, c)) => {
                let mut s = String::from_str("Ungültiges Zeichen '");
                let cs = char_string(*c);
                s.append(cs.as_str());
                s.append("' bei ");
                let n = usize_to_string(*i);
                s.append(n.as_str());
                s
            },
            ParseError::InvalidExpression => String::from_str("The expression is invalid"),
            ParseError::EmptyExpression => String::from_str("The expression is empty"),
            ParseError::MissingEq => String::from_str("Es konnte nur 1 Term gefunden werden. '?='  fehlt"),
            ParseError::MissingParem => String::from_str("Es fehlt eine Klammer!"),
            ParseError::LengthWrong((a, b)) => {
                let mut s = String::from_str("Term wurde nicht komplett umgewandelt. Erwartete Länge: '");
                let x = usize_to_string(*a);
                s.append(x.as_str());
                s.append("' Aktuelle Länge: '");
                let y = usize_to_string(*b);
                s.append(y.as_str());
                s.append("'");
                s
            },
            ParseError::UnexpectedToken(t) => {
                let mut s = String::from_str("Unerwartetes Token: ");
                let d = t.debug_text();
                s.append(d.as_str());
                s
            },
            ParseError::UnexpectedEnd => String::from_str("Unerwartetes Ende der Eingabe"),
        }
    }
}

} // verus!
