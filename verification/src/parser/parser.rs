//! The recursive-descent parser: a constraint is two terms around `?=`; a
//! term is an abstraction `λx,y. t` or an application of atoms; an atom is a
//! declared variable or a term in parentheses. Applications are checked
//! against the types of the declared variables.
use crate::parser::tokenize::{Token, TokenV, token_debug, tokenize, tokens_from};
use crate::display::{kind_name, type_debug};
use crate::names::{decimal, usize_to_string};
use crate::text::char_string;
use vstd::string::*;
use crate::session::{find_var, get_var};
use crate::term::{Constraint, ConstraintV, Term, TermKind, TermV, Type, TypeV, Variable, VariableV, type_of, well_typed};
use crate::utils::{wrap_abs, wrap_with_abstractions};
use vstd::prelude::*;
use vstd::slice::slice_subrange;

verus! {

/// What can go wrong while reading a constraint.
#[allow(inconsistent_fields)]
#[derive(Debug, PartialEq, Eq)]
pub enum ParseError {
    InvalidCharacter((usize, char)),
    MissingEq,
    MissingParen,
    LengthMismatch((usize, usize)),
    UnexpectedToken(Token),
    UnknownVariable(String),
    ExpectedFunction(Type),
    UnexpectedKind { name: String, expected: TermKind, found: TermKind },
    TypeMismatch { expected: Type, found: Type },
    JsonError(String),
}

/// The mathematical value of a [`ParseError`].
#[allow(inconsistent_fields)]
pub enum ParseErrorV {
    InvalidCharacter(int, char),
    MissingEq,
    MissingParen,
    LengthMismatch(int, int),
    UnexpectedToken(TokenV),
    UnknownVariable(Seq<char>),
    ExpectedFunction(TypeV),
    UnexpectedKind { name: Seq<char>, expected: TermKind, found: TermKind },
    TypeMismatch { expected: TypeV, found: TypeV },
    JsonError(Seq<char>),
}

impl View for ParseError {
    type V = ParseErrorV;

    open spec fn view(&self) -> ParseErrorV {
        match self {
            ParseError::InvalidCharacter((i, c)) => ParseErrorV::InvalidCharacter(*i as int, *c),
            ParseError::MissingEq => ParseErrorV::MissingEq,
            ParseError::MissingParen => ParseErrorV::MissingParen,
            ParseError::LengthMismatch((a, b)) => ParseErrorV::LengthMismatch(*a as int, *b as int),
            ParseError::UnexpectedToken(t) => ParseErrorV::UnexpectedToken(t@),
            ParseError::UnknownVariable(n) => ParseErrorV::UnknownVariable(n@),
            ParseError::ExpectedFunction(t) => ParseErrorV::ExpectedFunction(t@),
            ParseError::UnexpectedKind { name, expected, found } => ParseErrorV::UnexpectedKind {
                name: name@,
                expected: *expected,
                found: *found,
            },
            ParseError::TypeMismatch { expected, found } => ParseErrorV::TypeMismatch {
                expected: expected@,
                found: found@,
            },
            ParseError::JsonError(m) => ParseErrorV::JsonError(m@),
        }
    }
}

/// The outcome of reading a part of the tokens from a position: the value
/// read and the position after it, an error, or the end of the tokens where
/// a token must follow.
pub enum Parsed<T> {
    Done(T, int),
    Failed(ParseErrorV),
    Stuck,
}

/// The binders of an abstraction from `pos` on, after the ones in `acc`:
/// declared bound variables separated by commas, up to the dot (not
/// consumed).
pub open spec fn p_params(ts: Seq<TokenV>, pos: int, vars: Seq<VariableV>, acc: Seq<VariableV>) -> Parsed<Seq<VariableV>>
    decreases ts.len() - pos,
{
    if pos < 0 || pos >= ts.len() {
        Parsed::Stuck
    } else {
        match ts[pos] {
            TokenV::Letter(name) => match find_var(vars, name) {
                None => Parsed::Failed(ParseErrorV::UnknownVariable(name)),
                Some(v) => if v.term_kind != TermKind::BVar {
                    Parsed::Failed(ParseErrorV::UnexpectedKind { name: v.name, expected: TermKind::BVar, found: v.term_kind })
                } else if pos + 1 >= ts.len() {
                    Parsed::Stuck
                } else {
                    match ts[pos + 1] {
                        TokenV::Comma => p_params(ts, pos + 2, vars, acc.push(v)),
                        TokenV::Dot => Parsed::Done(acc.push(v), pos + 1),
                        t => Parsed::Failed(ParseErrorV::UnexpectedToken(t)),
                    }
                },
            },
            t => Parsed::Failed(ParseErrorV::UnexpectedToken(t)),
        }
    }
}

/// The binder list ends at a dot after where it starts.
pub proof fn lemma_p_params(ts: Seq<TokenV>, pos: int, vars: Seq<VariableV>, acc: Seq<VariableV>)
    ensures
        p_params(ts, pos, vars, acc) matches Parsed::Done(_, p) ==> pos < p < ts.len() && ts[p] is Dot,
    decreases ts.len() - pos,
{
    if 0 <= pos < ts.len() && ts[pos] is Letter && pos + 1 < ts.len() && ts[pos + 1] is Comma {
        match find_var(vars, ts[pos]->Letter_0) {
            Some(v) => lemma_p_params(ts, pos + 2, vars, acc.push(v)),
            None => {},
        }
    }
}

/// A term from `pos`: an abstraction when it starts with a lambda, else an
/// application.
pub open spec fn p_term(ts: Seq<TokenV>, pos: int, vars: Seq<VariableV>) -> Parsed<TermV>
    decreases ts.len() - pos, 3nat,
{
    if 0 <= pos < ts.len() && ts[pos] is Lambda {
        p_lambda(ts, pos, vars)
    } else {
        p_app(ts, pos, vars)
    }
}

/// An abstraction from the lambda at `pos`: the binders, the dot, and the
/// body, the binders wrapped around the body from left to right.
pub open spec fn p_lambda(ts: Seq<TokenV>, pos: int, vars: Seq<VariableV>) -> Parsed<TermV>
    decreases ts.len() - pos, 2nat,
{
    match p_params(ts, pos + 1, vars, Seq::empty()) {
        Parsed::Done(params, p2) => {
            proof {
                lemma_p_params(ts, pos + 1, vars, Seq::empty());
            }
            match p_term(ts, p2 + 1, vars) {
                Parsed::Done(body, p3) => Parsed::Done(wrap_abs(params, body), p3),
                Parsed::Failed(e) => Parsed::Failed(e),
                Parsed::Stuck => Parsed::Stuck,
            }
        },
        Parsed::Failed(e) => Parsed::Failed(e),
        Parsed::Stuck => Parsed::Stuck,
    }
}

/// An application from `pos`: an atom, then the atoms that follow, each
/// applied in turn.
pub open spec fn p_app(ts: Seq<TokenV>, pos: int, vars: Seq<VariableV>) -> Parsed<TermV>
    decreases ts.len() - pos, 2nat,
{
    match p_atom(ts, pos, vars) {
        Parsed::Done(f, p1) => if pos < p1 <= ts.len() {
            p_app_rest(ts, p1, vars, f)
        } else {
            Parsed::Stuck
        },
        Parsed::Failed(e) => Parsed::Failed(e),
        Parsed::Stuck => Parsed::Stuck,
    }
}

/// `func` applied to the atoms from `pos` on, as long as a variable or an
/// opening parenthesis follows. Each argument must have the argument type of
/// the function so far, which must be a function type. (An atom always
/// consumes a token: the guard on positions never fails.)
pub open spec fn p_app_rest(ts: Seq<TokenV>, pos: int, vars: Seq<VariableV>, func: TermV) -> Parsed<TermV>
    decreases ts.len() - pos, 1nat,
{
    if 0 <= pos < ts.len() && (ts[pos] is Letter || ts[pos] is LParen) {
        match p_atom(ts, pos, vars) {
            Parsed::Done(arg, p1) => match type_of(func) {
                TypeV::Arrow(i, o) => if *i != type_of(arg) {
                    Parsed::Failed(ParseErrorV::TypeMismatch { expected: *i, found: type_of(arg) })
                } else if pos < p1 <= ts.len() {
                    p_app_rest(ts, p1, vars, TermV::App { func: Box::new(func), arg: Box::new(arg), result_ty: *o })
                } else {
                    Parsed::Stuck
                },
                other => Parsed::Failed(ParseErrorV::ExpectedFunction(other)),
            },
            Parsed::Failed(e) => Parsed::Failed(e),
            Parsed::Stuck => Parsed::Stuck,
        }
    } else {
        Parsed::Done(func, pos)
    }
}

/// An atom at `pos`: a term in parentheses, or a declared variable.
pub open spec fn p_atom(ts: Seq<TokenV>, pos: int, vars: Seq<VariableV>) -> Parsed<TermV>
    decreases ts.len() - pos, 0nat,
{
    if pos < 0 || pos >= ts.len() {
        Parsed::Stuck
    } else {
        match ts[pos] {
            TokenV::LParen => match p_term(ts, pos + 1, vars) {
                Parsed::Done(inner, p2) => if 0 <= p2 < ts.len() && ts[p2] is RParen {
                    Parsed::Done(inner, p2 + 1)
                } else {
                    Parsed::Failed(ParseErrorV::MissingParen)
                },
                Parsed::Failed(e) => Parsed::Failed(e),
                Parsed::Stuck => Parsed::Stuck,
            },
            TokenV::Letter(name) => match find_var(vars, name) {
                Some(v) => Parsed::Done(TermV::Var(v), pos + 1),
                None => Parsed::Failed(ParseErrorV::UnknownVariable(name)),
            },
            t => Parsed::Failed(ParseErrorV::UnexpectedToken(t)),
        }
    }
}

/// Every term read ends after where it starts, within the tokens.
pub proof fn lemma_term_advances(ts: Seq<TokenV>, pos: int, vars: Seq<VariableV>)
    requires
        0 <= pos,
    ensures
        p_term(ts, pos, vars) matches Parsed::Done(_, p) ==> pos < p <= ts.len(),
    decreases ts.len() - pos, 3nat,
{
    if 0 <= pos < ts.len() && ts[pos] is Lambda {
        lemma_lambda_advances(ts, pos, vars);
    } else {
        lemma_app_advances(ts, pos, vars);
    }
}

/// Every abstraction read ends after where it starts.
pub proof fn lemma_lambda_advances(ts: Seq<TokenV>, pos: int, vars: Seq<VariableV>)
    requires
        0 <= pos,
    ensures
        p_lambda(ts, pos, vars) matches Parsed::Done(_, p) ==> pos < p <= ts.len(),
    decreases ts.len() - pos, 2nat,
{
    lemma_p_params(ts, pos + 1, vars, Seq::empty());
    if let Parsed::Done(_, p2) = p_params(ts, pos + 1, vars, Seq::empty()) {
        lemma_term_advances(ts, p2 + 1, vars);
    }
}

/// Every application read ends after where it starts.
pub proof fn lemma_app_advances(ts: Seq<TokenV>, pos: int, vars: Seq<VariableV>)
    requires
        0 <= pos,
    ensures
        p_app(ts, pos, vars) matches Parsed::Done(_, p) ==> pos < p <= ts.len(),
    decreases ts.len() - pos, 2nat,
{
    lemma_atom_advances(ts, pos, vars);
    if let Parsed::Done(f, p1) = p_atom(ts, pos, vars) {
        if pos < p1 <= ts.len() {
            lemma_rest_advances(ts, p1, vars, f);
        }
    }
}

/// Applying to further atoms never moves back.
pub proof fn lemma_rest_advances(ts: Seq<TokenV>, pos: int, vars: Seq<VariableV>, func: TermV)
    requires
        0 <= pos <= ts.len(),
    ensures
        p_app_rest(ts, pos, vars, func) matches Parsed::Done(_, p) ==> pos <= p <= ts.len(),
    decreases ts.len() - pos, 1nat,
{
    if 0 <= pos < ts.len() && (ts[pos] is Letter || ts[pos] is LParen) {
        lemma_atom_advances(ts, pos, vars);
        if let Parsed::Done(arg, p1) = p_atom(ts, pos, vars) {
            if let TypeV::Arrow(i, o) = type_of(func) {
                if pos < p1 <= ts.len() {
                    lemma_rest_advances(ts, p1, vars, TermV::App { func: Box::new(func), arg: Box::new(arg), result_ty: *o });
                }
            }
        }
    }
}

/// Every atom read ends after where it starts.
pub proof fn lemma_atom_advances(ts: Seq<TokenV>, pos: int, vars: Seq<VariableV>)
    requires
        0 <= pos,
    ensures
        p_atom(ts, pos, vars) matches Parsed::Done(_, p) ==> pos < p <= ts.len(),
    decreases ts.len() - pos, 0nat,
{
    if 0 <= pos < ts.len() && ts[pos] is LParen {
        lemma_term_advances(ts, pos + 1, vars);
    }
}

/// The position of the first `?=` from `i` on.
pub open spec fn first_eq(ts: Seq<TokenV>, i: int) -> Option<int>
    decreases ts.len() - i,
{
    if i < 0 || i >= ts.len() {
        None
    } else if ts[i] is Eq {
        Some(i)
    } else {
        first_eq(ts, i + 1)
    }
}

/// A whole side of the constraint: a term that uses up all its tokens.
pub open spec fn p_side(ts: Seq<TokenV>, vars: Seq<VariableV>) -> Option<Result<TermV, ParseErrorV>> {
    match p_term(ts, 0, vars) {
        Parsed::Done(t, p) => if p != ts.len() {
            Some(Err(ParseErrorV::LengthMismatch(p, ts.len() as int)))
        } else {
            Some(Ok(t))
        },
        Parsed::Failed(e) => Some(Err(e)),
        Parsed::Stuck => None,
    }
}

/// The constraint of the tokens: the terms before and after the first `?=`,
/// each using up its tokens, of the same type. `None` where the tokens end
/// where a token must follow.
pub open spec fn p_constraint(ts: Seq<TokenV>, vars: Seq<VariableV>) -> Option<Result<ConstraintV, ParseErrorV>> {
    match first_eq(ts, 0) {
        None => Some(Err(ParseErrorV::MissingEq)),
        Some(k) => match p_side(ts.subrange(0, k), vars) {
            None => None,
            Some(Err(e)) => Some(Err(e)),
            Some(Ok(l)) => match p_side(ts.subrange(k + 1, ts.len() as int), vars) {
                None => None,
                Some(Err(e)) => Some(Err(e)),
                Some(Ok(r)) => if type_of(l) != type_of(r) {
                    Some(Err(ParseErrorV::TypeMismatch { expected: type_of(l), found: type_of(r) }))
                } else {
                    Some(Ok(ConstraintV(l, r)))
                },
            },
        },
    }
}

/// The constraint of a line over the declared variables, or the first
/// error of the tokenizer or the parser. `None` where the line ends where a
/// term, a binder or a separator must follow.
pub open spec fn parse_outcome(input: Seq<char>, vars: Seq<VariableV>) -> Option<Result<ConstraintV, ParseErrorV>> {
    match tokens_from(input, 0) {
        Err(e) => Some(Err(e)),
        Ok(ts) => p_constraint(ts, vars),
    }
}

/// The exec outcome matches the spec outcome of reading from `pos`.
pub open spec fn matches_parsed<T, V>(res: Option<Result<T, ParseError>>, view: spec_fn(T) -> V, p: Parsed<V>, end: int) -> bool {
    match res {
        None => p is Stuck,
        Some(Ok(t)) => p == Parsed::Done(view(t), end),
        Some(Err(e)) => p == Parsed::<V>::Failed(e@),
    }
}

/// The declared variable of the given name.
fn lookup(name: &String, all_vars: &Vec<Variable>) -> (res: Result<Variable, ParseError>)
    ensures
        match res {
            Ok(v) => find_var(all_vars.deep_view(), name@) == Some(v@),
            Err(e) => find_var(all_vars.deep_view(), name@) is None && e@ == ParseErrorV::UnknownVariable(name@),
        },
{
    match get_var(name, all_vars) {
        Some(v) => Ok(v),
        None => Err(ParseError::UnknownVariable(name.clone())),
    }
}

/// Reads the binders of an abstraction up to the dot.
fn parse_params(tokens: &[Token], pos: &mut usize, all_vars: &Vec<Variable>) -> (res: Option<Result<Vec<Variable>, ParseError>>)
    requires
        *old(pos) <= tokens.len(),
    ensures
        matches_parsed(
            res,
            |v: Vec<Variable>| v.deep_view(),
            p_params(tokens.deep_view(), *old(pos) as int, all_vars.deep_view(), Seq::empty()),
            *final(pos) as int,
        ),
        *final(pos) <= tokens.len(),
{
    let ghost ts = tokens.deep_view();
    let ghost vars = all_vars.deep_view();
    let ghost start = *pos as int;
    let mut params: Vec<Variable> = Vec::new();
    assert(params.deep_view() =~= Seq::<VariableV>::empty());
    loop
        invariant
            *pos <= tokens.len(),
            ts == tokens.deep_view(),
            vars == all_vars.deep_view(),
            start == *old(pos),
            p_params(ts, start, vars, Seq::empty()) == p_params(ts, *pos as int, vars, params.deep_view()),
        decreases tokens.len() - *pos,
    {
        let ghost acc = params.deep_view();
        if *pos >= tokens.len() {
            return None;
        }
        assert(ts[*pos as int] == tokens[*pos as int]@);
        match &tokens[*pos] {
            Token::Letter(name) => {
                *pos += 1;
                let var = match lookup(name, all_vars) {
                    Ok(v) => v,
                    Err(e) => {
                        return Some(Err(e));
                    },
                };
                if var.term_kind != TermKind::BVar {
                    return Some(Err(ParseError::UnexpectedKind {
                        name: var.name.clone(),
                        expected: TermKind::BVar,
                        found: var.term_kind,
                    }));
                }
                let ghost vv = var@;
                params.push(var);
                assert(params.deep_view() =~= acc.push(vv));
            },
            other => {
                return Some(Err(ParseError::UnexpectedToken(other.clone())));
            },
        }
        if *pos >= tokens.len() {
            return None;
        }
        assert(ts[*pos as int] == tokens[*pos as int]@);
        match &tokens[*pos] {
            Token::Comma => {
                *pos += 1;
            },
            Token::Dot => {
                return Some(Ok(params));
            },
            other => {
                return Some(Err(ParseError::UnexpectedToken(other.clone())));
            },
        }
    }
}

/// Reads a term: an abstraction when a lambda comes first, else an
/// application.
fn parse_term(tokens: &[Token], pos: &mut usize, all_vars: &Vec<Variable>) -> (res: Option<Result<Term, ParseError>>)
    requires
        *old(pos) <= tokens.len(),
    ensures
        matches_parsed(res, |t: Term| t@, p_term(tokens.deep_view(), *old(pos) as int, all_vars.deep_view()), *final(pos) as int),
        *final(pos) <= tokens.len(),
        res matches Some(Ok(_)) ==> *old(pos) < *final(pos),
    decreases tokens.len() - *old(pos), 3nat,
{
    if *pos < tokens.len() && tokens[*pos].is_lambda() {
        parse_lambda(tokens, pos, all_vars)
    } else {
        parse_application(tokens, pos, all_vars)
    }
}

/// Reads an application: an atom and the atoms that follow, applied in
/// turn, each of the argument type that the function expects.
fn parse_application(tokens: &[Token], pos: &mut usize, all_vars: &Vec<Variable>) -> (res: Option<Result<Term, ParseError>>)
    requires
        *old(pos) <= tokens.len(),
    ensures
        matches_parsed(res, |t: Term| t@, p_app(tokens.deep_view(), *old(pos) as int, all_vars.deep_view()), *final(pos) as int),
        *final(pos) <= tokens.len(),
        res matches Some(Ok(_)) ==> *old(pos) < *final(pos),
    decreases tokens.len() - *old(pos), 2nat,
{
    let ghost ts = tokens.deep_view();
    let ghost vars = all_vars.deep_view();
    let ghost start = *pos as int;
    let mut func = match parse_atom(tokens, pos, all_vars) {
        None => {
            return None;
        },
        Some(Err(e)) => {
            return Some(Err(e));
        },
        Some(Ok(f)) => f,
    };
    loop
        invariant
            start < *pos <= tokens.len(),
            ts == tokens.deep_view(),
            vars == all_vars.deep_view(),
            start == *old(pos),
            p_app(ts, start, vars) == p_app_rest(ts, *pos as int, vars, func@),
        decreases tokens.len() - *pos,
    {
        if !(*pos < tokens.len() && tokens[*pos].starts_atom()) {
            return Some(Ok(func));
        }
        let ghost p0 = *pos as int;
        let arg = match parse_atom(tokens, pos, all_vars) {
            None => {
                return None;
            },
            Some(Err(e)) => {
                return Some(Err(e));
            },
            Some(Ok(a)) => a,
        };
        let f_ty = func.get_type();
        func = match f_ty {
            Type::Arrow(boxed_in, boxed_out) => {
                let in_ty = *boxed_in;
                let out_ty = *boxed_out;
                let a_ty = arg.get_type();
                if !in_ty.equals(&a_ty) {
                    return Some(Err(ParseError::TypeMismatch { expected: in_ty, found: a_ty }));
                }
                Term::App { func: Box::new(func), arg: Box::new(arg), result_ty: out_ty }
            },
            other => {
                return Some(Err(ParseError::ExpectedFunction(other)));
            },
        };
    }
}

/// Reads an atom: a term in parentheses, or a declared variable.
fn parse_atom(tokens: &[Token], pos: &mut usize, all_vars: &Vec<Variable>) -> (res: Option<Result<Term, ParseError>>)
    requires
        *old(pos) <= tokens.len(),
    ensures
        matches_parsed(res, |t: Term| t@, p_atom(tokens.deep_view(), *old(pos) as int, all_vars.deep_view()), *final(pos) as int),
        *final(pos) <= tokens.len(),
        res matches Some(Ok(_)) ==> *old(pos) < *final(pos),
    decreases tokens.len() - *old(pos), 0nat,
{
    let ghost ts = tokens.deep_view();
    if *pos >= tokens.len() {
        return None;
    }
    assert(ts[*pos as int] == tokens[*pos as int]@);
    match &tokens[*pos] {
        Token::LParen => {
            *pos += 1;
            let inner = match parse_term(tokens, pos, all_vars) {
                None => {
                    return None;
                },
                Some(Err(e)) => {
                    return Some(Err(e));
                },
                Some(Ok(t)) => t,
            };
            if !(*pos < tokens.len() && tokens[*pos].is_rparen()) {
                return Some(Err(ParseError::MissingParen));
            }
            *pos += 1;
            Some(Ok(inner))
        },
        Token::Letter(name) => {
            *pos += 1;
            match lookup(name, all_vars) {
                Ok(v) => Some(Ok(Term::Var(v))),
                Err(e) => Some(Err(e)),
            }
        },
        other => Some(Err(ParseError::UnexpectedToken(other.clone()))),
    }
}

/// Reads an abstraction: the lambda, the binders, the dot and the body.
fn parse_lambda(tokens: &[Token], pos: &mut usize, all_vars: &Vec<Variable>) -> (res: Option<Result<Term, ParseError>>)
    requires
        *old(pos) < tokens.len(),
    ensures
        matches_parsed(res, |t: Term| t@, p_lambda(tokens.deep_view(), *old(pos) as int, all_vars.deep_view()), *final(pos) as int),
        *final(pos) <= tokens.len(),
        res matches Some(Ok(_)) ==> *old(pos) < *final(pos),
    decreases tokens.len() - *old(pos), 2nat,
{
    let ghost ts = tokens.deep_view();
    let ghost start = *pos as int;
    *pos += 1;
    let params = match parse_params(tokens, pos, all_vars) {
        None => {
            return None;
        },
        Some(Err(e)) => {
            return Some(Err(e));
        },
        Some(Ok(ps)) => ps,
    };
    proof {
        lemma_p_params(ts, start + 1, all_vars.deep_view(), Seq::empty());
    }
    if !(*pos < tokens.len() && tokens[*pos].is_dot()) {
        return Some(Err(ParseError::UnexpectedToken(Token::Dot)));
    }
    *pos += 1;
    let body = match parse_term(tokens, pos, all_vars) {
        None => {
            return None;
        },
        Some(Err(e)) => {
            return Some(Err(e));
        },
        Some(Ok(b)) => b,
    };
    Some(Ok(wrap_with_abstractions(&body, &params)))
}

/// The position of the first `?=`.
fn find_eq(tokens: &Vec<Token>) -> (res: Option<usize>)
    ensures
        match res {
            Some(k) => first_eq(tokens.deep_view(), 0) == Some(k as int) && k < tokens.len(),
            None => first_eq(tokens.deep_view(), 0) is None,
        },
{
    let mut i: usize = 0;
    while i < tokens.len()
        invariant
            i <= tokens.len(),
            first_eq(tokens.deep_view(), 0) == first_eq(tokens.deep_view(), i as int),
        decreases tokens.len() - i,
    {
        assert(tokens.deep_view()[i as int] == tokens[i as int]@);
        if tokens[i].is_eq() {
            return Some(i);
        }
        i += 1;
    }
    None
}

/// Reads one side of the constraint, which must use up its tokens.
fn parse_side(tokens: &[Token], all_vars: &Vec<Variable>) -> (res: Option<Result<Term, ParseError>>)
    ensures
        match res {
            None => p_side(tokens.deep_view(), all_vars.deep_view()) is None,
            Some(Ok(t)) => p_side(tokens.deep_view(), all_vars.deep_view()) == Some(Ok::<TermV, ParseErrorV>(t@)),
            Some(Err(e)) => p_side(tokens.deep_view(), all_vars.deep_view()) == Some(Err::<TermV, ParseErrorV>(e@)),
        },
{
    let mut pos: usize = 0;
    let t = match parse_term(tokens, &mut pos, all_vars) {
        None => {
            return None;
        },
        Some(Err(e)) => {
            return Some(Err(e));
        },
        Some(Ok(t)) => t,
    };
    if pos != tokens.len() {
        return Some(Err(ParseError::LengthMismatch((pos, tokens.len()))));
    }
    Some(Ok(t))
}

/// Reads the constraint of a list of tokens.
fn parse_constraint(tokens: &Vec<Token>, all_vars: &Vec<Variable>) -> (res: Option<Result<Constraint, ParseError>>)
    ensures
        match res {
            None => p_constraint(tokens.deep_view(), all_vars.deep_view()) is None,
            Some(Ok(c)) => p_constraint(tokens.deep_view(), all_vars.deep_view()) == Some(Ok::<ConstraintV, ParseErrorV>(c@)),
            Some(Err(e)) => p_constraint(tokens.deep_view(), all_vars.deep_view()) == Some(Err::<ConstraintV, ParseErrorV>(e@)),
        },
{
    let eq_pos = match find_eq(tokens) {
        Some(k) => k,
        None => {
            return Some(Err(ParseError::MissingEq));
        },
    };
    let left_tokens = slice_subrange(tokens.as_slice(), 0, eq_pos);
    let right_tokens = slice_subrange(tokens.as_slice(), eq_pos + 1, tokens.len());
    assert(left_tokens.deep_view() =~= tokens.deep_view().subrange(0, eq_pos as int));
    assert(right_tokens.deep_view() =~= tokens.deep_view().subrange(eq_pos + 1, tokens.len() as int));
    let left = match parse_side(left_tokens, all_vars) {
        None => {
            return None;
        },
        Some(Err(e)) => {
            return Some(Err(e));
        },
        Some(Ok(t)) => t,
    };
    let right = match parse_side(right_tokens, all_vars) {
        None => {
            return None;
        },
        Some(Err(e)) => {
            return Some(Err(e));
        },
        Some(Ok(t)) => t,
    };
    let left_ty = left.get_type();
    let right_ty = right.get_type();
    if !left_ty.equals(&right_ty) {
        return Some(Err(ParseError::TypeMismatch { expected: left_ty, found: right_ty }));
    }
    Some(Ok(Constraint(left, right)))
}

/// Reads a line, telling apart the lines where the reading runs off the end
/// of the tokens where a token must follow (`None`).
pub fn parse_checked(input: &str, all_vars: &Vec<Variable>) -> (res: Option<Result<Constraint, ParseError>>)
    ensures
        match res {
            None => parse_outcome(input@, all_vars.deep_view()) is None,
            Some(Ok(c)) => parse_outcome(input@, all_vars.deep_view()) == Some(Ok::<ConstraintV, ParseErrorV>(c@)),
            Some(Err(e)) => parse_outcome(input@, all_vars.deep_view()) == Some(Err::<ConstraintV, ParseErrorV>(e@)),
        },
{
    if outcome_known(input, all_vars) {
        Some(parse(input, all_vars))
    } else {
        None
    }
}

/// Whether reading the line ends with a constraint or an error.
fn outcome_known(input: &str, all_vars: &Vec<Variable>) -> (res: bool)
    ensures
        res == (parse_outcome(input@, all_vars.deep_view()) is Some),
{
    match tokenize(input) {
        Err(_) => true,
        Ok(tokens) => parse_constraint(&tokens, all_vars).is_some(),
    }
}

/// Reads a constraint `lhs ?= rhs` over the declared variables: the
/// tokens, the terms before and after the first `?=` (each using up its
/// tokens), and their types, which must agree.
pub fn parse(input: &str, all_vars: &Vec<Variable>) -> (res: Result<Constraint, ParseError>)
    requires
        parse_outcome(input@, all_vars.deep_view()) is Some,
    ensures
        match res {
            Ok(c) => parse_outcome(input@, all_vars.deep_view()) == Some(Ok::<ConstraintV, ParseErrorV>(c@)),
            Err(e) => parse_outcome(input@, all_vars.deep_view()) == Some(Err::<ConstraintV, ParseErrorV>(e@)),
        },
{
    let tokens = match tokenize(input) {
        Ok(ts) => ts,
        Err(e) => {
            return Err(e);
        },
    };
    match parse_constraint(&tokens, all_vars) {
        Some(r) => r,
        None => unreached(),
    }
}

/// The message of an error.
pub open spec fn error_text(e: ParseErrorV) -> Seq<char> {
    match e {
        ParseErrorV::InvalidCharacter(i, c) => "Ungültiges Zeichen '"@ + seq![c] + "' an Position "@ + decimal(i as nat),
        ParseErrorV::MissingEq => "Fehlender Operator '?='"@,
        ParseErrorV::MissingParen => "')' erwartet"@,
        ParseErrorV::UnexpectedToken(t) => "Unerwartetes Token: "@ + token_debug(t),
        ParseErrorV::LengthMismatch(got, exp) => "Nicht alle Tokens verbraucht (parsed "@ + decimal(got as nat) + ", erwartet "@
            + decimal(exp as nat) + ")"@,
        ParseErrorV::UnknownVariable(n) => "Variable '"@ + n + "' nicht gefunden"@,
        ParseErrorV::ExpectedFunction(t) => "Erwartet Pfeil‐Typ, gefunden "@ + type_debug(t),
        ParseErrorV::TypeMismatch { expected, found } => "Typfehler: erwartet "@ + type_debug(expected) + ", gefunden "@
            + type_debug(found),
        ParseErrorV::UnexpectedKind { name, expected, found } => "Ungültiger TermKind für '"@ + name + "': erwartet "@
            + kind_name(expected) + ", gefunden "@ + kind_name(found),
        ParseErrorV::JsonError(m) => "JSON‐Fehler: "@ + m,
    }
}

impl ParseError {
    /// The message of this error.
    pub fn to_string(&self) -> (res: String)
        ensures
            res@ == error_text(self@),
    {
        match self {
            ParseError::InvalidCharacter((i, c)) => {
                let mut s = String::from_str("Ungültiges Zeichen '");
                let cs = char_string(*c);
                s.append(cs.as_str());
                s.append("' an Position ");
                let n = usize_to_string(*i);
                s.append(n.as_str());
                s
            },
            ParseError::MissingEq => String::from_str("Fehlender Operator '?='"),
            ParseError::MissingParen => String::from_str("')' erwartet"),
            ParseError::UnexpectedToken(t) => {
                let mut s = String::from_str("Unerwartetes Token: ");
                let d = t.debug_text();
                s.append(d.as_str());
                s
            },
            ParseError::LengthMismatch((got, exp)) => {
                let mut s = String::from_str("Nicht alle Tokens verbraucht (parsed ");
                let g = usize_to_string(*got);
                s.append(g.as_str());
                s.append(", erwartet ");
                let e = usize_to_string(*exp);
                s.append(e.as_str());
                s.append(")");
                s
            },
            ParseError::UnknownVariable(n) => {
                let mut s = String::from_str("Variable '");
                s.append(n.as_str());
                s.append("' nicht gefunden");
                s
            },
            ParseError::ExpectedFunction(t) => {
                let mut s = String::from_str("Erwartet Pfeil‐Typ, gefunden ");
                let d = t.debug_text();
                s.append(d.as_str());
                s
            },
            ParseError::TypeMismatch { expected, found } => {
                let mut s = String::from_str("Typfehler: erwartet ");
                let a = expected.debug_text();
                s.append(a.as_str());
                s.append(", gefunden ");
                let b = found.debug_text();
                s.append(b.as_str());
                s
            },
            ParseError::UnexpectedKind { name, expected, found } => {
                let mut s = String::from_str("Ungültiger TermKind für '");
                s.append(name.as_str());
                s.append("': erwartet ");
                let a = expected.name();
                s.append(a.as_str());
                s.append(", gefunden ");
                let b = found.name();
                s.append(b.as_str());
                s
            },
            ParseError::JsonError(m) => {
                let mut s = String::from_str("JSON‐Fehler: ");
                s.append(m.as_str());
                s
            },
        }
    }
}

/// A constraint read from a line has two sides of the same type.
pub proof fn law_parsed_sides_agree(input: Seq<char>, vars: Seq<VariableV>)
    ensures
        parse_outcome(input, vars) matches Some(Ok(c)) ==> type_of(c.0) == type_of(c.1),
{
}

/// Abstractions around a well-typed body are well typed.
pub proof fn lemma_wrap_well_typed(bs: Seq<VariableV>, body: TermV)
    requires
        well_typed(body),
    ensures
        well_typed(wrap_abs(bs, body)),
    decreases bs.len(),
{
    if bs.len() > 0 {
        lemma_wrap_well_typed(bs.drop_first(), body);
    }
}

proof fn lemma_term_typed(ts: Seq<TokenV>, pos: int, vars: Seq<VariableV>)
    ensures
        p_term(ts, pos, vars) matches Parsed::Done(t, _) ==> well_typed(t),
    decreases ts.len() - pos, 3nat,
{
    if 0 <= pos < ts.len() && ts[pos] is Lambda {
        lemma_lambda_typed(ts, pos, vars);
    } else {
        lemma_app_typed(ts, pos, vars);
    }
}

proof fn lemma_lambda_typed(ts: Seq<TokenV>, pos: int, vars: Seq<VariableV>)
    ensures
        p_lambda(ts, pos, vars) matches Parsed::Done(t, _) ==> well_typed(t),
    decreases ts.len() - pos, 2nat,
{
    lemma_p_params(ts, pos + 1, vars, Seq::empty());
    if let Parsed::Done(params, p2) = p_params(ts, pos + 1, vars, Seq::empty()) {
        lemma_term_typed(ts, p2 + 1, vars);
        if let Parsed::Done(body, _) = p_term(ts, p2 + 1, vars) {
            lemma_wrap_well_typed(params, body);
        }
    }
}

proof fn lemma_app_typed(ts: Seq<TokenV>, pos: int, vars: Seq<VariableV>)
    ensures
        p_app(ts, pos, vars) matches Parsed::Done(t, _) ==> well_typed(t),
    decreases ts.len() - pos, 2nat,
{
    lemma_atom_typed(ts, pos, vars);
    if let Parsed::Done(f, p1) = p_atom(ts, pos, vars) {
        if pos < p1 <= ts.len() {
            lemma_rest_typed(ts, p1, vars, f);
        }
    }
}

proof fn lemma_rest_typed(ts: Seq<TokenV>, pos: int, vars: Seq<VariableV>, func: TermV)
    requires
        well_typed(func),
    ensures
        p_app_rest(ts, pos, vars, func) matches Parsed::Done(t, _) ==> well_typed(t),
    decreases ts.len() - pos, 1nat,
{
    if 0 <= pos < ts.len() && (ts[pos] is Letter || ts[pos] is LParen) {
        lemma_atom_typed(ts, pos, vars);
        if let Parsed::Done(arg, p1) = p_atom(ts, pos, vars) {
            if let TypeV::Arrow(i, o) = type_of(func) {
                if *i == type_of(arg) && pos < p1 <= ts.len() {
                    let app = TermV::App { func: Box::new(func), arg: Box::new(arg), result_ty: *o };
                    assert(well_typed(app));
                    lemma_rest_typed(ts, p1, vars, app);
                }
            }
        }
    }
}

proof fn lemma_atom_typed(ts: Seq<TokenV>, pos: int, vars: Seq<VariableV>)
    ensures
        p_atom(ts, pos, vars) matches Parsed::Done(t, _) ==> well_typed(t),
    decreases ts.len() - pos, 0nat,
{
    if 0 <= pos < ts.len() && ts[pos] is LParen {
        lemma_term_typed(ts, pos + 1, vars);
    }
}

/// Every application in a constraint read from a line applies a function
/// to an argument of its argument type: the parser checks the types.
pub proof fn law_parsed_terms_well_typed(input: Seq<char>, vars: Seq<VariableV>)
    ensures
        parse_outcome(input, vars) matches Some(Ok(c)) ==> well_typed(c.0) && well_typed(c.1),
{
    if let Ok(ts) = tokens_from(input, 0) {
        if let Some(k) = first_eq(ts, 0) {
            lemma_term_typed(ts.subrange(0, k), 0, vars);
            lemma_term_typed(ts.subrange(k + 1, ts.len() as int), 0, vars);
        }
    }
}

} // verus!
