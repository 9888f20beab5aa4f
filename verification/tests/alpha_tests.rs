use ho_unify::alpha::{alpha_rename, alpha_rename_checked, AlphaRenamer};
use ho_unify::annotated::{parse, parse_checked, ParseError, Token};
use ho_unify::term::{Term, TermKind, Type, Var, Variable};

fn var(name: &str, kind: TermKind, ty: Type) -> Variable {
    Variable { name: name.to_string(), term_kind: kind, ty, var: Var::Basic }
}

fn abs(p: Variable, body: Term) -> Term {
    Term::Abs { param: p, body: Box::new(body) }
}

#[test]
fn binders_clashing_with_free_symbols_get_fresh_letters() {
    let x = var("x", TermKind::BVar, Type::Nat);
    let free_x = Term::Var(var("x", TermKind::Const, Type::Nat));
    let t = Term::App {
        func: Box::new(abs(x.clone(), Term::Var(x.clone()))),
        arg: Box::new(free_x),
        result_ty: Type::Nat,
    };
    let r = alpha_rename(&t);
    assert_eq!(r.to_string(), "λ a. a x");
    assert_eq!(r.get_type(), t.get_type());
}

#[test]
fn binders_without_clash_keep_their_names() {
    let x = var("x", TermKind::BVar, Type::Nat);
    let t = abs(x.clone(), Term::Var(x));
    assert_eq!(alpha_rename(&t).to_string(), "λ x. x");
}

#[test]
fn nested_binders_of_the_same_name_are_renamed_apart() {
    let x = var("x", TermKind::BVar, Type::Nat);
    let t = abs(x.clone(), abs(x.clone(), Term::Var(x)));
    assert_eq!(alpha_rename(&t).to_string(), "λ x. λ a. a");
}

#[test]
fn the_renamer_tracks_used_names() {
    let t = Term::Var(var("F", TermKind::FVar, Type::Nat));
    let mut r = AlphaRenamer::new(&t);
    assert!(r.get_used_names().contains(&"F".to_string()));
    r.add_used_name("G".to_string());
    assert!(r.get_used_names().contains(&"G".to_string()));
    r.remove_used_name("F");
    assert!(!r.get_used_names().contains(&"F".to_string()));
    assert_eq!(r.alpha_rename(&t).to_string(), "F");
}

#[test]
fn renaming_fails_when_the_alphabet_runs_out() {
    let mut t = Term::Var(var("x", TermKind::BVar, Type::Nat));
    for _ in 0..30 {
        t = abs(var("x", TermKind::BVar, Type::Nat), t);
    }
    assert!(alpha_rename_checked(&t).is_none());
}

#[test]
fn annotated_constraints_are_read() {
    let c = parse("F:Nat ?= a:Nat").unwrap();
    assert_eq!(c.to_string(), "F ?= a");
    assert_eq!(c.0.get_termkind(), TermKind::FVar);
    assert_eq!(c.1.get_termkind(), TermKind::BVar);
    let d = parse("/lx:Nat. (g:Nat->Nat) (x:Nat) ?= λx:Nat. (x:Nat)").unwrap();
    assert_eq!(d.to_string(), "λ x. g x ?= λ x. x");
    assert_eq!(d.0.get_type(), Type::Arrow(Box::new(Type::Nat), Box::new(Type::Nat)));
    let e = parse("h:Int ?= h:Int").unwrap();
    assert_eq!(e.0.get_type(), Type::Custom("Int".to_string()));
    assert_eq!(e.0.get_termkind(), TermKind::Const);
}

#[test]
fn annotated_errors_are_reported() {
    assert_eq!(parse("   "), Err(ParseError::EmptyExpression));
    assert_eq!(parse("F:Nat # a:Nat"), Err(ParseError::InvalidCharacter((6, '#'))));
    assert_eq!(parse("F:Nat"), Err(ParseError::MissingEq));
    assert_eq!(parse("(F:Nat ?= a:Nat"), Err(ParseError::MissingParem));
    assert_eq!(parse("F:Nat (a:Nat) ?= a:Nat"), Err(ParseError::InvalidExpression));
    assert_eq!(parse("F:Nat a:Nat ?= a:Nat"), Err(ParseError::UnexpectedToken(Token::Letter('N'))));
    assert_eq!(parse("F:Foo ?= a:Nat"), Err(ParseError::UnexpectedToken(Token::Letter('F'))));
    assert_eq!(parse("λx:Nat ?= a:Nat"), Err(ParseError::UnexpectedEnd));
    assert_eq!(parse("F:Nat ) ?= a:Nat"), Err(ParseError::LengthWrong((5, 5))));
    assert!(parse_checked("F ?= a:Nat").is_none());
}

#[test]
fn annotated_errors_have_messages() {
    assert_eq!(ParseError::InvalidCharacter((2, '#')).to_string(), "Ungültiges Zeichen '#' bei 2");
    assert_eq!(ParseError::UnexpectedToken(Token::Letter('x')).to_string(), "Unerwartetes Token: Letter('x')");
    assert_eq!(ParseError::LengthWrong((1, 2)).to_string(), "Term wurde nicht komplett umgewandelt. Erwartete Länge: '1' Aktuelle Länge: '2'");
    assert_eq!(ParseError::MissingEq.to_string(), "Es konnte nur 1 Term gefunden werden. '?='  fehlt");
}

#[test]
fn leaving_a_binder_restores_the_outer_renaming() {
    let x = var("x", TermKind::BVar, Type::Nat);
    let free_x = Term::Var(var("x", TermKind::FVar, Type::Nat));
    let inner = Term::App {
        func: Box::new(abs(x.clone(), Term::Var(x.clone()))),
        arg: Box::new(Term::Var(x.clone())),
        result_ty: Type::Nat,
    };
    let t = Term::App { func: Box::new(abs(x.clone(), inner)), arg: Box::new(free_x.clone()), result_ty: Type::Nat };
    let a = var("a", TermKind::BVar, Type::Nat);
    let b = var("b", TermKind::BVar, Type::Nat);
    let expected_inner = Term::App {
        func: Box::new(abs(b.clone(), Term::Var(b))),
        arg: Box::new(Term::Var(a.clone())),
        result_ty: Type::Nat,
    };
    let expected = Term::App { func: Box::new(abs(a, expected_inner)), arg: Box::new(free_x), result_ty: Type::Nat };
    let mut r = AlphaRenamer::new(&t);
    assert_eq!(r.alpha_rename(&t), expected);
}

#[test]
fn free_names_stay_taken_under_a_binder_of_the_same_name() {
    let x = var("x", TermKind::BVar, Type::Nat);
    let t = abs(x, Term::Var(var("x", TermKind::FVar, Type::Nat)));
    let r = AlphaRenamer::new(&t);
    assert!(r.get_used_names().contains(&"x".to_string()));
    assert_eq!(r.get_used_names().names.len(), 1);
}
