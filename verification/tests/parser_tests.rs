use ho_unify::parser::parser::{parse, parse_checked, ParseError};
use ho_unify::parser::tokenize::{tokenize, Token};
use ho_unify::term::{Term, TermKind, Type, Var, Variable};

fn var(name: &str, kind: TermKind, ty: Type) -> Variable {
    Variable { name: name.to_string(), term_kind: kind, ty, var: Var::Basic }
}

fn arrow(a: Type, b: Type) -> Type {
    Type::Arrow(Box::new(a), Box::new(b))
}

fn declared() -> Vec<Variable> {
    vec![
        var("F", TermKind::FVar, arrow(Type::Nat, Type::Nat)),
        var("X", TermKind::FVar, Type::Nat),
        var("g", TermKind::Const, arrow(Type::Nat, Type::Nat)),
        var("a", TermKind::Const, Type::Nat),
        var("p", TermKind::Const, Type::Bool),
        var("x", TermKind::BVar, Type::Nat),
        var("y", TermKind::BVar, Type::Nat),
    ]
}

#[test]
fn tokenize_reads_words_and_symbols() {
    let ts = tokenize("λx,y. F x ?= (g a)").unwrap();
    assert_eq!(
        ts,
        vec![
            Token::Lambda,
            Token::Letter("x".to_string()),
            Token::Comma,
            Token::Letter("y".to_string()),
            Token::Dot,
            Token::Letter("F".to_string()),
            Token::Letter("x".to_string()),
            Token::Eq,
            Token::LParen,
            Token::Letter("g".to_string()),
            Token::Letter("a".to_string()),
            Token::RParen,
        ]
    );
}

#[test]
fn backslash_l_is_a_lambda_too() {
    assert_eq!(tokenize("\\lx. x").unwrap(), tokenize("λx. x").unwrap());
}

#[test]
fn words_run_over_letters_and_digits() {
    let ts = tokenize("F12 ab3c").unwrap();
    assert_eq!(ts, vec![Token::Letter("F12".to_string()), Token::Letter("ab3c".to_string())]);
}

#[test]
fn a_word_continues_over_non_ascii_letters() {
    let ts = tokenize("aé b").unwrap();
    assert_eq!(ts, vec![Token::Letter("aé".to_string()), Token::Letter("b".to_string())]);
}

#[test]
fn tokenize_reports_the_character_position() {
    assert_eq!(tokenize("F ?= a#"), Err(ParseError::InvalidCharacter((6, '#'))));
    assert_eq!(tokenize("F ? a"), Err(ParseError::InvalidCharacter((2, '?'))));
    assert_eq!(tokenize("\\x"), Err(ParseError::InvalidCharacter((0, '\\'))));
    assert_eq!(tokenize("λé"), Err(ParseError::InvalidCharacter((1, 'é'))));
}

#[test]
fn parse_reads_applications_and_abstractions() {
    let vars = declared();
    let c = parse("λx. F x ?= λx. g x", &vars).unwrap();
    assert_eq!(c.to_string(), "λ x. F x ?= λ x. g x");
    let l = &c.0;
    match l {
        Term::Abs { param, body } => {
            assert_eq!(param.name, "x");
            assert_eq!(body.get_type(), Type::Nat);
        }
        _ => panic!("expected an abstraction"),
    }
    assert_eq!(c.0.get_type(), arrow(Type::Nat, Type::Nat));
}

#[test]
fn parse_wraps_several_binders_left_to_right() {
    let vars = declared();
    let c = parse("λx,y. g x ?= λx,y. g y", &vars).unwrap();
    assert_eq!(c.to_string(), "λ x. λ y. g x ?= λ x. λ y. g y");
}

#[test]
fn parse_reads_parentheses() {
    let vars = declared();
    let c = parse("F (g a) ?= g (F a)", &vars).unwrap();
    assert_eq!(c.to_string(), "F (g a) ?= g (F a)");
}

#[test]
fn parse_without_eq_sign_fails() {
    assert_eq!(parse("F a", &declared()), Err(ParseError::MissingEq));
}

#[test]
fn parse_with_open_parenthesis_fails() {
    assert_eq!(parse("(g a ?= a", &declared()), Err(ParseError::MissingParen));
}

#[test]
fn parse_with_unused_tokens_fails() {
    assert_eq!(parse("a ) ?= a", &declared()), Err(ParseError::LengthMismatch((1, 2))));
}

#[test]
fn parse_with_unexpected_token_fails() {
    assert_eq!(parse("λx a ?= a", &declared()), Err(ParseError::UnexpectedToken(Token::Letter("a".to_string()))));
}

#[test]
fn parse_with_unknown_variable_fails() {
    assert_eq!(parse("Z ?= a", &declared()), Err(ParseError::UnknownVariable("Z".to_string())));
}

#[test]
fn parse_applying_a_non_function_fails() {
    assert_eq!(parse("a a ?= a", &declared()), Err(ParseError::ExpectedFunction(Type::Nat)));
}

#[test]
fn parse_with_non_bound_binder_fails() {
    assert_eq!(
        parse("λa. a ?= λx. x", &declared()),
        Err(ParseError::UnexpectedKind { name: "a".to_string(), expected: TermKind::BVar, found: TermKind::Const })
    );
}

#[test]
fn parse_with_wrong_argument_type_fails() {
    assert_eq!(
        parse("g p ?= a", &declared()),
        Err(ParseError::TypeMismatch { expected: Type::Nat, found: Type::Bool })
    );
}

#[test]
fn parse_with_sides_of_different_types_fails() {
    assert_eq!(
        parse("a ?= p", &declared()),
        Err(ParseError::TypeMismatch { expected: Type::Nat, found: Type::Bool })
    );
}

#[test]
fn parse_checked_tells_a_missing_term() {
    assert!(parse_checked("F ?=", &declared()).is_none());
    assert!(parse_checked("λx, ?= a", &declared()).is_none());
    assert_eq!(parse_checked("λx,", &declared()), Some(Err(ParseError::MissingEq)));
    assert_eq!(parse_checked("a ?= a", &declared()).map(|r| r.is_ok()), Some(true));
    assert_eq!(parse_checked("a ?= Z", &declared()), Some(Err(ParseError::UnknownVariable("Z".to_string()))));
}

#[test]
fn parse_errors_have_messages() {
    assert_eq!(ParseError::InvalidCharacter((3, '#')).to_string(), "Ungültiges Zeichen '#' an Position 3");
    assert_eq!(ParseError::MissingEq.to_string(), "Fehlender Operator '?='");
    assert_eq!(ParseError::MissingParen.to_string(), "')' erwartet");
    assert_eq!(ParseError::LengthMismatch((1, 2)).to_string(), "Nicht alle Tokens verbraucht (parsed 1, erwartet 2)");
    assert_eq!(ParseError::UnexpectedToken(Token::Letter("a".to_string())).to_string(), "Unerwartetes Token: Letter(\"a\")");
    assert_eq!(ParseError::UnexpectedToken(Token::Dot).to_string(), "Unerwartetes Token: Dot");
    assert_eq!(ParseError::UnknownVariable("Z".to_string()).to_string(), "Variable 'Z' nicht gefunden");
    assert_eq!(ParseError::ExpectedFunction(Type::Nat).to_string(), "Erwartet Pfeil‐Typ, gefunden Nat");
    assert_eq!(
        ParseError::TypeMismatch { expected: arrow(Type::Nat, Type::Bool), found: Type::Custom("T".to_string()) }.to_string(),
        "Typfehler: erwartet Arrow(Nat, Bool), gefunden Custom(\"T\")"
    );
    assert_eq!(
        ParseError::UnexpectedKind { name: "a".to_string(), expected: TermKind::BVar, found: TermKind::Const }.to_string(),
        "Ungültiger TermKind für 'a': erwartet BVar, gefunden Const"
    );
    assert_eq!(ParseError::JsonError("kaputt".to_string()).to_string(), "JSON‐Fehler: kaputt");
}

#[test]
fn a_lambda_right_after_a_word_is_still_a_lambda() {
    let ts = tokenize("xλy. y").unwrap();
    assert_eq!(ts, tokenize("x\\ly. y").unwrap());
    assert_eq!(ts[0], Token::Letter("x".to_string()));
    assert_eq!(ts[1], Token::Lambda);
}

#[test]
fn whitespace_only_separates_tokens() {
    let a = "λx. F x";
    let b = "?= g a";
    let mut both = tokenize(a).unwrap();
    both.extend(tokenize(b).unwrap());
    assert_eq!(tokenize(&format!("{} {}", a, b)).unwrap(), both);
    assert_eq!(tokenize(&format!("{}\u{3000}{}", a, b)).unwrap(), both);
}

#[test]
fn every_lambda_may_be_respelled() {
    let s = "λx,y. (λz. F z) xλw. w ?= y";
    assert_eq!(tokenize(s), tokenize(&s.replace('λ', "\\l")));
}
