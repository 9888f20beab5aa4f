use ho_unify::counter::Config;
use ho_unify::parser::parser::parse;
use ho_unify::report::solution_report;
use ho_unify::term::{Constraint, TermKind, Type, Var, Variable};
use ho_unify::tree::{unify_stream, unify_stream_within, State};
use ho_unify::unification::{apply_unify_rules, apply_unify_rules_within};

fn var(name: &str, kind: TermKind, ty: Type) -> Variable {
    Variable { name: name.to_string(), term_kind: kind, ty, var: Var::Basic }
}

fn arrow(a: Type, b: Type) -> Type {
    Type::Arrow(Box::new(a), Box::new(b))
}

fn declared() -> Vec<Variable> {
    vec![
        var("F", TermKind::FVar, Type::Nat),
        var("G", TermKind::FVar, arrow(Type::Nat, Type::Nat)),
        var("H", TermKind::FVar, arrow(Type::Nat, Type::Nat)),
        var("a", TermKind::Const, Type::Nat),
        var("b", TermKind::Const, Type::Nat),
        var("g", TermKind::Const, arrow(Type::Nat, Type::Nat)),
        var("x", TermKind::BVar, Type::Nat),
    ]
}

fn solve(line: &str) -> Vec<State> {
    let vars = declared();
    let c: Constraint = parse(line, &vars).expect("parses");
    let start = State::new(vec![c]);
    unify_stream(&start, &Config::default())
}

#[test]
fn free_variable_against_constant_is_bound_to_it() {
    let sols = solve("F ?= a");
    assert!(!sols.is_empty());
    let texts: Vec<String> = sols.iter().map(|s| s.to_string()).collect();
    assert!(texts.iter().any(|t| t == "F ↦ a\n"), "{:?}", texts);
}

#[test]
fn different_constants_have_no_solution() {
    let sols = solve("a ?= b");
    assert!(sols.is_empty());
    let report = solution_report(&sols);
    assert_eq!(report.len(), 1);
    assert_eq!(report[0].text, "Es konnten keine Lösungen gefunden werden");
    assert!(report[0].console);
}

#[test]
fn equal_constants_are_solved_without_bindings() {
    let sols = solve("a ?= a");
    assert_eq!(sols.len(), 1);
    assert_eq!(sols[0].to_string(), "");
}

#[test]
fn flex_rigid_application_is_solved() {
    let sols = solve("G a ?= g a");
    assert!(!sols.is_empty());
    for s in &sols {
        assert!(s.constraints.is_empty());
        assert!(!s.failed);
    }
    let texts: Vec<String> = sols.iter().map(|s| s.to_string()).collect();
    println!("{:?}", texts);
}

#[test]
fn the_checked_search_agrees_with_the_search_when_it_ends() {
    let vars = declared();
    for line in ["F ?= a", "G a ?= g a", "λx. G x ?= λx. g (H x)"] {
        let start = State::new(vec![parse(line, &vars).unwrap()]);
        let full: Vec<String> = unify_stream(&start, &Config::default()).iter().map(|s| s.to_string()).collect();
        let within = unify_stream_within(&start, &Config::default(), 64, 64).expect("ends within the budget");
        let within: Vec<String> = within.iter().map(|s| s.to_string()).collect();
        assert_eq!(full, within);
        assert!(unify_stream_within(&start, &Config::default(), 0, 64).is_none());
    }
}

#[test]
fn the_checked_rules_agree_with_the_rules() {
    let vars = declared();
    let c = parse("G a ?= g a", &vars).unwrap();
    let st = State::new(vec![]);
    let a: Vec<String> = apply_unify_rules(c.clone(), &st, &Config::default()).iter().map(|s| s.to_string()).collect();
    let b: Vec<String> = apply_unify_rules_within(c, &st, &Config::default(), 8).unwrap().iter().map(|s| s.to_string()).collect();
    assert_eq!(a, b);
}
