use ho_unify::alpha::alpha_rename;
use ho_unify::counter::{BindingCounts, BindingKind, Config};
use ho_unify::names::FreshNameGen;
use ho_unify::parser::parser::parse;
use ho_unify::parser::tokenize::tokenize;
use ho_unify::term::{Constraint, Term, TermKind, Type, Var, Variable};
use ho_unify::tree::{unify_stream, Dovetail, PersistentSubst, State, Step};
use ho_unify::unification::decompose::is_decomposable;
use ho_unify::unification::fail::is_fail;

fn var(name: &str, kind: TermKind, ty: Type) -> Variable {
    Variable { name: name.to_string(), term_kind: kind, ty, var: Var::Basic }
}

fn arrow(a: Type, b: Type) -> Type {
    Type::Arrow(Box::new(a), Box::new(b))
}

fn declared() -> Vec<Variable> {
    vec![
        var("F", TermKind::FVar, arrow(Type::Nat, Type::Nat)),
        var("G", TermKind::FVar, arrow(Type::Nat, Type::Nat)),
        var("g", TermKind::Const, arrow(Type::Nat, Type::Nat)),
        var("a", TermKind::Const, Type::Nat),
        var("b", TermKind::Const, Type::Nat),
        var("x", TermKind::BVar, Type::Nat),
    ]
}

fn c(line: &str) -> Constraint {
    parse(line, &declared()).unwrap()
}

#[test]
fn clashes_do_not_depend_on_the_side() {
    for line in ["a ?= b", "g a ?= a", "g a ?= g b", "F a ?= b"] {
        let k = c(line);
        assert_eq!(is_fail(&k.0, &k.1), is_fail(&k.1, &k.0), "{}", line);
    }
}

#[test]
fn decomposability_does_not_depend_on_the_side_and_holds_of_equal_terms() {
    for line in ["g a ?= g b", "g a ?= a", "F a ?= g a"] {
        let k = c(line);
        assert_eq!(is_decomposable(&k.0, &k.1), is_decomposable(&k.1, &k.0), "{}", line);
        assert!(is_decomposable(&k.0, &k.0));
    }
}

#[test]
fn every_solution_is_solved() {
    for line in ["F a ?= g a", "F a ?= G a", "F (g a) ?= g (F a)", "a ?= b"] {
        let sols = unify_stream(&State::new(vec![c(line)]), &Config::default());
        for s in &sols {
            assert!(s.constraints.is_empty() && !s.failed, "{}", line);
        }
    }
}

#[test]
fn the_round_robin_yields_every_state_once() {
    let mk = |n: &str| State {
        constraints: vec![],
        subst: PersistentSubst::new().push(n.to_string(), c("a ?= a").0),
        failed: false,
        binding_counts: BindingCounts::new(),
        parent: None,
        step: Step::Start,
    };
    let mut d = Dovetail::new(vec![vec![mk("A"), mk("B")], vec![mk("C")], vec![], vec![mk("D"), mk("E"), mk("F")]]);
    let mut seen = Vec::new();
    while let Some(s) = d.next() {
        seen.push(s.to_string());
    }
    seen.sort();
    let expect: Vec<String> = ["A", "B", "C", "D", "E", "F"].iter().map(|n| format!("{} ↦ a\n", n)).collect();
    assert_eq!(seen, expect);
}

#[test]
fn parsed_sides_have_the_same_type_and_applications_fit() {
    let k = c("λx. F (g x) ?= λx. g x");
    assert_eq!(k.0.get_type(), k.1.get_type());
    assert!(parse("F ?= a", &declared()).is_err());
}

#[test]
fn renaming_keeps_the_type() {
    let x = var("x", TermKind::BVar, Type::Nat);
    let t = Term::Abs { param: x.clone(), body: Box::new(Term::Abs { param: x.clone(), body: Box::new(Term::Var(x)) }) };
    assert_eq!(alpha_rename(&t).get_type(), t.get_type());
}

#[test]
fn both_lambda_spellings_give_the_same_tokens() {
    for rest in ["x. g x", "x,y. F x", "x.(g x)"] {
        let a = format!("λ{}", rest);
        let b = format!("\\l{}", rest);
        assert_eq!(tokenize(&a), tokenize(&b));
    }
}

#[test]
fn accepted_bindings_stay_within_the_limits() {
    let cfg = Config::default();
    let mut counts = BindingCounts::new();
    for _ in 0..20 {
        if !counts.would_exceed(BindingKind::SimpleProjection, 1, &cfg) {
            counts.add_count(BindingKind::SimpleProjection, 1);
        }
    }
    assert_eq!(counts.simple_proj, 4);
    assert!(counts.total <= cfg.max_total);
}

#[test]
fn a_lookup_after_a_push_sees_the_push() {
    let s = PersistentSubst::new().push("F".to_string(), c("a ?= a").0);
    let t = s.push("G".to_string(), c("b ?= b").0);
    assert_eq!(t.lookup(&"G".to_string()), Some(c("b ?= b").0));
    assert_eq!(t.lookup(&"F".to_string()), Some(c("a ?= a").0));
}

#[test]
fn the_round_robin_is_fair() {
    let mk = |n: &str| State {
        constraints: vec![],
        subst: PersistentSubst::new().push(n.to_string(), c("a ?= a").0),
        failed: false,
        binding_counts: BindingCounts::new(),
        parent: None,
        step: Step::Start,
    };
    let streams = vec![vec![mk("A"), mk("B")], vec![mk("C")], vec![], vec![mk("D"), mk("E"), mk("F")]];
    let k = streams.len();
    let mut d = Dovetail::new(streams);
    let mut seen = Vec::new();
    while let Some(s) = d.next() {
        seen.push(s.to_string());
    }
    assert!(d.next().is_none());
    let at = |n: &str| seen.iter().position(|s| *s == format!("{} ↦ a\n", n)).unwrap();
    assert!(at("A") <= 0 && at("C") <= 1 && at("D") <= 3);
    assert!(at("B") <= k && at("E") <= k + 3);
    assert!(at("F") <= 2 * k + 3);
    assert!(at("D") < at("E") && at("E") < at("F"));
}

#[test]
fn successive_fresh_names_differ() {
    let mut g = FreshNameGen::new(vec!["F1".to_string(), "F2".to_string()]);
    let names: Vec<String> = (0..4).map(|_| g.fresh("F")).collect();
    for (i, n) in names.iter().enumerate() {
        assert!(n != "F1" && n != "F2");
        assert!(names[i + 1..].iter().all(|m| m != n));
        assert!(g.used.contains(n));
    }
}

#[test]
fn fresh_names_differ_across_prefixes() {
    let mut g = FreshNameGen::new(vec!["F1".to_string(), "G2".to_string()]);
    let names: Vec<String> = ["F", "G", "F", "G", "F"].iter().map(|p| g.fresh(p)).collect();
    for (i, n) in names.iter().enumerate() {
        assert!(n != "F1" && n != "G2");
        assert!(names[i + 1..].iter().all(|m| m != n));
    }
}
