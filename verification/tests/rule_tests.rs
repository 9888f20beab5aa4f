use ho_unify::counter::{try_binding, BindingKind, Config};
use ho_unify::parser::parser::parse;
use ho_unify::term::{Constraint, Term, TermKind, Type, Var, Variable};
use ho_unify::tree::{PersistentSubst, State, Step};
use ho_unify::unification::apply_unify_rules;
use ho_unify::unification::bind::{apply_bind, is_bindable};
use ho_unify::unification::decompose::{apply_decompose, is_decomposable};
use ho_unify::unification::delete::{apply_delete, is_deletable};
use ho_unify::unification::dereference::{apply_dereference, is_dereference};
use ho_unify::unification::elimination::{apply_elimination, combinations};
use ho_unify::unification::fail::{apply_fail, is_fail};
use ho_unify::unification::hs_projection::apply_hs_projection;
use ho_unify::unification::identification::apply_identification;
use ho_unify::unification::imitation::{apply_imitation, is_imitationable};
use ho_unify::unification::normalize_an::{apply_normalize_an, is_normalizable_an};
use ho_unify::unification::normalize_beta::{apply_normalize_beta, apply_normalize_beta_within, is_normalizable_beta};
use ho_unify::unification::oracle::oracle;
use ho_unify::utils::{collect_lambdas, flatten_hnf, wrap_with_abstractions};

fn var(name: &str, kind: TermKind, ty: Type) -> Variable {
    Variable { name: name.to_string(), term_kind: kind, ty, var: Var::Basic }
}

fn arrow(a: Type, b: Type) -> Type {
    Type::Arrow(Box::new(a), Box::new(b))
}

fn declared() -> Vec<Variable> {
    vec![
        var("F", TermKind::FVar, arrow(Type::Nat, Type::Nat)),
        var("G", TermKind::FVar, arrow(Type::Nat, Type::Nat)),
        var("X", TermKind::FVar, Type::Nat),
        var("g", TermKind::Const, arrow(Type::Nat, Type::Nat)),
        var("k", TermKind::Const, arrow(Type::Nat, arrow(Type::Nat, Type::Nat))),
        var("a", TermKind::Const, Type::Nat),
        var("b", TermKind::Const, Type::Nat),
        var("x", TermKind::BVar, Type::Nat),
        var("y", TermKind::BVar, Type::Nat),
    ]
}

fn c(line: &str) -> Constraint {
    parse(line, &declared()).unwrap()
}

fn start(cn: &Constraint) -> State {
    State::new(vec![cn.clone()])
}

fn texts(states: &Vec<State>) -> Vec<String> {
    states.iter().map(|s| s.constraints.iter().map(|c| c.to_string()).collect::<Vec<_>>().join("; ")).collect()
}

#[test]
fn delete_drops_a_trivial_constraint() {
    let k = c("g a ?= g a");
    assert!(is_deletable(&k.0, &k.1));
    let out = apply_delete(&start(&k));
    assert_eq!(out.len(), 1);
    assert!(out[0].is_solved());
    assert_eq!(out[0].step, Step::Delete);
}

#[test]
fn fail_needs_different_rigid_heads() {
    let k = c("a ?= b");
    assert!(is_fail(&k.0, &k.1));
    let same = c("g a ?= g b");
    assert!(!is_fail(&same.0, &same.1));
    let out = apply_fail();
    assert_eq!(out.len(), 1);
    assert!(out[0].failed);
}

#[test]
fn decompose_pairs_the_arguments() {
    let k = c("k a b ?= k b a");
    assert!(is_decomposable(&k.0, &k.1));
    let out = apply_decompose(k.clone(), &start(&k));
    assert_eq!(texts(&out), vec!["a ?= b; b ?= a".to_string()]);
}

#[test]
fn dereference_replaces_a_bound_head() {
    let k = c("F a ?= g a");
    let st = State::new(vec![k.clone()]);
    let bound = st.with_subst_and_count(vec![k.clone()], PersistentSubst::new().push("F".to_string(), Term::Var(var("g", TermKind::Const, arrow(Type::Nat, Type::Nat)))), Step::Start);
    assert!(is_dereference(&k.0, &k.1, &bound));
    assert!(!is_dereference(&k.0, &k.1, &st));
    let out = apply_dereference(k, &bound);
    assert_eq!(texts(&out), vec!["g a ?= g a".to_string()]);
}

#[test]
fn normalize_beta_reduces_a_redex() {
    let k = c("(λx. g x) a ?= g a");
    assert!(is_normalizable_beta(&k.0, &k.1));
    let out = apply_normalize_beta(k, &State::new(vec![]));
    assert_eq!(texts(&out), vec!["g a ?= g a".to_string()]);
}

#[test]
fn normalize_an_expands_the_shorter_side() {
    let k = c("λx,y. k x y ?= λx. k x");
    assert!(is_normalizable_an(&k.0, &k.1));
    let out = apply_normalize_an(k, &State::new(vec![]));
    assert_eq!(texts(&out), vec!["λ x. λ y. k x y ?= λ x. λ y. k x y".to_string()]);
}

#[test]
fn imitation_copies_the_constant() {
    let k = c("F a ?= g b");
    let (_, hs, _) = flatten_hnf(&k.0);
    let (_, ht, _) = flatten_hnf(&k.1);
    assert!(is_imitationable(&hs, &ht));
    let st = start(&k);
    let out = apply_imitation(&k, &st, &Config::default());
    assert_eq!(out.len(), 1);
    assert_eq!(out[0].subst.to_string(), "F ↦ λ x1. g (F1 x1)\n");
    assert_eq!(out[0].binding_counts.imitations, 1);
}

#[test]
fn projection_binds_to_each_argument() {
    let k = c("F a ?= g b");
    let out = apply_hs_projection(&k.0, &start(&k), &Config::default(), &k);
    assert_eq!(out.len(), 1);
    assert_eq!(out[0].subst.to_string(), "F ↦ λ x1. x1\n");
    assert_eq!(out[0].binding_counts.simple_proj, 1);
}

#[test]
fn identification_binds_both_heads() {
    let k = c("F a ?= G b");
    let out = apply_identification(&k, &start(&k), &Config::default());
    assert_eq!(out.len(), 1);
    assert_eq!(out[0].binding_counts.identifications, 1);
    let text = out[0].subst.to_string();
    assert!(text.starts_with("F ↦ λ x1. "), "{}", text);
    assert!(text.contains("G ↦ λ y1. "), "{}", text);
}

#[test]
fn elimination_tries_every_choice_of_arguments() {
    assert_eq!(combinations(&vec![0, 1, 2], 2), vec![vec![0, 1], vec![0, 2], vec![1, 2]]);
    assert_eq!(combinations(&vec![0, 1], 0), vec![Vec::<usize>::new()]);
    let k = c("F a ?= F b");
    let out = apply_elimination(&k.0, &start(&k), &Config::default(), &k);
    assert_eq!(out.len(), 1);
    assert_eq!(out[0].binding_counts.eliminations, 0);
}

#[test]
fn bind_of_flex_rigid_imitates_and_projects() {
    let k = c("F a ?= g b");
    let out = apply_bind(k.clone(), &start(&k), &Config::default());
    let substs: Vec<String> = out.iter().map(|s| s.subst.to_string()).collect();
    assert_eq!(substs, vec!["F ↦ λ x1. g (F1 x1)\n".to_string(), "F ↦ λ x1. x1\n".to_string()]);
}

#[test]
fn bind_of_rigid_heads_gives_nothing() {
    let k = c("g a ?= g b");
    assert!(apply_bind(k.clone(), &start(&k), &Config::default()).is_empty());
}

#[test]
fn bindable_needs_a_free_variable_that_does_not_occur() {
    let x = Term::Var(var("X", TermKind::FVar, Type::Nat));
    let a = Term::Var(var("a", TermKind::Const, Type::Nat));
    let gx = c("g X ?= a").0;
    assert!(is_bindable(&x, &a));
    assert!(!is_bindable(&x, &gx));
    assert!(!is_bindable(&a, &x));
}

#[test]
fn rules_are_tried_in_order() {
    let k = c("a ?= a");
    let out = apply_unify_rules(k.clone(), &start(&k), &Config::default());
    assert_eq!(out.len(), 1);
    assert_eq!(out[0].step, Step::Delete);
    let f = c("a ?= b");
    let out = apply_unify_rules(f.clone(), &start(&f), &Config::default());
    assert!(out[0].failed);
}

#[test]
fn the_oracle_only_answers_at_a_limit() {
    let k = c("F a ?= g b");
    assert!(oracle(&k, &start(&k), &Config::default()).is_none());
}

#[test]
fn bindings_past_a_limit_are_refused() {
    let k = c("F a ?= g b");
    let st = start(&k);
    let cfg = Config { max_simple_proj: 0, max_functional_proj: 0, max_eliminations: 0, max_imitations: 0, max_identifications: 0, max_total: 0 };
    let out = try_binding(&st, BindingKind::Imitation, 1, &k, PersistentSubst::new(), &cfg, Step::Imitation);
    assert!(out.failed || out.step == Step::Oracle);
    let ok = try_binding(&st, BindingKind::Imitation, 1, &k, PersistentSubst::new(), &Config::default(), Step::Imitation);
    assert!(!ok.failed);
    assert_eq!(ok.binding_counts.imitations, 1);
    assert_eq!(ok.binding_counts.total, 1);
}

#[test]
fn wrapping_then_collecting_gives_back_the_binders() {
    let body = c("g x ?= a").0;
    let bs = vec![var("x", TermKind::BVar, Type::Nat), var("y", TermKind::BVar, Type::Nat)];
    let t = wrap_with_abstractions(&body, &bs);
    let (bs2, body2) = collect_lambdas(&t);
    assert_eq!(bs2, bs);
    assert_eq!(body2, body);
}

#[test]
fn normalize_beta_works_under_all_shared_binders() {
    let mut vars = declared();
    vars.push(var("z", TermKind::BVar, Type::Nat));
    let k = parse("λx,y. (λz. z) y ?= λx,y. y", &vars).unwrap();
    assert!(is_normalizable_beta(&k.0, &k.1));
    let st = State::new(vec![]);
    let out = apply_normalize_beta(k, &st);
    assert_eq!(texts(&out), vec!["λ x. λ y. y ?= λ x. λ y. y".to_string()]);
    assert!(out[0].subst.to_hashmap().entries.is_empty());
}

#[test]
fn elimination_applies_the_fresh_head_to_every_chosen_argument() {
    let k = c("F a ?= F b");
    let out = apply_elimination(&k.0, &start(&k), &Config::default(), &k);
    assert_eq!(out.len(), 1);
    let nn = arrow(Type::Nat, Type::Nat);
    let x1 = var("x1", TermKind::BVar, Type::Nat);
    let g = Variable { name: "F1".to_string(), term_kind: TermKind::FVar, ty: nn, var: Var::Elimination };
    let expected = Term::Abs {
        param: x1.clone(),
        body: Box::new(Term::App { func: Box::new(Term::Var(g)), arg: Box::new(Term::Var(x1)), result_ty: Type::Nat }),
    };
    assert_eq!(out[0].subst.lookup(&"F".to_string()), Some(expected));
}

#[test]
fn elimination_types_each_application_by_what_is_left() {
    let k = c("k a ?= k b");
    let f = Term::Var(var("H", TermKind::FVar, arrow(Type::Nat, arrow(Type::Nat, Type::Nat))));
    let lhs = Term::App {
        func: Box::new(Term::App { func: Box::new(f.clone()), arg: Box::new(Term::Var(var("a", TermKind::Const, Type::Nat))), result_ty: arrow(Type::Nat, Type::Nat) }),
        arg: Box::new(Term::Var(var("b", TermKind::Const, Type::Nat))),
        result_ty: Type::Nat,
    };
    let out = apply_elimination(&lhs, &start(&k), &Config::default(), &k);
    assert_eq!(out.len(), 3);
    let both = out[2].subst.lookup(&"H".to_string()).unwrap();
    let (_, body) = collect_lambdas(&both);
    match body {
        Term::App { func, result_ty, .. } => {
            assert_eq!(result_ty, Type::Nat);
            match *func {
                Term::App { result_ty, .. } => assert_eq!(result_ty, arrow(Type::Nat, Type::Nat)),
                _ => panic!("two arguments expected"),
            }
        }
        _ => panic!("an application expected"),
    }
}

#[test]
fn normalize_beta_within_a_budget() {
    let mut vars = declared();
    vars.push(var("z", TermKind::BVar, Type::Nat));
    let k = parse("λx,y. (λz. z) y ?= λx,y. y", &vars).unwrap();
    let st = State::new(vec![]);
    assert!(apply_normalize_beta_within(k.clone(), &st, 0).is_none());
    let out = apply_normalize_beta_within(k, &st, 1).unwrap();
    assert_eq!(texts(&out), vec!["λ x. λ y. y ?= λ x. λ y. y".to_string()]);
}

#[test]
fn normalize_an_keeps_the_roles_of_variables() {
    let nnn = arrow(Type::Nat, arrow(Type::Nat, Type::Nat));
    let h = Variable { name: "H".to_string(), term_kind: TermKind::FVar, ty: nnn.clone(), var: Var::Elimination };
    let z = var("z", TermKind::BVar, Type::Nat);
    let rhs = Term::Abs {
        param: z.clone(),
        body: Box::new(Term::App { func: Box::new(Term::Var(h.clone())), arg: Box::new(Term::Var(z)), result_ty: arrow(Type::Nat, Type::Nat) }),
    };
    let lhs = c("λx,y. k x y ?= λx,y. k x y").0;
    let out = apply_normalize_an(Constraint(lhs, rhs), &State::new(vec![]));
    assert_eq!(out.len(), 1);
    let (_, head, args) = flatten_hnf(&out[0].constraints[0].1);
    assert_eq!(head, Term::Var(h));
    assert_eq!(args.len(), 2);
}

#[test]
fn elimination_gives_two_to_the_n_minus_one_states() {
    let k = c("k a ?= k b");
    let nnnn = arrow(Type::Nat, arrow(Type::Nat, arrow(Type::Nat, Type::Nat)));
    let h = Term::Var(var("H", TermKind::FVar, nnnn));
    let mut lhs = h;
    let mut ty = arrow(Type::Nat, arrow(Type::Nat, Type::Nat));
    for name in ["a", "b", "a"] {
        let next = match &ty { Type::Arrow(_, r) => (**r).clone(), other => other.clone() };
        lhs = Term::App { func: Box::new(lhs), arg: Box::new(Term::Var(var(name, TermKind::Const, Type::Nat))), result_ty: ty.clone() };
        ty = next;
    }
    let out = apply_elimination(&lhs, &start(&k), &Config::default(), &k);
    assert_eq!(out.len(), 7);
}
