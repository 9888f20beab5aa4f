use ho_unify::counter::{at_limit, BindingCounts, BindingKind, Config};
use ho_unify::names::{FreshNameGen, NameSet};
use ho_unify::term::{Constraint, Term, TermKind, Type, Var, Variable};
use ho_unify::tree::{Dovetail, PersistentSubst, State, Step, TermMap};

fn v(name: &str, kind: TermKind, ty: Type) -> Term {
    Term::Var(Variable { name: name.to_string(), term_kind: kind, ty, var: Var::Basic })
}

fn a() -> Term {
    v("a", TermKind::Const, Type::Nat)
}

fn b() -> Term {
    v("b", TermKind::Const, Type::Nat)
}

#[test]
fn config_defaults_are_four_each_and_ten_in_total() {
    let c = Config::default();
    assert_eq!(
        (c.max_simple_proj, c.max_functional_proj, c.max_eliminations, c.max_imitations, c.max_identifications, c.max_total),
        (4, 4, 4, 4, 4, 10)
    );
}

#[test]
fn counts_add_up_and_reach_limits() {
    let cfg = Config::default();
    let mut counts = BindingCounts::new();
    assert!(!counts.would_exceed(BindingKind::Imitation, 4, &cfg));
    assert!(counts.would_exceed(BindingKind::Imitation, 5, &cfg));
    counts.add_count(BindingKind::Imitation, 3);
    assert_eq!(counts.imitations, 3);
    assert_eq!(counts.total, 3);
    assert!(counts.would_exceed(BindingKind::Imitation, 2, &cfg));
    assert!(!at_limit(&counts, &cfg));
    counts.add_count(BindingKind::Imitation, 1);
    assert!(at_limit(&counts, &cfg));
}

#[test]
fn lookup_gives_the_newest_binding() {
    let s = PersistentSubst::new().push("F".to_string(), a()).push("F".to_string(), b());
    assert_eq!(s.lookup(&"F".to_string()), Some(b()));
    assert_eq!(s.lookup(&"G".to_string()), None);
}

#[test]
fn the_map_of_a_substitution_keeps_the_newest_binding() {
    let s = PersistentSubst::new().push("F".to_string(), a()).push("F".to_string(), b());
    let m = s.to_hashmap();
    assert_eq!(m.get(&"F".to_string()), Some(&b()));
    assert_eq!(m.get(&"F".to_string()).cloned(), s.lookup(&"F".to_string()));
    assert!(!m.contains_key(&"G".to_string()));
}

#[test]
fn pushing_the_newest_binding_again_changes_nothing() {
    let s = PersistentSubst::new().push("F".to_string(), a());
    let t = s.clone().push("F".to_string(), a());
    assert_eq!(t.bound_names(), vec!["F".to_string()]);
}

#[test]
fn substitutions_print_sorted_by_name() {
    let s = PersistentSubst::new()
        .push("Z".to_string(), a())
        .push("B".to_string(), b())
        .push("A1".to_string(), a());
    assert_eq!(s.to_string(), "A1 ↦ a\nB ↦ b\nZ ↦ a\n");
}

#[test]
fn term_map_insert_replaces() {
    let mut m = TermMap::new();
    m.insert("F".to_string(), a());
    m.insert("F".to_string(), b());
    assert_eq!(m.get(&"F".to_string()), Some(&b()));
}

#[test]
fn name_sets_hold_names_once() {
    let mut s = NameSet::new();
    assert!(s.insert("x".to_string()));
    assert!(!s.insert("x".to_string()));
    assert!(s.contains(&"x".to_string()));
    s.remove(&"x".to_string());
    assert!(!s.contains(&"x".to_string()));
}

#[test]
fn fresh_names_skip_used_ones() {
    let mut g = FreshNameGen::new(vec!["F1".to_string(), "F3".to_string()]);
    assert_eq!(g.fresh("F"), "F2");
    assert_eq!(g.fresh("F"), "F4");
    assert_eq!(g.fresh("G"), "G5");
}

#[test]
fn new_states_are_unsolved_until_no_constraint_is_left() {
    let st = State::new(vec![Constraint(a(), b())]);
    assert!(!st.is_solved());
    assert!(State::new(vec![]).is_solved());
    let f = State::fail();
    assert!(f.failed);
    assert!(!f.is_solved());
    assert_eq!(f.step, Step::Fail);
}

#[test]
fn successors_remember_their_parent() {
    let st = State::new(vec![Constraint(a(), a())]);
    let next = st.with_subst_and_count(vec![], PersistentSubst::new(), Step::Delete);
    assert!(next.parent.is_some());
    assert_eq!(next.step, Step::Delete);
    assert!(next.is_solved());
}

#[test]
fn dovetail_takes_streams_in_turn() {
    let mk = |n: &str| {
        let s = PersistentSubst::new().push(n.to_string(), a());
        State { constraints: vec![], subst: s, failed: false, binding_counts: BindingCounts::new(), parent: None, step: Step::Start }
    };
    let streams = vec![vec![mk("A"), mk("B"), mk("C")], vec![], vec![mk("D")], vec![mk("E"), mk("F")]];
    let mut d = Dovetail::new(streams);
    let mut order = Vec::new();
    while let Some(s) = d.next() {
        order.push(s.to_string());
    }
    let expect: Vec<String> = ["A", "D", "E", "B", "F", "C"].iter().map(|n| format!("{} ↦ a\n", n)).collect();
    assert_eq!(order, expect);
}

fn c() -> Term {
    v("c", TermKind::Const, Type::Nat)
}

#[test]
fn composing_substitutions_prefers_the_newer_binding() {
    let older = PersistentSubst::new().push("F".to_string(), a()).push("G".to_string(), b());
    let newer = PersistentSubst::new().push("F".to_string(), c());
    let both = ho_unify::unification::bind::compose_substs(&older, &newer);
    assert_eq!(both.lookup(&"F".to_string()), Some(c()));
    assert_eq!(both.lookup(&"G".to_string()), Some(b()));
    assert_eq!(both.lookup(&"H".to_string()), None);
    let m = both.to_hashmap();
    assert_eq!(m.get(&"F".to_string()), Some(&c()));
}

#[test]
fn an_application_splits_into_head_and_arguments() {
    let f = v("f", TermKind::Const, Type::Arrow(Box::new(Type::Nat), Box::new(Type::Arrow(Box::new(Type::Nat), Box::new(Type::Nat)))));
    let fa = Term::App { func: Box::new(f.clone()), arg: Box::new(a()), result_ty: Type::Arrow(Box::new(Type::Nat), Box::new(Type::Nat)) };
    let fab = Term::App { func: Box::new(fa), arg: Box::new(b()), result_ty: Type::Nat };
    let (head, args) = ho_unify::unification::bind::deconstruct_app(fab);
    assert_eq!(head, f);
    assert_eq!(args, vec![a(), b()]);
    let (head, args) = ho_unify::unification::bind::deconstruct_app(c());
    assert_eq!(head, c());
    assert!(args.is_empty());
}
