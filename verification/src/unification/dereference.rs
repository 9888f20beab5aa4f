//! Dereference: `λx. F s ?= λx. t` becomes `λx. (σF) s ?= λx. t` when `F` is
//! bound in `σ`.
use crate::term::{Constraint, ConstraintV, Term, TermKind, TermV, variables_equal};
use crate::tree::{PersistentSubst, State, StateV, Step, subst_map, successor};
use crate::utils::{apply_spine, apply_with, applicable, is_applicable, flatten_hnf, flex, hnf_args, hnf_head, lambdas, wrap_abs, wrap_with_abstractions};
use vstd::prelude::*;

verus! {

/// Same binders on both sides, and a free head, the left one first, that the
/// substitution binds.
pub open spec fn dereferenceable(lhs: TermV, rhs: TermV, s: Seq<(Seq<char>, TermV)>) -> bool {
    if lambdas(lhs) != lambdas(rhs) {
        false
    } else if flex(hnf_head(lhs)) {
        subst_map(s).contains_key(hnf_head(lhs)->Var_0.name)
    } else if flex(hnf_head(rhs)) {
        subst_map(s).contains_key(hnf_head(rhs)->Var_0.name)
    } else {
        false
    }
}

/// The head of `t` is a free variable bound in `s`.
pub open spec fn bound_head(t: TermV, s: Seq<(Seq<char>, TermV)>) -> bool {
    hnf_head(t) matches TermV::Var(v) && v.term_kind == TermKind::FVar && subst_map(s).contains_key(v.name)
}

/// `t` with a bound free head replaced by its binding, applied to the same
/// arguments under the same binders.
pub open spec fn deref_term(t: TermV, s: Seq<(Seq<char>, TermV)>) -> TermV {
    if bound_head(t, s) {
        wrap_abs(lambdas(t), apply_spine(subst_map(s)[hnf_head(t)->Var_0.name], hnf_args(t)))
    } else {
        t
    }
}

/// Replacing the head of `t` does not run into an application of a term
/// without a function type.
pub open spec fn deref_ok(t: TermV, s: Seq<(Seq<char>, TermV)>) -> bool {
    bound_head(t, s) ==> applicable(subst_map(s)[hnf_head(t)->Var_0.name], hnf_args(t))
}

/// The state after dereferencing both sides.
pub open spec fn dereference_result(c: ConstraintV, s: StateV) -> StateV {
    successor(
        s,
        seq![ConstraintV(deref_term(c.0, s.subst), deref_term(c.1, s.subst))],
        s.subst,
        Step::Dereference,
    )
}

/// Whether the constraint has a bound free head to replace.
pub fn is_dereference(lhs: &Term, rhs: &Term, state: &State) -> (res: bool)
    ensures
        res == dereferenceable(lhs@, rhs@, state@.subst),
{
    let (binders_l, head_l, _core_l) = flatten_hnf(lhs);
    let (binders_r, head_r, _core_r) = flatten_hnf(rhs);
    if !variables_equal(&binders_l, &binders_r) {
        return false;
    }
    let map = state.subst.to_hashmap();
    match (&head_l, &head_r) {
        (Term::Var(var), _) if var.term_kind == TermKind::FVar => map.contains_key(&var.name),
        (_, Term::Var(var)) if var.term_kind == TermKind::FVar => map.contains_key(&var.name),
        _ => false,
    }
}

/// Replaces a bound free head of `t` by its binding.
fn dereference(t: &Term, subst: &PersistentSubst) -> (res: Term)
    requires
        deref_ok(t@, subst@),
    ensures
        res@ == deref_term(t@, subst@),
{
    let (binders, head, args) = flatten_hnf(t);
    let f = match &head {
        Term::Var(v) => {
            if v.term_kind != TermKind::FVar {
                return t.clone();
            }
            &v.name
        },
        _ => {
            return t.clone();
        },
    };
    let mapping = subst.to_hashmap();
    let new_head = match mapping.get(f) {
        Some(term) => term.clone(),
        None => {
            return t.clone();
        },
    };
    let result = apply_with(new_head, &args);
    wrap_with_abstractions(&result, &binders)
}

/// Replaces bound free heads on both sides.
pub fn apply_dereference(constraint: Constraint, state: &State) -> (res: Vec<State>)
    requires
        deref_ok(constraint.0@, state@.subst),
        deref_ok(constraint.1@, state@.subst),
    ensures
        res.deep_view() == seq![dereference_result(constraint@, state@)],
{
    let Constraint(lhs, rhs) = constraint;
    let new_lhs = dereference(&lhs, &state.subst);
    let new_rhs = dereference(&rhs, &state.subst);
    let mut cs: Vec<Constraint> = Vec::new();
    cs.push(Constraint(new_lhs, new_rhs));
    assert(cs.deep_view() =~= seq![ConstraintV(deref_term(lhs@, state@.subst), deref_term(rhs@, state@.subst))]);
    let st = state.with_subst_and_count(cs, state.subst.clone(), Step::Dereference);
    let mut out: Vec<State> = Vec::new();
    out.push(st);
    assert(out.deep_view() =~= seq![dereference_result(constraint@, state@)]);
    out
}


/// Whether replacing the head of `t` by its binding only applies a term of
/// function type.
pub fn check_deref_ok(t: &Term, subst: &PersistentSubst) -> (res: bool)
    ensures
        res == deref_ok(t@, subst@),
{
    let (_bs, head, args) = flatten_hnf(t);
    match &head {
        Term::Var(v) => {
            if v.term_kind != TermKind::FVar {
                return true;
            }
            let map = subst.to_hashmap();
            match map.get(&v.name) {
                Some(b) => is_applicable(b, &args),
                None => true,
            }
        },
        _ => true,
    }
}

} // verus!
