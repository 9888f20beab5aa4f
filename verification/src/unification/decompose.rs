//! Decompose: `λx. a s1...sm ?= λx. a t1...tm` becomes `s1 ?= t1, ..., sm ?= tm`.
use crate::term::{Constraint, ConstraintV, Term, TermV, variables_equal};
use crate::tree::{State, StateV, Step, successor};
use crate::utils::{flatten_hnf, hnf_args, hnf_head, lambdas};
use vstd::prelude::*;

verus! {

/// Same binders, same head, as many arguments on both sides.
pub open spec fn decomposable(lhs: TermV, rhs: TermV) -> bool {
    lambdas(lhs) == lambdas(rhs) && hnf_head(lhs) == hnf_head(rhs) && hnf_args(lhs).len()
        == hnf_args(rhs).len()
}

/// The argument pairs as constraints, up to the shorter list.
pub open spec fn zip_constraints(a: Seq<TermV>, b: Seq<TermV>) -> Seq<ConstraintV> {
    Seq::new(if a.len() <= b.len() { a.len() } else { b.len() }, |i: int| ConstraintV(a[i], b[i]))
}

/// The state after decomposing: one constraint per argument pair.
pub open spec fn decompose_result(c: ConstraintV, s: StateV) -> StateV {
    successor(s, zip_constraints(hnf_args(c.0), hnf_args(c.1)), s.subst, Step::Decompose)
}

/// Whether the constraint can be decomposed.
pub fn is_decomposable(lhs: &Term, rhs: &Term) -> (res: bool)
    ensures
        res == decomposable(lhs@, rhs@),
{
    let (b1, h1, a1) = flatten_hnf(lhs);
    let (b2, h2, a2) = flatten_hnf(rhs);
    variables_equal(&b1, &b2) && h1.equals(&h2) && a1.len() == a2.len()
}

/// Replaces the constraint by the constraints between its arguments.
pub fn apply_decompose(constraint: Constraint, state: &State) -> (res: Vec<State>)
    ensures
        res.deep_view() == seq![decompose_result(constraint@, state@)],
{
    let Constraint(lhs, rhs) = constraint;
    let (_b, _h, args_l) = flatten_hnf(&lhs);
    let (_b2, _h2, args_r) = flatten_hnf(&rhs);
    let mut new_constraints: Vec<Constraint> = Vec::new();
    let mut i: usize = 0;
    let n = if args_l.len() <= args_r.len() { args_l.len() } else { args_r.len() };
    while i < n
        invariant
            n <= args_l.len(),
            n <= args_r.len(),
            i <= n,
            new_constraints.deep_view() == zip_constraints(args_l.deep_view(), args_r.deep_view()).subrange(0, i as int),
        decreases n - i,
    {
        let ghost before = new_constraints.deep_view();
        let c = Constraint(args_l[i].clone(), args_r[i].clone());
        assert(c@ == zip_constraints(args_l.deep_view(), args_r.deep_view())[i as int]);
        new_constraints.push(c);
        assert(new_constraints.deep_view() =~= before.push(c@));
        assert(new_constraints.deep_view() =~= zip_constraints(args_l.deep_view(), args_r.deep_view()).subrange(0, i + 1));
        i += 1;
    }
    assert(new_constraints.deep_view() =~= zip_constraints(args_l.deep_view(), args_r.deep_view()));
    let st = state.with_subst_and_count(new_constraints, state.subst.clone(), Step::Decompose);
    let mut out: Vec<State> = Vec::new();
    out.push(st);
    assert(out.deep_view() =~= seq![decompose_result(constraint@, state@)]);
    out
}

/// A trivial constraint can always be decomposed.
pub proof fn law_trivial_is_decomposable(t: TermV)
    ensures
        decomposable(t, t),
{
}

/// Decomposability does not depend on the side the terms stand on.
pub proof fn law_decomposable_symmetric(lhs: TermV, rhs: TermV)
    ensures
        decomposable(lhs, rhs) == decomposable(rhs, lhs),
{
}

} // verus!
