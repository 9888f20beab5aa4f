//! Delete: a trivial constraint `s ?= s` is dropped.
use crate::term::{ConstraintV, Term};
use crate::tree::{State, StateV, Step, successor};
use vstd::prelude::*;

verus! {

/// Whether the constraint is trivial.
pub fn is_deletable(lhs: &Term, rhs: &Term) -> (res: bool)
    ensures
        res == (lhs@ == rhs@),
{
    lhs.equals(rhs)
}

/// The state after deleting the constraint: no new constraint, same
/// substitution.
pub open spec fn delete_result(s: StateV) -> StateV {
    successor(s, Seq::empty(), s.subst, Step::Delete)
}

/// Drops the constraint.
pub fn apply_delete(state: &State) -> (res: Vec<State>)
    ensures
        res.deep_view() == seq![delete_result(state@)],
{
    let empty: Vec<crate::term::Constraint> = Vec::new();
    assert(empty.deep_view() =~= Seq::<ConstraintV>::empty());
    let st = state.with_subst_and_count(empty, state.subst.clone(), Step::Delete);
    let mut out: Vec<State> = Vec::new();
    out.push(st);
    assert(out.deep_view() =~= seq![delete_result(state@)]);
    out
}

} // verus!
