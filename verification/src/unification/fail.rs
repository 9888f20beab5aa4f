//! Fail: two different rigid heads cannot be unified.
use crate::term::Term;
use crate::tree::{State, failed_state};
use crate::utils::{flatten_hnf, hnf_head, is_rigid, rigid};
use crate::term::TermV;
use vstd::prelude::*;

verus! {

/// Both heads are rigid and they differ.
pub open spec fn clash(lhs: TermV, rhs: TermV) -> bool {
    rigid(hnf_head(lhs)) && rigid(hnf_head(rhs)) && hnf_head(lhs) != hnf_head(rhs)
}

/// Whether the two terms have different rigid heads.
pub fn is_fail(lhs: &Term, rhs: &Term) -> (res: bool)
    ensures
        res == clash(lhs@, rhs@),
{
    let (_, head1, _) = flatten_hnf(lhs);
    let (_, head2, _) = flatten_hnf(rhs);
    is_rigid(&head1) && is_rigid(&head2) && !head1.equals(&head2)
}

/// The failed state, alone.
pub fn apply_fail() -> (res: Vec<State>)
    ensures
        res.deep_view() == seq![failed_state()],
{
    let mut out: Vec<State> = Vec::new();
    out.push(State::fail());
    assert(out.deep_view() =~= seq![failed_state()]);
    out
}

/// A clash does not depend on the side the terms stand on.
pub proof fn law_clash_symmetric(lhs: TermV, rhs: TermV)
    ensures
        clash(lhs, rhs) == clash(rhs, lhs),
{
}

} // verus!
