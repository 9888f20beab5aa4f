//! The rules of the unification procedure, and the choice of the rule that
//! applies to a constraint.
pub mod decompose;
pub mod delete;
pub mod fail;
pub mod oracle;
pub mod dereference;
pub mod normalize_an;
pub mod normalize_beta;
pub mod imitation;
pub mod hs_projection;
pub mod identification;
pub mod elimination;
pub mod bind;

use crate::counter::Config;
use crate::term::{Constraint, ConstraintV};
use crate::tree::{State, StateV, failed_state};
use crate::unification::bind::{apply_bind, bind_ok, bind_result, check_bind_ok, law_same_flex_head_tries_eliminations};
use crate::unification::elimination::elimination_result;
use crate::utils::{flex, hnf_head};
use crate::term::Var;
use crate::unification::decompose::{apply_decompose, decomposable, decompose_result, is_decomposable};
use crate::unification::delete::{apply_delete, delete_result, is_deletable};
use crate::unification::dereference::{apply_dereference, check_deref_ok, deref_ok, dereference_result, dereferenceable, is_dereference};
use crate::unification::fail::{apply_fail, clash, is_fail};
use crate::unification::normalize_an::{an_ok, check_an_ok, apply_normalize_an, is_normalizable_an, normalizable_an, normalize_an_result};
use crate::unification::normalize_beta::{apply_normalize_beta, beta_ok, beta_within, check_beta_within, lemma_beta_within_ok, is_normalizable_beta, normalizable_beta, normalize_beta_result};
use crate::unification::oracle::{oracle, oracle_result};
use crate::utils::{check_fits_fresh, fits_fresh};
use vstd::prelude::*;

verus! {

/// The successors of a state for one of its constraints, by the first rule
/// that applies: the oracle, normalize-αη, normalize-β, dereference, fail,
/// delete, decompose together with bind, and bind.
pub open spec fn unify_result(c: ConstraintV, s: StateV, cfg: Config) -> Seq<StateV> {
    if oracle_result(c, s, cfg) is Some {
        seq![oracle_result(c, s, cfg).unwrap()]
    } else if normalizable_an(c.0, c.1) {
        seq![normalize_an_result(c, s)]
    } else if normalizable_beta(c.0, c.1) {
        normalize_beta_result(c, s)
    } else if dereferenceable(c.0, c.1, s.subst) {
        seq![dereference_result(c, s)]
    } else if clash(c.0, c.1) {
        seq![failed_state()]
    } else if c.0 == c.1 {
        seq![delete_result(s)]
    } else if decomposable(c.0, c.1) {
        seq![decompose_result(c, s)] + bind_result(c, s, cfg)
    } else {
        bind_result(c, s, cfg)
    }
}

/// What the rules need of a constraint: the sizes that fresh names need, an
/// expansion and a dereference that only apply terms of function type, head
/// normalization that stops, and the sizes and counts of binding.
pub open spec fn unify_ok(c: ConstraintV, s: StateV, cfg: Config) -> bool {
    &&& fits_fresh(c.0, c.1, 1)
    &&& normalizable_an(c.0, c.1) ==> an_ok(c.0, c.1)
    &&& normalizable_beta(c.0, c.1) ==> beta_ok(c)
    &&& dereferenceable(c.0, c.1, s.subst) ==> deref_ok(c.0, s.subst) && deref_ok(c.1, s.subst)
    &&& bind_ok(c, s, cfg)
}

/// Applies the first rule that fits `constraint` and returns the successor
/// states.
pub fn apply_unify_rules(constraint: Constraint, state: &State, config: &Config) -> (res: Vec<State>)
    requires
        unify_ok(constraint@, state@, *config),
    ensures
        res.deep_view() == unify_result(constraint@, state@, *config),
{
    let ghost c = constraint@;
    if let Some(fallback) = oracle(&constraint, state, config) {
        let mut out: Vec<State> = Vec::new();
        out.push(fallback);
        assert(out.deep_view() =~= unify_result(c, state@, *config));
        return out;
    }
    if is_normalizable_an(&constraint.0, &constraint.1) {
        return apply_normalize_an(constraint, state);
    }
    if is_normalizable_beta(&constraint.0, &constraint.1) {
        return apply_normalize_beta(constraint, state);
    }
    if is_dereference(&constraint.0, &constraint.1, state) {
        return apply_dereference(constraint, state);
    }
    if is_fail(&constraint.0, &constraint.1) {
        return apply_fail();
    }
    if is_deletable(&constraint.0, &constraint.1) {
        return apply_delete(state);
    }
    if is_decomposable(&constraint.0, &constraint.1) {
        let copy = constraint.clone();
        let mut next = apply_decompose(copy, state);
        let mut bind_states = apply_bind(constraint, state, config);
        next.append(&mut bind_states);
        assert(next.deep_view() =~= unify_result(c, state@, *config));
        return next;
    }
    apply_bind(constraint, state, config)
}


/// What the rules need of a constraint, with head normalization stopping
/// within `fuel` steps.
pub open spec fn unify_within(c: ConstraintV, s: StateV, cfg: Config, fuel: nat) -> bool {
    &&& fits_fresh(c.0, c.1, 1)
    &&& normalizable_an(c.0, c.1) ==> an_ok(c.0, c.1)
    &&& normalizable_beta(c.0, c.1) ==> beta_within(c, fuel)
    &&& dereferenceable(c.0, c.1, s.subst) ==> deref_ok(c.0, s.subst) && deref_ok(c.1, s.subst)
    &&& bind_ok(c, s, cfg)
}

/// What holds within a budget holds.
pub proof fn lemma_unify_within_ok(c: ConstraintV, s: StateV, cfg: Config, fuel: nat)
    requires
        unify_within(c, s, cfg, fuel),
    ensures
        unify_ok(c, s, cfg),
{
    if normalizable_beta(c.0, c.1) {
        lemma_beta_within_ok(c, fuel);
    }
}

/// Whether the rules get what they need of `constraint`, head
/// normalization stopping within `fuel` steps.
pub fn check_unify_within(constraint: &Constraint, state: &State, config: &Config, fuel: usize) -> (res: bool)
    ensures
        res == unify_within(constraint@, state@, *config, fuel as nat),
{
    check_fits_fresh(&constraint.0, &constraint.1, 1)
        && (!is_normalizable_an(&constraint.0, &constraint.1) || check_an_ok(&constraint.0, &constraint.1))
        && (!is_normalizable_beta(&constraint.0, &constraint.1) || check_beta_within(constraint, fuel))
        && (!is_dereference(&constraint.0, &constraint.1, state) || (check_deref_ok(&constraint.0, &state.subst)
            && check_deref_ok(&constraint.1, &state.subst)))
        && check_bind_ok(constraint, state, config)
}

/// The successor states for `constraint` when the rules get what they need
/// of it within `fuel` steps of head normalization, else none.
pub fn apply_unify_rules_within(constraint: Constraint, state: &State, config: &Config, fuel: usize) -> (res: Option<Vec<State>>)
    ensures
        match res {
            Some(v) => unify_within(constraint@, state@, *config, fuel as nat) && v.deep_view() == unify_result(
                constraint@,
                state@,
                *config,
            ),
            None => !unify_within(constraint@, state@, *config, fuel as nat),
        },
{
    if !check_unify_within(&constraint, state, config, fuel) {
        return None;
    }
    proof {
        lemma_unify_within_ok(constraint@, state@, *config, fuel as nat);
    }
    Some(apply_unify_rules(constraint, state, config))
}


/// No rule before decomposition applies to the constraint.
pub open spec fn reaches_decompose(c: ConstraintV, s: StateV, cfg: Config) -> bool {
    &&& oracle_result(c, s, cfg) is None
    &&& !normalizable_an(c.0, c.1)
    &&& !normalizable_beta(c.0, c.1)
    &&& !dereferenceable(c.0, c.1, s.subst)
    &&& !clash(c.0, c.1)
    &&& c.0 != c.1
}

/// Decomposition does not replace binding: for a decomposable constraint
/// the successors are the decomposition followed by every binding
/// successor.
pub proof fn law_decompose_keeps_binding(c: ConstraintV, s: StateV, cfg: Config)
    requires
        reaches_decompose(c, s, cfg),
        decomposable(c.0, c.1),
    ensures
        unify_result(c, s, cfg).len() == 1 + bind_result(c, s, cfg).len(),
        unify_result(c, s, cfg)[0] == decompose_result(c, s),
        forall|k: int| 0 <= k < bind_result(c, s, cfg).len() ==> unify_result(c, s, cfg)[k + 1] == #[trigger] bind_result(c, s, cfg)[k],
{
}

/// The same flexible head on both sides, as in `F X ?= F a`, not made by
/// elimination: besides the decomposition, the successors hold every
/// elimination of either side.
pub proof fn law_same_flex_head_decomposes_and_eliminates(c: ConstraintV, s: StateV, cfg: Config)
    requires
        reaches_decompose(c, s, cfg),
        decomposable(c.0, c.1),
        flex(hnf_head(c.0)),
        hnf_head(c.0)->Var_0.var != Var::Elimination,
    ensures
        unify_result(c, s, cfg)[0] == decompose_result(c, s),
        forall|k: int| 0 <= k < elimination_result(c.0, s, cfg, c).len() ==> #[trigger] unify_result(c, s, cfg).contains(
            elimination_result(c.0, s, cfg, c)[k],
        ),
        forall|k: int| 0 <= k < elimination_result(c.1, s, cfg, c).len() ==> #[trigger] unify_result(c, s, cfg).contains(
            elimination_result(c.1, s, cfg, c)[k],
        ),
{
    law_same_flex_head_tries_eliminations(c, s, cfg);
    let e0 = elimination_result(c.0, s, cfg, c);
    let e1 = elimination_result(c.1, s, cfg, c);
    let u = unify_result(c, s, cfg);
    assert(u == seq![decompose_result(c, s)] + (e0 + e1));
    assert forall|k: int| 0 <= k < e0.len() implies #[trigger] u.contains(e0[k]) by {
        assert(u[1 + k] == e0[k]);
    }
    assert forall|k: int| 0 <= k < e1.len() implies #[trigger] u.contains(e1[k]) by {
        assert(u[1 + e0.len() + k] == e1[k]);
    }
}

} // verus!
