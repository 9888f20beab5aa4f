//! The oracle that closes a search path once a binding limit is reached.
use crate::counter::{Config, at_limit, reached_limit};
use crate::names::{GenV, gen_step, budget_ok, lemma_budget_start, lemma_budget_step};
use crate::term::{Constraint, ConstraintV, Term, TermKind, TermV, Var, Variable, VariableV, type_of, head_kind, arrow_result};
use crate::tree::{State, StateV, Step, failed_state, subst_push, successor};
use crate::utils::{flatten_hnf, hnf_args, hnf_head, wrap_abs, wrap_with_abstractions, init_fresh_gen2, names2, fits_fresh, lemma_flex_head_is_var, term_size};
use crate::names::decimal;
use vstd::prelude::*;
use vstd::string::*;

verus! {

/// Binders `x1 ... xn` typed like the given arguments.
pub open spec fn arg_binders(args: Seq<TermV>) -> Seq<VariableV> {
    Seq::new(
        args.len(),
        |i: int|
            VariableV {
                name: "x"@ + decimal((i + 1) as nat),
                term_kind: TermKind::BVar,
                ty: type_of(args[i]),
                var: Var::Basic,
            },
    )
}

/// What the oracle decides once a limit is reached: for a flex-flex
/// constraint `λx. F s ?= λy. G t` it binds `F` to `λx1...xn. H` and `G` to
/// `λx1...xm. H` for a fresh `H` of the result type of `F`, leaving no
/// constraint; a flex-rigid constraint fails; otherwise it does not decide.
pub open spec fn oracle_result(c: ConstraintV, s: StateV, cfg: Config) -> Option<StateV> {
    if !reached_limit(s.binding_counts, cfg) {
        None
    } else {
        let hl = hnf_head(c.0);
        let hr = hnf_head(c.1);
        let flex_l = head_kind(hl) == TermKind::FVar;
        let flex_r = head_kind(hr) == TermKind::FVar;
        if flex_l && flex_r {
            let f = hl->Var_0;
            let g = hr->Var_0;
            let (h_name, _) = gen_step(GenV { used: names2(c.0, c.1), counter: 1 }, "H"@);
            let h = TermV::Var(
                VariableV {
                    name: h_name,
                    term_kind: TermKind::FVar,
                    ty: arrow_result(f.ty),
                    var: Var::Basic,
                },
            );
            let lam_f = wrap_abs(arg_binders(hnf_args(c.0)), h);
            let lam_g = wrap_abs(arg_binders(hnf_args(c.1)), h);
            Some(
                successor(
                    s,
                    Seq::empty(),
                    subst_push(subst_push(s.subst, f.name, lam_f), g.name, lam_g),
                    Step::Oracle,
                ),
            )
        } else if flex_l || flex_r {
            Some(failed_state())
        } else {
            None
        }
    }
}

/// Binders `x1 ... xn` typed like the arguments.
fn binders_for(args: &Vec<Term>) -> (res: Vec<Variable>)
    ensures
        res.deep_view() == arg_binders(args.deep_view()),
{
    let mut out: Vec<Variable> = Vec::new();
    let mut i: usize = 0;
    while i < args.len()
        invariant
            i <= args.len(),
            out.deep_view() == arg_binders(args.deep_view()).subrange(0, i as int),
        decreases args.len() - i,
    {
        let mut name = String::from_str("x");
        let num = crate::names::usize_to_string(i + 1);
        name.append(num.as_str());
        let v = Variable { name, term_kind: TermKind::BVar, ty: args[i].get_type(), var: Var::Basic };
        let ghost before = out.deep_view();
        assert(v@ == arg_binders(args.deep_view())[i as int]);
        out.push(v);
        assert(out.deep_view() =~= before.push(v@));
        assert(out.deep_view() =~= arg_binders(args.deep_view()).subrange(0, i + 1));
        i += 1;
    }
    assert(out.deep_view() =~= arg_binders(args.deep_view()));
    out
}

/// Once some binding count has reached its limit, closes a flex-flex
/// constraint with a trivial unifier and fails a flex-rigid one.
pub fn oracle(constraint: &Constraint, state: &State, cfg: &Config) -> (res: Option<State>)
    requires
        fits_fresh(constraint.0@, constraint.1@, 1),
    ensures
        match res {
            Some(s) => oracle_result(constraint@, state@, *cfg) == Some(s@),
            None => oracle_result(constraint@, state@, *cfg) is None,
        },
{
    let Constraint(lhs, rhs) = constraint;
    if !at_limit(&state.binding_counts, cfg) {
        return None;
    }
    let (_bs_l, head_l, args_l) = flatten_hnf(lhs);
    let (_bs_r, head_r, args_r) = flatten_hnf(rhs);
    let is_flex_l = head_l.get_termkind() == TermKind::FVar;
    let is_flex_r = head_r.get_termkind() == TermKind::FVar;
    if is_flex_l && is_flex_r {
        proof {
            lemma_flex_head_is_var(lhs@);
            lemma_flex_head_is_var(rhs@);
        }
        let (f_name, f_ty) = head_l.get_fvar().unwrap();
        let (g_name, _g_ty) = head_r.get_fvar().unwrap();
        let (_, res_ty) = f_ty.split_arrow();
        let mut generator = init_fresh_gen2(lhs, rhs);
        proof {
            lemma_budget_start(generator, term_size(lhs@) + term_size(rhs@), 1);
        }
        let h_name = generator.fresh("H");
        let h_term = Term::Var(Variable { name: h_name, term_kind: TermKind::FVar, ty: res_ty, var: Var::Basic });
        let binders_f = binders_for(&args_l);
        let binders_g = binders_for(&args_r);
        let lam_f = wrap_with_abstractions(&h_term, &binders_f);
        let lam_g = wrap_with_abstractions(&h_term, &binders_g);
        let sub2 = state.subst.clone().push(f_name.clone(), lam_f).push(g_name.clone(), lam_g);
        let empty: Vec<Constraint> = Vec::new();
        assert(empty.deep_view() =~= Seq::<ConstraintV>::empty());
        let res = state.with_subst_and_count(empty, sub2, Step::Oracle);
        return Some(res);
    }
    if is_flex_l || is_flex_r {
        return Some(State::fail());
    }
    None
}

} // verus!
