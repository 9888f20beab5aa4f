//! Huet-style projection: for a free head `F : a1 -> ... -> an -> b`, bind
//! `F := λx1...xn. xi (F1 x1...xn) ... (Fm x1...xn)` for each `ai` whose
//! final result type is `b`.
use crate::counter::{BindingKind, Config, can_add, exceeds};
use crate::names::{FreshNameGen, GenV, budget_ok, gen_run, lemma_budget_start};
use crate::term::{Constraint, ConstraintV, Term, TermV, Type, TypeV, Variable, arrow_args, arrow_result, type_of};
use crate::tree::{State, StateV, Step, binding_result, subst_push};
use crate::utils::{apply1, spine_head, apply_args_checked, apply_spine, bound_vars, build_bound_vars, flatten_hnf, fresh_var_terms, fresh_vars, hnf_head, init_fresh_gen1, lemma_arrows_args, lemma_split_rebuild, lemma_typed_app, term_names, term_size, typed_app, var_terms, vars_to_terms, wrap_abs, wrap_with_abstractions, fits_fresh};
use vstd::prelude::*;

verus! {

/// The projection binding for the `i`-th argument of the head of `term`.
pub open spec fn projection_lambda(term: TermV, i: int) -> TermV {
    let f = hnf_head(term)->Var_0;
    let alphas = arrow_args(f.ty);
    let xs = bound_vars(alphas, "x"@);
    let gammas = arrow_args(alphas[i]);
    let names = gen_run(GenV { used: term_names(term), counter: 1 }, f.name, gammas.len()).0;
    let fms = fresh_var_terms(names, alphas, gammas);
    let fm_apps = Seq::new(gammas.len(), |m: int| apply_spine(fms[m], var_terms(xs)));
    wrap_abs(xs, apply_spine(TermV::Var(xs[i]), fm_apps))
}

/// A projection onto a base-typed argument is simple, onto a function-typed
/// one functional.
pub open spec fn projection_kind(alpha: TypeV) -> BindingKind {
    if arrow_args(alpha).len() == 0 {
        BindingKind::SimpleProjection
    } else {
        BindingKind::FunctionalProjection
    }
}

/// The states of the projections onto the first `k` arguments whose final
/// result type is the head's.
pub open spec fn hs_prefix(term: TermV, s: StateV, cfg: Config, c: ConstraintV, k: nat) -> Seq<StateV>
    decreases k,
{
    if k == 0 {
        Seq::empty()
    } else {
        let prev = hs_prefix(term, s, cfg, c, (k - 1) as nat);
        let i = k - 1;
        let f = hnf_head(term)->Var_0;
        let alphas = arrow_args(f.ty);
        if arrow_result(alphas[i]) == arrow_result(f.ty) {
            prev.push(
                binding_result(
                    s,
                    projection_kind(alphas[i]),
                    1,
                    c,
                    subst_push(s.subst, f.name, projection_lambda(term, i)),
                    cfg,
                    Step::HsProjection,
                ),
            )
        } else {
            prev
        }
    }
}

/// All projection states for the head of `term`; none when the head is not a
/// variable or has no argument.
pub open spec fn hs_projection_result(term: TermV, s: StateV, cfg: Config, c: ConstraintV) -> Seq<StateV> {
    if !(hnf_head(term) is Var) {
        Seq::empty()
    } else {
        hs_prefix(term, s, cfg, c, arrow_args(hnf_head(term)->Var_0.ty).len())
    }
}

/// The term is small enough for the fresh variables of every projection.
pub open spec fn hs_fits(term: TermV) -> bool {
    let alphas = arrow_args(hnf_head(term)->Var_0.ty);
    forall|i: int| 0 <= i < alphas.len() ==> term_size(term) + arrow_args(#[trigger] alphas[i]).len() <= 0x8000_0000
}

/// The counts can take one more projection of either kind, or the limits
/// stop it first.
pub open spec fn projection_countable(s: StateV, cfg: Config) -> bool {
    &&& exceeds(s.binding_counts, BindingKind::SimpleProjection, 1, cfg) || can_add(s.binding_counts, BindingKind::SimpleProjection, 1)
    &&& exceeds(s.binding_counts, BindingKind::FunctionalProjection, 1, cfg) || can_add(s.binding_counts, BindingKind::FunctionalProjection, 1)
}

/// Fresh `Fm : alphas -> gammas[m]`, named after `F` by a generator over the
/// names of `term`.
fn make_fm_terms(alphas: &Vec<Type>, gammas: &Vec<Type>, f_name: &String, term: &Term) -> (res: Vec<Term>)
    requires
        term_size(term@) + gammas.len() <= 0x8000_0000,
    ensures
        res.deep_view() == fresh_var_terms(
            gen_run(GenV { used: term_names(term@), counter: 1 }, f_name@, gammas.len() as nat).0,
            alphas.deep_view(),
            gammas.deep_view(),
        ),
{
    let mut generator = init_fresh_gen1(term);
    proof {
        lemma_budget_start(generator, term_size(term@), gammas.len() as nat);
    }
    fresh_vars(&mut generator, f_name.as_str(), alphas, gammas)
}

/// Applies `func` to the arguments, each of the expected type.
fn apply_to_args(func: Term, args: &Vec<Term>) -> (res: Term)
    requires
        typed_app(type_of(func@), args.deep_view()),
    ensures
        res@ == apply_spine(func@, args.deep_view()),
{
    apply_args_checked(func, args)
}

/// All Huet-style projections for the free head of `term`.
pub fn apply_hs_projection(term: &Term, state: &State, config: &Config, constraint: &Constraint) -> (res: Vec<State>)
    requires
        hnf_head(term@) is Var ==> hs_fits(term@),
        fits_fresh(constraint.0@, constraint.1@, 1),
        projection_countable(state@, *config),
    ensures
        res.deep_view() == hs_projection_result(term@, state@, *config, constraint@),
{
    let (_bs_s, head_s, _args_s) = flatten_hnf(term);
    let var = match head_s.get_var() {
        Some(v) => v,
        None => {
            let out: Vec<State> = Vec::new();
            assert(out.deep_view() =~= hs_projection_result(term@, state@, *config, constraint@));
            return out;
        },
    };
    let f_name = &var.name;
    let (alphas, beta) = var.ty.split_arrow();
    if alphas.len() == 0 {
        let out: Vec<State> = Vec::new();
        assert(out.deep_view() =~= hs_projection_result(term@, state@, *config, constraint@));
        return out;
    }
    let xs_vars = build_bound_vars(&alphas, "x");
    let xs = vars_to_terms(&xs_vars);
    let mut results: Vec<State> = Vec::new();
    let mut i: usize = 0;
    while i < alphas.len()
        invariant
            i <= alphas.len(),
            hnf_head(term@) is Var,
            var@ == hnf_head(term@)->Var_0,
            f_name@ == var@.name,
            alphas.deep_view() == arrow_args(var@.ty),
            beta@ == arrow_result(var@.ty),
            xs_vars.deep_view() == bound_vars(alphas.deep_view(), "x"@),
            xs.deep_view() == var_terms(xs_vars.deep_view()),
            hs_fits(term@),
            fits_fresh(constraint.0@, constraint.1@, 1),
            projection_countable(state@, *config),
            results.deep_view() == hs_prefix(term@, state@, *config, constraint@, i as nat),
        decreases alphas.len() - i,
    {
        let alpha_i = &alphas[i];
        let (gammas, beta_i) = alpha_i.split_arrow();
        if !beta_i.equals(&beta) {
            i += 1;
            continue;
        }
        assert(term_size(term@) + arrow_args(alphas.deep_view()[i as int]).len() <= 0x8000_0000);
        let fm_terms = make_fm_terms(&alphas, &gammas, f_name, term);
        let ghost fm_apps_target = Seq::new(
            gammas.len() as nat,
            |m: int| apply_spine(fm_terms.deep_view()[m], var_terms(xs_vars.deep_view())),
        );
        let mut fm_apps: Vec<Term> = Vec::new();
        let mut m: usize = 0;
        assert(fm_terms.deep_view().len() == fm_terms.len());
        while m < fm_terms.len()
            invariant
                m <= fm_terms.len() == gammas.len(),
                fm_terms.deep_view() == fresh_var_terms(
                    gen_run(GenV { used: term_names(term@), counter: 1 }, f_name@, gammas.len() as nat).0,
                    alphas.deep_view(),
                    gammas.deep_view(),
                ),
                xs.deep_view() == var_terms(xs_vars.deep_view()),
                xs_vars.deep_view() == bound_vars(alphas.deep_view(), "x"@),
                fm_apps_target == Seq::new(
                    gammas.len() as nat,
                    |m: int| apply_spine(fm_terms.deep_view()[m], var_terms(xs_vars.deep_view())),
                ),
                fm_apps.deep_view() == fm_apps_target.subrange(0, m as int),
                forall|j: int| 0 <= j < m ==> type_of(#[trigger] fm_apps.deep_view()[j]) == gammas.deep_view()[j],
            decreases fm_terms.len() - m,
        {
            let ghost fm = fm_terms.deep_view()[m as int];
            proof {
                lemma_arrows_args(alphas.deep_view(), gammas.deep_view()[m as int]);
                assert(typed_app(type_of(fm), xs.deep_view()));
                lemma_typed_app(fm, xs.deep_view());
            }
            let app = apply_to_args(fm_terms[m].clone(), &xs);
            let ghost before = fm_apps.deep_view();
            fm_apps.push(app);
            assert(fm_apps.deep_view() =~= before.push(app@));
            assert(fm_apps.deep_view() =~= fm_apps_target.subrange(0, m + 1));
            m += 1;
        }
        assert(fm_apps.deep_view() =~= fm_apps_target);
        proof {
            lemma_split_rebuild(alphas.deep_view()[i as int]);
            lemma_arrows_args(gammas.deep_view(), beta_i@);
            assert(type_of(xs.deep_view()[i as int]) == alphas.deep_view()[i as int]);
            assert(typed_app(type_of(xs.deep_view()[i as int]), fm_apps.deep_view()));
        }
        let body = apply_to_args(xs[i].clone(), &fm_apps);
        let lam = wrap_with_abstractions(&body, &xs_vars);
        assert(lam@ == projection_lambda(term@, i as int));
        let new_subst = state.subst.clone().push(f_name.clone(), lam);
        let kind = if gammas.len() == 0 {
            BindingKind::SimpleProjection
        } else {
            BindingKind::FunctionalProjection
        };
        let new_state = state.try_binding(kind, 1, constraint, new_subst, config, Step::HsProjection);
        let ghost before = results.deep_view();
        results.push(new_state);
        assert(results.deep_view() =~= before.push(new_state@));
        i += 1;
    }
    results
}


/// The number of the first `k` argument types whose final result type is
/// `b`.
pub open spec fn count_result_matches(alphas: Seq<TypeV>, b: TypeV, k: nat) -> nat
    decreases k,
{
    if k == 0 {
        0
    } else if arrow_result(alphas[k - 1]) == b {
        count_result_matches(alphas, b, (k - 1) as nat) + 1
    } else {
        count_result_matches(alphas, b, (k - 1) as nat)
    }
}

/// The state that projecting the head of `term` onto its `i`-th argument
/// gives.
pub open spec fn projection_state(term: TermV, s: StateV, cfg: Config, c: ConstraintV, i: int) -> StateV {
    let f = hnf_head(term)->Var_0;
    let alphas = arrow_args(f.ty);
    binding_result(
        s,
        projection_kind(alphas[i]),
        1,
        c,
        subst_push(s.subst, f.name, projection_lambda(term, i)),
        cfg,
        Step::HsProjection,
    )
}

/// The projections onto the first `k` arguments: one for each matching
/// position, each matching position present.
proof fn lemma_hs_prefix(term: TermV, s: StateV, cfg: Config, c: ConstraintV, k: nat)
    requires
        hnf_head(term) is Var,
        k <= arrow_args(hnf_head(term)->Var_0.ty).len(),
    ensures
        hs_prefix(term, s, cfg, c, k).len() == count_result_matches(
            arrow_args(hnf_head(term)->Var_0.ty),
            arrow_result(hnf_head(term)->Var_0.ty),
            k,
        ),
        forall|i: int|
            0 <= i < k && arrow_result(arrow_args(hnf_head(term)->Var_0.ty)[i]) == arrow_result(hnf_head(term)->Var_0.ty)
                ==> #[trigger] hs_prefix(term, s, cfg, c, k).contains(projection_state(term, s, cfg, c, i)),
    decreases k,
{
    if k > 0 {
        lemma_hs_prefix(term, s, cfg, c, (k - 1) as nat);
        let prev = hs_prefix(term, s, cfg, c, (k - 1) as nat);
        let cur = hs_prefix(term, s, cfg, c, k);
        let f = hnf_head(term)->Var_0;
        let alphas = arrow_args(f.ty);
        assert forall|i: int|
            0 <= i < k && arrow_result(alphas[i]) == arrow_result(f.ty) implies #[trigger] cur.contains(
            projection_state(term, s, cfg, c, i),
        ) by {
            if i < k - 1 {
                assert(prev.contains(projection_state(term, s, cfg, c, i)));
                let j = choose|j: int| 0 <= j < prev.len() && prev[j] == projection_state(term, s, cfg, c, i);
                if arrow_result(alphas[k - 1]) == arrow_result(f.ty) {
                    assert(cur == prev.push(projection_state(term, s, cfg, c, k - 1)));
                    assert(cur[j] == prev[j]);
                } else {
                    assert(cur == prev);
                }
            } else {
                assert(cur[cur.len() - 1] == projection_state(term, s, cfg, c, i));
            }
        }
    }
}

/// Applying a term to arguments keeps its head.
proof fn lemma_spine_head_apply(t: TermV, args: Seq<TermV>)
    ensures
        spine_head(apply_spine(t, args)) == spine_head(t),
    decreases args.len(),
{
    if args.len() > 0 {
        lemma_spine_head_apply(apply1(t, args[0]), args.drop_first());
    }
}

/// The projection binding for argument `i` is `λx1...xn. xi ...`: under the
/// `n` fresh binders, its head is the `i`-th of them.
pub proof fn law_projection_heads_on_its_argument(term: TermV, i: int)
    requires
        hnf_head(term) is Var,
        0 <= i < arrow_args(hnf_head(term)->Var_0.ty).len(),
    ensures
        exists|u: TermV|
            projection_lambda(term, i) == wrap_abs(bound_vars(arrow_args(hnf_head(term)->Var_0.ty), "x"@), u)
                && spine_head(u) == TermV::Var(bound_vars(arrow_args(hnf_head(term)->Var_0.ty), "x"@)[i]),
{
    let f = hnf_head(term)->Var_0;
    let alphas = arrow_args(f.ty);
    let xs = bound_vars(alphas, "x"@);
    let gammas = arrow_args(alphas[i]);
    let names = gen_run(GenV { used: term_names(term), counter: 1 }, f.name, gammas.len()).0;
    let fms = fresh_var_terms(names, alphas, gammas);
    let fm_apps = Seq::new(gammas.len(), |m: int| apply_spine(fms[m], var_terms(xs)));
    let u = apply_spine(TermV::Var(xs[i]), fm_apps);
    lemma_spine_head_apply(TermV::Var(xs[i]), fm_apps);
    assert(projection_lambda(term, i) == wrap_abs(xs, u));
}

/// Huet-style projection tries every argument whose final result type is
/// the head's: for each such position `i` the result holds the state that
/// binds the head to `λx1...xn. xi ...`, and there is one state for each
/// such position and no other.
pub proof fn law_projection_tries_every_matching_argument(term: TermV, s: StateV, cfg: Config, c: ConstraintV)
    requires
        hnf_head(term) is Var,
    ensures
        hs_projection_result(term, s, cfg, c).len() == count_result_matches(
            arrow_args(hnf_head(term)->Var_0.ty),
            arrow_result(hnf_head(term)->Var_0.ty),
            arrow_args(hnf_head(term)->Var_0.ty).len(),
        ),
        forall|i: int|
            0 <= i < arrow_args(hnf_head(term)->Var_0.ty).len() && arrow_result(
                arrow_args(hnf_head(term)->Var_0.ty)[i],
            ) == arrow_result(hnf_head(term)->Var_0.ty) ==> #[trigger] hs_projection_result(term, s, cfg, c).contains(
                projection_state(term, s, cfg, c, i),
            ),
{
    lemma_hs_prefix(term, s, cfg, c, arrow_args(hnf_head(term)->Var_0.ty).len());
}

} // verus!
