//! Identification: for `λx. F s ?= λy. G t` with different free heads of the
//! same final result type, bind `F := λxs. H xs (F1 xs) ... (Fm xs)` and
//! `G := λys. H (G1 ys) ... (Gn ys) ys` with fresh `H`, `Fi`, `Gj`.
use crate::counter::{BindingKind, Config, can_add, exceeds, try_binding};
use crate::names::{FreshNameGen, GenV, budget_ok, gen_run, gen_step, lemma_budget_start, lemma_budget_mono};
use crate::term::{Constraint, ConstraintV, Term, TermKind, TermV, Type, TypeV, Var, Variable, VariableV, arrow_args, arrow_result, arrows, type_of};
use crate::tree::{State, StateV, Step, binding_result, subst_push};
use crate::utils::{apply_spine, apply_with, bound_vars, build_arrows, build_bound_vars, fits_fresh, flatten_hnf, fresh_var_terms, fresh_vars, hnf_head, init_fresh_gen2, lemma_arrows_args, lemma_typed_app, names2, term_size, trim_digits, trim_trailing_digits, typed_app, var_terms, vars_to_terms, wrap_abs, wrap_with_abstractions, applicable, skip_args};
use vstd::prelude::*;

verus! {

/// Both heads are free variables.
pub open spec fn identification_shape(c: ConstraintV) -> bool {
    &&& hnf_head(c.0) is Var && hnf_head(c.0)->Var_0.term_kind == TermKind::FVar
    &&& hnf_head(c.1) is Var && hnf_head(c.1)->Var_0.term_kind == TermKind::FVar
}

/// `head` applied to each of `fs` applied to `args`.
pub open spec fn apply_each(fs: Seq<TermV>, args: Seq<TermV>) -> Seq<TermV> {
    Seq::new(fs.len(), |i: int| apply_spine(fs[i], args))
}

/// The two bindings of an identification, `(F's, G's)`.
pub open spec fn identification_lambdas(c: ConstraintV) -> (TermV, TermV) {
    let f = hnf_head(c.0)->Var_0;
    let g = hnf_head(c.1)->Var_0;
    let alphas_f = arrow_args(f.ty);
    let alphas_g = arrow_args(g.ty);
    let g0 = GenV { used: names2(c.0, c.1), counter: 1 };
    let (fi_names, g1) = gen_run(g0, trim_digits(f.name), alphas_g.len());
    let (gj_names, g2) = gen_run(g1, trim_digits(g.name), alphas_f.len());
    let (h_name, _) = gen_step(g2, "H"@);
    let fi = fresh_var_terms(fi_names, alphas_f, alphas_g);
    let gj = fresh_var_terms(gj_names, alphas_g, alphas_f);
    let h = TermV::Var(
        VariableV {
            name: h_name,
            term_kind: TermKind::FVar,
            ty: arrows(alphas_f, arrows(alphas_g, arrow_result(f.ty))),
            var: Var::Identification,
        },
    );
    let xs = var_terms(bound_vars(alphas_f, "x"@));
    let ys = var_terms(bound_vars(alphas_g, "y"@));
    (
        wrap_abs(bound_vars(alphas_f, "x"@), apply_spine(apply_spine(h, xs), apply_each(fi, xs))),
        wrap_abs(bound_vars(alphas_g, "y"@), apply_spine(apply_spine(h, apply_each(gj, ys)), ys)),
    )
}

/// The states of an identification: none when the final result types of
/// the heads differ.
pub open spec fn identification_result(c: ConstraintV, s: StateV, cfg: Config) -> Seq<StateV> {
    let f = hnf_head(c.0)->Var_0;
    let g = hnf_head(c.1)->Var_0;
    if arrow_result(f.ty) != arrow_result(g.ty) {
        Seq::empty()
    } else {
        let (f_lam, g_lam) = identification_lambdas(c);
        seq![
            binding_result(
                s,
                BindingKind::Identification,
                1,
                c,
                subst_push(subst_push(s.subst, f.name, f_lam), g.name, g_lam),
                cfg,
                Step::Identification,
            ),
        ]
    }
}

/// The number of fresh variables an identification makes.
pub open spec fn identification_arity(c: ConstraintV) -> nat {
    arrow_args(hnf_head(c.0)->Var_0.ty).len() + arrow_args(hnf_head(c.1)->Var_0.ty).len() + 1
}

/// Fresh `Fi : alphas_f -> alphas_g[i]`, named after `F` without its
/// trailing digits.
pub fn build_fi_terms(alphas_f: &Vec<Type>, alphas_g: &Vec<Type>, gen: &mut FreshNameGen, f_name: &str) -> (res: Vec<Term>)
    requires
        budget_ok(*old(gen), alphas_g.len() as nat),
    ensures
        res.deep_view() == fresh_var_terms(
            gen_run(old(gen)@, trim_digits(f_name@), alphas_g.len() as nat).0,
            alphas_f.deep_view(),
            alphas_g.deep_view(),
        ),
        final(gen)@ == gen_run(old(gen)@, trim_digits(f_name@), alphas_g.len() as nat).1,
        forall|k: nat| budget_ok(*old(gen), (alphas_g.len() + k) as nat) ==> #[trigger] budget_ok(*final(gen), k),
{
    let base = trim_trailing_digits(f_name);
    fresh_vars(gen, base.as_str(), alphas_f, alphas_g)
}

/// Fresh `Gj : alphas_g -> alphas_f[j]`, named after `G` without its
/// trailing digits.
fn build_gj_terms(alphas_f: &Vec<Type>, alphas_g: &Vec<Type>, g_name: &str, gen: &mut FreshNameGen) -> (res: Vec<Term>)
    requires
        budget_ok(*old(gen), alphas_f.len() as nat),
    ensures
        res.deep_view() == fresh_var_terms(
            gen_run(old(gen)@, trim_digits(g_name@), alphas_f.len() as nat).0,
            alphas_g.deep_view(),
            alphas_f.deep_view(),
        ),
        final(gen)@ == gen_run(old(gen)@, trim_digits(g_name@), alphas_f.len() as nat).1,
        forall|k: nat| budget_ok(*old(gen), (alphas_f.len() + k) as nat) ==> #[trigger] budget_ok(*final(gen), k),
{
    let base = trim_trailing_digits(g_name);
    fresh_vars(gen, base.as_str(), alphas_g, alphas_f)
}

/// A fresh identification variable `H : alphas_f -> alphas_g -> beta`.
fn build_h_term(alphas_f: &Vec<Type>, alphas_g: &Vec<Type>, beta: Type, gen: &mut FreshNameGen) -> (res: Term)
    requires
        budget_ok(*old(gen), 1),
    ensures
        res@ == TermV::Var(
            VariableV {
                name: gen_step(old(gen)@, "H"@).0,
                term_kind: TermKind::FVar,
                ty: arrows(alphas_f.deep_view(), arrows(alphas_g.deep_view(), beta@)),
                var: Var::Identification,
            },
        ),
        final(gen)@ == gen_step(old(gen)@, "H"@).1,
{
    let inner = build_arrows(alphas_g, &beta);
    let h_ty = build_arrows(alphas_f, &inner);
    let name = gen.fresh("H");
    Term::Var(Variable { name, term_kind: TermKind::FVar, ty: h_ty, var: Var::Identification })
}

/// Each term applied to `args`.
fn apply_each_to(fs: &Vec<Term>, args: &Vec<Term>) -> (res: Vec<Term>)
    requires
        forall|i: int| 0 <= i < fs.len() ==> applicable(#[trigger] fs.deep_view()[i], args.deep_view()),
    ensures
        res.deep_view() == apply_each(fs.deep_view(), args.deep_view()),
{
    let mut out: Vec<Term> = Vec::new();
    let mut i: usize = 0;
    while i < fs.len()
        invariant
            i <= fs.len(),
            forall|i: int| 0 <= i < fs.len() ==> applicable(#[trigger] fs.deep_view()[i], args.deep_view()),
            out.deep_view() == apply_each(fs.deep_view(), args.deep_view()).subrange(0, i as int),
        decreases fs.len() - i,
    {
        let fc = fs[i].clone();
        assert(fc@ == fs.deep_view()[i as int]);
        let t = apply_with(fc, args);
        let ghost before = out.deep_view();
        out.push(t);
        assert(out.deep_view() =~= before.push(t@));
        assert(out.deep_view() =~= apply_each(fs.deep_view(), args.deep_view()).subrange(0, i + 1));
        i += 1;
    }
    assert(out.deep_view() =~= apply_each(fs.deep_view(), args.deep_view()));
    out
}

/// `λxs. H xs (F1 xs) ... (Fm xs)`.
fn build_f_lambda(h: &Term, xs: &Vec<Variable>, fi: &Vec<Term>) -> (res: Term)
    requires
        forall|i: int| 0 <= i < fi.len() ==> applicable(#[trigger] fi.deep_view()[i], var_terms(xs.deep_view())),
        applicable(h@, var_terms(xs.deep_view())),
        applicable(apply_spine(h@, var_terms(xs.deep_view())), apply_each(fi.deep_view(), var_terms(xs.deep_view()))),
    ensures
        res@ == wrap_abs(
            xs.deep_view(),
            apply_spine(apply_spine(h@, var_terms(xs.deep_view())), apply_each(fi.deep_view(), var_terms(xs.deep_view()))),
        ),
{
    let xs_terms = vars_to_terms(xs);
    let app_fis = apply_each_to(fi, &xs_terms);
    let body = apply_with(h.clone(), &xs_terms);
    let body = apply_with(body, &app_fis);
    wrap_with_abstractions(&body, xs)
}

/// `λys. H (G1 ys) ... (Gn ys) ys`.
fn build_g_lambda(h: &Term, ys: &Vec<Variable>, gj: &Vec<Term>) -> (res: Term)
    requires
        forall|i: int| 0 <= i < gj.len() ==> applicable(#[trigger] gj.deep_view()[i], var_terms(ys.deep_view())),
        applicable(h@, apply_each(gj.deep_view(), var_terms(ys.deep_view()))),
        applicable(apply_spine(h@, apply_each(gj.deep_view(), var_terms(ys.deep_view()))), var_terms(ys.deep_view())),
    ensures
        res@ == wrap_abs(
            ys.deep_view(),
            apply_spine(apply_spine(h@, apply_each(gj.deep_view(), var_terms(ys.deep_view()))), var_terms(ys.deep_view())),
        ),
{
    let ys_terms = vars_to_terms(ys);
    let app_gjs = apply_each_to(gj, &ys_terms);
    let body = apply_with(h.clone(), &app_gjs);
    let body = apply_with(body, &ys_terms);
    wrap_with_abstractions(&body, ys)
}

proof fn lemma_fresh_apps_typed(fs: Seq<TermV>, names: Seq<Seq<char>>, arg_tys: Seq<TypeV>, res_tys: Seq<TypeV>, args: Seq<TermV>)
    requires
        fs == fresh_var_terms(names, arg_tys, res_tys),
        args.len() == arg_tys.len(),
        forall|i: int| 0 <= i < args.len() ==> type_of(#[trigger] args[i]) == arg_tys[i],
    ensures
        forall|i: int| 0 <= i < fs.len() ==> applicable(#[trigger] fs[i], args),
        forall|i: int| 0 <= i < fs.len() ==> type_of(#[trigger] apply_each(fs, args)[i]) == res_tys[i],
{
    assert forall|i: int| 0 <= i < fs.len() implies applicable(#[trigger] fs[i], args) && type_of(apply_each(fs, args)[i]) == res_tys[i] by {
        lemma_arrows_args(arg_tys, res_tys[i]);
        assert(typed_app(type_of(fs[i]), args));
        lemma_typed_app(fs[i], args);
    }
}

/// Binds both free heads to a common fresh identification variable.
pub fn apply_identification(constraint: &Constraint, state: &State, config: &Config) -> (res: Vec<State>)
    requires
        identification_shape(constraint@),
        fits_fresh(constraint.0@, constraint.1@, identification_arity(constraint@)),
        exceeds(state@.binding_counts, BindingKind::Identification, 1, *config) || can_add(
            state@.binding_counts,
            BindingKind::Identification,
            1,
        ),
    ensures
        res.deep_view() == identification_result(constraint@, state@, *config),
{
    let Constraint(lhs, rhs) = constraint;
    let mut generator = init_fresh_gen2(lhs, rhs);
    let (_bs_s, head_s, _args_s) = flatten_hnf(lhs);
    let (_bs_t, head_t, _args_t) = flatten_hnf(rhs);
    let (f_name, f_ty) = head_s.get_fvar().unwrap();
    let (g_name, g_ty) = head_t.get_fvar().unwrap();
    let (alphas_f, beta_f) = f_ty.split_arrow();
    let (alphas_g, beta_g) = g_ty.split_arrow();
    if !beta_f.equals(&beta_g) {
        let out: Vec<State> = Vec::new();
        assert(out.deep_view() =~= identification_result(constraint@, state@, *config));
        return out;
    }
    let xs = build_bound_vars(&alphas_f, "x");
    let ys = build_bound_vars(&alphas_g, "y");
    proof {
        lemma_budget_start(generator, term_size(lhs@) + term_size(rhs@), (alphas_g.len() + alphas_f.len() + 1) as nat);
    }
    proof {
        lemma_budget_mono(generator, (alphas_g.len() + alphas_f.len() + 1) as nat, alphas_g.len() as nat);
    }
    let ghost before_fi = generator;
    let fi = build_fi_terms(&alphas_f, &alphas_g, &mut generator, f_name.as_str());
    assert(budget_ok(before_fi, (alphas_g.len() + (alphas_f.len() + 1) as nat) as nat));
    assert(budget_ok(generator, (alphas_f.len() + 1) as nat));
    proof {
        lemma_budget_mono(generator, (alphas_f.len() + 1) as nat, alphas_f.len() as nat);
    }
    let ghost before_gj = generator;
    let gj = build_gj_terms(&alphas_f, &alphas_g, g_name.as_str(), &mut generator);
    assert(budget_ok(before_gj, (alphas_f.len() + 1nat) as nat));
    assert(budget_ok(generator, 1));
    let h_term = build_h_term(&alphas_f, &alphas_g, beta_f.clone(), &mut generator);
    let ghost xs_t = var_terms(xs.deep_view());
    let ghost ys_t = var_terms(ys.deep_view());
    proof {
        lemma_fresh_apps_typed(fi.deep_view(), gen_run(GenV { used: names2(lhs@, rhs@), counter: 1 }, trim_digits(f_name@), alphas_g.len() as nat).0, alphas_f.deep_view(), alphas_g.deep_view(), xs_t);
        lemma_fresh_apps_typed(gj.deep_view(), gen_run(gen_run(GenV { used: names2(lhs@, rhs@), counter: 1 }, trim_digits(f_name@), alphas_g.len() as nat).1, trim_digits(g_name@), alphas_f.len() as nat).0, alphas_g.deep_view(), alphas_f.deep_view(), ys_t);
        let hty = arrows(alphas_f.deep_view(), arrows(alphas_g.deep_view(), beta_f@));
        lemma_arrows_args(alphas_f.deep_view(), arrows(alphas_g.deep_view(), beta_f@));
        lemma_arrows_args(alphas_g.deep_view(), beta_f@);
        assert(typed_app(hty, xs_t));
        lemma_typed_app(h_term@, xs_t);
        let ax = apply_each(fi.deep_view(), xs_t);
        assert(typed_app(type_of(apply_spine(h_term@, xs_t)), ax));
        lemma_typed_app(apply_spine(h_term@, xs_t), ax);
        let ag = apply_each(gj.deep_view(), ys_t);
        assert(typed_app(hty, ag));
        lemma_typed_app(h_term@, ag);
        assert(skip_args(hty, ag.len()) == arrows(alphas_g.deep_view(), beta_f@));
        assert(typed_app(type_of(apply_spine(h_term@, ag)), ys_t));
        lemma_typed_app(apply_spine(h_term@, ag), ys_t);
    }
    let f_lam = build_f_lambda(&h_term, &xs, &fi);
    let g_lam = build_g_lambda(&h_term, &ys, &gj);
    assert((f_lam@, g_lam@) == identification_lambdas(constraint@));
    let new_subst = state.subst.clone().push(f_name.clone(), f_lam).push(g_name.clone(), g_lam);
    let new_state = try_binding(state, BindingKind::Identification, 1, constraint, new_subst, config, Step::Identification);
    let mut out: Vec<State> = Vec::new();
    out.push(new_state);
    assert(out.deep_view() =~= identification_result(constraint@, state@, *config));
    out
}

} // verus!
