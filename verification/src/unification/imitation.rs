//! Imitation: for `λx. F s ?= λx. g t` with a constant `g`, bind
//! `F := λx1...xn. g (F1 x1...xn) ... (Fm x1...xn)` with fresh `Fi`.
use crate::counter::{BindingKind, Config, can_add, exceeds, try_binding};
use crate::names::{FreshNameGen, GenV, budget_ok, gen_run, lemma_budget_start, lemma_budget_mono};
use crate::term::{Constraint, ConstraintV, Term, TermKind, TermV, Type, TypeV, Var, Variable, VariableV, arrow_args, arrow_result, head_kind, type_of};
use crate::tree::{State, StateV, Step, binding_result, subst_push};
use crate::utils::{apply_args_checked, apply_spine, bound_vars, build_bound_vars, fits_fresh, flatten_hnf, fresh_var_terms, fresh_vars, hnf_head, init_fresh_gen2, lemma_arrows_args, lemma_typed_app, names2, skip_args, term_size, typed_app, var_terms, vars_to_terms, wrap_abs, wrap_with_abstractions};
use vstd::prelude::*;

verus! {

/// Both heads have the same final result type.
pub open spec fn imitationable(head_s: TermV, head_t: TermV) -> bool {
    arrow_result(type_of(head_s)) == arrow_result(type_of(head_t))
}

/// Whether the two heads have the same final result type.
pub fn is_imitationable(head_s: &Term, head_t: &Term) -> (res: bool)
    ensures
        res == imitationable(head_s@, head_t@),
{
    let (_term_f, beta_f) = Type::split_arrow(&head_s.get_type());
    let (_term_g, beta_g) = Type::split_arrow(&head_t.get_type());
    beta_f.equals(&beta_g)
}

/// The flexible and the constant head, the left head first unless it is a
/// constant.
pub open spec fn imitation_heads(c: ConstraintV) -> (TermV, TermV) {
    let hs = hnf_head(c.0);
    let ht = hnf_head(c.1);
    if head_kind(hs) == TermKind::Const {
        (ht, hs)
    } else {
        (hs, ht)
    }
}

/// After ordering, the first head is a free variable and the second a
/// constant.
pub open spec fn imitation_shape(c: ConstraintV) -> bool {
    let (hs, ht) = imitation_heads(c);
    &&& hs is Var && hs->Var_0.term_kind == TermKind::FVar
    &&& ht is Var && ht->Var_0.term_kind == TermKind::Const
}

/// The binding that imitation makes for `F`:
/// `λx1...xn. g (F1 x1...xn) ... (Fm x1...xn)`, the `Fi` named after `F`
/// by a generator over the names of the constraint.
pub open spec fn imitation_lambda(c: ConstraintV) -> TermV {
    let (hs, ht) = imitation_heads(c);
    let f = hs->Var_0;
    let g = ht->Var_0;
    let term_f = arrow_args(f.ty);
    let term_g = arrow_args(g.ty);
    let xs = bound_vars(term_f, "x"@);
    let names = gen_run(GenV { used: names2(c.0, c.1), counter: 1 }, f.name, term_g.len()).0;
    let fis = fresh_var_terms(names, term_f, term_g);
    let fi_apps = Seq::new(term_g.len(), |i: int| apply_spine(fis[i], var_terms(xs)));
    let g_head = TermV::Var(VariableV { name: g.name, term_kind: TermKind::Const, ty: g.ty, var: Var::Basic });
    wrap_abs(xs, apply_spine(g_head, fi_apps))
}

/// The state imitation leads to.
pub open spec fn imitation_result(c: ConstraintV, s: StateV, cfg: Config) -> StateV {
    let f = imitation_heads(c).0->Var_0;
    binding_result(
        s,
        BindingKind::Imitation,
        1,
        c,
        subst_push(s.subst, f.name, imitation_lambda(c)),
        cfg,
        Step::Imitation,
    )
}

/// The number of fresh variables imitation makes.
pub open spec fn imitation_arity(c: ConstraintV) -> nat {
    arrow_args(imitation_heads(c).1->Var_0.ty).len()
}

/// Puts a constant head second.
fn maybe_swap_sides(left: &mut Term, right: &mut Term)
    ensures
        if head_kind(old(left)@) == TermKind::Const {
            final(left)@ == old(right)@ && final(right)@ == old(left)@
        } else {
            final(left)@ == old(left)@ && final(right)@ == old(right)@
        },
{
    if left.get_termkind() == TermKind::Const {
        std::mem::swap(left, right);
    }
}

/// Name and type of a free variable term.
fn extract_fvar(term: &Term) -> (res: (String, Type))
    requires
        term@ is Var,
        term@->Var_0.term_kind == TermKind::FVar,
    ensures
        res.0@ == term@->Var_0.name,
        res.1@ == term@->Var_0.ty,
{
    match term {
        Term::Var(v) => (v.name.clone(), v.ty.clone()),
        _ => (String::new(), Type::Nat),
    }
}

/// Name and type of a constant term.
fn extract_const(term: &Term) -> (res: (String, Type))
    requires
        term@ is Var,
        term@->Var_0.term_kind == TermKind::Const,
    ensures
        res.0@ == term@->Var_0.name,
        res.1@ == term@->Var_0.ty,
{
    match term {
        Term::Var(v) => (v.name.clone(), v.ty.clone()),
        _ => (String::new(), Type::Nat),
    }
}

/// The applications `Fi x1 ... xn`, one fresh `Fi : term_f -> term_g[i]` per
/// argument type of the constant.
fn build_fi_apps(
    f_name: &str,
    term_f: &Vec<Type>,
    term_g: &Vec<Type>,
    xs: &Vec<Variable>,
    gen: &mut FreshNameGen,
) -> (res: Vec<Term>)
    requires
        budget_ok(*old(gen), term_g.len() as nat),
        xs.deep_view() == bound_vars(term_f.deep_view(), "x"@),
    ensures
        res.deep_view() == Seq::new(
            term_g.len() as nat,
            |i: int|
                apply_spine(
                    fresh_var_terms(gen_run(old(gen)@, f_name@, term_g.len() as nat).0, term_f.deep_view(), term_g.deep_view())[i],
                    var_terms(xs.deep_view()),
                ),
        ),
        forall|i: int| 0 <= i < term_g.len() ==> type_of(#[trigger] res.deep_view()[i]) == term_g.deep_view()[i],
{
    let fis = fresh_vars(gen, f_name, term_f, term_g);
    let xs_terms = vars_to_terms(xs);
    assert(fis.deep_view().len() == fis.len());
    let ghost target = Seq::new(
        term_g.len() as nat,
        |i: int| apply_spine(fis.deep_view()[i], var_terms(xs.deep_view())),
    );
    let mut apps: Vec<Term> = Vec::new();
    let mut i: usize = 0;
    while i < fis.len()
        invariant
            fis.len() == term_g.len(),
            i <= fis.len(),
            xs_terms.deep_view() == var_terms(xs.deep_view()),
            xs.deep_view() == bound_vars(term_f.deep_view(), "x"@),
            fis.deep_view() == fresh_var_terms(gen_run(old(gen)@, f_name@, term_g.len() as nat).0, term_f.deep_view(), term_g.deep_view()),
            target == Seq::new(
                term_g.len() as nat,
                |i: int| apply_spine(fis.deep_view()[i], var_terms(xs.deep_view())),
            ),
            apps.deep_view() == target.subrange(0, i as int),
            forall|j: int| 0 <= j < i ==> type_of(#[trigger] apps.deep_view()[j]) == term_g.deep_view()[j],
        decreases fis.len() - i,
    {
        let ghost fi = fis.deep_view()[i as int];
        proof {
            lemma_arrows_args(term_f.deep_view(), term_g.deep_view()[i as int]);
            assert(typed_app(type_of(fi), xs_terms.deep_view()));
            lemma_typed_app(fi, xs_terms.deep_view());
        }
        let app = apply_args_checked(fis[i].clone(), &xs_terms);
        let ghost before = apps.deep_view();
        apps.push(app);
        assert(apps.deep_view() =~= before.push(app@));
        assert(apps.deep_view() =~= target.subrange(0, i + 1));
        i += 1;
    }
    assert(apps.deep_view() =~= target);
    apps
}

/// The constant `name : ty`.
fn make_const_term(name: &String, ty: &Type) -> (res: Term)
    ensures
        res@ == TermV::Var(VariableV { name: name@, term_kind: TermKind::Const, ty: ty@, var: Var::Basic }),
{
    Term::Var(Variable { name: name.clone(), term_kind: TermKind::Const, ty: ty.clone(), var: Var::Basic })
}

/// Applies `head` to the arguments, each of the expected type.
fn apply_args_to_head(head: Term, args: Vec<Term>) -> (res: Term)
    requires
        typed_app(type_of(head@), args.deep_view()),
    ensures
        res@ == apply_spine(head@, args.deep_view()),
{
    apply_args_checked(head, &args)
}

/// `λxs. body`, or `body` itself when there are no binders.
fn wrap_lambda_over_xs(body: Term, xs: &Vec<Variable>) -> (res: Term)
    ensures
        res@ == wrap_abs(xs.deep_view(), body@),
{
    if xs.len() == 0 {
        assert(xs.deep_view().len() == 0);
        body
    } else {
        wrap_with_abstractions(&body, xs)
    }
}

/// Binds the flexible head to an imitation of the constant head.
pub fn apply_imitation(constraint: &Constraint, state: &State, config: &Config) -> (res: Vec<State>)
    requires
        imitation_shape(constraint@),
        fits_fresh(constraint.0@, constraint.1@, imitation_arity(constraint@) + 1),
        exceeds(state@.binding_counts, BindingKind::Imitation, 1, *config) || can_add(
            state@.binding_counts,
            BindingKind::Imitation,
            1,
        ),
    ensures
        res.deep_view() == seq![imitation_result(constraint@, state@, *config)],
{
    let Constraint(lhs, rhs) = constraint;
    let mut generator = init_fresh_gen2(lhs, rhs);
    let (_bs_s, mut head_s, _args_s) = flatten_hnf(lhs);
    let (_bs_t, mut head_t, _args_t) = flatten_hnf(rhs);
    maybe_swap_sides(&mut head_s, &mut head_t);
    let (f_name, f_ty) = extract_fvar(&head_s);
    let (g_name, g_ty) = extract_const(&head_t);
    let (term_f, _res_f) = f_ty.split_arrow();
    let (term_g, _res_g) = g_ty.split_arrow();
    let xs = build_bound_vars(&term_f, "x");
    proof {
        lemma_budget_start(generator, term_size(lhs@) + term_size(rhs@), term_g.len() as nat);
    }
    let fi_apps = build_fi_apps(f_name.as_str(), &term_f, &term_g, &xs, &mut generator);
    let g_head_term = make_const_term(&g_name, &g_ty);
    proof {
        assert(typed_app(type_of(g_head_term@), fi_apps.deep_view()));
    }
    let body = apply_args_to_head(g_head_term, fi_apps);
    let lam = wrap_lambda_over_xs(body, &xs);
    assert(lam@ == imitation_lambda(constraint@));
    let new_subst = state.subst.clone().push(f_name.clone(), lam);
    let new_state = try_binding(state, BindingKind::Imitation, 1, constraint, new_subst, config, Step::Imitation);
    let mut out: Vec<State> = Vec::new();
    out.push(new_state);
    assert(out.deep_view() =~= seq![imitation_result(constraint@, state@, *config)]);
    out
}

} // verus!
