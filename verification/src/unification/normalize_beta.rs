//! Normalize (β): `λx. s ?= λx. t` becomes `λx. s↓ ?= λx. t↓`, where `↓`
//! reduces head β-redexes.
use crate::names::same_text;
use crate::term::{Constraint, ConstraintV, Term, TermKind, TermV, TypeV, Variable, VariableV, variable_refs_equal};
use crate::tree::{State, StateV, Step, successor};
use crate::utils::{collect_lambdas, get_abs, lambdas, strip_lambdas, wrap_abs, wrap_with_abstractions};
use vstd::prelude::*;

verus! {

/// A term is in head normal form unless it applies an abstraction.
pub open spec fn hnf(t: TermV) -> bool {
    match t {
        TermV::App { func, .. } => !(*func is Abs),
        _ => true,
    }
}

/// `t` with the bound variable named like `p` replaced by `a`; an
/// abstraction that binds the same name again is left alone.
pub open spec fn subst_bvar(t: TermV, p: VariableV, a: TermV) -> TermV
    decreases t,
{
    match t {
        TermV::Var(v) => if v.term_kind == TermKind::BVar && v.name == p.name {
            a
        } else {
            t
        },
        TermV::Abs { param, body } => if param.name == p.name {
            t
        } else {
            TermV::Abs { param, body: Box::new(subst_bvar(*body, p, a)) }
        },
        TermV::App { func, arg, result_ty } => TermV::App {
            func: Box::new(subst_bvar(*func, p, a)),
            arg: Box::new(subst_bvar(*arg, p, a)),
            result_ty,
        },
    }
}

/// One head β-step: `(λx. b) a` becomes `b[x := a]`.
pub open spec fn beta_step(t: TermV) -> Option<TermV> {
    match t {
        TermV::App { func, arg, .. } => match *func {
            TermV::Abs { param, body } => Some(subst_bvar(*body, param, *arg)),
            _ => None,
        },
        _ => None,
    }
}

/// Head β-reduction of `t` stops within `n` steps.
pub open spec fn hn_within(t: TermV, n: nat) -> bool
    decreases n,
{
    match beta_step(t) {
        None => true,
        Some(t2) => n > 0 && hn_within(t2, (n - 1) as nat),
    }
}

/// `t` after at most `n` head β-steps.
pub open spec fn hn_iter(t: TermV, n: nat) -> TermV
    decreases n,
{
    match beta_step(t) {
        None => t,
        Some(t2) => if n == 0 {
            t
        } else {
            hn_iter(t2, (n - 1) as nat)
        },
    }
}

/// Head β-reduction of `t` stops.
pub open spec fn hn_terminates(t: TermV) -> bool {
    exists|n: nat| hn_within(t, n)
}

/// The head normal form of `t`, where head β-reduction stops.
pub open spec fn head_normal(t: TermV) -> TermV {
    hn_iter(t, choose|n: nat| hn_within(t, n))
}

/// Any bound within which reduction stops leads to the same result.
pub proof fn lemma_hn_iter_unique(t: TermV, n: nat, m: nat)
    requires
        hn_within(t, n),
        hn_within(t, m),
    ensures
        hn_iter(t, n) == hn_iter(t, m),
    decreases n,
{
    if let Some(t2) = beta_step(t) {
        lemma_hn_iter_unique(t2, (n - 1) as nat, (m - 1) as nat);
    }
}

/// The result of head reduction is in head normal form.
pub proof fn law_head_normal_is_hnf(t: TermV, n: nat)
    requires
        hn_within(t, n),
    ensures
        hnf(hn_iter(t, n)),
    decreases n,
{
    if let Some(t2) = beta_step(t) {
        law_head_normal_is_hnf(t2, (n - 1) as nat);
    }
}

/// Same binders, and some body not in head normal form.
pub open spec fn normalizable_beta(lhs: TermV, rhs: TermV) -> bool {
    lambdas(lhs) == lambdas(rhs) && (!hnf(strip_lambdas(lhs)) || !hnf(strip_lambdas(rhs)))
}

/// `t` without its first `k` abstractions (fewer if it has fewer).
pub open spec fn peel(t: TermV, k: nat) -> TermV
    decreases k,
{
    if k == 0 {
        t
    } else {
        match t {
            TermV::Abs { body, .. } => peel(*body, (k - 1) as nat),
            _ => t,
        }
    }
}

/// The number of binders both sides have.
pub open spec fn shared_binders(c: ConstraintV) -> nat {
    if lambdas(c.0).len() <= lambdas(c.1).len() {
        lambdas(c.0).len()
    } else {
        lambdas(c.1).len()
    }
}

/// What the rule produces: a β-step on a left redex, else on a right redex,
/// else, for two abstractions, both bodies under all binders the two sides
/// share head-normalized (the left binders kept on both sides), else
/// nothing.
pub open spec fn normalize_beta_result(c: ConstraintV, s: StateV) -> Seq<StateV> {
    if beta_step(c.0) is Some {
        seq![successor(s, seq![ConstraintV(beta_step(c.0).unwrap(), c.1)], s.subst, Step::NormalizeBeta)]
    } else if beta_step(c.1) is Some {
        seq![successor(s, seq![ConstraintV(c.0, beta_step(c.1).unwrap())], s.subst, Step::NormalizeBeta)]
    } else if c.0 is Abs && c.1 is Abs {
        let k = shared_binders(c);
        let bs = lambdas(c.0).take(k as int);
        seq![
            successor(
                s,
                seq![
                    ConstraintV(
                        wrap_abs(bs, head_normal(peel(c.0, k))),
                        wrap_abs(bs, head_normal(peel(c.1, k))),
                    ),
                ],
                s.subst,
                Step::NormalizeBeta,
            ),
        ]
    } else {
        Seq::empty()
    }
}

/// Head normalization under the shared binders of two abstractions stops
/// within `n` steps for each side.
pub open spec fn beta_within(c: ConstraintV, n: nat) -> bool {
    (beta_step(c.0) is None && beta_step(c.1) is None && c.0 is Abs && c.1 is Abs) ==> (
    hn_within(peel(c.0, shared_binders(c)), n) && hn_within(peel(c.1, shared_binders(c)), n))
}

/// Head normalization under the shared binders of two abstractions stops.
pub open spec fn beta_ok(c: ConstraintV) -> bool {
    (beta_step(c.0) is None && beta_step(c.1) is None && c.0 is Abs && c.1 is Abs) ==> (
    hn_terminates(peel(c.0, shared_binders(c))) && hn_terminates(peel(c.1, shared_binders(c))))
}

/// `t` without its first `k` abstractions.
fn peel_lambdas(t: Term, k: usize) -> (res: Term)
    ensures
        res@ == peel(t@, k as nat),
{
    let ghost t0 = t@;
    let mut cur = t;
    let mut i: usize = k;
    while i > 0
        invariant
            t0 == t@,
            peel(cur@, i as nat) == peel(t0, k as nat),
        decreases i,
    {
        if !cur.is_abs() {
            assert(peel(cur@, i as nat) == cur@);
            return cur;
        }
        match cur {
            Term::Abs { param, body } => {
                cur = *body;
                i -= 1;
            },
            other => {
                cur = other;
            },
        }
    }
    cur
}

/// Whether the term is in head normal form.
fn is_hnf(term: &Term) -> (res: bool)
    ensures
        res == hnf(term@),
{
    match term {
        Term::App { func, .. } => !func.is_abs(),
        _ => true,
    }
}

/// Whether both sides have the same binders and some body is not in head
/// normal form.
pub fn is_normalizable_beta(lhs: &Term, rhs: &Term) -> (res: bool)
    ensures
        res == normalizable_beta(lhs@, rhs@),
{
    let (bs_l, core_l) = get_abs(lhs);
    let (bs_r, core_r) = get_abs(rhs);
    if !variable_refs_equal(&bs_l, &bs_r) {
        return false;
    }
    !is_hnf(core_l) || !is_hnf(core_r)
}

/// Replaces the bound variable named like `param` by `arg`.
fn substitute(term: &Term, param: &Variable, arg: &Term) -> (res: Term)
    ensures
        res@ == subst_bvar(term@, param@, arg@),
    decreases term,
{
    match term {
        Term::Var(v) => {
            if v.term_kind == TermKind::BVar && same_text(&v.name, &param.name) {
                arg.clone()
            } else {
                Term::Var(v.clone())
            }
        },
        Term::Abs { param: p, body } => {
            if same_text(&p.name, &param.name) {
                Term::Abs { param: p.clone(), body: Box::new((**body).clone()) }
            } else {
                Term::Abs { param: p.clone(), body: Box::new(substitute(body, param, arg)) }
            }
        },
        Term::App { func, arg: a, result_ty } => Term::App {
            func: Box::new(substitute(func, param, arg)),
            arg: Box::new(substitute(a, param, arg)),
            result_ty: result_ty.clone(),
        },
    }
}

/// The redex `(λx. b) a` reduced, if `t` is one.
fn reduce_head(t: &Term) -> (res: Option<Term>)
    ensures
        match res {
            Some(r) => beta_step(t@) == Some(r@),
            None => beta_step(t@) is None,
        },
{
    match t {
        Term::App { func, arg, .. } => {
            let f: &Term = func;
            match f {
                Term::Abs { param, body } => {
                    let b: &Term = body;
                    let a: &Term = arg;
                    assert(f@ == TermV::Abs { param: param@, body: Box::new(b@) });
                    assert(t@->App_func == Box::new(f@));
                    assert(t@->App_arg == Box::new(a@));
                    Some(substitute(b, param, a))
                },
                _ => None,
            }
        },
        _ => None,
    }
}

/// Reduces head β-redexes until the term is in head normal form.
fn head_normalize(t: Term) -> (res: Term)
    requires
        hn_terminates(t@),
    ensures
        res@ == head_normal(t@),
{
    let ghost n0 = choose|n: nat| hn_within(t@, n);
    let ghost mut fuel = n0;
    let mut cur = t;
    loop
        invariant
            hn_within(cur@, fuel),
            hn_iter(cur@, fuel) == hn_iter(t@, n0),
            hn_within(t@, n0),
        decreases fuel,
    {
        match reduce_head(&cur) {
            Some(next) => {
                proof {
                    fuel = (fuel - 1) as nat;
                }
                cur = next;
            },
            None => {
                assert(hn_iter(cur@, fuel) == cur@);
                proof {
                    lemma_hn_iter_unique(t@, n0, choose|n: nat| hn_within(t@, n));
                }
                return cur;
            },
        }
    }
}

/// Applies a head β-step, or head-normalizes the bodies of two abstractions.
pub fn apply_normalize_beta(constraint: Constraint, state: &State) -> (res: Vec<State>)
    requires
        beta_ok(constraint@),
    ensures
        res.deep_view() == normalize_beta_result(constraint@, state@),
{
    let Constraint(lhs, rhs) = constraint;
    let mut out: Vec<State> = Vec::new();
    if let Some(reduced) = reduce_head(&lhs) {
        let mut cs: Vec<Constraint> = Vec::new();
        cs.push(Constraint(reduced, rhs));
        assert(cs.deep_view() =~= seq![ConstraintV(beta_step(lhs@).unwrap(), rhs@)]);
        out.push(state.with_subst_and_count(cs, state.subst.clone(), Step::NormalizeBeta));
        assert(out.deep_view() =~= normalize_beta_result(constraint@, state@));
        return out;
    }
    if let Some(reduced) = reduce_head(&rhs) {
        let mut cs: Vec<Constraint> = Vec::new();
        cs.push(Constraint(lhs, reduced));
        assert(cs.deep_view() =~= seq![ConstraintV(lhs@, beta_step(rhs@).unwrap())]);
        out.push(state.with_subst_and_count(cs, state.subst.clone(), Step::NormalizeBeta));
        assert(out.deep_view() =~= normalize_beta_result(constraint@, state@));
        return out;
    }
    if lhs.is_abs() && rhs.is_abs() {
        let (bl, _) = collect_lambdas(&lhs);
        let (br, _) = collect_lambdas(&rhs);
        let k = if bl.len() <= br.len() { bl.len() } else { br.len() };
        let mut bs: Vec<Variable> = Vec::new();
        let mut j: usize = 0;
        while j < k
            invariant
                j <= k <= bl.len(),
                bs.deep_view() == bl.deep_view().take(j as int),
            decreases k - j,
        {
            let v = bl[j].clone();
            assert(v@ == bl.deep_view()[j as int]);
            let ghost before = bs.deep_view();
            bs.push(v);
            assert(bs.deep_view() =~= before.push(bl.deep_view()[j as int]));
            assert(bs.deep_view() =~= bl.deep_view().take(j + 1));
            j += 1;
        }
        let s_hnf = head_normalize(peel_lambdas(lhs, k));
        let t_hnf = head_normalize(peel_lambdas(rhs, k));
        let new_l = wrap_with_abstractions(&s_hnf, &bs);
        let new_r = wrap_with_abstractions(&t_hnf, &bs);
        let mut cs: Vec<Constraint> = Vec::new();
        let c = Constraint(new_l, new_r);
        let ghost cv = c@;
        cs.push(c);
        assert(cs.deep_view() =~= seq![cv]);
        out.push(state.with_subst_and_count(cs, state.subst.clone(), Step::NormalizeBeta));
        assert(out.deep_view() =~= normalize_beta_result(constraint@, state@));
        out
    } else {
        assert(out.deep_view() =~= normalize_beta_result(constraint@, state@));
        out
    }
}


/// Head-normalizes `t` with at most `fuel` β-steps: the head normal form
/// when reduction stops within them, else none.
pub fn head_normalize_within(t: Term, fuel: usize) -> (res: Option<Term>)
    ensures
        match res {
            Some(r) => hn_within(t@, fuel as nat) && r@ == head_normal(t@),
            None => !hn_within(t@, fuel as nat),
        },
{
    let ghost t0 = t@;
    let mut cur = t;
    let mut left: usize = fuel;
    loop
        invariant
            t0 == t@,
            hn_within(t0, fuel as nat) <==> hn_within(cur@, left as nat),
            hn_within(cur@, left as nat) ==> hn_iter(cur@, left as nat) == hn_iter(t0, fuel as nat),
            left <= fuel,
        decreases left,
    {
        match reduce_head(&cur) {
            Some(next) => {
                if left == 0 {
                    return None;
                }
                left -= 1;
                cur = next;
            },
            None => {
                assert(hn_within(cur@, left as nat));
                assert(hn_iter(cur@, left as nat) == cur@);
                proof {
                    lemma_hn_iter_unique(t0, fuel as nat, choose|n: nat| hn_within(t0, n));
                }
                return Some(cur);
            },
        }
    }
}

/// Whether head normalization under the shared binders stops within
/// `fuel` steps on each side, where the rule needs it.
pub fn check_beta_within(constraint: &Constraint, fuel: usize) -> (res: bool)
    ensures
        res == beta_within(constraint@, fuel as nat),
{
    if constraint.0.is_abs() && constraint.1.is_abs() && reduce_head(&constraint.0).is_none() && reduce_head(&constraint.1).is_none() {
        let (bl, _) = collect_lambdas(&constraint.0);
        let (br, _) = collect_lambdas(&constraint.1);
        let k = if bl.len() <= br.len() { bl.len() } else { br.len() };
        let l = peel_lambdas(constraint.0.clone(), k);
        let r = peel_lambdas(constraint.1.clone(), k);
        head_normalize_within(l, fuel).is_some() && head_normalize_within(r, fuel).is_some()
    } else {
        true
    }
}

/// Stopping within some number of steps means stopping.
pub proof fn lemma_beta_within_ok(c: ConstraintV, n: nat)
    requires
        beta_within(c, n),
    ensures
        beta_ok(c),
{
    if beta_step(c.0) is None && beta_step(c.1) is None && c.0 is Abs && c.1 is Abs {
        assert(hn_within(peel(c.0, shared_binders(c)), n));
        assert(hn_within(peel(c.1, shared_binders(c)), n));
    }
}

/// Normalize-β with at most `fuel` β-steps for each body it
/// head-normalizes: the rule's result when that suffices, else none.
pub fn apply_normalize_beta_within(constraint: Constraint, state: &State, fuel: usize) -> (res: Option<Vec<State>>)
    ensures
        match res {
            Some(v) => beta_within(constraint@, fuel as nat) && v.deep_view() == normalize_beta_result(constraint@, state@),
            None => !beta_within(constraint@, fuel as nat),
        },
{
    if !check_beta_within(&constraint, fuel) {
        return None;
    }
    proof {
        lemma_beta_within_ok(constraint@, fuel as nat);
    }
    Some(apply_normalize_beta(constraint, state))
}


/// Whether a bound variable named `x` occurs in `t` outside every
/// abstraction that binds `x`.
pub open spec fn occurs_free(x: Seq<char>, t: TermV) -> bool
    decreases t,
{
    match t {
        TermV::Var(v) => v.term_kind == TermKind::BVar && v.name == x,
        TermV::Abs { param, body } => param.name != x && occurs_free(x, *body),
        TermV::App { func, arg, .. } => occurs_free(x, *func) || occurs_free(x, *arg),
    }
}

/// Substitution replaces every free occurrence of the parameter, also under
/// abstractions that bind other names: unless the argument itself mentions
/// the parameter, none is left.
pub proof fn law_substitution_leaves_no_free_parameter(t: TermV, p: VariableV, a: TermV)
    requires
        !occurs_free(p.name, a),
    ensures
        !occurs_free(p.name, subst_bvar(t, p, a)),
    decreases t,
{
    match t {
        TermV::Var(_) => {},
        TermV::Abs { param, body } => {
            law_substitution_leaves_no_free_parameter(*body, p, a);
        },
        TermV::App { func, arg, .. } => {
            law_substitution_leaves_no_free_parameter(*func, p, a);
            law_substitution_leaves_no_free_parameter(*arg, p, a);
        },
    }
}

/// Substitution changes nothing in a term where the parameter does not
/// occur free, in particular below an abstraction that rebinds it.
pub proof fn law_substitution_without_occurrence(t: TermV, p: VariableV, a: TermV)
    requires
        !occurs_free(p.name, t),
    ensures
        subst_bvar(t, p, a) == t,
    decreases t,
{
    match t {
        TermV::Var(_) => {},
        TermV::Abs { param, body } => {
            if param.name != p.name {
                law_substitution_without_occurrence(*body, p, a);
            }
        },
        TermV::App { func, arg, .. } => {
            law_substitution_without_occurrence(*func, p, a);
            law_substitution_without_occurrence(*arg, p, a);
        },
    }
}

/// Substitution keeps the other free bound variables of the term.
pub proof fn law_substitution_keeps_other_variables(t: TermV, p: VariableV, a: TermV, y: Seq<char>)
    requires
        y != p.name,
        occurs_free(y, t),
    ensures
        occurs_free(y, subst_bvar(t, p, a)),
    decreases t,
{
    match t {
        TermV::Var(_) => {},
        TermV::Abs { param, body } => {
            if param.name != p.name {
                law_substitution_keeps_other_variables(*body, p, a, y);
            }
        },
        TermV::App { func, arg, .. } => {
            if occurs_free(y, *func) {
                law_substitution_keeps_other_variables(*func, p, a, y);
            } else {
                law_substitution_keeps_other_variables(*arg, p, a, y);
            }
        },
    }
}

/// A head β-step `(λx. b) a` leaves no free `x` (unless `a` has one) and
/// keeps the other free variables of `b`.
pub proof fn law_beta_step_substitutes(p: VariableV, b: TermV, a: TermV, ty: TypeV, y: Seq<char>)
    ensures
        beta_step(TermV::App { func: Box::new(TermV::Abs { param: p, body: Box::new(b) }), arg: Box::new(a), result_ty: ty })
            == Some(subst_bvar(b, p, a)),
        !occurs_free(p.name, a) ==> !occurs_free(p.name, subst_bvar(b, p, a)),
        y != p.name && occurs_free(y, b) ==> occurs_free(y, subst_bvar(b, p, a)),
{
    if !occurs_free(p.name, a) {
        law_substitution_leaves_no_free_parameter(b, p, a);
    }
    if y != p.name && occurs_free(y, b) {
        law_substitution_keeps_other_variables(b, p, a, y);
    }
}

} // verus!
