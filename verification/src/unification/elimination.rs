//! Elimination: for `λx. F s ?= λx. F t`, bind `F := λx1...xn. G x(j1)...x(jk)`
//! for every strictly increasing choice `j1 < ... < jk` of argument
//! positions, with a fresh elimination variable `G`.
use crate::counter::{BindingKind, Config, can_add, exceeds};
use crate::names::{FreshNameGen, GenV, budget_ok, gen_step, lemma_budget_start};
use crate::term::{term_view, Constraint, ConstraintV, Term, TermKind, TermV, Type, TypeV, Var, Variable, VariableV, arrow_args, arrow_result, arrows};
use crate::tree::{State, StateV, Step, binding_result, subst_push};
use crate::utils::{bound_vars, build_arrows, build_bound_vars, fits_fresh, flatten_hnf, hnf_head, init_fresh_gen1, term_names, term_size, trim_digits, trim_trailing_digits, wrap_abs, wrap_with_abstractions};
use vstd::prelude::*;

verus! {

/// The strictly increasing choices of `k` elements of `input` from position
/// `start` on, in lexicographic order of positions.
pub open spec fn subseqs(input: Seq<usize>, start: int, k: nat) -> Seq<Seq<usize>>
    decreases input.len() - start,
{
    if k == 0 {
        seq![Seq::empty()]
    } else if start >= input.len() || start < 0 {
        Seq::empty()
    } else {
        subseqs(input, start + 1, (k - 1) as nat).map_values(|s: Seq<usize>| seq![input[start]] + s)
            + subseqs(input, start + 1, k)
    }
}

/// Appends to `out` every extension of `current` to length `k` by a choice of
/// elements of `input` from position `start` on.
fn combinations_rec(input: &Vec<usize>, k: usize, start: usize, current: &mut Vec<usize>, out: &mut Vec<Vec<usize>>)
    requires
        old(current).len() <= k,
        start <= input.len(),
    ensures
        final(current)@ == old(current)@,
        final(out).deep_view() == old(out).deep_view() + subseqs(input@, start as int, (k - old(current).len()) as nat).map_values(
            |s: Seq<usize>| old(current)@ + s,
        ),
    decreases input.len() - start,
{
    let ghost cur0 = current@;
    let ghost out0 = out.deep_view();
    let ghost r = (k - current.len()) as nat;
    if current.len() == k {
        let done = current.clone();
        assert(done@ == cur0);
        assert(done.deep_view() =~= cur0);
        assert(subseqs(input@, start as int, r) =~= seq![Seq::<usize>::empty()]);
        assert(cur0 + Seq::<usize>::empty() =~= cur0);
        out.push(done);
        assert(out.deep_view() =~= out0 + subseqs(input@, start as int, r).map_values(|s: Seq<usize>| cur0 + s));
        return;
    }
    let mut i = start;
    assert(subseqs(input@, start as int, r).map_values(|s: Seq<usize>| cur0 + s) =~= subseqs(input@, i as int, r).map_values(|s: Seq<usize>| cur0 + s));
    assert(out.deep_view() =~= out0);
    while i < input.len()
        invariant
            start <= i <= input.len(),
            current@ == cur0,
            current.len() < k,
            r == k - current.len(),
            r >= 1,
            out.deep_view() + subseqs(input@, i as int, r).map_values(|s: Seq<usize>| cur0 + s)
                == out0 + subseqs(input@, start as int, r).map_values(|s: Seq<usize>| cur0 + s),
        decreases input.len() - i,
    {
        let ghost out_i = out.deep_view();
        current.push(input[i]);
        combinations_rec(input, k, i + 1, current, out);
        current.pop();
        proof {
            let x = input@[i as int];
            let a = subseqs(input@, i + 1, (r - 1) as nat);
            let b = subseqs(input@, i + 1, r);
            assert(subseqs(input@, i as int, r) == a.map_values(|s: Seq<usize>| seq![x] + s) + b);
            assert(a.map_values(|s: Seq<usize>| cur0.push(x) + s) =~= a.map_values(|s: Seq<usize>| seq![x] + s).map_values(|s: Seq<usize>| cur0 + s)) by {
                assert forall|j: int| 0 <= j < a.len() implies (cur0.push(x) + a[j]) =~= cur0 + (seq![x] + a[j]) by {}
            }
            assert((a.map_values(|s: Seq<usize>| seq![x] + s) + b).map_values(|s: Seq<usize>| cur0 + s) =~= a.map_values(|s: Seq<usize>| seq![x] + s).map_values(|s: Seq<usize>| cur0 + s) + b.map_values(|s: Seq<usize>| cur0 + s));
            assert(out.deep_view() + b.map_values(|s: Seq<usize>| cur0 + s) =~= out_i + subseqs(input@, i as int, r).map_values(|s: Seq<usize>| cur0 + s));
        }
        i += 1;
    }
    assert(subseqs(input@, i as int, r).len() == 0);
    assert(out.deep_view() =~= out0 + subseqs(input@, start as int, r).map_values(|s: Seq<usize>| cur0 + s));
}

/// All strictly increasing choices of `k` elements of `indices`, in
/// lexicographic order of positions.
pub fn combinations(indices: &Vec<usize>, k: usize) -> (res: Vec<Vec<usize>>)
    ensures
        res.deep_view() == subseqs(indices@, 0, k as nat),
{
    let mut ergebnis: Vec<Vec<usize>> = Vec::new();
    let mut temp: Vec<usize> = Vec::new();
    combinations_rec(indices, k, 0, &mut temp, &mut ergebnis);
    assert(ergebnis.deep_view() =~= subseqs(indices@, 0, k as nat)) by {
        assert(temp@.len() == 0);
        assert forall|j: int| 0 <= j < subseqs(indices@, 0, k as nat).len() implies
            (Seq::<usize>::empty() + subseqs(indices@, 0, k as nat)[j]) =~= subseqs(indices@, 0, k as nat)[j] by {}
    }
    ergebnis
}

/// `G x(seq[0]) ... x(seq[m-1])` for a prefix `seq` of the choice, each
/// application typed by what is left of `G`'s type: the types of the chosen
/// arguments not applied yet, then `beta`.
pub open spec fn elim_body(g: TermV, xs: Seq<VariableV>, seq: Seq<usize>, chosen: Seq<TypeV>, beta: TypeV) -> TermV
    decreases seq.len(),
{
    if seq.len() == 0 {
        g
    } else {
        TermV::App {
            func: Box::new(elim_body(g, xs, seq.drop_last(), chosen, beta)),
            arg: Box::new(TermV::Var(xs[seq.last() as int])),
            result_ty: arrows(chosen.subrange(seq.len() as int, chosen.len() as int), beta),
        }
    }
}

/// The elimination binding for the argument choice `seq` of the head of
/// `term`.
pub open spec fn elim_lambda(term: TermV, seq: Seq<usize>) -> TermV {
    let f = hnf_head(term)->Var_0;
    let alphas = arrow_args(f.ty);
    let (g_name, _) = gen_step(GenV { used: term_names(term), counter: 1 }, trim_digits(f.name));
    let chosen = Seq::new(seq.len(), |j: int| alphas[seq[j] as int]);
    let g_ty = arrows(chosen, arrow_result(f.ty));
    let g = TermV::Var(VariableV { name: g_name, term_kind: TermKind::FVar, ty: g_ty, var: Var::Elimination });
    let xs = bound_vars(alphas, "x"@);
    wrap_abs(xs, elim_body(g, xs, seq, chosen, arrow_result(f.ty)))
}

/// The positions `0 .. n`.
pub open spec fn positions(n: nat) -> Seq<usize> {
    Seq::new(n, |i: int| i as usize)
}

/// The elimination states for choices of `1 ..= m` positions.
pub open spec fn elim_upto(term: TermV, s: StateV, cfg: Config, c: ConstraintV, m: nat) -> Seq<StateV>
    decreases m,
{
    if m == 0 {
        Seq::empty()
    } else {
        let f = hnf_head(term)->Var_0;
        let n = arrow_args(f.ty).len();
        elim_upto(term, s, cfg, c, (m - 1) as nat) + subseqs(positions(n), 0, m).map_values(
            |seq: Seq<usize>|
                binding_result(
                    s,
                    BindingKind::Elimination,
                    (n - seq.len()) as nat,
                    c,
                    subst_push(s.subst, f.name, elim_lambda(term, seq)),
                    cfg,
                    Step::Elimination,
                ),
        )
    }
}

/// All elimination states for the head of `term`; none unless it is a free
/// variable with at least one argument.
pub open spec fn elimination_result(term: TermV, s: StateV, cfg: Config, c: ConstraintV) -> Seq<StateV> {
    let h = hnf_head(term);
    if !(h is Var && h->Var_0.term_kind == TermKind::FVar) {
        Seq::empty()
    } else {
        elim_upto(term, s, cfg, c, arrow_args(h->Var_0.ty).len())
    }
}

/// The counts can take any number of eliminations up to `n`, or the limits
/// stop them first.
pub open spec fn elimination_countable(s: StateV, cfg: Config, n: nat) -> bool {
    forall|r: nat| r <= n ==> #[trigger] exceeds(s.binding_counts, BindingKind::Elimination, r, cfg) || can_add(
        s.binding_counts,
        BindingKind::Elimination,
        r,
    )
}

/// `λx1...xn. G x(j1)...x(jk)` for a fresh `G`.
fn build_lambda(term: &Term, f_name: &String, alphas: &Vec<Type>, beta: &Type, seq: &Vec<usize>) -> (res: Term)
    requires
        term_size(term@) + 1 <= 0x8000_0000,
        forall|j: int| 0 <= j < seq.len() ==> seq@[j] < alphas.len(),
    ensures
        res@ == ({
            let (g_name, _) = gen_step(GenV { used: term_names(term@), counter: 1 }, trim_digits(f_name@));
            let chosen = Seq::new(seq@.len(), |j: int| alphas.deep_view()[seq@[j] as int]);
            let g_ty = arrows(chosen, beta@);
            let g = TermV::Var(VariableV { name: g_name, term_kind: TermKind::FVar, ty: g_ty, var: Var::Elimination });
            let xs = bound_vars(alphas.deep_view(), "x"@);
            wrap_abs(xs, elim_body(g, xs, seq@, chosen, beta@))
        }),
{
    let mut generator = init_fresh_gen1(term);
    proof {
        lemma_budget_start(generator, term_size(term@), 1);
    }
    let base = trim_trailing_digits(f_name.as_str());
    let g_name = generator.fresh(base.as_str());
    let mut chosen: Vec<Type> = Vec::new();
    let mut j: usize = 0;
    while j < seq.len()
        invariant
            j <= seq.len(),
            forall|j: int| 0 <= j < seq.len() ==> seq@[j] < alphas.len(),
            chosen.deep_view() == Seq::new(j as nat, |q: int| alphas.deep_view()[seq@[q] as int]),
        decreases seq.len() - j,
    {
        let ghost before = chosen.deep_view();
        chosen.push(alphas[seq[j]].clone());
        assert(chosen.deep_view() =~= before.push(alphas.deep_view()[seq@[j as int] as int]));
        assert(chosen.deep_view() =~= Seq::new((j + 1) as nat, |q: int| alphas.deep_view()[seq@[q] as int]));
        j += 1;
    }
    let ghost chosen_v = chosen.deep_view();
    let g_ty = build_arrows(&chosen, beta);
    let g_head = Term::Var(Variable { name: g_name, term_kind: TermKind::FVar, ty: g_ty.clone(), var: Var::Elimination });
    let xs = build_bound_vars(alphas, "x");
    let ghost xsv = bound_vars(alphas.deep_view(), "x"@);
    let mut acc = g_head;
    let ghost g0 = acc@;
    let mut k: usize = 0;
    assert(seq@.subrange(0, 0) =~= Seq::<usize>::empty());
    while k < seq.len()
        invariant
            k <= seq.len(),
            seq.len() == chosen.len(),
            chosen.deep_view() == chosen_v,
            xs.len() == alphas.len(),
            xs.deep_view() == xsv,
            forall|j: int| 0 <= j < seq.len() ==> seq@[j] < alphas.len(),
            acc@ == elim_body(g0, xsv, seq@.subrange(0, k as int), chosen_v, beta@),
        decreases seq.len() - k,
    {
        let i = seq[k];
        assert(seq@.subrange(0, k + 1).drop_last() =~= seq@.subrange(0, k as int));
        assert(seq@.subrange(0, k + 1).last() == i);
        assert(xs.deep_view()[i as int] == xs@[i as int]@);
        let mut rest: Vec<Type> = Vec::new();
        let mut q: usize = k + 1;
        while q < chosen.len()
            invariant
                k + 1 <= q <= chosen.len(),
                rest.deep_view() == chosen.deep_view().subrange(k + 1, q as int),
            decreases chosen.len() - q,
        {
            let ghost rb = rest.deep_view();
            let t = chosen[q].clone();
            assert(t@ == chosen.deep_view()[q as int]);
            rest.push(t);
            assert(rest.deep_view() =~= rb.push(chosen.deep_view()[q as int]));
            assert(rest.deep_view() =~= chosen.deep_view().subrange(k + 1, q + 1));
            q += 1;
        }
        let ty_k = build_arrows(&rest, beta);
        let ghost prev = acc@;
        let x = xs[i].clone();
        acc = Term::App { func: Box::new(acc), arg: Box::new(Term::Var(x)), result_ty: ty_k };
        assert(term_view(*acc->func) == prev);
        assert(term_view(*acc->arg) == TermV::Var(xsv[i as int]));
        assert(seq@.subrange(0, k + 1).len() == k + 1);
        k += 1;
    }
    assert(seq@.subrange(0, k as int) =~= seq@);
    wrap_with_abstractions(&acc, &xs)
}

/// All eliminations for the free head of `term`.
pub fn apply_elimination(term: &Term, state: &State, config: &Config, constraint: &Constraint) -> (res: Vec<State>)
    requires
        term_size(term@) + 1 <= 0x8000_0000,
        fits_fresh(constraint.0@, constraint.1@, 1),
        hnf_head(term@) is Var ==> elimination_countable(state@, *config, arrow_args(hnf_head(term@)->Var_0.ty).len()),
    ensures
        res.deep_view() == elimination_result(term@, state@, *config, constraint@),
{
    let (_bs_l, head_l, _args_l) = flatten_hnf(term);
    let (f_name, f_ty) = match head_l.get_fvar() {
        Some((n, t)) => (n, t),
        None => {
            let out: Vec<State> = Vec::new();
            assert(out.deep_view() =~= elimination_result(term@, state@, *config, constraint@));
            return out;
        },
    };
    let (alphas, beta) = f_ty.split_arrow();
    let n = alphas.len();
    if n == 0 {
        let out: Vec<State> = Vec::new();
        assert(out.deep_view() =~= elimination_result(term@, state@, *config, constraint@));
        return out;
    }
    let mut result_states: Vec<State> = Vec::new();
    let mut indices: Vec<usize> = Vec::new();
    let mut q: usize = 0;
    while q < n
        invariant
            q <= n,
            indices@ == positions(q as nat),
        decreases n - q,
    {
        indices.push(q);
        assert(indices@ =~= positions((q + 1) as nat));
        q += 1;
    }
    let mut done: usize = 0;
    assert(result_states.deep_view() =~= elim_upto(term@, state@, *config, constraint@, 0));
    while done < n
        invariant
            done <= n,
            n == alphas.len(),
            n >= 1,
            indices@ == positions(n as nat),
            hnf_head(term@) is Var,
            hnf_head(term@)->Var_0.term_kind == TermKind::FVar,
            f_name@ == hnf_head(term@)->Var_0.name,
            alphas.deep_view() == arrow_args(hnf_head(term@)->Var_0.ty),
            beta@ == arrow_result(hnf_head(term@)->Var_0.ty),
            term_size(term@) + 1 <= 0x8000_0000,
            fits_fresh(constraint.0@, constraint.1@, 1),
            elimination_countable(state@, *config, n as nat),
            result_states.deep_view() == elim_upto(term@, state@, *config, constraint@, done as nat),
        decreases n - done,
    {
        let i = done + 1;
        let combos = combinations(&indices, i);
        let ghost mapped = subseqs(positions(n as nat), 0, i as nat).map_values(
            |seq: Seq<usize>|
                binding_result(
                    state@,
                    BindingKind::Elimination,
                    (n - seq.len()) as nat,
                    constraint@,
                    subst_push(state@.subst, f_name@, elim_lambda(term@, seq)),
                    *config,
                    Step::Elimination,
                ),
        );
        let ghost base = result_states.deep_view();
        let mut c: usize = 0;
        while c < combos.len()
            invariant
                c <= combos.len(),
                combos.deep_view() == subseqs(positions(n as nat), 0, i as nat),
                mapped.len() == combos.len(),
                forall|q: int| 0 <= q < mapped.len() ==> #[trigger] mapped[q] == binding_result(
                    state@,
                    BindingKind::Elimination,
                    (n - subseqs(positions(n as nat), 0, i as nat)[q].len()) as nat,
                    constraint@,
                    subst_push(state@.subst, f_name@, elim_lambda(term@, subseqs(positions(n as nat), 0, i as nat)[q])),
                    *config,
                    Step::Elimination,
                ),
                1 <= i <= n,
                n == alphas.len(),
                hnf_head(term@) is Var,
                hnf_head(term@)->Var_0.term_kind == TermKind::FVar,
                f_name@ == hnf_head(term@)->Var_0.name,
                alphas.deep_view() == arrow_args(hnf_head(term@)->Var_0.ty),
                beta@ == arrow_result(hnf_head(term@)->Var_0.ty),
                term_size(term@) + 1 <= 0x8000_0000,
                fits_fresh(constraint.0@, constraint.1@, 1),
                elimination_countable(state@, *config, n as nat),
                result_states.deep_view() == base + mapped.subrange(0, c as int),
            decreases combos.len() - c,
        {
            let seq = &combos[c];
            proof {
                lemma_subseqs_bounded(positions(n as nat), 0, i as nat, n as nat);
                assert(seq.deep_view() =~= seq@);
                assert(combos.deep_view()[c as int] == seq@);
                assert forall|j: int| 0 <= j < seq.len() implies seq@[j] < alphas.len() by {
                    assert(subseqs(positions(n as nat), 0, i as nat)[c as int][j] < n);
                }
            }
            let lam = build_lambda(term, f_name, &alphas, &beta, seq);
            assert(lam@ == elim_lambda(term@, seq@));
            let sigma2 = state.subst.clone().push(f_name.clone(), lam);
            let removed_args = n - seq.len();
            assert(exceeds(state@.binding_counts, BindingKind::Elimination, removed_args as nat, *config) || can_add(state@.binding_counts, BindingKind::Elimination, removed_args as nat));
            let new_state = state.try_binding(BindingKind::Elimination, removed_args, constraint, sigma2, config, Step::Elimination);
            assert(sigma2@ == subst_push(state@.subst, f_name@, lam@));
            assert(subseqs(positions(n as nat), 0, i as nat)[c as int] == seq@);
            assert(mapped[c as int] == binding_result(
                state@,
                BindingKind::Elimination,
                (n - seq@.len()) as nat,
                constraint@,
                subst_push(state@.subst, f_name@, elim_lambda(term@, seq@)),
                *config,
                Step::Elimination,
            ));
            assert(new_state@ == mapped[c as int]);
            let ghost before = result_states.deep_view();
            result_states.push(new_state);
            assert(result_states.deep_view() =~= before.push(new_state@));
            assert(result_states.deep_view() =~= base + mapped.subrange(0, c + 1));
            c += 1;
        }
        assert(mapped.subrange(0, c as int) =~= mapped);
        done += 1;
    }
    result_states
}

/// Every choice draws its elements from the input: when all of the input
/// lies below `bound`, so does every element of every choice.
pub proof fn lemma_subseqs_bounded(input: Seq<usize>, start: int, k: nat, bound: nat)
    requires
        0 <= start,
        forall|p: int| 0 <= p < input.len() ==> input[p] < bound,
    ensures
        forall|q: int| 0 <= q < subseqs(input, start, k).len() ==> (#[trigger] subseqs(input, start, k)[q]).len() == k,
        forall|q: int, j: int|
            0 <= q < subseqs(input, start, k).len() && 0 <= j < subseqs(input, start, k)[q].len()
                ==> #[trigger] subseqs(input, start, k)[q][j] < bound,
    decreases input.len() - start,
{
    if k > 0 && start < input.len() {
        lemma_subseqs_bounded(input, start + 1, (k - 1) as nat, bound);
        lemma_subseqs_bounded(input, start + 1, k, bound);
        let a = subseqs(input, start + 1, (k - 1) as nat);
        let am = a.map_values(|s: Seq<usize>| seq![input[start]] + s);
        let b = subseqs(input, start + 1, k);
        assert forall|q: int, j: int|
            0 <= q < subseqs(input, start, k).len() && 0 <= j < subseqs(input, start, k)[q].len()
                implies #[trigger] subseqs(input, start, k)[q][j] < bound by {
            if q < am.len() {
                assert(subseqs(input, start, k)[q] == seq![input[start]] + a[q]);
                if j > 0 {
                    assert(subseqs(input, start, k)[q][j] == a[q][j - 1]);
                }
            } else {
                assert(subseqs(input, start, k)[q] == b[q - am.len()]);
            }
        }
        assert forall|q: int| 0 <= q < subseqs(input, start, k).len() implies (#[trigger] subseqs(input, start, k)[q]).len() == k by {
            if q < am.len() {
                assert(subseqs(input, start, k)[q] == seq![input[start]] + a[q]);
            } else {
                assert(subseqs(input, start, k)[q] == b[q - am.len()]);
            }
        }
    }
}


/// The binomial coefficient: the number of ways to choose `k` of `n`.
pub open spec fn binom(n: nat, k: nat) -> nat
    decreases n,
{
    if k == 0 {
        1
    } else if n == 0 {
        0
    } else {
        binom((n - 1) as nat, (k - 1) as nat) + binom((n - 1) as nat, k)
    }
}

/// The number of ways to choose at most `m` of `n`.
pub open spec fn binom_sum(n: nat, m: nat) -> nat
    decreases m,
{
    if m == 0 {
        binom(n, 0)
    } else {
        binom_sum(n, (m - 1) as nat) + binom(n, m)
    }
}

/// Two to the power `n`.
pub open spec fn two_to(n: nat) -> nat
    decreases n,
{
    if n == 0 {
        1
    } else {
        2 * two_to((n - 1) as nat)
    }
}

/// There are `binom(n, k)` choices of `k` of `n` positions.
proof fn lemma_subseqs_len(input: Seq<usize>, start: int, k: nat)
    requires
        0 <= start <= input.len(),
    ensures
        subseqs(input, start, k).len() == binom((input.len() - start) as nat, k),
    decreases input.len() - start,
{
    if k > 0 && start < input.len() {
        lemma_subseqs_len(input, start + 1, (k - 1) as nat);
        lemma_subseqs_len(input, start + 1, k);
    }
}

/// No way to choose more than there are.
proof fn lemma_binom_zero(n: nat, k: nat)
    requires
        k > n,
    ensures
        binom(n, k) == 0,
    decreases n,
{
    if n > 0 {
        lemma_binom_zero((n - 1) as nat, (k - 1) as nat);
        lemma_binom_zero((n - 1) as nat, k);
    }
}

/// Pascal's rule for the sums.
proof fn lemma_binom_sum_pascal(n: nat, m: nat)
    requires
        n >= 1,
    ensures
        binom_sum(n, m) == binom_sum((n - 1) as nat, m) + if m >= 1 {
            binom_sum((n - 1) as nat, (m - 1) as nat)
        } else {
            0
        },
    decreases m,
{
    if m >= 1 {
        lemma_binom_sum_pascal(n, (m - 1) as nat);
    }
}

/// All choices of any number of `n` positions: `2^n`.
proof fn lemma_binom_sum_full(n: nat)
    ensures
        binom_sum(n, n) == two_to(n),
    decreases n,
{
    if n >= 1 {
        lemma_binom_sum_full((n - 1) as nat);
        lemma_binom_sum_pascal(n, n);
        lemma_binom_zero((n - 1) as nat, n);
        assert(binom_sum((n - 1) as nat, n) == binom_sum((n - 1) as nat, (n - 1) as nat) + binom((n - 1) as nat, n));
    }
}

/// The eliminations for choices of `1 ..= m` positions number the choices.
proof fn lemma_elim_upto_len(term: TermV, s: StateV, cfg: Config, c: ConstraintV, m: nat)
    requires
        m <= arrow_args(hnf_head(term)->Var_0.ty).len(),
    ensures
        elim_upto(term, s, cfg, c, m).len() + 1 == binom_sum(arrow_args(hnf_head(term)->Var_0.ty).len(), m),
    decreases m,
{
    let n = arrow_args(hnf_head(term)->Var_0.ty).len();
    if m > 0 {
        lemma_elim_upto_len(term, s, cfg, c, (m - 1) as nat);
        lemma_subseqs_len(positions(n), 0, m);
    }
}

/// Elimination for a free head with `n` arguments gives one state for each
/// non-empty choice of arguments: `2^n - 1` states.
pub proof fn law_elimination_count(term: TermV, s: StateV, cfg: Config, c: ConstraintV)
    requires
        hnf_head(term) is Var,
        hnf_head(term)->Var_0.term_kind == TermKind::FVar,
    ensures
        elimination_result(term, s, cfg, c).len() + 1 == two_to(arrow_args(hnf_head(term)->Var_0.ty).len()),
{
    let n = arrow_args(hnf_head(term)->Var_0.ty).len();
    lemma_elim_upto_len(term, s, cfg, c, n);
    lemma_binom_sum_full(n);
}

} // verus!
