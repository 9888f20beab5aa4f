//! Bind: the binding rules for a constraint whose heads are not both rigid,
//! chosen by the flex/rigid shape of the two heads.
use crate::counter::{BindingCounts, BindingKind, Config, can_add, exceeds, kind_count};
use crate::term::{Constraint, ConstraintV, Term, TermKind, TermV, Var, head_kind, variables_equal, arrow_args};
use crate::tree::{PersistentSubst, State, StateV, failed_state, pairs_map, subst_lookup, subst_map};
use crate::unification::elimination::{apply_elimination, elimination_countable, elimination_result};
use crate::unification::hs_projection::{apply_hs_projection, hs_fits, hs_projection_result, projection_countable};
use crate::unification::identification::{apply_identification, identification_arity, identification_result, identification_shape};
use crate::unification::imitation::{apply_imitation, imitation_arity, imitation_result, imitation_shape, imitationable, is_imitationable};
use crate::utils::{fits_fresh, flatten_hnf, flex, hnf_head, is_elimination_variable, is_flex, is_non_identification_var, is_rigid, lambdas, lemma_spine_head_not_app, strip_lambdas, non_identification_var, rigid, spine_args, spine_head, term_size, check_fits_fresh, size_capped, capped_size};
use vstd::prelude::*;

verus! {

/// One side is flexible and the other rigid.
pub open spec fn flex_rigid(s: TermV, t: TermV) -> bool {
    (flex(s) && rigid(t)) || (rigid(s) && flex(t))
}

/// Whether one head is flexible and the other rigid.
fn is_flex_rigid(s: &Term, t: &Term) -> (res: bool)
    ensures
        res == flex_rigid(s@, t@),
{
    (is_flex(s) && is_rigid(t)) || (is_rigid(s) && is_flex(t))
}

/// The counts can take `n` more bindings of `kind`, or the limits stop them
/// first.
pub open spec fn countable(s: StateV, kind: BindingKind, n: nat, cfg: Config) -> bool {
    exceeds(s.binding_counts, kind, n, cfg) || can_add(s.binding_counts, kind, n)
}

/// The successors that binding gives:
/// - none when the binders differ or both heads are rigid;
/// - flex-rigid: imitation when a head is a constant and the result types
///   agree, then all projections of the left head unless it is bound or
///   made by identification;
/// - two different flexible heads: identification, then the projections of
///   either head unless it is bound or made by identification;
/// - the same flexible head on both sides: the eliminations of each side,
///   unless the head was made by elimination;
/// - otherwise a failed state.
pub open spec fn bind_result(c: ConstraintV, s: StateV, cfg: Config) -> Seq<StateV> {
    let hs = hnf_head(c.0);
    let ht = hnf_head(c.1);
    if lambdas(c.0) != lambdas(c.1) {
        Seq::empty()
    } else if rigid(hs) && rigid(ht) {
        Seq::empty()
    } else if flex_rigid(hs, ht) {
        (if (head_kind(ht) == TermKind::Const || head_kind(hs) == TermKind::Const) && imitationable(hs, ht) {
            seq![imitation_result(c, s, cfg)]
        } else {
            Seq::empty()
        }) + (if non_identification_var(hs, s.subst) {
            hs_projection_result(c.0, s, cfg, c)
        } else {
            Seq::empty()
        })
    } else if flex(hs) && flex(ht) && hs != ht {
        identification_result(c, s, cfg) + (if non_identification_var(hs, s.subst) {
            hs_projection_result(c.0, s, cfg, c)
        } else {
            Seq::empty()
        }) + (if non_identification_var(ht, s.subst) {
            hs_projection_result(c.1, s, cfg, c)
        } else {
            Seq::empty()
        })
    } else if flex(hs) && flex(ht) {
        if hs->Var_0.var != Var::Elimination {
            elimination_result(c.0, s, cfg, c) + elimination_result(c.1, s, cfg, c)
        } else {
            Seq::empty()
        }
    } else {
        seq![failed_state()]
    }
}

/// The sizes and counts that binding needs: fresh names stay within the
/// generator's range and no count can overflow.
pub open spec fn bind_ok(c: ConstraintV, s: StateV, cfg: Config) -> bool {
    let hs = hnf_head(c.0);
    let ht = hnf_head(c.1);
    &&& fits_fresh(c.0, c.1, 1)
    &&& imitation_shape(c) ==> fits_fresh(c.0, c.1, imitation_arity(c) + 1)
    &&& identification_shape(c) ==> fits_fresh(c.0, c.1, identification_arity(c))
    &&& term_size(c.0) + 1 <= 0x8000_0000
    &&& term_size(c.1) + 1 <= 0x8000_0000
    &&& hs is Var ==> hs_fits(c.0)
    &&& ht is Var ==> hs_fits(c.1)
    &&& countable(s, BindingKind::Imitation, 1, cfg)
    &&& countable(s, BindingKind::Identification, 1, cfg)
    &&& projection_countable(s, cfg)
    &&& hs is Var ==> elimination_countable(s, cfg, arrow_args(hs->Var_0.ty).len())
    &&& ht is Var ==> elimination_countable(s, cfg, arrow_args(ht->Var_0.ty).len())
}

/// All successors of the binding rules for `constraint`.
pub fn apply_bind(constraint: Constraint, state: &State, config: &Config) -> (res: Vec<State>)
    requires
        bind_ok(constraint@, state@, *config),
    ensures
        res.deep_view() == bind_result(constraint@, state@, *config),
{
    let Constraint(lhs, rhs) = &constraint;
    let (binders_l, head_s, _args_s) = flatten_hnf(lhs);
    let (binders_r, head_t, _args_t) = flatten_hnf(rhs);
    let ghost c = constraint@;

    if !variables_equal(&binders_l, &binders_r) {
        let out: Vec<State> = Vec::new();
        assert(out.deep_view() =~= bind_result(c, state@, *config));
        return out;
    }
    if is_rigid(&head_s) && is_rigid(&head_t) {
        let out: Vec<State> = Vec::new();
        assert(out.deep_view() =~= bind_result(c, state@, *config));
        return out;
    }
    if is_flex_rigid(&head_s, &head_t) {
        let mut new_states: Vec<State> = Vec::new();
        let kt = head_t.get_termkind();
        let ks = head_s.get_termkind();
        if kt == TermKind::Const || ks == TermKind::Const {
            if is_imitationable(&head_s, &head_t) {
                proof {
                    lemma_spine_head_not_app(strip_lambdas(c.0));
                    lemma_spine_head_not_app(strip_lambdas(c.1));
                }
                let mut im = apply_imitation(&constraint, state, config);
                new_states.append(&mut im);
            }
        }
        let ghost first = new_states.deep_view();
        if is_non_identification_var(&head_s, &state.subst) {
            let mut pr = apply_hs_projection(lhs, state, config, &constraint);
            new_states.append(&mut pr);
        }
        assert(new_states.deep_view() =~= bind_result(c, state@, *config));
        return new_states;
    }
    if is_flex(&head_s) && is_flex(&head_t) && !head_s.equals(&head_t) {
        let mut new_states = apply_identification(&constraint, state, config);
        if is_non_identification_var(&head_s, &state.subst) {
            let mut pr = apply_hs_projection(lhs, state, config, &constraint);
            new_states.append(&mut pr);
        }
        if is_non_identification_var(&head_t, &state.subst) {
            let mut pr = apply_hs_projection(rhs, state, config, &constraint);
            new_states.append(&mut pr);
        }
        assert(new_states.deep_view() =~= bind_result(c, state@, *config));
        return new_states;
    }
    if is_flex(&head_s) && is_flex(&head_t) {
        let mut results: Vec<State> = Vec::new();
        if !is_elimination_variable(&head_s) {
            let mut el = apply_elimination(lhs, state, config, &constraint);
            results.append(&mut el);
            let mut er = apply_elimination(rhs, state, config, &constraint);
            results.append(&mut er);
        }
        assert(results.deep_view() =~= bind_result(c, state@, *config));
        return results;
    }
    let mut out: Vec<State> = Vec::new();
    out.push(State::fail());
    assert(out.deep_view() =~= bind_result(c, state@, *config));
    out
}

/// Whether the free variable `var` occurs in `t`, as a free variable or as
/// the name of a binder.
pub open spec fn occurs(var: Seq<char>, t: TermV) -> bool
    decreases t,
{
    match t {
        TermV::Var(v) => v.term_kind == TermKind::FVar && v.name == var,
        TermV::Abs { param, body } => param.name == var || occurs(var, *body),
        TermV::App { func, arg, .. } => occurs(var, *func) || occurs(var, *arg),
    }
}

/// Whether `var` occurs in `term`.
fn occurs_in(var: &String, term: &Term) -> (res: bool)
    ensures
        res == occurs(var@, term@),
    decreases term,
{
    match term {
        Term::Var(v) => v.term_kind == TermKind::FVar && crate::names::same_text(&v.name, var),
        Term::Abs { param, body } => crate::names::same_text(&param.name, var) || occurs_in(var, body),
        Term::App { func, arg, .. } => occurs_in(var, func) || occurs_in(var, arg),
    }
}

/// The left side is a free variable that does not occur in the right side,
/// so that binding it to the right side needs no occurs check.
pub open spec fn bindable(lhs: TermV, rhs: TermV) -> bool {
    lhs is Var && lhs->Var_0.term_kind == TermKind::FVar && !occurs(lhs->Var_0.name, rhs)
}

/// Whether `lhs` is a free variable that does not occur in `rhs`.
pub fn is_bindable(lhs: &Term, rhs: &Term) -> (res: bool)
    ensures
        res == bindable(lhs@, rhs@),
{
    match lhs {
        Term::Var(v) => v.term_kind == TermKind::FVar && !occurs_in(&v.name, rhs),
        _ => false,
    }
}


/// Splits an application `h a1 ... an` into its head and its arguments.
pub fn deconstruct_app(t: Term) -> (res: (Term, Vec<Term>))
    ensures
        res.0@ == spine_head(t@),
        res.1.deep_view() == spine_args(t@),
{
    let ghost whole = t@;
    let mut args: Vec<Term> = Vec::new();
    let mut head = t;
    while head.is_app()
        invariant
            spine_args(head@) + args.deep_view() == spine_args(whole),
            spine_head(head@) == spine_head(whole),
        decreases head,
    {
        match head {
            Term::App { func, arg, .. } => {
                let ghost before = args.deep_view();
                args.insert(0, *arg);
                assert(args.deep_view() =~= seq![arg@] + before);
                assert(spine_args(func@) + args.deep_view() =~= spine_args(func@).push(arg@) + before);
                head = *func;
            },
            other => {
                head = other;
            },
        }
    }
    assert(spine_args(head@) + args.deep_view() =~= args.deep_view());
    (head, args)
}

/// No name is bound twice.
pub open spec fn distinct_names(s: Seq<(Seq<char>, TermV)>) -> bool {
    forall|i: int, j: int| 0 <= i < j < s.len() ==> s[i].0 != s[j].0
}

/// A name has a newest binding exactly when it is bound at all.
proof fn lemma_lookup_bound(s: Seq<(Seq<char>, TermV)>, x: Seq<char>)
    ensures
        (subst_lookup(s, x) is Some) == subst_map(s).contains_key(x),
        subst_lookup(s, x) is None ==> forall|i: int| 0 <= i < s.len() ==> s[i].0 != x,
    decreases s.len(),
{
    if s.len() > 0 {
        lemma_lookup_bound(s.drop_first(), x);
        if subst_lookup(s, x) is None {
            assert forall|i: int| 0 <= i < s.len() implies s[i].0 != x by {
                if i > 0 {
                    assert(s[i] == s.drop_first()[i - 1]);
                }
            }
        }
    }
}

/// Putting a pair in front of a list changes its map only where the rest
/// does not bind the name.
proof fn lemma_pairs_map_prepend(p: (Seq<char>, TermV), s: Seq<(Seq<char>, TermV)>)
    ensures
        pairs_map(seq![p] + s) == (if pairs_map(s).contains_key(p.0) {
            pairs_map(s)
        } else {
            pairs_map(s).insert(p.0, p.1)
        }),
    decreases s.len(),
{
    if s.len() == 0 {
        assert((seq![p] + s).drop_last() =~= Seq::<(Seq<char>, TermV)>::empty());
        assert((seq![p] + s).last() == p);
        assert(pairs_map(Seq::<(Seq<char>, TermV)>::empty()) == Map::<Seq<char>, TermV>::empty());
        assert(pairs_map(seq![p] + s) =~= Map::<Seq<char>, TermV>::empty().insert(p.0, p.1));
    } else {
        assert((seq![p] + s).drop_last() =~= seq![p] + s.drop_last());
        assert((seq![p] + s).last() == s.last());
        lemma_pairs_map_prepend(p, s.drop_last());
        if pairs_map(s).contains_key(p.0) {
            assert(pairs_map(seq![p] + s) =~= pairs_map(s));
        } else {
            assert(pairs_map(seq![p] + s) =~= pairs_map(s).insert(p.0, p.1));
        }
    }
}

/// The bindings of `sub`, with those of `new_sub` taking precedence; each
/// name is bound once.
pub fn compose_substs(sub: &PersistentSubst, new_sub: &PersistentSubst) -> (res: PersistentSubst)
    ensures
        subst_map(res@) == subst_map(sub@).union_prefer_right(subst_map(new_sub@)),
        distinct_names(res@),
{
    let mut map = sub.to_hashmap();
    let newer = new_sub.to_hashmap();
    let ghost base = map@;
    let mut i: usize = 0;
    assert(pairs_map(newer.entries.deep_view().subrange(0, 0)) =~= Map::<Seq<char>, TermV>::empty());
    assert(base.union_prefer_right(Map::<Seq<char>, TermV>::empty()) =~= base);
    while i < newer.entries.len()
        invariant
            i <= newer.entries.len(),
            map@ == base.union_prefer_right(pairs_map(newer.entries.deep_view().subrange(0, i as int))),
        decreases newer.entries.len() - i,
    {
        let name = newer.entries[i].0.clone();
        let val = newer.entries[i].1.clone();
        map.insert(name, val);
        proof {
            let s = newer.entries.deep_view().subrange(0, i + 1);
            assert(s.drop_last() =~= newer.entries.deep_view().subrange(0, i as int));
            assert(s.last() == newer.entries.deep_view()[i as int]);
            assert(map@ =~= base.union_prefer_right(pairs_map(s)));
        }
        i += 1;
    }
    assert(newer.entries.deep_view().subrange(0, i as int) =~= newer.entries.deep_view());
    let n = map.entries.len();
    let mut acc = PersistentSubst::new();
    let mut k: usize = n;
    assert(pairs_map(map.entries.deep_view().subrange(n as int, n as int)) =~= Map::<Seq<char>, TermV>::empty());
    assert(subst_map(acc@) =~= Map::<Seq<char>, TermV>::empty());
    while k > 0
        invariant
            k <= n == map.entries.len(),
            subst_map(acc@) == pairs_map(map.entries.deep_view().subrange(k as int, n as int)),
            distinct_names(acc@),
        decreases k,
    {
        k -= 1;
        let ghost e = map.entries.deep_view()[k as int];
        let ghost rest = map.entries.deep_view().subrange(k + 1, n as int);
        proof {
            assert(map.entries.deep_view().subrange(k as int, n as int) =~= seq![e] + rest);
            lemma_pairs_map_prepend(e, rest);
        }
        let name = map.entries[k].0.clone();
        proof {
            lemma_lookup_bound(acc@, name@);
        }
        if acc.lookup(&name).is_none() {
            let val = map.entries[k].1.clone();
            let ghost old_acc = acc@;
            acc = acc.push(name, val);
            proof {
                assert(acc@ == seq![(e.0, e.1)] + old_acc);
                assert(acc@.drop_first() =~= old_acc);
                assert(subst_map(acc@) =~= subst_map(old_acc).insert(e.0, e.1));
                assert forall|a: int, b: int| 0 <= a < b < acc@.len() implies acc@[a].0 != acc@[b].0 by {
                    if a > 0 {
                        assert(acc@[a] == old_acc[a - 1]);
                    }
                    assert(acc@[b] == old_acc[b - 1]);
                }
            }
        }
    }
    assert(map.entries.deep_view().subrange(0, n as int) =~= map.entries.deep_view());
    acc
}


/// The count of `kind`.
fn count_of(c: &BindingCounts, kind: BindingKind) -> (res: usize)
    ensures
        res == kind_count(*c, kind),
{
    match kind {
        BindingKind::SimpleProjection => c.simple_proj,
        BindingKind::FunctionalProjection => c.functional_proj,
        BindingKind::Elimination => c.eliminations,
        BindingKind::Imitation => c.imitations,
        BindingKind::Identification => c.identifications,
    }
}

/// Whether the counts can take `n` more bindings of `kind`, or the limits
/// stop them first.
fn check_countable(state: &State, kind: BindingKind, n: usize, cfg: &Config) -> (res: bool)
    ensures
        res == countable(state@, kind, n as nat, *cfg),
{
    let c = &state.binding_counts;
    c.would_exceed(kind, n, cfg) || (count_of(c, kind) <= usize::MAX - n && c.total <= usize::MAX - n)
}

/// Whether the counts can take any number of eliminations up to `n`, or
/// the limits stop them first.
fn check_elimination_countable(state: &State, n: usize, cfg: &Config) -> (res: bool)
    ensures
        res == elimination_countable(state@, *cfg, n as nat),
{
    let mut r: usize = 0;
    loop
        invariant
            r <= n,
            forall|q: nat| q < r ==> #[trigger] exceeds(state@.binding_counts, BindingKind::Elimination, q, *cfg)
                || can_add(state@.binding_counts, BindingKind::Elimination, q),
        decreases n - r,
    {
        if !check_countable(state, BindingKind::Elimination, r, cfg) {
            return false;
        }
        if r == n {
            return true;
        }
        r += 1;
    }
}

/// The number of argument types of a variable head; zero for other heads.
fn head_arity(h: &Term) -> (res: usize)
    ensures
        h@ is Var ==> res == arrow_args(h@->Var_0.ty).len(),
{
    match h {
        Term::Var(v) => v.ty.split_arrow().0.len(),
        _ => 0,
    }
}

/// Whether the term is a single variable.
fn is_var_term(t: &Term) -> (res: bool)
    ensures
        res == (t@ is Var),
{
    matches!(t, Term::Var(_))
}

/// Whether the head is a variable of the given kind.
fn head_is(h: &Term, k: TermKind) -> (res: bool)
    ensures
        res == (h@ is Var && h@->Var_0.term_kind == k),
{
    match h {
        Term::Var(v) => v.term_kind == k,
        _ => false,
    }
}

/// Whether each argument type of the variable head of `term`, itself taken
/// apart, fits beside the term.
fn check_hs_fits(term: &Term, head: &Term) -> (res: bool)
    requires
        head@ == hnf_head(term@),
        head@ is Var,
    ensures
        res == hs_fits(term@),
{
    let alphas = match head {
        Term::Var(v) => v.ty.split_arrow().0,
        _ => Vec::new(),
    };
    let size = size_capped(term);
    if size > 0x8000_0000 {
        proof {
            if alphas.len() > 0 {
                assert(term_size(term@) + arrow_args(alphas.deep_view()[0]).len() > 0x8000_0000);
            }
        }
        return alphas.len() == 0;
    }
    let mut i: usize = 0;
    while i < alphas.len()
        invariant
            i <= alphas.len(),
            size == term_size(term@),
            size <= 0x8000_0000,
            alphas.deep_view() == arrow_args(hnf_head(term@)->Var_0.ty),
            forall|j: int| 0 <= j < i ==> term_size(term@) + arrow_args(#[trigger] alphas.deep_view()[j]).len() <= 0x8000_0000,
        decreases alphas.len() - i,
    {
        let n = alphas[i].split_arrow().0.len();
        assert(alphas[i as int]@ == alphas.deep_view()[i as int]);
        if n as u64 > 0x8000_0000 - size {
            return false;
        }
        i += 1;
    }
    true
}

/// Whether `constraint` meets what binding needs of it.
pub fn check_bind_ok(constraint: &Constraint, state: &State, config: &Config) -> (res: bool)
    ensures
        res == bind_ok(constraint@, state@, *config),
{
    let (_b0, hs, _a0) = flatten_hnf(&constraint.0);
    let (_b1, ht, _a1) = flatten_hnf(&constraint.1);
    proof {
        lemma_spine_head_not_app(strip_lambdas(constraint.0@));
        lemma_spine_head_not_app(strip_lambdas(constraint.1@));
    }
    let s0 = size_capped(&constraint.0);
    let s1 = size_capped(&constraint.1);
    if !check_fits_fresh(&constraint.0, &constraint.1, 1) || s0 + 1 > 0x8000_0000 || s1 + 1 > 0x8000_0000 {
        return false;
    }
    // imitation: the variable head and the constant head, in that order
    let hs_const = head_is(&hs, TermKind::Const);
    let (fh, gh) = if hs_const { (&ht, &hs) } else { (&hs, &ht) };
    if head_is(fh, TermKind::FVar) && head_is(gh, TermKind::Const) {
        let m = head_arity(gh);
        if m >= 0x8000_0000 || !check_fits_fresh(&constraint.0, &constraint.1, (m + 1) as u64) {
            return false;
        }
    }
    if head_is(&hs, TermKind::FVar) && head_is(&ht, TermKind::FVar) {
        let a = head_arity(&hs);
        let b = head_arity(&ht);
        if a >= 0x8000_0000 || b >= 0x8000_0000 || !check_fits_fresh(&constraint.0, &constraint.1, (a + b + 1) as u64) {
            return false;
        }
    }
    if is_var_term(&hs) && !check_hs_fits(&constraint.0, &hs) {
        return false;
    }
    if is_var_term(&ht) && !check_hs_fits(&constraint.1, &ht) {
        return false;
    }
    if !check_countable(state, BindingKind::Imitation, 1, config) || !check_countable(state, BindingKind::Identification, 1, config)
        || !check_countable(state, BindingKind::SimpleProjection, 1, config) || !check_countable(state, BindingKind::FunctionalProjection, 1, config) {
        return false;
    }
    if is_var_term(&hs) && !check_elimination_countable(state, head_arity(&hs), config) {
        return false;
    }
    if is_var_term(&ht) && !check_elimination_countable(state, head_arity(&ht), config) {
        return false;
    }
    true
}


/// Two different flexible heads: binding tries the identification of both
/// heads and the projections of each head that is not an identification
/// variable, the right head's as well as the left's.
pub proof fn law_flex_flex_tries_both_heads(c: ConstraintV, s: StateV, cfg: Config)
    requires
        lambdas(c.0) == lambdas(c.1),
        flex(hnf_head(c.0)),
        flex(hnf_head(c.1)),
        hnf_head(c.0) != hnf_head(c.1),
    ensures
        forall|k: int| 0 <= k < identification_result(c, s, cfg).len() ==> #[trigger] bind_result(c, s, cfg).contains(
            identification_result(c, s, cfg)[k],
        ),
        non_identification_var(hnf_head(c.0), s.subst) ==> forall|k: int|
            0 <= k < hs_projection_result(c.0, s, cfg, c).len() ==> #[trigger] bind_result(c, s, cfg).contains(
                hs_projection_result(c.0, s, cfg, c)[k],
            ),
        non_identification_var(hnf_head(c.1), s.subst) ==> forall|k: int|
            0 <= k < hs_projection_result(c.1, s, cfg, c).len() ==> #[trigger] bind_result(c, s, cfg).contains(
                hs_projection_result(c.1, s, cfg, c)[k],
            ),
{
    let hs = hnf_head(c.0);
    let ht = hnf_head(c.1);
    assert(!rigid(hs) && !rigid(ht));
    assert(!flex_rigid(hs, ht));
    let idr = identification_result(c, s, cfg);
    let p0 = if non_identification_var(hs, s.subst) { hs_projection_result(c.0, s, cfg, c) } else { Seq::empty() };
    let p1 = if non_identification_var(ht, s.subst) { hs_projection_result(c.1, s, cfg, c) } else { Seq::empty() };
    let all = bind_result(c, s, cfg);
    assert(all == idr + p0 + p1);
    assert forall|k: int| 0 <= k < idr.len() implies #[trigger] all.contains(idr[k]) by {
        assert(all[k] == idr[k]);
    }
    if non_identification_var(hs, s.subst) {
        assert forall|k: int| 0 <= k < p0.len() implies #[trigger] all.contains(p0[k]) by {
            assert(all[idr.len() + k] == p0[k]);
        }
    }
    if non_identification_var(ht, s.subst) {
        assert forall|k: int| 0 <= k < p1.len() implies #[trigger] all.contains(p1[k]) by {
            assert(all[idr.len() + p0.len() + k] == p1[k]);
        }
    }
}

/// The same flexible head on both sides, not made by elimination: binding
/// tries every elimination of either side.
pub proof fn law_same_flex_head_tries_eliminations(c: ConstraintV, s: StateV, cfg: Config)
    requires
        lambdas(c.0) == lambdas(c.1),
        flex(hnf_head(c.0)),
        hnf_head(c.0) == hnf_head(c.1),
        hnf_head(c.0)->Var_0.var != Var::Elimination,
    ensures
        bind_result(c, s, cfg) == elimination_result(c.0, s, cfg, c) + elimination_result(c.1, s, cfg, c),
{
    assert(!rigid(hnf_head(c.0)));
}

} // verus!
