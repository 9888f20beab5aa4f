//! Normalize (η-expansion of the right side): `λx1...xm. s ?= λy1...yn. t`
//! with `m >= n` becomes `λx1...xm. s ?= λx1...xm. t' x(n+1) ... xm`, where
//! `t'` is `t` with each `yi` renamed to `xi`.
use crate::names::same_text;
use crate::term::{Constraint, ConstraintV, Term, TermKind, TermV, Var, Variable, VariableV, variables_equal, type_of};
use crate::alpha::{alpha_eq, binds_alike, bvars_closed, same_but_name};
use crate::tree::{State, StateV, Step, successor};
use crate::utils::{apply1, codomain, apply_spine, apply_with, applicable, is_applicable, collect_lambdas, lambdas, strip_lambdas, var_terms, vars_to_terms, wrap_abs, wrap_with_abstractions};
use vstd::prelude::*;

verus! {

/// A map of names in which later pairs override earlier ones.
pub struct RenameMap {
    pub entries: Vec<(String, String)>,
}

/// The map of a list of name pairs, later pairs overriding earlier ones.
pub open spec fn rename_pairs_map(s: Seq<(Seq<char>, Seq<char>)>) -> Map<Seq<char>, Seq<char>>
    decreases s.len(),
{
    if s.len() == 0 {
        Map::empty()
    } else {
        rename_pairs_map(s.drop_last()).insert(s.last().0, s.last().1)
    }
}

proof fn lemma_rename_pairs_suffix(s: Seq<(Seq<char>, Seq<char>)>, m: int, k: Seq<char>)
    requires
        0 <= m <= s.len(),
        forall|j: int| m <= j < s.len() ==> s[j].0 != k,
    ensures
        rename_pairs_map(s).contains_key(k) == rename_pairs_map(s.subrange(0, m)).contains_key(k),
        rename_pairs_map(s).contains_key(k) ==> rename_pairs_map(s)[k] == rename_pairs_map(
            s.subrange(0, m),
        )[k],
    decreases s.len(),
{
    if s.len() > m {
        assert(s.drop_last().subrange(0, m) =~= s.subrange(0, m));
        lemma_rename_pairs_suffix(s.drop_last(), m, k);
    } else {
        assert(s.subrange(0, m) =~= s);
    }
}

impl View for RenameMap {
    type V = Map<Seq<char>, Seq<char>>;

    open spec fn view(&self) -> Map<Seq<char>, Seq<char>> {
        rename_pairs_map(self.entries.deep_view())
    }
}

impl RenameMap {
    /// The empty map.
    pub fn new() -> (res: RenameMap)
        ensures
            res@ == Map::<Seq<char>, Seq<char>>::empty(),
    {
        let res = RenameMap { entries: Vec::new() };
        assert(res.entries.deep_view() =~= Seq::<(Seq<char>, Seq<char>)>::empty());
        res
    }

    /// Renames `name` to `to`, replacing an earlier renaming of it.
    pub fn insert(&mut self, name: String, to: String)
        ensures
            final(self)@ == old(self)@.insert(name@, to@),
    {
        let ghost before = self.entries.deep_view();
        self.entries.push((name, to));
        assert(self.entries.deep_view().drop_last() =~= before);
    }

    /// Forgets every renaming of `name`.
    pub fn remove(&mut self, name: &String)
        ensures
            final(self)@ == old(self)@.remove(name@),
    {
        let ghost all = self.entries.deep_view();
        let mut kept: Vec<(String, String)> = Vec::new();
        let mut i: usize = 0;
        assert(kept.deep_view() =~= Seq::<(Seq<char>, Seq<char>)>::empty());
        assert(rename_pairs_map(all.subrange(0, 0)) =~= Map::<Seq<char>, Seq<char>>::empty());
        while i < self.entries.len()
            invariant
                i <= self.entries.len(),
                all == self.entries.deep_view(),
                rename_pairs_map(kept.deep_view()) =~= rename_pairs_map(all.subrange(0, i as int)).remove(name@),
            decreases self.entries.len() - i,
        {
            let ghost pre = all.subrange(0, i as int);
            assert(all.subrange(0, i + 1).drop_last() =~= pre);
            assert(all[i as int] == (self.entries[i as int].0@, self.entries[i as int].1@));
            if !same_text(&self.entries[i].0, name) {
                let ghost kb = kept.deep_view();
                kept.push((self.entries[i].0.clone(), self.entries[i].1.clone()));
                assert(kept.deep_view().drop_last() =~= kb);
            }
            i += 1;
        }
        assert(all.subrange(0, i as int) =~= all);
        self.entries = kept;
    }

    /// The new name of `name`, if it is renamed.
    pub fn get(&self, name: &String) -> (res: Option<&String>)
        ensures
            match res {
                Some(t) => self@.contains_key(name@) && self@[name@] == t@,
                None => !self@.contains_key(name@),
            },
    {
        let mut i = self.entries.len();
        while i > 0
            invariant
                i <= self.entries.len(),
                forall|j: int| i <= j < self.entries.len() ==> self.entries.deep_view()[j].0 != name@,
            decreases i,
        {
            if same_text(&self.entries[i - 1].0, name) {
                proof {
                    lemma_rename_pairs_suffix(self.entries.deep_view(), i as int, name@);
                    assert(self.entries.deep_view().subrange(0, i as int).drop_last()
                        =~= self.entries.deep_view().subrange(0, i - 1));
                }
                return Some(&self.entries[i - 1].1);
            }
            i -= 1;
        }
        proof {
            lemma_rename_pairs_suffix(self.entries.deep_view(), 0, name@);
        }
        None
    }
}

/// Both sides start with abstractions, the left with at least as many, and
/// either more or different ones.
pub open spec fn normalizable_an(lhs: TermV, rhs: TermV) -> bool {
    let m = lambdas(lhs).len();
    let n = lambdas(rhs).len();
    n > 0 && m >= n && (m > n || lambdas(lhs) != lambdas(rhs))
}

/// The name of `x`, renamed if the map renames it.
pub open spec fn renamed(m: Map<Seq<char>, Seq<char>>, x: Seq<char>) -> Seq<char> {
    if m.contains_key(x) {
        m[x]
    } else {
        x
    }
}

/// `v` with its name renamed; kind, type and role are kept.
pub open spec fn rename_var(m: Map<Seq<char>, Seq<char>>, v: VariableV) -> VariableV {
    VariableV { name: renamed(m, v.name), ..v }
}

/// `t` with every variable and binder renamed by `m`.
pub open spec fn rename_term(t: TermV, m: Map<Seq<char>, Seq<char>>) -> TermV
    decreases t,
{
    match t {
        TermV::Var(v) => TermV::Var(rename_var(m, v)),
        TermV::Abs { param, body } => TermV::Abs {
            param: rename_var(m, param),
            body: Box::new(rename_term(*body, m)),
        },
        TermV::App { func, arg, result_ty } => TermV::App {
            func: Box::new(rename_term(*func, m)),
            arg: Box::new(rename_term(*arg, m)),
            result_ty,
        },
    }
}

/// The renaming of the right binders to the left ones, position by
/// position, a later right binder of the same name overriding.
pub open spec fn binder_renaming(lv: Seq<VariableV>, rv: Seq<VariableV>) -> Map<Seq<char>, Seq<char>> {
    rename_pairs_map(Seq::new(rv.len(), |i: int| (rv[i].name, lv[i].name)))
}

/// The new right side: `λx1...xm. t' x(n+1) ... xm`.
pub open spec fn an_rhs(lhs: TermV, rhs: TermV) -> TermV {
    let lv = lambdas(lhs);
    let rv = lambdas(rhs);
    wrap_abs(
        lv,
        apply_spine(
            rename_term(strip_lambdas(rhs), binder_renaming(lv, rv)),
            var_terms(lv.subrange(rv.len() as int, lv.len() as int)),
        ),
    )
}

/// The extra binders can be applied to the renamed right body.
pub open spec fn an_ok(lhs: TermV, rhs: TermV) -> bool {
    let lv = lambdas(lhs);
    let rv = lambdas(rhs);
    rv.len() <= lv.len() ==> applicable(
        rename_term(strip_lambdas(rhs), binder_renaming(lv, rv)),
        var_terms(lv.subrange(rv.len() as int, lv.len() as int)),
    )
}

/// The state after the expansion.
pub open spec fn normalize_an_result(c: ConstraintV, s: StateV) -> StateV {
    successor(s, seq![ConstraintV(c.0, an_rhs(c.0, c.1))], s.subst, Step::NormalizeAn)
}

/// Whether the right side can be expanded to the left side's binders.
pub fn is_normalizable_an(lhs: &Term, rhs: &Term) -> (res: bool)
    ensures
        res == normalizable_an(lhs@, rhs@),
{
    let (lhs_vars, _) = collect_lambdas(lhs);
    let (rhs_vars, _) = collect_lambdas(rhs);
    let m = lhs_vars.len();
    let n = rhs_vars.len();
    n > 0 && m >= n && (m > n || !variables_equal(&lhs_vars, &rhs_vars))
}

/// Renames variables and binders of `term` by `mapping`.
fn rename_vars(term: Term, mapping: &RenameMap) -> (res: Term)
    ensures
        res@ == rename_term(term@, mapping@),
    decreases term,
{
    match term {
        Term::Var(var) => {
            let new_name = match mapping.get(&var.name) {
                Some(n) => n.clone(),
                None => var.name.clone(),
            };
            Term::Var(Variable { name: new_name, term_kind: var.term_kind, ty: var.ty, var: var.var })
        },
        Term::Abs { param, body } => {
            let new_name = match mapping.get(&param.name) {
                Some(n) => n.clone(),
                None => param.name.clone(),
            };
            let new_param = Variable {
                name: new_name,
                term_kind: param.term_kind,
                ty: param.ty,
                var: param.var,
            };
            Term::Abs { param: new_param, body: Box::new(rename_vars(*body, mapping)) }
        },
        Term::App { func, arg, result_ty } => Term::App {
            func: Box::new(rename_vars(*func, mapping)),
            arg: Box::new(rename_vars(*arg, mapping)),
            result_ty,
        },
    }
}

/// The renaming of the right binders to the left ones.
fn build_variable_mapping(lhs_vars: &Vec<Variable>, rhs_vars: &Vec<Variable>) -> (res: RenameMap)
    requires
        rhs_vars.len() <= lhs_vars.len(),
    ensures
        res@ == binder_renaming(lhs_vars.deep_view(), rhs_vars.deep_view()),
{
    let ghost target = Seq::new(
        rhs_vars.len() as nat,
        |i: int| (rhs_vars.deep_view()[i].name, lhs_vars.deep_view()[i].name),
    );
    let mut entries: Vec<(String, String)> = Vec::new();
    let mut i: usize = 0;
    while i < rhs_vars.len()
        invariant
            rhs_vars.len() <= lhs_vars.len(),
            i <= rhs_vars.len(),
            target == Seq::new(
                rhs_vars.len() as nat,
                |i: int| (rhs_vars.deep_view()[i].name, lhs_vars.deep_view()[i].name),
            ),
            entries.deep_view() == target.subrange(0, i as int),
        decreases rhs_vars.len() - i,
    {
        let ghost before = entries.deep_view();
        entries.push((rhs_vars[i].name.clone(), lhs_vars[i].name.clone()));
        assert(entries.deep_view() =~= before.push(target[i as int]));
        assert(entries.deep_view() =~= target.subrange(0, i + 1));
        i += 1;
    }
    assert(entries.deep_view() =~= target);
    RenameMap { entries }
}

/// Expands the right side to the left side's binders.
pub fn apply_normalize_an(constraint: Constraint, state: &State) -> (res: Vec<State>)
    requires
        lambdas(constraint.1@).len() <= lambdas(constraint.0@).len(),
        an_ok(constraint.0@, constraint.1@),
    ensures
        res.deep_view() == seq![normalize_an_result(constraint@, state@)],
{
    let Constraint(lhs, rhs) = constraint;
    let (lhs_vars, _) = collect_lambdas(&lhs);
    let (rhs_vars, rhs_body) = collect_lambdas(&rhs);
    let mapping = build_variable_mapping(&lhs_vars, &rhs_vars);
    let renamed_body = rename_vars(rhs_body, &mapping);
    let mut extra: Vec<Variable> = Vec::new();
    let mut i = rhs_vars.len();
    while i < lhs_vars.len()
        invariant
            rhs_vars.len() <= i <= lhs_vars.len(),
            extra.deep_view() == lhs_vars.deep_view().subrange(rhs_vars.len() as int, i as int),
        decreases lhs_vars.len() - i,
    {
        let ghost before = extra.deep_view();
        extra.push(lhs_vars[i].clone());
        assert(extra.deep_view() =~= before.push(lhs_vars.deep_view()[i as int]));
        assert(extra.deep_view() =~= lhs_vars.deep_view().subrange(rhs_vars.len() as int, i + 1));
        i += 1;
    }
    let extra_terms = vars_to_terms(&extra);
    let applied_args = apply_with(renamed_body, &extra_terms);
    let new_rhs = wrap_with_abstractions(&applied_args, &lhs_vars);
    let mut cs: Vec<Constraint> = Vec::new();
    cs.push(Constraint(lhs, new_rhs));
    assert(cs.deep_view() =~= seq![ConstraintV(constraint.0@, an_rhs(constraint.0@, constraint.1@))]);
    let st = state.with_subst_and_count(cs, state.subst.clone(), Step::NormalizeAn);
    let mut out: Vec<State> = Vec::new();
    out.push(st);
    assert(out.deep_view() =~= seq![normalize_an_result(constraint@, state@)]);
    out
}


/// Whether the expansion applies only terms of function type.
pub fn check_an_ok(lhs: &Term, rhs: &Term) -> (res: bool)
    ensures
        res == an_ok(lhs@, rhs@),
{
    let (lhs_vars, _) = collect_lambdas(lhs);
    let (rhs_vars, rhs_body) = collect_lambdas(rhs);
    if rhs_vars.len() > lhs_vars.len() {
        return true;
    }
    let mapping = build_variable_mapping(&lhs_vars, &rhs_vars);
    let renamed_body = rename_vars(rhs_body, &mapping);
    let mut extra: Vec<Variable> = Vec::new();
    let mut i = rhs_vars.len();
    while i < lhs_vars.len()
        invariant
            rhs_vars.len() <= i <= lhs_vars.len(),
            extra.deep_view() == lhs_vars.deep_view().subrange(rhs_vars.len() as int, i as int),
        decreases lhs_vars.len() - i,
    {
        let ghost before = extra.deep_view();
        extra.push(lhs_vars[i].clone());
        assert(extra.deep_view() =~= before.push(lhs_vars.deep_view()[i as int]));
        assert(extra.deep_view() =~= lhs_vars.deep_view().subrange(rhs_vars.len() as int, i + 1));
        i += 1;
    }
    let extra_terms = vars_to_terms(&extra);
    is_applicable(&renamed_body, &extra_terms)
}


/// The names of the binders inside `t`.
pub open spec fn binder_names(t: TermV) -> Set<Seq<char>>
    decreases t,
{
    match t {
        TermV::Var(_) => Set::empty(),
        TermV::Abs { param, body } => binder_names(*body).insert(param.name),
        TermV::App { func, arg, .. } => binder_names(*func) + binder_names(*arg),
    }
}

/// The names of the free variables and constants of `t`.
pub open spec fn symbol_names(t: TermV) -> Set<Seq<char>>
    decreases t,
{
    match t {
        TermV::Var(v) => if v.term_kind != TermKind::BVar {
            set![v.name]
        } else {
            Set::empty()
        },
        TermV::Abs { body, .. } => symbol_names(*body),
        TermV::App { func, arg, .. } => symbol_names(*func) + symbol_names(*arg),
    }
}

/// The names of the variables `vs`.
pub open spec fn names_of(vs: Seq<VariableV>) -> Seq<Seq<char>> {
    vs.map_values(|v: VariableV| v.name)
}

/// No two of the names are equal.
pub open spec fn distinct_names(ns: Seq<Seq<char>>) -> bool {
    forall|i: int, j: int| 0 <= i < j < ns.len() ==> ns[i] != ns[j]
}

/// The binder pairs of two binder lists, position by position.
pub open spec fn binder_pairs(a: Seq<VariableV>, b: Seq<VariableV>) -> Seq<(Seq<char>, Seq<char>)> {
    Seq::new(a.len(), |i: int| (a[i].name, b[i].name))
}

/// The η-expansion of `rhs` by the binders `extra`:
/// `λy1...yn. λextra. t extra`.
pub open spec fn eta_expand(rhs: TermV, extra: Seq<VariableV>) -> TermV {
    wrap_abs(lambdas(rhs) + extra, apply_spine(strip_lambdas(rhs), var_terms(extra)))
}

/// Renaming keeps the type of a term.
proof fn lemma_rename_type(t: TermV, m: Map<Seq<char>, Seq<char>>)
    ensures
        type_of(rename_term(t, m)) == type_of(t),
    decreases t,
{
    if let TermV::Abs { param, body } = t {
        lemma_rename_type(*body, m);
    }
}

/// A pair at position `j` with no later pair naming either side decides.
proof fn lemma_binds_alike_at(rho: Seq<(Seq<char>, Seq<char>)>, j: int, x: Seq<char>, y: Seq<char>)
    requires
        0 <= j < rho.len(),
        rho[j] == (x, y),
        forall|k: int| j < k < rho.len() ==> rho[k].0 != x && rho[k].1 != y,
    ensures
        binds_alike(rho, x, y),
    decreases rho.len(),
{
    if j < rho.len() - 1 {
        assert(rho.last() == rho[rho.len() - 1]);
        let r = rho.drop_last();
        assert forall|k: int| j < k < r.len() implies r[k].0 != x && r[k].1 != y by {
            assert(r[k] == rho[k]);
        }
        lemma_binds_alike_at(r, j, x, y);
    } else {
        assert(rho.last() == rho[j]);
    }
}

/// Binders wrapped alike keep terms α-equivalent.
proof fn lemma_alpha_wrap(bs1: Seq<VariableV>, bs2: Seq<VariableV>, u1: TermV, u2: TermV, rho: Seq<(Seq<char>, Seq<char>)>)
    requires
        bs1.len() == bs2.len(),
        forall|i: int| 0 <= i < bs1.len() ==> same_but_name(#[trigger] bs1[i], bs2[i]),
        alpha_eq(u1, u2, rho + binder_pairs(bs1, bs2)),
    ensures
        alpha_eq(wrap_abs(bs1, u1), wrap_abs(bs2, u2), rho),
    decreases bs1.len(),
{
    if bs1.len() == 0 {
        assert(rho + binder_pairs(bs1, bs2) =~= rho);
    } else {
        let r1 = bs1.drop_first();
        let r2 = bs2.drop_first();
        let rho1 = rho.push((bs1[0].name, bs2[0].name));
        assert(rho1 + binder_pairs(r1, r2) =~= rho + binder_pairs(bs1, bs2));
        assert forall|i: int| 0 <= i < r1.len() implies same_but_name(#[trigger] r1[i], r2[i]) by {
            assert(r1[i] == bs1[i + 1] && r2[i] == bs2[i + 1]);
        }
        lemma_alpha_wrap(r1, r2, u1, u2, rho1);
        assert(same_but_name(bs1[0], bs2[0]));
    }
}

/// Applying α-equivalent heads of one type to the same arguments keeps
/// them α-equivalent.
proof fn lemma_alpha_spine(h1: TermV, h2: TermV, args: Seq<TermV>, rho: Seq<(Seq<char>, Seq<char>)>)
    requires
        alpha_eq(h1, h2, rho),
        type_of(h1) == type_of(h2),
        forall|i: int| 0 <= i < args.len() ==> alpha_eq(#[trigger] args[i], args[i], rho),
    ensures
        alpha_eq(apply_spine(h1, args), apply_spine(h2, args), rho),
    decreases args.len(),
{
    if args.len() > 0 {
        let a0 = args[0];
        assert(alpha_eq(a0, a0, rho));
        assert(alpha_eq(apply1(h1, a0), apply1(h2, a0), rho));
        let rest = args.drop_first();
        assert forall|i: int| 0 <= i < rest.len() implies alpha_eq(#[trigger] rest[i], rest[i], rho) by {
            assert(rest[i] == args[i + 1]);
        }
        lemma_alpha_spine(apply1(h1, a0), apply1(h2, a0), rest, rho);
    }
}

/// Renaming a body whose free bound variables are renamed alike, and whose
/// own binders and symbols avoid the renamed names, gives an α-equivalent
/// body.
proof fn lemma_rename_alpha(
    b: TermV,
    m: Map<Seq<char>, Seq<char>>,
    rho: Seq<(Seq<char>, Seq<char>)>,
    scope: Set<Seq<char>>,
    forbidden: Seq<Seq<char>>,
)
    requires
        bvars_closed(b, scope),
        forall|x: Seq<char>| #[trigger] scope.contains(x) ==> binds_alike(rho, renamed(m, x), x),
        forall|x: Seq<char>| #[trigger] renamed(m, x) != x ==> forbidden.contains(x) && forbidden.contains(renamed(m, x)),
        forall|y: Seq<char>| #[trigger] binder_names(b).contains(y) ==> !forbidden.contains(y),
        forall|y: Seq<char>| #[trigger] symbol_names(b).contains(y) ==> !m.contains_key(y),
    ensures
        alpha_eq(rename_term(b, m), b, rho),
    decreases b,
{
    match b {
        TermV::Var(v) => {
            if v.term_kind != TermKind::BVar {
                assert(symbol_names(b).contains(v.name));
            }
        },
        TermV::Abs { param, body } => {
            let y = param.name;
            assert(binder_names(b).contains(y));
            assert(renamed(m, y) == y);
            let rho1 = rho.push((y, y));
            let scope1 = scope.insert(y);
            assert forall|x: Seq<char>| #[trigger] scope1.contains(x) implies binds_alike(rho1, renamed(m, x), x) by {
                assert(rho1.last() == (y, y));
                assert(rho1.drop_last() =~= rho);
                if x != y {
                    assert(scope.contains(x));
                    if renamed(m, x) == y {
                        assert(renamed(m, x) != x);
                    }
                }
            }
            assert forall|z: Seq<char>| #[trigger] binder_names(*body).contains(z) implies !forbidden.contains(z) by {
                assert(binder_names(b).contains(z));
            }
            assert forall|z: Seq<char>| #[trigger] symbol_names(*body).contains(z) implies !m.contains_key(z) by {
                assert(symbol_names(b).contains(z));
            }
            lemma_rename_alpha(*body, m, rho1, scope1, forbidden);
        },
        TermV::App { func, arg, .. } => {
            assert forall|z: Seq<char>| #[trigger] binder_names(*func).contains(z) implies !forbidden.contains(z) by {
                assert(binder_names(b).contains(z));
            }
            assert forall|z: Seq<char>| #[trigger] symbol_names(*func).contains(z) implies !m.contains_key(z) by {
                assert(symbol_names(b).contains(z));
            }
            assert forall|z: Seq<char>| #[trigger] binder_names(*arg).contains(z) implies !forbidden.contains(z) by {
                assert(binder_names(b).contains(z));
            }
            assert forall|z: Seq<char>| #[trigger] symbol_names(*arg).contains(z) implies !m.contains_key(z) by {
                assert(symbol_names(b).contains(z));
            }
            lemma_rename_alpha(*func, m, rho, scope, forbidden);
            lemma_rename_alpha(*arg, m, rho, scope, forbidden);
        },
    }
}

/// With distinct keys, the map of pairs maps each key to its partner, and
/// has no other keys.
proof fn lemma_pairs_distinct(ps: Seq<(Seq<char>, Seq<char>)>)
    requires
        forall|i: int, j: int| 0 <= i < j < ps.len() ==> ps[i].0 != ps[j].0,
    ensures
        forall|i: int| 0 <= i < ps.len() ==> rename_pairs_map(ps).contains_key(#[trigger] ps[i].0)
            && rename_pairs_map(ps)[ps[i].0] == ps[i].1,
        forall|x: Seq<char>| #[trigger] rename_pairs_map(ps).contains_key(x) ==> exists|i: int| 0 <= i < ps.len() && ps[i].0 == x,
    decreases ps.len(),
{
    if ps.len() > 0 {
        let r = ps.drop_last();
        lemma_pairs_distinct(r);
        assert forall|i: int| 0 <= i < ps.len() implies rename_pairs_map(ps).contains_key(#[trigger] ps[i].0)
            && rename_pairs_map(ps)[ps[i].0] == ps[i].1 by {
            if i < ps.len() - 1 {
                assert(r[i] == ps[i]);
                assert(ps[i].0 != ps.last().0);
            }
        }
        assert forall|x: Seq<char>| #[trigger] rename_pairs_map(ps).contains_key(x) implies exists|i: int| 0 <= i < ps.len() && ps[i].0 == x by {
            if x != ps.last().0 {
                assert(rename_pairs_map(r).contains_key(x));
                let i = choose|i: int| 0 <= i < r.len() && r[i].0 == x;
                assert(ps[i] == r[i]);
            } else {
                assert(ps[ps.len() - 1].0 == x);
            }
        }
    }
}

/// Normalize-αη renames the right binders to the left ones position by
/// position: the new right side is α-equivalent to the η-expansion of the
/// old one by the extra left binders, so each occurrence bound by the
/// `i`-th right binder is bound by the `i`-th left binder afterwards. It
/// holds where no name is captured: the binder names of each side differ,
/// the extra left binders differ from the right ones, corresponding binders
/// agree but for the name, the right body's bound variables are all bound,
/// its inner binders avoid the outer binder names, and its symbols avoid
/// the right binder names.
pub proof fn law_an_renames_binders_alike(lhs: TermV, rhs: TermV)
    requires
        lambdas(rhs).len() <= lambdas(lhs).len(),
        distinct_names(names_of(lambdas(lhs))),
        distinct_names(names_of(lambdas(rhs))),
        forall|i: int| 0 <= i < lambdas(rhs).len() ==> same_but_name(#[trigger] lambdas(lhs)[i], lambdas(rhs)[i]),
        forall|i: int, j: int|
            0 <= i < lambdas(rhs).len() <= j < lambdas(lhs).len() ==> lambdas(rhs)[i].name != lambdas(lhs)[j].name,
        bvars_closed(strip_lambdas(rhs), names_of(lambdas(rhs)).to_set()),
        forall|y: Seq<char>| #[trigger] binder_names(strip_lambdas(rhs)).contains(y) ==> !names_of(lambdas(lhs)).contains(y)
            && !names_of(lambdas(rhs)).contains(y),
        forall|y: Seq<char>| #[trigger] symbol_names(strip_lambdas(rhs)).contains(y) ==> !names_of(lambdas(rhs)).contains(y),
    ensures
        alpha_eq(
            an_rhs(lhs, rhs),
            eta_expand(rhs, lambdas(lhs).subrange(lambdas(rhs).len() as int, lambdas(lhs).len() as int)),
            Seq::empty(),
        ),
{
    let lv = lambdas(lhs);
    let rv = lambdas(rhs);
    let n = rv.len() as int;
    let extra = lv.subrange(n, lv.len() as int);
    let body = strip_lambdas(rhs);
    let m = binder_renaming(lv, rv);
    let ps = Seq::new(rv.len(), |i: int| (rv[i].name, lv[i].name));
    let bs2 = rv + extra;
    let rho = binder_pairs(lv, bs2);
    let args = var_terms(extra);
    let forbidden = names_of(lv) + names_of(rv);
    assert(bs2.len() == lv.len());
    assert forall|i: int, j: int| 0 <= i < j < ps.len() implies ps[i].0 != ps[j].0 by {
        assert(names_of(rv)[i] == rv[i].name && names_of(rv)[j] == rv[j].name);
    }
    lemma_pairs_distinct(ps);
    assert(m == rename_pairs_map(ps));
    // the renaming sends the i-th right binder to the i-th left one, and
    // touches no other name
    assert forall|x: Seq<char>| #[trigger] renamed(m, x) != x implies forbidden.contains(x) && forbidden.contains(renamed(m, x)) by {
        assert(m.contains_key(x));
        let i = choose|i: int| 0 <= i < ps.len() && ps[i].0 == x;
        assert(names_of(rv)[i] == x);
        assert(names_of(lv)[i] == lv[i].name);
        assert(forbidden[lv.len() + i] == x);
        assert(forbidden[i] == renamed(m, x));
    }
    let scope = names_of(rv).to_set();
    assert forall|x: Seq<char>| #[trigger] scope.contains(x) implies binds_alike(rho, renamed(m, x), x) by {
        assert(names_of(rv).contains(x));
        let i = choose|i: int| 0 <= i < names_of(rv).len() && names_of(rv)[i] == x;
        assert(ps[i].0 == x);
        assert(renamed(m, x) == lv[i].name);
        assert(rho[i] == (lv[i].name, x));
        assert forall|k: int| i < k < rho.len() implies rho[k].0 != lv[i].name && rho[k].1 != x by {
            assert(names_of(lv)[i] == lv[i].name && names_of(lv)[k] == lv[k].name);
            if k < n {
                assert(names_of(rv)[k] == rv[k].name);
                assert(bs2[k] == rv[k]);
            } else {
                assert(bs2[k] == lv[k]);
            }
        }
        lemma_binds_alike_at(rho, i, lv[i].name, x);
    }
    assert forall|y: Seq<char>| #[trigger] binder_names(body).contains(y) implies !forbidden.contains(y) by {
        if forbidden.contains(y) {
            let q = choose|q: int| 0 <= q < forbidden.len() && forbidden[q] == y;
            if q < lv.len() {
                assert(names_of(lv)[q] == y);
            } else {
                assert(names_of(rv)[q - lv.len()] == y);
            }
        }
    }
    assert forall|y: Seq<char>| #[trigger] symbol_names(body).contains(y) implies !m.contains_key(y) by {
        if m.contains_key(y) {
            let i = choose|i: int| 0 <= i < ps.len() && ps[i].0 == y;
            assert(names_of(rv)[i] == y);
        }
    }
    lemma_rename_alpha(body, m, rho, scope, forbidden);
    lemma_rename_type(body, m);
    assert forall|i: int| 0 <= i < args.len() implies alpha_eq(#[trigger] args[i], args[i], rho) by {
        let v = extra[i];
        assert(args[i] == TermV::Var(v));
        assert(v == lv[n + i]);
        if v.term_kind == TermKind::BVar {
            assert(bs2[n + i] == lv[n + i]);
            assert(rho[n + i] == (v.name, v.name));
            assert forall|k: int| n + i < k < rho.len() implies rho[k].0 != v.name && rho[k].1 != v.name by {
                assert(bs2[k] == lv[k]);
                assert(names_of(lv)[n + i] == v.name && names_of(lv)[k] == lv[k].name);
            }
            lemma_binds_alike_at(rho, n + i, v.name, v.name);
        }
    }
    lemma_alpha_spine(rename_term(body, m), body, args, rho);
    assert forall|i: int| 0 <= i < lv.len() implies same_but_name(#[trigger] lv[i], bs2[i]) by {
        if i >= n {
            assert(bs2[i] == lv[i]);
        }
    }
    assert(Seq::<(Seq<char>, Seq<char>)>::empty() + binder_pairs(lv, bs2) =~= rho);
    lemma_alpha_wrap(lv, bs2, apply_spine(rename_term(body, m), args), apply_spine(body, args), Seq::empty());
}

} // verus!
