//! α-renaming: binders whose name is already taken by a free symbol of the
//! term (or by an enclosing binder) get a fresh one-letter name `a` to `z`,
//! and the bound occurrences follow them.
use crate::names::NameSet;
use crate::term::{Term, TermKind, TermV, Variable, VariableV, type_of, well_typed};
use crate::text::char_string;
use crate::unification::normalize_an::RenameMap;
use vstd::prelude::*;

verus! {

/// The one-letter name of position `i` in the alphabet.
pub open spec fn letter(i: nat) -> Seq<char> {
    seq![((97 + i) as u8) as char]
}

/// The first letter from position `i` on that is not taken, and the position
/// after it; none when the alphabet runs out.
pub open spec fn fresh_letter(used: Set<Seq<char>>, i: nat) -> Option<(Seq<char>, nat)>
    decreases 26 - i,
{
    if i >= 26 {
        None
    } else if !used.contains(letter(i)) {
        Some((letter(i), i + 1))
    } else {
        fresh_letter(used, i + 1)
    }
}

/// Hands out the letters `a` to `z` in turn.
pub struct NameGenerator {
    pub index: usize,
}

impl NameGenerator {
    /// A generator at the start of the alphabet.
    pub fn new() -> (res: NameGenerator)
        ensures
            res.index == 0,
    {
        NameGenerator { index: 0 }
    }

    /// The next letter that `used` does not hold, if any is left.
    pub fn fresh(&mut self, used: &NameSet) -> (res: Option<String>)
        ensures
            match fresh_letter(used@, old(self).index as nat) {
                Some((name, next)) => res matches Some(s) && s@ == name && final(self).index == next,
                None => res is None,
            },
    {
        while self.index < 26
            invariant
                fresh_letter(used@, old(self).index as nat) == fresh_letter(used@, self.index as nat),
            decreases 26 - self.index,
        {
            let code: u8 = 97u8 + (self.index as u8);
            let cand = char_string(code as char);
            self.index += 1;
            if !used.contains(&cand) {
                return Some(cand);
            }
        }
        None
    }
}

/// The mathematical value of an [`AlphaRenamer`]: the renaming of the
/// binders in scope, the names taken, and the position of the next letter.
pub struct AlphaRenamerV {
    pub env: Map<Seq<char>, Seq<char>>,
    pub used: Set<Seq<char>>,
    pub index: nat,
}

/// The state of a renaming: the renaming of the binders in scope, the names
/// taken (the free symbols of the term and the names given so far), and the
/// letters handed out.
pub struct AlphaRenamer {
    pub env: RenameMap,
    pub used: NameSet,
    pub name_gen: NameGenerator,
}

impl View for AlphaRenamer {
    type V = AlphaRenamerV;

    open spec fn view(&self) -> AlphaRenamerV {
        AlphaRenamerV { env: self.env@, used: self.used@, index: self.name_gen.index as nat }
    }
}

/// `used` with the free symbols of `t`: the names of its free variables and
/// constants, wherever they stand.
pub open spec fn free_symbols(t: TermV, used: Set<Seq<char>>) -> Set<Seq<char>>
    decreases t,
{
    match t {
        TermV::Var(v) => if v.term_kind != TermKind::BVar {
            used.insert(v.name)
        } else {
            used
        },
        TermV::App { func, arg, .. } => free_symbols(*arg, free_symbols(*func, used)),
        TermV::Abs { body, .. } => free_symbols(*body, used),
    }
}

/// The renaming `env` after leaving the scope of a binder named `x`: the
/// renaming of `x` from before the binder, or none if there was none.
pub open spec fn leave_scope(
    env: Map<Seq<char>, Seq<char>>,
    outer: Map<Seq<char>, Seq<char>>,
    x: Seq<char>,
) -> Map<Seq<char>, Seq<char>> {
    if outer.contains_key(x) {
        env.insert(x, outer[x])
    } else {
        env.remove(x)
    }
}

/// `v` under the name `n`.
pub open spec fn renamed_var(v: VariableV, n: Seq<char>) -> VariableV {
    VariableV { name: n, term_kind: v.term_kind, ty: v.ty, var: v.var }
}

/// `t` renamed from the state `st`, and the state after; none when a binder
/// needs a letter and the alphabet has run out. A binder keeps its name
/// unless the name is taken; its renaming holds for its body, and after it
/// the renaming from outside the binder holds again.
pub open spec fn alpha_term(t: TermV, st: AlphaRenamerV) -> Option<(TermV, AlphaRenamerV)>
    decreases t,
{
    match t {
        TermV::Var(v) => if v.term_kind == TermKind::BVar && st.env.contains_key(v.name) {
            Some((TermV::Var(renamed_var(v, st.env[v.name])), st))
        } else {
            Some((t, st))
        },
        TermV::App { func, arg, result_ty } => match alpha_term(*func, st) {
            None => None,
            Some((f2, st1)) => match alpha_term(*arg, st1) {
                None => None,
                Some((a2, st2)) => Some((TermV::App { func: Box::new(f2), arg: Box::new(a2), result_ty }, st2)),
            },
        },
        TermV::Abs { param, body } => {
            let chosen = if st.used.contains(param.name) {
                fresh_letter(st.used, st.index)
            } else {
                Some((param.name, st.index))
            };
            match chosen {
                None => None,
                Some((n, idx)) => {
                    let st1 = AlphaRenamerV { env: st.env.insert(param.name, n), used: st.used.insert(n), index: idx };
                    match alpha_term(*body, st1) {
                        None => None,
                        Some((b2, st2)) => Some(
                            (
                                TermV::Abs { param: renamed_var(param, n), body: Box::new(b2) },
                                AlphaRenamerV {
                                    env: leave_scope(st2.env, st.env, param.name),
                                    used: st2.used,
                                    index: st2.index,
                                },
                            ),
                        ),
                    }
                },
            }
        },
    }
}

/// The state a renamer starts in for `t`: nothing renamed, the free
/// symbols of `t` taken, the alphabet from `a`.
pub open spec fn start_state(t: TermV) -> AlphaRenamerV {
    AlphaRenamerV { env: Map::empty(), used: free_symbols(t, Set::empty()), index: 0 }
}

/// `t` renamed apart from its free symbols; none when the alphabet runs out.
pub open spec fn alpha_renamed(t: TermV) -> Option<TermV> {
    match alpha_term(t, start_state(t)) {
        Some((t2, _)) => Some(t2),
        None => None,
    }
}

impl AlphaRenamer {
    /// A renamer for `term`, its free symbols taken.
    pub fn new(term: &Term) -> (res: Self)
        ensures
            res@ == start_state(term@),
    {
        let mut renamer = AlphaRenamer { env: RenameMap::new(), used: NameSet::new(), name_gen: NameGenerator::new() };
        renamer.collect_free_vars(term);
        renamer
    }

    /// The names taken.
    pub fn get_used_names(&self) -> (res: &NameSet)
        ensures
            res@ == self@.used,
    {
        &self.used
    }

    /// Takes `name`.
    pub fn add_used_name(&mut self, name: String)
        ensures
            final(self)@ == (AlphaRenamerV { used: old(self)@.used.insert(name@), ..old(self)@ }),
    {
        self.used.insert(name);
    }

    /// Frees `name`.
    pub fn remove_used_name(&mut self, name: &str)
        ensures
            final(self)@ == (AlphaRenamerV { used: old(self)@.used.remove(name@), ..old(self)@ }),
    {
        let n = String::from_str(name);
        self.used.remove(&n);
    }

    /// Renames the binders of `term` apart; the alphabet must not run out.
    pub fn alpha_rename(&mut self, term: &Term) -> (res: Term)
        requires
            alpha_term(term@, old(self)@) is Some,
        ensures
            alpha_term(term@, old(self)@) == Some((res@, final(self)@)),
    {
        match self.rename(term) {
            Some(t) => t,
            None => vstd::pervasive::unreached(),
        }
    }

    /// Takes the free symbols of `term`.
    fn collect_free_vars(&mut self, term: &Term)
        ensures
            final(self)@ == (AlphaRenamerV { used: free_symbols(term@, old(self)@.used), ..old(self)@ }),
        decreases term,
    {
        match term {
            Term::Var(v) => {
                if v.term_kind != TermKind::BVar {
                    self.used.insert(v.name.clone());
                }
            },
            Term::App { func, arg, .. } => {
                self.collect_free_vars(func);
                self.collect_free_vars(arg);
            },
            Term::Abs { body, .. } => {
                self.collect_free_vars(body);
            },
        }
    }

    /// Renames `term`, or reports that the alphabet ran out.
    fn rename(&mut self, term: &Term) -> (res: Option<Term>)
        ensures
            match res {
                Some(t) => alpha_term(term@, old(self)@) == Some((t@, final(self)@)),
                None => alpha_term(term@, old(self)@) is None,
            },
        decreases term,
    {
        match term {
            Term::Var(v) => {
                if v.term_kind == TermKind::BVar {
                    if let Some(new_name) = self.env.get(&v.name) {
                        return Some(Term::Var(Variable { name: new_name.clone(), term_kind: v.term_kind, ty: v.ty.clone(), var: v.var }));
                    }
                }
                Some(term.clone())
            },
            Term::App { func, arg, result_ty } => {
                let f2 = match self.rename(func) {
                    Some(f) => f,
                    None => {
                        return None;
                    },
                };
                let a2 = match self.rename(arg) {
                    Some(a) => a,
                    None => {
                        return None;
                    },
                };
                Some(Term::App { func: Box::new(f2), arg: Box::new(a2), result_ty: result_ty.clone() })
            },
            Term::Abs { param, body } => {
                let new_name = if self.used.contains(&param.name) {
                    match self.name_gen.fresh(&self.used) {
                        Some(n) => n,
                        None => {
                            return None;
                        },
                    }
                } else {
                    param.name.clone()
                };
                let outer: Option<String> = match self.env.get(&param.name) {
                    Some(o) => Some(o.clone()),
                    None => None,
                };
                self.env.insert(param.name.clone(), new_name.clone());
                self.used.insert(new_name.clone());
                let renamed_body = match self.rename(body) {
                    Some(b) => b,
                    None => {
                        return None;
                    },
                };
                match outer {
                    Some(o) => self.env.insert(param.name.clone(), o),
                    None => self.env.remove(&param.name),
                }
                let p2 = Variable { name: new_name, term_kind: param.term_kind, ty: param.ty.clone(), var: param.var };
                Some(Term::Abs { param: p2, body: Box::new(renamed_body) })
            },
        }
    }
}

/// Renames the binders of `term` apart from its free symbols; the alphabet
/// must not run out.
pub fn alpha_rename(term: &Term) -> (res: Term)
    requires
        alpha_renamed(term@) is Some,
    ensures
        alpha_renamed(term@) == Some(res@),
{
    let mut renamer = AlphaRenamer::new(term);
    renamer.alpha_rename(term)
}

/// Renames the binders of `term` apart from its free symbols, or `None` when
/// the alphabet runs out.
pub fn alpha_rename_checked(term: &Term) -> (res: Option<Term>)
    ensures
        match res {
            Some(t) => alpha_renamed(term@) == Some(t@),
            None => alpha_renamed(term@) is None,
        },
{
    let mut renamer = AlphaRenamer::new(term);
    match renamer.rename(term) {
        Some(_) => Some(alpha_rename(term)),
        None => None,
    }
}

/// Renaming binders keeps the type of the term and keeps its applications
/// well typed.
pub proof fn law_alpha_keeps_types(t: TermV, st: AlphaRenamerV)
    ensures
        alpha_term(t, st) matches Some((t2, _)) ==> type_of(t2) == type_of(t) && (well_typed(t) ==> well_typed(t2)),
    decreases t,
{
    match t {
        TermV::Var(_) => {},
        TermV::App { func, arg, result_ty } => {
            law_alpha_keeps_types(*func, st);
            if let Some((f2, st1)) = alpha_term(*func, st) {
                law_alpha_keeps_types(*arg, st1);
            }
        },
        TermV::Abs { param, body } => {
            let chosen = if st.used.contains(param.name) {
                fresh_letter(st.used, st.index)
            } else {
                Some((param.name, st.index))
            };
            if let Some((n, idx)) = chosen {
                let st1 = AlphaRenamerV { env: st.env.insert(param.name, n), used: st.used.insert(n), index: idx };
                law_alpha_keeps_types(*body, st1);
            }
        },
    }
}


/// Whether the bound occurrence `x` of one term and `y` of the other refer
/// to corresponding binders, `rho` listing the binder names in scope as
/// pairs, innermost last; unbound occurrences must agree by name.
pub open spec fn binds_alike(rho: Seq<(Seq<char>, Seq<char>)>, x: Seq<char>, y: Seq<char>) -> bool
    decreases rho.len(),
{
    if rho.len() == 0 {
        x == y
    } else if rho.last().0 == x || rho.last().1 == y {
        rho.last().0 == x && rho.last().1 == y
    } else {
        binds_alike(rho.drop_last(), x, y)
    }
}

/// Two variables that agree but for the name.
pub open spec fn same_but_name(v: VariableV, w: VariableV) -> bool {
    v.term_kind == w.term_kind && v.ty == w.ty && v.var == w.var
}

/// α-equivalence of `t1` and `t2` under the binder pairs `rho`: the same
/// shape, types and variables, free symbols by name, bound variables by
/// the binder they refer to.
pub open spec fn alpha_eq(t1: TermV, t2: TermV, rho: Seq<(Seq<char>, Seq<char>)>) -> bool
    decreases t1,
{
    match (t1, t2) {
        (TermV::Var(v), TermV::Var(w)) => same_but_name(v, w) && if v.term_kind == TermKind::BVar {
            binds_alike(rho, v.name, w.name)
        } else {
            v.name == w.name
        },
        (TermV::Abs { param: p, body: b }, TermV::Abs { param: q, body: c }) => same_but_name(p, q) && alpha_eq(
            *b,
            *c,
            rho.push((p.name, q.name)),
        ),
        (TermV::App { func: f, arg: a, result_ty: r }, TermV::App { func: g, arg: c, result_ty: r2 }) => r == r2
            && alpha_eq(*f, *g, rho) && alpha_eq(*a, *c, rho),
        _ => false,
    }
}

/// Every bound variable of `t` is under a binder of its name (or in
/// `scope`).
pub open spec fn bvars_closed(t: TermV, scope: Set<Seq<char>>) -> bool
    decreases t,
{
    match t {
        TermV::Var(v) => v.term_kind == TermKind::BVar ==> scope.contains(v.name),
        TermV::Abs { param, body } => bvars_closed(*body, scope.insert(param.name)),
        TermV::App { func, arg, .. } => bvars_closed(*func, scope) && bvars_closed(*arg, scope),
    }
}

/// The new name of the innermost binder named `x` in `rho`.
pub open spec fn rho_lookup(rho: Seq<(Seq<char>, Seq<char>)>, x: Seq<char>) -> Option<Seq<char>>
    decreases rho.len(),
{
    if rho.len() == 0 {
        None
    } else if rho.last().0 == x {
        Some(rho.last().1)
    } else {
        rho_lookup(rho.drop_last(), x)
    }
}

/// The renaming in scope is the one that `rho` gives, the new names in
/// `rho` differ from each other, and all of them are taken.
pub open spec fn scope_ok(st: AlphaRenamerV, rho: Seq<(Seq<char>, Seq<char>)>) -> bool {
    &&& forall|x: Seq<char>| #[trigger] rho_lookup(rho, x) == (if st.env.contains_key(x) { Some(st.env[x]) } else { None })
    &&& forall|i: int, j: int| 0 <= i < j < rho.len() ==> rho[i].1 != rho[j].1
    &&& forall|i: int| 0 <= i < rho.len() ==> st.used.contains(#[trigger] rho[i].1)
}

/// A letter handed out is not taken.
proof fn lemma_fresh_letter_free(used: Set<Seq<char>>, i: nat)
    ensures
        fresh_letter(used, i) matches Some((n, _)) ==> !used.contains(n),
    decreases 26 - i,
{
    if i < 26 && used.contains(letter(i)) {
        lemma_fresh_letter_free(used, i + 1);
    }
}

/// With distinct new names, a bound variable and its new name refer to
/// corresponding binders.
proof fn lemma_lookup_binds_alike(rho: Seq<(Seq<char>, Seq<char>)>, x: Seq<char>, y: Seq<char>)
    requires
        rho_lookup(rho, x) == Some(y),
        forall|i: int, j: int| 0 <= i < j < rho.len() ==> rho[i].1 != rho[j].1,
    ensures
        binds_alike(rho, x, y),
        exists|i: int| 0 <= i < rho.len() && rho[i].1 == y,
    decreases rho.len(),
{
    if rho.last().0 != x {
        let r = rho.drop_last();
        assert forall|i: int, j: int| 0 <= i < j < r.len() implies r[i].1 != r[j].1 by {
            assert(r[i] == rho[i] && r[j] == rho[j]);
        }
        lemma_lookup_binds_alike(r, x, y);
        let i = choose|i: int| 0 <= i < r.len() && r[i].1 == y;
        assert(rho[i] == r[i]);
        assert(rho.last() == rho[rho.len() - 1]);
    } else {
        assert(rho.last() == rho[rho.len() - 1]);
    }
}

/// Renaming keeps a term α-equivalent under the binders in scope, gives
/// back the renaming it started with, and only adds names.
proof fn lemma_alpha_term_equivalent(t: TermV, st: AlphaRenamerV, rho: Seq<(Seq<char>, Seq<char>)>)
    requires
        scope_ok(st, rho),
        bvars_closed(t, st.env.dom()),
        alpha_term(t, st) is Some,
    ensures
        alpha_eq(t, alpha_term(t, st).unwrap().0, rho),
        alpha_term(t, st).unwrap().1.env == st.env,
        st.used.subset_of(alpha_term(t, st).unwrap().1.used),
    decreases t,
{
    match t {
        TermV::Var(v) => {
            if v.term_kind == TermKind::BVar {
                assert(rho_lookup(rho, v.name) == Some(st.env[v.name]));
                lemma_lookup_binds_alike(rho, v.name, st.env[v.name]);
            }
        },
        TermV::App { func, arg, result_ty } => {
            lemma_alpha_term_equivalent(*func, st, rho);
            let (f2, st1) = alpha_term(*func, st).unwrap();
            assert(scope_ok(st1, rho));
            assert(st1.env.dom() == st.env.dom());
            lemma_alpha_term_equivalent(*arg, st1, rho);
        },
        TermV::Abs { param, body } => {
            let chosen = if st.used.contains(param.name) {
                fresh_letter(st.used, st.index)
            } else {
                Some((param.name, st.index))
            };
            lemma_fresh_letter_free(st.used, st.index);
            let (n, idx) = chosen.unwrap();
            assert(!st.used.contains(n));
            let st1 = AlphaRenamerV { env: st.env.insert(param.name, n), used: st.used.insert(n), index: idx };
            let rho1 = rho.push((param.name, n));
            assert forall|x: Seq<char>| #[trigger] rho_lookup(rho1, x) == (if st1.env.contains_key(x) { Some(st1.env[x]) } else { None }) by {
                assert(rho1.drop_last() =~= rho);
                assert(rho_lookup(rho, x) == (if st.env.contains_key(x) { Some(st.env[x]) } else { None }));
            }
            assert forall|i: int, j: int| 0 <= i < j < rho1.len() implies rho1[i].1 != rho1[j].1 by {
                if j == rho.len() {
                    assert(st.used.contains(rho[i].1));
                } else {
                    assert(rho1[i] == rho[i] && rho1[j] == rho[j]);
                }
            }
            assert forall|i: int| 0 <= i < rho1.len() implies st1.used.contains(#[trigger] rho1[i].1) by {
                if i < rho.len() {
                    assert(rho1[i] == rho[i]);
                    assert(st.used.contains(rho[i].1));
                }
            }
            assert(st1.env.dom() =~= st.env.dom().insert(param.name));
            lemma_alpha_term_equivalent(*body, st1, rho1);
            let (b2, st2) = alpha_term(*body, st1).unwrap();
            assert(leave_scope(st2.env, st.env, param.name) =~= st.env);
        },
    }
}

/// Renaming gives an α-equivalent term: every bound variable still refers
/// to the binder it referred to, and every free symbol keeps its name. It
/// holds of terms whose bound variables all stand under binders of their
/// names.
pub proof fn law_alpha_renaming_is_equivalent(t: TermV)
    requires
        bvars_closed(t, Set::empty()),
        alpha_renamed(t) is Some,
    ensures
        alpha_eq(t, alpha_renamed(t).unwrap(), Seq::empty()),
{
    let st = start_state(t);
    assert(st.env.dom() =~= Set::<Seq<char>>::empty());
    lemma_alpha_term_equivalent(t, st, Seq::empty());
}

} // verus!
