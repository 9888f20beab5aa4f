//! Textual rendering of types, variables, terms and constraints.
use crate::term::{Constraint, ConstraintV, TermKind, TermV, Term, Type, TypeV, Var, Variable};
use crate::tree::{PersistentSubst, State, Step, SubstEntry, entries_view, subst_map};
use std::rc::Rc;
use crate::text::{debug_str, str_debug};
use vstd::prelude::*;
use vstd::string::*;

verus! {

/// The text of a type: base types by name, `a->b` for function types.
pub open spec fn type_text(t: TypeV) -> Seq<char>
    decreases t,
{
    match t {
        TypeV::Real => "Real"@,
        TypeV::Nat => "Nat"@,
        TypeV::Bool => "Bool"@,
        TypeV::Custom(name) => name,
        TypeV::Arrow(a, b) => type_text(*a) + "->"@ + type_text(*b),
    }
}

/// The text of a term: `λ x. body` for abstractions, and `f a` for
/// applications, with the argument in parentheses when it is itself an
/// application or an abstraction.
pub open spec fn term_text(t: TermV) -> Seq<char>
    decreases t,
{
    match t {
        TermV::Var(v) => v.name,
        TermV::Abs { param, body } => "λ "@ + param.name + ". "@ + term_text(*body),
        TermV::App { func, arg, .. } => match *arg {
            TermV::Var(_) => term_text(*func) + " "@ + term_text(*arg),
            _ => term_text(*func) + " ("@ + term_text(*arg) + ")"@,
        },
    }
}

/// The text of a constraint: `lhs ?= rhs`.
pub open spec fn constraint_text(c: ConstraintV) -> Seq<char> {
    term_text(c.0) + " ?= "@ + term_text(c.1)
}

impl Type {
    /// Renders this type as text.
    pub fn to_string(&self) -> (res: String)
        ensures
            res@ == type_text(self@),
        decreases self,
    {
        match self {
            Type::Real => String::from_str("Real"),
            Type::Nat => String::from_str("Nat"),
            Type::Bool => String::from_str("Bool"),
            Type::Custom(name) => name.clone(),
            Type::Arrow(a, b) => {
                let mut s = a.to_string();
                s.append("->");
                let right = b.to_string();
                s.append(right.as_str());
                s
            },
        }
    }
}

impl Variable {
    /// Renders this variable as its name.
    pub fn to_string(&self) -> (res: String)
        ensures
            res@ == self.name@,
    {
        self.name.clone()
    }
}

impl Term {
    /// Renders this term as text.
    pub fn to_string(&self) -> (res: String)
        ensures
            res@ == term_text(self@),
        decreases self,
    {
        match self {
            Term::Var(v) => v.name.clone(),
            Term::Abs { param, body } => {
                let mut s = String::from_str("λ ");
                s.append(param.name.as_str());
                s.append(". ");
                let b = body.to_string();
                s.append(b.as_str());
                s
            },
            Term::App { func, arg, .. } => {
                let mut s = func.to_string();
                let a = arg.to_string();
                match &**arg {
                    Term::Var(_) => {
                        s.append(" ");
                        s.append(a.as_str());
                    },
                    _ => {
                        s.append(" (");
                        s.append(a.as_str());
                        s.append(")");
                    },
                }
                s
            },
        }
    }
}

impl Constraint {
    /// Renders this constraint as `lhs ?= rhs`.
    pub fn to_string(&self) -> (res: String)
        ensures
            res@ == constraint_text(self@),
    {
        let mut s = self.0.to_string();
        s.append(" ?= ");
        let r = self.1.to_string();
        s.append(r.as_str());
        s
    }
}

/// The name of a kind of variable.
pub open spec fn kind_name(k: TermKind) -> Seq<char> {
    match k {
        TermKind::FVar => "FVar"@,
        TermKind::BVar => "BVar"@,
        TermKind::Const => "Const"@,
        TermKind::IVar => "IVar"@,
    }
}

/// The name of the role of a variable.
pub open spec fn role_name(v: Var) -> Seq<char> {
    match v {
        Var::Identification => "Identification"@,
        Var::Elimination => "Elimination"@,
        Var::Basic => "Basic"@,
    }
}

/// The name of a rule.
pub open spec fn step_name(s: Step) -> Seq<char> {
    match s {
        Step::Delete => "Delete"@,
        Step::Dereference => "Dereference"@,
        Step::Decompose => "Decompose"@,
        Step::NormalizeBeta => "NormalizeBeta"@,
        Step::NormalizeAn => "NormalizeAn"@,
        Step::Fail => "Fail"@,
        Step::Start => "Start"@,
        Step::Oracle => "Oracle"@,
        Step::Identification => "Identification"@,
        Step::Imitation => "Imitation"@,
        Step::HsProjection => "HsProjection"@,
        Step::Elimination => "Elimination"@,
    }
}

impl TermKind {
    /// The name of this kind.
    pub fn name(&self) -> (res: String)
        ensures
            res@ == kind_name(*self),
    {
        match self {
            TermKind::FVar => String::from_str("FVar"),
            TermKind::BVar => String::from_str("BVar"),
            TermKind::Const => String::from_str("Const"),
            TermKind::IVar => String::from_str("IVar"),
        }
    }
}

impl Var {
    /// The name of this role.
    pub fn name(&self) -> (res: String)
        ensures
            res@ == role_name(*self),
    {
        match self {
            Var::Identification => String::from_str("Identification"),
            Var::Elimination => String::from_str("Elimination"),
            Var::Basic => String::from_str("Basic"),
        }
    }
}

impl Step {
    /// The name of this rule.
    pub fn name(&self) -> (res: String)
        ensures
            res@ == step_name(*self),
    {
        match self {
            Step::Delete => String::from_str("Delete"),
            Step::Dereference => String::from_str("Dereference"),
            Step::Decompose => String::from_str("Decompose"),
            Step::NormalizeBeta => String::from_str("NormalizeBeta"),
            Step::NormalizeAn => String::from_str("NormalizeAn"),
            Step::Fail => String::from_str("Fail"),
            Step::Start => String::from_str("Start"),
            Step::Oracle => String::from_str("Oracle"),
            Step::Identification => String::from_str("Identification"),
            Step::Imitation => String::from_str("Imitation"),
            Step::HsProjection => String::from_str("HsProjection"),
            Step::Elimination => String::from_str("Elimination"),
        }
    }
}

/// A type as `{:?}` writes it: `Real`, `Custom("T")`, `Arrow(Nat, Bool)`.
pub open spec fn type_debug(t: TypeV) -> Seq<char>
    decreases t,
{
    match t {
        TypeV::Real => "Real"@,
        TypeV::Nat => "Nat"@,
        TypeV::Bool => "Bool"@,
        TypeV::Custom(name) => "Custom("@ + str_debug(name) + ")"@,
        TypeV::Arrow(a, b) => "Arrow("@ + type_debug(*a) + ", "@ + type_debug(*b) + ")"@,
    }
}

impl Type {
    /// This type as `{:?}` writes it.
    pub fn debug_text(&self) -> (res: String)
        ensures
            res@ == type_debug(self@),
        decreases self,
    {
        match self {
            Type::Real => String::from_str("Real"),
            Type::Nat => String::from_str("Nat"),
            Type::Bool => String::from_str("Bool"),
            Type::Custom(name) => {
                let mut s = String::from_str("Custom(");
                let q = debug_str(name.as_str());
                s.append(q.as_str());
                s.append(")");
                s
            },
            Type::Arrow(a, b) => {
                let mut s = String::from_str("Arrow(");
                let l = a.debug_text();
                s.append(l.as_str());
                s.append(", ");
                let r = b.debug_text();
                s.append(r.as_str());
                s.append(")");
                s
            },
        }
    }
}

/// `a` comes before `b` in the order of strings: by the first character in
/// which they differ, and a proper prefix first.
pub open spec fn text_lt(a: Seq<char>, b: Seq<char>) -> bool
    decreases a.len(),
{
    if a.len() == 0 {
        b.len() > 0
    } else if b.len() == 0 {
        false
    } else if a[0] != b[0] {
        a[0] < b[0]
    } else {
        text_lt(a.drop_first(), b.drop_first())
    }
}

/// What the insertion gives holds `x` and the names of `l`, and no other.
pub proof fn lemma_insert_name_members(x: Seq<char>, l: Seq<Seq<char>>)
    ensures
        forall|k: int| 0 <= k < insert_name(x, l).len() ==> #[trigger] insert_name(x, l)[k] == x || l.contains(insert_name(x, l)[k]),
    decreases l.len(),
{
    let r = insert_name(x, l);
    if l.len() == 0 {
    } else if x == l[0] {
        assert forall|k: int| 0 <= k < r.len() implies #[trigger] r[k] == x || l.contains(r[k]) by {
            assert(l[k] == r[k]);
        }
    } else if text_lt(x, l[0]) {
        assert forall|k: int| 0 <= k < r.len() implies #[trigger] r[k] == x || l.contains(r[k]) by {
            if k > 0 {
                assert(l[k - 1] == r[k]);
            }
        }
    } else {
        let d = l.drop_first();
        lemma_insert_name_members(x, d);
        assert forall|k: int| 0 <= k < r.len() implies #[trigger] r[k] == x || l.contains(r[k]) by {
            if k == 0 {
                assert(l[0] == r[0]);
            } else {
                assert(r[k] == insert_name(x, d)[k - 1]);
                if r[k] != x {
                    let q = choose|q: int| 0 <= q < d.len() && d[q] == insert_name(x, d)[k - 1];
                    assert(l[q + 1] == r[k]);
                }
            }
        }
    }
}

/// The sorted names are names of the list.
pub proof fn lemma_sort_names_members(l: Seq<Seq<char>>)
    ensures
        forall|k: int| 0 <= k < sort_names(l).len() ==> l.contains(#[trigger] sort_names(l)[k]),
    decreases l.len(),
{
    if l.len() > 0 {
        let d = l.drop_first();
        lemma_sort_names_members(d);
        lemma_insert_name_members(l[0], sort_names(d));
        assert forall|k: int| 0 <= k < sort_names(l).len() implies l.contains(#[trigger] sort_names(l)[k]) by {
            let y = sort_names(l)[k];
            if y == l[0] {
                assert(l[0] == y);
            } else {
                assert(sort_names(d).contains(y));
                let p = choose|p: int| 0 <= p < sort_names(d).len() && sort_names(d)[p] == y;
                assert(d.contains(sort_names(d)[p]));
                let q = choose|q: int| 0 <= q < d.len() && d[q] == y;
                assert(l[q + 1] == y);
            }
        }
    }
}

/// Every name of a binding is bound by the substitution's map.
pub proof fn lemma_subst_map_keys(s: Seq<(Seq<char>, TermV)>)
    ensures
        forall|i: int| 0 <= i < s.len() ==> subst_map(s).contains_key(#[trigger] s[i].0),
    decreases s.len(),
{
    if s.len() > 0 {
        lemma_subst_map_keys(s.drop_first());
        assert forall|i: int| 0 <= i < s.len() implies subst_map(s).contains_key(#[trigger] s[i].0) by {
            if i > 0 {
                assert(s[i] == s.drop_first()[i - 1]);
            }
        }
    }
}

/// `x` put into the ordered list `l` before the first name it precedes,
/// unless `l` already holds it.
pub open spec fn insert_name(x: Seq<char>, l: Seq<Seq<char>>) -> Seq<Seq<char>>
    decreases l.len(),
{
    if l.len() == 0 {
        seq![x]
    } else if x == l[0] {
        l
    } else if text_lt(x, l[0]) {
        seq![x] + l
    } else {
        seq![l[0]] + insert_name(x, l.drop_first())
    }
}

/// The names of `l` in increasing order, each once.
pub open spec fn sort_names(l: Seq<Seq<char>>) -> Seq<Seq<char>>
    decreases l.len(),
{
    if l.len() == 0 {
        Seq::empty()
    } else {
        insert_name(l[0], sort_names(l.drop_first()))
    }
}

/// The lines `name ↦ term` of the given names, with the terms of `m`.
pub open spec fn binding_lines(names: Seq<Seq<char>>, m: Map<Seq<char>, TermV>) -> Seq<char>
    decreases names.len(),
{
    if names.len() == 0 {
        Seq::empty()
    } else {
        names[0] + " ↦ "@ + term_text(m[names[0]]) + "\n"@ + binding_lines(names.drop_first(), m)
    }
}

/// The text of a substitution: a line `name ↦ term` for each bound name, in
/// increasing order of names, with its newest binding.
pub open spec fn subst_text(s: Seq<(Seq<char>, TermV)>) -> Seq<char> {
    binding_lines(sort_names(s.map_values(|p: (Seq<char>, TermV)| p.0)), subst_map(s))
}

/// Whether `a` comes before `b` in the order of strings.
pub fn text_less(a: &String, b: &String) -> (res: bool)
    ensures
        res == text_lt(a@, b@),
{
    let x = crate::text::chars_of(a.as_str());
    let y = crate::text::chars_of(b.as_str());
    let mut i: usize = 0;
    assert(a@.subrange(0, a@.len() as int) =~= a@);
    assert(b@.subrange(0, b@.len() as int) =~= b@);
    while i < x.len() && i < y.len() && x[i] == y[i]
        invariant
            i <= x.len(),
            i <= y.len(),
            x@ == a@,
            y@ == b@,
            text_lt(a@, b@) == text_lt(a@.subrange(i as int, a@.len() as int), b@.subrange(i as int, b@.len() as int)),
        decreases x.len() - i,
    {
        assert(a@.subrange(i as int, a@.len() as int).drop_first() =~= a@.subrange(i + 1, a@.len() as int));
        assert(b@.subrange(i as int, b@.len() as int).drop_first() =~= b@.subrange(i + 1, b@.len() as int));
        i += 1;
    }
    if i == x.len() {
        i < y.len()
    } else if i == y.len() {
        false
    } else {
        x[i] < y[i]
    }
}

/// Puts `x` into the ordered list `l`, unless it holds it already.
fn insert_sorted(x: String, l: &mut Vec<String>)
    ensures
        final(l).deep_view() == insert_name(x@, old(l).deep_view()),
{
    let ghost l0 = l.deep_view();
    let mut j: usize = 0;
    assert(l0.subrange(0, l0.len() as int) =~= l0);
    assert(l0.subrange(0, 0) =~= Seq::<Seq<char>>::empty());
    while j < l.len()
        invariant
            j <= l.len(),
            l0 == l.deep_view(),
            l0 == old(l).deep_view(),
            insert_name(x@, l0) == l0.subrange(0, j as int) + insert_name(x@, l0.subrange(j as int, l0.len() as int)),
        decreases l.len() - j,
    {
        let ghost rest = l0.subrange(j as int, l0.len() as int);
        assert(rest[0] == l[j as int]@);
        if crate::names::same_text(&x, &l[j]) {
            assert(l0.subrange(0, j as int) + rest =~= l0);
            return;
        }
        if text_less(&x, &l[j]) {
            l.insert(j, x);
            assert(l.deep_view() =~= l0.subrange(0, j as int) + (seq![x@] + rest));
            return;
        }
        assert(rest.drop_first() =~= l0.subrange(j + 1, l0.len() as int));
        assert(l0.subrange(0, j as int) + (seq![rest[0]] + insert_name(x@, rest.drop_first())) =~= l0.subrange(0, j + 1)
            + insert_name(x@, l0.subrange(j + 1, l0.len() as int)));
        j += 1;
    }
    let ghost xv = x@;
    l.push(x);
    assert(l0.subrange(j as int, l0.len() as int) =~= Seq::<Seq<char>>::empty());
    assert(l.deep_view() =~= l0.subrange(0, j as int) + seq![xv]);
}

/// The names of `l` in increasing order, each once.
pub fn sorted_names(l: &Vec<String>) -> (res: Vec<String>)
    ensures
        res.deep_view() == sort_names(l.deep_view()),
{
    let mut acc: Vec<String> = Vec::new();
    let mut i = l.len();
    assert(l.deep_view().subrange(i as int, l.len() as int) =~= Seq::<Seq<char>>::empty());
    assert(acc.deep_view() =~= Seq::<Seq<char>>::empty());
    while i > 0
        invariant
            i <= l.len(),
            acc.deep_view() == sort_names(l.deep_view().subrange(i as int, l.len() as int)),
        decreases i,
    {
        let ghost rest = l.deep_view().subrange(i - 1, l.len() as int);
        assert(rest[0] == l[i - 1]@);
        assert(rest.drop_first() =~= l.deep_view().subrange(i as int, l.len() as int));
        insert_sorted(l[i - 1].clone(), &mut acc);
        i -= 1;
    }
    assert(l.deep_view().subrange(0, l.len() as int) =~= l.deep_view());
    acc
}

impl PersistentSubst {
    /// The names bound, newest binding first, with repetitions.
    pub fn bound_names(&self) -> (res: Vec<String>)
        ensures
            res.deep_view() == self@.map_values(|p: (Seq<char>, TermV)| p.0),
    {
        let mut out: Vec<String> = Vec::new();
        let mut cur: &Option<Rc<SubstEntry>> = &self.0;
        assert(out.deep_view() =~= Seq::<Seq<char>>::empty());
        loop
            invariant
                self@.map_values(|p: (Seq<char>, TermV)| p.0) == out.deep_view() + entries_view(*cur).map_values(
                    |p: (Seq<char>, TermV)| p.0,
                ),
            decreases entries_view(*cur).len(),
        {
            match cur {
                None => {
                    assert(entries_view(*cur).map_values(|p: (Seq<char>, TermV)| p.0) =~= Seq::<Seq<char>>::empty());
                    assert(out.deep_view() + Seq::<Seq<char>>::empty() =~= out.deep_view());
                    return out;
                },
                Some(entry) => {
                    let ghost rest = entries_view(entry.prev@);
                    let ghost before = out.deep_view();
                    assert(entries_view(*cur) == seq![(entry.var@, entry.val@)] + rest);
                    out.push(entry.var.clone());
                    assert((seq![(entry.var@, entry.val@)] + rest).map_values(|p: (Seq<char>, TermV)| p.0) =~= seq![entry.var@]
                        + rest.map_values(|p: (Seq<char>, TermV)| p.0));
                    assert(out.deep_view() =~= before.push(entry.var@));
                    cur = &entry.prev;
                },
            }
        }
    }

    /// Renders this substitution as its lines `name ↦ term`, in increasing
    /// order of names.
    pub fn to_string(&self) -> (res: String)
        ensures
            res@ == subst_text(self@),
    {
        let all = self.bound_names();
        let names = sorted_names(&all);
        proof {
            lemma_sort_names_members(all.deep_view());
            lemma_subst_map_keys(self@);
            assert forall|j: int| 0 <= j < names.deep_view().len() implies subst_map(self@).contains_key(
                #[trigger] names.deep_view()[j],
            ) by {
                assert(all.deep_view().contains(sort_names(all.deep_view())[j]));
                let q = choose|q: int| 0 <= q < all.deep_view().len() && all.deep_view()[q] == names.deep_view()[j];
                assert(self@[q].0 == all.deep_view()[q]);
            }
        }
        let map = self.to_hashmap();
        let ghost m = subst_map(self@);
        let ghost ns = names.deep_view();
        let mut out = String::new();
        let mut i = names.len();
        assert(ns.subrange(i as int, ns.len() as int) =~= Seq::<Seq<char>>::empty());
        let mut lines: Vec<String> = Vec::new();
        let mut k: usize = 0;
        assert(ns.subrange(0, ns.len() as int) =~= ns);
        while k < names.len()
            invariant
                k <= names.len(),
                ns == names.deep_view(),
                m == map@,
                binding_lines(ns, m) == out@ + binding_lines(ns.subrange(k as int, ns.len() as int), m),
                forall|j: int| 0 <= j < ns.len() ==> m.contains_key(#[trigger] ns[j]),
            decreases names.len() - k,
        {
            let ghost rest = ns.subrange(k as int, ns.len() as int);
            assert(rest[0] == names[k as int]@);
            assert(rest.drop_first() =~= ns.subrange(k + 1, ns.len() as int));
            let t = match map.get(&names[k]) {
                Some(t) => t.to_string(),
                None => String::new(),
            };
            let ghost before = out@;
            out.append(names[k].as_str());
            out.append(" ↦ ");
            out.append(t.as_str());
            out.append("\n");
            assert(before + (rest[0] + " ↦ "@ + term_text(m[rest[0]]) + "\n"@ + binding_lines(rest.drop_first(), m))
                =~= out@ + binding_lines(rest.drop_first(), m));
            k += 1;
        }
        assert(ns.subrange(k as int, ns.len() as int) =~= Seq::<Seq<char>>::empty());
        assert(out@ + Seq::<char>::empty() =~= out@);
        out
    }
}

impl State {
    /// Renders this state as the text of its substitution.
    pub fn to_string(&self) -> (res: String)
        ensures
            res@ == subst_text(self@.subst),
    {
        self.subst.to_string()
    }
}

/// The names are in strictly increasing order.
pub open spec fn strictly_sorted(l: Seq<Seq<char>>) -> bool {
    forall|i: int, j: int| 0 <= i < j < l.len() ==> text_lt(#[trigger] l[i], #[trigger] l[j])
}

/// No text comes before itself.
pub proof fn lemma_text_lt_irreflexive(a: Seq<char>)
    ensures
        !text_lt(a, a),
    decreases a.len(),
{
    if a.len() > 0 {
        lemma_text_lt_irreflexive(a.drop_first());
    }
}

/// The order of texts is transitive.
pub proof fn lemma_text_lt_transitive(a: Seq<char>, b: Seq<char>, c: Seq<char>)
    requires
        text_lt(a, b),
        text_lt(b, c),
    ensures
        text_lt(a, c),
    decreases a.len(),
{
    if a.len() > 0 && b.len() > 0 && c.len() > 0 && a[0] == b[0] && b[0] == c[0] {
        lemma_text_lt_transitive(a.drop_first(), b.drop_first(), c.drop_first());
    }
}

/// Of two different texts, one comes before the other.
pub proof fn lemma_text_lt_total(a: Seq<char>, b: Seq<char>)
    requires
        a != b,
    ensures
        text_lt(a, b) || text_lt(b, a),
    decreases a.len(),
{
    if a.len() > 0 && b.len() > 0 && a[0] == b[0] {
        if a.drop_first() == b.drop_first() {
            assert(a =~= seq![a[0]] + a.drop_first());
            assert(b =~= seq![b[0]] + b.drop_first());
        }
        lemma_text_lt_total(a.drop_first(), b.drop_first());
    } else if a.len() == 0 && b.len() == 0 {
        assert(a =~= b);
    }
}

/// Inserting into an ordered list keeps it ordered and adds just the new
/// name.
pub proof fn lemma_insert_name_sorted(x: Seq<char>, l: Seq<Seq<char>>)
    requires
        strictly_sorted(l),
    ensures
        strictly_sorted(insert_name(x, l)),
        insert_name(x, l).to_set() == l.to_set().insert(x),
    decreases l.len(),
{
    let r = insert_name(x, l);
    if l.len() == 0 {
        assert forall|y: Seq<char>| r.to_set().contains(y) <==> l.to_set().insert(x).contains(y) by {
            if y == x {
                assert(r[0] == x);
            }
        }
        assert(r.to_set() =~= l.to_set().insert(x));
    } else if x == l[0] {
        assert(l.to_set().contains(x));
        assert(r.to_set() =~= l.to_set().insert(x));
    } else if text_lt(x, l[0]) {
        assert forall|i: int, j: int| 0 <= i < j < r.len() implies text_lt(#[trigger] r[i], #[trigger] r[j]) by {
            if i == 0 {
                if j > 1 {
                    lemma_text_lt_transitive(x, l[0], l[j - 1]);
                }
            } else {
                assert(r[i] == l[i - 1] && r[j] == l[j - 1]);
            }
        }
        assert(r.to_set() =~= l.to_set().insert(x)) by {
            assert forall|y: Seq<char>| r.to_set().contains(y) <==> l.to_set().insert(x).contains(y) by {
                if r.contains(y) {
                    let k = choose|k: int| 0 <= k < r.len() && r[k] == y;
                    if k > 0 {
                        assert(l[k - 1] == y);
                    }
                }
                if l.contains(y) {
                    let k = choose|k: int| 0 <= k < l.len() && l[k] == y;
                    assert(r[k + 1] == y);
                }
            }
        }
    } else {
        let d = l.drop_first();
        assert(strictly_sorted(d)) by {
            assert forall|i: int, j: int| 0 <= i < j < d.len() implies text_lt(#[trigger] d[i], #[trigger] d[j]) by {
                assert(d[i] == l[i + 1] && d[j] == l[j + 1]);
            }
        }
        lemma_insert_name_sorted(x, d);
        lemma_text_lt_total(x, l[0]);
        let rd = insert_name(x, d);
        assert(r == seq![l[0]] + rd);
        assert forall|i: int, j: int| 0 <= i < j < r.len() implies text_lt(#[trigger] r[i], #[trigger] r[j]) by {
            if i == 0 {
                let y = rd[j - 1];
                assert(rd.to_set().contains(y));
                if y != x {
                    assert(d.to_set().contains(y));
                    let k = choose|k: int| 0 <= k < d.len() && d[k] == y;
                    assert(l[k + 1] == y);
                }
            } else {
                assert(r[i] == rd[i - 1] && r[j] == rd[j - 1]);
            }
        }
        assert(r.to_set() =~= l.to_set().insert(x)) by {
            assert forall|y: Seq<char>| r.to_set().contains(y) <==> l.to_set().insert(x).contains(y) by {
                if r.contains(y) {
                    let k = choose|k: int| 0 <= k < r.len() && r[k] == y;
                    if k > 0 {
                        assert(rd[k - 1] == y);
                        assert(rd.contains(y));
                        assert(rd.to_set().contains(y));
                        if y != x {
                            assert(d.to_set().contains(y));
                            let m = choose|m: int| 0 <= m < d.len() && d[m] == y;
                            assert(l[m + 1] == y);
                        }
                    }
                }
                if l.contains(y) {
                    let k = choose|k: int| 0 <= k < l.len() && l[k] == y;
                    if k > 0 {
                        assert(d[k - 1] == y);
                        assert(d.to_set().contains(y));
                        assert(rd.to_set().contains(y));
                        let m = choose|m: int| 0 <= m < rd.len() && rd[m] == y;
                        assert(r[m + 1] == y);
                    }
                }
                if y == x {
                    assert(rd.to_set().contains(x));
                    let m = choose|m: int| 0 <= m < rd.len() && rd[m] == x;
                    assert(r[m + 1] == x);
                }
            }
        }
    }
}

/// The names of a substitution's text come in strictly increasing order,
/// each bound name once: the sorted list holds the names of the list, each
/// once, in order.
pub proof fn law_sorted_names(l: Seq<Seq<char>>)
    ensures
        strictly_sorted(sort_names(l)),
        sort_names(l).to_set() == l.to_set(),
    decreases l.len(),
{
    if l.len() == 0 {
        assert(sort_names(l).to_set() =~= l.to_set());
    } else {
        law_sorted_names(l.drop_first());
        lemma_insert_name_sorted(l[0], sort_names(l.drop_first()));
        assert(l.to_set() =~= l.drop_first().to_set().insert(l[0])) by {
            assert(l =~= seq![l[0]] + l.drop_first());
            assert forall|y: Seq<char>| l.to_set().contains(y) <==> l.drop_first().to_set().insert(l[0]).contains(y) by {
                if l.contains(y) {
                    let k = choose|k: int| 0 <= k < l.len() && l[k] == y;
                    if k > 0 {
                        assert(l.drop_first()[k - 1] == y);
                    }
                }
                if l.drop_first().contains(y) {
                    let k = choose|k: int| 0 <= k < l.drop_first().len() && l.drop_first()[k] == y;
                    assert(l[k + 1] == y);
                }
            }
        }
    }
}

} // verus!
