//! Helpers on the shape of terms: binders, heads and argument spines,
//! bound-variable lists, fresh-name generators and flex/rigid tests.
use crate::names::{FreshNameGen, NameSet, decimal, usize_to_string, budget_ok, gen_run, gen_step, lemma_budget_step};
use crate::tree::{PersistentSubst, subst_map};
use crate::term::{Term, TermKind, TermV, Type, TypeV, Var, Variable, VariableV, type_of, arrow_args};
use vstd::prelude::*;
use vstd::string::*;

verus! {

/// The binders `x1 ... xm` of a term `λx1. ... λxm. s` whose body `s` is not
/// an abstraction.
pub open spec fn lambdas(t: TermV) -> Seq<VariableV>
    decreases t,
{
    match t {
        TermV::Abs { param, body } => seq![param] + lambdas(*body),
        _ => Seq::empty(),
    }
}

/// The body left after removing all leading abstractions.
pub open spec fn strip_lambdas(t: TermV) -> TermV
    decreases t,
{
    match t {
        TermV::Abs { body, .. } => strip_lambdas(*body),
        _ => t,
    }
}

/// `λbs[0]. ... λbs[n-1]. body`.
pub open spec fn wrap_abs(bs: Seq<VariableV>, body: TermV) -> TermV
    decreases bs.len(),
{
    if bs.len() == 0 {
        body
    } else {
        TermV::Abs { param: bs[0], body: Box::new(wrap_abs(bs.drop_first(), body)) }
    }
}

/// The head of an application spine `h a1 ... an`.
pub open spec fn spine_head(t: TermV) -> TermV
    decreases t,
{
    match t {
        TermV::App { func, .. } => spine_head(*func),
        _ => t,
    }
}

/// The arguments `a1 ... an` of an application spine `h a1 ... an`.
pub open spec fn spine_args(t: TermV) -> Seq<TermV>
    decreases t,
{
    match t {
        TermV::App { func, arg, .. } => spine_args(*func).push(*arg),
        _ => Seq::empty(),
    }
}

/// The head of `λx. h a1 ... an`.
pub open spec fn hnf_head(t: TermV) -> TermV {
    spine_head(strip_lambdas(t))
}

/// The arguments of `λx. h a1 ... an`.
pub open spec fn hnf_args(t: TermV) -> Seq<TermV> {
    spine_args(strip_lambdas(t))
}

/// The codomain of a function type.
pub open spec fn codomain(t: TypeV) -> TypeV {
    match t {
        TypeV::Arrow(_, b) => *b,
        _ => t,
    }
}

/// `head arg`, typed by the codomain of the head's type.
pub open spec fn apply1(head: TermV, arg: TermV) -> TermV {
    TermV::App { func: Box::new(head), arg: Box::new(arg), result_ty: codomain(type_of(head)) }
}

/// `head args[0] ... args[n-1]`, each application typed by the codomain of
/// the function's type.
pub open spec fn apply_spine(head: TermV, args: Seq<TermV>) -> TermV
    decreases args.len(),
{
    if args.len() == 0 {
        head
    } else {
        apply_spine(apply1(head, args[0]), args.drop_first())
    }
}

/// Every partial application of `head` to a prefix of `args` that is applied
/// further has a function type.
pub open spec fn applicable(head: TermV, args: Seq<TermV>) -> bool
    decreases args.len(),
{
    args.len() == 0 || (type_of(head) is Arrow && applicable(apply1(head, args[0]), args.drop_first()))
}

/// The variables as terms.
pub open spec fn var_terms(vs: Seq<VariableV>) -> Seq<TermV> {
    Seq::new(vs.len(), |i: int| TermV::Var(vs[i]))
}

/// The bound variables `prefix1 ... prefixn` with the given types.
pub open spec fn bound_vars(alphas: Seq<TypeV>, prefix: Seq<char>) -> Seq<VariableV> {
    Seq::new(
        alphas.len(),
        |i: int|
            VariableV {
                name: prefix + decimal((i + 1) as nat),
                term_kind: TermKind::BVar,
                ty: alphas[i],
                var: Var::Basic,
            },
    )
}

/// All names in a term: variables and binders.
pub open spec fn term_names(t: TermV) -> Set<Seq<char>>
    decreases t,
{
    match t {
        TermV::Var(v) => set![v.name],
        TermV::Abs { param, body } => set![param.name] + term_names(*body),
        TermV::App { func, arg, .. } => term_names(*func) + term_names(*arg),
    }
}

/// The number of nodes of a term.
pub open spec fn term_size(t: TermV) -> nat
    decreases t,
{
    match t {
        TermV::Var(_) => 1,
        TermV::Abs { body, .. } => 1 + term_size(*body),
        TermV::App { func, arg, .. } => 1 + term_size(*func) + term_size(*arg),
    }
}

/// A term is flexible when it is a free variable.
pub open spec fn flex(t: TermV) -> bool {
    t matches TermV::Var(v) && v.term_kind == TermKind::FVar
}

/// A term is rigid when its head is not a free variable.
pub open spec fn rigid(t: TermV) -> bool {
    crate::term::head_kind(t) != TermKind::FVar
}

/// Adds every name of `term` to `set`.
pub fn collect_names(term: &Term, set: &mut NameSet)
    ensures
        final(set)@ == old(set)@ + term_names(term@),
        final(set).names.len() <= old(set).names.len() + term_size(term@),
    decreases term,
{
    match term {
        Term::Var(v) => {
            set.insert(v.name.clone());
        },
        Term::Abs { param, body } => {
            set.insert(param.name.clone());
            collect_names(body, set);
        },
        Term::App { func, arg, .. } => {
            collect_names(func, set);
            collect_names(arg, set);
        },
    }
    assert(set@ =~= old(set)@ + term_names(term@));
}

/// The names of all the terms.
pub open spec fn names_of_all(ts: Seq<TermV>) -> Set<Seq<char>>
    decreases ts.len(),
{
    if ts.len() == 0 {
        Set::empty()
    } else {
        names_of_all(ts.drop_last()) + term_names(ts.last())
    }
}

/// The total size of all the terms.
pub open spec fn size_of_all(ts: Seq<TermV>) -> nat
    decreases ts.len(),
{
    if ts.len() == 0 {
        0
    } else {
        size_of_all(ts.drop_last()) + term_size(ts.last())
    }
}

/// A generator of fresh names that avoids every name of the given terms.
pub fn init_fresh_gen(terms: Vec<&Term>) -> (res: FreshNameGen)
    ensures
        res.counter == 1,
        res.used@ == names_of_all(terms.deep_view()),
        res.used.names.len() <= size_of_all(terms.deep_view()),
{
    let mut used = NameSet::new();
    let mut i: usize = 0;
    while i < terms.len()
        invariant
            i <= terms.len(),
            used@ == names_of_all(terms.deep_view().subrange(0, i as int)),
            used.names.len() <= size_of_all(terms.deep_view().subrange(0, i as int)),
        decreases terms.len() - i,
    {
        collect_names(terms[i], &mut used);
        assert(terms.deep_view().subrange(0, i + 1).drop_last() =~= terms.deep_view().subrange(
            0,
            i as int,
        ));
        i += 1;
    }
    assert(terms.deep_view().subrange(0, i as int) =~= terms.deep_view());
    FreshNameGen { used, counter: 1 }
}

/// Whether the term is a single free variable.
pub fn is_flex(t: &Term) -> (res: bool)
    ensures
        res == flex(t@),
{
    match t {
        Term::Var(v) => v.term_kind == TermKind::FVar,
        _ => false,
    }
}

/// Whether the term's head is not a free variable.
pub fn is_rigid(t: &Term) -> (res: bool)
    ensures
        res == rigid(t@),
{
    t.get_termkind() != TermKind::FVar
}

/// A free variable that the substitution does not bind and that identification
/// did not make.
pub open spec fn non_identification_var(t: TermV, subst: Seq<(Seq<char>, TermV)>) -> bool {
    &&& t is Var
    &&& t->Var_0.term_kind == TermKind::FVar
    &&& !subst_map(subst).contains_key(t->Var_0.name)
    &&& t->Var_0.var != Var::Identification
}

/// Whether `term` is a free variable, unbound by `subst`, not made by
/// identification.
pub fn is_non_identification_var(term: &Term, subst: &PersistentSubst) -> (res: bool)
    ensures
        res == non_identification_var(term@, subst@),
{
    if let Term::Var(var) = term {
        if var.term_kind == TermKind::FVar {
            let bound = subst.to_hashmap();
            let still_free = !bound.contains_key(&var.name);
            return still_free && var.var != Var::Identification;
        }
    }
    false
}

/// Whether the variable at the head is an elimination variable.
pub fn is_elimination_variable(head: &Term) -> (res: bool)
    requires
        head@ is Var,
    ensures
        res == (head@->Var_0.var == Var::Elimination),
{
    match head {
        Term::Var(v) => v.var == Var::Elimination,
        _ => false,
    }
}

/// `λbinders[0]. ... λbinders[n-1]. term`.
pub fn wrap_with_abstractions(term: &Term, binders: &Vec<Variable>) -> (res: Term)
    ensures
        res@ == wrap_abs(binders.deep_view(), term@),
{
    let mut acc = term.clone();
    let mut i = binders.len();
    assert(binders.deep_view().subrange(i as int, binders.len() as int).len() == 0);
    while i > 0
        invariant
            i <= binders.len(),
            acc@ == wrap_abs(binders.deep_view().subrange(i as int, binders.len() as int), term@),
        decreases i,
    {
        i -= 1;
        let ghost rest = binders.deep_view().subrange(i + 1, binders.len() as int);
        let ghost all = binders.deep_view().subrange(i as int, binders.len() as int);
        assert(all.drop_first() =~= rest);
        assert(all[0] == binders[i as int]@);
        acc = Term::Abs { param: binders[i].clone(), body: Box::new(acc) };
    }
    assert(binders.deep_view().subrange(0, binders.len() as int) =~= binders.deep_view());
    acc
}

/// Splits `λx1...xm. s` into its binders and its body.
pub fn collect_lambdas(term: &Term) -> (res: (Vec<Variable>, Term))
    ensures
        res.0.deep_view() == lambdas(term@),
        res.1@ == strip_lambdas(term@),
{
    let mut binders: Vec<Variable> = Vec::new();
    let mut current = term.clone();
    while current.is_abs()
        invariant
            binders.deep_view() + lambdas(current@) == lambdas(term@),
            strip_lambdas(current@) == strip_lambdas(term@),
        decreases current,
    {
        match current {
            Term::Abs { param, body } => {
                let ghost before = binders.deep_view();
                binders.push(param);
                assert(binders.deep_view() =~= before.push(param@));
                assert(before + lambdas(term_v_abs(param@, body@)) =~= binders.deep_view() + lambdas(body@));
                current = *body;
            },
            other => {
                current = other;
            },
        }
    }
    assert(binders.deep_view() + lambdas(current@) =~= binders.deep_view());
    (binders, current)
}

spec fn term_v_abs(param: VariableV, body: TermV) -> TermV {
    TermV::Abs { param, body: Box::new(body) }
}

impl Term {
    /// Whether this term is an abstraction.
    pub fn is_abs(&self) -> (res: bool)
        ensures
            res <==> self@ is Abs,
    {
        matches!(self, Term::Abs { .. })
    }

    /// Whether this term is an application.
    pub fn is_app(&self) -> (res: bool)
        ensures
            res <==> self@ is App,
    {
        matches!(self, Term::App { .. })
    }
}

/// The bound variables `prefix1 ... prefixn` of the types `alphas`, kind
/// `BVar`, role `Basic`.
pub fn build_bound_vars(alphas: &Vec<Type>, prefix: &str) -> (res: Vec<Variable>)
    ensures
        res.deep_view() == bound_vars(alphas.deep_view(), prefix@),
{
    let mut out: Vec<Variable> = Vec::new();
    let mut i: usize = 0;
    while i < alphas.len()
        invariant
            i <= alphas.len(),
            out.deep_view() == bound_vars(alphas.deep_view(), prefix@).subrange(0, i as int),
        decreases alphas.len() - i,
    {
        let mut name = String::from_str(prefix);
        let num = usize_to_string(i + 1);
        name.append(num.as_str());
        let ghost before = out.deep_view();
        let v = Variable { name, term_kind: TermKind::BVar, ty: alphas[i].clone(), var: Var::Basic };
        assert(v@ == bound_vars(alphas.deep_view(), prefix@)[i as int]);
        out.push(v);
        assert(out.deep_view() =~= before.push(v@));
        assert(out.deep_view() =~= bound_vars(alphas.deep_view(), prefix@).subrange(0, i + 1));
        i += 1;
    }
    assert(out.deep_view() =~= bound_vars(alphas.deep_view(), prefix@));
    out
}

/// The variables as terms.
pub fn vars_to_terms(vs: &Vec<Variable>) -> (res: Vec<Term>)
    ensures
        res.deep_view() == var_terms(vs.deep_view()),
{
    let mut out: Vec<Term> = Vec::new();
    let mut i: usize = 0;
    while i < vs.len()
        invariant
            i <= vs.len(),
            out.deep_view() == var_terms(vs.deep_view()).subrange(0, i as int),
        decreases vs.len() - i,
    {
        let ghost before = out.deep_view();
        let t = Term::Var(vs[i].clone());
        assert(t@ == var_terms(vs.deep_view())[i as int]);
        out.push(t);
        assert(out.deep_view() =~= before.push(t@));
        assert(out.deep_view() =~= var_terms(vs.deep_view()).subrange(0, i + 1));
        i += 1;
    }
    assert(out.deep_view() =~= var_terms(vs.deep_view()));
    out
}

/// Splits `λx. h a1 ... an` into its binders, its head and its arguments.
pub fn flatten_hnf(term: &Term) -> (res: (Vec<Variable>, Term, Vec<Term>))
    ensures
        res.0.deep_view() == lambdas(term@),
        res.1@ == hnf_head(term@),
        res.2.deep_view() == hnf_args(term@),
{
    let (binders, body) = collect_lambdas(term);
    let mut args: Vec<Term> = Vec::new();
    let mut head = body;
    while head.is_app()
        invariant
            spine_args(head@) + args.deep_view() == hnf_args(term@),
            spine_head(head@) == hnf_head(term@),
        decreases head,
    {
        match head {
            Term::App { func, arg, .. } => {
                let ghost before = args.deep_view();
                args.insert(0, *arg);
                assert(args.deep_view() =~= seq![arg@] + before);
                assert(spine_args(func@) + args.deep_view() =~= spine_args(func@).push(arg@) + before);
                head = *func;
            },
            other => {
                head = other;
            },
        }
    }
    assert(spine_args(head@) + args.deep_view() =~= args.deep_view());
    (binders, head, args)
}

/// `term args[0] ... args[n-1]`, each application typed by the codomain of
/// the function's type.
pub fn apply_with(term: Term, args: &Vec<Term>) -> (res: Term)
    requires
        applicable(term@, args.deep_view()),
    ensures
        res@ == apply_spine(term@, args.deep_view()),
{
    let mut acc = term;
    let mut i: usize = 0;
    assert(args.deep_view().subrange(0, args.len() as int) =~= args.deep_view());
    while i < args.len()
        invariant
            i <= args.len(),
            applicable(acc@, args.deep_view().subrange(i as int, args.len() as int)),
            apply_spine(acc@, args.deep_view().subrange(i as int, args.len() as int))
                == apply_spine(term@, args.deep_view()),
        decreases args.len() - i,
    {
        let ghost rest = args.deep_view().subrange(i as int, args.len() as int);
        assert(rest.drop_first() =~= args.deep_view().subrange(i + 1, args.len() as int));
        assert(rest[0] == args[i as int]@);
        let ty = acc.get_type();
        let result_ty = match ty {
            Type::Arrow(_, ret) => *ret,
            other => other,
        };
        acc = Term::App { func: Box::new(acc), arg: Box::new(args[i].clone()), result_ty };
        i += 1;
    }
    assert(args.deep_view().subrange(0, args.len() as int) =~= args.deep_view());
    acc
}

/// The binders of a term and a reference to its body.
pub fn get_abs(term: &Term) -> (res: (Vec<&Variable>, &Term))
    ensures
        res.0.deep_view() == lambdas(term@),
        res.1@ == strip_lambdas(term@),
{
    let mut binders: Vec<&Variable> = Vec::new();
    let mut t = term;
    while t.is_abs()
        invariant
            binders.deep_view() + lambdas(t@) == lambdas(term@),
            strip_lambdas(t@) == strip_lambdas(term@),
        decreases t,
    {
        match t {
            Term::Abs { param, body } => {
                let ghost before = binders.deep_view();
                binders.push(param);
                assert(binders.deep_view() =~= before.push(param@));
                assert(before + lambdas(t@) =~= binders.deep_view() + lambdas(body@));
                t = body;
            },
            _ => {},
        }
    }
    assert(binders.deep_view() + lambdas(t@) =~= binders.deep_view());
    (binders, t)
}

/// The head of a spine is never an application.
pub proof fn lemma_spine_head_not_app(t: TermV)
    ensures
        !(spine_head(t) is App),
    decreases t,
{
    if let TermV::App { func, .. } = t {
        lemma_spine_head_not_app(*func);
    }
}

/// A head whose kind is `FVar` is a free variable.
pub proof fn lemma_flex_head_is_var(t: TermV)
    requires
        crate::term::head_kind(hnf_head(t)) == TermKind::FVar,
    ensures
        hnf_head(t) is Var,
        hnf_head(t)->Var_0.term_kind == TermKind::FVar,
{
    lemma_spine_head_not_app(strip_lambdas(t));
}

/// The names of two terms.
pub open spec fn names2(a: TermV, b: TermV) -> Set<Seq<char>> {
    term_names(a) + term_names(b)
}

/// Two terms are small enough for the fresh names a rule makes about them.
pub open spec fn fits_fresh(a: TermV, b: TermV, k: nat) -> bool {
    term_size(a) + term_size(b) + k <= 0x8000_0000
}

/// A generator over the names of `a` and `b`.
pub fn init_fresh_gen2(a: &Term, b: &Term) -> (res: FreshNameGen)
    ensures
        res.counter == 1,
        res.used@ == names2(a@, b@),
        res.used.names.len() <= term_size(a@) + term_size(b@),
{
    let mut v: Vec<&Term> = Vec::new();
    v.push(a);
    v.push(b);
    let res = init_fresh_gen(v);
    proof {
        let d = v.deep_view();
        let d1 = d.drop_last();
        assert(d1.drop_last() =~= Seq::<TermV>::empty());
        assert(d1.last() == a@);
        assert(d.last() == b@);
        assert(names_of_all(d1.drop_last()) == Set::<Seq<char>>::empty());
        assert(size_of_all(d1.drop_last()) == 0);
        assert(names_of_all(d1) =~= Set::<Seq<char>>::empty() + term_names(a@));
        assert(names_of_all(d) =~= names2(a@, b@));
        assert(size_of_all(d1) == term_size(a@));
    }
    res
}

/// The argument types of `ty` start with the types of `args`, in order.
pub open spec fn typed_app(ty: TypeV, args: Seq<TermV>) -> bool {
    args.len() <= crate::term::arrow_args(ty).len() && forall|i: int|
        0 <= i < args.len() ==> crate::term::arrow_args(ty)[i] == type_of(#[trigger] args[i])
}

/// `ty` with its first `n` argument types removed.
pub open spec fn skip_args(ty: TypeV, n: nat) -> TypeV
    decreases n,
{
    if n == 0 {
        ty
    } else {
        skip_args(codomain(ty), (n - 1) as nat)
    }
}

/// Applying a head to arguments of the types its type expects is possible,
/// and the result has the remaining type.
pub proof fn lemma_typed_app(head: TermV, args: Seq<TermV>)
    requires
        typed_app(type_of(head), args),
    ensures
        applicable(head, args),
        type_of(apply_spine(head, args)) == skip_args(type_of(head), args.len()),
    decreases args.len(),
{
    if args.len() > 0 {
        let ty = type_of(head);
        let next = apply1(head, args[0]);
        assert(ty is Arrow);
        assert(type_of(next) == codomain(ty));
        assert(crate::term::arrow_args(ty) == seq![*ty->Arrow_0] + crate::term::arrow_args(*ty->Arrow_1));
        assert forall|i: int| 0 <= i < args.drop_first().len() implies crate::term::arrow_args(type_of(next))[i]
            == type_of(#[trigger] args.drop_first()[i]) by {
            assert(args.drop_first()[i] == args[i + 1]);
        }
        lemma_typed_app(next, args.drop_first());
    }
}

/// The argument types of an arrow type built from a list are that list.
pub proof fn lemma_arrows_args(tys: Seq<TypeV>, r: TypeV)
    ensures
        crate::term::arrow_args(crate::term::arrows(tys, r)) == tys + crate::term::arrow_args(r),
        crate::term::arrow_result(crate::term::arrows(tys, r)) == crate::term::arrow_result(r),
        skip_args(crate::term::arrows(tys, r), tys.len()) == r,
    decreases tys.len(),
{
    if tys.len() > 0 {
        lemma_arrows_args(tys.drop_first(), r);
        assert(tys =~= seq![tys[0]] + tys.drop_first());
    }
}

/// Applies `head` to `args` one by one while its type is a function type,
/// each argument's type being the expected argument type.
pub fn apply_args_checked(head: Term, args: &Vec<Term>) -> (res: Term)
    requires
        typed_app(type_of(head@), args.deep_view()),
    ensures
        res@ == apply_spine(head@, args.deep_view()),
{
    let mut acc = head;
    let mut i: usize = 0;
    assert(args.deep_view().subrange(0, args.len() as int) =~= args.deep_view());
    while i < args.len()
        invariant
            i <= args.len(),
            typed_app(type_of(acc@), args.deep_view().subrange(i as int, args.len() as int)),
            apply_spine(acc@, args.deep_view().subrange(i as int, args.len() as int))
                == apply_spine(head@, args.deep_view()),
        decreases args.len() - i,
    {
        let ghost rest = args.deep_view().subrange(i as int, args.len() as int);
        assert(rest.drop_first() =~= args.deep_view().subrange(i + 1, args.len() as int));
        assert(rest[0] == args[i as int]@);
        let ghost ty = type_of(acc@);
        assert(crate::term::arrow_args(ty).len() > 0);
        assert(ty is Arrow);
        assert(crate::term::arrow_args(ty) == seq![*ty->Arrow_0] + crate::term::arrow_args(*ty->Arrow_1));
        assert(crate::term::arrow_args(ty)[0] == type_of(rest[0]));
        let ty_exec = acc.get_type();
        match ty_exec {
            Type::Arrow(_dom, cod) => {
                acc = Term::App { func: Box::new(acc), arg: Box::new(args[i].clone()), result_ty: *cod };
            },
            _ => {},
        }
        assert forall|j: int| 0 <= j < args.deep_view().subrange(i + 1, args.len() as int).len()
            implies crate::term::arrow_args(type_of(acc@))[j] == type_of(
            #[trigger] args.deep_view().subrange(i + 1, args.len() as int)[j],
        ) by {
            assert(args.deep_view().subrange(i + 1, args.len() as int)[j] == rest[j + 1]);
        }
        i += 1;
    }
    acc
}

/// An ASCII decimal digit.
pub open spec fn ascii_digit(c: char) -> bool {
    '0' <= c <= '9'
}

/// `s` without its trailing ASCII digits.
pub open spec fn trim_digits(s: Seq<char>) -> Seq<char>
    decreases s.len(),
{
    if s.len() > 0 && ascii_digit(s.last()) {
        trim_digits(s.drop_last())
    } else {
        s
    }
}

fn ends_with_digit(s: &str, end: usize) -> (res: bool)
    requires
        0 < end <= s@.len(),
    ensures
        res == ascii_digit(s@[end - 1]),
{
    let c = s.get_char(end - 1);
    '0' <= c && c <= '9'
}

/// `s` without its trailing ASCII digits.
pub fn trim_trailing_digits(s: &str) -> (res: String)
    ensures
        res@ == trim_digits(s@),
{
    let n = s.unicode_len();
    let mut end = n;
    assert(s@.subrange(0, end as int) =~= s@);
    while end > 0 && ends_with_digit(s, end)
        invariant
            end <= n == s@.len(),
            trim_digits(s@) == trim_digits(s@.subrange(0, end as int)),
        decreases end,
    {
        assert(s@.subrange(0, end as int).drop_last() =~= s@.subrange(0, end - 1));
        end -= 1;
    }
    let t = s.substring_char(0, end);
    String::from_str(t)
}

/// Free variables with the given names, of types `arg_tys -> res_tys[i]`.
pub open spec fn fresh_var_terms(names: Seq<Seq<char>>, arg_tys: Seq<TypeV>, res_tys: Seq<TypeV>) -> Seq<TermV> {
    Seq::new(
        res_tys.len(),
        |i: int|
            TermV::Var(
                VariableV {
                    name: names[i],
                    term_kind: TermKind::FVar,
                    ty: crate::term::arrows(arg_tys, res_tys[i]),
                    var: Var::Basic,
                },
            ),
    )
}

/// `arg_tys[0] -> ... -> arg_tys[n-1] -> res`.
pub fn build_arrows(arg_tys: &Vec<Type>, res: &Type) -> (out: Type)
    ensures
        out@ == crate::term::arrows(arg_tys.deep_view(), res@),
{
    let mut ty = res.clone();
    let mut i = arg_tys.len();
    assert(arg_tys.deep_view().subrange(i as int, arg_tys.len() as int).len() == 0);
    while i > 0
        invariant
            i <= arg_tys.len(),
            ty@ == crate::term::arrows(arg_tys.deep_view().subrange(i as int, arg_tys.len() as int), res@),
        decreases i,
    {
        i -= 1;
        let ghost all = arg_tys.deep_view().subrange(i as int, arg_tys.len() as int);
        assert(all.drop_first() =~= arg_tys.deep_view().subrange(i + 1, arg_tys.len() as int));
        ty = Type::Arrow(Box::new(arg_tys[i].clone()), Box::new(ty));
    }
    assert(arg_tys.deep_view().subrange(0, arg_tys.len() as int) =~= arg_tys.deep_view());
    ty
}

/// One fresh free variable per result type, named by the generator with
/// `prefix`, of type `arg_tys -> res_tys[i]`.
pub fn fresh_vars(gen: &mut FreshNameGen, prefix: &str, arg_tys: &Vec<Type>, res_tys: &Vec<Type>) -> (res: Vec<Term>)
    requires
        budget_ok(*old(gen), res_tys.len() as nat),
    ensures
        res.deep_view() == fresh_var_terms(
            gen_run(old(gen)@, prefix@, res_tys.len() as nat).0,
            arg_tys.deep_view(),
            res_tys.deep_view(),
        ),
        final(gen)@ == gen_run(old(gen)@, prefix@, res_tys.len() as nat).1,
        forall|k: nat| budget_ok(*old(gen), (res_tys.len() + k) as nat) ==> #[trigger] budget_ok(*final(gen), k),
{
    let ghost g0 = *gen;
    proof {
        lemma_gen_run_len(g0@, prefix@, res_tys.len() as nat);
        lemma_gen_run_prefix(g0@, prefix@, 0, res_tys.len() as nat);
    }
    let mut out: Vec<Term> = Vec::new();
    let mut i: usize = 0;
    while i < res_tys.len()
        invariant
            i <= res_tys.len(),
            budget_ok(g0, res_tys.len() as nat),
            g0 == *old(gen),
            gen@ == gen_run(g0@, prefix@, i as nat).1,
            out.deep_view() == fresh_var_terms(
                gen_run(g0@, prefix@, res_tys.len() as nat).0,
                arg_tys.deep_view(),
                res_tys.deep_view(),
            ).subrange(0, i as int),
            gen_run(g0@, prefix@, i as nat).0 == gen_run(g0@, prefix@, res_tys.len() as nat).0.subrange(0, i as int),
            forall|k: nat| budget_ok(g0, (i + k) as nat) ==> #[trigger] budget_ok(*gen, k),
        decreases res_tys.len() - i,
    {
        let ghost gi = *gen;
        assert(budget_ok(g0, (i + (res_tys.len() - i)) as nat));
        assert(budget_ok(*gen, (res_tys.len() - i) as nat));
        proof {
            lemma_budget_step_pre(gi, (res_tys.len() - i - 1) as nat);
        }
        let name = gen.fresh(prefix);
        proof {
            lemma_gen_run_prefix(g0@, prefix@, (i + 1) as nat, res_tys.len() as nat);
            lemma_gen_run_len(g0@, prefix@, i as nat);
            lemma_gen_run_len(g0@, prefix@, res_tys.len() as nat);
            assert(gen_run(g0@, prefix@, (i + 1) as nat).0 == gen_run(g0@, prefix@, i as nat).0.push(name@));
            assert(gen_run(g0@, prefix@, (i + 1) as nat).0[i as int] == name@);
            assert(gen_run(g0@, prefix@, res_tys.len() as nat).0.subrange(0, i + 1)[i as int] == gen_run(g0@, prefix@, res_tys.len() as nat).0[i as int]);
            assert(gen_run(g0@, prefix@, res_tys.len() as nat).0[i as int] == name@);
            assert forall|k: nat| budget_ok(g0, (i + 1 + k) as nat) implies #[trigger] budget_ok(*gen, k) by {
                assert(budget_ok(gi, k + 1));
                lemma_budget_step(gi, *gen, k);
            }
        }
        let ty = build_arrows(arg_tys, &res_tys[i]);
        let t = Term::Var(Variable { name, term_kind: TermKind::FVar, ty, var: Var::Basic });
        let ghost before = out.deep_view();
        out.push(t);
        assert(out.deep_view() =~= before.push(t@));
        assert(out.deep_view() =~= fresh_var_terms(
            gen_run(g0@, prefix@, res_tys.len() as nat).0,
            arg_tys.deep_view(),
            res_tys.deep_view(),
        ).subrange(0, i + 1));
        i += 1;
    }
    assert(out.deep_view() =~= fresh_var_terms(
        gen_run(g0@, prefix@, res_tys.len() as nat).0,
        arg_tys.deep_view(),
        res_tys.deep_view(),
    ));
    out
}

proof fn lemma_budget_step_pre(g: FreshNameGen, k: nat)
    requires
        budget_ok(g, k + 1),
    ensures
        g.counter + g.used.names.len() < u64::MAX,
{
    let n = g.used.names.len() as int;
    assert((k + 1) * (n + k + 1) >= n) by (nonlinear_arith)
        requires
            k >= 0,
            n >= 0,
    ;
}

/// The names of a longer run start with the names of a shorter one.
pub proof fn lemma_gen_run_prefix(g: crate::names::GenV, prefix: Seq<char>, i: nat, m: nat)
    requires
        i <= m,
    ensures
        gen_run(g, prefix, i).0 == gen_run(g, prefix, m).0.subrange(0, i as int),
        gen_run(g, prefix, i).0.len() == i,
    decreases m,
{
    lemma_gen_run_len(g, prefix, m);
    lemma_gen_run_len(g, prefix, i);
    if i < m {
        lemma_gen_run_prefix(g, prefix, i, (m - 1) as nat);
        lemma_gen_run_len(g, prefix, (m - 1) as nat);
        assert(gen_run(g, prefix, m).0.subrange(0, i as int) =~= gen_run(g, prefix, (m - 1) as nat).0.subrange(0, i as int));
    } else {
        assert(gen_run(g, prefix, m).0.subrange(0, i as int) =~= gen_run(g, prefix, m).0);
    }
}

/// A run of `m` steps makes `m` names.
pub proof fn lemma_gen_run_len(g: crate::names::GenV, prefix: Seq<char>, m: nat)
    ensures
        gen_run(g, prefix, m).0.len() == m,
    decreases m,
{
    if m > 0 {
        lemma_gen_run_len(g, prefix, (m - 1) as nat);
    }
}

/// A type is its argument types followed by its final result type.
pub proof fn lemma_split_rebuild(t: TypeV)
    ensures
        crate::term::arrows(crate::term::arrow_args(t), crate::term::arrow_result(t)) == t,
    decreases t,
{
    if let TypeV::Arrow(a, b) = t {
        lemma_split_rebuild(*b);
        assert((seq![*a] + crate::term::arrow_args(*b)).drop_first() =~= crate::term::arrow_args(*b));
    }
}

/// A generator over the names of one term.
pub fn init_fresh_gen1(t: &Term) -> (res: FreshNameGen)
    ensures
        res.counter == 1,
        res.used@ == term_names(t@),
        res.used.names.len() <= term_size(t@),
{
    let mut v: Vec<&Term> = Vec::new();
    v.push(t);
    let res = init_fresh_gen(v);
    proof {
        let d = v.deep_view();
        assert(d.drop_last() =~= Seq::<TermV>::empty());
        assert(d.last() == t@);
        assert(names_of_all(d.drop_last()) == Set::<Seq<char>>::empty());
        assert(size_of_all(d.drop_last()) == 0);
        assert(names_of_all(d) =~= term_names(t@));
    }
    res
}

/// Wrapping abstractions around a body that is not an abstraction, then
/// taking them off again, gives back the binders and the body.
pub proof fn law_wrap_then_collect(bs: Seq<VariableV>, body: TermV)
    requires
        !(body is Abs),
    ensures
        lambdas(wrap_abs(bs, body)) == bs,
        strip_lambdas(wrap_abs(bs, body)) == body,
    decreases bs.len(),
{
    if bs.len() > 0 {
        law_wrap_then_collect(bs.drop_first(), body);
        assert(seq![bs[0]] + bs.drop_first() =~= bs);
    }
}


/// A head can take `args` exactly when its type has at least as many
/// argument types.
pub proof fn lemma_applicable_arity(head: TermV, args: Seq<TermV>)
    ensures
        applicable(head, args) == (arrow_args(type_of(head)).len() >= args.len()),
    decreases args.len(),
{
    if args.len() > 0 {
        lemma_applicable_arity(apply1(head, args[0]), args.drop_first());
        match type_of(head) {
            TypeV::Arrow(a, b) => {
                assert(type_of(apply1(head, args[0])) == *b);
            },
            _ => {},
        }
    }
}

/// Whether `head` can be applied to `args`.
pub fn is_applicable(head: &Term, args: &Vec<Term>) -> (res: bool)
    ensures
        res == applicable(head@, args.deep_view()),
{
    proof {
        lemma_applicable_arity(head@, args.deep_view());
    }
    let (alphas, _) = head.get_type().split_arrow();
    alphas.len() >= args.len()
}

/// The size of a term, capped just above the largest size the rules allow.
pub open spec fn capped_size(t: TermV) -> nat {
    if term_size(t) > 0x8000_0001 {
        0x8000_0001
    } else {
        term_size(t)
    }
}

/// The size of `t`, capped as `capped_size` says.
pub fn size_capped(t: &Term) -> (res: u64)
    ensures
        res == capped_size(t@),
    decreases t,
{
    match t {
        Term::Var(_) => 1,
        Term::Abs { body, .. } => {
            let b = size_capped(body);
            if b >= 0x8000_0001 { 0x8000_0001 } else { 1 + b }
        },
        Term::App { func, arg, .. } => {
            let f = size_capped(func);
            let a = size_capped(arg);
            if f >= 0x8000_0001 || a >= 0x8000_0001 || 1 + f + a >= 0x8000_0001 {
                0x8000_0001
            } else {
                1 + f + a
            }
        },
    }
}

/// Whether `a` and `b` together leave room for `k` more fresh names.
pub fn check_fits_fresh(a: &Term, b: &Term, k: u64) -> (res: bool)
    requires
        k <= 0x1_0000_0000,
    ensures
        res == fits_fresh(a@, b@, k as nat),
{
    let sa = size_capped(a);
    let sb = size_capped(b);
    sa + sb + k <= 0x8000_0000
}

} // verus!
