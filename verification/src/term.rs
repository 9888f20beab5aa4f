//! Simple types, variables, lambda terms and constraints, with their
//! mathematical views.
use vstd::prelude::*;

verus! {

/// The role a free variable plays in the unification procedure.
#[derive(Debug, PartialEq, Eq, Hash, Clone, Copy, Structural)]
pub enum Var {
    Identification,
    Elimination,
    Basic,
}

/// What kind of symbol a variable is.
#[derive(Debug, PartialEq, Eq, Hash, Clone, Copy, Structural)]
pub enum TermKind {
    FVar,
    BVar,
    Const,
    IVar,
}

/// A simple type: a base type, a user-declared type, or a function type.
#[derive(Debug, PartialEq, Eq, Hash)]
pub enum Type {
    Real,
    Nat,
    Bool,
    Custom(String),
    Arrow(Box<Type>, Box<Type>),
}

/// The mathematical value of a [`Type`].
pub enum TypeV {
    Real,
    Nat,
    Bool,
    Custom(Seq<char>),
    Arrow(Box<TypeV>, Box<TypeV>),
}

pub open spec fn type_view(t: Type) -> TypeV
    decreases t,
{
    match t {
        Type::Real => TypeV::Real,
        Type::Nat => TypeV::Nat,
        Type::Bool => TypeV::Bool,
        Type::Custom(s) => TypeV::Custom(s@),
        Type::Arrow(a, b) => TypeV::Arrow(Box::new(type_view(*a)), Box::new(type_view(*b))),
    }
}

impl View for Type {
    type V = TypeV;

    open spec fn view(&self) -> TypeV {
        type_view(*self)
    }
}

impl DeepView for Type {
    type V = TypeV;

    open spec fn deep_view(&self) -> TypeV {
        type_view(*self)
    }
}

impl Clone for Type {
    fn clone(&self) -> (res: Self)
        ensures
            res@ == self@,
        decreases self,
    {
        match self {
            Type::Real => Type::Real,
            Type::Nat => Type::Nat,
            Type::Bool => Type::Bool,
            Type::Custom(s) => Type::Custom(s.clone()),
            Type::Arrow(a, b) => Type::Arrow(Box::new((**a).clone()), Box::new((**b).clone())),
        }
    }
}

impl Type {
    /// Structural equality of two types.
    pub fn equals(&self, other: &Type) -> (res: bool)
        ensures
            res <==> (self@ == other@),
        decreases self,
    {
        match self {
            Type::Real => matches!(other, Type::Real),
            Type::Nat => matches!(other, Type::Nat),
            Type::Bool => matches!(other, Type::Bool),
            Type::Custom(a) => match other {
                Type::Custom(b) => {
                    let r = *a == *b;
                    r
                },
                _ => false,
            },
            Type::Arrow(a1, b1) => match other {
                Type::Arrow(a2, b2) => {
                    let r1 = a1.equals(a2);
                    let r2 = b1.equals(b2);
                    r1 && r2
                },
                _ => false,
            },
        }
    }
}

/// A named variable or constant together with its kind, type and role.
#[derive(Debug, PartialEq, Eq, Hash)]
pub struct Variable {
    pub name: String,
    pub term_kind: TermKind,
    pub ty: Type,
    pub var: Var,
}

/// The mathematical value of a [`Variable`].
pub struct VariableV {
    pub name: Seq<char>,
    pub term_kind: TermKind,
    pub ty: TypeV,
    pub var: Var,
}

impl View for Variable {
    type V = VariableV;

    open spec fn view(&self) -> VariableV {
        VariableV { name: self.name@, term_kind: self.term_kind, ty: self.ty@, var: self.var }
    }
}

impl DeepView for Variable {
    type V = VariableV;

    open spec fn deep_view(&self) -> VariableV {
        self@
    }
}

impl Clone for Variable {
    fn clone(&self) -> (res: Self)
        ensures
            res@ == self@,
    {
        Variable {
            name: self.name.clone(),
            term_kind: self.term_kind,
            ty: self.ty.clone(),
            var: self.var,
        }
    }
}

impl Variable {
    /// Equality of name, kind, type and role.
    pub fn equals(&self, other: &Variable) -> (res: bool)
        ensures
            res <==> (self@ == other@),
    {
        self.name == other.name && self.term_kind == other.term_kind && self.ty.equals(&other.ty)
            && self.var == other.var
    }
}

/// A simply typed lambda term. Applications carry the type of their result.
#[derive(Debug, PartialEq, Eq, Hash)]
pub enum Term {
    Var(Variable),
    Abs { param: Variable, body: Box<Term> },
    App { func: Box<Term>, arg: Box<Term>, result_ty: Type },
}

/// The mathematical value of a [`Term`].
pub enum TermV {
    Var(VariableV),
    Abs { param: VariableV, body: Box<TermV> },
    App { func: Box<TermV>, arg: Box<TermV>, result_ty: TypeV },
}

pub open spec fn term_view(t: Term) -> TermV
    decreases t,
{
    match t {
        Term::Var(v) => TermV::Var(v@),
        Term::Abs { param, body } => TermV::Abs { param: param@, body: Box::new(term_view(*body)) },
        Term::App { func, arg, result_ty } => TermV::App {
            func: Box::new(term_view(*func)),
            arg: Box::new(term_view(*arg)),
            result_ty: result_ty@,
        },
    }
}

impl View for Term {
    type V = TermV;

    open spec fn view(&self) -> TermV {
        term_view(*self)
    }
}

impl DeepView for Term {
    type V = TermV;

    open spec fn deep_view(&self) -> TermV {
        term_view(*self)
    }
}

impl Clone for Term {
    fn clone(&self) -> (res: Self)
        ensures
            res@ == self@,
        decreases self,
    {
        match self {
            Term::Var(v) => Term::Var(v.clone()),
            Term::Abs { param, body } => Term::Abs {
                param: param.clone(),
                body: Box::new((**body).clone()),
            },
            Term::App { func, arg, result_ty } => Term::App {
                func: Box::new((**func).clone()),
                arg: Box::new((**arg).clone()),
                result_ty: result_ty.clone(),
            },
        }
    }
}

/// A unification problem `lhs ?= rhs`.
#[derive(Debug, PartialEq, Eq, Hash)]
pub struct Constraint(pub Term, pub Term);

/// The mathematical value of a [`Constraint`].
pub struct ConstraintV(pub TermV, pub TermV);

impl View for Constraint {
    type V = ConstraintV;

    open spec fn view(&self) -> ConstraintV {
        ConstraintV(self.0@, self.1@)
    }
}

impl DeepView for Constraint {
    type V = ConstraintV;

    open spec fn deep_view(&self) -> ConstraintV {
        self@
    }
}

impl Clone for Constraint {
    fn clone(&self) -> (res: Self)
        ensures
            res@ == self@,
    {
        Constraint(self.0.clone(), self.1.clone())
    }
}

/// The type of a term: a variable has its declared type, an application its
/// recorded result type, and `λx.b` the type `ty(x) -> type_of(b)`.
pub open spec fn type_of(t: TermV) -> TypeV
    decreases t,
{
    match t {
        TermV::Var(v) => v.ty,
        TermV::App { result_ty, .. } => result_ty,
        TermV::Abs { param, body } => TypeV::Arrow(Box::new(param.ty), Box::new(type_of(*body))),
    }
}

/// Every application in the term applies a function to an argument of its
/// argument type, and is typed by its result type.
pub open spec fn well_typed(t: TermV) -> bool
    decreases t,
{
    match t {
        TermV::Var(_) => true,
        TermV::Abs { body, .. } => well_typed(*body),
        TermV::App { func, arg, result_ty } => well_typed(*func) && well_typed(*arg) && type_of(*func)
            == TypeV::Arrow(Box::new(type_of(*arg)), Box::new(result_ty)),
    }
}

/// The kind of the head symbol: an abstraction counts as bound.
pub open spec fn head_kind(t: TermV) -> TermKind
    decreases t,
{
    match t {
        TermV::Var(v) => v.term_kind,
        TermV::Abs { .. } => TermKind::BVar,
        TermV::App { func, .. } => head_kind(*func),
    }
}

/// The argument types of an arrow type, from left to right.
pub open spec fn arrow_args(t: TypeV) -> Seq<TypeV>
    decreases t,
{
    match t {
        TypeV::Arrow(a, b) => seq![*a] + arrow_args(*b),
        _ => Seq::empty(),
    }
}

/// The final result type of an arrow type.
pub open spec fn arrow_result(t: TypeV) -> TypeV
    decreases t,
{
    match t {
        TypeV::Arrow(_, b) => arrow_result(*b),
        _ => t,
    }
}

/// The arrow type `args[0] -> ... -> args[n-1] -> result`.
pub open spec fn arrows(args: Seq<TypeV>, result: TypeV) -> TypeV
    decreases args.len(),
{
    if args.len() == 0 {
        result
    } else {
        TypeV::Arrow(Box::new(args[0]), Box::new(arrows(args.drop_first(), result)))
    }
}

impl Term {
    /// The variable of a term that is a single variable.
    pub fn get_var(&self) -> (res: Option<&Variable>)
        ensures
            match self@ {
                TermV::Var(v) => res is Some && res.unwrap()@ == v,
                _ => res is None,
            },
    {
        match self {
            Term::Var(v) => Some(v),
            _ => None,
        }
    }

    /// Name and type of a term that is a single free variable.
    pub fn get_fvar(&self) -> (res: Option<(&String, &Type)>)
        ensures
            match self@ {
                TermV::Var(v) => if v.term_kind == TermKind::FVar {
                    res is Some && res.unwrap().0@ == v.name && res.unwrap().1@ == v.ty
                } else {
                    res is None
                },
                _ => res is None,
            },
    {
        if let Term::Var(v) = self {
            if v.term_kind == TermKind::FVar {
                return Some((&v.name, &v.ty));
            }
        }
        None
    }

    /// The type of this term.
    pub fn get_type(&self) -> (res: Type)
        ensures
            res@ == type_of(self@),
        decreases self,
    {
        match self {
            Term::Var(var) => var.ty.clone(),
            Term::App { result_ty, .. } => result_ty.clone(),
            Term::Abs { param, body } => {
                let ret = body.get_type();
                Type::Arrow(Box::new(param.ty.clone()), Box::new(ret))
            },
        }
    }

    /// The kind of this term's head symbol.
    pub fn get_termkind(&self) -> (res: TermKind)
        ensures
            res == head_kind(self@),
        decreases self,
    {
        match self {
            Term::Var(var) => var.term_kind,
            Term::Abs { .. } => TermKind::BVar,
            Term::App { func, .. } => func.get_termkind(),
        }
    }

    /// Structural equality of two terms.
    pub fn equals(&self, other: &Term) -> (res: bool)
        ensures
            res <==> (self@ == other@),
        decreases self,
    {
        match self {
            Term::Var(v1) => match other {
                Term::Var(v2) => v1.equals(v2),
                _ => false,
            },
            Term::Abs { param: p1, body: b1 } => match other {
                Term::Abs { param: p2, body: b2 } => {
                    let e1 = p1.equals(p2);
                    let e2 = b1.equals(b2);
                    e1 && e2
                },
                _ => false,
            },
            Term::App { func: f1, arg: a1, result_ty: r1 } => match other {
                Term::App { func: f2, arg: a2, result_ty: r2 } => {
                    let e1 = f1.equals(f2);
                    let e2 = a1.equals(a2);
                    let e3 = r1.equals(r2);
                    e1 && e2 && e3
                },
                _ => false,
            },
        }
    }
}

impl Type {
    /// Whether this is a function type.
    pub fn is_arrow(&self) -> (res: bool)
        ensures
            res <==> self@ is Arrow,
    {
        matches!(self, Type::Arrow(..))
    }

    /// Splits `a1 -> ... -> an -> b` into `([a1, ..., an], b)`.
    pub fn split_arrow(&self) -> (res: (Vec<Type>, Type))
        ensures
            res.0.deep_view() == arrow_args(self@),
            res.1@ == arrow_result(self@),
    {
        let mut tys_in: Vec<Type> = Vec::new();
        let mut rest = self.clone();
        while rest.is_arrow()
            invariant
                tys_in.deep_view() + arrow_args(rest@) == arrow_args(self@),
                arrow_result(rest@) == arrow_result(self@),
            decreases rest,
        {
            match rest {
                Type::Arrow(ty_in, ty_out) => {
                    let ghost old_args = tys_in.deep_view();
                    tys_in.push(*ty_in);
                    assert(tys_in.deep_view() =~= old_args.push(ty_in@));
                    rest = *ty_out;
                },
                other => {
                    rest = other;
                },
            }
        }
        assert(tys_in.deep_view() =~= tys_in.deep_view() + arrow_args(rest@));
        (tys_in, rest)
    }
}

/// Two variable lists, element by element equal.
pub fn variables_equal(a: &Vec<Variable>, b: &Vec<Variable>) -> (res: bool)
    ensures
        res <==> (a.deep_view() == b.deep_view()),
{
    if a.len() != b.len() {
        assert(a.deep_view().len() != b.deep_view().len());
        return false;
    }
    let mut i: usize = 0;
    while i < a.len()
        invariant
            a.len() == b.len(),
            i <= a.len(),
            forall|j: int| 0 <= j < i ==> a.deep_view()[j] == b.deep_view()[j],
        decreases a.len() - i,
    {
        if !a[i].equals(&b[i]) {
            assert(a.deep_view()[i as int] != b.deep_view()[i as int]);
            return false;
        }
        i += 1;
    }
    assert(a.deep_view() =~= b.deep_view());
    true
}

/// Two lists of variable references, element by element equal.
pub fn variable_refs_equal(a: &Vec<&Variable>, b: &Vec<&Variable>) -> (res: bool)
    ensures
        res <==> (a.deep_view() == b.deep_view()),
{
    if a.len() != b.len() {
        assert(a.deep_view().len() != b.deep_view().len());
        return false;
    }
    let mut i: usize = 0;
    while i < a.len()
        invariant
            a.len() == b.len(),
            i <= a.len(),
            forall|j: int| 0 <= j < i ==> a.deep_view()[j] == b.deep_view()[j],
        decreases a.len() - i,
    {
        if !a[i].equals(b[i]) {
            assert(a.deep_view()[i as int] != b.deep_view()[i as int]);
            return false;
        }
        i += 1;
    }
    assert(a.deep_view() =~= b.deep_view());
    true
}

} // verus!
