//! The declared variables of a session: lookup by name, declaration with
//! its checks, and removal.
use crate::term::{TermKind, Type, Var, Variable, VariableV};
use vstd::prelude::*;

verus! {

/// The first declared variable of the given name.
pub open spec fn find_var(vars: Seq<VariableV>, name: Seq<char>) -> Option<VariableV>
    decreases vars.len(),
{
    if vars.len() == 0 {
        None
    } else if vars[0].name == name {
        Some(vars[0])
    } else {
        find_var(vars.drop_first(), name)
    }
}

/// The first declared variable named `name`, if any.
pub fn get_var(name: &String, all_var: &Vec<Variable>) -> (res: Option<Variable>)
    ensures
        match res {
            Some(v) => find_var(all_var.deep_view(), name@) == Some(v@),
            None => find_var(all_var.deep_view(), name@) is None,
        },
{
    let mut i: usize = 0;
    assert(all_var.deep_view().subrange(0, all_var.len() as int) =~= all_var.deep_view());
    while i < all_var.len()
        invariant
            i <= all_var.len(),
            find_var(all_var.deep_view(), name@) == find_var(all_var.deep_view().subrange(i as int, all_var.len() as int), name@),
        decreases all_var.len() - i,
    {
        let ghost rest = all_var.deep_view().subrange(i as int, all_var.len() as int);
        assert(rest[0] == all_var[i as int]@);
        assert(rest.drop_first() =~= all_var.deep_view().subrange(i + 1, all_var.len() as int));
        if all_var[i].name == *name {
            return Some(all_var[i].clone());
        }
        i += 1;
    }
    None
}

/// Whether a variable named `name` is declared.
pub fn has_variable(all_var: &Vec<Variable>, name: &String) -> (res: bool)
    ensures
        res == (find_var(all_var.deep_view(), name@) is Some),
{
    get_var(name, all_var).is_some()
}

/// The position of the first declared variable named `name`.
pub open spec fn var_position(vars: Seq<VariableV>, name: Seq<char>) -> Option<int>
    decreases vars.len(),
{
    if vars.len() == 0 {
        None
    } else if vars[0].name == name {
        Some(0)
    } else {
        match var_position(vars.drop_first(), name) {
            Some(k) => Some(k + 1),
            None => None,
        }
    }
}

/// Removes the first declared variable named `name` and returns it; the
/// others keep their order.
pub fn delete_variable(all_var: &mut Vec<Variable>, name: &String) -> (res: Option<Variable>)
    ensures
        match var_position(old(all_var).deep_view(), name@) {
            Some(k) => res matches Some(v) && v@ == old(all_var).deep_view()[k] && final(all_var).deep_view()
                == old(all_var).deep_view().remove(k),
            None => res is None && final(all_var).deep_view() == old(all_var).deep_view(),
        },
{
    let ghost vars = all_var.deep_view();
    let mut i: usize = 0;
    assert(vars.subrange(0, vars.len() as int) =~= vars);
    while i < all_var.len()
        invariant
            i <= all_var.len(),
            vars == all_var.deep_view(),
            vars == old(all_var).deep_view(),
            forall|j: int| 0 <= j < i ==> vars[j].name != name@,
            var_position(vars, name@) == match var_position(vars.subrange(i as int, vars.len() as int), name@) {
                Some(k) => Some(k + i),
                None => None::<int>,
            },
        decreases all_var.len() - i,
    {
        let ghost rest = vars.subrange(i as int, vars.len() as int);
        assert(rest[0] == all_var[i as int]@);
        assert(rest.drop_first() =~= vars.subrange(i + 1, vars.len() as int));
        if all_var[i].name == *name {
            assert(vars[i as int] == all_var[i as int]@);
            let removed = all_var.remove(i);
            assert(all_var.deep_view() =~= vars.remove(i as int));
            return Some(removed);
        }
        i += 1;
    }
    None
}

} // verus!
