//! The report of the solutions: each distinct solution with the steps that
//! led to it, the open constraints and the substitution at each step, and
//! the variables that appear for the first time.
use crate::display::{constraint_text, kind_name, role_name, sort_names, sorted_names, step_name, subst_text, type_text};
use crate::names::{decimal, usize_to_string, NameSet};
use crate::term::{Term, TermV, Variable, VariableV};
use crate::text::{chars_of, string_of, trim_end, trim_end_str};
use crate::tree::{State, StateV, subst_map};
use vstd::prelude::*;
use vstd::slice::slice_subrange;
use vstd::string::*;

verus! {

/// A line of the report, and whether it is also shown on the console (all
/// lines go to the file).
pub struct ReportLine {
    pub text: String,
    pub console: bool,
}

impl View for ReportLine {
    type V = (Seq<char>, bool);

    open spec fn view(&self) -> (Seq<char>, bool) {
        (self.text@, self.console)
    }
}

impl DeepView for ReportLine {
    type V = (Seq<char>, bool);

    open spec fn deep_view(&self) -> (Seq<char>, bool) {
        self@
    }
}

/// The states from the start of the search down to `s`.
pub open spec fn chain(s: StateV) -> Seq<StateV>
    decreases s,
{
    match s.parent {
        Some(p) => chain(*p).push(s),
        None => seq![s],
    }
}

/// The position of the entry for `name`.
pub open spec fn entry_index(acc: Seq<(Seq<char>, VariableV)>, name: Seq<char>, i: int) -> Option<int>
    decreases acc.len() - i,
{
    if i < 0 || i >= acc.len() {
        None
    } else if acc[i].0 == name {
        Some(i)
    } else {
        entry_index(acc, name, i + 1)
    }
}

/// `acc` with `v` recorded under its name: in place of an entry of the same
/// name, else at the end.
pub open spec fn upsert(acc: Seq<(Seq<char>, VariableV)>, v: VariableV) -> Seq<(Seq<char>, VariableV)> {
    match entry_index(acc, v.name, 0) {
        Some(k) => acc.update(k, (v.name, v)),
        None => acc.push((v.name, v)),
    }
}

/// The variables of `t` recorded into `acc`, left to right, binders before
/// their bodies.
pub open spec fn term_vars(t: TermV, acc: Seq<(Seq<char>, VariableV)>) -> Seq<(Seq<char>, VariableV)>
    decreases t,
{
    match t {
        TermV::Var(v) => upsert(acc, v),
        TermV::Abs { param, body } => term_vars(*body, upsert(acc, param)),
        TermV::App { func, arg, .. } => term_vars(*arg, term_vars(*func, acc)),
    }
}

/// The variables of the constraints `cs[i..]`, both sides of each.
pub open spec fn constraint_vars(cs: Seq<crate::term::ConstraintV>, i: int, acc: Seq<(Seq<char>, VariableV)>) -> Seq<(Seq<char>, VariableV)>
    decreases cs.len() - i,
{
    if i < 0 || i >= cs.len() {
        acc
    } else {
        constraint_vars(cs, i + 1, term_vars(cs[i].1, term_vars(cs[i].0, acc)))
    }
}

/// The variables of the bound terms of `m`, by the names in `names[i..]`.
pub open spec fn binding_vars(names: Seq<Seq<char>>, m: Map<Seq<char>, TermV>, i: int, acc: Seq<(Seq<char>, VariableV)>) -> Seq<(Seq<char>, VariableV)>
    decreases names.len() - i,
{
    if i < 0 || i >= names.len() {
        acc
    } else {
        binding_vars(names, m, i + 1, term_vars(m[names[i]], acc))
    }
}

/// The variables of a state: those of its constraints, then those of its
/// bound terms in the order of their names.
pub open spec fn state_vars(s: StateV) -> Seq<(Seq<char>, VariableV)> {
    binding_vars(
        sort_names(s.subst.map_values(|p: (Seq<char>, TermV)| p.0)),
        subst_map(s.subst),
        0,
        constraint_vars(s.constraints, 0, Seq::empty()),
    )
}

/// The line that announces a variable.
pub open spec fn new_var_line(v: VariableV) -> Seq<char> {
    "  Neue Variable: "@ + v.name + " ("@ + kind_name(v.term_kind) + ", "@ + type_text(v.ty) + ",  ("@ + role_name(v.var)
        + "))"@
}

/// The announcements of the variables of `vars[i..]` not seen before (the
/// binder names `x` and `y` left out), and the names seen after them.
pub open spec fn new_var_lines(vars: Seq<(Seq<char>, VariableV)>, i: int, seen: Set<Seq<char>>) -> (Seq<(Seq<char>, bool)>, Set<Seq<char>>)
    decreases vars.len() - i,
{
    if i < 0 || i >= vars.len() {
        (Seq::empty(), seen)
    } else {
        let name = vars[i].0;
        if !seen.contains(name) && name != "x"@ && name != "y"@ {
            let rest = new_var_lines(vars, i + 1, seen.insert(name));
            (seq![(new_var_line(vars[i].1), true)] + rest.0, rest.1)
        } else {
            new_var_lines(vars, i + 1, seen)
        }
    }
}

/// The lines of `s` from `start`, the current one starting at `start`: split
/// after each line feed, which is dropped with a carriage return before it;
/// no empty line after a final line feed.
pub open spec fn lines_from(s: Seq<char>, start: int, i: int) -> Seq<Seq<char>>
    decreases s.len() - i,
{
    if i < 0 || i >= s.len() {
        if 0 <= start < s.len() {
            seq![s.subrange(start, s.len() as int)]
        } else {
            Seq::empty()
        }
    } else if s[i] == '\n' {
        let line = s.subrange(start, i);
        seq![
            if line.len() > 0 && line.last() == '\r' {
                line.drop_last()
            } else {
                line
            },
        ] + lines_from(s, i + 1, i + 1)
    } else {
        lines_from(s, start, i + 1)
    }
}

/// The lines of a text, as `str::lines` splits it.
pub open spec fn text_lines(s: Seq<char>) -> Seq<Seq<char>> {
    lines_from(s, 0, 0)
}

/// The console-and-file lines `prefix + l` for each line `l`.
pub open spec fn prefixed(prefix: Seq<char>, ls: Seq<Seq<char>>) -> Seq<(Seq<char>, bool)> {
    Seq::new(ls.len(), |i: int| (prefix + ls[i], true))
}

/// The block of step `k` of a chain: its number and rule, its open
/// constraints (or that all are solved), its substitution, the variables
/// that appear for the first time, and a blank line in the file only.
pub open spec fn step_block(k: nat, s: StateV, seen: Set<Seq<char>>) -> (Seq<(Seq<char>, bool)>, Set<Seq<char>>) {
    let header = seq![("Schritt "@ + decimal(k) + " ("@ + step_name(s.step) + "):"@, true)];
    let cs = if s.constraints.len() == 0 {
        seq![("  Alle Constraints gelöst"@, true)]
    } else {
        Seq::new(s.constraints.len(), |i: int| ("  • "@ + constraint_text(s.constraints[i]), true))
    };
    let sub = prefixed("    "@, text_lines(subst_text(s.subst)));
    let nv = new_var_lines(state_vars(s), 0, seen);
    (header + cs + sub + nv.0 + seq![(Seq::<char>::empty(), false)], nv.1)
}

/// The blocks of the steps `states[k..]`.
pub open spec fn chain_blocks(states: Seq<StateV>, k: int, seen: Set<Seq<char>>) -> (Seq<(Seq<char>, bool)>, Set<Seq<char>>)
    decreases states.len() - k,
{
    if k < 0 || k >= states.len() {
        (Seq::empty(), seen)
    } else {
        let b = step_block(k as nat, states[k], seen);
        let rest = chain_blocks(states, k + 1, b.1);
        (b.0 + rest.0, rest.1)
    }
}

/// The solved states of `sols[i..]` whose substitution (as text, without
/// trailing whitespace) has not been met before, in order.
pub open spec fn distinct_solutions(sols: Seq<StateV>, i: int, seen: Set<Seq<char>>) -> Seq<StateV>
    decreases sols.len() - i,
{
    if i < 0 || i >= sols.len() {
        Seq::empty()
    } else {
        let s = sols[i];
        let repr = trim_end(subst_text(s.subst));
        if s.constraints.len() == 0 && !s.failed && !seen.contains(repr) {
            seq![s] + distinct_solutions(sols, i + 1, seen.insert(repr))
        } else {
            distinct_solutions(sols, i + 1, seen)
        }
    }
}

/// The blocks of the solutions `uniq[i..]`, numbered from 1: the solution
/// with its substitution, then the steps that led to it.
pub open spec fn solution_blocks(uniq: Seq<StateV>, i: int, seen: Set<Seq<char>>) -> Seq<(Seq<char>, bool)>
    decreases uniq.len() - i,
{
    if i < 0 || i >= uniq.len() {
        Seq::empty()
    } else {
        let head = seq![("Lösung #"@ + decimal((i + 1) as nat) + ":\n"@ + subst_text(uniq[i].subst), true)];
        let steps = chain_blocks(chain(uniq[i]), 0, seen);
        head + steps.0 + solution_blocks(uniq, i + 1, steps.1)
    }
}

/// The report of the solutions found, or that there is none.
pub open spec fn report(sols: Seq<StateV>) -> Seq<(Seq<char>, bool)> {
    let uniq = distinct_solutions(sols, 0, Set::empty());
    if uniq.len() == 0 {
        seq![("Es konnten keine Lösungen gefunden werden"@, true)]
    } else {
        solution_blocks(uniq, 0, Set::empty())
    }
}

/// The states from the start of the search down to `st`.
fn chain_of(st: &State) -> (res: Vec<State>)
    ensures
        res.deep_view() == chain(st@),
    decreases chain(st@).len(),
{
    match &st.parent {
        Some(p) => {
            assert(st@.parent == Some(Box::new((**p)@)));
            let mut v = chain_of(&**p);
            let ghost before = v.deep_view();
            v.push(st.clone());
            assert(v.deep_view() =~= before.push(st@));
            v
        },
        None => {
            let mut v: Vec<State> = Vec::new();
            v.push(st.clone());
            assert(v.deep_view() =~= seq![st@]);
            v
        },
    }
}

/// Records `v` under its name.
fn upsert_var(acc: &mut Vec<(String, Variable)>, v: &Variable)
    ensures
        final(acc).deep_view() == upsert(old(acc).deep_view(), v@),
{
    let ghost a0 = acc.deep_view();
    let mut i: usize = 0;
    while i < acc.len()
        invariant
            i <= acc.len(),
            a0 == acc.deep_view(),
            a0 == old(acc).deep_view(),
            entry_index(a0, v@.name, 0) == entry_index(a0, v@.name, i as int),
        decreases acc.len() - i,
    {
        assert(a0[i as int] == (acc[i as int].0@, acc[i as int].1@));
        if acc[i].0 == v.name {
            acc.set(i, (v.name.clone(), v.clone()));
            assert(acc.deep_view() =~= a0.update(i as int, (v@.name, v@)));
            return;
        }
        i += 1;
    }
    acc.push((v.name.clone(), v.clone()));
    assert(acc.deep_view() =~= a0.push((v@.name, v@)));
}

/// Records the variables of `t`.
fn collect_variables(t: &Term, acc: &mut Vec<(String, Variable)>)
    ensures
        final(acc).deep_view() == term_vars(t@, old(acc).deep_view()),
    decreases t,
{
    match t {
        Term::Var(v) => upsert_var(acc, v),
        Term::Abs { param, body } => {
            upsert_var(acc, param);
            collect_variables(body, acc);
        },
        Term::App { func, arg, .. } => {
            collect_variables(func, acc);
            collect_variables(arg, acc);
        },
    }
}

/// The variables of a state.
fn variables_of(st: &State) -> (res: Vec<(String, Variable)>)
    ensures
        res.deep_view() == state_vars(st@),
{
    let mut acc: Vec<(String, Variable)> = Vec::new();
    let ghost cs = st@.constraints;
    assert(acc.deep_view() =~= Seq::<(Seq<char>, VariableV)>::empty());
    let mut i: usize = 0;
    while i < st.constraints.len()
        invariant
            i <= st.constraints.len(),
            cs == st@.constraints,
            constraint_vars(cs, 0, Seq::empty()) == constraint_vars(cs, i as int, acc.deep_view()),
        decreases st.constraints.len() - i,
    {
        assert(cs[i as int] == st.constraints[i as int]@);
        collect_variables(&st.constraints[i].0, &mut acc);
        collect_variables(&st.constraints[i].1, &mut acc);
        i += 1;
    }
    let all = st.subst.bound_names();
    let names = sorted_names(&all);
    let map = st.subst.to_hashmap();
    let ghost ns = names.deep_view();
    let ghost m = subst_map(st@.subst);
    proof {
        crate::display::lemma_sort_names_members(all.deep_view());
        crate::display::lemma_subst_map_keys(st@.subst);
    }
    let mut k: usize = 0;
    while k < names.len()
        invariant
            k <= names.len(),
            ns == names.deep_view(),
            ns == sort_names(st@.subst.map_values(|p: (Seq<char>, TermV)| p.0)),
            all.deep_view() == st@.subst.map_values(|p: (Seq<char>, TermV)| p.0),
            m == map@,
            m == subst_map(st@.subst),
            forall|j: int| 0 <= j < ns.len() ==> all.deep_view().contains(#[trigger] ns[j]),
            forall|i: int| 0 <= i < st@.subst.len() ==> m.contains_key(#[trigger] st@.subst[i].0),
            state_vars(st@) == binding_vars(ns, m, k as int, acc.deep_view()),
        decreases names.len() - k,
    {
        assert(ns[k as int] == names[k as int]@);
        assert(all.deep_view().contains(ns[k as int]));
        let ghost q = choose|q: int| 0 <= q < all.deep_view().len() && all.deep_view()[q] == ns[k as int];
        assert(st@.subst[q].0 == ns[k as int]);
        match map.get(&names[k]) {
            Some(t) => collect_variables(t, &mut acc),
            None => {},
        }
        k += 1;
    }
    acc
}

/// Announces the variables of `vars` not seen before.
fn announce(vars: &Vec<(String, Variable)>, seen: &mut NameSet, out: &mut Vec<ReportLine>)
    ensures
        final(out).deep_view() == old(out).deep_view() + new_var_lines(vars.deep_view(), 0, old(seen)@).0,
        final(seen)@ == new_var_lines(vars.deep_view(), 0, old(seen)@).1,
{
    let ghost vs = vars.deep_view();
    let ghost o0 = out.deep_view();
    let mut i: usize = 0;
    proof {
        reveal_strlit("x");
        reveal_strlit("y");
    }
    assert(o0 + Seq::<(Seq<char>, bool)>::empty() =~= o0);
    while i < vars.len()
        invariant
            i <= vars.len(),
            vs == vars.deep_view(),
            o0 == old(out).deep_view(),
            new_var_lines(vs, 0, old(seen)@).1 == new_var_lines(vs, i as int, seen@).1,
            o0 + new_var_lines(vs, 0, old(seen)@).0 == out.deep_view() + new_var_lines(vs, i as int, seen@).0,
        decreases vars.len() - i,
    {
        let (name, var) = &vars[i];
        assert(vs[i as int] == (name@, var@));
        let is_x = crate::text::same_chars(name.as_str(), "x");
        let is_y = crate::text::same_chars(name.as_str(), "y");
        if !seen.contains(name) && !is_x && !is_y {
            let mut line = String::from_str("  Neue Variable: ");
            line.append(var.name.as_str());
            line.append(" (");
            let k = var.term_kind.name();
            line.append(k.as_str());
            line.append(", ");
            let t = var.ty.to_string();
            line.append(t.as_str());
            line.append(",  (");
            let r = var.var.name();
            line.append(r.as_str());
            line.append("))");
            let ghost before = out.deep_view();
            let ghost rest = new_var_lines(vs, i + 1, seen@.insert(name@));
            out.push(ReportLine { text: line, console: true });
            seen.insert(name.clone());
            assert(before + (seq![(new_var_line(var@), true)] + rest.0) =~= out.deep_view() + rest.0);
        }
        i += 1;
    }
}

/// The lines of `text`, as `str::lines` splits them.
fn lines_of(text: &String) -> (res: Vec<String>)
    ensures
        res.deep_view() == text_lines(text@),
{
    let cs = chars_of(text.as_str());
    let ghost s = text@;
    let mut out: Vec<String> = Vec::new();
    let mut start: usize = 0;
    let mut i: usize = 0;
    assert(out.deep_view() + lines_from(s, 0, 0) =~= text_lines(s));
    while i < cs.len()
        invariant
            start <= i <= cs.len(),
            cs@ == s,
            out.deep_view() + lines_from(s, start as int, i as int) == text_lines(s),
        decreases cs.len() - i,
    {
        if cs[i] == '\n' {
            let mut end = i;
            if end > start && cs[end - 1] == '\r' {
                end = end - 1;
            }
            let line = string_of(slice_subrange(cs.as_slice(), start, end));
            let ghost l = s.subrange(start as int, i as int);
            assert(line@ == (if l.len() > 0 && l.last() == '\r' {
                l.drop_last()
            } else {
                l
            })) by {
                if l.len() > 0 && l.last() == '\r' {
                    assert(l.drop_last() =~= s.subrange(start as int, end as int));
                } else {
                    assert(l =~= s.subrange(start as int, end as int));
                }
            }
            let ghost before = out.deep_view();
            out.push(line);
            assert(out.deep_view() =~= before.push(line@));
            assert(before + (seq![line@] + lines_from(s, i + 1, i + 1)) =~= out.deep_view() + lines_from(s, i + 1, i + 1));
            start = i + 1;
        }
        i += 1;
    }
    if start < cs.len() {
        let line = string_of(slice_subrange(cs.as_slice(), start, cs.len()));
        let ghost before = out.deep_view();
        out.push(line);
        assert(out.deep_view() =~= before + seq![s.subrange(start as int, s.len() as int)]);
    } else {
        assert(out.deep_view() + Seq::<Seq<char>>::empty() =~= out.deep_view());
    }
    out
}

/// Appends the block of step `k`.
fn push_step_block(k: usize, st: &State, seen: &mut NameSet, out: &mut Vec<ReportLine>)
    ensures
        final(out).deep_view() == old(out).deep_view() + step_block(k as nat, st@, old(seen)@).0,
        final(seen)@ == step_block(k as nat, st@, old(seen)@).1,
{
    let ghost o0 = out.deep_view();
    let mut header = String::from_str("Schritt ");
    let num = usize_to_string(k);
    header.append(num.as_str());
    header.append(" (");
    let nm = st.step.name();
    header.append(nm.as_str());
    header.append("):");
    let ghost hv = header@;
    out.push(ReportLine { text: header, console: true });
    let ghost o1 = out.deep_view();
    let ghost blk = step_block(k as nat, st@, old(seen)@);
    let ghost hdr = seq![("Schritt "@ + decimal(k as nat) + " ("@ + step_name(st@.step) + "):"@, true)];
    assert(o1 =~= o0 + hdr);
    if st.constraints.len() == 0 {
        out.push(ReportLine { text: String::from_str("  Alle Constraints gelöst"), console: true });
    } else {
        let mut i: usize = 0;
        while i < st.constraints.len()
            invariant
                i <= st.constraints.len(),
                out.deep_view() == o1 + Seq::new(i as nat, |j: int| ("  • "@ + constraint_text(st@.constraints[j]), true)),
            decreases st.constraints.len() - i,
        {
            let ghost before = out.deep_view();
            let mut line = String::from_str("  • ");
            let c = st.constraints[i].to_string();
            line.append(c.as_str());
            assert(st@.constraints[i as int] == st.constraints[i as int]@);
            let ghost lv = line@;
            assert(lv == "  • "@ + constraint_text(st@.constraints[i as int]));
            out.push(ReportLine { text: line, console: true });
            assert(out.deep_view() =~= before.push((lv, true)));
            assert(out.deep_view() =~= o1 + Seq::new((i + 1) as nat, |j: int| ("  • "@ + constraint_text(st@.constraints[j]), true)));
            i += 1;
        }
    }
    let ghost o2 = out.deep_view();
    let ghost csl = if st@.constraints.len() == 0 {
        seq![("  Alle Constraints gelöst"@, true)]
    } else {
        Seq::new(st@.constraints.len(), |i: int| ("  • "@ + constraint_text(st@.constraints[i]), true))
    };
    assert(o2 =~= o1 + csl);
    let text = st.subst.to_string();
    let lines = lines_of(&text);
    let mut j: usize = 0;
    while j < lines.len()
        invariant
            j <= lines.len(),
            out.deep_view() == o2 + prefixed("    "@, lines.deep_view().subrange(0, j as int)),
        decreases lines.len() - j,
    {
        let ghost before = out.deep_view();
        let mut line = String::from_str("    ");
        line.append(lines[j].as_str());
        assert(lines.deep_view()[j as int] == lines[j as int]@);
        let ghost lv = line@;
        out.push(ReportLine { text: line, console: true });
        assert(out.deep_view() =~= before.push((lv, true)));
        assert(out.deep_view() =~= o2 + prefixed("    "@, lines.deep_view().subrange(0, j + 1)));
        j += 1;
    }
    assert(lines.deep_view().subrange(0, j as int) =~= lines.deep_view());
    let ghost o3 = out.deep_view();
    assert(o3 =~= o2 + prefixed("    "@, text_lines(subst_text(st@.subst))));
    let vars = variables_of(st);
    announce(&vars, seen, out);
    let ghost o4 = out.deep_view();
    out.push(ReportLine { text: String::new(), console: false });
    assert(out.deep_view() =~= o4.push((Seq::<char>::empty(), false)));
    assert(out.deep_view() =~= o0 + step_block(k as nat, st@, old(seen)@).0);
}

/// The report of the solutions found: each distinct solution, numbered from
/// 1, with the steps that led to it; or that there is none.
pub fn solution_report(sols: &Vec<State>) -> (res: Vec<ReportLine>)
    ensures
        res.deep_view() == report(sols.deep_view()),
{
    let ghost sv = sols.deep_view();
    let mut uniq: Vec<State> = Vec::new();
    let mut reprs = NameSet::new();
    let mut i: usize = 0;
    assert(uniq.deep_view() + distinct_solutions(sv, 0, Set::empty()) =~= distinct_solutions(sv, 0, Set::empty()));
    while i < sols.len()
        invariant
            i <= sols.len(),
            sv == sols.deep_view(),
            uniq.deep_view() + distinct_solutions(sv, i as int, reprs@) == distinct_solutions(sv, 0, Set::empty()),
        decreases sols.len() - i,
    {
        let st = &sols[i];
        assert(sv[i as int] == st@);
        let text = st.subst.to_string();
        let repr = trim_end_str(text.as_str());
        if st.constraints.len() == 0 && !st.failed && !reprs.contains(&repr) {
            let ghost before = uniq.deep_view();
            uniq.push(st.clone());
            reprs.insert(repr);
            assert(uniq.deep_view() =~= before.push(st@));
            assert(before + (seq![st@] + distinct_solutions(sv, i + 1, reprs@)) =~= uniq.deep_view() + distinct_solutions(
                sv,
                i + 1,
                reprs@,
            ));
        }
        i += 1;
    }
    assert(uniq.deep_view() + Seq::<StateV>::empty() =~= uniq.deep_view());
    let ghost u = uniq.deep_view();
    let mut out: Vec<ReportLine> = Vec::new();
    if uniq.len() == 0 {
        out.push(ReportLine { text: String::from_str("Es konnten keine Lösungen gefunden werden"), console: true });
        assert(out.deep_view() =~= report(sv));
        return out;
    }
    let mut seen = NameSet::new();
    let mut n: usize = 0;
    assert(out.deep_view() + solution_blocks(u, 0, seen@) =~= solution_blocks(u, 0, Set::empty()));
    while n < uniq.len()
        invariant
            n <= uniq.len(),
            u == uniq.deep_view(),
            out.deep_view() + solution_blocks(u, n as int, seen@) == solution_blocks(u, 0, Set::empty()),
        decreases uniq.len() - n,
    {
        let sol = &uniq[n];
        assert(u[n as int] == sol@);
        let ghost o0 = out.deep_view();
        let ghost s0 = seen@;
        let mut head = String::from_str("Lösung #");
        let num = usize_to_string(n + 1);
        head.append(num.as_str());
        head.append(":\n");
        let t = sol.subst.to_string();
        head.append(t.as_str());
        out.push(ReportLine { text: head, console: true });
        let chain = chain_of(sol);
        let ghost cv = chain.deep_view();
        let mut k: usize = 0;
        let ghost o1 = out.deep_view();
        assert(o1 + chain_blocks(cv, 0, s0).0 =~= o1 + chain_blocks(cv, 0, s0).0);
        while k < chain.len()
            invariant
                k <= chain.len(),
                cv == chain.deep_view(),
                chain_blocks(cv, 0, s0).1 == chain_blocks(cv, k as int, seen@).1,
                o1 + chain_blocks(cv, 0, s0).0 == out.deep_view() + chain_blocks(cv, k as int, seen@).0,
            decreases chain.len() - k,
        {
            assert(cv[k as int] == chain[k as int]@);
            let ghost before = out.deep_view();
            let ghost sk = seen@;
            push_step_block(k, &chain[k], &mut seen, &mut out);
            assert(before + (step_block(k as nat, cv[k as int], sk).0 + chain_blocks(cv, k + 1, seen@).0) =~= out.deep_view()
                + chain_blocks(cv, k + 1, seen@).0);
            k += 1;
        }
        assert(out.deep_view() + Seq::<(Seq<char>, bool)>::empty() =~= out.deep_view());
        assert(o0 + (seq![("Lösung #"@ + decimal((n + 1) as nat) + ":\n"@ + subst_text(u[n as int].subst), true)]
            + chain_blocks(cv, 0, s0).0 + solution_blocks(u, n + 1, seen@)) =~= out.deep_view() + solution_blocks(u, n + 1, seen@));
        n += 1;
    }
    assert(out.deep_view() + Seq::<(Seq<char>, bool)>::empty() =~= out.deep_view());
    out
}

/// The report says that there is no solution exactly when the search found
/// no distinct solved state; otherwise it starts with the first solution.
pub proof fn law_report_says_none_iff_no_solution(sols: Seq<StateV>)
    ensures
        (report(sols) == seq![("Es konnten keine Lösungen gefunden werden"@, true)]) <==> distinct_solutions(
            sols,
            0,
            Set::empty(),
        ).len() == 0,
{
    let uniq = distinct_solutions(sols, 0, Set::empty());
    if uniq.len() > 0 {
        reveal_strlit("Es konnten keine Lösungen gefunden werden");
        reveal_strlit("Lösung #");
        let r = report(sols);
        let head = ("Lösung #"@ + decimal(1) + ":\n"@ + subst_text(uniq[0].subst), true);
        assert(r[0] == head);
        assert(head.0[0] == 'L');
        assert("Es konnten keine Lösungen gefunden werden"@[0] == 'E');
        assert(r[0] != ("Es konnten keine Lösungen gefunden werden"@, true));
    }
}

} // verus!
