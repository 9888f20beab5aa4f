//! Reading declarations: the kind of a variable, its type (with the types
//! the user declared), the case of its name, and the check of a constraint
//! line before it is parsed.
use crate::display::kind_name;
use crate::names::same_text;
use crate::session::find_var;
use crate::term::{TermKind, Type, TypeV, Var, Variable};
use crate::text::{
    leading_ws,
    char_string, chars_of, is_lowercase, is_uppercase, is_whitespace, lemma_leading_ws_bound, lemma_trailing_ws_bound,
    same_chars, string_of, trim, trim_range, unicode_lowercase, unicode_to_lowercase, unicode_uppercase, unicode_whitespace,
    to_lowercase,
};
use vstd::prelude::*;
use vstd::slice::slice_subrange;
use vstd::string::*;

verus! {

/// The list of strings a JSON text holds, or the message of why it holds
/// none.
pub uninterp spec fn json_string_list(text: Seq<char>) -> Result<Seq<Seq<char>>, Seq<char>>;

/// `serde_json::from_str::<Vec<String>>`, its error rendered as text. What
/// it returns is named, not stated: the JSON grammar is not written out here.
#[verifier::external_body]
fn parse_string_list(text: &str) -> (res: Result<Vec<String>, String>)
    ensures
        match res {
            Ok(v) => json_string_list(text@) == Ok::<Seq<Seq<char>>, Seq<char>>(v.deep_view()),
            Err(m) => json_string_list(text@) == Err::<Seq<Seq<char>>, Seq<char>>(m@),
        },
{
    serde_json::from_str::<Vec<String>>(text).map_err(|e| e.to_string())
}

/// The kind named by `s`, in any case: `fvar`, `bvar` or `const`.
pub open spec fn kind_from_text(s: Seq<char>) -> Result<TermKind, Seq<char>> {
    let low = unicode_to_lowercase(s);
    if low == "fvar"@ {
        Ok(TermKind::FVar)
    } else if low == "bvar"@ {
        Ok(TermKind::BVar)
    } else if low == "const"@ {
        Ok(TermKind::Const)
    } else {
        Err("Unbekannter TermKind: "@ + low)
    }
}

impl TermKind {
    /// The kind named by `s`, in any case, or the message that it names
    /// none.
    pub fn from_text(s: &str) -> (res: Result<TermKind, String>)
        ensures
            match res {
                Ok(k) => kind_from_text(s@) == Ok::<TermKind, Seq<char>>(k),
                Err(m) => kind_from_text(s@) == Err::<TermKind, Seq<char>>(m@),
            },
    {
        let low = to_lowercase(s);
        if same_chars(low.as_str(), "fvar") {
            Ok(TermKind::FVar)
        } else if same_chars(low.as_str(), "bvar") {
            Ok(TermKind::BVar)
        } else if same_chars(low.as_str(), "const") {
            Ok(TermKind::Const)
        } else {
            let mut m = String::from_str("Unbekannter TermKind: ");
            m.append(low.as_str());
            Err(m)
        }
    }
}

/// The position of the first `->` in `s` from `i` on.
pub open spec fn find_arrow(s: Seq<char>, i: int) -> Option<int>
    decreases s.len() - i,
{
    if i < 0 || i + 1 >= s.len() {
        None
    } else if s[i] == '-' && s[i + 1] == '>' {
        Some(i)
    } else {
        find_arrow(s, i + 1)
    }
}

pub proof fn lemma_find_arrow(s: Seq<char>, i: int)
    requires
        0 <= i,
    ensures
        find_arrow(s, i) matches Some(k) ==> i <= k && k + 2 <= s.len() && s[k] == '-' && s[k + 1] == '>',
    decreases s.len() - i,
{
    if i + 1 < s.len() && !(s[i] == '-' && s[i + 1] == '>') {
        lemma_find_arrow(s, i + 1);
    }
}

/// Trimming never lengthens a text.
pub proof fn lemma_trim_len(s: Seq<char>)
    ensures
        trim(s).len() <= s.len(),
{
    lemma_leading_ws_bound(s);
    let rest = s.subrange(leading_ws(s) as int, s.len() as int);
    lemma_trailing_ws_bound(rest);
}

/// A base type by name, in any case, or a declared type by its exact name
/// in the JSON list of `types_file` (the text of the file, or the message of
/// why it could not be read).
pub open spec fn base_type(t: Seq<char>, types_file: Result<Seq<char>, Seq<char>>) -> Result<TypeV, Seq<char>> {
    let low = unicode_to_lowercase(t);
    if low == "real"@ {
        Ok(TypeV::Real)
    } else if low == "nat"@ {
        Ok(TypeV::Nat)
    } else if low == "bool"@ {
        Ok(TypeV::Bool)
    } else {
        match types_file {
            Err(m) => Err(m),
            Ok(raw) => match json_string_list(raw) {
                Err(m) => Err(m),
                Ok(list) => if list.contains(t) {
                    Ok(TypeV::Custom(t))
                } else {
                    Err("Unbekannter Typ: "@ + t)
                },
            },
        }
    }
}

/// The type written in `s` (trimmed): `a->b` at the first arrow, the left
/// side read first, else a base or declared type.
pub open spec fn type_from_text(s: Seq<char>, types_file: Result<Seq<char>, Seq<char>>) -> Result<TypeV, Seq<char>>
    decreases s.len(),
{
    let t = trim(s);
    match find_arrow(t, 0) {
        Some(k) => {
            proof {
                lemma_trim_len(s);
                lemma_find_arrow(t, 0);
            }
            match type_from_text(t.subrange(0, k), types_file) {
                Err(m) => Err(m),
                Ok(l) => match type_from_text(t.subrange(k + 2, t.len() as int), types_file) {
                    Err(m) => Err(m),
                    Ok(r) => Ok(TypeV::Arrow(Box::new(l), Box::new(r))),
                },
            }
        },
        None => base_type(t, types_file),
    }
}

/// The text of a file as read, or the message of why it could not be read.
pub open spec fn file_view(f: Result<String, String>) -> Result<Seq<char>, Seq<char>> {
    match f {
        Ok(t) => Ok(t@),
        Err(m) => Err(m@),
    }
}

/// The spec outcome of reading a type.
pub open spec fn type_result(r: Result<Type, String>) -> Result<TypeV, Seq<char>> {
    match r {
        Ok(t) => Ok(t@),
        Err(m) => Err(m@),
    }
}

/// The position of the first `->` in `t`.
fn find_arrow_in(t: &[char]) -> (res: Option<usize>)
    ensures
        match res {
            Some(k) => find_arrow(t@, 0) == Some(k as int),
            None => find_arrow(t@, 0) is None,
        },
{
    let mut i: usize = 0;
    while i < t.len() && i + 1 < t.len()
        invariant
            find_arrow(t@, 0) == find_arrow(t@, i as int),
        decreases t.len() - i,
    {
        if t[i] == '-' && t[i + 1] == '>' {
            return Some(i);
        }
        i += 1;
    }
    None
}

/// Whether `list` holds `name`.
fn list_contains(list: &Vec<String>, name: &String) -> (res: bool)
    ensures
        res == list.deep_view().contains(name@),
{
    let mut i: usize = 0;
    while i < list.len()
        invariant
            i <= list.len(),
            forall|k: int| 0 <= k < i ==> list.deep_view()[k] != name@,
        decreases list.len() - i,
    {
        assert(list.deep_view()[i as int] == list[i as int]@);
        if same_text(&list[i], name) {
            assert(list.deep_view()[i as int] == name@);
            return true;
        }
        i += 1;
    }
    false
}

/// A base type by name, or a declared type.
fn base_type_of(t: &[char], types_file: &Result<String, String>) -> (res: Result<Type, String>)
    ensures
        type_result(res) == base_type(t@, file_view(*types_file)),
{
    let text = string_of(t);
    let low = to_lowercase(text.as_str());
    if same_chars(low.as_str(), "real") {
        return Ok(Type::Real);
    }
    if same_chars(low.as_str(), "nat") {
        return Ok(Type::Nat);
    }
    if same_chars(low.as_str(), "bool") {
        return Ok(Type::Bool);
    }
    match types_file {
        Err(m) => Err(m.clone()),
        Ok(raw) => match parse_string_list(raw.as_str()) {
            Err(m) => Err(m),
            Ok(list) => {
                if list_contains(&list, &text) {
                    Ok(Type::Custom(text))
                } else {
                    let mut m = String::from_str("Unbekannter Typ: ");
                    m.append(text.as_str());
                    Err(m)
                }
            },
        },
    }
}

/// The type written in `s`.
fn type_from_chars(s: &[char], types_file: &Result<String, String>) -> (res: Result<Type, String>)
    ensures
        type_result(res) == type_from_text(s@, file_view(*types_file)),
    decreases s.len(),
{
    let (lo, hi) = trim_range(s);
    let t = slice_subrange(s, lo, hi);
    proof {
        lemma_trim_len(s@);
        lemma_find_arrow(t@, 0);
    }
    match find_arrow_in(t) {
        Some(k) => {
            let lhs = match type_from_chars(slice_subrange(t, 0, k), types_file) {
                Ok(l) => l,
                Err(m) => {
                    return Err(m);
                },
            };
            let rhs = match type_from_chars(slice_subrange(t, k + 2, t.len()), types_file) {
                Ok(r) => r,
                Err(m) => {
                    return Err(m);
                },
            };
            Ok(Type::Arrow(Box::new(lhs), Box::new(rhs)))
        },
        None => base_type_of(t, types_file),
    }
}

impl Type {
    /// The type written in `s`: `Real`, `Nat` or `Bool` in any case, a type
    /// declared in the JSON list `types_file` (the text of the file, or why it
    /// could not be read), or `a->b`, split at the first arrow.
    pub fn from_text(s: &str, types_file: &Result<String, String>) -> (res: Result<Type, String>)
        ensures
            type_result(res) == type_from_text(s@, file_view(*types_file)),
    {
        let cs = chars_of(s);
        type_from_chars(cs.as_slice(), types_file)
    }
}

/// The check of a name against its kind: a free variable starts with an
/// upper-case letter, a bound variable or a constant with a lower-case one.
pub open spec fn name_case_result(name: Seq<char>, kind: TermKind) -> Result<(), Seq<char>> {
    if name.len() == 0 {
        Ok(())
    } else if kind == TermKind::FVar && !unicode_uppercase(name[0]) {
        Err("FVar muss Großbuchstabe sein: "@ + name)
    } else if (kind == TermKind::BVar || kind == TermKind::Const) && !unicode_lowercase(name[0]) {
        Err(kind_name(kind) + " muss Kleinbuchstabe sein: "@ + name)
    } else {
        Ok(())
    }
}

/// Checks the case of the first letter of `name` against `kind`.
pub fn validate_name_case(name: &str, kind: &TermKind) -> (res: Result<(), String>)
    ensures
        match res {
            Ok(()) => name_case_result(name@, *kind) == Ok::<(), Seq<char>>(()),
            Err(m) => name_case_result(name@, *kind) == Err::<(), Seq<char>>(m@),
        },
{
    let cs = chars_of(name);
    if cs.len() == 0 {
        return Ok(());
    }
    let first = cs[0];
    match kind {
        TermKind::FVar => {
            if !is_uppercase(first) {
                let mut m = String::from_str("FVar muss Großbuchstabe sein: ");
                m.append(name);
                return Err(m);
            }
        },
        TermKind::BVar | TermKind::Const => {
            if !is_lowercase(first) {
                let mut m = kind.name();
                m.append(" muss Kleinbuchstabe sein: ");
                m.append(name);
                return Err(m);
            }
        },
        _ => {},
    }
    Ok(())
}

/// Declares a variable of the given kind and type, with the role `Basic`,
/// once its name has the case its kind asks for.
pub fn create_variable(name: String, kind: TermKind, ty: Type) -> (res: Result<Variable, String>)
    ensures
        match res {
            Ok(v) => name_case_result(name@, kind) == Ok::<(), Seq<char>>(()) && v@ == (crate::term::VariableV {
                name: name@,
                term_kind: kind,
                ty: ty@,
                var: Var::Basic,
            }),
            Err(m) => name_case_result(name@, kind) == Err::<(), Seq<char>>(m@),
        },
{
    match validate_name_case(name.as_str(), &kind) {
        Err(m) => Err(m),
        Ok(()) => Ok(Variable { name, term_kind: kind, ty, var: Var::Basic }),
    }
}

/// The position of the first `?=` in `s` from `i` on.
pub open spec fn find_eq_sign(s: Seq<char>, i: int) -> Option<int>
    decreases s.len() - i,
{
    if i < 0 || i + 1 >= s.len() {
        None
    } else if s[i] == '?' && s[i + 1] == '=' {
        Some(i)
    } else {
        find_eq_sign(s, i + 1)
    }
}

/// `s` from `i` on with every `\l` replaced by a space.
pub open spec fn lambda_to_space(s: Seq<char>, i: int) -> Seq<char>
    decreases s.len() - i,
{
    if i < 0 || i >= s.len() {
        Seq::empty()
    } else if s[i] == '\\' && i + 1 < s.len() && s[i + 1] == 'l' {
        seq![' '] + lambda_to_space(s, i + 2)
    } else {
        seq![s[i]] + lambda_to_space(s, i + 1)
    }
}

/// A character that separates the words of a constraint line: whitespace,
/// a parenthesis, a dot, a comma or a lambda.
pub open spec fn separator(c: char) -> bool {
    unicode_whitespace(c) || c == '(' || c == ')' || c == '.' || c == ',' || c == 'λ'
}

/// The words of `s` from `i` on, the current word starting at `start`:
/// maximal runs without separators, empty runs left out.
pub open spec fn words_from(s: Seq<char>, start: int, i: int) -> Seq<Seq<char>>
    decreases s.len() - i,
{
    if i < 0 || i >= s.len() {
        if 0 <= start < s.len() {
            seq![s.subrange(start, s.len() as int)]
        } else {
            Seq::empty()
        }
    } else if separator(s[i]) {
        (if start < i {
            seq![s.subrange(start, i)]
        } else {
            Seq::empty()
        }) + words_from(s, i + 1, i + 1)
    } else {
        words_from(s, start, i + 1)
    }
}

/// The first word that is not `?=` and names no declared variable.
pub open spec fn first_unknown(words: Seq<Seq<char>>, vars: Seq<crate::term::VariableV>) -> Option<Seq<char>>
    decreases words.len(),
{
    if words.len() == 0 {
        None
    } else if words[0] != "?="@ && find_var(vars, words[0]) is None {
        Some(words[0])
    } else {
        first_unknown(words.drop_first(), vars)
    }
}

/// The check of a constraint line: exactly one `?=` with text on both sides,
/// and every word a declared variable (`\l` counting as a separator);
/// otherwise the message to show.
pub open spec fn constraint_check(line: Seq<char>, vars: Seq<crate::term::VariableV>) -> Result<(), Seq<char>> {
    match find_eq_sign(line, 0) {
        None => Err("Falsches Format"@),
        Some(k) => if find_eq_sign(line, k + 2) is Some || trim(line.subrange(0, k)).len() == 0 || trim(
            line.subrange(k + 2, line.len() as int),
        ).len() == 0 {
            Err("Falsches Format"@)
        } else {
            match first_unknown(words_from(lambda_to_space(line, 0), 0, 0), vars) {
                None => Ok(()),
                Some(w) => Err("Die Variable '"@ + w + "' ist nicht definiert"@),
            }
        },
    }
}

/// The position of the first `?=` in `cs` from `i` on.
fn find_eq_sign_in(cs: &Vec<char>, i: usize) -> (res: Option<usize>)
    ensures
        match res {
            Some(k) => find_eq_sign(cs@, i as int) == Some(k as int) && i <= k && k + 2 <= cs.len(),
            None => find_eq_sign(cs@, i as int) is None,
        },
{
    let mut j = i;
    while j < cs.len() && j + 1 < cs.len()
        invariant
            i <= j,
            find_eq_sign(cs@, i as int) == find_eq_sign(cs@, j as int),
        decreases cs.len() - j,
    {
        if cs[j] == '?' && cs[j + 1] == '=' {
            return Some(j);
        }
        j += 1;
    }
    None
}

/// `cs` with every `\l` replaced by a space.
fn replace_lambda(cs: &Vec<char>) -> (res: Vec<char>)
    ensures
        res@ == lambda_to_space(cs@, 0),
{
    let mut out: Vec<char> = Vec::new();
    let mut i: usize = 0;
    while i < cs.len()
        invariant
            i <= cs.len() + 1,
            lambda_to_space(cs@, 0) == out@ + lambda_to_space(cs@, i as int),
        decreases cs.len() + 1 - i,
    {
        let ghost before = out@;
        if cs[i] == '\\' && i + 1 < cs.len() && cs[i + 1] == 'l' {
            out.push(' ');
            assert(before + (seq![' '] + lambda_to_space(cs@, i + 2)) =~= out@ + lambda_to_space(cs@, i + 2));
            i += 2;
        } else {
            out.push(cs[i]);
            assert(before + (seq![cs@[i as int]] + lambda_to_space(cs@, i + 1)) =~= out@ + lambda_to_space(cs@, i + 1));
            i += 1;
        }
    }
    assert(lambda_to_space(cs@, i as int) =~= Seq::<char>::empty());
    assert(out@ + Seq::<char>::empty() =~= out@);
    out
}

/// Whether `c` separates words of a constraint line.
fn is_separator(c: char) -> (res: bool)
    ensures
        res == separator(c),
{
    is_whitespace(c) || c == '(' || c == ')' || c == '.' || c == ',' || c == 'λ'
}

/// Whether the word `r[start..i]` is not the `?=` sign and names no
/// declared variable; the word as a string.
fn unknown_word(r: &Vec<char>, start: usize, i: usize, all_var: &Vec<Variable>) -> (res: (bool, String))
    requires
        start <= i <= r.len(),
    ensures
        res.1@ == r@.subrange(start as int, i as int),
        res.0 == (r@.subrange(start as int, i as int) != "?="@ && find_var(all_var.deep_view(), res.1@) is None),
{
    let w = string_of(slice_subrange(r.as_slice(), start, i));
    proof {
        reveal_strlit("?=");
        assert("?="@ =~= seq!['?', '=']);
    }
    let is_sign = i - start == 2 && r[start] == '?' && r[start + 1] == '=';
    assert(is_sign ==> r@.subrange(start as int, i as int) =~= "?="@);
    assert(r@.subrange(start as int, i as int) == "?="@ ==> r@.subrange(start as int, i as int)[0] == '?' && r@.subrange(start as int, i as int)[1] == '=');
    if is_sign {
        return (false, w);
    }
    let known = crate::session::get_var(&w, all_var).is_some();
    (!known, w)
}

/// The first word of a constraint that names no declared variable.
fn check_words(r: &Vec<char>, all_var: &Vec<Variable>) -> (res: Option<String>)
    ensures
        match res {
            Some(w) => first_unknown(words_from(r@, 0, 0), all_var.deep_view()) == Some(w@),
            None => first_unknown(words_from(r@, 0, 0), all_var.deep_view()) is None,
        },
{
    let ghost vars = all_var.deep_view();
    let mut start: usize = 0;
    let mut i: usize = 0;
    while i < r.len()
        invariant
            start <= i <= r.len(),
            vars == all_var.deep_view(),
            first_unknown(words_from(r@, 0, 0), vars) == first_unknown(words_from(r@, start as int, i as int), vars),
        decreases r.len() - i,
    {
        if is_separator(r[i]) {
            let ghost rest = words_from(r@, i + 1, i + 1);
            if start < i {
                let (unknown, w) = unknown_word(r, start, i, all_var);
                assert((seq![r@.subrange(start as int, i as int)] + rest)[0] == r@.subrange(start as int, i as int));
                assert((seq![r@.subrange(start as int, i as int)] + rest).drop_first() =~= rest);
                if unknown {
                    return Some(w);
                }
            } else {
                assert(Seq::<Seq<char>>::empty() + rest =~= rest);
            }
            start = i + 1;
        }
        i += 1;
    }
    if start < r.len() {
        let (unknown, w) = unknown_word(r, start, r.len(), all_var);
        assert(seq![r@.subrange(start as int, r.len() as int)].drop_first() =~= Seq::<Seq<char>>::empty());
        assert(first_unknown(Seq::<Seq<char>>::empty(), vars) is None);
        if unknown {
            return Some(w);
        }
    }
    None
}

/// Checks a constraint line before it is parsed: exactly one `?=` with text
/// on both sides, and every word a declared variable. The error is the
/// message to show.
pub fn check_constraint(line: &str, all_var: &Vec<Variable>) -> (res: Result<(), String>)
    ensures
        match res {
            Ok(()) => constraint_check(line@, all_var.deep_view()) == Ok::<(), Seq<char>>(()),
            Err(m) => constraint_check(line@, all_var.deep_view()) == Err::<(), Seq<char>>(m@),
        },
{
    let cs = chars_of(line);
    let k = match find_eq_sign_in(&cs, 0) {
        Some(k) => k,
        None => {
            return Err(String::from_str("Falsches Format"));
        },
    };
    let second = find_eq_sign_in(&cs, k + 2);
    let (l0, l1) = trim_range(slice_subrange(cs.as_slice(), 0, k));
    let (r0, r1) = trim_range(slice_subrange(cs.as_slice(), k + 2, cs.len()));
    if second.is_some() || l1 - l0 == 0 || r1 - r0 == 0 {
        return Err(String::from_str("Falsches Format"));
    }
    let r = replace_lambda(&cs);
    match check_words(&r, all_var) {
        None => Ok(()),
        Some(w) => {
            let mut m = String::from_str("Die Variable '");
            m.append(w.as_str());
            m.append("' ist nicht definiert");
            Err(m)
        },
    }
}

/// Adds a declared type unless the list already holds it.
pub fn add_type(types: &mut Vec<String>, name: String)
    ensures
        old(types).deep_view().contains(name@) ==> final(types).deep_view() == old(types).deep_view(),
        !old(types).deep_view().contains(name@) ==> final(types).deep_view() == old(types).deep_view().push(name@),
{
    if !list_contains(types, &name) {
        let ghost before = types.deep_view();
        types.push(name);
        assert(types.deep_view() =~= before.push(name@));
    }
}

} // verus!
