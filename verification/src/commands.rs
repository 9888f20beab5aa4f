//! The commands of the interactive session.
use crate::text::{chars_of, eq_ignore_ascii_case, eq_ignore_ascii_case_str, same_chars, string_of, to_lowercase, trim, trim_range, trim_str, unicode_to_lowercase};
use vstd::prelude::*;
use vstd::slice::slice_subrange;

verus! {

/// A command line: delete a variable, declare a new one, go on to the
/// constraints, stop, or a line that is none of these.
#[derive(Debug, PartialEq, Eq)]
pub enum Command {
    Delete(String),
    New(String),
    Next,
    Stop,
    Invalid(String),
}

/// The mathematical value of a [`Command`].
pub enum CommandV {
    Delete(Seq<char>),
    New(Seq<char>),
    Next,
    Stop,
    Invalid(Seq<char>),
}

impl View for Command {
    type V = CommandV;

    open spec fn view(&self) -> CommandV {
        match self {
            Command::Delete(s) => CommandV::Delete(s@),
            Command::New(s) => CommandV::New(s@),
            Command::Next => CommandV::Next,
            Command::Stop => CommandV::Stop,
            Command::Invalid(s) => CommandV::Invalid(s@),
        }
    }
}

/// The position of the first space in `s`.
pub open spec fn first_space(s: Seq<char>, i: int) -> Option<int>
    decreases s.len() - i,
{
    if i < 0 || i >= s.len() {
        None
    } else if s[i] == ' ' {
        Some(i)
    } else {
        first_space(s, i + 1)
    }
}

/// The command of a line, trimmed: `weiter` and `stop` in any ASCII case;
/// `lösche <name>` (the word in any ASCII case, the name trimmed and not
/// empty); any other text is the name of a new variable; an empty line is
/// invalid.
pub open spec fn command_of(input: Seq<char>) -> CommandV {
    let line = trim(input);
    let (word, arg) = match first_space(line, 0) {
        Some(k) => (line.subrange(0, k), trim(line.subrange(k + 1, line.len() as int))),
        None => (line, Seq::empty()),
    };
    if eq_ignore_ascii_case(line, "weiter"@) {
        CommandV::Next
    } else if eq_ignore_ascii_case(line, "stop"@) {
        CommandV::Stop
    } else if eq_ignore_ascii_case(word, "lösche"@) && arg.len() > 0 {
        CommandV::Delete(arg)
    } else if line.len() > 0 {
        CommandV::New(line)
    } else {
        CommandV::Invalid(input)
    }
}

/// The position of the first space in `cs`.
fn find_space(cs: &[char]) -> (res: Option<usize>)
    ensures
        match res {
            Some(k) => first_space(cs@, 0) == Some(k as int) && k < cs.len(),
            None => first_space(cs@, 0) is None,
        },
{
    let mut i: usize = 0;
    while i < cs.len()
        invariant
            i <= cs.len(),
            first_space(cs@, 0) == first_space(cs@, i as int),
        decreases cs.len() - i,
    {
        if cs[i] == ' ' {
            return Some(i);
        }
        i += 1;
    }
    None
}

impl Command {
    /// Reads a command line.
    pub fn from_text(input: &str) -> (res: Command)
        ensures
            res@ == command_of(input@),
    {
        let cs = chars_of(input);
        let (lo, hi) = trim_range(cs.as_slice());
        let line_cs = slice_subrange(cs.as_slice(), lo, hi);
        let line = string_of(line_cs);
        if eq_ignore_ascii_case_str(line.as_str(), "weiter") {
            return Command::Next;
        }
        if eq_ignore_ascii_case_str(line.as_str(), "stop") {
            return Command::Stop;
        }
        let (word, arg) = match find_space(line_cs) {
            Some(k) => {
                let rest = slice_subrange(line_cs, k + 1, line_cs.len());
                let (a0, a1) = trim_range(rest);
                (string_of(slice_subrange(line_cs, 0, k)), string_of(slice_subrange(rest, a0, a1)))
            },
            None => (string_of(line_cs), String::new()),
        };
        if eq_ignore_ascii_case_str(word.as_str(), "lösche") && arg.unicode_len() > 0 {
            Command::Delete(arg)
        } else if line_cs.len() > 0 {
            Command::New(line)
        } else {
            Command::Invalid(string_of(cs.as_slice()))
        }
    }
}

/// The answer to a yes/no question, trimmed and lower-cased: `j` or `ja`
/// is yes, `n` or `nein` is no, anything else no answer.
pub open spec fn yes_no_answer(line: Seq<char>) -> Option<bool> {
    let a = unicode_to_lowercase(trim(line));
    if a == "j"@ || a == "ja"@ {
        Some(true)
    } else if a == "n"@ || a == "nein"@ {
        Some(false)
    } else {
        None
    }
}

/// Reads the answer to a yes/no question.
pub fn yes_no(line: &str) -> (res: Option<bool>)
    ensures
        res == yes_no_answer(line@),
{
    let t = trim_str(line);
    let a = to_lowercase(t.as_str());
    if same_chars(a.as_str(), "j") || same_chars(a.as_str(), "ja") {
        Some(true)
    } else if same_chars(a.as_str(), "n") || same_chars(a.as_str(), "nein") {
        Some(false)
    } else {
        None
    }
}

/// Whether the answer to "set binding limits?", trimmed and lower-cased,
/// keeps the default limits: every answer but `y`, `j` or `ja`, so `n` and
/// `nein` keep them.
pub open spec fn takes_defaults(line: Seq<char>) -> bool {
    let a = unicode_to_lowercase(trim(line));
    !(a == "y"@ || a == "j"@ || a == "ja"@)
}

/// Whether the answer to "set binding limits?" keeps the default limits.
pub fn accepts_defaults(line: &str) -> (res: bool)
    ensures
        res == takes_defaults(line@),
{
    let t = trim_str(line);
    let a = to_lowercase(t.as_str());
    !(same_chars(a.as_str(), "y") || same_chars(a.as_str(), "j") || same_chars(a.as_str(), "ja"))
}

/// The value of the decimal digits `ds`.
pub open spec fn digits_value(ds: Seq<char>) -> nat
    decreases ds.len(),
{
    if ds.len() == 0 {
        0
    } else {
        digits_value(ds.drop_last()) * 10 + ((ds.last() as u32) - ('0' as u32)) as nat
    }
}

/// Only decimal digits.
pub open spec fn all_digits(ds: Seq<char>) -> bool {
    forall|i: int| 0 <= i < ds.len() ==> '0' <= #[trigger] ds[i] && ds[i] <= '9'
}

/// A limit as typed: an empty answer (after trimming) keeps the default; a
/// number, digits with an optional `+` in front, that fits in a `usize` is
/// taken; anything else is no limit.
pub open spec fn limit_answer(line: Seq<char>, default: usize) -> Option<usize> {
    let t = trim(line);
    let ds = if t.len() > 0 && t[0] == '+' {
        t.drop_first()
    } else {
        t
    };
    if t.len() == 0 {
        Some(default)
    } else if ds.len() > 0 && all_digits(ds) && digits_value(ds) <= usize::MAX {
        Some(digits_value(ds) as usize)
    } else {
        None
    }
}

/// Reads a limit: the default for an empty answer, the number typed, or
/// `None` where the answer is no number that fits.
pub fn parse_limit(line: &str, default: usize) -> (res: Option<usize>)
    ensures
        res == limit_answer(line@, default),
{
    let cs = chars_of(line);
    let (lo, hi) = trim_range(cs.as_slice());
    if lo == hi {
        return Some(default);
    }
    let start = if cs[lo] == '+' {
        lo + 1
    } else {
        lo
    };
    let ghost t = cs@.subrange(lo as int, hi as int);
    let ghost ds = cs@.subrange(start as int, hi as int);
    assert(ds =~= (if t.len() > 0 && t[0] == '+' {
        t.drop_first()
    } else {
        t
    }));
    if start == hi {
        return None;
    }
    let mut value: usize = 0;
    let mut i = start;
    while i < hi
        invariant
            start <= i <= hi <= cs.len(),
            lo < hi,
            cs@ == line@,
            t == cs@.subrange(lo as int, hi as int),
            t == trim(line@),
            ds == (if t.len() > 0 && t[0] == '+' {
                t.drop_first()
            } else {
                t
            }),
            ds.len() > 0,
            ds == cs@.subrange(start as int, hi as int),
            all_digits(cs@.subrange(start as int, i as int)),
            value == digits_value(cs@.subrange(start as int, i as int)),
        decreases hi - i,
    {
        let c = cs[i];
        if !('0' <= c && c <= '9') {
            assert(ds[i - start] == c);
            assert(!all_digits(ds));
            return None;
        }
        let d: usize = ((c as u32) - ('0' as u32)) as usize;
        assert(cs@.subrange(start as int, i + 1).drop_last() =~= cs@.subrange(start as int, i as int));
        if value > (usize::MAX - d) / 10 {
            proof {
                let m = usize::MAX - d;
                assert(value * 10 + d > usize::MAX) by (nonlinear_arith)
                    requires
                        value > m / 10,
                        m == usize::MAX - d,
                        0 <= d <= 9,
                        m >= 0,
                ;
                assert(digits_value(cs@.subrange(start as int, i + 1)) == value * 10 + d);
                if all_digits(ds) {
                    lemma_digits_grow(cs@.subrange(start as int, i + 1), ds);
                }
            }
            return None;
        }
        value = value * 10 + d;
        i += 1;
    }
    assert(cs@.subrange(start as int, i as int) =~= ds);
    Some(value)
}

/// A longer run of digits is worth at least as much as its prefix.
proof fn lemma_digits_grow(prefix: Seq<char>, ds: Seq<char>)
    requires
        prefix.len() <= ds.len(),
        prefix =~= ds.subrange(0, prefix.len() as int),
        all_digits(ds),
    ensures
        digits_value(prefix) <= digits_value(ds),
    decreases ds.len(),
{
    if prefix.len() < ds.len() {
        assert(ds.drop_last().subrange(0, prefix.len() as int) =~= prefix);
        lemma_digits_grow(prefix, ds.drop_last());
    } else {
        assert(prefix =~= ds);
    }
}

} // verus!
