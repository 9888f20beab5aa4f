//! The tokens of the constraint notation.
use crate::parser::parser::{ParseError, ParseErrorV};
use crate::text::{debug_str, str_debug, ascii_alphanumeric, chars_of, is_alphanumeric, is_ascii_alphanumeric, is_whitespace, string_of, unicode_alphanumeric, unicode_whitespace};
use vstd::prelude::*;

verus! {

/// A token: a word of letters and digits, or a symbol.
#[derive(Debug, PartialEq, Eq)]
pub enum Token {
    Letter(String),
    Dot,
    Comma,
    LParen,
    RParen,
    Eq,
    Lambda,
}

/// The mathematical value of a [`Token`].
pub enum TokenV {
    Letter(Seq<char>),
    Dot,
    Comma,
    LParen,
    RParen,
    Eq,
    Lambda,
}

impl View for Token {
    type V = TokenV;

    open spec fn view(&self) -> TokenV {
        match self {
            Token::Letter(s) => TokenV::Letter(s@),
            Token::Dot => TokenV::Dot,
            Token::Comma => TokenV::Comma,
            Token::LParen => TokenV::LParen,
            Token::RParen => TokenV::RParen,
            Token::Eq => TokenV::Eq,
            Token::Lambda => TokenV::Lambda,
        }
    }
}

impl DeepView for Token {
    type V = TokenV;

    open spec fn deep_view(&self) -> TokenV {
        self@
    }
}

impl Clone for Token {
    fn clone(&self) -> (res: Self)
        ensures
            res@ == self@,
    {
        match self {
            Token::Letter(s) => Token::Letter(s.clone()),
            Token::Dot => Token::Dot,
            Token::Comma => Token::Comma,
            Token::LParen => Token::LParen,
            Token::RParen => Token::RParen,
            Token::Eq => Token::Eq,
            Token::Lambda => Token::Lambda,
        }
    }
}

impl Token {
    /// Whether this token is a lambda.
    pub fn is_lambda(&self) -> (res: bool)
        ensures
            res == (self@ is Lambda),
    {
        match self {
            Token::Lambda => true,
            _ => false,
        }
    }

    /// Whether this token is a dot.
    pub fn is_dot(&self) -> (res: bool)
        ensures
            res == (self@ is Dot),
    {
        match self {
            Token::Dot => true,
            _ => false,
        }
    }

    /// Whether this token is a closing parenthesis.
    pub fn is_rparen(&self) -> (res: bool)
        ensures
            res == (self@ is RParen),
    {
        match self {
            Token::RParen => true,
            _ => false,
        }
    }

    /// Whether an atom can start with this token: a word or an opening
    /// parenthesis.
    pub fn starts_atom(&self) -> (res: bool)
        ensures
            res == (self@ is Letter || self@ is LParen),
    {
        match self {
            Token::Letter(_) | Token::LParen => true,
            _ => false,
        }
    }

    /// Whether this token is the `?=` sign.
    pub fn is_eq(&self) -> (res: bool)
        ensures
            res == (self@ is Eq),
    {
        match self {
            Token::Eq => true,
            _ => false,
        }
    }
}

/// A token as `{:?}` writes it: `Letter("x")`, `Dot`, ...
pub open spec fn token_debug(t: TokenV) -> Seq<char> {
    match t {
        TokenV::Letter(s) => "Letter("@ + str_debug(s) + ")"@,
        TokenV::Dot => "Dot"@,
        TokenV::Comma => "Comma"@,
        TokenV::LParen => "LParen"@,
        TokenV::RParen => "RParen"@,
        TokenV::Eq => "Eq"@,
        TokenV::Lambda => "Lambda"@,
    }
}

impl Token {
    /// This token as `{:?}` writes it.
    pub fn debug_text(&self) -> (res: String)
        ensures
            res@ == token_debug(self@),
    {
        match self {
            Token::Letter(s) => {
                let mut out = String::from_str("Letter(");
                let q = debug_str(s.as_str());
                out.append(q.as_str());
                out.append(")");
                out
            },
            Token::Dot => String::from_str("Dot"),
            Token::Comma => String::from_str("Comma"),
            Token::LParen => String::from_str("LParen"),
            Token::RParen => String::from_str("RParen"),
            Token::Eq => String::from_str("Eq"),
            Token::Lambda => String::from_str("Lambda"),
        }
    }
}

/// A character that continues a word: a letter or digit that is neither
/// whitespace nor `λ`, which always stands for the lambda.
pub open spec fn word_char(c: char) -> bool {
    !unicode_whitespace(c) && unicode_alphanumeric(c) && c != 'λ'
}

/// The end of the run of word characters from `j` on.
pub open spec fn word_end(cs: Seq<char>, j: int) -> int
    decreases cs.len() - j,
{
    if 0 <= j < cs.len() && word_char(cs[j]) {
        word_end(cs, j + 1)
    } else {
        j
    }
}

/// A run ends at or after where it starts.
pub proof fn lemma_word_end(cs: Seq<char>, j: int)
    requires
        0 <= j <= cs.len(),
    ensures
        j <= word_end(cs, j) <= cs.len(),
    decreases cs.len() - j,
{
    if j < cs.len() && word_char(cs[j]) {
        lemma_word_end(cs, j + 1);
    }
}

/// `t` in front of the tokens of `r`, or the error of `r`.
pub open spec fn prepend(t: TokenV, r: Result<Seq<TokenV>, ParseErrorV>) -> Result<Seq<TokenV>, ParseErrorV> {
    match r {
        Ok(ts) => Ok(seq![t] + ts),
        Err(e) => Err(e),
    }
}

/// The tokens of `cs` from position `i` on, or the first character that
/// fits no token: whitespace is skipped; `\l` and `λ` are the lambda, `?=`
/// the equation sign; parentheses, dot and comma stand for themselves; an
/// ASCII letter or digit starts a word that runs on over word characters.
pub open spec fn tokens_from(cs: Seq<char>, i: int) -> Result<Seq<TokenV>, ParseErrorV>
    decreases cs.len() - i,
{
    if i < 0 || i >= cs.len() {
        Ok(Seq::empty())
    } else {
        let c = cs[i];
        if unicode_whitespace(c) {
            tokens_from(cs, i + 1)
        } else if c == '\\' {
            if i + 1 < cs.len() && cs[i + 1] == 'l' {
                prepend(TokenV::Lambda, tokens_from(cs, i + 2))
            } else {
                Err(ParseErrorV::InvalidCharacter(i, c))
            }
        } else if c == '?' {
            if i + 1 < cs.len() && cs[i + 1] == '=' {
                prepend(TokenV::Eq, tokens_from(cs, i + 2))
            } else {
                Err(ParseErrorV::InvalidCharacter(i, c))
            }
        } else if c == 'λ' {
            prepend(TokenV::Lambda, tokens_from(cs, i + 1))
        } else if c == '(' {
            prepend(TokenV::LParen, tokens_from(cs, i + 1))
        } else if c == ')' {
            prepend(TokenV::RParen, tokens_from(cs, i + 1))
        } else if c == '.' {
            prepend(TokenV::Dot, tokens_from(cs, i + 1))
        } else if c == ',' {
            prepend(TokenV::Comma, tokens_from(cs, i + 1))
        } else if ascii_alphanumeric(c) {
            let j = word_end(cs, i + 1);
            proof {
                lemma_word_end(cs, i + 1);
            }
            prepend(TokenV::Letter(cs.subrange(i, j)), tokens_from(cs, j))
        } else {
            Err(ParseErrorV::InvalidCharacter(i, c))
        }
    }
}

/// `done` in front of the tokens of `r`, or the error of `r`.
pub open spec fn after(done: Seq<TokenV>, r: Result<Seq<TokenV>, ParseErrorV>) -> Result<Seq<TokenV>, ParseErrorV> {
    match r {
        Ok(ts) => Ok(done + ts),
        Err(e) => Err(e),
    }
}

/// Splits `input` into tokens, or reports the first character (by its
/// position among the characters) that fits no token.
pub fn tokenize(input: &str) -> (res: Result<Vec<Token>, ParseError>)
    ensures
        match res {
            Ok(ts) => tokens_from(input@, 0) == Ok::<Seq<TokenV>, ParseErrorV>(ts.deep_view()),
            Err(e) => tokens_from(input@, 0) == Err::<Seq<TokenV>, ParseErrorV>(e@),
        },
{
    let cs = chars_of(input);
    let mut tokens: Vec<Token> = Vec::new();
    let mut i: usize = 0;
    while i < cs.len()
        invariant
            i <= cs.len(),
            cs@ == input@,
            tokens_from(input@, 0) == after(tokens.deep_view(), tokens_from(input@, i as int)),
        decreases cs.len() - i,
    {
        let c = cs[i];
        let ghost done = tokens.deep_view();
        if is_whitespace(c) {
            i += 1;
        } else if c == '\\' {
            if i + 1 < cs.len() && cs[i + 1] == 'l' {
                tokens.push(Token::Lambda);
                assert(tokens.deep_view() =~= done + seq![TokenV::Lambda]);
                assert(done + seq![TokenV::Lambda] + Seq::<TokenV>::empty() =~= done + seq![TokenV::Lambda]);
                proof {
                    lemma_after_prepend(done, TokenV::Lambda, tokens_from(input@, i + 2));
                }
                i += 2;
            } else {
                return Err(ParseError::InvalidCharacter((i, c)));
            }
        } else if c == '?' {
            if i + 1 < cs.len() && cs[i + 1] == '=' {
                tokens.push(Token::Eq);
                assert(tokens.deep_view() =~= done + seq![TokenV::Eq]);
                proof {
                    lemma_after_prepend(done, TokenV::Eq, tokens_from(input@, i + 2));
                }
                i += 2;
            } else {
                return Err(ParseError::InvalidCharacter((i, c)));
            }
        } else if c == 'λ' || c == '(' || c == ')' || c == '.' || c == ',' {
            let t = if c == 'λ' {
                Token::Lambda
            } else if c == '(' {
                Token::LParen
            } else if c == ')' {
                Token::RParen
            } else if c == '.' {
                Token::Dot
            } else {
                Token::Comma
            };
            let ghost tv = t@;
            tokens.push(t);
            assert(tokens.deep_view() =~= done + seq![tv]);
            proof {
                lemma_after_prepend(done, tv, tokens_from(input@, i + 1));
            }
            i += 1;
        } else if is_ascii_alphanumeric(c) {
            let mut j = i + 1;
            while j < cs.len() && !is_whitespace(cs[j]) && is_alphanumeric(cs[j]) && cs[j] != 'λ'
                invariant
                    i < j <= cs.len(),
                    cs@ == input@,
                    word_end(input@, i + 1) == word_end(input@, j as int),
                decreases cs.len() - j,
            {
                j += 1;
            }
            let word = string_of(&cs.as_slice()[i..j]);
            let ghost tv = TokenV::Letter(input@.subrange(i as int, j as int));
            tokens.push(Token::Letter(word));
            assert(tokens.deep_view() =~= done + seq![tv]);
            proof {
                lemma_after_prepend(done, tv, tokens_from(input@, j as int));
            }
            i = j;
        } else {
            return Err(ParseError::InvalidCharacter((i, c)));
        }
    }
    assert(tokens.deep_view() + Seq::<TokenV>::empty() =~= tokens.deep_view());
    Ok(tokens)
}

/// Moving one token from what is left to what is done.
proof fn lemma_after_prepend(done: Seq<TokenV>, t: TokenV, r: Result<Seq<TokenV>, ParseErrorV>)
    ensures
        after(done, prepend(t, r)) == after(done + seq![t], r),
{
    match r {
        Ok(ts) => {
            assert(done + (seq![t] + ts) =~= done + seq![t] + ts);
        },
        Err(_) => {},
    }
}

/// The same tokens, or errors at the same character `d` positions apart.
pub open spec fn same_up_to_shift(a: Result<Seq<TokenV>, ParseErrorV>, b: Result<Seq<TokenV>, ParseErrorV>, d: int) -> bool {
    match (a, b) {
        (Ok(x), Ok(y)) => x == y,
        (Err(ParseErrorV::InvalidCharacter(i, c)), Err(ParseErrorV::InvalidCharacter(j, e))) => j == i + d && c == e,
        _ => false,
    }
}

/// A word over a shared tail ends at the same place of the tail.
proof fn lemma_word_end_shift(x: Seq<char>, y: Seq<char>, p: int, q: int)
    requires
        0 <= p <= x.len(),
        0 <= q <= y.len(),
        x.subrange(p, x.len() as int) == y.subrange(q, y.len() as int),
    ensures
        word_end(x, p) - p == word_end(y, q) - q,
    decreases x.len() - p,
{
    assert(x.subrange(p, x.len() as int).len() == x.len() - p);
    assert(y.subrange(q, y.len() as int).len() == y.len() - q);
    assert(x.subrange(p, x.len() as int).len() == y.subrange(q, y.len() as int).len());
    if p < x.len() {
        assert(q < y.len());
        assert(x[p] == x.subrange(p, x.len() as int)[0]);
        assert(y.subrange(q, y.len() as int)[0] == y[q]);
        assert(x.subrange(p + 1, x.len() as int) =~= x.subrange(p, x.len() as int).drop_first());
        assert(y.subrange(q + 1, y.len() as int) =~= y.subrange(q, y.len() as int).drop_first());
        lemma_word_end_shift(x, y, p + 1, q + 1);
    }
}

/// Shared tails stay shared further on.
proof fn lemma_tail_shift(x: Seq<char>, y: Seq<char>, p: int, q: int, k: int)
    requires
        0 <= p <= x.len(),
        0 <= q <= y.len(),
        0 <= k <= x.len() - p,
        x.subrange(p, x.len() as int) == y.subrange(q, y.len() as int),
    ensures
        x.subrange(p + k, x.len() as int) == y.subrange(q + k, y.len() as int),
{
    let t = x.subrange(p, x.len() as int);
    assert(x.subrange(p + k, x.len() as int) =~= t.subrange(k, t.len() as int));
    assert(y.subrange(q + k, y.len() as int) =~= t.subrange(k, t.len() as int));
}

/// Tokenizing a shared tail gives the same tokens, and errors at the same
/// character shifted by the difference of the positions.
proof fn lemma_tokens_shift(x: Seq<char>, y: Seq<char>, p: int, q: int)
    requires
        0 <= p <= x.len(),
        0 <= q <= y.len(),
        x.subrange(p, x.len() as int) == y.subrange(q, y.len() as int),
    ensures
        same_up_to_shift(tokens_from(x, p), tokens_from(y, q), q - p),
    decreases x.len() - p,
{
    let tx = x.subrange(p, x.len() as int);
    let ty = y.subrange(q, y.len() as int);
    assert(tx.len() == x.len() - p);
    assert(ty.len() == y.len() - q);
    assert(tx.len() == ty.len());
    if p < x.len() {
        assert(x[p] == tx[0] && y[q] == ty[0]);
        if p + 1 < x.len() {
            assert(x[p + 1] == tx[1] && y[q + 1] == ty[1]);
        }
        let c = x[p];
        lemma_tail_shift(x, y, p, q, 1);
        if unicode_whitespace(c) {
            lemma_tokens_shift(x, y, p + 1, q + 1);
        } else if c == '\\' || c == '?' {
            if p + 1 < x.len() {
                lemma_tail_shift(x, y, p, q, 2);
                lemma_tokens_shift(x, y, p + 2, q + 2);
            }
        } else if c == 'λ' || c == '(' || c == ')' || c == '.' || c == ',' {
            lemma_tokens_shift(x, y, p + 1, q + 1);
        } else if ascii_alphanumeric(c) {
            lemma_word_end(x, p + 1);
            lemma_word_end(y, q + 1);
            lemma_word_end_shift(x, y, p + 1, q + 1);
            let jx = word_end(x, p + 1);
            let jy = word_end(y, q + 1);
            assert(x.subrange(p, jx) =~= tx.subrange(0, jx - p));
            assert(y.subrange(q, jy) =~= ty.subrange(0, jy - q));
            lemma_tail_shift(x, y, p, q, jx - p);
            lemma_tokens_shift(x, y, jx, jy);
        }
    } else {
        assert(ty.len() == 0);
    }
}

/// The lambda can be written `λ` or `\l`: a line that starts with either
/// spelling gives the same tokens, or fails at the same character, one
/// position further for the two-character spelling.
pub proof fn law_lambda_spellings(rest: Seq<char>)
    ensures
        same_up_to_shift(tokens_from(seq!['λ'] + rest, 0), tokens_from(seq!['\\', 'l'] + rest, 0), 1),
{
    let x = seq!['λ'] + rest;
    let y = seq!['\\', 'l'] + rest;
    assert(x.subrange(1, x.len() as int) =~= rest);
    assert(y.subrange(2, y.len() as int) =~= rest);
    assert(x[0] == 'λ');
    assert(y[0] == '\\' && y[1] == 'l');
    lemma_tokens_shift(x, y, 1, 2);
}


/// Both results are the same tokens, or both are errors.
pub open spec fn same_tokens_or_both_fail(
    r1: Result<Seq<TokenV>, ParseErrorV>,
    r2: Result<Seq<TokenV>, ParseErrorV>,
) -> bool {
    match (r1, r2) {
        (Ok(x), Ok(y)) => x == y,
        (Err(_), Err(_)) => true,
        _ => false,
    }
}

/// Inside a prefix followed by a character that ends words, a word ends
/// where it ends in the prefix alone.
proof fn lemma_word_end_prefix(x: Seq<char>, m: int, j: int)
    requires
        0 <= j <= m <= x.len(),
        m < x.len() ==> !word_char(x[m]),
    ensures
        word_end(x, j) == word_end(x.subrange(0, m), j),
        word_end(x, j) <= m,
    decreases m - j,
{
    let a = x.subrange(0, m);
    if j < m {
        assert(a[j] == x[j]);
        lemma_word_end_prefix(x, m, j + 1);
    }
}

/// `t` put in front of what follows `done`.
proof fn lemma_prepend_after(t: TokenV, done: Seq<TokenV>, r: Result<Seq<TokenV>, ParseErrorV>)
    ensures
        prepend(t, after(done, r)) == after(seq![t] + done, r),
{
    match r {
        Ok(ts) => {
            assert(seq![t] + (done + ts) =~= seq![t] + done + ts);
        },
        Err(_) => {},
    }
}

/// Tokenizing from inside a prefix that tokenizes, and that is followed by
/// a character ending words, gives the prefix's tokens and then the tokens
/// from the end of the prefix on.
proof fn lemma_tokens_prefix(x: Seq<char>, n: int, i: int)
    requires
        0 <= i <= n <= x.len(),
        n < x.len() ==> !word_char(x[n]),
        tokens_from(x.subrange(0, n), i) is Ok,
    ensures
        tokens_from(x, i) == after(tokens_from(x.subrange(0, n), i)->Ok_0, tokens_from(x, n)),
    decreases n - i,
{
    let a = x.subrange(0, n);
    if i == n {
        match tokens_from(x, n) {
            Ok(ts) => {
                assert(Seq::<TokenV>::empty() + ts =~= ts);
            },
            Err(_) => {},
        }
    } else {
        assert(a[i] == x[i]);
        if i + 1 < n {
            assert(a[i + 1] == x[i + 1]);
        }
        let c = a[i];
        if unicode_whitespace(c) {
            lemma_tokens_prefix(x, n, i + 1);
        } else if c == '\\' {
            lemma_tokens_prefix(x, n, i + 2);
            lemma_prepend_after(TokenV::Lambda, tokens_from(a, i + 2)->Ok_0, tokens_from(x, n));
        } else if c == '?' {
            lemma_tokens_prefix(x, n, i + 2);
            lemma_prepend_after(TokenV::Eq, tokens_from(a, i + 2)->Ok_0, tokens_from(x, n));
        } else if c == 'λ' || c == '(' || c == ')' || c == '.' || c == ',' {
            lemma_tokens_prefix(x, n, i + 1);
            let t = if c == 'λ' {
                TokenV::Lambda
            } else if c == '(' {
                TokenV::LParen
            } else if c == ')' {
                TokenV::RParen
            } else if c == '.' {
                TokenV::Dot
            } else {
                TokenV::Comma
            };
            lemma_prepend_after(t, tokens_from(a, i + 1)->Ok_0, tokens_from(x, n));
        } else {
            lemma_word_end_prefix(x, n, i + 1);
            lemma_word_end(x, i + 1);
            let j = word_end(x, i + 1);
            assert(a.subrange(i, j) =~= x.subrange(i, j));
            lemma_tokens_prefix(x, n, j);
            lemma_prepend_after(TokenV::Letter(x.subrange(i, j)), tokens_from(a, j)->Ok_0, tokens_from(x, n));
        }
    }
}

/// Whitespace only separates tokens: two texts that tokenize, joined by a
/// whitespace character, give the tokens of the first and then those of the
/// second.
pub proof fn law_whitespace_separates(a: Seq<char>, w: char, b: Seq<char>)
    requires
        unicode_whitespace(w),
        tokens_from(a, 0) is Ok,
        tokens_from(b, 0) is Ok,
    ensures
        tokens_from(a + seq![w] + b, 0) == Ok::<Seq<TokenV>, ParseErrorV>(
            tokens_from(a, 0)->Ok_0 + tokens_from(b, 0)->Ok_0,
        ),
{
    let x = a + seq![w] + b;
    let n = a.len() as int;
    assert(x[n] == w);
    assert(x.subrange(0, n) =~= a);
    lemma_tokens_prefix(x, n, 0);
    assert(x.subrange(n + 1, x.len() as int) =~= b.subrange(0, b.len() as int));
    lemma_tokens_shift(x, b, n + 1, 0);
}

/// From anywhere inside the text before it, `λ` and `\l` tokenize alike.
proof fn lemma_lambda_inside(a: Seq<char>, b: Seq<char>, i: int)
    requires
        0 <= i <= a.len(),
    ensures
        same_tokens_or_both_fail(tokens_from(a + seq!['λ'] + b, i), tokens_from(a + seq!['\\', 'l'] + b, i)),
    decreases a.len() - i,
{
    let x = a + seq!['λ'] + b;
    let y = a + seq!['\\', 'l'] + b;
    let n = a.len() as int;
    assert(x[n] == 'λ');
    assert(y[n] == '\\' && y[n + 1] == 'l');
    if i == n {
        assert(x.subrange(n + 1, x.len() as int) =~= b);
        assert(y.subrange(n + 2, y.len() as int) =~= b);
        lemma_tokens_shift(x, y, n + 1, n + 2);
    } else {
        assert(x[i] == a[i] && y[i] == a[i]);
        if i + 1 < n {
            assert(x[i + 1] == a[i + 1] && y[i + 1] == a[i + 1]);
        }
        let c = a[i];
        if unicode_whitespace(c) {
            lemma_lambda_inside(a, b, i + 1);
        } else if c == '\\' || c == '?' {
            if i + 1 < n {
                lemma_lambda_inside(a, b, i + 2);
            }
        } else if c == 'λ' || c == '(' || c == ')' || c == '.' || c == ',' {
            lemma_lambda_inside(a, b, i + 1);
        } else if ascii_alphanumeric(c) {
            assert(x.subrange(0, n) =~= a);
            assert(y.subrange(0, n) =~= a);
            lemma_word_end_prefix(x, n, i + 1);
            lemma_word_end_prefix(y, n, i + 1);
            lemma_word_end(x, i + 1);
            let j = word_end(x, i + 1);
            assert(x.subrange(i, j) =~= y.subrange(i, j));
            lemma_lambda_inside(a, b, j);
        }
    }
}

/// The lambda can be written `λ` or `\l` anywhere: writing one for the other
/// gives the same tokens, or an error either way.
pub proof fn law_lambda_anywhere(a: Seq<char>, b: Seq<char>)
    ensures
        same_tokens_or_both_fail(tokens_from(a + seq!['λ'] + b, 0), tokens_from(a + seq!['\\', 'l'] + b, 0)),
{
    lemma_lambda_inside(a, b, 0);
}


/// `s` with every `λ` written `\l`.
pub open spec fn spell_lambdas(s: Seq<char>) -> Seq<char>
    decreases s.len(),
{
    if s.len() == 0 {
        s
    } else if s.last() == 'λ' {
        spell_lambdas(s.drop_last()) + seq!['\\', 'l']
    } else {
        spell_lambdas(s.drop_last()).push(s.last())
    }
}

/// Respelling every lambda of a text before a fixed tail changes nothing.
proof fn lemma_spell_lambdas(a: Seq<char>, c: Seq<char>)
    ensures
        same_tokens_or_both_fail(tokens_from(a + c, 0), tokens_from(spell_lambdas(a) + c, 0)),
    decreases a.len(),
{
    if a.len() == 0 {
        assert(a + c =~= spell_lambdas(a) + c);
        match tokens_from(a + c, 0) {
            Ok(_) => {},
            Err(_) => {},
        }
    } else {
        let a1 = a.drop_last();
        let x = a.last();
        if x == 'λ' {
            assert(a + c =~= a1 + seq!['λ'] + c);
            lemma_lambda_inside(a1, c, 0);
            assert(a1 + seq!['\\', 'l'] + c =~= a1 + (seq!['\\', 'l'] + c));
            lemma_spell_lambdas(a1, seq!['\\', 'l'] + c);
            assert(spell_lambdas(a1) + (seq!['\\', 'l'] + c) =~= spell_lambdas(a) + c);
        } else {
            assert(a + c =~= a1 + (seq![x] + c));
            lemma_spell_lambdas(a1, seq![x] + c);
            assert(spell_lambdas(a1) + (seq![x] + c) =~= spell_lambdas(a) + c);
        }
    }
}

/// Writing every `λ` of a text as `\l` gives the same tokens, or an error
/// either way.
pub proof fn law_lambda_respelled(s: Seq<char>)
    ensures
        same_tokens_or_both_fail(tokens_from(s, 0), tokens_from(spell_lambdas(s), 0)),
{
    lemma_spell_lambdas(s, Seq::empty());
    assert(s + Seq::<char>::empty() =~= s);
    assert(spell_lambdas(s) + Seq::<char>::empty() =~= spell_lambdas(s));
}

} // verus!
