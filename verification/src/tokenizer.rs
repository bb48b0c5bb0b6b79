//! The tokenizer: turns a whitespace-free expression string into a
//! sequence of tokens by repeatedly consuming the longest match at the
//! current position.

use vstd::prelude::*;
use vstd::string::StrSliceExecFns;
use vstd::string::StringExecFns;

use crate::error::ExprError;
use crate::token::Operand;
use crate::token::Operator;
use crate::token::SpecToken;
use crate::token::Token;

verus! {

/// An ASCII decimal digit.
pub open spec fn is_digit_char(c: char) -> bool {
    48 <= c as u32 && c as u32 <= 57
}

/// An ASCII letter; identifiers start with one.
pub open spec fn is_alpha_char(c: char) -> bool {
    (65 <= c as u32 && c as u32 <= 90) || (97 <= c as u32 && c as u32 <= 122)
}

/// An ASCII letter or digit; identifiers continue through these.
pub open spec fn is_alnum_char(c: char) -> bool {
    is_digit_char(c) || is_alpha_char(c)
}

/// The numeric value of a digit character.
pub open spec fn digit_val(c: char) -> int {
    c as u32 - 48
}

/// The value of a run of digit characters read in base ten.
pub open spec fn digits_val(ds: Seq<char>) -> int
    decreases ds.len(),
{
    if ds.len() == 0 {
        0
    } else {
        digits_val(ds.drop_last()) * 10 + digit_val(ds.last())
    }
}

/// The length of the maximal run of digit characters starting at `i`.
pub open spec fn digit_run_len(s: Seq<char>, i: int) -> nat
    decreases s.len() - i,
{
    if i < 0 || i >= s.len() || !is_digit_char(s[i]) {
        0
    } else {
        1 + digit_run_len(s, i + 1)
    }
}

/// The length of the maximal run of alphanumeric characters starting at `i`.
pub open spec fn alnum_run_len(s: Seq<char>, i: int) -> nat
    decreases s.len() - i,
{
    if i < 0 || i >= s.len() || !is_alnum_char(s[i]) {
        0
    } else {
        1 + alnum_run_len(s, i + 1)
    }
}

/// The token starting at position `i` of `s` together with the position
/// just past it, or `None` when the character at `i` starts no token:
/// at end of input, at an unrecognized character, and at a digit run
/// whose value does not fit in `i32`.
pub open spec fn spec_tok_at(s: Seq<char>, i: int) -> Option<(SpecToken, int)> {
    if i < 0 || i >= s.len() {
        None
    } else if s[i] == '+' {
        Some((SpecToken::Op(Operator::Sum), i + 1))
    } else if s[i] == '-' {
        Some((SpecToken::Op(Operator::Sub), i + 1))
    } else if s[i] == '*' {
        Some((SpecToken::Op(Operator::Mul), i + 1))
    } else if s[i] == '/' {
        Some((SpecToken::Op(Operator::Div), i + 1))
    } else if s[i] == '(' {
        Some((SpecToken::Open, i + 1))
    } else if s[i] == ')' {
        Some((SpecToken::Close, i + 1))
    } else if is_digit_char(s[i]) {
        let k = digit_run_len(s, i);
        let v = digits_val(s.subrange(i, i + k));
        if v <= i32::MAX {
            Some((SpecToken::Value(v as i32), i + k))
        } else {
            None
        }
    } else if is_alpha_char(s[i]) {
        let k = alnum_run_len(s, i);
        Some((SpecToken::Var(s.subrange(i, i + k)), i + k))
    } else {
        None
    }
}

/// The token sequence obtained by scanning `s` from position `i` to the
/// end; `Err` carries the position at which scanning got stuck.
pub open spec fn spec_tokenize_from(s: Seq<char>, i: int) -> Result<Seq<SpecToken>, int>
    decreases s.len() - i,
{
    if i >= s.len() {
        Ok(Seq::empty())
    } else {
        match spec_tok_at(s, i) {
            None => Err(i),
            Some((t, j)) => if j <= i || j > s.len() {
                Err(i)
            } else {
                match spec_tokenize_from(s, j) {
                    Ok(rest) => Ok(seq![t] + rest),
                    Err(e) => Err(e),
                }
            },
        }
    }
}

/// The token sequence of the whole string, or the offset where
/// tokenization got stuck.
pub open spec fn spec_tokenize(s: Seq<char>) -> Result<Seq<SpecToken>, int> {
    spec_tokenize_from(s, 0)
}

/// A digit run is no longer than the rest of the string.
pub proof fn lemma_digit_run_len_bound(s: Seq<char>, i: int)
    requires
        0 <= i <= s.len(),
    ensures
        digit_run_len(s, i) <= s.len() - i,
    decreases s.len() - i,
{
    if i < s.len() && is_digit_char(s[i]) {
        lemma_digit_run_len_bound(s, i + 1);
    }
}

/// An alphanumeric run is no longer than the rest of the string.
pub proof fn lemma_alnum_run_len_bound(s: Seq<char>, i: int)
    requires
        0 <= i <= s.len(),
    ensures
        alnum_run_len(s, i) <= s.len() - i,
    decreases s.len() - i,
{
    if i < s.len() && is_alnum_char(s[i]) {
        lemma_alnum_run_len_bound(s, i + 1);
    }
}

/// A token found at position `i` ends past `i` and within the string.
pub proof fn lemma_tok_at_advance(s: Seq<char>, i: int)
    requires
        spec_tok_at(s, i) is Some,
    ensures
        i < spec_tok_at(s, i)->Some_0.1 <= s.len(),
{
    if 0 <= i < s.len() {
        lemma_digit_run_len_bound(s, i);
        lemma_alnum_run_len_bound(s, i);
    }
}

/// The exact length of a digit run, from what bounds it on both sides.
pub proof fn lemma_digit_run_exact(s: Seq<char>, i: int, e: int)
    requires
        0 <= i <= e <= s.len(),
        forall|k: int| i <= k < e ==> is_digit_char(s[k]),
        e == s.len() || !is_digit_char(s[e]),
    ensures
        digit_run_len(s, i) == e - i,
    decreases e - i,
{
    if i < e {
        lemma_digit_run_exact(s, i + 1, e);
    }
}

/// The exact length of an alphanumeric run, from what bounds it on both
/// sides.
pub proof fn lemma_alnum_run_exact(s: Seq<char>, i: int, e: int)
    requires
        0 <= i <= e <= s.len(),
        forall|k: int| i <= k < e ==> is_alnum_char(s[k]),
        e == s.len() || !is_alnum_char(s[e]),
    ensures
        alnum_run_len(s, i) == e - i,
    decreases e - i,
{
    if i < e {
        lemma_alnum_run_exact(s, i + 1, e);
    }
}

/// A run of digits has a non-negative value.
pub proof fn lemma_digits_val_nonneg(ds: Seq<char>)
    requires
        forall|k: int| 0 <= k < ds.len() ==> is_digit_char(ds[k]),
    ensures
        digits_val(ds) >= 0,
    decreases ds.len(),
{
    if ds.len() > 0 {
        lemma_digits_val_nonneg(ds.drop_last());
    }
}

/// Reading more digits never makes the value smaller.
pub proof fn lemma_digits_val_prefix(ds: Seq<char>, m: int)
    requires
        forall|k: int| 0 <= k < ds.len() ==> is_digit_char(ds[k]),
        0 <= m <= ds.len(),
    ensures
        digits_val(ds.subrange(0, m)) <= digits_val(ds),
    decreases ds.len() - m,
{
    if m == ds.len() {
        assert(ds.subrange(0, m) =~= ds);
    } else {
        lemma_digits_val_prefix(ds, m + 1);
        let p1 = ds.subrange(0, m + 1);
        assert(p1.drop_last() =~= ds.subrange(0, m));
        lemma_digits_val_nonneg(ds.subrange(0, m));
    }
}

/// Lifts a token-sequence prefix over the scan result of the remainder.
pub open spec fn tok_concat(prefix: Seq<SpecToken>, rest: Result<Seq<SpecToken>, int>) -> Result<
    Seq<SpecToken>,
    int,
> {
    match rest {
        Ok(ts) => Ok(prefix + ts),
        Err(e) => Err(e),
    }
}

/// Decides whether a character is an ASCII decimal digit.
pub fn char_is_digit(c: char) -> (b: bool)
    ensures
        b == is_digit_char(c),
{
    let v = c as u32;
    48 <= v && v <= 57
}

/// Decides whether a character is an ASCII letter.
pub fn char_is_alpha(c: char) -> (b: bool)
    ensures
        b == is_alpha_char(c),
{
    let v = c as u32;
    (65 <= v && v <= 90) || (97 <= v && v <= 122)
}

/// Decides whether a character is an ASCII letter or digit.
pub fn char_is_alnum(c: char) -> (b: bool)
    ensures
        b == is_alnum_char(c),
{
    char_is_digit(c) || char_is_alpha(c)
}

/// A cursor over an expression string that hands out one token at a
/// time, consuming the longest match at its current offset.
pub struct TokenIterator<'a> {
    pub expr: &'a str,
    pub offset: usize,
}

impl<'a> TokenIterator<'a> {
    /// The cursor never points past the end of the string.
    pub open spec fn wf(&self) -> bool {
        self.offset <= self.expr@.len()
    }

    /// A fresh cursor at the start of the string.
    pub fn new(expr: &'a str) -> (r: Self)
        ensures
            r.expr@ == expr@,
            r.offset == 0,
            r.wf(),
    {
        TokenIterator { expr, offset: 0 }
    }

    /// Consumes and returns the token at the current offset, or returns
    /// `None` — leaving the offset unchanged — when no token starts
    /// there (end of input, an unrecognized character, or an oversized
    /// integer literal).
    pub fn next(&mut self) -> (r: Option<Token>)
        requires
            old(self).wf(),
        ensures
            final(self).expr == old(self).expr,
            final(self).wf(),
            (match spec_tok_at(old(self).expr@, old(self).offset as int) {
                Some((t, j)) => r matches Some(tok) && tok.deep_view() == t
                    && final(self).offset == j,
                None => r is None && final(self).offset == old(self).offset,
            }),
    {
        let ghost s = self.expr@;
        let n = self.expr.unicode_len();
        if self.offset >= n {
            return None;
        }
        let c = self.expr.get_char(self.offset);
        if c == '+' {
            self.offset = self.offset + 1;
            Some(Token::Operator(Operator::Sum))
        } else if c == '-' {
            self.offset = self.offset + 1;
            Some(Token::Operator(Operator::Sub))
        } else if c == '*' {
            self.offset = self.offset + 1;
            Some(Token::Operator(Operator::Mul))
        } else if c == '/' {
            self.offset = self.offset + 1;
            Some(Token::Operator(Operator::Div))
        } else if c == '(' {
            self.offset = self.offset + 1;
            Some(Token::BracketOpen)
        } else if c == ')' {
            self.offset = self.offset + 1;
            Some(Token::BracketClose)
        } else if char_is_digit(c) {
            let start = self.offset;
            let mut end = start + 1;
            while end < n && char_is_digit(self.expr.get_char(end))
                invariant
                    s == self.expr@,
                    n == s.len(),
                    start < end <= n,
                    forall|k: int| start <= k < end ==> is_digit_char(s[k]),
                decreases n - end,
            {
                end = end + 1;
            }
            proof {
                lemma_digit_run_exact(s, start as int, end as int);
            }
            let ghost run = s.subrange(start as int, end as int);
            let mut val: i32 = 0;
            let mut k = start;
            while k < end
                invariant
                    s == self.expr@,
                    n == s.len(),
                    start <= k <= end <= n,
                    forall|j: int| start <= j < end ==> is_digit_char(s[j]),
                    run == s.subrange(start as int, end as int),
                    digit_run_len(s, start as int) == end - start,
                    val == digits_val(s.subrange(start as int, k as int)),
                    val >= 0,
                    self.offset == start,
                    self.expr == old(self).expr,
                    old(self).offset == start,
                decreases end - k,
            {
                let d = (self.expr.get_char(k) as u32) - 48;
                let ghost prev = s.subrange(start as int, k as int);
                let ghost cur = s.subrange(start as int, k as int + 1);
                proof {
                    assert(cur.drop_last() =~= prev);
                    assert(cur.last() == s[k as int]);
                }
                let step = match val.checked_mul(10) {
                    Some(v10) => v10.checked_add(d as i32),
                    None => None,
                };
                match step {
                    Some(v) => {
                        val = v;
                        k = k + 1;
                    },
                    None => {
                        // The literal's full value only grows with more
                        // digits, so the whole run is out of range and no
                        // token starts here.
                        proof {
                            assert(digits_val(cur) > i32::MAX);
                            lemma_digits_val_nonneg(cur);
                            assert(run.subrange(0, k as int + 1 - start) =~= cur);
                            lemma_digits_val_prefix(run, k as int + 1 - start);
                        }
                        return None;
                    },
                }
            }
            proof {
                assert(run =~= s.subrange(start as int, end as int));
            }
            self.offset = end;
            Some(Token::Operand(Operand::Value(val)))
        } else if char_is_alpha(c) {
            let start = self.offset;
            let mut end = start + 1;
            while end < n && char_is_alnum(self.expr.get_char(end))
                invariant
                    s == self.expr@,
                    n == s.len(),
                    start < end <= n,
                    forall|k: int| start <= k < end ==> is_alnum_char(s[k]),
                decreases n - end,
            {
                end = end + 1;
            }
            proof {
                lemma_alnum_run_exact(s, start as int, end as int);
            }
            let name = self.expr.substring_char(start, end);
            self.offset = end;
            Some(Token::Operand(Operand::Variable(String::from_str(name))))
        } else {
            None
        }
    }
}

/// Tokenizes a whole expression string: returns the full token sequence
/// when scanning reaches the end of the string, and `LexError` with the
/// stuck offset when it does not.
pub fn tokenize(expr: &str) -> (r: Result<Vec<Token>, ExprError>)
    ensures
        (match spec_tokenize(expr@) {
            Ok(ts) => r matches Ok(v) && v.deep_view() == ts,
            Err(off) => r matches Err(e) && e == ExprError::LexError(off as usize),
        }),
{
    let ghost s = expr@;
    let mut it = TokenIterator::new(expr);
    let mut out: Vec<Token> = Vec::new();
    proof {
        match spec_tokenize_from(s, 0) {
            Ok(ts) => {
                assert(Seq::<SpecToken>::empty() + ts =~= ts);
            },
            Err(_) => {},
        }
        assert(out.deep_view() =~= Seq::<SpecToken>::empty());
    }
    loop
        invariant
            expr@ == s,
            it.expr@ == s,
            it.wf(),
            spec_tokenize(s) == tok_concat(
                out.deep_view(),
                spec_tokenize_from(s, it.offset as int),
            ),
        decreases s.len() - it.offset,
    {
        let ghost i = it.offset as int;
        let ghost out0 = out.deep_view();
        match it.next() {
            Some(tok) => {
                proof {
                    lemma_tok_at_advance(s, i);
                }
                let ghost j = it.offset as int;
                out.push(tok);
                proof {
                    let t = spec_tok_at(s, i)->Some_0.0;
                    assert(out.deep_view() =~= out0.push(t));
                    match spec_tokenize_from(s, j) {
                        Ok(rest) => {
                            assert(out0 + (seq![t] + rest) =~= out0.push(t) + rest);
                        },
                        Err(_) => {},
                    }
                }
            },
            None => {
                let len = it.expr.unicode_len();
                if it.offset == len {
                    proof {
                        assert(out.deep_view() + Seq::<SpecToken>::empty() =~= out.deep_view());
                    }
                    return Ok(out);
                } else {
                    return Err(ExprError::LexError(it.offset));
                }
            },
        }
    }
}

} // verus!
