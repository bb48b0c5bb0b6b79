//! The canonical textual form of a token sequence, and the proof that
//! re-tokenizing it reproduces the sequence.

use vstd::prelude::*;
use vstd::string::StrSliceExecFns;
use vstd::string::StringExecFns;

use crate::token::Operand;
use crate::token::Operator;
use crate::token::SpecToken;
use crate::token::Token;
use crate::tokenizer::digit_val;
use crate::tokenizer::digits_val;
use crate::tokenizer::is_alnum_char;
use crate::tokenizer::is_alpha_char;
use crate::tokenizer::is_digit_char;
use crate::tokenizer::lemma_alnum_run_exact;
use crate::tokenizer::lemma_digit_run_exact;
use crate::tokenizer::spec_tok_at;
use crate::tokenizer::spec_tokenize;
use crate::tokenizer::spec_tokenize_from;

verus! {

/// The digit character of a value between 0 and 9.
pub open spec fn digit_char_of(d: int) -> char {
    if d == 0 {
        '0'
    } else if d == 1 {
        '1'
    } else if d == 2 {
        '2'
    } else if d == 3 {
        '3'
    } else if d == 4 {
        '4'
    } else if d == 5 {
        '5'
    } else if d == 6 {
        '6'
    } else if d == 7 {
        '7'
    } else if d == 8 {
        '8'
    } else {
        '9'
    }
}

/// The canonical decimal digits of a non-negative value, most
/// significant first and without leading zeros.
pub open spec fn dec_digits(n: int) -> Seq<char>
    decreases n,
{
    if n < 0 {
        Seq::empty()
    } else if n < 10 {
        seq![digit_char_of(n)]
    } else {
        dec_digits(n / 10).push(digit_char_of(n % 10))
    }
}

/// The canonical text of one token.
pub open spec fn token_text(t: SpecToken) -> Seq<char> {
    match t {
        SpecToken::Op(Operator::Sum) => seq!['+'],
        SpecToken::Op(Operator::Sub) => seq!['-'],
        SpecToken::Op(Operator::Mul) => seq!['*'],
        SpecToken::Op(Operator::Div) => seq!['/'],
        SpecToken::Open => seq!['('],
        SpecToken::Close => seq![')'],
        SpecToken::Value(v) => dec_digits(v as int),
        SpecToken::Var(name) => name,
    }
}

/// The canonical text of a token sequence: each token's text in order.
pub open spec fn text_of(ts: Seq<SpecToken>) -> Seq<char>
    decreases ts.len(),
{
    if ts.len() == 0 {
        Seq::empty()
    } else {
        token_text(ts[0]) + text_of(ts.drop_first())
    }
}

/// A token the tokenizer itself could have produced: a non-negative
/// literal, or a variable named by a letter followed by letters and
/// digits.
pub open spec fn token_wf(t: SpecToken) -> bool {
    match t {
        SpecToken::Value(v) => v >= 0,
        SpecToken::Var(name) => name.len() >= 1 && is_alpha_char(name[0]) && (forall|k: int|
            1 <= k < name.len() ==> is_alnum_char(#[trigger] name[k])),
        _ => true,
    }
}

/// Every token of the sequence is well formed.
pub open spec fn tokens_wf(ts: Seq<SpecToken>) -> bool {
    forall|i: int| 0 <= i < ts.len() ==> token_wf(#[trigger] ts[i])
}

/// Two adjacent tokens whose texts do not merge when concatenated: a
/// literal must not be followed by a literal, and a variable must not
/// be followed by a literal or a variable.
pub open spec fn compatible(a: SpecToken, b: SpecToken) -> bool {
    &&& !(a is Value && b is Value)
    &&& !(a is Var && (b is Value || b is Var))
}

/// A token sequence whose canonical text is defined: every token is
/// well formed and no two adjacent tokens merge.
pub open spec fn renderable(ts: Seq<SpecToken>) -> bool {
    &&& tokens_wf(ts)
    &&& (forall|i: int| 0 <= i && i + 1 < ts.len() ==> compatible(#[trigger] ts[i], ts[i + 1]))
}

/// The canonical digits of a non-negative value are digits, nonempty,
/// and read back as that value.
pub proof fn lemma_dec_digits(n: int)
    requires
        n >= 0,
    ensures
        dec_digits(n).len() >= 1,
        forall|k: int| 0 <= k < dec_digits(n).len() ==> is_digit_char(#[trigger] dec_digits(n)[k]),
        digits_val(dec_digits(n)) == n,
    decreases n,
{
    if n < 10 {
        let ds = dec_digits(n);
        assert(ds.len() == 1);
        assert(ds.last() == digit_char_of(n));
        assert(ds.drop_last() =~= Seq::<char>::empty());
        assert(digits_val(ds) == digits_val(ds.drop_last()) * 10 + digit_val(ds.last()));
    } else {
        lemma_dec_digits(n / 10);
        let ds = dec_digits(n);
        assert(ds.drop_last() =~= dec_digits(n / 10));
        assert(digits_val(ds) == n / 10 * 10 + digit_val(digit_char_of(n % 10)));
    }
}

/// A well-formed token has nonempty text.
pub proof fn lemma_token_text_nonempty(t: SpecToken)
    requires
        token_wf(t),
    ensures
        token_text(t).len() >= 1,
{
    match t {
        SpecToken::Value(v) => {
            lemma_dec_digits(v as int);
        },
        _ => {},
    }
}

/// How another token's text begins: only a literal starts with a
/// digit, and only a literal or a variable starts with a letter or a
/// digit.
pub proof fn lemma_token_first_char(b: SpecToken)
    requires
        token_wf(b),
    ensures
        !(b is Value) ==> !is_digit_char(token_text(b)[0]),
        !(b is Value) && !(b is Var) ==> !is_alnum_char(token_text(b)[0]),
{
}

/// Re-tokenizing a canonical text from position `i` yields exactly the
/// tokens whose text stands there.
proof fn lemma_round_trip_from(s: Seq<char>, i: int, ts: Seq<SpecToken>)
    requires
        0 <= i <= s.len(),
        s.subrange(i, s.len() as int) == text_of(ts),
        renderable(ts),
    ensures
        spec_tokenize_from(s, i) == Ok::<Seq<SpecToken>, int>(ts),
    decreases ts.len(),
{
    let slen = s.len() as int;
    if ts.len() == 0 {
        assert(s.subrange(i, slen).len() == 0);
        assert(ts =~= Seq::<SpecToken>::empty());
    } else {
        let t0 = ts[0];
        let rest = ts.drop_first();
        let tt = token_text(t0);
        let len0 = tt.len() as int;
        let rt = text_of(rest);
        assert(token_wf(t0));
        lemma_token_text_nonempty(t0);
        assert(s.subrange(i, slen).len() == len0 + rt.len());
        let j = i + len0;
        assert(text_of(ts) == tt + rt);
        assert forall|x: int| 0 <= x < len0 implies s[i + x] == #[trigger] tt[x] by {
            assert(s.subrange(i, slen)[x] == s[i + x]);
            assert((tt + rt)[x] == tt[x]);
        }
        assert forall|y: int| 0 <= y < slen - j implies #[trigger] s.subrange(j, slen)[y] == rt[y] by {
            assert(s.subrange(j, slen)[y] == s[j + y]);
            assert(s.subrange(i, slen)[len0 + y] == s[j + y]);
            assert((tt + rt)[len0 + y] == rt[y]);
        }
        assert(s.subrange(j, slen) =~= rt);
        assert(forall|k: int| 0 <= k < rest.len() ==> token_wf(#[trigger] rest[k])) by {
            assert(forall|k: int| 0 <= k < rest.len() ==> #[trigger] rest[k] == ts[k + 1]);
        }
        assert forall|k: int| 0 <= k && k + 1 < rest.len() implies compatible(
            #[trigger] rest[k],
            rest[k + 1],
        ) by {
            assert(rest[k] == ts[k + 1]);
            assert(rest[k + 1] == ts[k + 2]);
            assert(compatible(ts[k + 1], ts[k + 2]));
        }
        // The character just past this token's text, if any, does not
        // extend the token: it opens the next token, which does not
        // merge with this one.
        if rest.len() > 0 {
            assert(token_wf(rest[0]));
            lemma_token_text_nonempty(rest[0]);
            assert(rt[0] == token_text(rest[0])[0]);
            assert(s[j] == rt[0]);
            assert(compatible(t0, rest[0]));
            lemma_token_first_char(rest[0]);
        } else {
            assert(j == slen);
        }
        match t0 {
            SpecToken::Value(v) => {
                lemma_dec_digits(v as int);
                assert forall|k: int| i <= k < j implies is_digit_char(#[trigger] s[k]) by {
                    assert(s[k] == tt[k - i]);
                    assert(tt[k - i] == dec_digits(v as int)[k - i]);
                    assert(is_digit_char(dec_digits(v as int)[k - i]));
                }
                if rest.len() > 0 {
                    assert(!is_digit_char(s[j]));
                }
                lemma_digit_run_exact(s, i, j);
                assert(s.subrange(i, j) =~= tt);
                assert(digits_val(s.subrange(i, j)) == v as int);
                assert(spec_tok_at(s, i) == Some((SpecToken::Value(v), j)));
            },
            SpecToken::Var(name) => {
                assert(s[i] == name[0]);
                assert forall|k: int| i <= k < j implies is_alnum_char(#[trigger] s[k]) by {
                    assert(s[k] == tt[k - i]);
                    if k > i {
                        assert(is_alnum_char(name[k - i]));
                    } else {
                        assert(is_alpha_char(name[0]));
                    }
                }
                if rest.len() > 0 {
                    assert(compatible(t0, rest[0]));
                    assert(!is_alnum_char(s[j]));
                }
                lemma_alnum_run_exact(s, i, j);
                assert(s.subrange(i, j) =~= name);
                assert(spec_tok_at(s, i) == Some((SpecToken::Var(name), j)));
            },
            _ => {
                assert(s[i] == tt[0]);
                assert(spec_tok_at(s, i) == Some((t0, j)));
            },
        }
        lemma_round_trip_from(s, j, rest);
        assert(spec_tokenize_from(s, i) == Ok::<Seq<SpecToken>, int>(seq![t0] + rest));
        assert(seq![t0] + rest =~= ts);
    }
}

/// The text of one digit between 0 and 9.
fn digit_str(d: u32) -> (r: &'static str)
    requires
        d < 10,
    ensures
        r@ == seq![digit_char_of(d as int)],
{
    proof {
        reveal_strlit("0");
        reveal_strlit("1");
        reveal_strlit("2");
        reveal_strlit("3");
        reveal_strlit("4");
        reveal_strlit("5");
        reveal_strlit("6");
        reveal_strlit("7");
        reveal_strlit("8");
        reveal_strlit("9");
    }
    let r = match d {
        0 => "0",
        1 => "1",
        2 => "2",
        3 => "3",
        4 => "4",
        5 => "5",
        6 => "6",
        7 => "7",
        8 => "8",
        _ => "9",
    };
    proof {
        assert(r@ =~= seq![digit_char_of(d as int)]);
    }
    r
}

/// The canonical decimal text of a value.
fn dec_string(n: u32) -> (r: String)
    ensures
        r@ == dec_digits(n as int),
    decreases n,
{
    if n < 10 {
        String::from_str(digit_str(n))
    } else {
        let mut s = dec_string(n / 10);
        s.append(digit_str(n % 10));
        proof {
            assert(dec_digits((n / 10) as int) + seq![digit_char_of((n % 10) as int)] =~= dec_digits(
                (n / 10) as int,
            ).push(digit_char_of((n % 10) as int)));
        }
        s
    }
}

/// The canonical text of one token.
pub fn token_text_str(t: &Token) -> (r: String)
    requires
        token_wf(t.deep_view()),
    ensures
        r@ == token_text(t.deep_view()),
{
    proof {
        reveal_strlit("+");
        reveal_strlit("-");
        reveal_strlit("*");
        reveal_strlit("/");
        reveal_strlit("(");
        reveal_strlit(")");
    }
    match t {
        Token::Operator(Operator::Sum) => {
            let r = String::from_str("+");
            proof {
                assert(r@ =~= seq!['+']);
            }
            r
        },
        Token::Operator(Operator::Sub) => {
            let r = String::from_str("-");
            proof {
                assert(r@ =~= seq!['-']);
            }
            r
        },
        Token::Operator(Operator::Mul) => {
            let r = String::from_str("*");
            proof {
                assert(r@ =~= seq!['*']);
            }
            r
        },
        Token::Operator(Operator::Div) => {
            let r = String::from_str("/");
            proof {
                assert(r@ =~= seq!['/']);
            }
            r
        },
        Token::BracketOpen => {
            let r = String::from_str("(");
            proof {
                assert(r@ =~= seq!['(']);
            }
            r
        },
        Token::BracketClose => {
            let r = String::from_str(")");
            proof {
                assert(r@ =~= seq![')']);
            }
            r
        },
        Token::Operand(Operand::Value(v)) => dec_string(*v as u32),
        Token::Operand(Operand::Variable(name)) => String::from_str(name.as_str()),
    }
}

/// The text of a sequence split grows token by token.
proof fn lemma_text_of_snoc(ts: Seq<SpecToken>, t: SpecToken)
    ensures
        text_of(ts.push(t)) == text_of(ts) + token_text(t),
    decreases ts.len(),
{
    if ts.len() == 0 {
        assert(ts.push(t)[0] == t);
        assert(ts.push(t).drop_first() =~= Seq::<SpecToken>::empty());
        assert(text_of(Seq::<SpecToken>::empty()) == Seq::<char>::empty());
        assert(text_of(ts.push(t)) == token_text(t) + Seq::<char>::empty());
        assert(token_text(t) + Seq::<char>::empty() =~= token_text(t));
        assert(text_of(ts) + token_text(t) =~= token_text(t));
    } else {
        assert(ts.push(t)[0] == ts[0]);
        assert(ts.push(t).drop_first() =~= ts.drop_first().push(t));
        lemma_text_of_snoc(ts.drop_first(), t);
        assert(token_text(ts[0]) + (text_of(ts.drop_first()) + token_text(t)) =~= (token_text(
            ts[0],
        ) + text_of(ts.drop_first())) + token_text(t));
    }
}

/// Renders a token sequence in its canonical textual form.
pub fn tokens_to_text(tokens: &Vec<Token>) -> (r: String)
    requires
        tokens_wf(tokens.deep_view()),
    ensures
        r@ == text_of(tokens.deep_view()),
{
    let ghost ts = tokens.deep_view();
    let mut s = String::new();
    let n = tokens.len();
    let mut k: usize = 0;
    proof {
        assert(ts.subrange(0, 0) =~= Seq::<SpecToken>::empty());
    }
    while k < n
        invariant
            ts == tokens.deep_view(),
            n == tokens.len(),
            ts.len() == n,
            k <= n,
            tokens_wf(ts),
            s@ == text_of(ts.subrange(0, k as int)),
        decreases n - k,
    {
        proof {
            assert(token_wf(ts[k as int]));
        }
        let piece = token_text_str(&tokens[k]);
        s.append(piece.as_str());
        proof {
            assert(ts.subrange(0, k as int + 1) =~= ts.subrange(0, k as int).push(ts[k as int]));
            lemma_text_of_snoc(ts.subrange(0, k as int), ts[k as int]);
        }
        k = k + 1;
    }
    proof {
        assert(ts.subrange(0, n as int) =~= ts);
    }
    s
}

/// Re-tokenizing the canonical text of a token sequence, where that
/// text is defined, reproduces the sequence exactly.
pub proof fn lemma_render_round_trip(ts: Seq<SpecToken>)
    requires
        renderable(ts),
    ensures
        spec_tokenize(text_of(ts)) == Ok::<Seq<SpecToken>, int>(ts),
{
    let s = text_of(ts);
    assert(s.subrange(0, s.len() as int) =~= s);
    lemma_round_trip_from(s, 0, ts);
}

} // verus!
