//! A small arithmetic-expression engine.
//!
//! The engine tokenizes an infix expression made of integer literals,
//! range-bound variables, the four binary operators and parentheses,
//! converts the token stream to postfix form with the shunting-yard
//! algorithm, evaluates the postfix form against a concrete list of
//! variable values, and enumerates every combination of variable values
//! implied by each variable occurrence's declared range.

use vstd::prelude::*;

pub mod error;
pub mod eval;
pub mod token;
pub mod postfix;
pub mod render;
pub mod tokenizer;
pub mod variants;

use crate::error::ExprError;
use crate::eval::spec_eval;
use crate::postfix::infix_to_postfix;
use crate::postfix::lemma_postfix_var_count;
use crate::postfix::spec_to_postfix;
use crate::token::SpecToken;
use crate::token::var_count;
use crate::tokenizer::spec_tokenize;
use crate::tokenizer::tokenize;
use crate::variants::admissible;
use crate::variants::get_variants;
use crate::variants::lemma_spec_bounds_len;
use crate::variants::lemma_variants_sound;
use crate::variants::spec_bounds;
use crate::variants::spec_variants;
use crate::variants::variable_bounds;
use crate::variants::variant_views;

verus! {

/// The results of evaluating one postfix sequence against each variant
/// in order, or the first evaluation failure.
pub open spec fn eval_all(post: Seq<SpecToken>, variants: Seq<Seq<i32>>) -> Result<
    Seq<i32>,
    ExprError,
>
    decreases variants.len(),
{
    if variants.len() == 0 {
        Ok(Seq::empty())
    } else {
        match spec_eval(post, variants[0]) {
            Err(e) => Err(e),
            Ok(v) => match eval_all(post, variants.drop_first()) {
                Err(e) => Err(e),
                Ok(vs) => Ok(seq![v] + vs),
            },
        }
    }
}

/// What running the whole engine on an expression yields: tokenize,
/// extract each variable occurrence's range bound, convert to postfix,
/// then evaluate once per enumerated variant; the first failure of any
/// stage is the result.
pub open spec fn spec_run(s: Seq<char>) -> Result<Seq<i32>, ExprError> {
    match spec_tokenize(s) {
        Err(off) => Err(ExprError::LexError(off as usize)),
        Ok(ts) => match spec_bounds(ts) {
            Err(e) => Err(e),
            Ok(bounds) => match spec_to_postfix(ts) {
                Err(e) => Err(e),
                Ok(post) => eval_all(post, spec_variants(bounds)),
            },
        },
    }
}

/// Lifts a result prefix over the evaluation of the remaining variants.
pub open spec fn results_concat(prefix: Seq<i32>, rest: Result<Seq<i32>, ExprError>) -> Result<
    Seq<i32>,
    ExprError,
> {
    match rest {
        Ok(vs) => Ok(prefix + vs),
        Err(e) => Err(e),
    }
}

/// Runs the whole engine on a whitespace-free expression string: one
/// result per enumerated variant, in enumeration order, or the first
/// error any stage reports.
pub fn run_expression(expr: &str) -> (r: Result<Vec<i32>, ExprError>)
    ensures
        (match spec_run(expr@) {
            Ok(vals) => r matches Ok(v) && v@ == vals,
            Err(e) => r matches Err(e2) && e2 == e,
        }),
{
    let tokens = match tokenize(expr) {
        Ok(t) => t,
        Err(e) => {
            return Err(e);
        },
    };
    let ghost ts = tokens.deep_view();
    let bounds = match variable_bounds(&tokens) {
        Ok(b) => b,
        Err(e) => {
            return Err(e);
        },
    };
    let post = match infix_to_postfix(&tokens) {
        Ok(p) => p,
        Err(e) => {
            return Err(e);
        },
    };
    let ghost pv = post.deep_view();
    let ghost sv = spec_variants(bounds@);
    proof {
        lemma_spec_bounds_len(ts);
        lemma_postfix_var_count(ts);
    }
    let variants = get_variants(bounds.as_slice());
    let mut results: Vec<i32> = Vec::new();
    let m = variants.len();
    let mut q: usize = 0;
    proof {
        assert(sv.subrange(0, sv.len() as int) =~= sv);
        assert(results@ =~= Seq::<i32>::empty());
        match eval_all(pv, sv) {
            Ok(vs) => {
                assert(Seq::<i32>::empty() + vs =~= vs);
            },
            Err(_) => {},
        }
    }
    while q < m
        invariant
            pv == post.deep_view(),
            variant_views(variants@) == sv,
            m == variants.len(),
            sv.len() == m,
            q <= m,
            var_count(pv) == bounds@.len(),
            sv == spec_variants(bounds@),
            spec_run(expr@) == results_concat(
                results@,
                eval_all(pv, sv.subrange(q as int, m as int)),
            ),
        decreases m - q,
    {
        let ghost remaining = sv.subrange(q as int, m as int);
        let ghost rest = sv.subrange(q as int + 1, m as int);
        proof {
            assert(remaining[0] == sv[q as int]);
            assert(remaining.drop_first() =~= rest);
            assert(variants@[q as int]@ == sv[q as int]);
            lemma_variants_sound(bounds@, q as int);
            assert(admissible(sv[q as int], bounds@));
        }
        match crate::eval::calc(&post, &variants[q]) {
            Ok(v) => {
                let ghost res0 = results@;
                results.push(v);
                proof {
                    match eval_all(pv, rest) {
                        Ok(vs) => {
                            assert(res0 + (seq![v as i32] + vs) =~= res0.push(v) + vs);
                        },
                        Err(_) => {},
                    }
                }
            },
            Err(e) => {
                return Err(e);
            },
        }
        q = q + 1;
    }
    proof {
        assert(sv.subrange(m as int, m as int) =~= Seq::<Seq<i32>>::empty());
        match eval_all(pv, sv) {
            Ok(_) => {
                assert(results@ + Seq::<i32>::empty() =~= results@);
            },
            Err(_) => {},
        }
    }
    Ok(results)
}

} // verus!
