//! The shunting-yard converter: turns an infix token sequence into an
//! equivalent postfix (Reverse Polish) sequence, respecting operator
//! precedence and grouping.

use vstd::prelude::*;

use crate::error::ExprError;
use crate::token::op_prec;
use crate::token::var_count;
use crate::token::Operator;
use crate::token::SpecToken;
use crate::token::Token;

verus! {

/// An entry of the converter's holding area: an operator awaiting
/// output, or an open bracket marking a group.
#[derive(Debug, Clone, Copy, PartialEq, Eq, Structural)]
pub enum StackItem {
    Op(Operator),
    Open,
}

/// Operators rendered back as tokens, in the given order.
pub open spec fn ops_toks(ops: Seq<Operator>) -> Seq<SpecToken> {
    ops.map_values(|q: Operator| SpecToken::Op(q))
}

/// What popping every operator of precedence at least `p` off the top
/// of the holding area yields: the popped operators, topmost first, and
/// the remaining holding area.  Popping stops at an open bracket or at
/// an operator of lower precedence.
pub open spec fn pop_ge(stack: Seq<StackItem>, p: u32) -> (Seq<Operator>, Seq<StackItem>)
    decreases stack.len(),
{
    if stack.len() == 0 {
        (Seq::empty(), stack)
    } else {
        match stack.last() {
            StackItem::Open => (Seq::empty(), stack),
            StackItem::Op(q) => if op_prec(q) >= p {
                let r = pop_ge(stack.drop_last(), p);
                (seq![q] + r.0, r.1)
            } else {
                (Seq::empty(), stack)
            },
        }
    }
}

/// What popping down to the nearest open bracket yields: the popped
/// operators, topmost first, and the holding area with that bracket
/// discarded; `None` when no open bracket is present.
pub open spec fn pop_to_open(stack: Seq<StackItem>) -> Option<(Seq<Operator>, Seq<StackItem>)>
    decreases stack.len(),
{
    if stack.len() == 0 {
        None
    } else {
        match stack.last() {
            StackItem::Open => Some((Seq::empty(), stack.drop_last())),
            StackItem::Op(q) => match pop_to_open(stack.drop_last()) {
                None => None,
                Some(r) => Some((seq![q] + r.0, r.1)),
            },
        }
    }
}

/// What emptying the holding area at end of input yields: the remaining
/// operators, topmost first, or `None` when an open bracket was never
/// closed.
pub open spec fn drain_ops(stack: Seq<StackItem>) -> Option<Seq<Operator>>
    decreases stack.len(),
{
    if stack.len() == 0 {
        Some(Seq::empty())
    } else {
        match stack.last() {
            StackItem::Open => None,
            StackItem::Op(q) => match drain_ops(stack.drop_last()) {
                None => None,
                Some(o) => Some(seq![q] + o),
            },
        }
    }
}

/// One shunting-yard pass over the remaining tokens `ts`, given the
/// current holding area and the output produced so far: operands go
/// straight to the output; an operator first pops every operator of
/// precedence at least its own; an open bracket is pushed; a close
/// bracket pops down to the matching open bracket.  At end of input the
/// holding area is drained.  `UnbalancedParentheses` reports a close
/// bracket with no matching open bracket, or an open bracket still held
/// at end of input.
pub open spec fn shunt_from(
    ts: Seq<SpecToken>,
    stack: Seq<StackItem>,
    out: Seq<SpecToken>,
) -> Result<Seq<SpecToken>, ExprError>
    decreases ts.len(),
{
    if ts.len() == 0 {
        match drain_ops(stack) {
            None => Err(ExprError::UnbalancedParentheses),
            Some(ops) => Ok(out + ops_toks(ops)),
        }
    } else {
        let t = ts[0];
        let rest = ts.drop_first();
        match t {
            SpecToken::Op(op) => {
                let pr = pop_ge(stack, op_prec(op));
                shunt_from(rest, pr.1.push(StackItem::Op(op)), out + ops_toks(pr.0))
            },
            SpecToken::Open => shunt_from(rest, stack.push(StackItem::Open), out),
            SpecToken::Close => match pop_to_open(stack) {
                None => Err(ExprError::UnbalancedParentheses),
                Some(pr) => shunt_from(rest, pr.1, out + ops_toks(pr.0)),
            },
            _ => shunt_from(rest, stack, out.push(t)),
        }
    }
}

/// The postfix form of a full infix token sequence.
pub open spec fn spec_to_postfix(ts: Seq<SpecToken>) -> Result<Seq<SpecToken>, ExprError> {
    shunt_from(ts, Seq::empty(), Seq::empty())
}

/// Rendered operators hold no variable occurrences.
pub proof fn lemma_ops_toks_no_vars(ops: Seq<Operator>)
    ensures
        var_count(ops_toks(ops)) == 0,
    decreases ops.len(),
{
    if ops.len() > 0 {
        assert(ops_toks(ops).drop_first() =~= ops_toks(ops.drop_first()));
        lemma_ops_toks_no_vars(ops.drop_first());
    }
}

/// Conversion to postfix form keeps every variable occurrence: the
/// output holds exactly the occurrences of the remaining input and of
/// the output produced so far.
pub proof fn lemma_shunt_var_count(ts: Seq<SpecToken>, stack: Seq<StackItem>, out: Seq<SpecToken>)
    requires
        shunt_from(ts, stack, out) is Ok,
    ensures
        var_count(shunt_from(ts, stack, out)->Ok_0) == var_count(ts) + var_count(out),
    decreases ts.len(),
{
    if ts.len() == 0 {
        let ops = drain_ops(stack)->Some_0;
        lemma_ops_toks_no_vars(ops);
        crate::token::lemma_var_count_append(out, ops_toks(ops));
    } else {
        let t = ts[0];
        let rest = ts.drop_first();
        match t {
            SpecToken::Op(op) => {
                let pr = pop_ge(stack, op_prec(op));
                lemma_ops_toks_no_vars(pr.0);
                crate::token::lemma_var_count_append(out, ops_toks(pr.0));
                lemma_shunt_var_count(rest, pr.1.push(StackItem::Op(op)), out + ops_toks(pr.0));
            },
            SpecToken::Open => {
                lemma_shunt_var_count(rest, stack.push(StackItem::Open), out);
            },
            SpecToken::Close => {
                let pr = pop_to_open(stack)->Some_0;
                lemma_ops_toks_no_vars(pr.0);
                crate::token::lemma_var_count_append(out, ops_toks(pr.0));
                lemma_shunt_var_count(rest, pr.1, out + ops_toks(pr.0));
            },
            _ => {
                assert(out.push(t) =~= out + seq![t]);
                crate::token::lemma_var_count_append(out, seq![t]);
                crate::token::lemma_var_count_singleton(t);
                lemma_shunt_var_count(rest, stack, out.push(t));
            },
        }
    }
}

/// A full conversion keeps exactly the input's variable occurrences.
pub proof fn lemma_postfix_var_count(ts: Seq<SpecToken>)
    requires
        spec_to_postfix(ts) is Ok,
    ensures
        var_count(spec_to_postfix(ts)->Ok_0) == var_count(ts),
{
    lemma_shunt_var_count(ts, Seq::empty(), Seq::empty());
}

/// Converts an infix token sequence to postfix form with the
/// shunting-yard algorithm, or reports the unbalanced parentheses that
/// prevent it.
pub fn infix_to_postfix(tokens: &Vec<Token>) -> (r: Result<Vec<Token>, ExprError>)
    ensures
        (match spec_to_postfix(tokens.deep_view()) {
            Ok(post) => r matches Ok(v) && v.deep_view() == post,
            Err(e) => r matches Err(e2) && e2 == e,
        }),
{
    let ghost ts = tokens.deep_view();
    let mut result: Vec<Token> = Vec::new();
    let mut stack: Vec<StackItem> = Vec::new();
    proof {
        assert(ts.subrange(0, ts.len() as int) =~= ts);
        assert(result.deep_view() =~= Seq::<SpecToken>::empty());
        assert(stack@ =~= Seq::<StackItem>::empty());
    }
    let n = tokens.len();
    let mut i: usize = 0;
    while i < n
        invariant
            ts == tokens.deep_view(),
            n == tokens.len(),
            ts.len() == n,
            i <= n,
            spec_to_postfix(ts) == shunt_from(
                ts.subrange(i as int, n as int),
                stack@,
                result.deep_view(),
            ),
        decreases n - i,
    {
        let ghost remaining = ts.subrange(i as int, n as int);
        let ghost rest = ts.subrange(i as int + 1, n as int);
        proof {
            assert(remaining[0] == ts[i as int]);
            assert(remaining.drop_first() =~= rest);
        }
        match &tokens[i] {
            Token::Operand(_) => {
                let ghost out0 = result.deep_view();
                result.push(tokens[i].clone());
                proof {
                    assert(result.deep_view() =~= out0.push(ts[i as int]));
                }
            },
            Token::Operator(op) => {
                let p = op.precedence();
                let ghost out0 = result.deep_view();
                let ghost stack0 = stack@;
                loop
                    invariant
                        p == op_prec(*op),
                        pop_ge(stack@, p).1 == pop_ge(stack0, p).1,
                        result.deep_view() + ops_toks(pop_ge(stack@, p).0) == out0 + ops_toks(
                            pop_ge(stack0, p).0,
                        ),
                    ensures
                        pop_ge(stack@, p).0 == Seq::<Operator>::empty(),
                        pop_ge(stack@, p).1 == stack@,
                        result.deep_view() + Seq::<SpecToken>::empty() == out0 + ops_toks(
                            pop_ge(stack0, p).0,
                        ),
                        pop_ge(stack0, p).1 == stack@,
                    decreases stack.len(),
                {
                    match stack.pop() {
                        None => {
                            break ;
                        },
                        Some(StackItem::Open) => {
                            stack.push(StackItem::Open);
                            break ;
                        },
                        Some(StackItem::Op(q)) => {
                            if p > q.precedence() {
                                stack.push(StackItem::Op(q));
                                break ;
                            } else {
                                let ghost mid = result.deep_view();
                                result.push(Token::Operator(q));
                                proof {
                                    assert(result.deep_view() =~= mid.push(SpecToken::Op(q)));
                                    assert(ops_toks(seq![q] + pop_ge(stack@, p).0) =~= seq![
                                        SpecToken::Op(q),
                                    ] + ops_toks(pop_ge(stack@, p).0));
                                    assert(mid.push(SpecToken::Op(q)) + ops_toks(
                                        pop_ge(stack@, p).0,
                                    ) =~= mid + (seq![SpecToken::Op(q)] + ops_toks(
                                        pop_ge(stack@, p).0,
                                    )));
                                }
                            }
                        },
                    }
                }
                proof {
                    assert(result.deep_view() + Seq::<SpecToken>::empty() =~= result.deep_view());
                }
                stack.push(StackItem::Op(*op));
            },
            Token::BracketOpen => {
                stack.push(StackItem::Open);
            },
            Token::BracketClose => {
                let ghost out0 = result.deep_view();
                let ghost stack0 = stack@;
                let mut found = false;
                loop
                    invariant_except_break
                        !found,
                        (match pop_to_open(stack0) {
                            None => pop_to_open(stack@) is None,
                            Some(pr) => pop_to_open(stack@) matches Some(cur) && pr.1 == cur.1
                                && result.deep_view() + ops_toks(cur.0) == out0 + ops_toks(pr.0),
                        }),
                    ensures
                        found ==> (pop_to_open(stack0) matches Some(pr) && pr.1 == stack@
                            && result.deep_view() == out0 + ops_toks(pr.0)),
                        !found ==> pop_to_open(stack0) is None,
                    decreases stack.len(),
                {
                    match stack.pop() {
                        None => {
                            break ;
                        },
                        Some(StackItem::Open) => {
                            found = true;
                            proof {
                                assert(result.deep_view() + ops_toks(
                                    Seq::<Operator>::empty(),
                                ) =~= result.deep_view());
                            }
                            break ;
                        },
                        Some(StackItem::Op(q)) => {
                            let ghost mid = result.deep_view();
                            result.push(Token::Operator(q));
                            proof {
                                assert(result.deep_view() =~= mid.push(SpecToken::Op(q)));
                                match pop_to_open(stack@) {
                                    None => {},
                                    Some(cur) => {
                                        assert(ops_toks(seq![q] + cur.0) =~= seq![
                                            SpecToken::Op(q),
                                        ] + ops_toks(cur.0));
                                        assert(mid.push(SpecToken::Op(q)) + ops_toks(cur.0) =~= mid
                                            + (seq![SpecToken::Op(q)] + ops_toks(cur.0)));
                                    },
                                }
                            }
                        },
                    }
                }
                if !found {
                    return Err(ExprError::UnbalancedParentheses);
                }
            },
        }
        i = i + 1;
    }
    proof {
        assert(ts.subrange(n as int, n as int) =~= Seq::<SpecToken>::empty());
    }
    let ghost out1 = result.deep_view();
    loop
        invariant
            ts == tokens.deep_view(),
            spec_to_postfix(ts) == (match drain_ops(stack@) {
                None => Err::<Seq<SpecToken>, ExprError>(ExprError::UnbalancedParentheses),
                Some(ops) => Ok(result.deep_view() + ops_toks(ops)),
            }),
        ensures
            ts == tokens.deep_view(),
            spec_to_postfix(ts) == Ok::<Seq<SpecToken>, ExprError>(result.deep_view())
                || spec_to_postfix(ts) == Err::<Seq<SpecToken>, ExprError>(
                ExprError::UnbalancedParentheses,
            ),
            spec_to_postfix(ts) is Err <==> stack@.len() > 0,
        decreases stack.len(),
    {
        match stack.pop() {
            None => {
                proof {
                    assert(result.deep_view() + ops_toks(Seq::<Operator>::empty())
                        =~= result.deep_view());
                }
                break ;
            },
            Some(StackItem::Open) => {
                stack.push(StackItem::Open);
                break ;
            },
            Some(StackItem::Op(q)) => {
                let ghost mid = result.deep_view();
                result.push(Token::Operator(q));
                proof {
                    assert(result.deep_view() =~= mid.push(SpecToken::Op(q)));
                    match drain_ops(stack@) {
                        None => {},
                        Some(o) => {
                            assert(ops_toks(seq![q] + o) =~= seq![SpecToken::Op(q)] + ops_toks(o));
                            assert(mid.push(SpecToken::Op(q)) + ops_toks(o) =~= mid + (seq![
                                SpecToken::Op(q),
                            ] + ops_toks(o)));
                        },
                    }
                }
            },
        }
    }
    if stack.len() > 0 {
        return Err(ExprError::UnbalancedParentheses);
    }
    Ok(result)
}

} // verus!
