//! The postfix evaluator: runs a postfix token sequence against a
//! concrete list of variable values with an integer value stack.

use vstd::prelude::*;

use crate::error::ExprError;
use crate::token::apply_op;
use crate::token::var_count;
use crate::token::lemma_var_count_append;
use crate::token::lemma_var_count_singleton;
use crate::token::Operand;
use crate::token::SpecToken;
use crate::token::Token;

verus! {

/// One left-to-right pass of the stack machine over the remaining
/// tokens, given the variable values, the cursor into them, and the
/// current value stack.  A literal pushes its value; a variable pushes
/// the value at the cursor and advances it; an operator pops the right
/// operand, then the left, and pushes the applied result; brackets are
/// passed over.  The pass stops at an operator with fewer than two
/// operands available, and on the first arithmetic failure.
pub open spec fn eval_from(
    ts: Seq<SpecToken>,
    vars: Seq<i32>,
    cur: int,
    stack: Seq<i32>,
) -> Result<(Seq<i32>, int), ExprError>
    decreases ts.len(),
{
    if ts.len() == 0 {
        Ok((stack, cur))
    } else {
        let rest = ts.drop_first();
        match ts[0] {
            SpecToken::Value(x) => eval_from(rest, vars, cur, stack.push(x)),
            SpecToken::Var(_) => eval_from(rest, vars, cur + 1, stack.push(vars[cur])),
            SpecToken::Op(op) => if stack.len() < 2 {
                Err(ExprError::MalformedExpression)
            } else {
                let right = stack.last();
                let left = stack[stack.len() - 2];
                match apply_op(op, left, right) {
                    Err(e) => Err(e),
                    Ok(v) => eval_from(rest, vars, cur, stack.drop_last().drop_last().push(v)),
                }
            },
            _ => eval_from(rest, vars, cur, stack),
        }
    }
}

/// What evaluating a postfix sequence against a list of variable values
/// yields: the single value left on the stack, `MalformedExpression`
/// when anything but one value is left (or an operator lacked
/// operands), or the first arithmetic failure.
pub open spec fn spec_eval(ts: Seq<SpecToken>, vars: Seq<i32>) -> Result<i32, ExprError> {
    match eval_from(ts, vars, 0, Seq::empty()) {
        Err(e) => Err(e),
        Ok((stack, _)) => if stack.len() == 1 {
            Ok(stack[0])
        } else {
            Err(ExprError::MalformedExpression)
        },
    }
}

/// Evaluates a postfix token sequence against one concrete value per
/// variable occurrence, consumed in left-to-right occurrence order.
pub fn calc(tokens: &Vec<Token>, variables: &Vec<i32>) -> (r: Result<i32, ExprError>)
    requires
        variables@.len() == var_count(tokens.deep_view()),
    ensures
        r == spec_eval(tokens.deep_view(), variables@),
{
    let ghost ts = tokens.deep_view();
    let n = tokens.len();
    let vn = variables.len();
    let mut i: usize = 0;
    let mut stack: Vec<i32> = Vec::new();
    let mut k: usize = 0;
    proof {
        assert(ts.subrange(0, n as int) =~= ts);
        assert(ts.subrange(0, 0) =~= Seq::<SpecToken>::empty());
        assert(stack@ =~= Seq::<i32>::empty());
    }
    while k < n
        invariant
            ts == tokens.deep_view(),
            n == tokens.len(),
            ts.len() == n,
            k <= n,
            vn == variables@.len(),
            i <= vn,
            variables@.len() == var_count(ts),
            i == var_count(ts.subrange(0, k as int)),
            eval_from(ts, variables@, 0, Seq::empty()) == eval_from(
                ts.subrange(k as int, n as int),
                variables@,
                i as int,
                stack@,
            ),
        decreases n - k,
    {
        let ghost remaining = ts.subrange(k as int, n as int);
        let ghost rest = ts.subrange(k as int + 1, n as int);
        let ghost done = ts.subrange(0, k as int);
        proof {
            assert(remaining[0] == ts[k as int]);
            assert(remaining.drop_first() =~= rest);
            assert(ts.subrange(0, k as int + 1) =~= done + seq![ts[k as int]]);
            lemma_var_count_append(done, seq![ts[k as int]]);
            lemma_var_count_singleton(ts[k as int]);
            assert(done + remaining =~= ts);
            lemma_var_count_append(done, remaining);
        }
        match &tokens[k] {
            Token::Operand(opnd) => {
                let val = match opnd {
                    Operand::Value(x) => *x,
                    Operand::Variable(_) => {
                        proof {
                            assert(ts[k as int] is Var);
                            assert(var_count(remaining) >= 1);
                            assert(i < variables@.len());
                        }
                        let v = variables[i];
                        i = i + 1;
                        v
                    },
                };
                stack.push(val);
            },
            Token::Operator(op) => {
                let right = match stack.pop() {
                    Some(v) => v,
                    None => {
                        return Err(ExprError::MalformedExpression);
                    },
                };
                let left = match stack.pop() {
                    Some(v) => v,
                    None => {
                        return Err(ExprError::MalformedExpression);
                    },
                };
                match op.calc(left, right) {
                    Ok(v) => {
                        stack.push(v);
                    },
                    Err(e) => {
                        return Err(e);
                    },
                }
            },
            _ => {},
        }
        k = k + 1;
    }
    proof {
        assert(ts.subrange(n as int, n as int) =~= Seq::<SpecToken>::empty());
    }
    if stack.len() == 1 {
        Ok(stack[0])
    } else {
        Err(ExprError::MalformedExpression)
    }
}

} // verus!
