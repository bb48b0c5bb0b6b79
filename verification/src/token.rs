//! The shared token vocabulary: operators, operands, tokens, and their
//! mathematical model.

use vstd::prelude::*;

use crate::error::ExprError;

verus! {

/// One of the four binary arithmetic operators.
#[derive(Debug, Clone, Copy, PartialEq, Eq, Structural)]
pub enum Operator {
    Mul,
    Sum,
    Sub,
    Div,
}

/// An expression operand: a literal integer value or a named variable.
#[derive(Debug, PartialEq, Eq)]
pub enum Operand {
    Value(i32),
    Variable(String),
}

/// A token of the expression language.
#[derive(Debug, PartialEq, Eq)]
pub enum Token {
    Operator(Operator),
    Operand(Operand),
    BracketOpen,
    BracketClose,
}

/// The mathematical model of a token: variable names become character
/// sequences, everything else is carried as plain data.
pub enum SpecToken {
    Op(Operator),
    Value(i32),
    Var(Seq<char>),
    Open,
    Close,
}

impl DeepView for Token {
    type V = SpecToken;

    open spec fn deep_view(&self) -> SpecToken {
        match self {
            Token::Operator(op) => SpecToken::Op(*op),
            Token::Operand(Operand::Value(x)) => SpecToken::Value(*x),
            Token::Operand(Operand::Variable(name)) => SpecToken::Var(name@),
            Token::BracketOpen => SpecToken::Open,
            Token::BracketClose => SpecToken::Close,
        }
    }
}

impl Clone for Token {
    /// Cloning a token preserves its model.
    fn clone(&self) -> (res: Self)
        ensures
            res.deep_view() == self.deep_view(),
    {
        match self {
            Token::Operator(op) => Token::Operator(*op),
            Token::Operand(Operand::Value(x)) => Token::Operand(Operand::Value(*x)),
            Token::Operand(Operand::Variable(name)) => Token::Operand(
                Operand::Variable(name.clone()),
            ),
            Token::BracketOpen => Token::BracketOpen,
            Token::BracketClose => Token::BracketClose,
        }
    }
}

/// The precedence level of an operator: multiplicative operators bind
/// tighter than additive ones.
pub open spec fn op_prec(op: Operator) -> u32 {
    match op {
        Operator::Mul | Operator::Div => 2,
        Operator::Sum | Operator::Sub => 1,
    }
}

/// Truncating (toward zero) integer division, the semantics of `/` on
/// Rust's signed machine integers.
pub open spec fn div_trunc(x: int, d: int) -> int {
    if x == 0 {
        0
    } else if x > 0 && d > 0 {
        x / d
    } else if x < 0 && d < 0 {
        (x * -1) / (d * -1)
    } else if x < 0 {
        ((x * -1) / d) * -1
    } else {
        (x / (d * -1)) * -1
    }
}

/// What applying an operator to two `i32` operands yields: the exact
/// mathematical result when it fits in `i32`, `DivisionByZero` for a
/// zero right operand of a division, `Overflow` otherwise.
pub open spec fn apply_op(op: Operator, left: i32, right: i32) -> Result<i32, ExprError> {
    match op {
        Operator::Sum => if left + right > i32::MAX || left + right < i32::MIN {
            Err(ExprError::Overflow)
        } else {
            Ok((left + right) as i32)
        },
        Operator::Sub => if left - right > i32::MAX || left - right < i32::MIN {
            Err(ExprError::Overflow)
        } else {
            Ok((left - right) as i32)
        },
        Operator::Mul => if left * right > i32::MAX || left * right < i32::MIN {
            Err(ExprError::Overflow)
        } else {
            Ok((left * right) as i32)
        },
        Operator::Div => if right == 0 {
            Err(ExprError::DivisionByZero)
        } else {
            let q = div_trunc(left as int, right as int);
            if q > i32::MAX || q < i32::MIN {
                Err(ExprError::Overflow)
            } else {
                Ok(q as i32)
            }
        },
    }
}

/// How many variable-operand tokens a token sequence holds; each such
/// occurrence consumes one value slot during evaluation.
pub open spec fn var_count(ts: Seq<SpecToken>) -> nat
    decreases ts.len(),
{
    if ts.len() == 0 {
        0
    } else {
        (match ts[0] {
            SpecToken::Var(_) => 1 as nat,
            _ => 0 as nat,
        }) + var_count(ts.drop_first())
    }
}

/// Variable occurrences add up across concatenation.
pub proof fn lemma_var_count_append(a: Seq<SpecToken>, b: Seq<SpecToken>)
    ensures
        var_count(a + b) == var_count(a) + var_count(b),
    decreases a.len(),
{
    if a.len() == 0 {
        assert(a + b =~= b);
    } else {
        assert((a + b).drop_first() =~= a.drop_first() + b);
        lemma_var_count_append(a.drop_first(), b);
    }
}

/// A one-token sequence holds one variable occurrence exactly when that
/// token is a variable.
pub proof fn lemma_var_count_singleton(t: SpecToken)
    ensures
        var_count(seq![t]) == (match t {
            SpecToken::Var(_) => 1 as nat,
            _ => 0 as nat,
        }),
{
    let s = seq![t];
    assert(s[0] == t);
    assert(s.drop_first() =~= Seq::<SpecToken>::empty());
    assert(var_count(Seq::<SpecToken>::empty()) == 0);
    assert(var_count(s) == (match s[0] {
        SpecToken::Var(_) => 1 as nat,
        _ => 0 as nat,
    }) + var_count(s.drop_first()));
}

impl Operator {
    /// The precedence level used by the shunting-yard conversion.
    pub fn precedence(&self) -> (r: u32)
        ensures
            r == op_prec(*self),
    {
        match self {
            Operator::Mul | Operator::Div => 2,
            Operator::Sum | Operator::Sub => 1,
        }
    }

    /// Applies the operator to two concrete operands.
    pub fn calc(&self, left: i32, right: i32) -> (r: Result<i32, ExprError>)
        ensures
            r == apply_op(*self, left, right),
    {
        match self {
            Operator::Sum => match left.checked_add(right) {
                Some(v) => Ok(v),
                None => Err(ExprError::Overflow),
            },
            Operator::Sub => match left.checked_sub(right) {
                Some(v) => Ok(v),
                None => Err(ExprError::Overflow),
            },
            Operator::Mul => match left.checked_mul(right) {
                Some(v) => Ok(v),
                None => Err(ExprError::Overflow),
            },
            Operator::Div => {
                if right == 0 {
                    Err(ExprError::DivisionByZero)
                } else {
                    match left.checked_div(right) {
                        Some(v) => Ok(v),
                        None => Err(ExprError::Overflow),
                    }
                }
            },
        }
    }
}

} // verus!
