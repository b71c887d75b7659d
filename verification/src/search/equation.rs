//! Equations: an expression in postfix order, with its cost and its value.

use vstd::prelude::*;
use vstd::string::*;

use crate::search::binary_op::BinaryOp;
use crate::search::number::{
    digit_of, is_digit, is_literal, literal_tokens, literal_value, nearest_bits,
};
use crate::search::unary_op::UnaryOp;
use crate::search::{Cost, Token, Value};

verus! {

/// What is known of one expression: the tokens of the expression in postfix
/// order (the operands before the operator that takes them), the sum of the
/// costs of its operators, and the value that it has.
#[derive(Debug)]
pub struct Equation {
    pub tokens: Vec<Token>,
    pub cost: Cost,
    pub value: Value,
}

/// An equation as a mathematical value.
pub struct EquationView {
    pub tokens: Seq<Token>,
    pub cost: nat,
    pub value: Value,
}

impl View for Equation {
    type V = EquationView;

    open spec fn view(&self) -> EquationView {
        EquationView { tokens: self.tokens@, cost: self.cost as nat, value: self.value }
    }
}

impl EquationView {
    /// The equation of the literal `digits`.
    pub open spec fn literal(digits: Seq<char>) -> EquationView {
        EquationView {
            tokens: literal_tokens(digits),
            cost: 0,
            value: literal_value(digits),
        }
    }

    /// This equation under a unary operator with the given token and cost,
    /// where the operator's rule gave `value`.
    pub open spec fn extend(self, token: Token, cost: nat, value: Value) -> EquationView {
        EquationView { tokens: self.tokens.push(token), cost: self.cost + cost, value }
    }

    /// This equation and `right` under a binary operator with the given token
    /// and cost, where the operator's rule gave `value`.
    pub open spec fn combine(
        self,
        right: EquationView,
        token: Token,
        cost: nat,
        value: Value,
    ) -> EquationView {
        EquationView {
            tokens: (self.tokens + right.tokens).push(token),
            cost: self.cost + right.cost + cost,
            value,
        }
    }
}

impl Clone for Equation {
    fn clone(&self) -> (copy: Equation)
        ensures
            copy@ == self@,
    {
        let mut tokens: Vec<Token> = Vec::new();
        tokens.extend_from_slice(self.tokens.as_slice());
        assert(tokens@ =~= self.tokens@);
        Equation { tokens, cost: self.cost, value: self.value }
    }
}

impl Equation {
    /// Applies a unary operator to an equation. Where the operator's rule
    /// gives no value, there is no equation.
    pub fn apply_unary<F: Fn(Value) -> Option<Value>>(e: &Equation, op: &UnaryOp<F>) -> (r: Option<
        Equation,
    >)
        requires
            op.is_rule(),
            e.cost + op.cost <= Cost::MAX,
        ensures
            match op.extension(e@) {
                Some(x) => r matches Some(y) && y@ == x,
                None => r is None,
            },
            call_ensures(
                op.apply,
                (e.value,),
                match r {
                    Some(y) => Some(y.value),
                    None => None,
                },
            ),
    {
        match op.apply(e.value) {
            Some(value) => {
                let mut tokens: Vec<Token> = Vec::new();
                tokens.extend_from_slice(e.tokens.as_slice());
                tokens.push(op.token);
                assert(tokens@ =~= e.tokens@.push(op.token));
                Some(Equation { tokens, cost: e.cost + op.cost as Cost, value })
            },
            None => None,
        }
    }

    /// Applies a binary operator to two equations, the left one first. Where
    /// the operator's rule gives no value, there is no equation.
    pub fn apply_binary<F: Fn(Value, Value) -> Option<Value>>(
        e1: &Equation,
        e2: &Equation,
        op: &BinaryOp<F>,
    ) -> (r: Option<Equation>)
        requires
            op.is_rule(),
            e1.cost + e2.cost + op.cost <= Cost::MAX,
        ensures
            match op.combination(e1@, e2@) {
                Some(x) => r matches Some(y) && y@ == x,
                None => r is None,
            },
            call_ensures(
                op.apply,
                (e1.value, e2.value),
                match r {
                    Some(y) => Some(y.value),
                    None => None,
                },
            ),
    {
        match op.apply(e1.value, e2.value) {
            Some(value) => {
                let mut tokens: Vec<Token> = Vec::new();
                tokens.extend_from_slice(e1.tokens.as_slice());
                tokens.extend_from_slice(e2.tokens.as_slice());
                tokens.push(op.token);
                assert(tokens@ =~= (e1.tokens@ + e2.tokens@).push(op.token));
                Some(Equation { tokens, cost: e1.cost + e2.cost + op.cost as Cost, value })
            },
            None => None,
        }
    }

    /// The equation of a literal: the digits as tokens, at no cost, with the
    /// number nearest to the integer that the digits read as for its value.
    pub fn from_numbers(numbers: &str) -> (e: Equation)
        requires
            is_literal(numbers@),
        ensures
            e@ == EquationView::literal(numbers@),
    {
        let bytes = numbers.as_bytes();
        proof {
            assert(is_ascii(numbers)) by {
                assert forall|i: int| 0 <= i < numbers@.len() implies '\0' <= #[trigger] numbers@[i]
                    <= '\u{7f}' by {
                    assert(is_digit(numbers@[i]));
                }
            }
            is_ascii_spec_bytes(numbers);
        }
        let mut tokens: Vec<Token> = Vec::new();
        let mut i: usize = 0;
        while i < bytes.len()
            invariant
                i <= bytes.len(),
                bytes@.len() == numbers@.len(),
                forall|k: int| 0 <= k < bytes@.len() ==> bytes@[k] == numbers@[k] as u8,
                is_literal(numbers@),
                tokens@ == literal_tokens(numbers@.take(i as int)),
            decreases bytes.len() - i,
        {
            let d: u8 = bytes[i] - 0x30;
            proof {
                assert(is_digit(numbers@[i as int]));
                assert(d == digit_of(numbers@[i as int]));
                assert(literal_tokens(numbers@.take(i + 1)) =~= literal_tokens(
                    numbers@.take(i as int),
                ).push(
                    if i == 0 {
                        (0xe0 + d) as Token
                    } else {
                        (0xf0 + d) as Token
                    },
                ));
            }
            if i == 0 {
                tokens.push(0xe0 + d);
            } else {
                tokens.push(0xf0 + d);
            }
            i = i + 1;
        }
        proof {
            assert(numbers@.take(i as int) =~= numbers@);
        }
        Equation { tokens, cost: 0, value: nearest_bits(numbers) }
    }
}

} // verus!
