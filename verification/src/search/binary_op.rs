//! Operators of two operands.

use vstd::prelude::*;

use crate::search::equation::EquationView;
use crate::search::{Token, Value};

verus! {

/// An operator of two operands: its token, what it costs to use, and its rule.
///
/// The rule takes the left and the right value and gives the operator's
/// result, or nothing where the operator does not apply to them.
#[derive(Debug)]
pub struct BinaryOp<F> {
    /// The token that stands for the operator in an equation.
    pub token: Token,
    /// What one use of the operator costs.
    pub cost: u8,
    /// The rule.
    pub apply: F,
}

impl<F: Fn(Value, Value) -> Option<Value>> BinaryOp<F> {
    /// Whether the rule answers for every pair of values, and for each pair
    /// always the same.
    pub open spec fn is_rule(&self) -> bool {
        &&& forall|l: Value, r: Value| #[trigger] call_requires(self.apply, (l, r))
        &&& forall|l: Value, r: Value, a: Option<Value>, b: Option<Value>|
            #[trigger] call_ensures(self.apply, (l, r), a) && #[trigger] call_ensures(
                self.apply,
                (l, r),
                b,
            ) ==> a == b
    }

    /// What the rule gives for `lhs` and `rhs`.
    pub open spec fn result(&self, lhs: Value, rhs: Value) -> Option<Value> {
        choose|r: Option<Value>| call_ensures(self.apply, (lhs, rhs), r)
    }

    /// The equations `left` and `right` under this operator, where the rule
    /// applies to their values.
    pub open spec fn combination(&self, left: EquationView, right: EquationView) -> Option<
        EquationView,
    > {
        match self.result(left.value, right.value) {
            Some(v) => Some(left.combine(right, self.token, self.cost as nat, v)),
            None => None,
        }
    }

    pub fn new(token: Token, cost: u8, apply: F) -> (op: Self)
        ensures
            op.token == token,
            op.cost == cost,
            op.apply == apply,
    {
        BinaryOp { token, cost, apply }
    }

    /// Asks the rule about `lhs` and `rhs`.
    pub fn apply(&self, lhs: Value, rhs: Value) -> (r: Option<Value>)
        requires
            self.is_rule(),
        ensures
            r == self.result(lhs, rhs),
            call_ensures(self.apply, (lhs, rhs), r),
    {
        (self.apply)(lhs, rhs)
    }
}

} // verus!
