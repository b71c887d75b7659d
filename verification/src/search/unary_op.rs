//! Operators of one operand.

use vstd::prelude::*;

use crate::search::equation::EquationView;
use crate::search::{Token, Value};

verus! {

/// An operator of one operand: its token, what it costs to use, and its rule.
///
/// The rule takes a value and gives the operator's result, or nothing where
/// the operator does not apply to that value.
#[derive(Debug, Clone, Copy)]
pub struct UnaryOp<F> {
    /// The token that stands for the operator in an equation.
    pub token: Token,
    /// What one use of the operator costs.
    pub cost: u8,
    /// The rule.
    pub apply: F,
}

impl<F: Fn(Value) -> Option<Value>> UnaryOp<F> {
    /// Whether the rule answers for every value, and for each value always the
    /// same.
    pub open spec fn is_rule(&self) -> bool {
        &&& forall|v: Value| #[trigger] call_requires(self.apply, (v,))
        &&& forall|v: Value, a: Option<Value>, b: Option<Value>|
            #[trigger] call_ensures(self.apply, (v,), a) && #[trigger] call_ensures(
                self.apply,
                (v,),
                b,
            ) ==> a == b
    }

    /// What the rule gives for `value`.
    pub open spec fn result(&self, value: Value) -> Option<Value> {
        choose|r: Option<Value>| call_ensures(self.apply, (value,), r)
    }

    /// The equation `e` under this operator, where the rule applies to the
    /// value of `e`.
    pub open spec fn extension(&self, e: EquationView) -> Option<EquationView> {
        match self.result(e.value) {
            Some(v) => Some(e.extend(self.token, self.cost as nat, v)),
            None => None,
        }
    }

    pub fn new(token: Token, cost: u8, apply: F) -> (op: Self)
        ensures
            op.token == token,
            op.cost == cost,
            op.apply == apply,
    {
        UnaryOp { token, cost, apply }
    }

    /// Asks the rule about `value`.
    pub fn apply(&self, value: Value) -> (r: Option<Value>)
        requires
            self.is_rule(),
        ensures
            r == self.result(value),
            call_ensures(self.apply, (value,), r),
    {
        (self.apply)(value)
    }
}

} // verus!
