//! Expressions as trees, and what it means for a knowledge to be the
//! knowledge of a digit string.

use vstd::prelude::*;

use crate::search::equation::EquationView;
use crate::search::knowledge::keyed_by_value;
use crate::search::model::costs_of;
use crate::search::number::is_literal;
use crate::search::{Searcher, Value};

verus! {

/// An expression: a literal, a unary operator on an expression, or a binary
/// operator on two. An operator is named by its place among the operators of
/// a searcher.
pub enum Expression {
    Literal(Seq<char>),
    Unary(int, Box<Expression>),
    Binary(int, Box<Expression>, Box<Expression>),
}

impl Expression {
    /// The digits of the expression, in the order in which they are written.
    pub open spec fn digits(self) -> Seq<char>
        decreases self,
    {
        match self {
            Expression::Literal(digits) => digits,
            Expression::Unary(_, inner) => inner.digits(),
            Expression::Binary(_, left, right) => left.digits() + right.digits(),
        }
    }
}

impl Expression {
    /// How many unary operators stand one upon the other at the head of the
    /// expression.
    pub open spec fn unary_chain(self) -> nat
        decreases self,
    {
        match self {
            Expression::Unary(_, inner) => 1 + inner.unary_chain(),
            _ => 0,
        }
    }
}

impl<U: Fn(Value) -> Option<Value>, B: Fn(Value, Value) -> Option<Value>> Searcher<U, B> {
    /// The equation of the expression `x`: its tokens in postfix order, the
    /// sum of the costs of its operators, and its value. There is none where
    /// a literal of `x` is no literal, where `x` names an operator that the
    /// searcher does not have, or where an operator of `x` does not apply to
    /// its operands.
    pub open spec fn equation_of(&self, x: Expression) -> Option<EquationView>
        decreases x,
    {
        match x {
            Expression::Literal(digits) => if is_literal(digits) {
                Some(EquationView::literal(digits))
            } else {
                None
            },
            Expression::Unary(o, inner) => match self.equation_of(*inner) {
                Some(e) => if 0 <= o < self.unary_ops@.len() {
                    self.unary_ops@[o].extension(e)
                } else {
                    None
                },
                None => None,
            },
            Expression::Binary(o, left, right) => match (
                self.equation_of(*left),
                self.equation_of(*right),
            ) {
                (Some(l), Some(r)) => if 0 <= o < self.binary_ops@.len() {
                    self.binary_ops@[o].combination(l, r)
                } else {
                    None
                },
                _ => None,
            },
        }
    }

    /// Whether the equation of `x` is known of the digits of `x` after so many
    /// rounds of unary operators: its value is reached then, at no less than
    /// its cost.
    #[verifier::opaque]
    pub open spec fn known_at(&self, x: Expression, round: nat) -> bool {
        &&& self.equation_of(x) is Some
        &&& self.costs_after(x.digits(), round).contains_key(self.equation_of(x)->0.value)
        &&& self.costs_after(x.digits(), round)[self.equation_of(x)->0.value] == self.equation_of(
            x,
        )->0.cost
    }

    /// Whether `x` is an expression that a search can hold after so many
    /// rounds of unary operators: a literal; or a binary operator on two
    /// expressions that a search holds, each of them known of its side when
    /// the search of that side has ended; or a unary operator on an
    /// expression that a search held after fewer rounds and that was known
    /// then. So no operand has more unary operators behind it than there are
    /// rounds.
    pub open spec fn built(&self, x: Expression, round: nat) -> bool
        decreases x,
    {
        match x {
            Expression::Literal(_) => true,
            Expression::Unary(_, inner) => exists|earlier: nat|
                earlier < round && self.built(*inner, earlier) && #[trigger] self.known_at(
                    *inner,
                    earlier,
                ),
            Expression::Binary(_, left, right) => {
                &&& self.built(*left, self.rounds as nat)
                &&& self.built(*right, self.rounds as nat)
                &&& self.known_at(*left, self.rounds as nat)
                &&& self.known_at(*right, self.rounds as nat)
            },
        }
    }

    /// Whether `e` is the equation of an expression that is written with
    /// exactly `digits`, in their order, and that a search can hold after so
    /// many rounds of unary operators.
    pub open spec fn expresses_by(&self, digits: Seq<char>, e: EquationView, round: nat) -> bool {
        exists|x: Expression| #[trigger]
            self.equation_of(x) == Some(e) && x.digits() == digits && self.built(x, round)
    }

    /// Whether `e` is the equation of an expression that is written with
    /// exactly `digits`, in their order, and that a search can hold at its
    /// end.
    pub open spec fn expresses(&self, digits: Seq<char>, e: EquationView) -> bool {
        self.expresses_by(digits, e, self.rounds as nat)
    }

    /// Whether `k` is what a search knows of `digits`: it holds the values
    /// that the search reaches, each with an equation at the least cost, and
    /// each equation is that of an expression written with `digits` as a
    /// search builds them.
    pub open spec fn knows(&self, digits: Seq<char>, k: Map<Value, EquationView>) -> bool {
        &&& keyed_by_value(k)
        &&& costs_of(k) == self.costs(digits)
        &&& forall|v: Value| #[trigger] k.contains_key(v) ==> self.expresses(digits, k[v])
    }

    /// Whether each entry of `memo` is what a search knows of its digits.
    pub open spec fn holds(&self, memo: Map<Seq<char>, Map<Value, EquationView>>) -> bool {
        forall|digits: Seq<char>| #[trigger]
            memo.contains_key(digits) ==> self.knows(digits, memo[digits])
    }

    /// The equation of a knowledge whose costs are those after so many rounds
    /// is known after so many rounds.
    pub proof fn lemma_known_at(
        &self,
        x: Expression,
        k: Map<Value, EquationView>,
        v: Value,
        round: nat,
    )
        requires
            keyed_by_value(k),
            k.contains_key(v),
            self.equation_of(x) == Some(k[v]),
            costs_of(k) == self.costs_after(x.digits(), round),
        ensures
            self.known_at(x, round),
    {
        reveal(Searcher::known_at);
        assert(k[v].value == v);
        assert(costs_of(k).contains_key(v));
        assert(costs_of(k)[v] == k[v].cost);
    }

    /// What a search can hold after so many rounds has no more unary
    /// operators at its head than that.
    pub proof fn lemma_built_chain(&self, x: Expression, round: nat)
        requires
            self.built(x, round),
        ensures
            x.unary_chain() <= round,
        decreases x,
    {
        match x {
            Expression::Unary(_, inner) => {
                let earlier = choose|earlier: nat|
                    earlier < round && self.built(*inner, earlier) && #[trigger] self.known_at(
                        *inner,
                        earlier,
                    );
                self.lemma_built_chain(*inner, earlier);
            },
            _ => {},
        }
    }

    /// What a search can hold after some rounds it can hold after more.
    pub proof fn lemma_built_later(&self, x: Expression, round: nat, later: nat)
        requires
            self.built(x, round),
            round <= later,
        ensures
            self.built(x, later),
    {
        match x {
            Expression::Unary(_, inner) => {
                let earlier = choose|earlier: nat|
                    earlier < round && self.built(*inner, earlier) && #[trigger] self.known_at(
                        *inner,
                        earlier,
                    );
                assert(earlier < later && self.built(*inner, earlier) && self.known_at(
                    *inner,
                    earlier,
                ));
            },
            _ => {},
        }
    }

    /// What expresses after some rounds expresses after more.
    pub proof fn lemma_expresses_later(
        &self,
        digits: Seq<char>,
        e: EquationView,
        round: nat,
        later: nat,
    )
        requires
            self.expresses_by(digits, e, round),
            round <= later,
        ensures
            self.expresses_by(digits, e, later),
    {
        let x = choose|x: Expression| #[trigger]
            self.equation_of(x) == Some(e) && x.digits() == digits && self.built(x, round);
        self.lemma_built_later(x, round, later);
    }

    /// A literal is an expression written with its digits, before any round.
    pub proof fn lemma_literal_expresses(&self, digits: Seq<char>)
        requires
            is_literal(digits),
        ensures
            self.expresses_by(digits, EquationView::literal(digits), 0),
    {
        let x = Expression::Literal(digits);
        assert(self.equation_of(x) == Some(EquationView::literal(digits)));
    }

    /// What a binary operator makes of an equation that is known of the left
    /// side of a cut and one that is known of the right side is an expression
    /// written with the digits of the two, before any round.
    pub proof fn lemma_join_expresses(
        &self,
        first: Seq<char>,
        left: Map<Value, EquationView>,
        second: Seq<char>,
        right: Map<Value, EquationView>,
        e: EquationView,
    )
        requires
            self.knows(first, left),
            self.knows(second, right),
            self.joins(left, right, e),
        ensures
            self.expresses_by(first + second, e, 0),
    {
        let (o, a, b) = choose|o: int, a: Value, b: Value|
            0 <= o < self.binary_ops@.len() && left.contains_key(a) && right.contains_key(b) && (
            #[trigger] self.binary_ops@[o].combination(left[a], right[b])) == Some(e);
        let rounds = self.rounds as nat;
        assert(self.expresses_by(first, left[a], rounds));
        assert(self.expresses_by(second, right[b], rounds));
        let x = choose|x: Expression| #[trigger]
            self.equation_of(x) == Some(left[a]) && x.digits() == first && self.built(x, rounds);
        let y = choose|y: Expression| #[trigger]
            self.equation_of(y) == Some(right[b]) && y.digits() == second && self.built(y, rounds);
        self.lemma_costs(first);
        self.lemma_costs(second);
        self.lemma_known_at(x, left, a, rounds);
        self.lemma_known_at(y, right, b, rounds);
        let z = Expression::Binary(o, Box::new(x), Box::new(y));
        assert(self.equation_of(z) == Some(e));
        assert(z.digits() == first + second);
        assert(self.built(z, 0));
    }

    /// What a unary operator makes of an equation that is known after some
    /// rounds is an expression written with the same digits, after one round
    /// more.
    pub proof fn lemma_extend_expresses(
        &self,
        digits: Seq<char>,
        k: Map<Value, EquationView>,
        round: nat,
        e: EquationView,
    )
        requires
            keyed_by_value(k),
            costs_of(k) == self.costs_after(digits, round),
            forall|v: Value| #[trigger] k.contains_key(v) ==> self.expresses_by(digits, k[v], round),
            self.extends(k, e),
        ensures
            self.expresses_by(digits, e, round + 1),
    {
        let (o, a) = choose|o: int, a: Value|
            0 <= o < self.unary_ops@.len() && k.contains_key(a) && (
            #[trigger] self.unary_ops@[o].extension(k[a])) == Some(e);
        assert(self.expresses_by(digits, k[a], round));
        let x = choose|x: Expression| #[trigger]
            self.equation_of(x) == Some(k[a]) && x.digits() == digits && self.built(x, round);
        self.lemma_known_at(x, k, a, round);
        let z = Expression::Unary(o, Box::new(x));
        assert(self.equation_of(z) == Some(e));
        assert(z.digits() == digits);
        assert(self.built(z, round + 1));
    }
}

} // verus!
