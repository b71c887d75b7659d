//! How much an equation of a search can cost at most.

use vstd::prelude::*;

use crate::search::model::{cheapest, entries, lemma_cheapest_keeps, Candidate, Costs};
use crate::search::{Searcher, Value};

verus! {

impl<U: Fn(Value) -> Option<Value>, B: Fn(Value, Value) -> Option<Value>> Searcher<U, B> {
    /// The most that an equation of `len` digits can cost before the rounds
    /// of unary operators. One operator costs 255 at most. An equation of
    /// one digit has no operator before the rounds, and each round adds one;
    /// an equation of more digits has the operators of its two sides and one
    /// binary operator.
    #[verifier::opaque]
    pub open spec fn joined_limit(&self, len: nat) -> int {
        255 * ((2 * self.rounds + 1) * len - 2 * self.rounds - 1)
    }

    /// The most that an equation of `len` digits can cost.
    #[verifier::opaque]
    pub open spec fn cost_limit(&self, len: nat) -> int {
        255 * ((2 * self.rounds + 1) * len - self.rounds - 1)
    }

    /// How the limits of a digit string and of its two sides go together.
    pub proof fn lemma_limits(&self, i: nat, n: nat)
        requires
            0 < i < n,
        ensures
            self.cost_limit(i) + self.cost_limit((n - i) as nat) + 255 == self.joined_limit(n),
            0 <= self.cost_limit(i) <= self.cost_limit(n),
            0 <= self.cost_limit((n - i) as nat) <= self.cost_limit(n),
    {
        reveal(Searcher::joined_limit);
        reveal(Searcher::cost_limit);
        let w = 2 * self.rounds + 1;
        assert(w * i + w * (n - i) == w * n) by (nonlinear_arith);
        assert(w * i >= w) by (nonlinear_arith)
            requires
                i >= 1,
                w >= 0,
        ;
        assert(w * (n - i) >= w) by (nonlinear_arith)
            requires
                n - i >= 1,
                w >= 0,
        ;
    }

    /// The limit of a digit string before and after the rounds of unary
    /// operators.
    pub proof fn lemma_limit_of_rounds(&self, n: nat)
        requires
            0 < n,
        ensures
            0 <= self.joined_limit(n),
            self.joined_limit(n) + 255 * self.rounds == self.cost_limit(n),
    {
        reveal(Searcher::joined_limit);
        reveal(Searcher::cost_limit);
        let w = 2 * self.rounds + 1;
        assert(w * n >= w) by (nonlinear_arith)
            requires
                n >= 1,
                w >= 0,
        ;
    }

    /// A round of unary operators adds at most 255 to the greatest cost.
    pub proof fn lemma_saturated_limit(&self, m: Costs, rounds: nat, limit: int)
        requires
            forall|v: Value| #[trigger] m.contains_key(v) ==> m[v] <= limit,
        ensures
            forall|v: Value| #[trigger]
                self.saturated(m, rounds).contains_key(v) ==> self.saturated(m, rounds)[v] <= limit
                    + 255 * rounds,
        decreases rounds,
    {
        if rounds > 0 {
            let before = self.saturated(m, (rounds - 1) as nat);
            self.lemma_saturated_limit(m, (rounds - 1) as nat, limit);
            let s = entries(before) + self.applied(before);
            lemma_cheapest_keeps(s);
            assert forall|v: Value| #[trigger]
                self.saturated(m, rounds).contains_key(v) implies self.saturated(m, rounds)[v]
                <= limit + 255 * rounds by {
                let c = self.saturated(m, rounds)[v];
                assert(s.contains((v, c)));
                if entries(before).contains((v, c)) {
                    assert(before.contains_key(v));
                } else {
                    let (o, a) = choose|o: int, a: Value|
                        0 <= o < self.unary_ops@.len() && before.contains_key(a) && (
                        #[trigger] self.unary_ops@[o].result(a)) == Some(v) && c == before[a]
                            + self.unary_ops@[o].cost;
                    assert(before.contains_key(a));
                }
            }
        }
    }

    /// What the binary operators make of the two sides of a cut costs no more
    /// than the limit before the rounds.
    pub proof fn lemma_combined_limit(&self, digits: Seq<char>, cut: int)
        requires
            digits.len() > 0,
        ensures
            forall|c: Candidate| #[trigger]
                self.combined_before(digits, cut).contains(c) ==> c.1 <= self.joined_limit(
                    digits.len(),
                ),
        decreases digits.len(), 0nat, cut,
    {
        let n = digits.len();
        self.lemma_limit_of_rounds(n);
        if cut <= 1 || cut > digits.len() {
            assert forall|c: Candidate| #[trigger]
                self.combined_before(digits, cut).contains(c) implies c.1 <= self.joined_limit(
                n,
            ) by {
                assert(c.1 == 0);
            }
        } else {
            let i = cut - 1;
            let left = self.costs(digits.take(i));
            let right = self.costs(digits.skip(i));
            self.lemma_combined_limit(digits, i);
            self.lemma_costs_limit(digits.take(i));
            self.lemma_costs_limit(digits.skip(i));
            self.lemma_limits(i as nat, n);
            assert forall|c: Candidate| #[trigger]
                self.joined(left, right).contains(c) implies c.1 <= self.joined_limit(n) by {
                self.lemma_joined_limit(
                    left,
                    self.cost_limit(i as nat),
                    right,
                    self.cost_limit((n - i) as nat),
                    c,
                );
            }
            assert forall|c: Candidate| #[trigger]
                self.combined_before(digits, cut).contains(c) implies c.1 <= self.joined_limit(
                n,
            ) by {
                assert(self.combined_before(digits, cut) == self.combined_before(digits, i)
                    + self.joined(left, right));
                if !self.combined_before(digits, i).contains(c) {
                    assert(self.joined(left, right).contains(c));
                }
            }
        }
    }

    /// What a binary operator makes of two values costs no more than the two
    /// and 255.
    proof fn lemma_joined_limit(
        &self,
        left: Costs,
        left_limit: int,
        right: Costs,
        right_limit: int,
        c: Candidate,
    )
        requires
            forall|v: Value| #[trigger] left.contains_key(v) ==> left[v] <= left_limit,
            forall|v: Value| #[trigger] right.contains_key(v) ==> right[v] <= right_limit,
            self.joined(left, right).contains(c),
        ensures
            c.1 <= left_limit + right_limit + 255,
    {
        let (o, a, b) = choose|o: int, a: Value, b: Value|
            0 <= o < self.binary_ops@.len() && left.contains_key(a) && right.contains_key(b) && (
            #[trigger] self.binary_ops@[o].result(a, b)) == Some(c.0) && c.1 == left[a] + right[b]
                + self.binary_ops@[o].cost;
        assert(left.contains_key(a) && right.contains_key(b));
    }

    /// What a search knows of a digit string costs no more than the limit of
    /// its length.
    pub proof fn lemma_costs_limit(&self, digits: Seq<char>)
        requires
            digits.len() > 0,
        ensures
            forall|v: Value| #[trigger]
                self.costs(digits).contains_key(v) ==> self.costs(digits)[v] <= self.cost_limit(
                    digits.len(),
                ),
        decreases digits.len(), 1nat, 0int,
    {
        self.lemma_costs(digits);
        let n = digits.len();
        let s = self.combined_before(digits, n as int);
        let m = cheapest(s);
        self.lemma_combined_limit(digits, n as int);
        lemma_cheapest_keeps(s);
        assert forall|v: Value| #[trigger] m.contains_key(v) implies m[v] <= self.joined_limit(
            n,
        ) by {
            assert(s.contains((v, m[v])));
        }
        self.lemma_saturated_limit(m, self.rounds as nat, self.joined_limit(n));
        self.lemma_limit_of_rounds(n);
    }
}

} // verus!
