//! What a search knows is determined by the digits and the operators, and
//! nothing that the search comes by is cheaper than what it knows.

use vstd::prelude::*;

use crate::search::equation::EquationView;
use crate::search::model::{
    cheapest, costs_of, covers, entries, lemma_cheapest_keeps, Candidate, Costs,
};
use crate::search::number::literal_value;
use crate::search::{Searcher, Value};

verus! {

impl<U: Fn(Value) -> Option<Value>, B: Fn(Value, Value) -> Option<Value>> Searcher<U, B> {
    /// Two searches of the same digits know the same values, each at the
    /// same cost, whatever equations they hold for them.
    pub proof fn lemma_same_values_and_costs(
        &self,
        digits: Seq<char>,
        first: Map<Value, EquationView>,
        second: Map<Value, EquationView>,
    )
        requires
            self.knows(digits, first),
            self.knows(digits, second),
        ensures
            first.dom() == second.dom(),
            forall|v: Value| #[trigger]
                first.contains_key(v) ==> first[v].cost == second[v].cost,
    {
        assert(costs_of(first) == costs_of(second));
        assert forall|v: Value| first.contains_key(v) == second.contains_key(v) by {
            assert(costs_of(first).contains_key(v) == first.contains_key(v));
            assert(costs_of(second).contains_key(v) == second.contains_key(v));
        }
        assert(first.dom() =~= second.dom());
        assert forall|v: Value| #[trigger] first.contains_key(v) implies first[v].cost
            == second[v].cost by {
            assert(costs_of(first)[v] == first[v].cost);
            assert(costs_of(second)[v] == second[v].cost);
        }
    }

    /// A round of unary operators keeps every value, at no greater cost.
    pub proof fn lemma_rounds_keep(&self, m: Costs, rounds: nat, c: Candidate)
        requires
            covers(m, c),
        ensures
            covers(self.saturated(m, rounds), c),
        decreases rounds,
    {
        if rounds > 0 {
            let before = self.saturated(m, (rounds - 1) as nat);
            self.lemma_rounds_keep(m, (rounds - 1) as nat, c);
            let s = entries(before) + self.applied(before);
            lemma_cheapest_keeps(s);
            assert(s.contains((c.0, before[c.0])));
        }
    }

    /// What is known after some rounds is known after more rounds, at no
    /// greater cost.
    pub proof fn lemma_more_rounds_keep(&self, m: Costs, fewer: nat, more: nat, v: Value)
        requires
            fewer <= more,
            self.saturated(m, fewer).contains_key(v),
        ensures
            covers(self.saturated(m, more), (v, self.saturated(m, fewer)[v])),
        decreases more - fewer,
    {
        if fewer < more {
            self.lemma_more_rounds_keep(m, fewer, (more - 1) as nat, v);
            let before = self.saturated(m, (more - 1) as nat);
            let s = entries(before) + self.applied(before);
            lemma_cheapest_keeps(s);
            assert(s.contains((v, before[v])));
        }
    }

    /// What the binary operators make of the two sides of a cut is among
    /// what is combined before every later cut.
    pub proof fn lemma_combined_holds_cut(&self, digits: Seq<char>, i: int, cut: int, c: Candidate)
        requires
            0 < i < cut <= digits.len(),
            self.joined(self.costs(digits.take(i)), self.costs(digits.skip(i))).contains(c),
        ensures
            self.combined_before(digits, cut).contains(c),
        decreases cut,
    {
        if i < cut - 1 {
            self.lemma_combined_holds_cut(digits, i, cut - 1, c);
        }
    }

    /// What is combined before any cut holds the literal.
    pub proof fn lemma_combined_holds_literal(&self, digits: Seq<char>, cut: int)
        ensures
            self.combined_before(digits, cut).contains((literal_value(digits), 0nat)),
        decreases cut,
    {
        if cut <= 1 || cut > digits.len() {
        } else {
            self.lemma_combined_holds_literal(digits, cut - 1);
        }
    }

    /// A search knows its literal, at no cost.
    pub proof fn lemma_knows_literal(&self, digits: Seq<char>, k: Map<Value, EquationView>)
        requires
            self.knows(digits, k),
        ensures
            k.contains_key(literal_value(digits)),
            k[literal_value(digits)].cost == 0,
    {
        let v = literal_value(digits);
        let s = self.combined_before(digits, digits.len() as int);
        self.lemma_costs(digits);
        self.lemma_combined_holds_literal(digits, digits.len() as int);
        lemma_cheapest_keeps(s);
        self.lemma_rounds_keep(cheapest(s), self.rounds as nat, (v, 0nat));
        assert(costs_of(k).contains_key(v));
        assert(costs_of(k)[v] == k[v].cost);
    }

    /// No binary operator makes, of an equation that is known of the left
    /// side of a cut and one that is known of the right side, an equation
    /// that is cheaper than the one that is known for its value.
    pub proof fn lemma_no_cheaper_join(
        &self,
        digits: Seq<char>,
        k: Map<Value, EquationView>,
        i: int,
        left: Map<Value, EquationView>,
        right: Map<Value, EquationView>,
        o: int,
        a: Value,
        b: Value,
    )
        requires
            self.knows(digits, k),
            0 < i < digits.len(),
            self.knows(digits.take(i), left),
            self.knows(digits.skip(i), right),
            0 <= o < self.binary_ops@.len(),
            left.contains_key(a),
            right.contains_key(b),
            self.binary_ops@[o].combination(left[a], right[b]) is Some,
        ensures
            ({
                let e = self.binary_ops@[o].combination(left[a], right[b])->0;
                k.contains_key(e.value) && k[e.value].cost <= e.cost
            }),
    {
        let e = self.binary_ops@[o].combination(left[a], right[b])->0;
        let c = (e.value, e.cost);
        let s = self.combined_before(digits, digits.len() as int);
        self.lemma_costs(digits);
        assert(left[a].value == a && right[b].value == b);
        assert(costs_of(left).contains_key(a) && costs_of(right).contains_key(b));
        assert(self.binary_ops@[o].result(a, b) == Some(e.value));
        assert(self.joined(costs_of(left), costs_of(right)).contains(c));
        self.lemma_combined_holds_cut(digits, i, digits.len() as int, c);
        lemma_cheapest_keeps(s);
        self.lemma_rounds_keep(cheapest(s), self.rounds as nat, c);
        assert(costs_of(k).contains_key(e.value));
        assert(costs_of(k)[e.value] == k[e.value].cost);
    }

    /// No unary operator makes, of a value that was known before the last
    /// round, a value at less than the cost that is known for it.
    pub proof fn lemma_no_cheaper_extension(
        &self,
        digits: Seq<char>,
        k: Map<Value, EquationView>,
        round: nat,
        o: int,
        a: Value,
    )
        requires
            self.knows(digits, k),
            round < self.rounds,
            0 <= o < self.unary_ops@.len(),
            self.costs_after(digits, round).contains_key(a),
            self.unary_ops@[o].result(a) is Some,
        ensures
            ({
                let v = self.unary_ops@[o].result(a)->0;
                k.contains_key(v) && k[v].cost <= self.costs_after(digits, round)[a]
                    + self.unary_ops@[o].cost
            }),
    {
        let v = self.unary_ops@[o].result(a)->0;
        let m = cheapest(self.combined_before(digits, digits.len() as int));
        self.lemma_costs(digits);
        let before = self.saturated(m, round);
        let c = (v, before[a] + self.unary_ops@[o].cost as nat);
        let s = entries(before) + self.applied(before);
        assert(self.applied(before).contains(c));
        lemma_cheapest_keeps(s);
        assert(s.contains(c));
        assert(self.saturated(m, round + 1) == cheapest(s));
        assert(covers(self.saturated(m, round + 1), c));
        let next = self.saturated(m, round + 1);
        self.lemma_more_rounds_keep(m, round + 1, self.rounds as nat, v);
        assert(costs_of(k).contains_key(v));
        assert(costs_of(k)[v] == k[v].cost);
    }

    /// What is known before the last round is known at the end, at no
    /// greater cost.
    pub proof fn lemma_known_stays_known(
        &self,
        digits: Seq<char>,
        k: Map<Value, EquationView>,
        round: nat,
        v: Value,
    )
        requires
            self.knows(digits, k),
            round <= self.rounds,
            self.costs_after(digits, round).contains_key(v),
        ensures
            k.contains_key(v),
            k[v].cost <= self.costs_after(digits, round)[v],
    {
        let m = cheapest(self.combined_before(digits, digits.len() as int));
        self.lemma_costs(digits);
        self.lemma_more_rounds_keep(m, round, self.rounds as nat, v);
        assert(costs_of(k).contains_key(v));
        assert(costs_of(k)[v] == k[v].cost);
    }
}

} // verus!
