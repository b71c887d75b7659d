//! What a search has to find, stated without tokens: for each digit string,
//! the values that can be reached and the least cost of each.

use vstd::prelude::*;

use crate::search::equation::EquationView;
use crate::search::number::literal_value;
use crate::search::{Searcher, Value, DIGITS};

verus! {

/// A way to reach a value: the value, and what that way costs.
pub type Candidate = (Value, nat);

/// For each value that can be reached, what it costs.
pub type Costs = Map<Value, nat>;

/// What the equations of a knowledge cost.
pub open spec fn costs_of(k: Map<Value, EquationView>) -> Costs {
    k.map_values(|e: EquationView| e.cost)
}

/// The values of `m`, each with its cost, as candidates.
pub open spec fn entries(m: Costs) -> Set<Candidate> {
    Set::new(|c: Candidate| m.contains_key(c.0) && m[c.0] == c.1)
}

/// Whether `m` reaches the value of `c` at no more than the cost of `c`.
pub open spec fn covers(m: Costs, c: Candidate) -> bool {
    m.contains_key(c.0) && m[c.0] <= c.1
}

/// Whether `m` keeps the cheapest of `s`: it reaches the value of every
/// candidate of `s` at no more than that candidate's cost, and each of its
/// own entries is a candidate of `s`.
pub open spec fn keeps_cheapest(m: Costs, s: Set<Candidate>) -> bool {
    &&& forall|c: Candidate| #[trigger] s.contains(c) ==> covers(m, c)
    &&& forall|v: Value| #[trigger] m.contains_key(v) ==> s.contains((v, m[v]))
}

/// The least cost at which `s` reaches `v`.
pub open spec fn least_cost(s: Set<Candidate>, v: Value) -> nat {
    choose|c: nat| s.contains((v, c)) && forall|d: nat| s.contains((v, d)) ==> c <= d
}

/// The values that `s` reaches, each at the least cost that `s` has for it.
pub open spec fn cheapest(s: Set<Candidate>) -> Costs {
    Map::new(|v: Value| exists|c: nat| s.contains((v, c)), |v: Value| least_cost(s, v))
}

/// Only one map keeps the cheapest of a set.
pub proof fn lemma_keeps_cheapest_is_cheapest(m: Costs, s: Set<Candidate>)
    requires
        keeps_cheapest(m, s),
    ensures
        m == cheapest(s),
{
    assert forall|v: Value| m.contains_key(v) == cheapest(s).contains_key(v) by {
        if m.contains_key(v) {
            assert(s.contains((v, m[v])));
        }
        if cheapest(s).contains_key(v) {
            let c = choose|c: nat| s.contains((v, c));
            assert(covers(m, (v, c)));
        }
    }
    assert forall|v: Value| m.contains_key(v) implies m[v] == cheapest(s)[v] by {
        assert(s.contains((v, m[v])));
        assert forall|d: nat| s.contains((v, d)) implies m[v] <= d by {
            assert(covers(m, (v, d)));
        }
        let l = least_cost(s, v);
        assert(s.contains((v, l)) && forall|d: nat| s.contains((v, d)) ==> l <= d);
        assert(covers(m, (v, l)));
    }
    assert(m =~= cheapest(s));
}

/// Among the costs at which `s` reaches `v` there is a least one.
pub proof fn lemma_least_cost(s: Set<Candidate>, v: Value, c: nat)
    requires
        s.contains((v, c)),
    ensures
        s.contains((v, least_cost(s, v))),
        forall|d: nat| s.contains((v, d)) ==> least_cost(s, v) <= d,
    decreases c,
{
    if exists|d: nat| s.contains((v, d)) && d < c {
        let d = choose|d: nat| s.contains((v, d)) && d < c;
        lemma_least_cost(s, v, d);
    } else {
        assert(s.contains((v, c)) && forall|d: nat| s.contains((v, d)) ==> c <= d);
    }
}

/// `cheapest(s)` keeps the cheapest of `s`.
pub proof fn lemma_cheapest_keeps(s: Set<Candidate>)
    ensures
        keeps_cheapest(cheapest(s), s),
{
    let m = cheapest(s);
    assert forall|c: Candidate| #[trigger] s.contains(c) implies covers(m, c) by {
        lemma_least_cost(s, c.0, c.1);
    }
    assert forall|v: Value| #[trigger] m.contains_key(v) implies s.contains((v, m[v])) by {
        let c = choose|c: nat| s.contains((v, c));
        lemma_least_cost(s, v, c);
    }
}

/// Where `m` keeps the cheapest of `s`, and `n` the cheapest of the entries
/// of `m` together with `t`, there `n` keeps the cheapest of `s` and `t`
/// together.
pub proof fn lemma_keeps_cheapest_grows(m: Costs, s: Set<Candidate>, n: Costs, t: Set<Candidate>)
    requires
        keeps_cheapest(m, s),
        keeps_cheapest(n, entries(m) + t),
    ensures
        keeps_cheapest(n, s + t),
{
    assert forall|c: Candidate| #[trigger] (s + t).contains(c) implies covers(n, c) by {
        if s.contains(c) {
            assert(covers(m, c));
            assert((entries(m) + t).contains((c.0, m[c.0])));
        } else {
            assert((entries(m) + t).contains(c));
        }
    }
    assert forall|v: Value| #[trigger] n.contains_key(v) implies (s + t).contains((v, n[v])) by {
        assert((entries(m) + t).contains((v, n[v])));
        if entries(m).contains((v, n[v])) {
            assert(s.contains((v, m[v])));
        }
    }
}

impl<U: Fn(Value) -> Option<Value>, B: Fn(Value, Value) -> Option<Value>> Searcher<U, B> {
    /// Whether every operator has a rule that can be relied on, and a token
    /// that is not one of the digits.
    pub open spec fn wf(&self) -> bool {
        &&& forall|o: int|
            0 <= o < self.unary_ops@.len() ==> (#[trigger] self.unary_ops@[o]).is_rule()
                && self.unary_ops@[o].token < DIGITS
        &&& forall|o: int|
            0 <= o < self.binary_ops@.len() ==> (#[trigger] self.binary_ops@[o]).is_rule()
                && self.binary_ops@[o].token < DIGITS
    }

    /// What a binary operator makes of a value of `left` and a value of
    /// `right`, wherever it applies, at the cost of the two and its own.
    pub open spec fn joined(&self, left: Costs, right: Costs) -> Set<Candidate> {
        Set::new(
            |c: Candidate|
                exists|o: int, a: Value, b: Value|
                    0 <= o < self.binary_ops@.len() && left.contains_key(a) && right.contains_key(b)
                        && (#[trigger] self.binary_ops@[o].result(a, b)) == Some(c.0) && c.1
                        == left[a] + right[b] + self.binary_ops@[o].cost,
        )
    }

    /// What a unary operator makes of a value of `m`, wherever it applies, at
    /// the cost of the value and its own.
    pub open spec fn applied(&self, m: Costs) -> Set<Candidate> {
        Set::new(
            |c: Candidate|
                exists|o: int, a: Value|
                    0 <= o < self.unary_ops@.len() && m.contains_key(a) && (
                    #[trigger] self.unary_ops@[o].result(a)) == Some(c.0) && c.1 == m[a]
                        + self.unary_ops@[o].cost,
        )
    }

    /// The literal `digits`, and what the binary operators make of the two
    /// sides of `digits` cut at each place before `cut`, for a `cut` that is
    /// not beyond the end of `digits`.
    pub open spec fn combined_before(&self, digits: Seq<char>, cut: int) -> Set<Candidate>
        decreases digits.len(), 0nat, cut,
    {
        if cut <= 1 || cut > digits.len() {
            set![(literal_value(digits), 0nat)]
        } else {
            self.combined_before(digits, cut - 1) + self.joined(
                self.costs(digits.take(cut - 1)),
                self.costs(digits.skip(cut - 1)),
            )
        }
    }

    /// `m` after so many rounds of unary operators. A round keeps what it
    /// began with and adds what the unary operators make of that, each value
    /// at its least cost.
    pub open spec fn saturated(&self, m: Costs, rounds: nat) -> Costs
        decreases rounds,
    {
        if rounds == 0 {
            m
        } else {
            let before = self.saturated(m, (rounds - 1) as nat);
            cheapest(entries(before) + self.applied(before))
        }
    }

    /// What a search knows of `digits` after so many of its rounds of unary
    /// operators.
    pub open spec fn costs_after(&self, digits: Seq<char>, rounds: nat) -> Costs {
        self.saturated(cheapest(self.combined_before(digits, digits.len() as int)), rounds)
    }

    /// The values that a search reaches with `digits`, each with its least
    /// cost: the literal and all that the binary operators make of the two
    /// sides of each cut, taken through the rounds of unary operators.
    #[verifier::opaque]
    pub open spec fn costs(&self, digits: Seq<char>) -> Costs
        decreases digits.len(), 1nat, 0int,
    {
        self.saturated(
            cheapest(self.combined_before(digits, digits.len() as int)),
            self.rounds as nat,
        )
    }

    /// What `costs` says, written out.
    pub proof fn lemma_costs(&self, digits: Seq<char>)
        ensures
            self.costs(digits) == self.saturated(
                cheapest(self.combined_before(digits, digits.len() as int)),
                self.rounds as nat,
            ),
            self.costs(digits) == self.costs_after(digits, self.rounds as nat),
    {
        reveal(Searcher::costs);
    }
}

} // verus!
