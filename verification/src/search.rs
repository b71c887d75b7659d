//! The search engine and the data it works on.

use vstd::prelude::*;
use vstd::string::*;

pub mod binary_op;
pub mod equation;
pub mod expression;
pub mod join;
pub mod knowledge;
pub mod limit;
pub mod memo;
pub mod minimal;
pub mod model;
pub mod number;
pub mod unary_op;
pub mod widen;

pub use binary_op::BinaryOp;
pub use equation::{Equation, EquationView};
pub use knowledge::{Knowledge, WrappedValue};
pub use memo::Memo;
pub use unary_op::UnaryOp;

use model::{
    cheapest, costs_of, entries, keeps_cheapest, lemma_keeps_cheapest_grows,
    lemma_keeps_cheapest_is_cheapest,
};
use number::{is_digit, is_literal, lemma_literal_cut};

verus! {

/// One element of an expression in postfix order: a digit or an operator.
///
/// The tokens from `DIGITS` on are reserved for digits. `0xe0 + n` is the
/// digit `n` at the head of a literal, `0xf0 + n` a digit that continues one,
/// for `n` below ten. Operators take their tokens below `DIGITS`.
pub type Token = u8;

/// The first of the tokens that are reserved for digits.
pub const DIGITS: Token = 0xe0;

/// A binary64 number, held as its 64 bits. Two values are the same value when
/// their bits are: no tolerance is applied anywhere.
pub type Value = u64;

/// What an expression costs: the sum of the costs of its operators.
pub type Cost = u64;

/// The rounds of unary operators that a search makes unless told otherwise.
pub const ROUNDS: usize = 3;

/// Whether `part` is made of digits that follow one another in `digits`.
#[verifier::opaque]
pub open spec fn is_part(part: Seq<char>, digits: Seq<char>) -> bool {
    exists|i: int, j: int| 0 <= i <= j <= digits.len() && part == #[trigger] digits.subrange(i, j)
}

/// Whether `memo` has an entry for each of the two sides of `digits` cut at
/// `i`.
pub open spec fn knows_sides(
    memo: Map<Seq<char>, Map<Value, EquationView>>,
    digits: Seq<char>,
    i: int,
) -> bool {
    memo.contains_key(digits.take(i)) && memo.contains_key(digits.skip(i))
}

/// A part of a part is a part.
pub proof fn lemma_part_of_part(part: Seq<char>, middle: Seq<char>, digits: Seq<char>)
    requires
        is_part(part, middle),
        is_part(middle, digits),
    ensures
        is_part(part, digits),
{
    reveal(is_part);
    let (i, j) = choose|i: int, j: int|
        0 <= i <= j <= middle.len() && part == #[trigger] middle.subrange(i, j);
    let (a, b) = choose|a: int, b: int|
        0 <= a <= b <= digits.len() && middle == #[trigger] digits.subrange(a, b);
    assert(part =~= digits.subrange(a + i, a + j));
}

/// What stands between two places of a digit string is a part of it.
pub proof fn lemma_is_part(digits: Seq<char>, i: int, j: int)
    requires
        0 <= i <= j <= digits.len(),
    ensures
        is_part(digits.subrange(i, j), digits),
        i == 0 && j == digits.len() ==> is_part(digits, digits),
{
    reveal(is_part);
    if i == 0 && j == digits.len() {
        assert(digits =~= digits.subrange(i, j));
    }
}

/// The operators that a search may use, and how far it goes with the unary
/// ones.
pub struct Searcher<U, B> {
    pub unary_ops: Vec<UnaryOp<U>>,
    pub binary_ops: Vec<BinaryOp<B>>,
    /// How many times the unary operators are applied to all that is known
    /// of a digit string.
    pub rounds: usize,
}

impl<U: Fn(Value) -> Option<Value>, B: Fn(Value, Value) -> Option<Value>> Searcher<U, B> {
    /// A searcher with these operators, which makes `ROUNDS` rounds of unary
    /// operators.
    pub fn new(unary_ops: Vec<UnaryOp<U>>, binary_ops: Vec<BinaryOp<B>>) -> (searcher: Self)
        ensures
            searcher.unary_ops == unary_ops,
            searcher.binary_ops == binary_ops,
            searcher.rounds == ROUNDS,
    {
        Searcher { unary_ops, binary_ops, rounds: ROUNDS }
    }

    /// The same searcher, but for the number of rounds of unary operators.
    pub fn with_rounds(self, rounds: usize) -> (searcher: Self)
        ensures
            searcher.unary_ops == self.unary_ops,
            searcher.binary_ops == self.binary_ops,
            searcher.rounds == rounds,
    {
        Searcher { unary_ops: self.unary_ops, binary_ops: self.binary_ops, rounds }
    }

    /// Finds what can be known of `numbers`, and of each part of it that the
    /// search comes by, and puts it into `memo`. What `memo` holds already is
    /// taken from it and stays as it is; where it holds `numbers`, nothing is
    /// done.
    ///
    /// The knowledge of `numbers` begins with the literal. For each place at
    /// which `numbers` can be cut in two, both sides are searched and every
    /// binary operator is tried on every pair of a left and a right
    /// equation. Then the rounds of unary operators are made. Throughout, of
    /// two equations with the same value the cheaper one is kept, and of two
    /// that cost the same the one that came first. In which order the
    /// equations of a knowledge come is not stated, so neither is which of
    /// the cheapest equations of a value is kept: the values and their costs
    /// are.
    ///
    /// The costs are summed in `Cost`: `numbers` has to be short enough for
    /// `cost_limit` to stay within it.
    pub fn search(&self, memo: &mut Memo, numbers: &str)
        requires
            self.wf(),
            old(memo).wf(),
            self.holds(old(memo)@),
            is_literal(numbers@),
            self.cost_limit(numbers@.len()) <= Cost::MAX,
        ensures
            final(memo).wf(),
            self.holds(final(memo)@),
            final(memo)@.contains_key(numbers@),
            forall|digits: Seq<char>| #[trigger]
                old(memo)@.contains_key(digits) ==> final(memo)@.contains_key(digits)
                    && final(memo)@[digits] == old(memo)@[digits],
            forall|digits: Seq<char>| #[trigger]
                final(memo)@.contains_key(digits) ==> old(memo)@.contains_key(digits) || is_part(
                    digits,
                    numbers@,
                ),
            !old(memo)@.contains_key(numbers@) ==> forall|i: int|
                0 < i < numbers@.len() ==> #[trigger] knows_sides(final(memo)@, numbers@, i),
            old(memo)@.contains_key(numbers@) ==> final(memo)@ == old(memo)@,
    {
        let join = |left: &Knowledge, right: &Knowledge, knowledge: Knowledge| -> (after: Knowledge)
            requires
                self.wf(),
                self.can_join(*left, *right, knowledge),
            ensures
                self.joined_into(left@, right@, knowledge@, after),
            {
                let mut after = knowledge;
                self.join(left, right, &mut after);
                after
            };
        let widen = |knowledge: Knowledge| -> (after: Knowledge)
            requires
                self.wf(),
                self.can_widen(knowledge),
            ensures
                self.widened_into(knowledge@, after),
            {
                let mut after = knowledge;
                self.widen(&mut after);
                after
            };
        self.search_with(memo, numbers, join, widen);
    }

    /// As `search`, with the work on the equations handed to `join` and
    /// `widen`: `join` offers to a knowledge what the binary operators make
    /// of two others, and `widen` makes one round of unary operators. This
    /// is for a caller that has another way to do that work, on several
    /// threads for one.
    pub fn search_with<
        J: Fn(&Knowledge, &Knowledge, Knowledge) -> Knowledge + Copy,
        W: Fn(Knowledge) -> Knowledge + Copy,
    >(&self, memo: &mut Memo, numbers: &str, join: J, widen: W)
        requires
            self.wf(),
            old(memo).wf(),
            self.holds(old(memo)@),
            is_literal(numbers@),
            self.cost_limit(numbers@.len()) <= Cost::MAX,
            self.joins_with(join),
            self.widens_with(widen),
        ensures
            final(memo).wf(),
            self.holds(final(memo)@),
            final(memo)@.contains_key(numbers@),
            forall|digits: Seq<char>| #[trigger]
                old(memo)@.contains_key(digits) ==> final(memo)@.contains_key(digits)
                    && final(memo)@[digits] == old(memo)@[digits],
            forall|digits: Seq<char>| #[trigger]
                final(memo)@.contains_key(digits) ==> old(memo)@.contains_key(digits) || is_part(
                    digits,
                    numbers@,
                ),
            !old(memo)@.contains_key(numbers@) ==> forall|i: int|
                0 < i < numbers@.len() ==> #[trigger] knows_sides(final(memo)@, numbers@, i),
            old(memo)@.contains_key(numbers@) ==> final(memo)@ == old(memo)@,
        decreases numbers@.len(),
    {
        if memo.contains_key(numbers) {
            return ;
        }
        let ghost digits = numbers@;
        let ghost found = memo@;
        proof {
            assert(is_ascii(numbers)) by {
                assert forall|i: int| 0 <= i < digits.len() implies '\0' <= #[trigger] digits[i]
                    <= '\u{7f}' by {
                    assert(is_digit(digits[i]));
                }
            }
            is_ascii_spec_bytes(numbers);
        }
        let n = numbers.as_bytes().len();
        let mut knowledge = Knowledge::new();
        knowledge.merge(Equation::from_numbers(numbers));
        proof {
            self.lemma_literal_expresses(digits);
        }
        let mut i: usize = 1;
        while i < n
            invariant
                1 <= i <= n,
                n == digits.len(),
                digits == numbers@,
                is_literal(digits),
                is_ascii(numbers),
                self.wf(),
                memo.wf(),
                knowledge.wf(),
                self.holds(memo@),
                self.cost_limit(digits.len()) <= Cost::MAX,
                self.joins_with(join),
                self.widens_with(widen),
                forall|d: Seq<char>| #[trigger]
                    found.contains_key(d) ==> memo@.contains_key(d) && memo@[d] == found[d],
                forall|d: Seq<char>| #[trigger]
                    memo@.contains_key(d) ==> found.contains_key(d) || is_part(d, digits),
                forall|j: int| 0 < j < i ==> #[trigger] knows_sides(memo@, digits, j),
                keeps_cheapest(costs_of(knowledge@), self.combined_before(digits, i as int)),
                forall|v: Value| #[trigger]
                    knowledge@.contains_key(v) ==> self.expresses_by(digits, knowledge@[v], 0),
            decreases n - i,
        {
            let left = numbers.substring_ascii(0, i);
            let right = numbers.substring_ascii(i, n);
            proof {
                lemma_literal_cut(digits, i as int);
                self.lemma_limits(i as nat, n as nat);
                assert(left@ == digits.take(i as int));
                assert(right@ == digits.skip(i as int));
                assert(digits.take(i as int) + digits.skip(i as int) =~= digits);
            }
            let ghost earlier = memo@;
            self.search_with(memo, left, join, widen);
            let ghost between = memo@;
            self.search_with(memo, right, join, widen);
            let ghost before = knowledge@;
            proof {
                lemma_is_part(digits, 0, i as int);
                lemma_is_part(digits, i as int, n as int);
                assert forall|j: int| 0 < j < i + 1 implies #[trigger] knows_sides(
                    memo@,
                    digits,
                    j,
                ) by {
                    if j < i {
                        assert(knows_sides(earlier, digits, j));
                        assert(between.contains_key(digits.take(j)));
                        assert(between.contains_key(digits.skip(j)));
                    } else {
                        assert(between.contains_key(left@));
                    }
                }
                assert forall|d: Seq<char>| #[trigger] memo@.contains_key(d) implies found.contains_key(
                    d,
                ) || is_part(d, digits) by {
                    if !between.contains_key(d) {
                        lemma_part_of_part(d, right@, digits);
                    } else if !earlier.contains_key(d) {
                        lemma_part_of_part(d, left@, digits);
                    }
                }
            }
            // Both sides have an entry now.
            match (memo.get(left), memo.get(right)) {
                (Some(l), Some(r)) => {
                    proof {
                        self.lemma_costs_limit(left@);
                        self.lemma_costs_limit(right@);
                        self.lemma_limit_of_rounds(n as nat);
                        assert(self.knows(left@, l@));
                        assert(self.knows(right@, r@));
                        assert forall|a: Value, b: Value|
                            l@.contains_key(a) && r@.contains_key(b) implies (#[trigger] l@[a]).cost
                            + (#[trigger] r@[b]).cost + u8::MAX <= Cost::MAX by {
                            assert(costs_of(l@).contains_key(a));
                            assert(costs_of(r@).contains_key(b));
                            assert(l@[a].cost <= self.cost_limit(i as nat));
                            assert(r@[b].cost <= self.cost_limit((n - i) as nat));
                        }
                    }
                    knowledge = join(l, r, knowledge);
                    proof {
                        lemma_keeps_cheapest_grows(
                            costs_of(before),
                            self.combined_before(digits, i as int),
                            costs_of(knowledge@),
                            self.joined(costs_of(l@), costs_of(r@)),
                        );
                        assert forall|v: Value| #[trigger]
                            knowledge@.contains_key(v) implies self.expresses_by(
                            digits,
                            knowledge@[v],
                            0,
                        ) by {
                            if !(before.contains_key(v) && knowledge@[v] == before[v]) {
                                self.lemma_join_expresses(left@, l@, right@, r@, knowledge@[v]);
                            }
                        }
                    }
                },
                _ => {},
            }
            i = i + 1;
        }
        let ghost base = costs_of(knowledge@);
        proof {
            lemma_keeps_cheapest_is_cheapest(base, self.combined_before(digits, n as int));
            self.lemma_combined_limit(digits, n as int);
            self.lemma_limit_of_rounds(n as nat);
            assert forall|v: Value| #[trigger] base.contains_key(v) implies base[v]
                <= self.joined_limit(n as nat) by {
                assert(self.combined_before(digits, n as int).contains((v, base[v])));
            }
        }
        let mut round: usize = 0;
        while round < self.rounds
            invariant
                round <= self.rounds,
                n == digits.len(),
                n > 0,
                self.wf(),
                knowledge.wf(),
                self.cost_limit(digits.len()) <= Cost::MAX,
                self.widens_with(widen),
                self.joined_limit(n as nat) + 255 * self.rounds == self.cost_limit(n as nat),
                forall|v: Value| #[trigger]
                    base.contains_key(v) ==> base[v] <= self.joined_limit(n as nat),
                base == cheapest(self.combined_before(digits, digits.len() as int)),
                costs_of(knowledge@) == self.saturated(base, round as nat),
                forall|v: Value| #[trigger]
                    knowledge@.contains_key(v) ==> self.expresses_by(
                        digits,
                        knowledge@[v],
                        round as nat,
                    ),
            decreases self.rounds - round,
        {
            let ghost before = knowledge@;
            proof {
                knowledge.lemma_keyed_by_value();
                self.lemma_saturated_limit(base, round as nat, self.joined_limit(n as nat));
                assert forall|a: Value| before.contains_key(a) implies (#[trigger] before[a]).cost
                    + u8::MAX <= Cost::MAX by {
                    assert(costs_of(before).contains_key(a));
                }
            }
            knowledge = widen(knowledge);
            proof {
                lemma_keeps_cheapest_is_cheapest(
                    costs_of(knowledge@),
                    entries(costs_of(before)) + self.applied(costs_of(before)),
                );
                assert forall|v: Value| #[trigger]
                    knowledge@.contains_key(v) implies self.expresses_by(
                    digits,
                    knowledge@[v],
                    round as nat + 1,
                ) by {
                    if before.contains_key(v) && knowledge@[v] == before[v] {
                        self.lemma_expresses_later(
                            digits,
                            before[v],
                            round as nat,
                            round as nat + 1,
                        );
                    } else {
                        self.lemma_extend_expresses(digits, before, round as nat, knowledge@[v]);
                    }
                }
            }
            round = round + 1;
        }
        proof {
            knowledge.lemma_keyed_by_value();
            self.lemma_costs(digits);
            assert(self.knows(digits, knowledge@));
            lemma_is_part(digits, 0, n as int);
        }
        let ghost filled = memo@;
        memo.insert(numbers, knowledge);
        proof {
            assert forall|i: int| 0 < i < digits.len() implies #[trigger] knows_sides(
                memo@,
                digits,
                i,
            ) by {
                assert(knows_sides(filled, digits, i));
            }
        }
    }
}

} // verus!
