//! Finds, for a string of decimal digits, the numbers that can be written with
//! those digits in their order, a set of unary and binary operators and
//! parentheses, and for each number the cheapest way to write it.
//!
//! `search` holds the engine: equations, what is known of a digit string, and
//! the search over all the ways to cut it. `print` turns an equation, a token
//! sequence in postfix order, into infix text. `notation` says what that text
//! is for the equations of a search.
//!
//! Numbers are binary64 numbers and are held as their bits. The rules of the
//! operators come from the caller, and so does the rule that tells which
//! whole number a value counts as.

use std::collections::HashMap;
use vstd::prelude::*;

pub mod notation;
pub mod print;
pub mod search;

pub use print::{BinaryOpPrinter, Printer, UnaryOpPrinter};
use search::model::costs_of;
use search::number::is_literal;
use search::{
    BinaryOp, Cost, Equation, EquationView, Knowledge, Memo, Searcher, UnaryOp, Value, ROUNDS,
};

verus! {

/// Whether `target` answers for every value, and for each value always the
/// same.
pub open spec fn is_target<T: Fn(Value) -> Option<i32>>(target: T) -> bool {
    &&& forall|v: Value| #[trigger] call_requires(target, (v,))
    &&& forall|v: Value, a: Option<i32>, b: Option<i32>|
        #[trigger] call_ensures(target, (v,), a) && #[trigger] call_ensures(target, (v,), b) ==> a
            == b
}

/// The integer that `target` gives for `v`, if it gives one.
pub open spec fn target_of<T: Fn(Value) -> Option<i32>>(target: T, v: Value) -> Option<i32> {
    choose|n: Option<i32>| call_ensures(target, (v,), n)
}

/// Whether `results` holds, for each integer that `target` gives for a value
/// of `k`, an equation of `k` with such a value at the least cost among
/// them, and nothing else.
pub open spec fn picks<T: Fn(Value) -> Option<i32>>(
    k: Map<Value, EquationView>,
    target: T,
    results: Map<i32, Equation>,
) -> bool {
    &&& forall|n: i32| #[trigger]
        results.contains_key(n) ==> {
            let e = results[n]@;
            &&& target_of(target, e.value) == Some(n)
            &&& k.contains_key(e.value)
            &&& k[e.value] == e
        }
    &&& forall|v: Value| #[trigger]
        k.contains_key(v) ==> match target_of(target, v) {
            Some(n) => results.contains_key(n) && results[n]@.cost <= k[v].cost,
            None => true,
        }
}

/// Whether `results` holds, for each integer that `target` gives for a value
/// that `searcher` reaches with `digits`, an equation of such a value at the
/// least cost among them, and nothing else.
pub open spec fn selects<
    U: Fn(Value) -> Option<Value>,
    B: Fn(Value, Value) -> Option<Value>,
    T: Fn(Value) -> Option<i32>,
>(searcher: Searcher<U, B>, digits: Seq<char>, target: T, results: Map<i32, Equation>) -> bool {
    &&& forall|n: i32| #[trigger]
        results.contains_key(n) ==> {
            let e = results[n]@;
            &&& target_of(target, e.value) == Some(n)
            &&& searcher.costs(digits).contains_key(e.value)
            &&& searcher.costs(digits)[e.value] == e.cost
            &&& searcher.expresses(digits, e)
        }
    &&& forall|v: Value| #[trigger]
        searcher.costs(digits).contains_key(v) ==> match target_of(target, v) {
            Some(n) => results.contains_key(n) && results[n]@.cost <= searcher.costs(digits)[v],
            None => true,
        }
}

/// Picks, for each integer that `target` gives for a value of `knowledge`,
/// the cheapest equation of such a value.
///
/// `target` tells which integer a value counts as, if any: several values
/// may count as the same integer.
pub fn select<T: Fn(Value) -> Option<i32>>(knowledge: &Knowledge, target: T) -> (results: HashMap<
    i32,
    Equation,
>)
    requires
        knowledge.wf(),
        is_target(target),
    ensures
        picks(knowledge@, target, results@),
        forall|v: Value| #[trigger]
            knowledge@.contains_key(v) ==> call_ensures(target, (v,), target_of(target, v)),
{
    let mut results: HashMap<i32, Equation> = HashMap::new();
    let list = knowledge.equations();
    let ghost k = knowledge@;
    let mut i: usize = 0;
    while i < list.len()
        invariant
            i <= list@.len(),
            is_target(target),
            forall|j: int|
                0 <= j < list@.len() ==> k.contains_key((#[trigger] list@[j]).value)
                    && k[list@[j].value] == list@[j]@,
            forall|n: i32| #[trigger]
                results@.contains_key(n) ==> {
                    let e = results@[n]@;
                    &&& target_of(target, e.value) == Some(n)
                    &&& k.contains_key(e.value)
                    &&& k[e.value] == e
                },
            forall|j: int|
                0 <= j < i ==> match target_of(target, (#[trigger] list@[j]).value) {
                    Some(n) => results@.contains_key(n) && results@[n]@.cost <= list@[j].cost,
                    None => true,
                },
            forall|j: int|
                0 <= j < i ==> call_ensures(
                    target,
                    ((#[trigger] list@[j]).value,),
                    target_of(target, list@[j].value),
                ),
        decreases list@.len() - i,
    {
        let e = list[i];
        match target(e.value) {
            Some(n) => {
                let take = match results.get(&n) {
                    Some(known) => known.cost > e.cost,
                    None => true,
                };
                if take {
                    results.insert(n, e.clone());
                }
            },
            None => {},
        }
        i = i + 1;
    }
    proof {
        assert forall|v: Value| #[trigger] k.contains_key(v) implies (match target_of(target, v) {
            Some(n) => results@.contains_key(n) && results@[n]@.cost <= k[v].cost,
            None => true,
        }) && call_ensures(target, (v,), target_of(target, v)) by {
            let j = choose|j: int| 0 <= j < list@.len() && (#[trigger] list@[j]).value == v;
            assert(k[v] == list@[j]@);
        }
    }
    results
}

/// Searches `numbers` with the given operators and picks, for each integer
/// that `target` gives for a value that was reached, the cheapest equation
/// of such a value.
pub fn search_int<
    U: Fn(Value) -> Option<Value>,
    B: Fn(Value, Value) -> Option<Value>,
    T: Fn(Value) -> Option<i32>,
>(u_ops: Vec<UnaryOp<U>>, b_ops: Vec<BinaryOp<B>>, numbers: &str, target: T) -> (results: HashMap<
    i32,
    Equation,
>)
    requires
        (Searcher { unary_ops: u_ops, binary_ops: b_ops, rounds: ROUNDS }).wf(),
        (Searcher { unary_ops: u_ops, binary_ops: b_ops, rounds: ROUNDS }).cost_limit(
            numbers@.len(),
        ) <= Cost::MAX,
        is_literal(numbers@),
        is_target(target),
    ensures
        selects(
            Searcher { unary_ops: u_ops, binary_ops: b_ops, rounds: ROUNDS },
            numbers@,
            target,
            results@,
        ),
        forall|v: Value| #[trigger]
            (Searcher { unary_ops: u_ops, binary_ops: b_ops, rounds: ROUNDS }).costs(
                numbers@,
            ).contains_key(v) ==> call_ensures(target, (v,), target_of(target, v)),
{
    let searcher = Searcher::new(u_ops, b_ops);
    let mut memo = Memo::new();
    searcher.search(&mut memo, numbers);
    match memo.get(numbers) {
        Some(knowledge) => {
            let results = select(knowledge, target);
            proof {
                assert(searcher.knows(numbers@, knowledge@));
                assert forall|v: Value| #[trigger]
                    searcher.costs(numbers@).contains_key(v) implies knowledge@.contains_key(v)
                    && knowledge@[v].cost == searcher.costs(numbers@)[v] by {
                    assert(costs_of(knowledge@).contains_key(v));
                }
                assert forall|n: i32| #[trigger] results@.contains_key(n) implies searcher.costs(
                    numbers@,
                ).contains_key(results@[n]@.value) && searcher.costs(numbers@)[results@[n]@.value]
                    == results@[n]@.cost by {
                    assert(costs_of(knowledge@).contains_key(results@[n]@.value));
                }
            }
            results
        },
        None => HashMap::new(),
    }
}

} // verus!
