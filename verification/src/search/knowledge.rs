//! What is known of one digit string: for each value that can be reached, the
//! cheapest equation that reaches it.

use fnv::{FnvBuildHasher, FnvHasher};
use std::collections::HashMap;
use std::hash::BuildHasherDefault;
use vstd::prelude::*;
use vstd::std_specs::hash::*;
use vstd::std_specs::iter::IteratorSpec;

use crate::search::equation::{Equation, EquationView};
use crate::search::Value;

verus! {

/// `fnv::FnvHasher`, the hasher of the table of a knowledge. Nothing is said
/// of what it holds.
#[verifier::external_type_specification]
#[verifier::external_body]
pub struct ExFnvHasher(FnvHasher);

/// `std::hash::BuildHasherDefault`, which makes the hashers of the table of a
/// knowledge. Nothing is said of what it holds.
#[verifier::external_type_specification]
#[verifier::external_body]
#[verifier::reject_recursive_types(H)]
pub struct ExBuildHasherDefault<H>(BuildHasherDefault<H>);

/// A value as a key. Two keys are equal when their bits are equal.
#[derive(Debug, Clone, Copy, PartialEq, Eq, Hash, Structural)]
pub struct WrappedValue(pub Value);

impl WrappedValue {
    /// The bits by which the key is hashed and compared.
    pub fn key(&self) -> (bits: u64)
        ensures
            bits == self.0,
    {
        self.0
    }
}

/// Whether the hashers of `table` hash alike: any two of them that are fed the
/// same bytes end with the same digest. This is a matter of the kind of
/// hasher that the table has, not of what the table holds.
pub open spec fn hashes_alike(table: &HashMap<Value, Equation, FnvBuildHasher>) -> bool {
    builds_valid_hashers::<FnvBuildHasher>()
}

/// Makes the table of a knowledge: `HashMap::default`, for a table whose
/// hashers are made by `fnv::FnvBuildHasher`.
///
/// Two things are taken on trust here. The table is empty. And its hashers
/// hash alike: `FnvHasher::default` always starts from the same offset basis,
/// `FnvHasher::write` changes what the hasher holds by the bytes that it is
/// given and by nothing else, and `FnvHasher::finish` returns what the hasher
/// holds.
#[verifier::external_body]
fn empty_table() -> (table: HashMap<Value, Equation, FnvBuildHasher>)
    ensures
        table@ =~= Map::empty(),
        hashes_alike(&table),
{
    HashMap::default()
}

/// Whether each equation of `m` stands under its own value.
pub open spec fn keyed_by_value(m: Map<Value, EquationView>) -> bool {
    forall|k: Value| m.contains_key(k) ==> (#[trigger] m[k]).value == k
}

/// `m` after `e` was offered to it: `e` is taken in where its value is new, or
/// where it is cheaper than the equation that `m` holds for that value.
pub open spec fn merged(m: Map<Value, EquationView>, e: EquationView) -> Map<Value, EquationView> {
    if m.contains_key(e.value) && m[e.value].cost <= e.cost {
        m
    } else {
        m.insert(e.value, e)
    }
}

/// For each value that is known to be reachable, the cheapest equation found
/// for it.
pub struct Knowledge {
    table: HashMap<Value, Equation, FnvBuildHasher>,
}

impl View for Knowledge {
    type V = Map<Value, EquationView>;

    closed spec fn view(&self) -> Map<Value, EquationView> {
        self.table@.map_values(|e: Equation| e@)
    }
}

impl Knowledge {
    /// What every knowledge that this module hands out satisfies: each equation
    /// stands under its own value, and the table can find it there.
    pub closed spec fn wf(&self) -> bool {
        &&& hashes_alike(&self.table)
        &&& forall|k: Value| self.table@.contains_key(k) ==> (#[trigger] self.table@[k]).value == k
    }

    /// In a well-formed knowledge each equation stands under its own value.
    pub proof fn lemma_keyed_by_value(&self)
        requires
            self.wf(),
        ensures
            keyed_by_value(self@),
    {
    }

    /// Knowledge of nothing.
    pub fn new() -> (knowledge: Knowledge)
        ensures
            knowledge.wf(),
            knowledge@ == Map::<Value, EquationView>::empty(),
    {
        let knowledge = Knowledge { table: empty_table() };
        assert(knowledge@ =~= Map::<Value, EquationView>::empty());
        knowledge
    }

    /// The number of values that are known.
    pub fn len(&self) -> (n: usize)
        requires
            self.wf(),
        ensures
            n == self@.len(),
    {
        proof {
            assert(self@.dom() =~= self.table@.dom());
        }
        self.table.len()
    }

    /// The equation that is known for the value `key`, if there is one.
    pub fn get(&self, key: WrappedValue) -> (found: Option<&Equation>)
        requires
            self.wf(),
        ensures
            match found {
                Some(e) => self@.contains_key(key.0) && e@ == self@[key.0],
                None => !self@.contains_key(key.0),
            },
    {
        let k = key.key();
        self.table.get(&k)
    }

    /// Offers an equation: it is taken in where nothing is known for its
    /// value yet, and where it is cheaper than what is known for its value.
    /// Otherwise nothing changes.
    pub fn merge(&mut self, equation: Equation)
        requires
            old(self).wf(),
        ensures
            final(self).wf(),
            final(self)@ == merged(old(self)@, equation@),
    {
        let k = equation.value;
        let take = match self.table.get(&k) {
            Some(known) => known.cost > equation.cost,
            None => true,
        };
        if take {
            self.table.insert(k, equation);
        }
        assert(self@ =~= merged(old(self)@, equation@));
    }

    /// The equations that are known, one for each value, in no stated order.
    pub fn equations(&self) -> (list: Vec<&Equation>)
        requires
            self.wf(),
        ensures
            forall|i: int|
                0 <= i < list@.len() ==> self@.contains_key((#[trigger] list@[i]).value)
                    && self@[list@[i].value] == list@[i]@,
            forall|k: Value|
                self@.contains_key(k) ==> exists|i: int|
                    0 <= i < list@.len() && (#[trigger] list@[i]).value == k,
            forall|i: int, j: int|
                0 <= i < j < list@.len() ==> (#[trigger] list@[i]).value != (
                #[trigger] list@[j]).value,
    {
        let mut list: Vec<&Equation> = Vec::new();
        let ghost entries = self.table.iter().remaining();
        proof {
            axiom_spec_hash_map_iter(&self.table);
        }
        for entry in it: self.table.iter()
            invariant
                it.seq() == entries,
                list@.len() == it.index(),
                forall|j: int| 0 <= j < list@.len() ==> *list@[j] == *(#[trigger] entries[j]).1,
        {
            list.push(entry.1);
        }
        proof {
            assert(entries.no_duplicates());
            assert forall|i: int| 0 <= i < list@.len() implies self@.contains_key(
                (#[trigger] list@[i]).value,
            ) && self@[list@[i].value] == list@[i]@ by {
                assert(self.table@.contains_key(*entries[i].0));
                assert(self.table@[*entries[i].0] == *entries[i].1);
            }
            assert forall|k: Value| self@.contains_key(k) implies exists|i: int|
                0 <= i < list@.len() && (#[trigger] list@[i]).value == k by {
                assert(self.table@.contains_key(k));
                assert(entries.contains((&k, &self.table@[k])));
                let i = choose|i: int| 0 <= i < entries.len() && entries[i] == (&k, &self.table@[k]);
                assert(list@[i].value == k);
            }
            assert forall|i: int, j: int| 0 <= i < j < list@.len() implies (#[trigger] list@[i]).value
                != (#[trigger] list@[j]).value by {
                assert(self.table@.contains_key(*entries[i].0));
                assert(self.table@.contains_key(*entries[j].0));
                if list@[i].value == list@[j].value {
                    assert(*entries[i].0 == *entries[j].0);
                    assert(entries[i] == entries[j]);
                }
            }
        }
        list
    }
}

} // verus!
