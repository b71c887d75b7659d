//! What has been found so far, by digit string.

use vstd::prelude::*;
use vstd::string::*;

use crate::search::equation::EquationView;
use crate::search::knowledge::Knowledge;
use crate::search::Value;

verus! {

/// The knowledge of each digit string that has been searched, under the
/// string itself: the same digits found at two places of an input share one
/// entry.
///
/// The entries stand in a list, which is looked through from its head: of
/// a hash map with strings for keys nothing can be proved, since nothing says
/// that equal strings hash alike. A search has few entries, one for each
/// part of its digits.
pub struct Memo {
    entries: Vec<(String, Knowledge)>,
}

impl View for Memo {
    type V = Map<Seq<char>, Map<Value, EquationView>>;

    closed spec fn view(&self) -> Map<Seq<char>, Map<Value, EquationView>> {
        Map::new(
            |digits: Seq<char>| self.position(digits) is Some,
            |digits: Seq<char>| self.entries@[self.position(digits).unwrap()].1@,
        )
    }
}

impl Memo {
    /// Where the entry of `digits` stands, if there is one.
    closed spec fn position(&self, digits: Seq<char>) -> Option<int> {
        if exists|i: int| 0 <= i < self.entries@.len() && (#[trigger] self.entries@[i]).0@ == digits {
            Some(
                choose|i: int|
                    0 <= i < self.entries@.len() && (#[trigger] self.entries@[i]).0@ == digits,
            )
        } else {
            None
        }
    }

    /// What every memo that this module hands out satisfies: no digit string
    /// has two entries, and each knowledge in it is well formed.
    pub closed spec fn wf(&self) -> bool {
        &&& forall|i: int, j: int|
            0 <= i < j < self.entries@.len() ==> (#[trigger] self.entries@[i]).0@ != (
            #[trigger] self.entries@[j]).0@
        &&& forall|i: int| 0 <= i < self.entries@.len() ==> (#[trigger] self.entries@[i]).1.wf()
    }

    /// A memo without entries.
    pub fn new() -> (memo: Memo)
        ensures
            memo.wf(),
            memo@ == Map::<Seq<char>, Map<Value, EquationView>>::empty(),
    {
        let memo = Memo { entries: Vec::new() };
        assert(memo@ =~= Map::<Seq<char>, Map<Value, EquationView>>::empty());
        memo
    }

    /// The number of digit strings that have an entry.
    pub fn len(&self) -> (n: usize)
        requires
            self.wf(),
        ensures
            n == self@.len(),
    {
        proof {
            self.lemma_len();
        }
        self.entries.len()
    }

    proof fn lemma_len(&self)
        requires
            self.wf(),
        ensures
            self@.dom().finite(),
            self@.len() == self.entries@.len(),
    {
        let keys = self.entries@.map_values(|p: (String, Knowledge)| p.0@);
        assert(keys.no_duplicates());
        keys.unique_seq_to_set();
        assert(keys.to_set() =~= self@.dom()) by {
            assert forall|d: Seq<char>| keys.to_set().contains(d) implies self@.dom().contains(
                d,
            ) by {
                let i = choose|i: int| 0 <= i < keys.len() && keys[i] == d;
                assert(self.entries@[i].0@ == d);
            }
            assert forall|d: Seq<char>| self@.dom().contains(d) implies keys.to_set().contains(
                d,
            ) by {
                let i = self.position(d).unwrap();
                assert(keys[i] == d);
            }
        }
    }

    /// Where the entry of `key` stands.
    fn find(&self, key: &str) -> (at: Option<usize>)
        requires
            self.wf(),
        ensures
            match at {
                Some(i) => i < self.entries@.len() && self.position(key@) == Some(i as int),
                None => self.position(key@) is None,
            },
    {
        let wanted = key.to_owned();
        let mut i: usize = 0;
        while i < self.entries.len()
            invariant
                i <= self.entries@.len(),
                wanted@ == key@,
                self.wf(),
                forall|j: int| 0 <= j < i ==> (#[trigger] self.entries@[j]).0@ != key@,
            decreases self.entries@.len() - i,
        {
            if self.entries[i].0 == wanted {
                proof {
                    let at = self.position(key@).unwrap();
                    assert(self.entries@[i as int].0@ == key@);
                    assert(at == i);
                }
                return Some(i);
            }
            i = i + 1;
        }
        None
    }

    /// Whether `key` has an entry.
    pub fn contains_key(&self, key: &str) -> (found: bool)
        requires
            self.wf(),
        ensures
            found == self@.contains_key(key@),
    {
        self.find(key).is_some()
    }

    /// The knowledge of `key`, if it has an entry.
    pub fn get(&self, key: &str) -> (found: Option<&Knowledge>)
        requires
            self.wf(),
        ensures
            match found {
                Some(knowledge) => self@.contains_key(key@) && knowledge@ == self@[key@]
                    && knowledge.wf(),
                None => !self@.contains_key(key@),
            },
    {
        match self.find(key) {
            Some(i) => Some(&self.entries[i].1),
            None => None,
        }
    }

    /// Puts `knowledge` under `key`, in place of what stood there.
    pub fn insert(&mut self, key: &str, knowledge: Knowledge)
        requires
            old(self).wf(),
            knowledge.wf(),
        ensures
            final(self).wf(),
            final(self)@ == old(self)@.insert(key@, knowledge@),
    {
        let ghost added = knowledge@;
        match self.find(key) {
            Some(i) => {
                self.entries.set(i, (key.to_owned(), knowledge));
                proof {
                    assert forall|d: Seq<char>| true implies self.position(d) == old(
                        self,
                    ).position(d) by {
                        assert forall|j: int| 0 <= j < self.entries@.len() implies (
                        #[trigger] self.entries@[j]).0@ == old(self).entries@[j].0@ by {}
                        if old(self).position(d) is Some {
                            let j = old(self).position(d).unwrap();
                            assert(self.entries@[j].0@ == d);
                            let k = self.position(d).unwrap();
                            assert(old(self).entries@[k].0@ == d);
                        } else if self.position(d) is Some {
                            let k = self.position(d).unwrap();
                            assert(old(self).entries@[k].0@ == d);
                        }
                    }
                }
            },
            None => {
                self.entries.push((key.to_owned(), knowledge));
                proof {
                    let last = old(self).entries@.len() as int;
                    assert(self.entries@[last].0@ == key@);
                    assert(self.position(key@) == Some(last));
                    assert forall|d: Seq<char>| d != key@ implies self.position(d) == old(
                        self,
                    ).position(d) by {
                        if old(self).position(d) is Some {
                            let j = old(self).position(d).unwrap();
                            assert(self.entries@[j].0@ == d);
                            let k = self.position(d).unwrap();
                            assert(old(self).entries@[k].0@ == d);
                        } else if self.position(d) is Some {
                            let k = self.position(d).unwrap();
                            assert(old(self).entries@[k].0@ == d);
                        }
                    }
                }
            },
        }
        assert(self@ =~= old(self)@.insert(key@, added));
    }
}

} // verus!
