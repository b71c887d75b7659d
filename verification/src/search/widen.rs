//! One round of unary operators: every unary operator on every equation that
//! is known when the round begins.

use vstd::prelude::*;

use crate::search::equation::{Equation, EquationView};
use crate::search::join::{lists, views};
use crate::search::knowledge::{keyed_by_value, merged, Knowledge};
use crate::search::model::{costs_of, covers, entries, keeps_cheapest, Candidate};
use crate::search::{Cost, Searcher, Value};

verus! {

/// Whether the pair `p` comes before the pair `q`, the first part weighing
/// more.
pub open spec fn comes_before(p: (int, int), q: (int, int)) -> bool {
    p.0 < q.0 || (p.0 == q.0 && p.1 < q.1)
}

/// The equations of a list as mathematical values.
pub open spec fn owned_views(list: Seq<Equation>) -> Seq<EquationView> {
    list.map_values(|e: Equation| e@)
}

impl<U: Fn(Value) -> Option<Value>, B: Fn(Value, Value) -> Option<Value>> Searcher<U, B> {
    /// What the unary operator at `o` makes of the equation at `a` of `list`.
    pub open spec fn step(&self, o: int, list: Seq<EquationView>, a: int) -> Option<EquationView> {
        self.unary_ops@[o].extension(list[a])
    }

    /// Whether some unary operator makes `e` of an equation of `k`.
    pub open spec fn extends(&self, k: Map<Value, EquationView>, e: EquationView) -> bool {
        exists|o: int, a: Value|
            0 <= o < self.unary_ops@.len() && k.contains_key(a) && (
            #[trigger] self.unary_ops@[o].extension(k[a])) == Some(e)
    }

    /// How far the first half of a round has come when it stands before the
    /// operator at `at.0` and the equation at `at.1`: `made` holds what every
    /// step before `at` made, and nothing else.
    spec fn collecting(&self, list: Seq<EquationView>, made: Seq<EquationView>, at: (int, int)) -> bool {
        &&& forall|o: int, a: int|
            0 <= o < self.unary_ops@.len() && 0 <= a < list.len() && comes_before((o, a), at) ==> (
            match #[trigger] self.step(o, list, a) {
                Some(e) => made.contains(e),
                None => true,
            })
        &&& forall|i: int| 0 <= i < made.len() ==> self.steps_to(list, #[trigger] made[i])
    }

    /// Whether some unary operator makes `e` of an equation of `list`.
    spec fn steps_to(&self, list: Seq<EquationView>, e: EquationView) -> bool {
        exists|o: int, a: int|
            0 <= o < self.unary_ops@.len() && 0 <= a < list.len() && #[trigger] self.step(
                o,
                list,
                a,
            ) == Some(e)
    }

    /// One step more: the first half of a round moves on by one equation.
    proof fn lemma_collecting_step(
        &self,
        list: Seq<EquationView>,
        made: Seq<EquationView>,
        made1: Seq<EquationView>,
        o: int,
        a: int,
    )
        requires
            0 <= o < self.unary_ops@.len(),
            0 <= a < list.len(),
            self.collecting(list, made, (o, a)),
            made1 == (match self.step(o, list, a) {
                Some(e) => made.push(e),
                None => made,
            }),
        ensures
            self.collecting(list, made1, (o, a + 1)),
    {
        assert forall|e: EquationView| made.contains(e) implies made1.contains(e) by {
            let i = choose|i: int| 0 <= i < made.len() && made[i] == e;
            assert(made1[i] == e);
        }
        assert forall|o2: int, a2: int|
            0 <= o2 < self.unary_ops@.len() && 0 <= a2 < list.len() && comes_before(
                (o2, a2),
                (o, a + 1),
            ) implies (match #[trigger] self.step(o2, list, a2) {
            Some(e) => made1.contains(e),
            None => true,
        }) by {
            if comes_before((o2, a2), (o, a)) {
            } else {
                assert(o2 == o && a2 == a);
                match self.step(o, list, a) {
                    Some(e) => {
                        assert(made1[made.len() as int] == e);
                    },
                    None => {},
                }
            }
        }
        assert forall|i: int| 0 <= i < made1.len() implies self.steps_to(
            list,
            #[trigger] made1[i],
        ) by {
            if i < made.len() {
                assert(made1[i] == made[i]);
            } else {
                assert(self.step(o, list, a) == Some(made1[i]));
            }
        }
    }

    /// How far the second half of a round has come when the first `n`
    /// equations of `made` have been offered: `k` holds what `k0` held or
    /// something cheaper, it holds what was offered or something cheaper, and
    /// each equation that it holds was in `k0` or is one of `made`.
    spec fn merging(
        &self,
        k0: Map<Value, EquationView>,
        k: Map<Value, EquationView>,
        made: Seq<EquationView>,
        n: int,
    ) -> bool {
        &&& keyed_by_value(k)
        &&& forall|v: Value|
            #[trigger] k0.contains_key(v) ==> covers(costs_of(k), (v, k0[v].cost))
        &&& forall|i: int|
            0 <= i < n && i < made.len() ==> covers(
                costs_of(k),
                ((#[trigger] made[i]).value, made[i].cost),
            )
        &&& forall|v: Value| #[trigger]
            k.contains_key(v) ==> (k0.contains_key(v) && k[v] == k0[v]) || made.contains(k[v])
    }

    /// One offer more.
    proof fn lemma_merging_step(
        &self,
        k0: Map<Value, EquationView>,
        k: Map<Value, EquationView>,
        made: Seq<EquationView>,
        n: int,
    )
        requires
            0 <= n < made.len(),
            self.merging(k0, k, made, n),
        ensures
            self.merging(k0, merged(k, made[n]), made, n + 1),
    {
        let k1 = merged(k, made[n]);
        assert forall|v: Value| #[trigger] k0.contains_key(v) implies covers(
            costs_of(k1),
            (v, k0[v].cost),
        ) by {
            assert(covers(costs_of(k), (v, k0[v].cost)));
            assert(k.contains_key(v));
        }
        assert forall|i: int| 0 <= i < n + 1 && i < made.len() implies covers(
            costs_of(k1),
            ((#[trigger] made[i]).value, made[i].cost),
        ) by {
            if i < n {
                assert(covers(costs_of(k), (made[i].value, made[i].cost)));
                assert(k.contains_key(made[i].value));
            }
        }
        assert forall|v: Value| #[trigger] k1.contains_key(v) implies (k0.contains_key(v) && k1[v]
            == k0[v]) || made.contains(k1[v]) by {
            if k.contains_key(v) && k1[v] == k[v] {
            } else {
                assert(k1[v] == made[n]);
            }
        }
    }

    /// A round that has come to the end says what `widen` promises.
    proof fn lemma_round_done(
        &self,
        k0: Map<Value, EquationView>,
        k: Map<Value, EquationView>,
        list: Seq<EquationView>,
        made: Seq<EquationView>,
    )
        requires
            keyed_by_value(k0),
            lists(list, k0),
            self.collecting(list, made, (self.unary_ops@.len() as int, 0)),
            self.merging(k0, k, made, made.len() as int),
        ensures
            keeps_cheapest(costs_of(k), entries(costs_of(k0)) + self.applied(costs_of(k0))),
            forall|v: Value| #[trigger]
                k.contains_key(v) ==> (k0.contains_key(v) && k[v] == k0[v]) || self.extends(
                    k0,
                    k[v],
                ),
    {
        let s = entries(costs_of(k0)) + self.applied(costs_of(k0));
        assert forall|c: Candidate| #[trigger] s.contains(c) implies covers(costs_of(k), c) by {
            if entries(costs_of(k0)).contains(c) {
                assert(k0.contains_key(c.0));
            } else {
                let (o, a) = choose|o: int, a: Value|
                    0 <= o < self.unary_ops@.len() && costs_of(k0).contains_key(a) && (
                    #[trigger] self.unary_ops@[o].result(a)) == Some(c.0) && c.1 == costs_of(k0)[a]
                        + self.unary_ops@[o].cost;
                assert(k0.contains_key(a));
                let i = choose|i: int| 0 <= i < list.len() && (#[trigger] list[i]).value == a;
                assert(comes_before((o, i), (self.unary_ops@.len() as int, 0)));
                let e = self.step(o, list, i).unwrap();
                assert(made.contains(e));
                let j = choose|j: int| 0 <= j < made.len() && made[j] == e;
                assert(covers(costs_of(k), (made[j].value, made[j].cost)));
            }
        }
        assert forall|v: Value| #[trigger] k.contains_key(v) implies (k0.contains_key(v) && k[v]
            == k0[v]) || self.extends(k0, k[v]) by {
            if !(k0.contains_key(v) && k[v] == k0[v]) {
                let j = choose|j: int| 0 <= j < made.len() && made[j] == k[v];
                assert(self.steps_to(list, made[j]));
                let (o, a) = choose|o: int, a: int|
                    0 <= o < self.unary_ops@.len() && 0 <= a < list.len() && #[trigger] self.step(
                        o,
                        list,
                        a,
                    ) == Some(made[j]);
                assert(k0.contains_key(list[a].value));
                assert(self.unary_ops@[o].extension(k0[list[a].value]) == Some(k[v]));
            }
        }
        assert forall|v: Value| #[trigger] costs_of(k).contains_key(v) implies s.contains(
            (v, costs_of(k)[v]),
        ) by {
            assert(k.contains_key(v));
            if k0.contains_key(v) && k[v] == k0[v] {
                assert(entries(costs_of(k0)).contains((v, costs_of(k)[v])));
            } else {
                let (o, a) = choose|o: int, a: Value|
                    0 <= o < self.unary_ops@.len() && k0.contains_key(a) && (
                    #[trigger] self.unary_ops@[o].extension(k0[a])) == Some(k[v]);
                assert(k0[a].value == a);
                assert(self.unary_ops@[o].result(a) == Some(v));
                assert(self.applied(costs_of(k0)).contains((v, costs_of(k)[v])));
            }
        }
    }

    /// What every unary operator makes of every equation of `knowledge`.
    fn extensions(&self, knowledge: &Knowledge) -> (made: Vec<Equation>)
        requires
            self.wf(),
            knowledge.wf(),
            forall|a: Value|
                knowledge@.contains_key(a) ==> (#[trigger] knowledge@[a]).cost + u8::MAX
                    <= Cost::MAX,
        ensures
            exists|list: Seq<EquationView>|
                lists(list, knowledge@) && #[trigger] self.collecting(
                    list,
                    owned_views(made@),
                    (self.unary_ops@.len() as int, 0),
                ),
    {
        let list = knowledge.equations();
        let ghost ls = views(list@);
        proof {
            assert(lists(ls, knowledge@)) by {
                assert forall|v: Value| knowledge@.contains_key(v) implies exists|i: int|
                    0 <= i < ls.len() && (#[trigger] ls[i]).value == v by {
                    let i = choose|i: int|
                        0 <= i < list@.len() && (#[trigger] list@[i]).value == v;
                    assert(ls[i].value == v);
                }
            }
        }
        let mut made: Vec<Equation> = Vec::new();
        let mut o: usize = 0;
        while o < self.unary_ops.len()
            invariant
                o <= self.unary_ops@.len(),
                self.wf(),
                ls == views(list@),
                lists(ls, knowledge@),
                forall|a: Value|
                    knowledge@.contains_key(a) ==> (#[trigger] knowledge@[a]).cost + u8::MAX
                        <= Cost::MAX,
                self.collecting(ls, owned_views(made@), (o as int, 0)),
            decreases self.unary_ops@.len() - o,
        {
            let op = &self.unary_ops[o];
            let mut a: usize = 0;
            while a < list.len()
                invariant
                    o < self.unary_ops@.len(),
                    a <= list@.len(),
                    *op == self.unary_ops@[o as int],
                    self.wf(),
                    ls == views(list@),
                    lists(ls, knowledge@),
                    forall|a: Value|
                        knowledge@.contains_key(a) ==> (#[trigger] knowledge@[a]).cost + u8::MAX
                            <= Cost::MAX,
                    self.collecting(ls, owned_views(made@), (o as int, a as int)),
                decreases list@.len() - a,
            {
                let ghost before = owned_views(made@);
                proof {
                    assert(ls[a as int] == list@[a as int]@);
                    assert(knowledge@.contains_key(ls[a as int].value));
                }
                match Equation::apply_unary(list[a], op) {
                    Some(e) => {
                        made.push(e);
                        assert(owned_views(made@) =~= before.push(e@));
                    },
                    None => {},
                }
                proof {
                    self.lemma_collecting_step(ls, before, owned_views(made@), o as int, a as int);
                }
                a = a + 1;
            }
            proof {
                let ms = owned_views(made@);
                assert forall|o2: int, a2: int|
                    0 <= o2 < self.unary_ops@.len() && 0 <= a2 < ls.len() && comes_before(
                        (o2, a2),
                        (o + 1, 0),
                    ) implies (match #[trigger] self.step(o2, ls, a2) {
                    Some(e) => ms.contains(e),
                    None => true,
                }) by {
                    assert(comes_before((o2, a2), (o as int, a as int)));
                }
            }
            o = o + 1;
        }
        made
    }

    /// Whether a round can be made on `knowledge`: it is well formed, and no
    /// cost of an extension leaves `Cost`.
    pub open spec fn can_widen(&self, knowledge: Knowledge) -> bool {
        &&& knowledge.wf()
        &&& forall|a: Value|
            knowledge@.contains_key(a) ==> (#[trigger] knowledge@[a]).cost + u8::MAX <= Cost::MAX
    }

    /// Whether `after` is `before` after one round: it holds, for each value
    /// that `before` held or that some unary operator made of an equation of
    /// `before`, the least cost among those; and each equation in it is one
    /// that `before` held or one that an operator made of one of `before`.
    pub open spec fn widened_into(&self, before: Map<Value, EquationView>, after: Knowledge) -> bool {
        &&& after.wf()
        &&& keeps_cheapest(
            costs_of(after@),
            entries(costs_of(before)) + self.applied(costs_of(before)),
        )
        &&& forall|v: Value| #[trigger]
            after@.contains_key(v) ==> (before.contains_key(v) && after@[v] == before[v])
                || self.extends(before, after@[v])
    }

    /// Whether `widen` makes a round: it can be called wherever a round can
    /// be made, and what it returns is the knowledge after the round.
    pub open spec fn widens_with<W: Fn(Knowledge) -> Knowledge>(&self, widen: W) -> bool {
        &&& forall|knowledge: Knowledge|
            self.can_widen(knowledge) ==> #[trigger] call_requires(widen, (knowledge,))
        &&& forall|knowledge: Knowledge, after: Knowledge|
            self.can_widen(knowledge) && #[trigger] call_ensures(widen, (knowledge,), after)
                ==> self.widened_into(knowledge@, after)
    }

    /// Makes one round of unary operators: offers to `knowledge` what every
    /// unary operator makes of every equation that it holds when the round
    /// begins.
    ///
    /// Afterwards `knowledge` holds, for each value that it held or that some
    /// operator made of an equation that it held, the least cost among those;
    /// and each equation in it is one that it held or one that an operator
    /// made of one that it held.
    pub fn widen(&self, knowledge: &mut Knowledge)
        requires
            self.wf(),
            old(knowledge).wf(),
            forall|a: Value|
                old(knowledge)@.contains_key(a) ==> (#[trigger] old(knowledge)@[a]).cost + u8::MAX
                    <= Cost::MAX,
        ensures
            final(knowledge).wf(),
            keeps_cheapest(
                costs_of(final(knowledge)@),
                entries(costs_of(old(knowledge)@)) + self.applied(costs_of(old(knowledge)@)),
            ),
            forall|v: Value| #[trigger]
                final(knowledge)@.contains_key(v) ==> (old(knowledge)@.contains_key(v)
                    && final(knowledge)@[v] == old(knowledge)@[v]) || self.extends(
                    old(knowledge)@,
                    final(knowledge)@[v],
                ),
    {
        let made = self.extensions(knowledge);
        let ghost k0 = knowledge@;
        let ghost ms = owned_views(made@);
        let ghost ls = choose|list: Seq<EquationView>|
            lists(list, k0) && #[trigger] self.collecting(
                list,
                ms,
                (self.unary_ops@.len() as int, 0),
            );
        proof {
            knowledge.lemma_keyed_by_value();
        }
        for e in it: made
            invariant
                knowledge.wf(),
                it.seq() == made@,
                ms == owned_views(made@),
                self.merging(k0, knowledge@, ms, it.index()),
        {
            proof {
                assert(ms[it.index()] == e@);
                self.lemma_merging_step(k0, knowledge@, ms, it.index());
            }
            knowledge.merge(e);
        }
        proof {
            self.lemma_round_done(k0, knowledge@, ls, ms);
        }
    }
}

} // verus!
