//! Joining what is known of the two sides of a cut: every binary operator on
//! every pair of a left and a right equation.

use vstd::prelude::*;

use crate::search::equation::{Equation, EquationView};
use crate::search::knowledge::{keyed_by_value, merged, Knowledge};
use crate::search::model::{costs_of, covers, entries, keeps_cheapest, Candidate};
use crate::search::{Cost, Searcher, Value};

verus! {

/// Whether the triple `p` comes before the triple `q`, the first parts
/// weighing most.
pub open spec fn precedes(p: (int, int, int), q: (int, int, int)) -> bool {
    p.0 < q.0 || (p.0 == q.0 && (p.1 < q.1 || (p.1 == q.1 && p.2 < q.2)))
}

/// The equations of a list as mathematical values.
pub open spec fn views(list: Seq<&Equation>) -> Seq<EquationView> {
    list.map_values(|e: &Equation| e@)
}

/// Whether `list` holds the equations of `k`, each once.
pub open spec fn lists(list: Seq<EquationView>, k: Map<Value, EquationView>) -> bool {
    &&& forall|i: int|
        0 <= i < list.len() ==> k.contains_key((#[trigger] list[i]).value) && k[list[i].value]
            == list[i]
    &&& forall|v: Value|
        k.contains_key(v) ==> exists|i: int| 0 <= i < list.len() && (#[trigger] list[i]).value == v
}

impl<U: Fn(Value) -> Option<Value>, B: Fn(Value, Value) -> Option<Value>> Searcher<U, B> {
    /// What the binary operator at `o` makes of the equation at `a` of `left`
    /// and the equation at `b` of `right`.
    pub open spec fn pairing(
        &self,
        o: int,
        left: Seq<EquationView>,
        a: int,
        right: Seq<EquationView>,
        b: int,
    ) -> Option<EquationView> {
        self.binary_ops@[o].combination(left[a], right[b])
    }

    /// Whether some binary operator makes `e` of an equation of `left` and an
    /// equation of `right`.
    pub open spec fn joins(
        &self,
        left: Map<Value, EquationView>,
        right: Map<Value, EquationView>,
        e: EquationView,
    ) -> bool {
        exists|o: int, a: Value, b: Value|
            0 <= o < self.binary_ops@.len() && left.contains_key(a) && right.contains_key(b) && (
            #[trigger] self.binary_ops@[o].combination(left[a], right[b])) == Some(e)
    }

    /// How far a join has come when it stands before the operator at `at.0`,
    /// the left equation at `at.1` and the right equation at `at.2`: `k`
    /// holds what `k0` held or something cheaper, it holds what every pairing
    /// before `at` made or something cheaper, and each equation that it holds
    /// was in `k0` or was made by a pairing.
    spec fn joining(
        &self,
        k0: Map<Value, EquationView>,
        k: Map<Value, EquationView>,
        left: Seq<EquationView>,
        right: Seq<EquationView>,
        at: (int, int, int),
    ) -> bool {
        &&& keyed_by_value(k)
        &&& forall|v: Value|
            #[trigger] k0.contains_key(v) ==> covers(costs_of(k), (v, k0[v].cost))
        &&& forall|o: int, a: int, b: int|
            0 <= o < self.binary_ops@.len() && 0 <= a < left.len() && 0 <= b < right.len()
                && precedes((o, a, b), at) ==> (match #[trigger] self.pairing(
                o,
                left,
                a,
                right,
                b,
            ) {
                Some(e) => covers(costs_of(k), (e.value, e.cost)),
                None => true,
            })
        &&& forall|v: Value| #[trigger]
            k.contains_key(v) ==> (k0.contains_key(v) && k[v] == k0[v]) || exists|
                o: int,
                a: int,
                b: int,
            |
                0 <= o < self.binary_ops@.len() && 0 <= a < left.len() && 0 <= b < right.len()
                    && #[trigger] self.pairing(o, left, a, right, b) == Some(k[v])
    }

    /// One pairing more: the join moves on by one right equation.
    proof fn lemma_joining_step(
        &self,
        k0: Map<Value, EquationView>,
        k: Map<Value, EquationView>,
        k1: Map<Value, EquationView>,
        left: Seq<EquationView>,
        right: Seq<EquationView>,
        o: int,
        a: int,
        b: int,
    )
        requires
            0 <= o < self.binary_ops@.len(),
            0 <= a < left.len(),
            0 <= b < right.len(),
            self.joining(k0, k, left, right, (o, a, b)),
            k1 == (match self.pairing(o, left, a, right, b) {
                Some(e) => merged(k, e),
                None => k,
            }),
        ensures
            self.joining(k0, k1, left, right, (o, a, b + 1)),
    {
        let made = self.pairing(o, left, a, right, b);
        assert forall|v: Value| #[trigger] k.contains_key(v) implies covers(
            costs_of(k1),
            (v, k[v].cost),
        ) by {}
        assert forall|o2: int, a2: int, b2: int|
            0 <= o2 < self.binary_ops@.len() && 0 <= a2 < left.len() && 0 <= b2 < right.len()
                && precedes((o2, a2, b2), (o, a, b + 1)) implies (match #[trigger] self.pairing(
            o2,
            left,
            a2,
            right,
            b2,
        ) {
            Some(e) => covers(costs_of(k1), (e.value, e.cost)),
            None => true,
        }) by {
            if precedes((o2, a2, b2), (o, a, b)) {
                match self.pairing(o2, left, a2, right, b2) {
                    Some(e) => {
                        assert(covers(costs_of(k), (e.value, e.cost)));
                        assert(k.contains_key(e.value));
                    },
                    None => {},
                }
            } else {
                assert(o2 == o && a2 == a && b2 == b);
            }
        }
        assert forall|v: Value| #[trigger] k1.contains_key(v) implies (k0.contains_key(v) && k1[v]
            == k0[v]) || exists|o2: int, a2: int, b2: int|
            0 <= o2 < self.binary_ops@.len() && 0 <= a2 < left.len() && 0 <= b2 < right.len()
                && #[trigger] self.pairing(o2, left, a2, right, b2) == Some(k1[v]) by {
            if k.contains_key(v) && k1[v] == k[v] {
            } else {
                assert(self.pairing(o, left, a, right, b) == Some(k1[v]));
            }
        }
        assert forall|v: Value| #[trigger] k0.contains_key(v) implies covers(
            costs_of(k1),
            (v, k0[v].cost),
        ) by {
            assert(covers(costs_of(k), (v, k0[v].cost)));
            assert(k.contains_key(v));
        }
    }

    /// A join that has come to the end says what `join` promises.
    proof fn lemma_joining_done(
        &self,
        k0: Map<Value, EquationView>,
        k: Map<Value, EquationView>,
        left: Seq<EquationView>,
        right: Seq<EquationView>,
        l: Map<Value, EquationView>,
        r: Map<Value, EquationView>,
    )
        requires
            self.joining(k0, k, left, right, (self.binary_ops@.len() as int, 0, 0)),
            lists(left, l),
            lists(right, r),
        ensures
            keeps_cheapest(
                costs_of(k),
                entries(costs_of(k0)) + self.joined(costs_of(l), costs_of(r)),
            ),
            forall|v: Value| #[trigger]
                k.contains_key(v) ==> (k0.contains_key(v) && k[v] == k0[v]) || self.joins(
                    l,
                    r,
                    k[v],
                ),
    {
        let s = entries(costs_of(k0)) + self.joined(costs_of(l), costs_of(r));
        assert forall|c: Candidate| #[trigger] s.contains(c) implies covers(costs_of(k), c) by {
            if entries(costs_of(k0)).contains(c) {
                assert(k0.contains_key(c.0));
            } else {
                let (o, a, b) = choose|o: int, a: Value, b: Value|
                    0 <= o < self.binary_ops@.len() && costs_of(l).contains_key(a) && costs_of(
                        r,
                    ).contains_key(b) && (#[trigger] self.binary_ops@[o].result(a, b)) == Some(c.0)
                        && c.1 == costs_of(l)[a] + costs_of(r)[b] + self.binary_ops@[o].cost;
                assert(l.contains_key(a) && r.contains_key(b));
                let i = choose|i: int| 0 <= i < left.len() && (#[trigger] left[i]).value == a;
                let j = choose|j: int| 0 <= j < right.len() && (#[trigger] right[j]).value == b;
                assert(precedes((o, i, j), (self.binary_ops@.len() as int, 0, 0)));
                let e = self.pairing(o, left, i, right, j).unwrap();
                assert(covers(costs_of(k), (e.value, e.cost)));
            }
        }
        assert forall|v: Value| #[trigger] k.contains_key(v) implies (k0.contains_key(v) && k[v]
            == k0[v]) || self.joins(l, r, k[v]) by {
            if !(k0.contains_key(v) && k[v] == k0[v]) {
                let (o, a, b) = choose|o: int, a: int, b: int|
                    0 <= o < self.binary_ops@.len() && 0 <= a < left.len() && 0 <= b < right.len()
                        && #[trigger] self.pairing(o, left, a, right, b) == Some(k[v]);
                assert(l.contains_key(left[a].value) && r.contains_key(right[b].value));
                assert(self.binary_ops@[o].combination(l[left[a].value], r[right[b].value])
                    == Some(k[v]));
            }
        }
        assert forall|v: Value| #[trigger] costs_of(k).contains_key(v) implies s.contains(
            (v, costs_of(k)[v]),
        ) by {
            assert(k.contains_key(v));
            if k0.contains_key(v) && k[v] == k0[v] {
                assert(entries(costs_of(k0)).contains((v, costs_of(k)[v])));
            } else {
                let (o, a, b) = choose|o: int, a: Value, b: Value|
                    0 <= o < self.binary_ops@.len() && l.contains_key(a) && r.contains_key(b) && (
                    #[trigger] self.binary_ops@[o].combination(l[a], r[b])) == Some(k[v]);
                assert(self.binary_ops@[o].result(a, b) == Some(v)) by {
                    assert(l[a].value == a && r[b].value == b);
                }
                assert(self.joined(costs_of(l), costs_of(r)).contains((v, costs_of(k)[v])));
            }
        }
    }

    /// Whether `knowledge` can be joined with `left` and `right`: the three are
    /// well formed, and no cost of a pair leaves `Cost`.
    pub open spec fn can_join(&self, left: Knowledge, right: Knowledge, knowledge: Knowledge) -> bool {
        &&& left.wf()
        &&& right.wf()
        &&& knowledge.wf()
        &&& forall|a: Value, b: Value|
            left@.contains_key(a) && right@.contains_key(b) ==> (#[trigger] left@[a]).cost + (
            #[trigger] right@[b]).cost + u8::MAX <= Cost::MAX
    }

    /// Whether `after` is `before` joined with `left` and `right`: it holds,
    /// for each value that `before` held or that some binary operator made of
    /// an equation of `left` and one of `right`, the least cost among those;
    /// and each equation in it is one that `before` held or one that an
    /// operator made of such a pair.
    pub open spec fn joined_into(
        &self,
        left: Map<Value, EquationView>,
        right: Map<Value, EquationView>,
        before: Map<Value, EquationView>,
        after: Knowledge,
    ) -> bool {
        &&& after.wf()
        &&& keeps_cheapest(
            costs_of(after@),
            entries(costs_of(before)) + self.joined(costs_of(left), costs_of(right)),
        )
        &&& forall|v: Value| #[trigger]
            after@.contains_key(v) ==> (before.contains_key(v) && after@[v] == before[v])
                || self.joins(left, right, after@[v])
    }

    /// Whether `join` joins: it can be called wherever a knowledge can be
    /// joined, and what it returns is the knowledge joined.
    pub open spec fn joins_with<J: Fn(&Knowledge, &Knowledge, Knowledge) -> Knowledge>(
        &self,
        join: J,
    ) -> bool {
        &&& forall|left: &Knowledge, right: &Knowledge, knowledge: Knowledge|
            self.can_join(*left, *right, knowledge) ==> #[trigger] call_requires(
                join,
                (left, right, knowledge),
            )
        &&& forall|left: &Knowledge, right: &Knowledge, knowledge: Knowledge, after: Knowledge|
            self.can_join(*left, *right, knowledge) && #[trigger] call_ensures(
                join,
                (left, right, knowledge),
                after,
            ) ==> self.joined_into(left@, right@, knowledge@, after)
    }

    /// Offers to `knowledge` what every binary operator makes of every
    /// equation of `left` with every equation of `right`.
    ///
    /// Afterwards `knowledge` holds, for each value that it held or that some
    /// operator made of such a pair, the least cost among those; and each
    /// equation in it is one that it held or one that an operator made of
    /// such a pair.
    pub fn join(&self, left: &Knowledge, right: &Knowledge, knowledge: &mut Knowledge)
        requires
            self.wf(),
            left.wf(),
            right.wf(),
            old(knowledge).wf(),
            forall|a: Value, b: Value|
                left@.contains_key(a) && right@.contains_key(b) ==> (#[trigger] left@[a]).cost + (
                #[trigger] right@[b]).cost + u8::MAX <= Cost::MAX,
        ensures
            final(knowledge).wf(),
            keeps_cheapest(
                costs_of(final(knowledge)@),
                entries(costs_of(old(knowledge)@)) + self.joined(costs_of(left@), costs_of(right@)),
            ),
            forall|v: Value| #[trigger]
                final(knowledge)@.contains_key(v) ==> (old(knowledge)@.contains_key(v)
                    && final(knowledge)@[v] == old(knowledge)@[v]) || self.joins(
                    left@,
                    right@,
                    final(knowledge)@[v],
                ),
    {
        let lv = left.equations();
        let rv = right.equations();
        let ghost ls = views(lv@);
        let ghost rs = views(rv@);
        let ghost k0 = knowledge@;
        proof {
            knowledge.lemma_keyed_by_value();
            left.lemma_keyed_by_value();
            right.lemma_keyed_by_value();
            assert(lists(ls, left@)) by {
                assert forall|v: Value| left@.contains_key(v) implies exists|i: int|
                    0 <= i < ls.len() && (#[trigger] ls[i]).value == v by {
                    let i = choose|i: int| 0 <= i < lv@.len() && (#[trigger] lv@[i]).value == v;
                    assert(ls[i].value == v);
                }
            }
            assert(lists(rs, right@)) by {
                assert forall|v: Value| right@.contains_key(v) implies exists|i: int|
                    0 <= i < rs.len() && (#[trigger] rs[i]).value == v by {
                    let i = choose|i: int| 0 <= i < rv@.len() && (#[trigger] rv@[i]).value == v;
                    assert(rs[i].value == v);
                }
            }
        }
        let mut o: usize = 0;
        while o < self.binary_ops.len()
            invariant
                o <= self.binary_ops@.len(),
                self.wf(),
                knowledge.wf(),
                ls == views(lv@),
                rs == views(rv@),
                lists(ls, left@),
                lists(rs, right@),
                forall|a: Value, b: Value|
                    left@.contains_key(a) && right@.contains_key(b) ==> (#[trigger] left@[a]).cost
                        + (#[trigger] right@[b]).cost + u8::MAX <= Cost::MAX,
                self.joining(k0, knowledge@, ls, rs, (o as int, 0, 0)),
            decreases self.binary_ops@.len() - o,
        {
            let op = &self.binary_ops[o];
            let mut a: usize = 0;
            while a < lv.len()
                invariant
                    o < self.binary_ops@.len(),
                    a <= lv@.len(),
                    *op == self.binary_ops@[o as int],
                    self.wf(),
                    knowledge.wf(),
                    ls == views(lv@),
                    rs == views(rv@),
                    lists(ls, left@),
                    lists(rs, right@),
                    forall|a: Value, b: Value|
                        left@.contains_key(a) && right@.contains_key(b) ==> (
                        #[trigger] left@[a]).cost + (#[trigger] right@[b]).cost + u8::MAX
                            <= Cost::MAX,
                    self.joining(k0, knowledge@, ls, rs, (o as int, a as int, 0)),
                decreases lv@.len() - a,
            {
                let mut b: usize = 0;
                while b < rv.len()
                    invariant
                        o < self.binary_ops@.len(),
                        a < lv@.len(),
                        b <= rv@.len(),
                        *op == self.binary_ops@[o as int],
                        self.wf(),
                        knowledge.wf(),
                        ls == views(lv@),
                        rs == views(rv@),
                        lists(ls, left@),
                        lists(rs, right@),
                        forall|a: Value, b: Value|
                            left@.contains_key(a) && right@.contains_key(b) ==> (
                            #[trigger] left@[a]).cost + (#[trigger] right@[b]).cost + u8::MAX
                                <= Cost::MAX,
                        self.joining(k0, knowledge@, ls, rs, (o as int, a as int, b as int)),
                    decreases rv@.len() - b,
                {
                    let ghost before = knowledge@;
                    proof {
                        assert(ls[a as int] == lv@[a as int]@);
                        assert(rs[b as int] == rv@[b as int]@);
                        assert(left@.contains_key(ls[a as int].value));
                        assert(right@.contains_key(rs[b as int].value));
                    }
                    match Equation::apply_binary(lv[a], rv[b], op) {
                        Some(e) => {
                            knowledge.merge(e);
                        },
                        None => {},
                    }
                    proof {
                        self.lemma_joining_step(
                            k0,
                            before,
                            knowledge@,
                            ls,
                            rs,
                            o as int,
                            a as int,
                            b as int,
                        );
                    }
                    b = b + 1;
                }
                a = a + 1;
            }
            o = o + 1;
        }
        proof {
            self.lemma_joining_done(k0, knowledge@, ls, rs, left@, right@);
        }
    }
}

} // verus!
