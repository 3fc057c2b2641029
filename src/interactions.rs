//! The rules of inference: which nodes and wires a player may act on, and
//! what acting on them does to the case tree.
use vstd::prelude::*;
use crate::case::{Case, Edit, Node, ValidityReason, Wire};
use crate::case_tree::CaseTree;
use crate::expression::{ExprView, Expression};

verus! {

impl Case {
    /// Every wire of `v` is proven.
    pub open spec fn all_proven(&self, v: Seq<usize>) -> bool {
        forall|k: int| 0 <= k < v.len() ==> self.is_proven(#[trigger] v[k])
    }

    /// Some wire of `v` is proven.
    pub open spec fn any_proven(&self, v: Seq<usize>) -> bool {
        exists|k: int| 0 <= k < v.len() && self.is_proven(#[trigger] v[k])
    }

    /// The wire of `n` is the goal.
    pub open spec fn is_goal(&self, n: usize) -> bool {
        match self.goal_wire() {
            Some(g) => self.same(g.0.0, n),
            None => false,
        }
    }

    /// Whether a click on node `n` applies a rule: the rule for its
    /// connective, in the direction that its output's proven status selects.
    pub open spec fn node_interaction(&self, n: usize) -> bool {
        let out = self.is_proven(n);
        match self.expr(n) {
            ExprView::And(v) => if out {
                !self.all_proven(v)
            } else {
                self.all_proven(v)
            },
            ExprView::Or(v) => if out {
                !self.any_proven(v)
            } else {
                self.any_proven(v)
            },
            ExprView::Implies(h, c) => if out {
                self.is_proven(h) && !self.is_proven(c)
            } else {
                self.is_goal(n)
            },
            ExprView::Equal(a, b) => if out {
                self.same(a, b)
            } else {
                !self.same(a, b)
            },
            ExprView::Variable(_, _) => false,
            ExprView::Function(_, _, _) => false,
        }
    }

    /// Whether the player may commit to proving wire `w` next.
    pub open spec fn wire_interaction(&self, w: usize) -> bool {
        !self.is_proven(w) && !self.is_goal(w)
    }

    pub fn node_has_interaction(&self, node: Node) -> (r: bool)
        requires
            self.wf(),
            node.0 < self.len(),
            self.expr(node.0) is Implies && !self.is_proven(node.0) ==> self.goal_wire() is Some,
        ensures
            r == self.node_interaction(node.0),
    {
        proof {
            self.lemma_inputs_before(node.0);
        }
        let output = self.node_output(node);
        let out = self.proven(output);
        let e = self.node_expression(node);
        match e {
            Expression::And(_) => {
                let all = self.all_inputs_proven(node);
                if out {
                    !all
                } else {
                    all
                }
            },
            Expression::Or(_) => {
                let any = self.any_input_proven(node);
                if out {
                    !any
                } else {
                    any
                }
            },
            Expression::Implies(a) => {
                assert(self.expr(node.0).inputs()[0] == a[0] && self.expr(node.0).inputs()[1] == a[1]);
                if out {
                    self.proven(Wire(Node(a[0]))) && !self.proven(Wire(Node(a[1])))
                } else {
                    let g = self.goal();
                    self.wire_eq(g, output)
                }
            },
            Expression::Equal(a) => {
                assert(self.expr(node.0).inputs()[0] == a[0] && self.expr(node.0).inputs()[1] == a[1]);
                let eq = self.wire_eq(Wire(Node(a[0])), Wire(Node(a[1])));
                if out {
                    eq
                } else {
                    !eq
                }
            },
            Expression::Variable(_) => false,
            Expression::Function(_, _, _) => false,
        }
    }

    fn all_inputs_proven(&self, node: Node) -> (r: bool)
        requires
            self.wf(),
            node.0 < self.len(),
        ensures
            r == self.all_proven(self.expr(node.0).inputs()),
    {
        proof {
            self.lemma_inputs_before(node.0);
        }
        let v = self.node_expression(node).inputs();
        let mut k: usize = 0;
        while k < v.len()
            invariant
                self.wf(),
                v@ == self.expr(node.0).inputs(),
                forall|j: int| 0 <= j < v@.len() ==> #[trigger] v@[j] < self.len(),
                k <= v@.len(),
                forall|j: int| 0 <= j < k ==> self.is_proven(#[trigger] v@[j]),
            decreases v@.len() - k,
        {
            if !self.proven(Wire(Node(v[k]))) {
                return false;
            }
            k = k + 1;
        }
        true
    }

    fn any_input_proven(&self, node: Node) -> (r: bool)
        requires
            self.wf(),
            node.0 < self.len(),
        ensures
            r == self.any_proven(self.expr(node.0).inputs()),
    {
        proof {
            self.lemma_inputs_before(node.0);
        }
        let v = self.node_expression(node).inputs();
        let mut k: usize = 0;
        while k < v.len()
            invariant
                self.wf(),
                v@ == self.expr(node.0).inputs(),
                forall|j: int| 0 <= j < v@.len() ==> #[trigger] v@[j] < self.len(),
                k <= v@.len(),
                forall|j: int| 0 <= j < k ==> !self.is_proven(#[trigger] v@[j]),
            decreases v@.len() - k,
        {
            if self.proven(Wire(Node(v[k]))) {
                return true;
            }
            k = k + 1;
        }
        false
    }

    pub fn wire_has_interaction(&self, wire: Wire) -> (r: bool)
        requires
            self.wf(),
            wire.0.0 < self.len(),
            self.goal_wire() is Some,
        ensures
            r == self.wire_interaction(wire.0.0),
    {
        let g = self.goal();
        !self.proven(wire) && !self.wire_eq(g, wire)
    }
}

/// `s` is `c` with wire `h` proven and the goal moved to `g`.
pub open spec fn with_hypothesis(c: Case, h: usize, g: usize, s: Case) -> bool {
    &&& s.len() == c.len()
    &&& s.goal_wire() == Some(Wire(Node(g)))
    &&& s.same_connections(&c)
    &&& forall|m: usize|
        #![trigger s.is_proven(m)]
        #![trigger s.expr(m)]
        m < c.len() ==> {
            &&& s.expr(m) == c.expr(m)
            &&& s.is_proven(m) == (c.is_proven(m) || c.same(m, h))
            &&& s.is_deleted(m) == c.is_deleted(m)
            &&& s.position_of(m) == c.position_of(m)
        }
}

impl CaseTree {
    /// The current case of `t0` with `e` applied became the current case of
    /// `self`.
    pub open spec fn edited_here(&self, t0: &CaseTree, e: Edit) -> bool {
        &&& self.current_index() == t0.current_index()
        &&& t0.case_at(t0.current_index()).edited(e, &self.case_at(self.current_index()))
        &&& self.changed_in_place(t0)
    }

    /// What the rule at node `n` of the current case of `t0` does, as seen
    /// in `self`.
    pub open spec fn node_rule_applied(&self, t0: &CaseTree, n: usize) -> bool {
        let cur = t0.current_index();
        let c0 = t0.case_at(cur);
        let out = c0.is_proven(n);
        let prove_out = self.edited_here(t0, Edit::ProveWire(Wire(Node(n))));
        match c0.expr(n) {
            ExprView::And(v) => if out {
                let s = self.case_at(cur);
                &&& self.current_index() == cur
                &&& self.changed_in_place(t0)
                &&& s.len() == c0.len()
                &&& s.goal_wire() == c0.goal_wire()
                &&& s.same_connections(&c0)
                &&& forall|m: usize|
                    m < c0.len() ==> #[trigger] s.is_proven(m) == (c0.is_proven(m) || exists|k: int|
                        0 <= k < v.len() && c0.same(m, #[trigger] v[k]))
                &&& forall|m: usize|
                    #![trigger s.expr(m)]
                    #![trigger s.position_of(m)]
                    #![trigger s.is_deleted(m)]
                    m < c0.len() ==> s.expr(m) == c0.expr(m) && s.position_of(m) == c0.position_of(m)
                        && s.is_deleted(m) == c0.is_deleted(m)
            } else {
                prove_out
            },
            ExprView::Or(v) => if out {
                exists|subs: Seq<Case>|
                    {
                        &&& self.split_into(t0, subs)
                        &&& subs.len() == v.len()
                        &&& forall|k: int|
                            0 <= k < v.len() ==> c0.edited(
                                Edit::ProveWire(Wire(Node(#[trigger] v[k]))),
                                &subs[k],
                            )
                    }
            } else {
                prove_out
            },
            ExprView::Implies(h, c) => if out {
                self.edited_here(t0, Edit::ProveWire(Wire(Node(c))))
            } else {
                exists|subs: Seq<Case>|
                    {
                        &&& self.split_into(t0, subs)
                        &&& subs.len() == 1
                        &&& with_hypothesis(c0, h, c, subs[0])
                    }
            },
            ExprView::Equal(a, b) => if out {
                self.edited_here(t0, Edit::Connect(Wire(Node(a)), Wire(Node(b))))
            } else {
                prove_out
            },
            ExprView::Variable(_, _) => false,
            ExprView::Function(_, _, _) => false,
        }
    }

    /// Applies the rule at node `node` of the current case.
    #[verifier::spinoff_prover]
    pub fn interact_node(&mut self, node: Node)
        requires
            old(self).wf(),
            node.0 < old(self).case_at(old(self).current_index()).len(),
            old(self).case_at(old(self).current_index()).node_interaction(node.0),
        ensures
            final(self).wf(),
            final(self).node_rule_applied(old(self), node.0),
    {
        let cur = self.current();
        let ghost c0 = self.case_at(cur.index());
        let (case, _) = self.current_case();
        proof {
            case.lemma_inputs_before(node.0);
        }
        let output = case.node_output(node);
        let out = case.proven(output);
        let e = case.node_expression(node).clone();
        match e {
            Expression::And(_) => {
                if out {
                    let v = e.inputs();
                    let mut k: usize = 0;
                    let ghost t0 = *self;
                    proof {
                        self.lemma_in_place_refl();
                    }
                    while k < v.len()
                        invariant
                            self.wf(),
                            t0.wf(),
                            t0 == *old(self),
                            self.changed_in_place(&t0),
                            self.current_index() == cur.index(),
                            forall|m: usize|
                                #![trigger self.case_at(cur.index()).expr(m)]
                                #![trigger self.case_at(cur.index()).position_of(m)]
                                #![trigger self.case_at(cur.index()).is_deleted(m)]
                                m < c0.len() ==> self.case_at(cur.index()).expr(m) == c0.expr(m)
                                    && self.case_at(cur.index()).position_of(m) == c0.position_of(m)
                                    && self.case_at(cur.index()).is_deleted(m) == c0.is_deleted(m),
                            c0.wf(),
                            v@ == c0.expr(node.0).inputs(),
                            forall|j: int| 0 <= j < v@.len() ==> #[trigger] v@[j] < c0.len(),
                            k <= v@.len(),
                            self.case_at(cur.index()).len() == c0.len(),
                            self.case_at(cur.index()).goal_wire() == c0.goal_wire(),
                            self.case_at(cur.index()).same_connections(&c0),
                            forall|m: usize|
                                m < c0.len() ==> #[trigger] self.case_at(cur.index()).is_proven(m) == (
                                c0.is_proven(m) || exists|j: int|
                                    0 <= j < k && c0.same(m, #[trigger] v@[j])),
                        decreases v@.len() - k,
                    {
                        let ghost before = self.case_at(cur.index());
                        let ghost t1 = *self;
                        proof {
                            self.lemma_current_live();
                            self.lemma_live(cur.index());
                            before.lemma_goal_in_range();
                        }
                        self.edit_case(Edit::ProveWire(Wire(Node(v[k]))));
                        k = k + 1;
                        proof {
                            let s = self.case_at(cur.index());
                            let g = before.goal_wire().unwrap().0.0;
                            assert(s.is_proven(g) == (before.is_proven(g) || before.same(g, v@[k - 1])));
                            CaseTree::lemma_in_place_twice(&t0, &t1, self);
                            assert forall|m: usize| m < c0.len() implies s.expr(m) == c0.expr(m)
                                && s.position_of(m) == c0.position_of(m) && s.is_deleted(m) == c0.is_deleted(m) by {
                                assert(s.expr(m) == before.expr(m));
                                assert(s.position_of(m) == before.position_of(m));
                                assert(s.is_proven(m) == (before.is_proven(m) || before.same(m, v@[k - 1])));
                                assert(s.is_deleted(m) == before.is_deleted(m));
                            }
                            assert forall|m: usize| m < c0.len() implies #[trigger] s.is_proven(m) == (
                            c0.is_proven(m) || exists|j: int| 0 <= j < k && c0.same(m, #[trigger] v@[j])) by {
                                assert(s.is_proven(m) == (before.is_proven(m) || before.same(m, v@[k - 1])));
                                assert(before.same(m, v@[k - 1]) == c0.same(m, v@[k - 1]));
                                if c0.same(m, v@[k - 1]) {
                                    assert(0 <= k - 1 < k && c0.same(m, v@[k - 1]));
                                }
                                if exists|j: int| 0 <= j < k && c0.same(m, #[trigger] v@[j]) {
                                    let j = choose|j: int| 0 <= j < k && c0.same(m, #[trigger] v@[j]);
                                    if j < k - 1 {
                                        assert(exists|i: int| 0 <= i < k - 1 && c0.same(m, #[trigger] v@[i]));
                                    }
                                }
                            }
                            assert forall|a: usize, b: usize| #[trigger] s.same(a, b) == c0.same(a, b) by {
                                assert(s.same(a, b) == before.same(a, b));
                            }
                            assert forall|a: usize| #[trigger] s.rep(a) == c0.rep(a) by {
                                assert(s.rep(a) == before.rep(a));
                            }
                        }
                    }
                } else {
                    self.edit_case(Edit::ProveWire(output));
                }
            },
            Expression::Or(_) => {
                if out {
                    let v = e.inputs();
                    let mut subcases: Vec<Case> = Vec::new();
                    let mut k: usize = 0;
                    while k < v.len()
                        invariant
                            self.wf(),
                            self.current_index() == cur.index(),
                            self.case_at(cur.index()) == c0,
                            c0.wf(),
                            v@ == c0.expr(node.0).inputs(),
                            forall|j: int| 0 <= j < v@.len() ==> #[trigger] v@[j] < c0.len(),
                            k <= v@.len(),
                            subcases@.len() == k,
                            forall|j: int|
                                0 <= j < k ==> {
                                    &&& (#[trigger] subcases@[j]).wf()
                                    &&& subcases@[j].goal_wire() is Some
                                    &&& c0.edited(Edit::ProveWire(Wire(Node(v@[j]))), &subcases@[j])
                                },
                        decreases v@.len() - k,
                    {
                        let mut c = self.current_case().0.clone();
                        c.set_proven(Wire(Node(v[k])), ValidityReason::new("one case per disjunct"));
                        subcases.push(c);
                        k = k + 1;
                    }
                    let ghost subs = subcases@;
                    self.case_split(subcases);
                    proof {
                        assert(self.split_into(old(self), subs));
                    }
                } else {
                    self.edit_case(Edit::ProveWire(output));
                }
            },
            Expression::Implies(a) => {
                assert(c0.expr(node.0).inputs()[0] == a[0] && c0.expr(node.0).inputs()[1] == a[1]);
                if out {
                    self.edit_case(Edit::ProveWire(Wire(Node(a[1]))));
                } else {
                    let mut c = self.current_case().0.clone();
                    c.set_proven(Wire(Node(a[0])), ValidityReason::new("the hypothesis of the goal"));
                    c.set_goal(Wire(Node(a[1])));
                    let ghost one = c;
                    let subcases = vec![c];
                    proof {
                        assert(subcases@[0] == one);
                    }
                    let ghost subs = subcases@;
                    self.case_split(subcases);
                    proof {
                        assert(self.split_into(old(self), subs));
                        assert(with_hypothesis(c0, a[0], a[1], subs[0]));
                    }
                }
            },
            Expression::Equal(a) => {
                assert(c0.expr(node.0).inputs()[0] == a[0] && c0.expr(node.0).inputs()[1] == a[1]);
                if out {
                    self.edit_case(Edit::Connect(Wire(Node(a[0])), Wire(Node(a[1]))));
                } else {
                    self.edit_case(Edit::ProveWire(output));
                }
            },
            Expression::Variable(_) => {},
            Expression::Function(_, _, _) => {},
        }
    }

    /// Commits to proving wire `wire`: one branch has it as its goal, the
    /// other assumes it.
    pub fn interact_wire(&mut self, wire: Wire)
        requires
            old(self).wf(),
            wire.0.0 < old(self).case_at(old(self).current_index()).len(),
            old(self).case_at(old(self).current_index()).wire_interaction(wire.0.0),
        ensures
            final(self).wf(),
            final(self).kids(old(self).current_index()) is Some,
            final(self).kids(old(self).current_index()).unwrap().len() == 2,
            old(self).case_at(old(self).current_index()).edited(
                Edit::SetGoal(wire),
                &final(self).case_at(final(self).kids(old(self).current_index()).unwrap()[0]),
            ),
            old(self).case_at(old(self).current_index()).edited(
                Edit::ProveWire(wire),
                &final(self).case_at(final(self).kids(old(self).current_index()).unwrap()[1]),
            ),
            final(self).current_index() == final(self).kids(old(self).current_index()).unwrap()[0],
            !final(self).complete_at(final(self).current_index()),
            exists|subs: Seq<Case>|
                {
                    &&& final(self).split_into(old(self), subs)
                    &&& subs.len() == 2
                    &&& old(self).case_at(old(self).current_index()).edited(Edit::SetGoal(wire), &subs[0])
                    &&& old(self).case_at(old(self).current_index()).edited(Edit::ProveWire(wire), &subs[1])
                },
    {
        let cur = self.current();
        let ghost c0 = self.case_at(cur.index());
        let mut first = self.current_case().0.clone();
        let mut second = self.current_case().0.clone();
        first.set_goal(wire);
        second.set_proven(wire, ValidityReason::new("owed as a separate proof in the other branch"));
        let ghost a = first;
        let ghost b = second;
        proof {
            assert(!a.solved());
        }
        let subcases = vec![first, second];
        proof {
            assert(subcases@[0] == a && subcases@[1] == b);
        }
        let ghost subs = subcases@;
        self.case_split(subcases);
        proof {
            assert(self.split_into(old(self), subs));
            assert(self.case_at(self.kids(cur.index()).unwrap()[0]) == a);
            assert(self.case_at(self.kids(cur.index()).unwrap()[1]) == b);
        }
    }
}

} // verus!
