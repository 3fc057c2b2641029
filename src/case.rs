//! One proof obligation: a graph of expression nodes whose output wires are
//! joined in equivalence classes, with the wires known to be true and a goal.
use vstd::prelude::*;
use crate::congruence::{
    canon, classes_closed, memo_ids, egraph_add, egraph_classes, egraph_clone, egraph_find, egraph_memo,
    egraph_new, egraph_rebuild, egraph_union, Congruence,
};
use crate::expression::{ExprView, Expression, Type};
use crate::union_find::UnionFind;

verus! {

/// The reason a step that proves or connects wires is sound. Every such step
/// names one at its call site; nothing of it is kept.
pub struct ValidityReason {
    _reason: (),
}

impl ValidityReason {
    pub fn new(_why: &str) -> (r: ValidityReason) {
        ValidityReason { _reason: () }
    }
}

/// A node of a case: its index among the case's nodes.
#[derive(Debug, Clone, Copy, PartialEq, Eq, Structural, Hash)]
pub struct Node(pub usize);

/// The output wire of a node. Wires whose nodes are in one equivalence class
/// are the same wire.
#[derive(Debug, Clone, Copy, PartialEq, Eq, Structural, Hash)]
pub struct Wire(pub Node);

/// Where a node is drawn: two coordinates kept as the raw bits the display
/// layer hands over. The engine stores them and never reads them.
#[derive(Debug, Clone, Copy, PartialEq, Eq, Structural, Hash)]
pub struct Position {
    pub x: u64,
    pub y: u64,
}

/// The largest number of nodes a case holds: e-class ids are 32 bits wide.
pub const MAX_NODES: usize = 4294967294;

pub struct Case {
    expressions: Vec<Expression>,
    positions: Vec<Position>,
    proven: Vec<bool>,
    deleted: Vec<bool>,
    /// Two nodes are in one class iff their output wires are connected.
    connections: UnionFind,
    goal: Option<Wire>,
    /// Which nodes describe identical expressions, even when drawn apart.
    egg: Congruence,
    node_to_egg: Vec<usize>,
}

impl Case {
    /// Number of nodes, deleted ones included.
    pub closed spec fn len(&self) -> nat {
        self.expressions@.len()
    }

    pub closed spec fn expr(&self, n: usize) -> ExprView {
        self.expressions@[n as int]@
    }

    pub closed spec fn is_proven(&self, n: usize) -> bool {
        self.proven@[n as int]
    }

    pub closed spec fn is_deleted(&self, n: usize) -> bool {
        self.deleted@[n as int]
    }

    pub closed spec fn position_of(&self, n: usize) -> Position {
        self.positions@[n as int]
    }

    /// The output wires of `a` and `b` are connected.
    pub closed spec fn same(&self, a: usize, b: usize) -> bool {
        self.connections.equiv(a, b)
    }

    /// The representative node of the wire of `a`.
    pub closed spec fn rep(&self, a: usize) -> usize {
        self.connections.root(a)
    }

    pub closed spec fn goal_wire(&self) -> Option<Wire> {
        self.goal
    }

    /// `a` and `b` describe the same expression.
    pub closed spec fn equivalent(&self, a: usize, b: usize) -> bool {
        egraph_classes(self.egg)[self.node_to_egg@[a as int]] == egraph_classes(
            self.egg,
        )[self.node_to_egg@[b as int]]
    }

    spec fn shape_ok(&self) -> bool {
        let n = self.expressions@.len();
        &&& self.positions@.len() == n
        &&& self.proven@.len() == n
        &&& self.deleted@.len() == n
        &&& self.node_to_egg@.len() == n
        &&& n <= MAX_NODES
        &&& self.connections.wf()
        &&& self.connections.len() == n
        &&& forall|i: int, k: int|
            0 <= i < n && 0 <= k < self.expressions@[i]@.inputs().len() ==> #[trigger] self.expressions@[i]@.inputs()[k] < i
        &&& match self.goal {
            Some(w) => w.0.0 < n,
            None => true,
        }
    }

    spec fn egg_ok(&self) -> bool {
        let n = self.expressions@.len();
        let classes = egraph_classes(self.egg);
        &&& classes.dom().finite()
        &&& classes.dom().len() <= n
        &&& forall|i: int| 0 <= i < n ==> classes.contains_key(#[trigger] self.node_to_egg@[i])
        &&& forall|i: usize, j: usize|
            i < n && j < n && #[trigger] self.connections.equiv(i, j) ==> #[trigger] self.equivalent(i, j)
    }

    /// The e-graph files each node under its symbol and its inputs' classes,
    /// in the node's own class.
    spec fn node_key(&self, i: usize) -> (Seq<char>, Seq<usize>) {
        (
            egg_op(self.expr(i)),
            canon(
                egraph_classes(self.egg),
                self.expr(i).inputs().map_values(|c: usize| self.node_to_egg@[c as int]),
            ),
        )
    }

    spec fn memo_ok(&self) -> bool {
        &&& classes_closed(egraph_classes(self.egg))
        &&& memo_ids(egraph_classes(self.egg), egraph_memo(self.egg))
        &&& forall|i: usize|
            i < self.len() ==> {
                &&& egraph_memo(self.egg).contains_key(#[trigger] self.node_key(i))
                &&& egraph_classes(self.egg)[egraph_memo(self.egg)[self.node_key(i)]] == egraph_classes(
                    self.egg,
                )[self.node_to_egg@[i as int]]
            }
    }

    proof fn lemma_memo_ok_same(a: Case, b: Case)
        requires
            a.memo_ok(),
            a.expressions@.len() == b.expressions@.len(),
            forall|i: int| 0 <= i < a.expressions@.len() ==> #[trigger] b.expressions@[i]@ == a.expressions@[i]@,
            a.egg == b.egg,
            a.node_to_egg == b.node_to_egg,
        ensures
            b.memo_ok(),
    {
        assert forall|i: usize| i < b.len() implies {
            &&& egraph_memo(b.egg).contains_key(#[trigger] b.node_key(i))
            &&& egraph_classes(b.egg)[egraph_memo(b.egg)[b.node_key(i)]] == egraph_classes(
                b.egg,
            )[b.node_to_egg@[i as int]]
        } by {
            assert(b.expr(i) == a.expr(i));
            assert(b.node_key(i) == a.node_key(i));
        }
    }

    proof fn lemma_memo_ok_same_view(a: Case, b: Case)
        requires
            a.memo_ok(),
            a.expressions@.len() == b.expressions@.len(),
            forall|i: int| 0 <= i < a.expressions@.len() ==> #[trigger] b.expressions@[i]@ == a.expressions@[i]@,
            egraph_classes(a.egg) == egraph_classes(b.egg),
            egraph_memo(a.egg) == egraph_memo(b.egg),
            a.node_to_egg@ == b.node_to_egg@,
        ensures
            b.memo_ok(),
    {
        assert forall|i: usize| i < b.len() implies {
            &&& egraph_memo(b.egg).contains_key(#[trigger] b.node_key(i))
            &&& egraph_classes(b.egg)[egraph_memo(b.egg)[b.node_key(i)]] == egraph_classes(
                b.egg,
            )[b.node_to_egg@[i as int]]
        } by {
            assert(b.expr(i) == a.expr(i));
            assert(b.node_key(i) == a.node_key(i));
        }
    }

    spec fn proven_ok(&self) -> bool {
        forall|i: usize, j: usize|
            i < self.len() && j < self.len() && #[trigger] self.connections.equiv(i, j) ==> self.proven@[i as int]
                == self.proven@[j as int]
    }

    pub closed spec fn wf(&self) -> bool {
        &&& self.shape_ok()
        &&& self.egg_ok()
        &&& self.memo_ok()
        &&& self.proven_ok()
    }

    /// `self` and `o` hold the same nodes, flags, positions and goal.
    pub open spec fn same_nodes(&self, o: &Case) -> bool {
        &&& self.len() == o.len()
        &&& self.goal_wire() == o.goal_wire()
        &&& forall|n: usize|
            #![trigger self.expr(n)]
            #![trigger self.is_proven(n)]
            #![trigger self.is_deleted(n)]
            #![trigger self.position_of(n)]
            n < self.len() ==> {
                &&& self.expr(n) == o.expr(n)
                &&& self.is_proven(n) == o.is_proven(n)
                &&& self.is_deleted(n) == o.is_deleted(n)
                &&& self.position_of(n) == o.position_of(n)
            }
    }

    /// `self` and `o` connect the same wires.
    pub open spec fn same_connections(&self, o: &Case) -> bool {
        &&& forall|a: usize, b: usize| #[trigger] self.same(a, b) == o.same(a, b)
        &&& forall|a: usize| #[trigger] self.rep(a) == o.rep(a)
    }

    /// `self` and `o` are the same case.
    pub open spec fn same_case(&self, o: &Case) -> bool {
        &&& self.same_nodes(o)
        &&& self.same_connections(o)
        &&& forall|a: usize, b: usize|
            a < self.len() && b < self.len() ==> #[trigger] self.equivalent(a, b) == o.equivalent(a, b)
    }

    /// The goal is set and proven.
    pub open spec fn solved(&self) -> bool {
        match self.goal_wire() {
            Some(g) => self.is_proven(g.0.0),
            None => false,
        }
    }

    pub proof fn lemma_same_is_equivalence(&self)
        requires
            self.wf(),
        ensures
            forall|a: usize| #[trigger] self.same(a, a),
            forall|a: usize, b: usize| #[trigger] self.same(a, b) == self.same(b, a),
            forall|a: usize, b: usize, c: usize|
                #[trigger] self.same(a, b) && #[trigger] self.same(b, c) ==> self.same(a, c),
            forall|a: usize, b: usize| #[trigger] self.same(a, b) <==> self.rep(a) == self.rep(b),
    {
    }

    pub proof fn lemma_goal_in_range(&self)
        requires
            self.wf(),
        ensures
            self.goal_wire() is Some ==> self.goal_wire().unwrap().0.0 < self.len(),
    {
    }

    /// The inputs of node `n` are earlier nodes.
    pub proof fn lemma_inputs_before(&self, n: usize)
        requires
            self.wf(),
            n < self.len(),
        ensures
            forall|k: int| 0 <= k < self.expr(n).inputs().len() ==> #[trigger] self.expr(n).inputs()[k] < n,
    {
        assert forall|k: int| 0 <= k < self.expr(n).inputs().len() implies #[trigger] self.expr(n).inputs()[k] < n by {
            assert(self.expressions@[n as int]@.inputs()[k] < n);
        }
    }

    /// A representative represents itself, and a node's representative is a
    /// node.
    pub proof fn lemma_rep_facts(&self, a: usize)
        requires
            self.wf(),
        ensures
            self.rep(self.rep(a)) == self.rep(a),
            a < self.len() ==> self.rep(a) < self.len(),
            self.same(a, self.rep(a)),
    {
        self.connections.lemma_root_facts(a);
    }

    /// Congruence: two nodes with the same symbol (connective, or kind,
    /// type and name) whose inputs describe pairwise the same expressions
    /// describe the same expression, however separately they were built.
    pub proof fn lemma_congruent(&self, a: usize, b: usize)
        requires
            self.wf(),
            a < self.len(),
            b < self.len(),
            egg_op(self.expr(a)) == egg_op(self.expr(b)),
            self.expr(a).inputs().len() == self.expr(b).inputs().len(),
            forall|k: int|
                0 <= k < self.expr(a).inputs().len() ==> self.equivalent(
                    #[trigger] self.expr(a).inputs()[k],
                    self.expr(b).inputs()[k],
                ),
        ensures
            self.equivalent(a, b),
    {
        let ka = self.node_key(a);
        let kb = self.node_key(b);
        assert forall|q: int| 0 <= q < ka.1.len() implies #[trigger] ka.1[q] == kb.1[q] by {
            assert(self.equivalent(self.expr(a).inputs()[q], self.expr(b).inputs()[q]));
        }
        assert(ka.1 =~= kb.1);
        assert(ka == kb);
        assert(egraph_memo(self.egg).contains_key(ka));
        assert(egraph_memo(self.egg).contains_key(kb));
    }

    /// Proven status is the same along a wire.
    pub proof fn lemma_proven_along_wires(&self, a: usize, b: usize)
        requires
            self.wf(),
            a < self.len(),
            b < self.len(),
            self.same(a, b),
        ensures
            self.is_proven(a) == self.is_proven(b),
    {
    }

    pub fn new() -> (r: Case)
        ensures
            r.wf(),
            r.len() == 0,
            r.goal_wire() == Option::<Wire>::None,
            forall|a: usize, b: usize| #[trigger] r.same(a, b) == (a == b),
    {
        let r = Case {
            expressions: Vec::new(),
            positions: Vec::new(),
            proven: Vec::new(),
            deleted: Vec::new(),
            connections: UnionFind::new(),
            goal: None,
            egg: egraph_new(),
            node_to_egg: Vec::new(),
        };
        proof {
            assert(egraph_classes(r.egg).dom().len() == 0);
        }
        r
    }

    /// The type of the value on wire `w`.
    pub fn ty(&self, w: Wire) -> (r: Type)
        requires
            self.wf(),
            w.0.0 < self.len(),
        ensures
            r == self.expr(w.0.0).ty(),
    {
        self.expressions[w.0.0].ty()
    }

    pub fn set_goal(&mut self, goal: Wire)
        requires
            old(self).wf(),
            goal.0.0 < old(self).len(),
        ensures
            final(self).wf(),
            final(self).goal_wire() == Some(goal),
            final(self).len() == old(self).len(),
            forall|n: usize|
                #![trigger final(self).expr(n)]
                #![trigger final(self).is_proven(n)]
                #![trigger final(self).is_deleted(n)]
                #![trigger final(self).position_of(n)]
                n < old(self).len() ==> {
                    &&& final(self).expr(n) == old(self).expr(n)
                    &&& final(self).is_proven(n) == old(self).is_proven(n)
                    &&& final(self).is_deleted(n) == old(self).is_deleted(n)
                    &&& final(self).position_of(n) == old(self).position_of(n)
                },
            final(self).same_connections(old(self)),
    {
        self.goal = Some(goal);
        proof {
            Case::lemma_memo_ok_same(*old(self), *self);
            assert forall|i: usize, j: usize|
                i < self.len() && j < self.len() && #[trigger] self.connections.equiv(
                    i,
                    j,
                ) implies #[trigger] self.equivalent(i, j) by {
                assert(old(self).equivalent(i, j));
            }
        }
    }

    /// The goal; it must have been set.
    pub fn goal(&self) -> (r: Wire)
        requires
            self.wf(),
            self.goal_wire().is_some(),
        ensures
            Some(r) == self.goal_wire(),
            r.0.0 < self.len(),
    {
        self.goal.unwrap()
    }

    /// Adds a node for `expression`, drawn at `position`.
    #[verifier::spinoff_prover]
    pub fn make_node(&mut self, expression: Expression, position: Position) -> (r: Node)
        requires
            old(self).wf(),
            old(self).len() < MAX_NODES,
            forall|k: int|
                0 <= k < expression@.inputs().len() ==> #[trigger] expression@.inputs()[k]
                    < old(self).len(),
        ensures
            final(self).wf(),
            r.0 == old(self).len(),
            final(self).len() == old(self).len() + 1,
            final(self).expr(r.0) == expression@,
            !final(self).is_proven(r.0),
            !final(self).is_deleted(r.0),
            final(self).position_of(r.0) == position,
            final(self).goal_wire() == old(self).goal_wire(),
            forall|n: usize|
                #![trigger final(self).expr(n)]
                #![trigger final(self).is_proven(n)]
                #![trigger final(self).is_deleted(n)]
                #![trigger final(self).position_of(n)]
                n < old(self).len() ==> {
                    &&& final(self).expr(n) == old(self).expr(n)
                    &&& final(self).is_proven(n) == old(self).is_proven(n)
                    &&& final(self).is_deleted(n) == old(self).is_deleted(n)
                    &&& final(self).position_of(n) == old(self).position_of(n)
                },
            final(self).same_connections(old(self)),
            forall|m: usize| #[trigger] final(self).same(r.0, m) <==> m == r.0,
    {
        let n = self.expressions.len();
        let inputs = expression.inputs();
        let mut children: Vec<usize> = Vec::new();
        let mut k: usize = 0;
        while k < inputs.len()
            invariant
                self.wf(),
                inputs@ == expression@.inputs(),
                forall|j: int| 0 <= j < inputs@.len() ==> #[trigger] inputs@[j] < self.len(),
                k <= inputs@.len(),
                children@.len() == k,
                forall|j: int|
                    0 <= j < k ==> egraph_classes(self.egg).contains_key(#[trigger] children@[j]),
                forall|j: int| 0 <= j < k ==> #[trigger] children@[j] == self.node_to_egg@[inputs@[j] as int],
            decreases inputs@.len() - k,
        {
            children.push(self.node_to_egg[inputs[k]]);
            k = k + 1;
        }
        let (tag, name) = egg_symbol(&expression);
        let ghost before = *self;
        let ghost ch = children@;
        let ghost ex = expression@;
        let id = egraph_add(&mut self.egg, tag, name, children);
        self.expressions.push(expression);
        self.positions.push(position);
        self.proven.push(false);
        self.deleted.push(false);
        self.node_to_egg.push(id);
        self.connections.push_singleton();
        proof {
            let classes = egraph_classes(self.egg);
            let old_classes = egraph_classes(before.egg);
            assert forall|i: usize| i < self.len() implies {
                &&& egraph_memo(self.egg).contains_key(#[trigger] self.node_key(i))
                &&& classes[egraph_memo(self.egg)[self.node_key(i)]] == classes[self.node_to_egg@[i as int]]
            } by {
                let ins = self.expr(i).inputs();
                if i < n {
                    assert(self.expr(i) == before.expr(i));
                    before.lemma_inputs_before(i);
                    assert(self.expr(i).inputs().map_values(|c: usize| self.node_to_egg@[c as int])
                        =~= before.expr(i).inputs().map_values(|c: usize| before.node_to_egg@[c as int]));
                    let bk = before.node_key(i);
                    assert forall|q: int| 0 <= q < bk.1.len() implies #[trigger] bk.1[q] == self.node_key(i).1[q] by {
                        assert(old_classes.contains_key(before.node_to_egg@[ins[q] as int]));
                    }
                    assert(self.node_key(i) =~= bk);
                    assert(old_classes.contains_key(egraph_memo(before.egg)[bk]));
                } else {
                    assert(self.expr(i) == ex);
                    assert forall|q: int| 0 <= q < ins.len() implies #[trigger] self.node_key(i).1[q] == canon(old_classes, ch)[q] by {
                        assert(ins[q] < n);
                        assert(ch[q] == before.node_to_egg@[ins[q] as int]);
                    }
                    assert(self.node_key(i) =~= (tag@ + ":"@ + name@, canon(old_classes, ch)));
                }
            }
            vstd::set_lib::lemma_len_subset(classes.dom(), old_classes.dom().insert(id));
            assert forall|i: int| 0 <= i < n + 1 implies classes.contains_key(
                #[trigger] self.node_to_egg@[i],
            ) by {
                if i < n {
                    assert(old_classes.contains_key(before.node_to_egg@[i]));
                }
            }
            assert forall|i: usize, j: usize|
                i < n + 1 && j < n + 1 && #[trigger] self.connections.equiv(
                    i,
                    j,
                ) implies #[trigger] self.equivalent(i, j) by {
                assert(before.connections.equiv(i, j));
                if i < n && j < n {
                    assert(before.equivalent(i, j));
                    assert(old_classes.contains_key(before.node_to_egg@[i as int]));
                    assert(old_classes.contains_key(before.node_to_egg@[j as int]));
                } else {
                    before.connections.lemma_equiv_bounds(i, j);
                }
            }
            assert forall|i: int, k: int|
                0 <= i < n + 1 && 0 <= k < self.expressions@[i]@.inputs().len() implies #[trigger] self.expressions@[i]@.inputs()[k]
                < i by {
                if i < n {
                    assert(before.expressions@[i] == self.expressions@[i]);
                }
            }
            assert forall|i: usize, j: usize|
                i < self.len() && j < self.len() && #[trigger] self.connections.equiv(
                    i,
                    j,
                ) implies self.proven@[i as int] == self.proven@[j as int] by {
                assert(before.connections.equiv(i, j));
                if i < n && j < n {
                } else {
                    before.connections.lemma_equiv_bounds(i, j);
                }
            }
            assert forall|a: usize, b: usize| #[trigger] self.same(a, b) == before.same(a, b) by {
                assert(self.connections.root(a) == before.connections.root(a));
                assert(self.connections.root(b) == before.connections.root(b));
            }
            assert forall|m: usize| #[trigger] self.same(n, m) <==> m == n by {
                assert(self.connections.root(n) == before.connections.root(n));
                assert(self.connections.root(m) == before.connections.root(m));
                before.connections.lemma_root_facts(n);
                if before.connections.equiv(n, m) {
                    before.connections.lemma_equiv_bounds(n, m);
                }
            }
        }
        Node(n)
    }

    pub fn node_output(&self, n: Node) -> (r: Wire)
        ensures
            r.0 == n,
    {
        Wire(n)
    }

    pub fn node_expression(&self, n: Node) -> (r: &Expression)
        requires
            self.wf(),
            n.0 < self.len(),
        ensures
            r@ == self.expr(n.0),
    {
        &self.expressions[n.0]
    }

    /// The nodes, not deleted, whose outputs make up wire `w`; each once.
    #[verifier::spinoff_prover]
    pub fn wire_inputs(&self, w: Wire) -> (r: Vec<Node>)
        requires
            self.wf(),
            w.0.0 < self.len(),
        ensures
            r@.no_duplicates(),
            forall|m: Node|
                #[trigger] r@.contains(m) <==> (m.0 < self.len() && self.same(w.0.0, m.0)
                    && !self.is_deleted(m.0)),
    {
        let members = self.connections.iter_class(w.0.0);
        let mut out: Vec<Node> = Vec::new();
        let mut k: usize = 0;
        while k < members.len()
            invariant
                self.wf(),
                w.0.0 < self.len(),
                members@.no_duplicates(),
                forall|y: usize| #[trigger] members@.contains(y) <==> self.connections.equiv(w.0.0, y),
                forall|j: int| 0 <= j < members@.len() ==> #[trigger] members@[j] < self.len(),
                k <= members@.len(),
                out@.no_duplicates(),
                forall|m: Node|
                    #[trigger] out@.contains(m) <==> (members@.take(k as int).contains(m.0)
                        && !self.deleted@[m.0 as int]),
            decreases members@.len() - k,
        {
            let m = members[k];
            let ghost prev = out@;
            proof {
                assert(members@.take(k + 1) =~= members@.take(k as int).push(m));
                if members@.take(k as int).contains(m) {
                    let j = choose|j: int| 0 <= j < k && members@.take(k as int)[j] == m;
                    assert(members@[j] == members@[k as int]);
                }
            }
            if !self.deleted[m] {
                proof {
                    assert(!prev.contains(Node(m)));
                }
                out.push(Node(m));
                proof {
                    assert forall|a: int, b: int|
                        0 <= a < out@.len() && 0 <= b < out@.len() && a != b implies out@[a]
                        != out@[b] by {
                        if b == out@.len() - 1 {
                            assert(prev.contains(out@[a]));
                        } else if a == out@.len() - 1 {
                            assert(prev.contains(out@[b]));
                        } else {
                            assert(prev[a] == out@[a] && prev[b] == out@[b]);
                        }
                    }
                }
            }
            k = k + 1;
            proof {
                assert forall|x: Node|
                    #[trigger] out@.contains(x) <==> (members@.take(k as int).contains(x.0)
                        && !self.deleted@[x.0 as int]) by {
                    if out@.contains(x) {
                        let a = choose|a: int| 0 <= a < out@.len() && out@[a] == x;
                        if a < prev.len() {
                            assert(prev.contains(x));
                            let j = choose|j: int|
                                0 <= j < k - 1 && #[trigger] members@.take(k - 1)[j] == x.0;
                            assert(members@.take(k as int)[j] == x.0);
                        } else {
                            assert(members@.take(k as int)[k - 1] == x.0);
                        }
                    }
                    if members@.take(k as int).contains(x.0) && !self.deleted@[x.0 as int] {
                        if x.0 == m {
                            assert(out@[out@.len() - 1] == x);
                        } else {
                            let j = choose|j: int| 0 <= j < k && members@.take(k as int)[j] == x.0;
                            assert(j < k - 1);
                            assert(members@.take(k - 1)[j] == x.0);
                            assert(prev.contains(x));
                            let a = choose|a: int| 0 <= a < prev.len() && prev[a] == x;
                            assert(out@[a] == x);
                        }
                    }
                }
            }
        }
        proof {
            assert(members@.take(k as int) =~= members@);
        }
        out
    }

    pub fn wire_eq(&self, w1: Wire, w2: Wire) -> (r: bool)
        requires
            self.wf(),
        ensures
            r == self.same(w1.0.0, w2.0.0),
    {
        self.connections.eq(w1.0.0, w2.0.0)
    }

    /// Whether the wires describe the same expression. Connected wires
    /// always do; two separate copies of one expression do too.
    pub fn wire_equiv(&self, w1: Wire, w2: Wire) -> (r: bool)
        requires
            self.wf(),
            w1.0.0 < self.len(),
            w2.0.0 < self.len(),
        ensures
            r == self.equivalent(w1.0.0, w2.0.0),
            self.same(w1.0.0, w2.0.0) ==> r,
    {
        let a = egraph_find(&self.egg, self.node_to_egg[w1.0.0]);
        let b = egraph_find(&self.egg, self.node_to_egg[w2.0.0]);
        proof {
            if self.same(w1.0.0, w2.0.0) {
                assert(self.connections.equiv(w1.0.0, w2.0.0));
                assert(self.equivalent(w1.0.0, w2.0.0));
            }
        }
        a == b
    }

    proof fn lemma_egg_ok_same(a: Case, b: Case)
        requires
            a.egg_ok(),
            a.expressions@.len() == b.expressions@.len(),
            a.connections == b.connections,
            a.egg == b.egg,
            a.node_to_egg == b.node_to_egg,
        ensures
            b.egg_ok(),
    {
        assert forall|i: usize, j: usize|
            i < b.len() && j < b.len() && #[trigger] b.connections.equiv(i, j) implies #[trigger] b.equivalent(
            i,
            j,
        ) by {
            assert(a.equivalent(i, j));
        }
    }

    /// Marks every node of the class of `w` proven.
    #[verifier::spinoff_prover]
    fn mark_class_proven(&mut self, w: usize)
        requires
            old(self).shape_ok(),
            old(self).egg_ok(),
            w < old(self).len(),
        ensures
            final(self).shape_ok(),
            final(self).egg_ok(),
            final(self).expressions == old(self).expressions,
            final(self).positions == old(self).positions,
            final(self).deleted == old(self).deleted,
            final(self).connections == old(self).connections,
            final(self).goal == old(self).goal,
            final(self).egg == old(self).egg,
            final(self).node_to_egg == old(self).node_to_egg,
            final(self).proven@.len() == old(self).proven@.len(),
            forall|n: usize|
                n < old(self).len() ==> #[trigger] final(self).proven@[n as int] == (old(
                    self,
                ).proven@[n as int] || old(self).connections.equiv(w, n)),
    {
        let members = self.connections.iter_class(w);
        let mut k: usize = 0;
        while k < members.len()
            invariant
                self.shape_ok(),
                self.egg_ok(),
                self.expressions == old(self).expressions,
                self.positions == old(self).positions,
                self.deleted == old(self).deleted,
                self.connections == old(self).connections,
                self.goal == old(self).goal,
                self.egg == old(self).egg,
                self.node_to_egg == old(self).node_to_egg,
                self.proven@.len() == old(self).proven@.len(),
                w < self.len(),
                forall|y: usize| #[trigger] members@.contains(y) <==> self.connections.equiv(w, y),
                forall|j: int| 0 <= j < members@.len() ==> #[trigger] members@[j] < self.len(),
                k <= members@.len(),
                forall|n: usize|
                    n < self.len() ==> #[trigger] self.proven@[n as int] == (old(
                        self,
                    ).proven@[n as int] || members@.take(k as int).contains(n)),
            decreases members@.len() - k,
        {
            let m = members[k];
            let ghost before = *self;
            self.proven.set(m, true);
            k = k + 1;
            proof {
                Case::lemma_egg_ok_same(before, *self);
                assert(members@.take(k as int) =~= members@.take(k - 1).push(m));
                assert forall|n: usize| n < self.len() implies #[trigger] self.proven@[n as int] == (old(
                    self,
                ).proven@[n as int] || members@.take(k as int).contains(n)) by {
                    if n == m {
                        assert(members@.take(k as int)[k - 1] == n);
                    } else {
                        assert(before.proven@[n as int] == self.proven@[n as int]);
                    }
                }
            }
        }
        proof {
            assert(members@.take(k as int) =~= members@);
        }
    }

    /// Connects the two wires; if either was proven, both are now.
    #[verifier::spinoff_prover]
    pub fn connect(&mut self, w1: Wire, w2: Wire, _why_valid: ValidityReason)
        requires
            old(self).wf(),
            w1.0.0 < old(self).len(),
            w2.0.0 < old(self).len(),
        ensures
            final(self).wf(),
            final(self).len() == old(self).len(),
            final(self).goal_wire() == old(self).goal_wire(),
            forall|n: usize|
                #![trigger final(self).expr(n)]
                #![trigger final(self).is_proven(n)]
                #![trigger final(self).is_deleted(n)]
                #![trigger final(self).position_of(n)]
                n < old(self).len() ==> {
                    &&& final(self).expr(n) == old(self).expr(n)
                    &&& final(self).is_deleted(n) == old(self).is_deleted(n)
                    &&& final(self).position_of(n) == old(self).position_of(n)
                    &&& final(self).is_proven(n) == (old(self).is_proven(n) || ((old(self).same(
                        n,
                        w1.0.0,
                    ) || old(self).same(n, w2.0.0)) && (old(self).is_proven(w1.0.0) || old(
                        self,
                    ).is_proven(w2.0.0))))
                },
            forall|a: usize, b: usize|
                #[trigger] final(self).same(a, b) <==> (old(self).same(a, b) || (old(self).same(
                    a,
                    w1.0.0,
                ) && old(self).same(b, w2.0.0)) || (old(self).same(a, w2.0.0) && old(self).same(
                    b,
                    w1.0.0,
                ))),
            final(self).same(w1.0.0, w2.0.0),
            final(self).is_proven(w1.0.0) == final(self).is_proven(w2.0.0),
            final(self).is_proven(w1.0.0) == (old(self).is_proven(w1.0.0) || old(
                self,
            ).is_proven(w2.0.0)),
    {
        let a = w1.0.0;
        let b = w2.0.0;
        let proven_a = self.proven[a];
        let proven_b = self.proven[b];
        if proven_a && !proven_b {
            self.mark_class_proven(b);
        } else if proven_b && !proven_a {
            self.mark_class_proven(a);
        }
        let ghost marked = *self;
        proof {
            assert forall|n: usize| n < self.len() implies #[trigger] self.proven@[n as int] == (old(
                self,
            ).is_proven(n) || ((old(self).same(n, a) || old(self).same(n, b)) && (proven_a || proven_b))) by {
                if old(self).same(n, a) {
                    assert(old(self).proven@[n as int] == proven_a);
                }
                if old(self).same(n, b) {
                    assert(old(self).proven@[n as int] == proven_b);
                }
            }
        }
        self.connections.merge(a, b);
        let ea = self.node_to_egg[a];
        let eb = self.node_to_egg[b];
        egraph_union(&mut self.egg, ea, eb);
        let ghost unioned = self.egg;
        egraph_rebuild(&mut self.egg);
        proof {
            let c0 = egraph_classes(marked.egg);
            let c1 = egraph_classes(unioned);
            let c2 = egraph_classes(self.egg);
            assert(c2[ea] == c2[eb]);
            Case::lemma_memo_ok_same(*old(self), marked);
            assert forall|i: usize| i < self.len() implies {
                &&& egraph_memo(self.egg).contains_key(#[trigger] self.node_key(i))
                &&& c2[egraph_memo(self.egg)[self.node_key(i)]] == c2[self.node_to_egg@[i as int]]
            } by {
                let k0 = marked.node_key(i);
                assert(egraph_memo(marked.egg).contains_key(k0));
                assert(egraph_memo(unioned).contains_key(k0));
                marked.lemma_inputs_before(i);
                let ins = marked.expr(i).inputs();
                assert(self.expr(i) == marked.expr(i));
                assert forall|q: int| 0 <= q < k0.1.len() implies #[trigger] canon(c2, k0.1)[q] == self.node_key(i).1[q] by {
                    let x = marked.node_to_egg@[ins[q] as int];
                    assert(c0.contains_key(x));
                    assert(c0.contains_key(c0[x]) && c0[c0[x]] == c0[x]);
                    assert(c1[c0[x]] == c1[x]);
                    assert(c2[c0[x]] == c2[x]);
                }
                assert(canon(c2, k0.1) =~= self.node_key(i).1);
                assert(self.node_key(i) == (k0.0, canon(c2, k0.1)));
                let v = egraph_memo(marked.egg)[k0];
                assert(c0.contains_key(v));
                assert(c0[v] == c0[marked.node_to_egg@[i as int]]);
                assert(c0.contains_key(marked.node_to_egg@[i as int]));
                assert(c1[v] == c1[marked.node_to_egg@[i as int]]);
                assert(c2[v] == c2[marked.node_to_egg@[i as int]]);
            }
            assert forall|i: usize, j: usize|
                i < self.len() && j < self.len() && #[trigger] self.connections.equiv(
                    i,
                    j,
                ) implies #[trigger] self.equivalent(i, j) by {
                let ei = self.node_to_egg@[i as int];
                let ej = self.node_to_egg@[j as int];
                assert(c0.contains_key(ei) && c0.contains_key(ej));
                assert(c0.contains_key(ea) && c0.contains_key(eb));
                if marked.connections.equiv(i, j) {
                    assert(marked.equivalent(i, j));
                    assert(c2[ei] == c2[ej]);
                } else if marked.connections.equiv(i, a) && marked.connections.equiv(j, b) {
                    assert(marked.equivalent(i, a));
                    assert(marked.equivalent(j, b));
                    assert(c2[ei] == c2[ea]);
                    assert(c2[ej] == c2[eb]);
                } else {
                    assert(marked.equivalent(i, b));
                    assert(marked.equivalent(j, a));
                    assert(c2[ei] == c2[eb]);
                    assert(c2[ej] == c2[ea]);
                }
            }
            assert forall|i: usize, j: usize|
                i < self.len() && j < self.len() && #[trigger] self.connections.equiv(
                    i,
                    j,
                ) implies self.proven@[i as int] == self.proven@[j as int] by {
                assert(old(self).connections == marked.connections);
                if marked.connections.equiv(i, j) {
                    assert(old(self).proven@[i as int] == old(self).proven@[j as int]);
                } else if marked.connections.equiv(i, a) && marked.connections.equiv(j, b) {
                    assert(old(self).proven@[i as int] == proven_a);
                    assert(old(self).proven@[j as int] == proven_b);
                    assert(old(self).same(i, a));
                    assert(old(self).same(j, b));
                } else {
                    assert(old(self).proven@[i as int] == proven_b);
                    assert(old(self).proven@[j as int] == proven_a);
                    assert(old(self).same(i, b));
                    assert(old(self).same(j, a));
                }
            }
            assert forall|i: int, k: int|
                0 <= i < self.len() && 0 <= k < self.expressions@[i]@.inputs().len() implies #[trigger] self.expressions@[i]@.inputs()[k]
                < i by {
                assert(marked.expressions@[i] == self.expressions@[i]);
            }
            assert(self.shape_ok());
            assert(self.egg_ok());
            assert(self.proven_ok());
        }
    }

    /// Whether wire `w` is proven.
    pub fn proven(&self, w: Wire) -> (r: bool)
        requires
            self.wf(),
            w.0.0 < self.len(),
        ensures
            r == self.is_proven(w.0.0),
    {
        self.proven[w.0.0]
    }

    /// Marks wire `w` proven, at every node of its class.
    pub fn set_proven(&mut self, w: Wire, _why_valid: ValidityReason)
        requires
            old(self).wf(),
            w.0.0 < old(self).len(),
        ensures
            final(self).wf(),
            final(self).len() == old(self).len(),
            final(self).goal_wire() == old(self).goal_wire(),
            forall|n: usize|
                #![trigger final(self).expr(n)]
                #![trigger final(self).is_proven(n)]
                #![trigger final(self).is_deleted(n)]
                #![trigger final(self).position_of(n)]
                n < old(self).len() ==> {
                    &&& final(self).expr(n) == old(self).expr(n)
                    &&& final(self).is_deleted(n) == old(self).is_deleted(n)
                    &&& final(self).position_of(n) == old(self).position_of(n)
                    &&& final(self).is_proven(n) == (old(self).is_proven(n) || old(self).same(
                        n,
                        w.0.0,
                    ))
                },
            final(self).same_connections(old(self)),
            forall|a: usize, b: usize|
                a < old(self).len() && b < old(self).len() ==> #[trigger] final(self).equivalent(a, b)
                    == old(self).equivalent(a, b),
    {
        self.mark_class_proven(w.0.0);
        proof {
            Case::lemma_memo_ok_same(*old(self), *self);
            assert forall|i: usize, j: usize|
                i < self.len() && j < self.len() && #[trigger] self.connections.equiv(
                    i,
                    j,
                ) implies self.proven@[i as int] == self.proven@[j as int] by {
                assert(old(self).proven@[i as int] == old(self).proven@[j as int]);
            }
        }
    }

    /// Soft-deletes node `n`: it keeps its identifier but is no longer listed.
    pub fn set_deleted(&mut self, n: Node)
        requires
            old(self).wf(),
            n.0 < old(self).len(),
        ensures
            final(self).wf(),
            final(self).len() == old(self).len(),
            final(self).goal_wire() == old(self).goal_wire(),
            final(self).is_deleted(n.0),
            forall|m: usize|
                #![trigger final(self).expr(m)]
                #![trigger final(self).is_proven(m)]
                #![trigger final(self).is_deleted(m)]
                #![trigger final(self).position_of(m)]
                m < old(self).len() ==> {
                    &&& final(self).expr(m) == old(self).expr(m)
                    &&& final(self).is_proven(m) == old(self).is_proven(m)
                    &&& m != n.0 ==> final(self).is_deleted(m) == old(self).is_deleted(m)
                    &&& final(self).position_of(m) == old(self).position_of(m)
                },
            final(self).same_connections(old(self)),
    {
        self.deleted.set(n.0, true);
        proof {
            Case::lemma_memo_ok_same(*old(self), *self);
            assert forall|i: usize, j: usize|
                i < self.len() && j < self.len() && #[trigger] self.connections.equiv(
                    i,
                    j,
                ) implies #[trigger] self.equivalent(i, j) by {
                assert(old(self).equivalent(i, j));
            }
        }
    }

    pub fn position(&self, n: Node) -> (r: Position)
        requires
            self.wf(),
            n.0 < self.len(),
        ensures
            r == self.position_of(n.0),
    {
        self.positions[n.0]
    }

    pub fn set_position(&mut self, n: Node, position: Position)
        requires
            old(self).wf(),
            n.0 < old(self).len(),
        ensures
            final(self).wf(),
            final(self).len() == old(self).len(),
            final(self).goal_wire() == old(self).goal_wire(),
            final(self).position_of(n.0) == position,
            forall|m: usize|
                #![trigger final(self).expr(m)]
                #![trigger final(self).is_proven(m)]
                #![trigger final(self).is_deleted(m)]
                #![trigger final(self).position_of(m)]
                m < old(self).len() ==> {
                    &&& final(self).expr(m) == old(self).expr(m)
                    &&& final(self).is_proven(m) == old(self).is_proven(m)
                    &&& final(self).is_deleted(m) == old(self).is_deleted(m)
                    &&& m != n.0 ==> final(self).position_of(m) == old(self).position_of(m)
                },
            final(self).same_connections(old(self)),
    {
        self.positions.set(n.0, position);
        proof {
            Case::lemma_memo_ok_same(*old(self), *self);
            assert forall|i: usize, j: usize|
                i < self.len() && j < self.len() && #[trigger] self.connections.equiv(
                    i,
                    j,
                ) implies #[trigger] self.equivalent(i, j) by {
                assert(old(self).equivalent(i, j));
            }
        }
    }

    /// The nodes that are not deleted, in increasing order.
    pub fn nodes(&self) -> (r: Vec<Node>)
        requires
            self.wf(),
        ensures
            forall|i: int, j: int| 0 <= i < j < r@.len() ==> r@[i].0 < r@[j].0,
            forall|m: Node| #[trigger] r@.contains(m) <==> (m.0 < self.len() && !self.is_deleted(m.0)),
    {
        let mut out: Vec<Node> = Vec::new();
        let mut i: usize = 0;
        while i < self.deleted.len()
            invariant
                self.wf(),
                i <= self.len(),
                forall|a: int, b: int| 0 <= a < b < out@.len() ==> out@[a].0 < out@[b].0,
                forall|a: int| 0 <= a < out@.len() ==> out@[a].0 < i,
                forall|m: Node| #[trigger] out@.contains(m) <==> (m.0 < i && !self.is_deleted(m.0)),
            decreases self.len() - i,
        {
            let ghost prev = out@;
            if !self.deleted[i] {
                out.push(Node(i));
            }
            i = i + 1;
            proof {
                assert forall|m: Node| #[trigger] out@.contains(m) <==> (m.0 < i && !self.is_deleted(m.0)) by {
                    if out@.contains(m) {
                        let a = choose|a: int| 0 <= a < out@.len() && out@[a] == m;
                        if a < prev.len() {
                            assert(prev.contains(m));
                        }
                    }
                    if m.0 < i && !self.is_deleted(m.0) {
                        if m.0 == i - 1 {
                            assert(out@[out@.len() - 1] == m);
                        } else {
                            assert(prev.contains(m));
                            let a = choose|a: int| 0 <= a < prev.len() && prev[a] == m;
                            assert(out@[a] == m);
                        }
                    }
                }
            }
        }
        out
    }
}

/// One change to a case, as the interaction rules issue them.
#[derive(Debug, Clone, Copy, PartialEq, Eq, Structural)]
pub enum Edit {
    /// Mark a wire proven.
    ProveWire(Wire),
    /// Connect two wires.
    Connect(Wire, Wire),
    /// Make a wire the goal.
    SetGoal(Wire),
    /// Soft-delete a node.
    Delete(Node),
}

impl Edit {
    /// The wires and nodes the edit names exist in `c`.
    pub open spec fn fits(self, c: &Case) -> bool {
        match self {
            Edit::ProveWire(w) => w.0.0 < c.len(),
            Edit::Connect(a, b) => a.0.0 < c.len() && b.0.0 < c.len(),
            Edit::SetGoal(w) => w.0.0 < c.len(),
            Edit::Delete(n) => n.0 < c.len(),
        }
    }
}

impl Case {
    /// `r` is what applying `e` to `self` gives.
    pub open spec fn edited(&self, e: Edit, r: &Case) -> bool {
        &&& r.len() == self.len()
        &&& forall|n: usize| n < self.len() ==> #[trigger] r.expr(n) == self.expr(n)
        &&& forall|n: usize| n < self.len() ==> #[trigger] r.position_of(n) == self.position_of(n)
        &&& match e {
            Edit::ProveWire(w) => {
                &&& r.goal_wire() == self.goal_wire()
                &&& r.same_connections(self)
                &&& forall|n: usize|
                    n < self.len() ==> {
                        &&& #[trigger] r.is_proven(n) == (self.is_proven(n) || self.same(n, w.0.0))
                        &&& r.is_deleted(n) == self.is_deleted(n)
                    }
            },
            Edit::Connect(a, b) => {
                &&& r.goal_wire() == self.goal_wire()
                &&& forall|x: usize, y: usize|
                    #[trigger] r.same(x, y) <==> (self.same(x, y) || (self.same(x, a.0.0) && self.same(
                        y,
                        b.0.0,
                    )) || (self.same(x, b.0.0) && self.same(y, a.0.0)))
                &&& forall|n: usize|
                    n < self.len() ==> {
                        &&& #[trigger] r.is_proven(n) == (self.is_proven(n) || ((self.same(n, a.0.0)
                            || self.same(n, b.0.0)) && (self.is_proven(a.0.0) || self.is_proven(
                            b.0.0,
                        ))))
                        &&& r.is_deleted(n) == self.is_deleted(n)
                    }
            },
            Edit::SetGoal(w) => {
                &&& r.goal_wire() == Some(w)
                &&& r.same_connections(self)
                &&& forall|n: usize|
                    n < self.len() ==> {
                        &&& #[trigger] r.is_proven(n) == self.is_proven(n)
                        &&& r.is_deleted(n) == self.is_deleted(n)
                    }
            },
            Edit::Delete(d) => {
                &&& r.goal_wire() == self.goal_wire()
                &&& r.same_connections(self)
                &&& forall|n: usize|
                    n < self.len() ==> {
                        &&& #[trigger] r.is_proven(n) == self.is_proven(n)
                        &&& r.is_deleted(n) == (self.is_deleted(n) || n == d.0)
                    }
            },
        }
    }

    /// Applies one edit.
    pub fn apply(&mut self, e: Edit)
        requires
            old(self).wf(),
            e.fits(old(self)),
        ensures
            final(self).wf(),
            old(self).edited(e, final(self)),
    {
        match e {
            Edit::ProveWire(w) => self.set_proven(w, ValidityReason::new("issued by a checked rule")),
            Edit::Connect(a, b) => self.connect(a, b, ValidityReason::new("issued by a checked rule")),
            Edit::SetGoal(w) => self.set_goal(w),
            Edit::Delete(n) => self.set_deleted(n),
        }
    }
}

/// The symbol under which an expression is filed in the e-graph: its kind,
/// the type of a variable or function, and its name.
pub open spec fn egg_op(e: ExprView) -> Seq<char> {
    match e {
        ExprView::And(_) => "and:"@,
        ExprView::Or(_) => "or:"@,
        ExprView::Implies(_, _) => "implies:"@,
        ExprView::Equal(_, _) => "equal:"@,
        ExprView::Variable(x, t) => match t {
            Type::TruthValue => "var:T:"@ + x,
            Type::RealNumber => "var:R:"@ + x,
        },
        ExprView::Function(x, t, _) => match t {
            Type::TruthValue => "fn:T:"@ + x,
            Type::RealNumber => "fn:R:"@ + x,
        },
    }
}

/// The tag and name that make up the symbol of `e`.
fn egg_symbol(e: &Expression) -> (r: (&'static str, &str))
    ensures
        r.0@ + ":"@ + r.1@ == egg_op(e@),
{
    proof {
        reveal_strlit("and");
        reveal_strlit("or");
        reveal_strlit("implies");
        reveal_strlit("equal");
        reveal_strlit("var:T");
        reveal_strlit("var:R");
        reveal_strlit("fn:T");
        reveal_strlit("fn:R");
        reveal_strlit("");
        reveal_strlit(":");
        reveal_strlit("and:");
        reveal_strlit("or:");
        reveal_strlit("implies:");
        reveal_strlit("equal:");
        reveal_strlit("var:T:");
        reveal_strlit("var:R:");
        reveal_strlit("fn:T:");
        reveal_strlit("fn:R:");
    }
    let r = egg_symbol_parts(e);
    proof {
        assert(r.0@ + ":"@ + r.1@ =~= egg_op(e@));
    }
    r
}

fn egg_symbol_parts(e: &Expression) -> (r: (&'static str, &str))
    ensures
        match e@ {
            ExprView::And(_) => r.0@ == "and"@ && r.1@ == ""@,
            ExprView::Or(_) => r.0@ == "or"@ && r.1@ == ""@,
            ExprView::Implies(_, _) => r.0@ == "implies"@ && r.1@ == ""@,
            ExprView::Equal(_, _) => r.0@ == "equal"@ && r.1@ == ""@,
            ExprView::Variable(x, t) => r.1@ == x && r.0@ == match t {
                Type::TruthValue => "var:T"@,
                Type::RealNumber => "var:R"@,
            },
            ExprView::Function(x, t, _) => r.1@ == x && r.0@ == match t {
                Type::TruthValue => "fn:T"@,
                Type::RealNumber => "fn:R"@,
            },
        },
{
    match e {
        Expression::And(_) => ("and", ""),
        Expression::Or(_) => ("or", ""),
        Expression::Implies(_) => ("implies", ""),
        Expression::Equal(_) => ("equal", ""),
        Expression::Variable(x) => (
            match x.1 {
                Type::TruthValue => "var:T",
                Type::RealNumber => "var:R",
            },
            x.0.as_str(),
        ),
        Expression::Function(name, t, _) => (
            match t {
                Type::TruthValue => "fn:T",
                Type::RealNumber => "fn:R",
            },
            name.as_str(),
        ),
    }
}

impl Clone for Case {
    fn clone(&self) -> (r: Case)
        ensures
            self.wf() ==> r.wf() && r.same_case(self),
    {
        let mut expressions: Vec<Expression> = Vec::new();
        let mut positions: Vec<Position> = Vec::new();
        let mut proven: Vec<bool> = Vec::new();
        let mut deleted: Vec<bool> = Vec::new();
        let mut n = self.expressions.len();
        if self.positions.len() < n {
            n = self.positions.len();
        }
        if self.proven.len() < n {
            n = self.proven.len();
        }
        if self.deleted.len() < n {
            n = self.deleted.len();
        }
        let mut k: usize = 0;
        while k < n
            invariant
                n <= self.expressions@.len(),
                n <= self.positions@.len(),
                n <= self.proven@.len(),
                n <= self.deleted@.len(),
                self.wf() ==> n == self.expressions@.len(),
                k <= n,
                expressions@.len() == k,
                positions@.len() == k,
                proven@.len() == k,
                deleted@.len() == k,
                forall|j: int| 0 <= j < k ==> #[trigger] expressions@[j]@ == self.expressions@[j]@,
                forall|j: int| 0 <= j < k ==> #[trigger] positions@[j] == self.positions@[j],
                forall|j: int| 0 <= j < k ==> #[trigger] proven@[j] == self.proven@[j],
                forall|j: int| 0 <= j < k ==> #[trigger] deleted@[j] == self.deleted@[j],
            decreases n - k,
        {
            expressions.push(self.expressions[k].clone());
            positions.push(self.positions[k]);
            proven.push(self.proven[k]);
            deleted.push(self.deleted[k]);
            k = k + 1;
        }
        let r = Case {
            expressions,
            positions,
            proven,
            deleted,
            connections: self.connections.clone(),
            goal: self.goal,
            egg: egraph_clone(&self.egg),
            node_to_egg: crate::union_find::copy_ids(&self.node_to_egg),
        };
        proof {
            if self.wf() {
                assert(r.expressions@.len() == n);
                assert(r.node_to_egg@ == self.node_to_egg@);
                Case::lemma_memo_ok_same_view(*self, r);
                assert(r.proven@ =~= self.proven@);
                assert(r.deleted@ =~= self.deleted@);
                assert(r.positions@ =~= self.positions@);
                assert forall|i: int, k: int|
                    0 <= i < n && 0 <= k < r.expressions@[i]@.inputs().len() implies #[trigger] r.expressions@[i]@.inputs()[k]
                    < i by {
                    assert(r.expressions@[i]@ == self.expressions@[i]@);
                }
                assert forall|a: usize, b: usize| #[trigger] r.same(a, b) == self.same(a, b) by {
                    assert(r.connections.root(a) == self.connections.root(a));
                    assert(r.connections.root(b) == self.connections.root(b));
                }
                assert forall|i: usize, j: usize|
                    i < n && j < n && #[trigger] r.connections.equiv(i, j) implies #[trigger] r.equivalent(i, j) by {
                    assert(r.connections.root(i) == self.connections.root(i));
                    assert(r.connections.root(j) == self.connections.root(j));
                    assert(self.connections.equiv(i, j));
                    assert(self.equivalent(i, j));
                }
                assert forall|i: usize, j: usize|
                    i < r.len() && j < r.len() && #[trigger] r.connections.equiv(i, j) implies r.proven@[i as int]
                        == r.proven@[j as int] by {
                    assert(r.connections.root(i) == self.connections.root(i));
                    assert(r.connections.root(j) == self.connections.root(j));
                    assert(self.connections.equiv(i, j));
                    assert(self.proven@[i as int] == self.proven@[j as int]);
                }
            }
        }
        r
    }
}

impl Case {
    /// Visible node `m` takes a wire whose representative is `r` as its
    /// input number `ix`.
    pub open spec fn feeds(&self, m: usize, ix: usize, r: usize) -> bool {
        &&& m < self.len()
        &&& !self.is_deleted(m)
        &&& ix < self.expr(m).inputs().len()
        &&& self.rep(self.expr(m).inputs()[ix as int]) == r
    }

    /// The wire with representative `r` is drawn: a visible node outputs it
    /// or takes it as an input.
    pub open spec fn shown(&self, r: usize) -> bool {
        ||| exists|m: usize| m < self.len() && !self.is_deleted(m) && #[trigger] self.rep(m) == r
        ||| exists|m: usize, ix: usize| #[trigger] self.feeds(m, ix, r)
    }

    /// Whether a visible node outputs onto the wire with representative `w`.
    fn outputs_to(&self, w: usize) -> (r: bool)
        requires
            self.wf(),
        ensures
            r == exists|m: usize| m < self.len() && !self.is_deleted(m) && #[trigger] self.rep(m) == w,
    {
        let n = self.expressions.len();
        let mut m: usize = 0;
        while m < n
            invariant
                self.wf(),
                n == self.len(),
                m <= n,
                forall|a: usize| a < m ==> !(!self.is_deleted(a) && #[trigger] self.rep(a) == w),
            decreases n - m,
        {
            if !self.deleted[m] && self.connections.canonical(m) == w {
                proof {
                    assert(m < self.len() && !self.is_deleted(m) && self.rep(m) == w);
                }
                return true;
            }
            m = m + 1;
        }
        false
    }

    /// The inbound connections of wire `w`: which visible nodes take it as
    /// which input.
    #[verifier::spinoff_prover]
    fn inbound(&self, w: usize) -> (r: Vec<(Node, usize)>)
        requires
            self.wf(),
        ensures
            r@.no_duplicates(),
            forall|m: usize, ix: usize| #[trigger] r@.contains((Node(m), ix)) <==> self.feeds(m, ix, w),
    {
        let n = self.expressions.len();
        let mut list: Vec<(Node, usize)> = Vec::new();
        let mut m: usize = 0;
        while m < n
            invariant
                self.wf(),
                n == self.len(),
                m <= n,
                list@.no_duplicates(),
                forall|a: usize, ix: usize|
                    #[trigger] list@.contains((Node(a), ix)) <==> (a < m && self.feeds(a, ix, w)),
            decreases n - m,
        {
            if !self.deleted[m] {
                let ins = self.expressions[m].inputs();
                let mut ix: usize = 0;
                let ghost prev = list@;
                while ix < ins.len()
                    invariant
                        self.wf(),
                        n == self.len(),
                        m < n,
                        !self.is_deleted(m),
                        ins@ == self.expr(m).inputs(),
                        ix <= ins@.len(),
                        list@.no_duplicates(),
                        forall|a: usize, j: usize| #[trigger] prev.contains((Node(a), j)) ==> a < m,
                        forall|a: usize, j: usize|
                            #[trigger] list@.contains((Node(a), j)) <==> (prev.contains((Node(a), j)) || (a
                                == m && j < ix && self.feeds(a, j, w))),
                    decreases ins@.len() - ix,
                {
                    let ghost before = list@;
                    if self.connections.canonical(ins[ix]) == w {
                        proof {
                            assert(!before.contains((Node(m), ix)));
                        }
                        list.push((Node(m), ix));
                        proof {
                            assert forall|p: int, q: int|
                                0 <= p < list@.len() && 0 <= q < list@.len() && p != q implies list@[p] != list@[q] by {
                                if p == list@.len() - 1 {
                                    assert(before.contains(list@[q]));
                                } else if q == list@.len() - 1 {
                                    assert(before.contains(list@[p]));
                                } else {
                                    assert(before[p] == list@[p] && before[q] == list@[q]);
                                }
                            }
                        }
                    }
                    ix = ix + 1;
                    proof {
                        assert forall|a: usize, j: usize|
                            #[trigger] list@.contains((Node(a), j)) <==> (prev.contains((Node(a), j)) || (a
                                == m && j < ix && self.feeds(a, j, w))) by {
                            if list@.contains((Node(a), j)) && !before.contains((Node(a), j)) {
                                let q = choose|q: int| 0 <= q < list@.len() && list@[q] == (Node(a), j);
                                if q < before.len() {
                                    assert(before.contains((Node(a), j)));
                                }
                            }
                            if a == m && j == ix - 1 && self.feeds(a, j, w) {
                                assert(list@[list@.len() - 1] == (Node(a), j));
                            }
                            if before.contains((Node(a), j)) {
                                let q = choose|q: int| 0 <= q < before.len() && before[q] == (Node(a), j);
                                assert(list@[q] == (Node(a), j));
                            }
                        }
                    }
                }
            }
            m = m + 1;
            proof {
                assert forall|a: usize, ix: usize|
                    #[trigger] list@.contains((Node(a), ix)) <==> (a < m && self.feeds(a, ix, w)) by {
                    if a == m - 1 && self.feeds(a, ix, w) {
                        assert(ix < self.expr(a).inputs().len());
                    }
                }
            }
        }
        list
    }

    /// Every drawn wire, by increasing representative, with its inbound
    /// connections: which visible nodes take it as which input.
    #[verifier::spinoff_prover]
    pub fn wires(&self) -> (r: Vec<(Wire, Vec<(Node, usize)>)>)
        requires
            self.wf(),
        ensures
            forall|i: int, j: int| 0 <= i < j < r@.len() ==> r@[i].0.0.0 < r@[j].0.0.0,
            forall|k: int|
                0 <= k < r@.len() ==> {
                    let w = (#[trigger] r@[k]).0.0.0;
                    &&& r@[k].1@.no_duplicates()
                    &&& w < self.len()
                    &&& self.rep(w) == w
                    &&& self.shown(w)
                    &&& forall|m: usize, ix: usize|
                        #[trigger] r@[k].1@.contains((Node(m), ix)) <==> self.feeds(m, ix, w)
                },
            forall|w: usize|
                w < self.len() && self.rep(w) == w && self.shown(w) ==> exists|k: int|
                    0 <= k < r@.len() && (#[trigger] r@[k]).0.0.0 == w,
    {
        let n = self.expressions.len();
        let mut out: Vec<(Wire, Vec<(Node, usize)>)> = Vec::new();
        let mut w: usize = 0;
        while w < n
            invariant
                self.wf(),
                n == self.len(),
                w <= n,
                forall|i: int, j: int| 0 <= i < j < out@.len() ==> out@[i].0.0.0 < out@[j].0.0.0,
                forall|k: int| 0 <= k < out@.len() ==> (#[trigger] out@[k]).0.0.0 < w,
                forall|k: int|
                    0 <= k < out@.len() ==> {
                        let v = (#[trigger] out@[k]).0.0.0;
                        &&& out@[k].1@.no_duplicates()
                        &&& v < self.len()
                        &&& self.rep(v) == v
                        &&& self.shown(v)
                        &&& forall|m: usize, ix: usize|
                            #[trigger] out@[k].1@.contains((Node(m), ix)) <==> self.feeds(m, ix, v)
                    },
                forall|v: usize|
                    v < w && self.rep(v) == v && self.shown(v) ==> exists|k: int|
                        0 <= k < out@.len() && (#[trigger] out@[k]).0.0.0 == v,
            decreases n - w,
        {
            let ghost before = out@;
            if self.connections.canonical(w) == w {
                let list = self.inbound(w);
                let out_here = self.outputs_to(w);
                let shown = out_here || list.len() > 0;
                proof {
                    if list@.len() > 0 {
                        let (nd, ix) = list@[0];
                        assert(list@.contains((nd, ix)));
                        assert(self.feeds(nd.0, ix, w));
                    }
                    if exists|m: usize, ix: usize| #[trigger] self.feeds(m, ix, w) {
                        let (m, ix) = choose|m: usize, ix: usize| #[trigger] self.feeds(m, ix, w);
                        assert(list@.contains((Node(m), ix)));
                    }
                    assert(shown == self.shown(w));
                }
                if shown {
                    out.push((Wire(Node(w)), list));
                    proof {
                        assert(out@[out@.len() - 1].0.0.0 == w);
                        assert forall|v: usize|
                            v < w + 1 && self.rep(v) == v && self.shown(v) implies exists|k: int|
                                0 <= k < out@.len() && (#[trigger] out@[k]).0.0.0 == v by {
                            if v == w {
                                assert(out@[out@.len() - 1].0.0.0 == v);
                            } else {
                                let k = choose|k: int| 0 <= k < before.len() && (#[trigger] before[k]).0.0.0 == v;
                                assert(out@[k] == before[k]);
                            }
                        }
                    }
                }
            }
            w = w + 1;
        }
        out
    }
}

} // verus!
