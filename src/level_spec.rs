//! The statement of a level: expression nodes, hypotheses and a conclusion,
//! validated once and then turned into the first case of a proof.
use vstd::prelude::*;
use crate::case::{Case, Node, Position, ValidityReason, Wire, MAX_NODES};
use crate::case_tree::CaseTree;
use crate::expression::{ExprView, Expression, Type, Var};

verus! {

/// Why a level statement was refused.
#[derive(Debug, Clone, Copy, PartialEq, Eq, Structural)]
pub enum SpecError {
    /// The node's inputs do not have the types its connective asks for.
    IllTyped(usize),
    /// The node takes itself as an input.
    SelfReference(usize),
    /// The node (first) takes a later node (second) as an input.
    LaterReference(usize, usize),
    /// The hypothesis (a node index) is out of range.
    HypothesisOutOfRange(usize),
    /// The hypothesis node is not a truth value.
    HypothesisNotTruthValue(usize),
    /// The conclusion node index is out of range.
    ConclusionOutOfRange(usize),
    /// The conclusion node is not a truth value.
    ConclusionNotTruthValue,
}

/// A validated level statement.
pub struct LevelSpec {
    expressions: Vec<Expression>,
    positions: Vec<Position>,
    hypotheses: Vec<usize>,
    conclusion: usize,
}

/// The expression of each node.
pub open spec fn exprs_of(nodes: Seq<(Expression, Position)>) -> Seq<ExprView> {
    nodes.map_values(|p: (Expression, Position)| p.0@)
}

/// Where each node is drawn.
pub open spec fn places_of(nodes: Seq<(Expression, Position)>) -> Seq<Position> {
    nodes.map_values(|p: (Expression, Position)| p.1)
}

/// The type of each node.
pub open spec fn types_of(es: Seq<ExprView>) -> Seq<Type> {
    es.map_values(|e: ExprView| e.ty())
}

/// Every input of node `n` is an earlier node.
pub open spec fn refers_back(es: Seq<ExprView>, n: int) -> bool {
    forall|k: int| 0 <= k < es[n].inputs().len() ==> #[trigger] es[n].inputs()[k] < n
}

/// A statement is valid when each node refers only to earlier nodes and is
/// well typed, and the hypotheses and the conclusion are truth values.
pub open spec fn valid_statement(es: Seq<ExprView>, hyps: Seq<usize>, concl: usize) -> bool {
    &&& forall|n: int| 0 <= n < es.len() ==> refers_back(es, n)
    &&& forall|n: int| 0 <= n < es.len() ==> (#[trigger] es[n]).tycheck(types_of(es))
    &&& forall|k: int|
        0 <= k < hyps.len() ==> #[trigger] hyps[k] < es.len() && types_of(es)[hyps[k] as int]
            == Type::TruthValue
    &&& concl < es.len()
    &&& types_of(es)[concl as int] == Type::TruthValue
}

/// The variables among the nodes, in order.
pub open spec fn vars_of(es: Seq<ExprView>) -> Seq<(Seq<char>, Type)>
    decreases es.len(),
{
    if es.len() == 0 {
        Seq::empty()
    } else {
        let rest = vars_of(es.drop_last());
        match es.last() {
            ExprView::Variable(x, t) => rest.push((x, t)),
            _ => rest,
        }
    }
}

impl LevelSpec {
    pub closed spec fn exprs(&self) -> Seq<ExprView> {
        self.expressions@.map_values(|e: Expression| e@)
    }

    pub closed spec fn hyps(&self) -> Seq<usize> {
        self.hypotheses@
    }

    pub closed spec fn concl(&self) -> usize {
        self.conclusion
    }

    pub closed spec fn places(&self) -> Seq<Position> {
        self.positions@
    }

    pub closed spec fn wf(&self) -> bool {
        &&& self.positions@.len() == self.expressions@.len()
        &&& valid_statement(self.exprs(), self.hypotheses@, self.conclusion)
    }

    /// Validates a statement: `nodes` in order, each with where it is drawn.
    #[verifier::spinoff_prover]
    pub fn new(nodes: Vec<(Expression, Position)>, hypotheses: Vec<usize>, conclusion: usize) -> (r:
        Result<LevelSpec, SpecError>)
        ensures
            r.is_ok() == valid_statement(exprs_of(nodes@), hypotheses@, conclusion),
            r matches Ok(s) ==> {
                &&& s.wf()
                &&& s.exprs() == exprs_of(nodes@)
                &&& s.places() == places_of(nodes@)
                &&& s.hyps() == hypotheses@
                &&& s.concl() == conclusion
            },
    {
        let ghost es = exprs_of(nodes@);
        let mut expressions: Vec<Expression> = Vec::new();
        let mut positions: Vec<Position> = Vec::new();
        let mut types: Vec<Type> = Vec::new();
        let ghost all = nodes@;
        let mut rest = nodes;
        // Take the nodes apart, keeping the order.
        let mut k: usize = 0;
        let n = rest.len();
        while k < n
            invariant
                n == all.len(),
                all == nodes@,
                es == exprs_of(all),
                k <= n,
                rest@ == all.skip(k as int),
                expressions@.len() == k,
                positions@.len() == k,
                types@.len() == k,
                forall|j: int| 0 <= j < k ==> #[trigger] expressions@[j]@ == all[j].0@,
                forall|j: int| 0 <= j < k ==> #[trigger] positions@[j] == all[j].1,
                forall|j: int| 0 <= j < k ==> #[trigger] types@[j] == all[j].0@.ty(),
            decreases n - k,
        {
            let (e, p) = rest.remove(0);
            proof {
                assert(all.skip(k as int)[0] == all[k as int]);
                assert(rest@ =~= all.skip(k + 1));
            }
            types.push(e.ty());
            expressions.push(e);
            positions.push(p);
            k = k + 1;
        }
        proof {
            assert(types@ =~= types_of(es));
        }
        let mut i: usize = 0;
        while i < n
            invariant
                n == all.len(),
                all == nodes@,
                i <= n,
                es == exprs_of(all),
                expressions@.len() == n,
                types@ == types_of(es),
                forall|j: int| 0 <= j < n ==> #[trigger] expressions@[j]@ == es[j],
                forall|j: int| 0 <= j < i ==> refers_back(es, j),
                forall|j: int| 0 <= j < i ==> (#[trigger] es[j]).tycheck(types_of(es)),
            decreases n - i,
        {
            let inputs = expressions[i].inputs();
            let mut k: usize = 0;
            while k < inputs.len()
                invariant
                    i < n,
                    es == exprs_of(all),
                    all == nodes@,
                    n == all.len(),
                    inputs@ == es[i as int].inputs(),
                    k <= inputs@.len(),
                    forall|j: int| 0 <= j < k ==> #[trigger] inputs@[j] < i,
                decreases inputs@.len() - k,
            {
                if inputs[k] >= i {
                    proof {
                        assert(es[i as int].inputs()[k as int] >= i);
                        assert(!refers_back(es, i as int));
                    }
                    if inputs[k] == i {
                        proof {
                            assert(!valid_statement(es, hypotheses@, conclusion));
                        }
                        return Err(SpecError::SelfReference(i));
                    }
                    proof {
                        assert(!valid_statement(es, hypotheses@, conclusion));
                    }
                    return Err(SpecError::LaterReference(i, inputs[k]));
                }
                k = k + 1;
            }
            proof {
                assert(refers_back(es, i as int));
            }
            proof {
                assert(expressions@[i as int]@ == es[i as int]);
                assert forall|k: int| 0 <= k < expressions@[i as int]@.inputs().len() implies #[trigger] expressions@[i as int]@.inputs()[k]
                    < types@.len() by {
                    assert(refers_back(es, i as int));
                }
            }
            if !expressions[i].tycheck(&types) {
                proof {
                    assert(!es[i as int].tycheck(types_of(es)));
                }
                proof {
                    assert(!valid_statement(es, hypotheses@, conclusion));
                }
                return Err(SpecError::IllTyped(i));
            }
            i = i + 1;
        }
        let mut h: usize = 0;
        while h < hypotheses.len()
            invariant
                n == es.len(),
                es == exprs_of(all),
                all == nodes@,
                types@ == types_of(es),
                h <= hypotheses@.len(),
                forall|j: int|
                    0 <= j < h ==> #[trigger] hypotheses@[j] < es.len() && types_of(es)[hypotheses@[j] as int]
                        == Type::TruthValue,
            decreases hypotheses@.len() - h,
        {
            let ix = hypotheses[h];
            if ix >= n {
                proof {
                    assert(!(hypotheses@[h as int] < es.len()));
                }
                proof {
                    assert(!valid_statement(es, hypotheses@, conclusion));
                }
                return Err(SpecError::HypothesisOutOfRange(ix));
            }
            if types[ix] != Type::TruthValue {
                proof {
                    assert(types_of(es)[hypotheses@[h as int] as int] != Type::TruthValue);
                }
                proof {
                    assert(!valid_statement(es, hypotheses@, conclusion));
                }
                return Err(SpecError::HypothesisNotTruthValue(ix));
            }
            h = h + 1;
        }
        if conclusion >= n {
            proof {
                assert(!valid_statement(es, hypotheses@, conclusion));
            }
            return Err(SpecError::ConclusionOutOfRange(conclusion));
        }
        if types[conclusion] != Type::TruthValue {
            proof {
                assert(!valid_statement(es, hypotheses@, conclusion));
            }
            return Err(SpecError::ConclusionNotTruthValue);
        }
        let r = LevelSpec { expressions, positions, hypotheses, conclusion };
        proof {
            assert(r.exprs() =~= es);
            assert(r.places() =~= places_of(all));
        }
        Ok(r)
    }
}

/// What a list of variables names.
pub open spec fn var_views(vs: Seq<Var>) -> Seq<(Seq<char>, Type)> {
    vs.map_values(|v: Var| (v.0@, v.1))
}

impl LevelSpec {
    /// The first case of a proof of this statement: one node per statement
    /// node, the hypotheses proven by assumption, the conclusion the goal.
    #[verifier::spinoff_prover]
    pub fn to_case(&self) -> (r: Case)
        requires
            self.wf(),
            self.exprs().len() < MAX_NODES,
        ensures
            r.wf(),
            r.len() == self.exprs().len(),
            r.goal_wire() == Some(Wire(Node(self.concl()))),
            forall|i: usize|
                #![trigger r.expr(i)]
                #![trigger r.is_proven(i)]
                i < r.len() ==> {
                    &&& r.expr(i) == self.exprs()[i as int]
                    &&& r.position_of(i) == self.places()[i as int]
                    &&& !r.is_deleted(i)
                    &&& r.is_proven(i) == self.hyps().contains(i)
                },
            forall|a: usize, b: usize| #[trigger] r.same(a, b) == (a == b),
    {
        let mut case = Case::new();
        let n = self.expressions.len();
        let mut i: usize = 0;
        while i < n
            invariant
                self.wf(),
                n == self.exprs().len(),
                n < MAX_NODES,
                i <= n,
                case.wf(),
                case.len() == i,
                case.goal_wire() == Option::<Wire>::None,
                forall|j: usize|
                    #![trigger case.expr(j)]
                    j < i ==> {
                        &&& case.expr(j) == self.exprs()[j as int]
                        &&& case.position_of(j) == self.places()[j as int]
                        &&& !case.is_deleted(j)
                        &&& !case.is_proven(j)
                    },
                forall|a: usize, b: usize| #[trigger] case.same(a, b) == (a == b),
            decreases n - i,
        {
            let e = self.expressions[i].clone();
            proof {
                assert(self.exprs()[i as int] == self.expressions@[i as int]@);
                assert(refers_back(self.exprs(), i as int));
            }
            case.make_node(e, self.positions[i]);
            i = i + 1;
        }
        let mut h: usize = 0;
        while h < self.hypotheses.len()
            invariant
                self.wf(),
                n == self.exprs().len(),
                h <= self.hyps().len(),
                case.wf(),
                case.len() == n,
                case.goal_wire() == Option::<Wire>::None,
                forall|j: usize|
                    #![trigger case.expr(j)]
                    #![trigger case.is_proven(j)]
                    j < n ==> {
                        &&& case.expr(j) == self.exprs()[j as int]
                        &&& case.position_of(j) == self.places()[j as int]
                        &&& !case.is_deleted(j)
                        &&& case.is_proven(j) == self.hyps().take(h as int).contains(j)
                    },
                forall|a: usize, b: usize| #[trigger] case.same(a, b) == (a == b),
            decreases self.hyps().len() - h,
        {
            let ix = self.hypotheses[h];
            let ghost before = case;
            case.set_proven(Wire(Node(ix)), ValidityReason::new("by assumption"));
            h = h + 1;
            proof {
                assert(self.hyps().take(h as int) == self.hyps().take(h - 1).push(ix));
                assert forall|j: usize| j < n implies #[trigger] case.is_proven(j) == self.hyps().take(
                    h as int,
                ).contains(j) by {
                    assert(case.is_proven(j) == (before.is_proven(j) || before.same(j, ix)));
                    if j == ix {
                        assert(self.hyps().take(h as int)[h - 1] == ix);
                    } else if self.hyps().take(h as int).contains(j) {
                        let a = choose|a: int| 0 <= a < h && self.hyps().take(h as int)[a] == j;
                        assert(self.hyps().take(h - 1)[a] == j);
                    }
                }
            }
        }
        proof {
            assert(self.hyps().take(h as int) =~= self.hyps());
        }
        case.set_goal(Wire(Node(self.conclusion)));
        case
    }

    /// The variables of the statement, in node order.
    pub fn vars(&self) -> (r: Vec<Var>)
        requires
            self.wf(),
        ensures
            var_views(r@) == vars_of(self.exprs()),
    {
        let mut out: Vec<Var> = Vec::new();
        let n = self.expressions.len();
        let mut i: usize = 0;
        while i < n
            invariant
                n == self.exprs().len(),
                i <= n,
                var_views(out@) == vars_of(self.exprs().take(i as int)),
            decreases n - i,
        {
            proof {
                assert(self.exprs().take(i + 1).drop_last() =~= self.exprs().take(i as int));
                assert(self.exprs().take(i + 1).last() == self.expressions@[i as int]@);
            }
            match &self.expressions[i] {
                Expression::Variable(x) => {
                    out.push(x.clone());
                    proof {
                        assert(var_views(out@) =~= vars_of(self.exprs().take(i as int)).push((x.0@, x.1)));
                    }
                },
                _ => {},
            }
            i = i + 1;
        }
        proof {
            assert(self.exprs().take(i as int) =~= self.exprs());
        }
        out
    }
}

/// Where statement node `i` went when the statement was applied: a variable
/// to the chosen node, in order of the variables; any other node to a new
/// node, numbered from `base_len` on.
pub open spec fn placed_at(es: Seq<ExprView>, chosen: Seq<Node>, base_len: nat, table: Seq<usize>, i: int) -> bool {
    match es[i] {
        ExprView::Variable(_, _) => table[i] == chosen[vars_of(es.take(i)).len() as int].0,
        _ => base_len <= table[i],
    }
}

impl LevelSpec {
    /// Applies this statement, as a proven theorem, to the current case of
    /// `tree`: its variables stand for the `chosen` nodes, in order; its
    /// other nodes are added; then the case splits into one branch per
    /// hypothesis, with that hypothesis as goal, and a last branch that
    /// keeps the goal and has the conclusion proven.
    #[verifier::spinoff_prover]
    pub fn add_to_case_tree(&self, tree: &mut CaseTree, chosen: &Vec<Node>)
        requires
            self.wf(),
            old(tree).wf(),
            chosen@.len() == vars_of(self.exprs()).len(),
            forall|k: int|
                0 <= k < chosen@.len() ==> (#[trigger] chosen@[k]).0 < old(tree).case_at(
                    old(tree).current_index(),
                ).len(),
            old(tree).case_at(old(tree).current_index()).len() + self.exprs().len() < MAX_NODES,
        ensures
            final(tree).wf(),
            exists|table: Seq<usize>, subs: Seq<Case>|
                {
                    &&& table.len() == self.exprs().len()
                    &&& forall|i: int|
                        0 <= i < table.len() ==> #[trigger] placed_at(
                            self.exprs(),
                            chosen@,
                            old(tree).case_at(old(tree).current_index()).len(),
                            table,
                            i,
                        )
                    &&& final(tree).split_into(old(tree), subs)
                    &&& subs.len() == self.hyps().len() + 1
                    &&& forall|k: int|
                        0 <= k < self.hyps().len() ==> (#[trigger] subs[k]).goal_wire() == Some(
                            Wire(Node(table[self.hyps()[k] as int])),
                        )
                    &&& subs.last().is_proven(table[self.concl() as int])
                    &&& subs.last().goal_wire() == old(tree).case_at(
                        old(tree).current_index(),
                    ).goal_wire()
                },
    {
        let ghost base = tree.case_at(tree.current_index());
        let mut case = tree.current_case().0.clone();
        let n = self.expressions.len();
        let mut table: Vec<usize> = Vec::new();
        let mut vi: usize = 0;
        let count = chosen.len();
        let mut i: usize = 0;
        while i < n
            invariant
                self.wf(),
                count == chosen@.len(),
                n == self.exprs().len(),
                i <= n,
                case.wf(),
                case.goal_wire() == base.goal_wire(),
                base.goal_wire() is Some,
                base.len() <= case.len() <= base.len() + i,
                base.len() + n < MAX_NODES,
                chosen@.len() == vars_of(self.exprs()).len(),
                forall|k: int| 0 <= k < chosen@.len() ==> (#[trigger] chosen@[k]).0 < base.len(),
                vi == vars_of(self.exprs().take(i as int)).len(),
                table@.len() == i,
                forall|j: int| 0 <= j < i ==> #[trigger] table@[j] < case.len(),
                forall|j: int|
                    0 <= j < i ==> #[trigger] placed_at(self.exprs(), chosen@, base.len(), table@, j),
            decreases n - i,
        {
            proof {
                assert(self.exprs().take(i + 1).drop_last() =~= self.exprs().take(i as int));
                assert(self.exprs().take(i + 1).last() == self.exprs()[i as int]);
                assert(self.exprs()[i as int] == self.expressions@[i as int]@);
                lemma_vars_prefix_bounded(self.exprs(), (i + 1) as int);
            }
            let ghost prev = table@;
            let ghost before = case;
            match &self.expressions[i] {
                Expression::Variable(_) => {
                    proof {
                        assert(vars_of(self.exprs().take(i + 1)).len() == vi + 1);
                    }
                    table.push(chosen[vi].0);
                    vi = vi + 1;
                },
                e => {
                    proof {
                        assert(refers_back(self.exprs(), i as int));
                        assert(vars_of(self.exprs().take(i + 1)).len() == vi);
                        assert forall|k: int| 0 <= k < e@.inputs().len() implies #[trigger] e@.inputs()[k]
                            < table@.len() by {
                            assert(self.exprs()[i as int].inputs()[k] < i);
                        }
                    }
                    let mapped = e.map(&table);
                    proof {
                        assert forall|k: int| 0 <= k < mapped@.inputs().len() implies #[trigger] mapped@.inputs()[k]
                            < case.len() by {
                            lemma_map_inputs(e@, table@, k);
                            assert(e@.inputs()[k] < i);
                        }
                    }
                    let node = case.make_node(mapped, self.positions[i]);
                    table.push(node.0);
                },
            }
            proof {
                assert forall|j: int| 0 <= j < i + 1 implies #[trigger] table@[j] < case.len() by {
                    if j < i {
                        assert(table@[j] == prev[j]);
                    }
                }
                assert forall|j: int|
                    0 <= j < i + 1 implies #[trigger] placed_at(self.exprs(), chosen@, base.len(), table@, j) by {
                    if j < i {
                        assert(placed_at(self.exprs(), chosen@, base.len(), prev, j));
                        assert(table@[j] == prev[j]);
                    }
                }
            }
            i = i + 1;
        }
        let ghost c = case;
        let mut subcases: Vec<Case> = Vec::new();
        let mut h: usize = 0;
        while h < self.hypotheses.len()
            invariant
                self.wf(),
                case == c,
                c.wf(),
                c.goal_wire() is Some,
                table@.len() == self.exprs().len(),
                forall|j: int| 0 <= j < table@.len() ==> #[trigger] table@[j] < c.len(),
                h <= self.hyps().len(),
                subcases@.len() == h,
                forall|k: int|
                    0 <= k < h ==> {
                        &&& (#[trigger] subcases@[k]).wf()
                        &&& subcases@[k].goal_wire() == Some(Wire(Node(table@[self.hyps()[k] as int])))
                    },
            decreases self.hyps().len() - h,
        {
            let mut s = case.clone();
            s.set_goal(Wire(Node(table[self.hypotheses[h]])));
            subcases.push(s);
            h = h + 1;
        }
        proof {
            c.lemma_same_is_equivalence();
            assert(c.same(table@[self.concl() as int], table@[self.concl() as int]));
        }
        case.set_proven(Wire(Node(table[self.conclusion])), ValidityReason::new("a proven theorem"));
        let ghost last = case;
        subcases.push(case);
        let ghost subs = subcases@;
        proof {
            assert forall|k: int| 0 <= k < self.hyps().len() implies (#[trigger] subs[k]).goal_wire() == Some(
                Wire(Node(table@[self.hyps()[k] as int])),
            ) by {
                assert(subs[k] == subcases@[k]);
            }
        }
        tree.case_split(subcases);
        proof {
            assert(subs.last() == last);
            assert(last.is_proven(table@[self.concl() as int]));
            assert(last.goal_wire() == base.goal_wire());
            assert(tree.split_into(old(tree), subs));
            assert(subs.len() == self.hyps().len() + 1);
            assert(forall|i: int|
                0 <= i < table@.len() ==> #[trigger] placed_at(self.exprs(), chosen@, base.len(), table@, i));
        }
    }
}

/// The variables among a prefix are at most those of the whole.
proof fn lemma_vars_prefix_bounded(es: Seq<ExprView>, i: int)
    requires
        0 <= i <= es.len(),
    ensures
        vars_of(es.take(i)).len() <= vars_of(es).len(),
    decreases es.len() - i,
{
    if i < es.len() {
        lemma_vars_prefix_bounded(es, i + 1);
        assert(es.take(i + 1).drop_last() =~= es.take(i));
    } else {
        assert(es.take(i) =~= es);
    }
}

/// An input of a remapped expression is the table entry of an input.
proof fn lemma_map_inputs(e: ExprView, table: Seq<usize>, k: int)
    requires
        0 <= k < e.map_inputs(table).inputs().len(),
    ensures
        e.map_inputs(table).inputs().len() == e.inputs().len(),
        e.map_inputs(table).inputs()[k] == table[e.inputs()[k] as int],
{
}

} // verus!
