use proof_game::case::{Case, Edit, Node, Position, ValidityReason, Wire};
use proof_game::case_tree::CaseTree;
use proof_game::expression::{Expression, Type, Var};
use proof_game::game_data::{SaveData, UnlockState, Unlocks};
use proof_game::level_spec::{LevelSpec, SpecError};
use proof_game::union_find::UnionFind;

fn at(x: u64, y: u64) -> Position {
    Position { x, y }
}

fn var(case: &mut Case, name: &str) -> Node {
    case.make_node(Expression::Variable(Var(name.to_string(), Type::TruthValue)), at(0, 0))
}

fn why() -> ValidityReason {
    ValidityReason::new("test")
}

#[test]
fn union_find_starts_apart() {
    let uf = UnionFind::new();
    assert!(uf.eq(3, 3));
    assert!(!uf.eq(3, 4));
    assert_eq!(uf.canonical(7), 7);
    assert_eq!(uf.iter_class(5), vec![5]);
    assert_eq!(uf.smallest(5), 5);
}

#[test]
fn union_find_merges_chain() {
    let mut uf = UnionFind::new();
    uf.merge(1, 2);
    uf.merge(3, 4);
    assert!(uf.eq(1, 2));
    assert!(!uf.eq(2, 3));
    uf.merge(2, 4);
    assert!(uf.eq(1, 3));
    assert!(uf.eq(4, 1));
    assert!(!uf.eq(0, 1));
    assert!(!uf.eq(5, 1));
    let c = uf.canonical(3);
    assert_eq!(uf.canonical(c), c);
    assert_eq!(uf.canonical(1), c);
}

#[test]
fn union_find_iterates_each_member_once() {
    let mut uf = UnionFind::new();
    uf.merge(0, 1);
    uf.merge(2, 3);
    uf.merge(1, 3);
    uf.merge(5, 6);
    let class = uf.iter_class(2);
    assert_eq!(class[0], 2);
    let mut sorted = class.clone();
    sorted.sort();
    assert_eq!(sorted, vec![0, 1, 2, 3]);
    let other = uf.iter_class(6);
    assert_eq!(other[0], 6);
    assert_eq!(other.len(), 2);
    assert_eq!(uf.iter_class(4), vec![4]);
}

#[test]
fn union_find_merge_twice_is_idempotent() {
    let mut uf = UnionFind::new();
    uf.merge(1, 2);
    uf.merge(2, 1);
    uf.merge(1, 1);
    let mut class = uf.iter_class(1);
    class.sort();
    assert_eq!(class, vec![1, 2]);
}

#[test]
fn union_find_smallest_member() {
    let mut uf = UnionFind::new();
    uf.merge(9, 4);
    uf.merge(7, 9);
    assert_eq!(uf.smallest(7), 4);
    uf.merge(7, 2);
    assert_eq!(uf.smallest(9), 2);
    assert_eq!(uf.smallest(3), 3);
}

#[test]
fn and_goal_is_proved_from_its_inputs() {
    let mut case = Case::new();
    let a = var(&mut case, "a");
    let b = var(&mut case, "b");
    let c = case.make_node(Expression::and(vec![a.0, b.0]), at(1, 1));
    case.set_proven(case.node_output(a), ValidityReason::new("By assumption."));
    case.set_proven(case.node_output(b), ValidityReason::new("By assumption."));
    case.set_goal(case.node_output(c));
    assert!(case.node_has_interaction(c));
    let mut tree = CaseTree::new(case);
    assert!(!tree.all_complete());
    tree.interact_node(c);
    let (now, done) = tree.current_case();
    assert!(now.proven(now.node_output(c)));
    assert!(done);
    assert!(tree.all_complete());
}

#[test]
fn or_goal_waits_for_a_proven_input() {
    let mut case = Case::new();
    let a = var(&mut case, "a");
    let b = var(&mut case, "b");
    let o = case.make_node(Expression::or(vec![a.0, b.0]), at(0, 0));
    case.set_goal(case.node_output(o));
    assert!(!case.node_has_interaction(o));
    let mut tree = CaseTree::new(case);
    tree.edit_case(Edit::ProveWire(Wire(b)));
    assert!(tree.current_case().0.node_has_interaction(o));
    tree.interact_node(o);
    let (now, done) = tree.current_case();
    assert!(now.proven(Wire(o)));
    assert!(done);
}

#[test]
fn interact_wire_makes_two_branches() {
    let mut case = Case::new();
    let a = var(&mut case, "a");
    let g = var(&mut case, "g");
    case.set_goal(Wire(g));
    assert!(case.wire_has_interaction(Wire(a)));
    assert!(!case.wire_has_interaction(Wire(g)));
    let mut tree = CaseTree::new(case);
    let root = tree.current();
    tree.interact_wire(Wire(a));
    let first = tree.current();
    assert_ne!(first, root);
    let (branch, done) = tree.case(first);
    assert!(!done);
    assert!(branch.wire_eq(branch.goal(), Wire(a)));
    assert!(!branch.proven(Wire(a)));
    // The second branch assumes `a` and still has goal `g`.
    let (_, root_done) = tree.case(root);
    assert!(!root_done);
    let kids = tree.children(root).unwrap();
    assert_eq!(kids.len(), 2);
    assert_eq!(kids[0], first);
    let second = kids[1];
    let (other, second_done) = tree.case(second);
    assert!(!second_done);
    assert!(other.proven(Wire(a)));
    assert!(other.wire_eq(other.goal(), Wire(g)));
}

#[test]
fn split_into_solved_cases_completes_parent_and_root() {
    let mut case = Case::new();
    let a = var(&mut case, "a");
    case.set_goal(Wire(a));
    let mut tree = CaseTree::new(case.clone());
    let root = tree.current();
    let mut s1 = case.clone();
    s1.set_proven(Wire(a), why());
    let s2 = s1.clone();
    tree.case_split(vec![s1, s2]);
    assert!(tree.case(root).1);
    assert!(tree.all_complete());
    assert_eq!(tree.current(), root);
}

#[test]
fn split_into_nothing_completes_the_case() {
    let mut case = Case::new();
    let a = var(&mut case, "a");
    case.set_goal(Wire(a));
    let mut tree = CaseTree::new(case);
    tree.case_split(Vec::new());
    assert!(tree.all_complete());
}

#[test]
fn split_moves_to_first_open_child() {
    let mut case = Case::new();
    let a = var(&mut case, "a");
    let b = var(&mut case, "b");
    case.set_goal(Wire(a));
    let mut tree = CaseTree::new(case.clone());
    let root = tree.current();
    let mut solved = case.clone();
    solved.set_proven(Wire(a), why());
    let mut open = case.clone();
    open.set_proven(Wire(b), why());
    tree.case_split(vec![solved, open]);
    assert!(!tree.case(root).1);
    let now = tree.current();
    assert_ne!(now, root);
    assert!(tree.case(now).0.proven(Wire(b)));
    assert!(!tree.case(now).1);
}

#[test]
fn revert_restores_the_case() {
    let mut case = Case::new();
    let a = var(&mut case, "a");
    let b = var(&mut case, "b");
    case.set_goal(Wire(a));
    let mut tree = CaseTree::new(case.clone());
    let root = tree.current();
    tree.interact_wire(Wire(b));
    assert_ne!(tree.current(), root);
    tree.revert_to(root);
    assert_eq!(tree.current(), root);
    let (back, done) = tree.case(root);
    assert!(!done);
    assert!(!back.proven(Wire(b)));
    assert!(back.wire_eq(back.goal(), Wire(a)));
    assert_eq!(back.nodes(), vec![a, b]);
    // Splitting again after the undo works as the first time did.
    tree.interact_wire(Wire(b));
    let (branch, _) = tree.current_case();
    assert!(branch.wire_eq(branch.goal(), Wire(b)));
}

#[test]
fn connect_propagates_proven_both_ways() {
    let mut case = Case::new();
    let a = var(&mut case, "a");
    let b = var(&mut case, "b");
    let c = var(&mut case, "c");
    case.set_proven(Wire(b), why());
    case.connect(Wire(a), Wire(b), why());
    assert!(case.proven(Wire(a)));
    assert!(case.proven(Wire(b)));
    assert!(case.wire_eq(Wire(a), Wire(b)));
    assert!(!case.proven(Wire(c)));
    case.connect(Wire(c), Wire(c), why());
    assert!(!case.proven(Wire(c)));
}

#[test]
fn connect_two_unproven_stays_unproven() {
    let mut case = Case::new();
    let a = var(&mut case, "a");
    let b = var(&mut case, "b");
    case.connect(Wire(a), Wire(b), why());
    assert!(!case.proven(Wire(a)));
    case.set_proven(Wire(b), why());
    assert!(case.proven(Wire(a)));
}

#[test]
fn copies_of_an_expression_are_equivalent() {
    let mut case = Case::new();
    let a1 = var(&mut case, "a");
    let a2 = var(&mut case, "a");
    let b = var(&mut case, "b");
    let n1 = case.make_node(Expression::and(vec![a1.0, b.0]), at(0, 0));
    let n2 = case.make_node(Expression::and(vec![a2.0, b.0]), at(0, 0));
    assert!(case.wire_equiv(Wire(a1), Wire(a2)));
    assert!(!case.wire_eq(Wire(a1), Wire(a2)));
    assert!(!case.wire_equiv(Wire(a1), Wire(b)));
    assert!(case.wire_equiv(Wire(n1), Wire(n2)));
    let real = case.make_node(Expression::Variable(Var("a".to_string(), Type::RealNumber)), at(0, 0));
    assert!(!case.wire_equiv(Wire(a1), Wire(real)));
    let f = case.make_node(Expression::function("a".to_string(), Type::TruthValue, vec![]), at(0, 0));
    assert!(!case.wire_equiv(Wire(a1), Wire(f)));
}

#[test]
fn connecting_makes_congruent_nodes_equivalent() {
    let mut case = Case::new();
    let a = var(&mut case, "a");
    let b = var(&mut case, "b");
    let na = case.make_node(Expression::or(vec![a.0]), at(0, 0));
    let nb = case.make_node(Expression::or(vec![b.0]), at(0, 0));
    assert!(!case.wire_equiv(Wire(na), Wire(nb)));
    case.connect(Wire(a), Wire(b), why());
    assert!(case.wire_equiv(Wire(a), Wire(b)));
    assert!(case.wire_equiv(Wire(na), Wire(nb)));
    assert!(!case.wire_eq(Wire(na), Wire(nb)));
}

#[test]
fn deleted_nodes_are_not_listed() {
    let mut case = Case::new();
    let a = var(&mut case, "a");
    let b = var(&mut case, "b");
    case.connect(Wire(a), Wire(b), why());
    let mut inputs = case.wire_inputs(Wire(a));
    inputs.sort_by_key(|n| n.0);
    assert_eq!(inputs, vec![a, b]);
    case.set_deleted(b);
    assert_eq!(case.wire_inputs(Wire(a)), vec![a]);
    assert_eq!(case.nodes(), vec![a]);
    assert!(case.wire_eq(Wire(a), Wire(b)));
}

#[test]
fn positions_are_kept() {
    let mut case = Case::new();
    let a = case.make_node(Expression::Variable(Var("a".to_string(), Type::TruthValue)), at(3, 4));
    assert_eq!(case.position(a), at(3, 4));
    case.set_position(a, at(5, 6));
    assert_eq!(case.position(a), at(5, 6));
    case.set_goal(Wire(a));
    let mut tree = CaseTree::new(case);
    tree.set_node_position(a, at(7, 8));
    assert_eq!(tree.current_case().0.position(a), at(7, 8));
}

#[test]
fn and_fact_proves_every_input() {
    let mut case = Case::new();
    let a = var(&mut case, "a");
    let b = var(&mut case, "b");
    let c = case.make_node(Expression::and(vec![a.0, b.0]), at(0, 0));
    let g = var(&mut case, "g");
    case.set_proven(Wire(c), why());
    case.set_goal(Wire(g));
    assert!(case.node_has_interaction(c));
    let mut tree = CaseTree::new(case);
    tree.interact_node(c);
    let (now, _) = tree.current_case();
    assert!(now.proven(Wire(a)));
    assert!(now.proven(Wire(b)));
    assert!(!now.node_has_interaction(c));
}

#[test]
fn or_fact_splits_into_cases() {
    let mut case = Case::new();
    let a = var(&mut case, "a");
    let b = var(&mut case, "b");
    let o = case.make_node(Expression::or(vec![a.0, b.0]), at(0, 0));
    let g = var(&mut case, "g");
    case.set_proven(Wire(o), why());
    case.set_goal(Wire(g));
    assert!(case.node_has_interaction(o));
    let mut tree = CaseTree::new(case);
    let root = tree.current();
    tree.interact_node(o);
    let first = tree.current();
    assert_ne!(first, root);
    let (c1, _) = tree.case(first);
    assert!(c1.proven(Wire(a)));
    assert!(!c1.proven(Wire(b)));
    // Proving the goal in the first branch moves nowhere by itself, but the
    // branch is complete.
    tree.edit_case(Edit::ProveWire(Wire(g)));
    assert!(tree.case(first).1);
    assert!(!tree.all_complete());
}

#[test]
fn implication_goal_assumes_its_hypothesis() {
    let mut case = Case::new();
    let h = var(&mut case, "h");
    let c = var(&mut case, "c");
    let imp = case.make_node(Expression::Implies([h.0, c.0]), at(0, 0));
    case.set_goal(Wire(imp));
    assert!(case.node_has_interaction(imp));
    let mut tree = CaseTree::new(case);
    let root = tree.current();
    tree.interact_node(imp);
    let now = tree.current();
    assert_ne!(now, root);
    let (inner, _) = tree.case(now);
    assert!(inner.proven(Wire(h)));
    assert!(inner.wire_eq(inner.goal(), Wire(c)));
    // Proving the conclusion completes the branch and its parent.
    tree.edit_case(Edit::ProveWire(Wire(c)));
    assert!(tree.all_complete());
}

#[test]
fn implication_fact_gives_conclusion() {
    let mut case = Case::new();
    let h = var(&mut case, "h");
    let c = var(&mut case, "c");
    let imp = case.make_node(Expression::Implies([h.0, c.0]), at(0, 0));
    case.set_proven(Wire(imp), why());
    case.set_goal(Wire(c));
    assert!(!case.node_has_interaction(imp));
    case.set_proven(Wire(h), why());
    assert!(case.node_has_interaction(imp));
    let mut tree = CaseTree::new(case);
    tree.interact_node(imp);
    assert!(tree.current_case().0.proven(Wire(c)));
    assert!(tree.all_complete());
}

#[test]
fn equality_rules() {
    let mut case = Case::new();
    let a = var(&mut case, "a");
    let b = var(&mut case, "b");
    let eq = case.make_node(Expression::Equal([a.0, b.0]), at(0, 0));
    let g = var(&mut case, "g");
    case.set_goal(Wire(g));
    // Not proven, inputs not connected: the rule proves the equation.
    assert!(case.node_has_interaction(eq));
    let mut tree = CaseTree::new(case);
    tree.interact_node(eq);
    let (now, _) = tree.current_case();
    assert!(now.proven(Wire(eq)));
    // Proven, inputs not connected: no rule applies.
    assert!(!now.node_has_interaction(eq));
}

#[test]
fn proven_equation_of_connected_wires_connects() {
    let mut case = Case::new();
    let a = var(&mut case, "a");
    let b = var(&mut case, "b");
    let eq = case.make_node(Expression::Equal([a.0, b.0]), at(0, 0));
    let g = var(&mut case, "g");
    case.set_goal(Wire(g));
    case.set_proven(Wire(eq), why());
    case.connect(Wire(a), Wire(b), why());
    assert!(case.node_has_interaction(eq));
    let mut tree = CaseTree::new(case);
    tree.interact_node(eq);
    assert!(tree.current_case().0.wire_eq(Wire(a), Wire(b)));
}

#[test]
fn variables_never_interact() {
    let mut case = Case::new();
    let a = var(&mut case, "a");
    let f = case.make_node(Expression::function("f".to_string(), Type::RealNumber, vec![a.0]), at(0, 0));
    case.set_goal(Wire(a));
    assert!(!case.node_has_interaction(a));
    assert!(!case.node_has_interaction(f));
}

#[test]
fn expression_accessors() {
    let e = Expression::and(vec![0, 1]);
    assert_eq!(e.text(), "∧");
    assert_eq!(e.ty(), Type::TruthValue);
    assert_eq!(e.inputs(), vec![0, 1]);
    assert_eq!(Expression::or(vec![2]).text(), "∨");
    assert_eq!(Expression::Implies([0, 1]).text(), "⇒");
    assert_eq!(Expression::Equal([0, 1]).text(), "=");
    let v = Expression::Variable(Var("x".to_string(), Type::RealNumber));
    assert_eq!(v.text(), "x");
    assert_eq!(v.ty(), Type::RealNumber);
    assert!(v.inputs().is_empty());
    let f = Expression::function("f".to_string(), Type::RealNumber, vec![3]);
    assert_eq!(f.text(), "f");
    assert_eq!(f.ty(), Type::RealNumber);
    assert_eq!(f.inputs(), vec![3]);
    let mapped = Expression::Implies([0, 1]).map(&vec![5, 6]);
    assert_eq!(mapped.inputs(), vec![5, 6]);
    assert_eq!(Expression::and(vec![1, 0]).map(&vec![7, 8]).inputs(), vec![8, 7]);
}

#[test]
fn expression_typecheck() {
    let types = vec![Type::TruthValue, Type::RealNumber, Type::RealNumber];
    assert!(Expression::and(vec![0]).tycheck(&types));
    assert!(!Expression::and(vec![0, 1]).tycheck(&types));
    assert!(!Expression::or(vec![1]).tycheck(&types));
    assert!(!Expression::Implies([0, 1]).tycheck(&types));
    assert!(Expression::Implies([0, 0]).tycheck(&types));
    assert!(Expression::Equal([1, 2]).tycheck(&types));
    assert!(!Expression::Equal([0, 1]).tycheck(&types));
    assert!(Expression::function("f".to_string(), Type::TruthValue, vec![1]).tycheck(&types));
}

fn tv(name: &str) -> (Expression, Position) {
    (Expression::Variable(Var(name.to_string(), Type::TruthValue)), at(0, 0))
}

#[test]
fn level_spec_builds_first_case() {
    let nodes = vec![tv("a"), tv("b"), (Expression::and(vec![0, 1]), at(2, 2))];
    let spec = LevelSpec::new(nodes, vec![0, 1], 2).unwrap();
    let vars = spec.vars();
    assert_eq!(vars.len(), 2);
    assert!(vars[0] == Var("a".to_string(), Type::TruthValue));
    assert!(vars[1] == Var("b".to_string(), Type::TruthValue));
    let case = spec.to_case();
    assert!(case.proven(Wire(Node(0))));
    assert!(case.proven(Wire(Node(1))));
    assert!(!case.proven(Wire(Node(2))));
    assert_eq!(case.goal(), Wire(Node(2)));
    assert_eq!(case.position(Node(2)), at(2, 2));
    assert!(case.node_has_interaction(Node(2)));
}

#[test]
fn level_spec_rejects_bad_statements() {
    let self_ref = LevelSpec::new(vec![(Expression::and(vec![0]), at(0, 0))], vec![], 0);
    assert!(matches!(self_ref, Err(SpecError::SelfReference(0))));
    let later = LevelSpec::new(vec![(Expression::and(vec![1]), at(0, 0)), tv("a")], vec![], 0);
    assert!(matches!(later, Err(SpecError::LaterReference(0, 1))));
    let real = (Expression::Variable(Var("x".to_string(), Type::RealNumber)), at(0, 0));
    let ill = LevelSpec::new(vec![real.clone(), (Expression::and(vec![0]), at(0, 0))], vec![], 1);
    assert!(matches!(ill, Err(SpecError::IllTyped(1))));
    let hyp_range = LevelSpec::new(vec![tv("a")], vec![3], 0);
    assert!(matches!(hyp_range, Err(SpecError::HypothesisOutOfRange(3))));
    let hyp_real = LevelSpec::new(vec![tv("a"), real.clone()], vec![1], 0);
    assert!(matches!(hyp_real, Err(SpecError::HypothesisNotTruthValue(1))));
    let concl_range = LevelSpec::new(vec![tv("a")], vec![], 1);
    assert!(matches!(concl_range, Err(SpecError::ConclusionOutOfRange(1))));
    let concl_real = LevelSpec::new(vec![real], vec![], 0);
    assert!(matches!(concl_real, Err(SpecError::ConclusionNotTruthValue)));
}

#[test]
fn unlocks_order_and_union() {
    let none = Unlocks::none();
    let both = Unlocks::cases() | Unlocks::lemmas();
    assert_eq!(both, Unlocks(3));
    assert!(both >= Unlocks::lemmas());
    assert!(both > Unlocks::cases());
    assert!(!(Unlocks::cases() >= Unlocks::lemmas()));
    assert!(Unlocks::cases().partial_cmp(&Unlocks::lemmas()).is_none());
    assert!(Unlocks::all() >= both);
    assert!(none <= Unlocks::theorem_application());
    let mut u = Unlocks::default();
    u |= Unlocks::theorem_application();
    assert_eq!(u, Unlocks(4));
    assert!(UnlockState::Nothing < UnlockState::CaseTree);
    assert!(UnlockState::CaseTree < UnlockState::Lemmas);
}

#[test]
fn save_data_tracks_levels() {
    let mut save = SaveData::new(3);
    assert!(!save.completed(1));
    assert!(save.mark_completed(1));
    assert!(!save.mark_completed(1));
    assert!(save.completed(1));
    assert!(!save.completed(2));
    assert_eq!(save.unlocks(), Unlocks::none());
    save.set_unlocked(Unlocks::cases());
    save.set_unlocked(Unlocks::lemmas());
    assert_eq!(save.unlocks(), Unlocks(3));
}

#[test]
fn wires_group_inbound_connections() {
    let mut case = Case::new();
    let a = var(&mut case, "a");
    let b = var(&mut case, "b");
    let c = case.make_node(Expression::and(vec![a.0, b.0]), at(0, 0));
    let d = case.make_node(Expression::or(vec![a.0]), at(0, 0));
    case.connect(Wire(a), Wire(b), why());
    let wires = case.wires();
    // One wire for a and b together, one each for c and d.
    assert_eq!(wires.len(), 3);
    let ab = case.wire_inputs(Wire(a));
    assert_eq!(ab.len(), 2);
    let (w0, mut inbound) = wires[0].clone();
    assert!(case.wire_eq(w0, Wire(a)));
    inbound.sort_by_key(|(n, ix)| (n.0, *ix));
    assert_eq!(inbound, vec![(c, 0), (c, 1), (d, 0)]);
    assert!(case.wire_eq(wires[1].0, Wire(c)));
    assert!(wires[1].1.is_empty());
    assert!(case.wire_eq(wires[2].0, Wire(d)));
    case.set_deleted(d);
    let after = case.wires();
    assert_eq!(after.len(), 2);
    let mut inbound = after[0].1.clone();
    inbound.sort_by_key(|(n, ix)| (n.0, *ix));
    assert_eq!(inbound, vec![(c, 0), (c, 1)]);
}

#[test]
fn case_tree_children_list() {
    let mut case = Case::new();
    let a = var(&mut case, "a");
    case.set_goal(Wire(a));
    let mut tree = CaseTree::new(case.clone());
    let root = tree.current();
    assert!(tree.children(root).is_none());
    tree.case_split(vec![case.clone(), case.clone(), case]);
    assert_eq!(tree.children(root).unwrap().len(), 3);
    tree.goto_case(root);
    assert_eq!(tree.current(), root);
}

#[test]
fn theorem_application_splits_into_hypotheses_and_conclusion() {
    let nodes = vec![tv("p"), tv("q"), (Expression::and(vec![0, 1]), at(1, 1))];
    let theorem = LevelSpec::new(nodes, vec![0, 1], 2).unwrap();
    let mut case = Case::new();
    let x = var(&mut case, "x");
    let y = var(&mut case, "y");
    let g = var(&mut case, "g");
    case.set_goal(Wire(g));
    let mut tree = CaseTree::new(case);
    let root = tree.current();
    theorem.add_to_case_tree(&mut tree, &vec![x, y]);
    let kids = tree.children(root).unwrap();
    assert_eq!(kids.len(), 3);
    assert_eq!(tree.current(), kids[0]);
    let (first, _) = tree.case(kids[0]);
    assert!(first.wire_eq(first.goal(), Wire(x)));
    let (second, _) = tree.case(kids[1]);
    assert!(second.wire_eq(second.goal(), Wire(y)));
    let (last, _) = tree.case(kids[2]);
    assert!(last.wire_eq(last.goal(), Wire(g)));
    let conj = Node(3);
    assert_eq!(last.node_expression(conj).inputs(), vec![x.0, y.0]);
    assert!(last.proven(Wire(conj)));
    assert!(!last.proven(Wire(x)));
}

#[test]
fn redo_after_revert_reuses_slots() {
    let mut case = Case::new();
    let a = var(&mut case, "a");
    let b = var(&mut case, "b");
    case.set_goal(Wire(a));
    let mut tree = CaseTree::new(case);
    let root = tree.current();
    tree.interact_wire(Wire(b));
    let mut first = tree.children(root).unwrap();
    tree.revert_to(root);
    assert!(tree.children(root).is_none());
    tree.interact_wire(Wire(b));
    let mut second = tree.children(root).unwrap();
    first.sort_by_key(|id| format!("{:?}", id));
    second.sort_by_key(|id| format!("{:?}", id));
    assert_eq!(first, second);
}

#[test]
fn revert_clears_completion_of_an_unsolved_case() {
    let mut case = Case::new();
    let a = var(&mut case, "a");
    case.set_goal(Wire(a));
    let mut tree = CaseTree::new(case.clone());
    let root = tree.current();
    let mut solved = case.clone();
    solved.set_proven(Wire(a), why());
    tree.case_split(vec![solved]);
    assert!(tree.all_complete());
    tree.revert_to(root);
    assert!(!tree.case(root).1);
    assert!(!tree.all_complete());
}

#[test]
fn revert_rederives_ancestors() {
    let mut case = Case::new();
    let a = var(&mut case, "a");
    let b = var(&mut case, "b");
    case.set_goal(Wire(a));
    let mut tree = CaseTree::new(case.clone());
    let root = tree.current();
    // Two branches; the second is still open.
    let mut s1 = case.clone();
    s1.set_proven(Wire(a), why());
    let s2 = case.clone();
    tree.case_split(vec![s1, s2]);
    let second = tree.current();
    // Inside the second branch, split into a solved case.
    let mut inner = case.clone();
    inner.set_proven(Wire(a), why());
    inner.set_proven(Wire(b), why());
    tree.case_split(vec![inner]);
    assert!(tree.all_complete());
    tree.revert_to(second);
    assert!(!tree.case(second).1);
    assert!(!tree.case(root).1);
    assert!(!tree.all_complete());
}

#[test]
fn unlock_names_round_trip() {
    let names = vec!["lemmas".to_string(), "cases".to_string(), "bogus".to_string()];
    let u = Unlocks::from_names(&names);
    assert_eq!(u, Unlocks(3));
    assert_eq!(u.names(), vec!["cases".to_string(), "lemmas".to_string()]);
    assert_eq!(Unlocks::from_names(&vec!["everything".to_string()]), Unlocks::all());
    assert_eq!(Unlocks::all().names().len(), 4);
    assert!(Unlocks::none().names().is_empty());
}
