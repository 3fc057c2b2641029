//! The tree of cases a proof branches into, with undo.
use vstd::prelude::*;
use crate::case::{Case, Edit, Node, Position};
use crate::small::{small_from_vec, small_items, small_new, small_pop, small_push, small_to_vec, Inline};

verus! {

/// Names one case of a tree.
#[derive(Debug, Clone, Copy, PartialEq, Eq, Structural)]
pub struct CaseId(usize);

impl CaseId {
    pub closed spec fn index(&self) -> usize {
        self.0
    }
}

pub struct CaseTree {
    cases: Vec<Case>,
    complete: Vec<bool>,
    parent: Vec<usize>,
    /// `None` for a leaf; the children of a branch.
    children: Vec<Option<Inline>>,
    /// Which slots hold a case of the tree; the others are free.
    in_use: Vec<bool>,
    current: CaseId,
    free_list: Inline,
    /// Distance of each slot in use from the root.
    depth: Ghost<Seq<nat>>,
}

/// Whether `x` is reached from `i` in one to `fuel` steps up.
pub open spec fn below_within(parent: Seq<usize>, i: usize, x: usize, fuel: nat) -> bool
    decreases fuel,
{
    if fuel == 0 {
        false
    } else {
        i != 0 && (parent[i as int] == x || below_within(parent, parent[i as int], x, (fuel - 1) as nat))
    }
}

impl CaseTree {
    pub closed spec fn slots(&self) -> nat {
        self.cases@.len()
    }

    pub closed spec fn live(&self, i: usize) -> bool {
        i < self.in_use@.len() && self.in_use@[i as int]
    }

    pub closed spec fn case_at(&self, i: usize) -> Case {
        self.cases@[i as int]
    }

    pub closed spec fn complete_at(&self, i: usize) -> bool {
        self.complete@[i as int]
    }

    pub closed spec fn parent_of(&self, i: usize) -> usize {
        self.parent@[i as int]
    }

    pub closed spec fn kids(&self, i: usize) -> Option<Seq<usize>> {
        match self.children@[i as int] {
            Some(v) => Some(small_items(v)),
            None => None,
        }
    }

    pub closed spec fn free(&self) -> Seq<usize> {
        small_items(self.free_list)
    }

    pub closed spec fn current_index(&self) -> usize {
        self.current.0
    }

    pub closed spec fn depth_of(&self, i: usize) -> nat {
        self.depth@[i as int]
    }

    /// Slot `i` lies strictly below slot `x`.
    pub closed spec fn below(&self, i: usize, x: usize) -> bool {
        below_within(self.parent@, i, x, self.depth_of(i))
    }

    /// `self` and `o` hold the same slots; only the current case may differ.
    pub closed spec fn same_slots(&self, o: &CaseTree) -> bool {
        &&& self.cases == o.cases
        &&& self.complete == o.complete
        &&& self.parent == o.parent
        &&& self.children == o.children
        &&& self.in_use == o.in_use
        &&& self.free_list == o.free_list
        &&& self.depth == o.depth
    }

    spec fn shape_ok(&self) -> bool {
        let n = self.cases@.len();
        &&& n >= 1
        &&& self.complete@.len() == n
        &&& self.parent@.len() == n
        &&& self.children@.len() == n
        &&& self.in_use@.len() == n
        &&& self.depth@.len() == n
        &&& self.live(0)
        &&& self.live(self.current.0)
        &&& self.parent@[0] == 0
        &&& self.depth@[0] == 0
        &&& self.free().no_duplicates()
        &&& forall|k: int|
            0 <= k < self.free().len() ==> #[trigger] self.free()[k] < n && !self.live(self.free()[k])
    }

    /// Links of live slot `i` to its parent and children.
    spec fn links_ok(&self, i: usize) -> bool {
        &&& i != 0 ==> {
            let p = self.parent@[i as int];
            &&& self.live(p)
            &&& self.depth@[i as int] == self.depth@[p as int] + 1
            &&& self.kids(p) is Some
            &&& self.kids(p).unwrap().contains(i)
        }
        &&& match self.kids(i) {
            Some(cs) => {
                &&& cs.no_duplicates()
                &&& forall|k: int|
                    0 <= k < cs.len() ==> {
                        &&& #[trigger] cs[k] < self.cases@.len()
                        &&& self.live(cs[k])
                        &&& cs[k] != 0
                        &&& self.parent@[cs[k] as int] == i
                    }
            },
            None => true,
        }
    }

    /// A live slot holds a well-formed case with a goal.
    spec fn case_ok(&self, i: usize) -> bool {
        &&& self.cases@[i as int].wf()
        &&& self.cases@[i as int].goal_wire() is Some
    }

    /// A slot whose goal is proven is complete.
    pub open spec fn solved_ok(&self, i: usize) -> bool {
        self.case_at(i).solved() ==> self.complete_at(i)
    }

    /// A branch whose children are all complete is complete.
    pub open spec fn branch_ok(&self, i: usize) -> bool {
        match self.kids(i) {
            Some(cs) => (forall|k: int| 0 <= k < cs.len() ==> self.complete_at(#[trigger] cs[k]))
                ==> self.complete_at(i),
            None => true,
        }
    }

    #[verifier::opaque]
    spec fn nodes_ok(&self) -> bool {
        forall|i: usize|
            #![trigger self.in_use@[i as int]]
            i < self.cases@.len() && self.in_use@[i as int] ==> self.links_ok(i) && self.case_ok(i)
    }

    #[verifier::opaque]
    spec fn solved_ok_but(&self, p: Option<usize>) -> bool {
        forall|i: usize|
            #![trigger self.in_use@[i as int]]
            i < self.cases@.len() && self.in_use@[i as int] && p != Some(i) ==> self.solved_ok(i)
    }

    #[verifier::opaque]
    spec fn branches_ok_but(&self, p: Option<usize>) -> bool {
        forall|i: usize|
            #![trigger self.in_use@[i as int]]
            i < self.cases@.len() && self.in_use@[i as int] && p != Some(i) ==> self.branch_ok(i)
    }

    pub closed spec fn wf(&self) -> bool {
        &&& self.shape_ok()
        &&& self.nodes_ok()
        &&& self.solved_ok_but(None)
        &&& self.branches_ok_but(None)
    }

    proof fn lemma_nodes_at(&self, i: usize)
        requires
            self.nodes_ok(),
            self.live(i),
            self.in_use@.len() == self.cases@.len(),
        ensures
            self.links_ok(i),
            self.case_ok(i),
    {
        reveal(CaseTree::nodes_ok);
        assert(self.in_use@[i as int]);
    }

    proof fn lemma_solved_at(&self, i: usize, p: Option<usize>)
        requires
            self.solved_ok_but(p),
            self.live(i),
            self.in_use@.len() == self.cases@.len(),
            p != Some(i),
        ensures
            self.solved_ok(i),
    {
        reveal(CaseTree::solved_ok_but);
        assert(self.in_use@[i as int]);
    }

    proof fn lemma_branch_at(&self, i: usize, p: Option<usize>)
        requires
            self.branches_ok_but(p),
            self.live(i),
            self.in_use@.len() == self.cases@.len(),
            p != Some(i),
        ensures
            self.branch_ok(i),
    {
        reveal(CaseTree::branches_ok_but);
        assert(self.in_use@[i as int]);
    }

    /// Nodes stay well linked when only cases other than `x` are kept,
    /// and the case at `x`, if any, is well formed.
    proof fn lemma_keep_nodes(a: CaseTree, b: CaseTree, x: Option<usize>)
        requires
            a.nodes_ok(),
            a.shape_ok(),
            b.cases@.len() == a.cases@.len(),
            b.parent == a.parent,
            b.children == a.children,
            b.in_use == a.in_use,
            b.depth == a.depth,
            forall|i: int| 0 <= i < a.cases@.len() && x != Some(i as usize) ==> #[trigger] b.cases@[i] == a.cases@[i],
            x is Some ==> b.case_ok(x.unwrap()),
        ensures
            b.nodes_ok(),
    {
        reveal(CaseTree::nodes_ok);
        assert forall|i: usize|
            #![trigger b.in_use@[i as int]]
            i < b.cases@.len() && b.in_use@[i as int] implies b.links_ok(i) && b.case_ok(i) by {
            assert(a.in_use@[i as int]);
            assert(a.links_ok(i));
            assert(a.case_ok(i));
            if x != Some(i) {
                assert(b.cases@[i as int] == a.cases@[i as int]);
            }
        }
    }

    proof fn lemma_keep_solved(a: CaseTree, b: CaseTree, x: Option<usize>)
        requires
            a.solved_ok_but(x),
            a.in_use@.len() == a.cases@.len(),
            b.cases@.len() == a.cases@.len(),
            b.in_use == a.in_use,
            forall|i: int|
                0 <= i < a.cases@.len() && x != Some(i as usize) ==> #[trigger] b.cases@[i] == a.cases@[i]
                    && (a.complete@[i] ==> b.complete@[i]),
        ensures
            b.solved_ok_but(x),
    {
        reveal(CaseTree::solved_ok_but);
        assert forall|i: usize|
            #![trigger b.in_use@[i as int]]
            i < b.cases@.len() && b.in_use@[i as int] && x != Some(i) implies b.solved_ok(i) by {
            assert(a.in_use@[i as int]);
            assert(a.solved_ok(i));
            assert(b.cases@[i as int] == a.cases@[i as int]);
        }
    }

    proof fn lemma_keep_branches(a: CaseTree, b: CaseTree, p: Option<usize>)
        requires
            a.branches_ok_but(p),
            a.in_use@.len() == a.cases@.len(),
            b.cases@.len() == a.cases@.len(),
            b.in_use == a.in_use,
            b.children == a.children,
            b.complete == a.complete,
        ensures
            b.branches_ok_but(p),
    {
        reveal(CaseTree::branches_ok_but);
        assert forall|i: usize|
            #![trigger b.in_use@[i as int]]
            i < b.cases@.len() && b.in_use@[i as int] && p != Some(i) implies b.branch_ok(i) by {
            assert(a.in_use@[i as int]);
            assert(a.branch_ok(i));
        }
    }

    /// The root and the current case of a well-formed tree are live.
    pub proof fn lemma_current_live(&self)
        requires
            self.wf(),
        ensures
            self.live(0),
            self.live(self.current_index()),
            self.slots() >= 1,
    {
    }

    /// Facts on live slot `i` of a well-formed tree.
    pub proof fn lemma_live(&self, i: usize)
        requires
            self.wf(),
            self.live(i),
        ensures
            i < self.slots(),
            self.case_at(i).wf(),
            self.case_at(i).goal_wire() is Some,
            self.solved_ok(i),
            self.branch_ok(i),
            i != 0 ==> self.live(self.parent_of(i)) && self.depth_of(i) == self.depth_of(
                self.parent_of(i),
            ) + 1 && self.kids(self.parent_of(i)) is Some && self.kids(
                self.parent_of(i),
            ).unwrap().contains(i),
            match self.kids(i) {
                Some(cs) => cs.no_duplicates() && forall|k: int|
                    0 <= k < cs.len() ==> self.live(#[trigger] cs[k]) && self.parent_of(cs[k]) == i
                        && cs[k] != 0,
                None => true,
            },
    {
        self.lemma_nodes_at(i);
        self.lemma_solved_at(i, None);
        self.lemma_branch_at(i, None);
    }

    pub fn new(case: Case) -> (r: CaseTree)
        requires
            case.wf(),
            case.goal_wire() is Some,
        ensures
            r.wf(),
            r.current_index() == 0,
            r.case_at(0) == case,
            r.complete_at(0) == case.solved(),
            r.kids(0) == Option::<Seq<usize>>::None,
    {
        let g = case.goal();
        let done = case.proven(g);
        let ghost d: Seq<nat> = seq![0nat];
        let r = CaseTree {
            cases: vec![case],
            complete: vec![done],
            parent: vec![0],
            children: vec![None],
            in_use: vec![true],
            current: CaseId(0),
            free_list: small_new(),
            depth: Ghost(d),
        };
        proof {
            reveal(CaseTree::nodes_ok);
            reveal(CaseTree::solved_ok_but);
            reveal(CaseTree::branches_ok_but);
            assert(r.in_use@[0]);
            assert forall|i: usize|
                #![trigger r.in_use@[i as int]]
                i < r.cases@.len() && r.in_use@[i as int] implies r.links_ok(i) && r.case_ok(i) by {
                assert(i == 0);
            }
            assert forall|i: usize|
                #![trigger r.in_use@[i as int]]
                i < r.cases@.len() && r.in_use@[i as int] && None::<usize> != Some(i) implies r.solved_ok(
                i,
            ) by {
                assert(i == 0);
            }
            assert forall|i: usize|
                #![trigger r.in_use@[i as int]]
                i < r.cases@.len() && r.in_use@[i as int] && None::<usize> != Some(i) implies r.branch_ok(
                i,
            ) by {
                assert(i == 0);
            }
        }
        r
    }

    /// The case with id `id`, and whether it is complete.
    pub fn case(&self, id: CaseId) -> (r: (&Case, bool))
        requires
            self.wf(),
            self.live(id.index()),
        ensures
            *r.0 == self.case_at(id.index()),
            r.1 == self.complete_at(id.index()),
            r.0.wf(),
            r.0.goal_wire() is Some,
    {
        proof {
            self.lemma_live(id.0);
        }
        (&self.cases[id.0], self.complete[id.0])
    }

    /// The children of case `id`, if it is a branch.
    pub fn children(&self, id: CaseId) -> (r: Option<Vec<CaseId>>)
        requires
            self.wf(),
            self.live(id.index()),
        ensures
            r is Some == self.kids(id.index()) is Some,
            r matches Some(v) ==> v@.len() == self.kids(id.index()).unwrap().len() && forall|k: int|
                0 <= k < v@.len() ==> (#[trigger] v@[k]).index() == self.kids(id.index()).unwrap()[k],
    {
        proof {
            self.lemma_live(id.0);
        }
        match &self.children[id.0] {
            Some(list) => {
                let ids = small_to_vec(list);
                let mut out: Vec<CaseId> = Vec::new();
                let mut k: usize = 0;
                while k < ids.len()
                    invariant
                        k <= ids@.len(),
                        out@.len() == k,
                        forall|j: int| 0 <= j < k ==> (#[trigger] out@[j]).0 == ids@[j],
                    decreases ids@.len() - k,
                {
                    out.push(CaseId(ids[k]));
                    k = k + 1;
                }
                Some(out)
            },
            None => None,
        }
    }

    /// The id of the case being worked on.
    pub fn current(&self) -> (r: CaseId)
        ensures
            r.index() == self.current_index(),
    {
        self.current
    }

    /// The case being worked on, and whether it is complete.
    pub fn current_case(&self) -> (r: (&Case, bool))
        requires
            self.wf(),
        ensures
            *r.0 == self.case_at(self.current_index()),
            r.1 == self.complete_at(self.current_index()),
            r.0.wf(),
            r.0.goal_wire() is Some,
    {
        self.case(self.current)
    }

    /// Makes `id` the case being worked on.
    pub fn goto_case(&mut self, id: CaseId)
        requires
            old(self).wf(),
            old(self).live(id.index()),
        ensures
            final(self).wf(),
            final(self).current_index() == id.index(),
            final(self).same_slots(old(self)),
    {
        self.current = id;
        proof {
            CaseTree::lemma_keep_nodes(*old(self), *self, None);
            CaseTree::lemma_keep_solved(*old(self), *self, None);
            CaseTree::lemma_keep_branches(*old(self), *self, None);
        }
    }

    /// Whether the whole proof is done.
    pub fn all_complete(&self) -> (r: bool)
        requires
            self.wf(),
        ensures
            r == self.complete_at(0),
    {
        self.complete[0]
    }

    /// `self` is `o` with some more slots marked complete.
    pub closed spec fn more_complete(&self, o: &CaseTree) -> bool {
        &&& self.cases == o.cases
        &&& self.parent == o.parent
        &&& self.children == o.children
        &&& self.in_use == o.in_use
        &&& self.free_list == o.free_list
        &&& self.depth == o.depth
        &&& self.current == o.current
        &&& self.complete@.len() == o.complete@.len()
        &&& forall|i: int| 0 <= i < o.complete@.len() && o.complete@[i] ==> #[trigger] self.complete@[i]
    }

    fn all_done(&self, cs: &Vec<usize>) -> (r: bool)
        requires
            forall|k: int| 0 <= k < cs@.len() ==> #[trigger] cs@[k] < self.complete@.len(),
        ensures
            r == forall|k: int| 0 <= k < cs@.len() ==> self.complete@[#[trigger] cs@[k] as int],
    {
        let mut k: usize = 0;
        while k < cs.len()
            invariant
                forall|j: int| 0 <= j < cs@.len() ==> #[trigger] cs@[j] < self.complete@.len(),
                k <= cs@.len(),
                forall|j: int| 0 <= j < k ==> self.complete@[#[trigger] cs@[j] as int],
            decreases cs@.len() - k,
        {
            if !self.complete[cs[k]] {
                return false;
            }
            k = k + 1;
        }
        true
    }

    /// After slot `x` is marked complete, only its parent may break the
    /// branch rule.
    proof fn lemma_branches_after_set(before: CaseTree, after: CaseTree, x: usize)
        requires
            before.shape_ok(),
            before.nodes_ok(),
            before.live(x),
            before.branches_ok_but(Some(x)),
            after.more_complete(&before),
            after.complete@ == before.complete@.update(x as int, true),
        ensures
            x != 0 ==> after.branches_ok_but(Some(after.parent@[x as int])),
            x == 0 ==> after.branches_ok_but(None),
    {
        let p = if x == 0 {
            None::<usize>
        } else {
            Some(after.parent@[x as int])
        };
        before.lemma_nodes_at(x);
        reveal(CaseTree::branches_ok_but);
        assert forall|i: usize|
            #![trigger after.in_use@[i as int]]
            i < after.cases@.len() && after.in_use@[i as int] && p != Some(i) implies after.branch_ok(i) by {
            assert(before.in_use@[i as int]);
            before.lemma_nodes_at(i);
            if i != x {
                assert(before.branch_ok(i));
                match after.kids(i) {
                    Some(cs) => {
                        if forall|k: int| 0 <= k < cs.len() ==> after.complete_at(#[trigger] cs[k]) {
                            assert forall|k: int| 0 <= k < cs.len() implies before.complete_at(
                                #[trigger] cs[k],
                            ) by {
                                assert(after.complete_at(cs[k]));
                                if cs[k] == x {
                                    assert(before.parent@[cs[k] as int] == i);
                                }
                            }
                        }
                    },
                    None => {},
                }
            }
        }
    }

    /// `self` is `t0` after `node` was marked complete and completion rose:
    /// no flag was cleared, and each other slot that became complete is an
    /// ancestor of `node` whose children are all complete.
    pub open spec fn raised_from(&self, t0: &CaseTree, node: usize) -> bool {
        &&& self.complete_at(node)
        &&& forall|i: usize| i < t0.slots() && t0.complete_at(i) ==> #[trigger] self.complete_at(i)
        &&& forall|i: usize|
            i < t0.slots() && i != node && #[trigger] self.complete_at(i) && !t0.complete_at(i) ==> {
                &&& t0.live(i)
                &&& t0.below(node, i)
                &&& self.kids(i) is Some
                &&& forall|k: int|
                    0 <= k < self.kids(i).unwrap().len() ==> self.complete_at(#[trigger] self.kids(i).unwrap()[k])
            }
    }

    /// `self` and `t0` link the same slots in the same way.
    pub closed spec fn same_structure(&self, t0: &CaseTree) -> bool {
        &&& self.parent == t0.parent
        &&& self.depth == t0.depth
        &&& self.children == t0.children
        &&& self.in_use == t0.in_use
        &&& self.cases@.len() == t0.cases@.len()
        &&& self.complete@.len() == t0.complete@.len()
    }

    /// `self` is `t0` with only the case of the current slot edited: the same
    /// current slot, slots, liveness, parents, children and other cases; if
    /// the edited case proves its goal, completion rose from it, and
    /// otherwise no flag changed.
    pub open spec fn changed_in_place(&self, t0: &CaseTree) -> bool {
        let x = t0.current_index();
        &&& self.current_index() == x
        &&& self.slots() == t0.slots()
        &&& self.same_structure(t0)
        &&& forall|i: usize| #[trigger] self.live(i) == t0.live(i)
        &&& forall|i: usize| i < t0.slots() ==> #[trigger] self.kids(i) == t0.kids(i)
        &&& forall|i: usize| i < t0.slots() ==> #[trigger] self.parent_of(i) == t0.parent_of(i)
        &&& forall|i: usize| i < t0.slots() && i != x ==> #[trigger] self.case_at(i) == t0.case_at(i)
        &&& if self.case_at(x).solved() {
            self.raised_from(t0, x)
        } else {
            forall|i: usize| i < t0.slots() ==> #[trigger] self.complete_at(i) == t0.complete_at(i)
        }
    }

    /// The free list holds each slot once.
    pub proof fn lemma_free_distinct(&self)
        requires
            self.wf(),
        ensures
            self.free().no_duplicates(),
            forall|k: int| 0 <= k < self.free().len() ==> !self.live(#[trigger] self.free()[k]),
    {
    }

    /// Leaving a tree as it is changes it in place.
    pub proof fn lemma_in_place_refl(&self)
        requires
            self.wf(),
        ensures
            self.changed_in_place(self),
    {
        self.lemma_live(self.current_index());
    }

    /// Two edits in place make one, when the first one's proven goal stays
    /// proven.
    pub proof fn lemma_in_place_twice(t0: &CaseTree, t1: &CaseTree, t2: &CaseTree)
        requires
            t0.wf(),
            t1.wf(),
            t1.changed_in_place(t0),
            t2.changed_in_place(t1),
            t1.case_at(t1.current_index()).solved() ==> t2.case_at(t2.current_index()).solved(),
        ensures
            t2.changed_in_place(t0),
    {
        let x = t0.current_index();
        assert forall|i: usize| #[trigger] t2.below(x, i) == t0.below(x, i) by {}
        assert forall|i: usize| #[trigger] t1.below(x, i) == t0.below(x, i) by {}
        if t2.case_at(x).solved() {
            assert forall|i: usize|
                i < t0.slots() && i != x && #[trigger] t2.complete_at(i) && !t0.complete_at(i) implies {
                    &&& t0.live(i)
                    &&& t0.below(x, i)
                    &&& t2.kids(i) is Some
                    &&& forall|k: int|
                        0 <= k < t2.kids(i).unwrap().len() ==> t2.complete_at(#[trigger] t2.kids(i).unwrap()[k])
                } by {
                if t1.complete_at(i) {
                    t1.lemma_live(i);
                    assert forall|k: int| 0 <= k < t2.kids(i).unwrap().len() implies t2.complete_at(
                        #[trigger] t2.kids(i).unwrap()[k],
                    ) by {
                        assert(t1.complete_at(t1.kids(i).unwrap()[k]));
                    }
                }
            }
        }
    }

    /// One step up from `c` stays above `a`.
    proof fn lemma_below_step(&self, a: usize, c: usize)
        requires
            self.shape_ok(),
            self.nodes_ok(),
            self.live(a),
            self.live(c),
            c != 0,
            a == c || self.below(a, c),
        ensures
            self.below(a, self.parent@[c as int]),
        decreases self.depth@[a as int],
    {
        self.lemma_nodes_at(a);
        self.lemma_nodes_at(c);
        let p = self.parent@[c as int];
        if a == c {
        } else {
            let q = self.parent@[a as int];
            self.lemma_nodes_at(q);
            if q != c {
                self.lemma_below_step(q, c);
            } else {
                assert(self.below(c, p));
            }
        }
    }

    /// Marks `node` complete, then each ancestor whose children are now all
    /// complete, stopping at the first that is not.
    #[verifier::spinoff_prover]
    fn mark_complete(&mut self, node: usize)
        requires
            old(self).shape_ok(),
            old(self).nodes_ok(),
            old(self).live(node),
            old(self).solved_ok_but(Some(node)),
            old(self).branches_ok_but(Some(node)),
        ensures
            final(self).wf(),
            final(self).more_complete(old(self)),
            final(self).complete_at(node),
            final(self).raised_from(old(self), node),
    {
        let mut cur = node;
        let ghost start = *self;
        self.complete.set(cur, true);
        proof {
            CaseTree::lemma_keep_nodes(start, *self, None);
            CaseTree::lemma_branches_after_set(start, *self, node);
            reveal(CaseTree::solved_ok_but);
            assert forall|i: usize|
                #![trigger self.in_use@[i as int]]
                i < self.cases@.len() && self.in_use@[i as int] && None::<usize> != Some(i) implies self.solved_ok(
                i,
            ) by {
                assert(start.in_use@[i as int]);
                if i != node {
                    assert(start.solved_ok(i));
                }
            }
        }
        let mut stop = false;
        while cur != 0 && !stop
            invariant
                self.shape_ok(),
                self.nodes_ok(),
                self.solved_ok_but(None),
                self.more_complete(&start),
                self.live(cur),
                self.complete@[cur as int],
                node < self.complete@.len(),
                self.complete@[node as int],
                stop ==> self.branches_ok_but(None),
                !stop && cur != 0 ==> self.branches_ok_but(Some(self.parent@[cur as int])),
                !stop && cur == 0 ==> self.branches_ok_but(None),
                start.shape_ok(),
                start.nodes_ok(),
                start.live(node),
                cur == node || start.below(node, cur),
                forall|i: usize|
                    i < start.slots() && i != node && #[trigger] self.complete_at(i) && !start.complete_at(i) ==> {
                        &&& start.live(i)
                        &&& start.below(node, i)
                        &&& self.kids(i) is Some
                        &&& forall|k: int|
                            0 <= k < self.kids(i).unwrap().len() ==> self.complete_at(#[trigger] self.kids(i).unwrap()[k])
                    },
            decreases self.depth@[cur as int], if stop { 0int } else { 1int },
        {
            proof {
                self.lemma_nodes_at(cur);
            }
            let p = self.parent[cur];
            let cs = small_to_vec(self.children[p].as_ref().unwrap());
            proof {
                self.lemma_nodes_at(p);
            }
            if self.all_done(&cs) {
                let ghost before = *self;
                self.complete.set(p, true);
                proof {
                    CaseTree::lemma_keep_nodes(before, *self, None);
                    CaseTree::lemma_keep_solved(before, *self, None);
                    reveal(CaseTree::branches_ok_but);
                    CaseTree::lemma_branches_after_set(before, *self, p);
                    assert(start.live(cur));
                    start.lemma_nodes_at(cur);
                    start.lemma_below_step(node, cur);
                    assert(self.kids(p) == before.kids(p));
                    assert forall|i: usize|
                        i < start.slots() && i != node && #[trigger] self.complete_at(i) && !start.complete_at(i) implies {
                            &&& start.live(i)
                            &&& start.below(node, i)
                            &&& self.kids(i) is Some
                            &&& forall|k: int|
                                0 <= k < self.kids(i).unwrap().len() ==> self.complete_at(#[trigger] self.kids(i).unwrap()[k])
                        } by {
                        if i != p {
                            assert(before.complete_at(i));
                            start.lemma_nodes_at(i);
                            assert(self.kids(i) == before.kids(i));
                            assert forall|k: int| 0 <= k < self.kids(i).unwrap().len() implies self.complete_at(
                                #[trigger] self.kids(i).unwrap()[k],
                            ) by {
                                assert(before.complete_at(before.kids(i).unwrap()[k]));
                            }
                        } else {
                            assert(cs@ == before.kids(p).unwrap());
                            assert forall|k: int| 0 <= k < self.kids(i).unwrap().len() implies self.complete_at(
                                #[trigger] self.kids(i).unwrap()[k],
                            ) by {
                                assert(before.complete@[cs@[k] as int]);
                            }
                        }
                    }
                }
                cur = p;
            } else {
                stop = true;
                proof {
                    reveal(CaseTree::branches_ok_but);
                    assert forall|i: usize|
                        #![trigger self.in_use@[i as int]]
                        i < self.cases@.len() && self.in_use@[i as int] && None::<usize> != Some(i) implies self.branch_ok(
                        i,
                    ) by {
                        if i != p {
                            assert(Some(p) != Some(i));
                        }
                    }
                }
            }
        }
    }

    /// Applies `edit` to the current case; if that proves its goal, the case
    /// is complete, and so is each ancestor whose children all are.
    #[verifier::spinoff_prover]
    pub fn edit_case(&mut self, edit: Edit)
        requires
            old(self).wf(),
            edit.fits(&old(self).case_at(old(self).current_index())),
        ensures
            final(self).wf(),
            final(self).current_index() == old(self).current_index(),
            old(self).case_at(old(self).current_index()).edited(
                edit,
                &final(self).case_at(final(self).current_index()),
            ),
            final(self).complete_at(final(self).current_index()) == (old(self).complete_at(
                old(self).current_index(),
            ) || final(self).case_at(final(self).current_index()).solved()),
            final(self).slots() == old(self).slots(),
            forall|i: usize|
                i < old(self).slots() && i != old(self).current_index() ==> #[trigger] final(self).case_at(i)
                    == old(self).case_at(i),
            forall|i: usize| #[trigger] final(self).live(i) == old(self).live(i),
            forall|i: usize|
                i < old(self).slots() && old(self).complete_at(i) ==> #[trigger] final(self).complete_at(i),
            final(self).changed_in_place(old(self)),
    {
        let cur = self.current.0;
        proof {
            self.lemma_live(cur);
        }
        let ghost before = *self;
        self.cases[cur].apply(edit);
        let g = self.cases[cur].goal();
        let solved = self.cases[cur].proven(g);
        proof {
            CaseTree::lemma_keep_nodes(before, *self, Some(cur));
            CaseTree::lemma_keep_branches(before, *self, None);
            reveal(CaseTree::branches_ok_but);
            reveal(CaseTree::solved_ok_but);
            assert forall|i: usize|
                #![trigger self.in_use@[i as int]]
                i < self.cases@.len() && self.in_use@[i as int] && Some(cur) != Some(i) implies self.solved_ok(
                i,
            ) by {
                assert(before.in_use@[i as int]);
                assert(before.solved_ok(i));
            }
        }
        if solved {
            let ghost prev = *self;
            self.mark_complete(cur);
            proof {
                assert forall|i: usize| #[trigger] prev.below(cur, i) == before.below(cur, i) by {}
            }
        } else {
            proof {
                reveal(CaseTree::solved_ok_but);
                assert forall|i: usize|
                    #![trigger self.in_use@[i as int]]
                    i < self.cases@.len() && self.in_use@[i as int] && None::<usize> != Some(i) implies self.solved_ok(
                    i,
                ) by {
                    assert(before.in_use@[i as int]);
                    assert(before.solved_ok(i));
                }
            }
        }
    }

    /// Moves node `node` of the current case; no proof state changes.
    pub fn set_node_position(&mut self, node: Node, position: Position)
        requires
            old(self).wf(),
            node.0 < old(self).case_at(old(self).current_index()).len(),
        ensures
            final(self).wf(),
            final(self).current_index() == old(self).current_index(),
            forall|i: usize| #[trigger] final(self).live(i) == old(self).live(i),
            forall|i: usize| #[trigger] final(self).complete_at(i) == old(self).complete_at(i),
            final(self).case_at(final(self).current_index()).position_of(node.0) == position,
            final(self).case_at(final(self).current_index()).same_connections(
                &old(self).case_at(old(self).current_index()),
            ),
    {
        let cur = self.current.0;
        proof {
            self.lemma_live(cur);
            self.cases@[cur as int].lemma_goal_in_range();
        }
        let ghost before = *self;
        self.cases[cur].set_position(node, position);
        proof {
            CaseTree::lemma_keep_nodes(before, *self, Some(cur));
            CaseTree::lemma_keep_branches(before, *self, None);
            reveal(CaseTree::solved_ok_but);
            assert forall|i: usize|
                #![trigger self.in_use@[i as int]]
                i < self.cases@.len() && self.in_use@[i as int] && None::<usize> != Some(i) implies self.solved_ok(
                i,
            ) by {
                assert(before.in_use@[i as int]);
                assert(before.solved_ok(i));
            }
        }
    }
    /// A slot strictly below `x` lies deeper than `x`.
    proof fn lemma_below_deeper(&self, i: usize, x: usize, fuel: nat)
        requires
            self.shape_ok(),
            self.nodes_ok(),
            self.live(i),
            below_within(self.parent@, i, x, fuel),
        ensures
            self.depth@[i as int] > self.depth@[x as int],
        decreases fuel,
    {
        self.lemma_nodes_at(i);
        let p = self.parent@[i as int];
        if p != x {
            self.lemma_below_deeper(p, x, (fuel - 1) as nat);
        }
    }

    /// Whether live slot `i` lies strictly below slot `x`.
    fn is_below(&self, i: usize, x: usize) -> (r: bool)
        requires
            self.shape_ok(),
            self.nodes_ok(),
            self.live(i),
        ensures
            r == self.below(i, x),
    {
        let mut cur = i;
        while cur != 0
            invariant
                self.shape_ok(),
                self.nodes_ok(),
                self.live(cur),
                self.below(i, x) == self.below(cur, x),
            decreases self.depth@[cur as int],
        {
            proof {
                self.lemma_nodes_at(cur);
            }
            let p = self.parent[cur];
            if p == x {
                return true;
            }
            cur = p;
        }
        false
    }

    /// Slot `i` is freed when the tree is cut back to `x`.
    pub open spec fn cut_below(&self, i: usize, x: usize) -> bool {
        self.live(i) && i != x && self.below(i, x)
    }

    #[verifier::spinoff_prover]
    proof fn lemma_revert_wf(before: CaseTree, after: CaseTree, x: usize)
        requires
            before.wf(),
            before.live(x),
            after.cases == before.cases,
            after.complete == before.complete,
            after.parent == before.parent,
            after.depth == before.depth,
            after.children@ == before.children@.update(x as int, None),
            after.in_use@.len() == before.in_use@.len(),
            forall|i: int|
                0 <= i < before.in_use@.len() ==> #[trigger] after.in_use@[i] == (before.in_use@[i]
                    && !before.cut_below(i as usize, x)),
            after.free().no_duplicates(),
            forall|v: usize| #[trigger]
                after.free().contains(v) <==> (before.free().contains(v) || before.cut_below(v, x)),
            after.current.0 == x,
        ensures
            after.wf(),
    {
        let n = before.cases@.len();
        before.lemma_nodes_at(x);
        assert forall|k: int| 0 <= k < after.free().len() implies #[trigger] after.free()[k] < n
            && !after.live(after.free()[k]) by {
            let v = after.free()[k];
            assert(after.free().contains(v));
            if before.free().contains(v) {
                let j = choose|j: int| 0 <= j < before.free().len() && before.free()[j] == v;
                assert(before.free()[j] < n && !before.live(before.free()[j]));
            }
        }
        assert(x != 0 ==> !before.cut_below(before.parent@[x as int], x)) by {
            if x != 0 {
                let p = before.parent@[x as int];
                if before.cut_below(p, x) {
                    before.lemma_below_deeper(p, x, before.depth@[p as int]);
                }
            }
        }
        assert(after.shape_ok());
        reveal(CaseTree::nodes_ok);
        reveal(CaseTree::solved_ok_but);
        reveal(CaseTree::branches_ok_but);
        assert forall|i: usize|
            #![trigger after.in_use@[i as int]]
            i < n && after.in_use@[i as int] implies after.links_ok(i) && after.case_ok(i) by {
            assert(before.in_use@[i as int]);
            assert(before.links_ok(i));
            assert(before.case_ok(i));
            if i != 0 {
                let p = before.parent@[i as int];
                assert(!before.cut_below(p, x)) by {
                    if before.cut_below(p, x) {
                        assert(before.below(i, x));
                    }
                }
                assert(p != x) by {
                    if p == x {
                        assert(before.below(i, x));
                    }
                }
                assert(after.live(p));
            }
            if i != x {
                match before.kids(i) {
                    Some(cs) => {
                        assert forall|k: int| 0 <= k < cs.len() implies after.live(#[trigger] cs[k]) by {
                            let c = cs[k];
                            assert(before.live(c));
                            if before.cut_below(c, x) {
                                assert(before.below(c, x));
                                assert(before.below(i, x));
                            }
                        }
                    },
                    None => {},
                }
            }
        }
        assert forall|i: usize|
            #![trigger after.in_use@[i as int]]
            i < n && after.in_use@[i as int] && None::<usize> != Some(i) implies after.solved_ok(i) by {
            assert(before.in_use@[i as int]);
            assert(before.solved_ok(i));
        }
        assert forall|i: usize|
            #![trigger after.in_use@[i as int]]
            i < n && after.in_use@[i as int] && None::<usize> != Some(i) implies after.branch_ok(i) by {
            assert(before.in_use@[i as int]);
            assert(before.branch_ok(i));
        }
    }

    /// Discards every case below `id` and makes `id` current again, with its
    /// case as it was when created. The discarded slots are free for reuse.
    #[verifier::spinoff_prover]
    pub fn revert_to(&mut self, id: CaseId)
        requires
            old(self).wf(),
            old(self).live(id.index()),
        ensures
            final(self).wf(),
            final(self).reverted(old(self), id.index()),
    {
        let x = id.0;
        let n = self.cases.len();
        let mut victims: Vec<usize> = Vec::new();
        let mut i: usize = 0;
        while i < n
            invariant
                self.wf(),
                n == self.cases@.len(),
                i <= n,
                forall|a: int, b: int| 0 <= a < b < victims@.len() ==> victims@[a] < victims@[b],
                forall|a: int| 0 <= a < victims@.len() ==> #[trigger] victims@[a] < i,
                forall|v: usize| #[trigger] victims@.contains(v) <==> (v < i && self.cut_below(v, x)),
            decreases n - i,
        {
            let ghost prev = victims@;
            if self.in_use[i] && i != x && self.is_below(i, x) {
                victims.push(i);
            }
            i = i + 1;
            proof {
                assert forall|v: usize| #[trigger] victims@.contains(v) <==> (v < i && self.cut_below(v, x)) by {
                    if victims@.contains(v) {
                        let a = choose|a: int| 0 <= a < victims@.len() && victims@[a] == v;
                        if a < prev.len() {
                            assert(prev.contains(v));
                        }
                    }
                    if v < i && self.cut_below(v, x) {
                        if v == i - 1 {
                            assert(victims@[victims@.len() - 1] == v);
                        } else {
                            assert(prev.contains(v));
                            let a = choose|a: int| 0 <= a < prev.len() && prev[a] == v;
                            assert(victims@[a] == v);
                        }
                    }
                }
            }
        }
        let ghost before = *self;
        proof {
            assert forall|v: usize| victims@.contains(v) implies !before.free().contains(v) by {
                if before.free().contains(v) {
                    let j = choose|j: int| 0 <= j < before.free().len() && before.free()[j] == v;
                    assert(before.free()[j] < n && !before.live(before.free()[j]));
                }
            }
        }
        let mut k: usize = 0;
        while k < victims.len()
            invariant
                before.wf(),
                n == before.cases@.len(),
                self.cases == before.cases,
                self.complete == before.complete,
                self.parent == before.parent,
                self.depth == before.depth,
                self.children == before.children,
                self.current == before.current,
                k <= victims@.len(),
                forall|a: int, b: int| 0 <= a < b < victims@.len() ==> victims@[a] < victims@[b],
                forall|a: int| 0 <= a < victims@.len() ==> #[trigger] victims@[a] < n,
                forall|v: usize| #[trigger] victims@.contains(v) <==> before.cut_below(v, x),
                forall|v: usize| victims@.contains(v) ==> !before.free().contains(v),
                self.in_use@.len() == n,
                forall|j: int|
                    0 <= j < n ==> #[trigger] self.in_use@[j] == (before.in_use@[j]
                        && !victims@.take(k as int).contains(j as usize)),
                self.free() == before.free() + victims@.take(k as int),
            decreases victims@.len() - k,
        {
            let v = victims[k];
            self.in_use.set(v, false);
            small_push(&mut self.free_list, v);
            k = k + 1;
            proof {
                assert(victims@.take(k as int) == victims@.take(k - 1).push(v));
                assert(self.free() =~= before.free() + victims@.take(k as int));
                assert forall|j: int|
                    0 <= j < n implies #[trigger] self.in_use@[j] == (before.in_use@[j]
                        && !victims@.take(k as int).contains(j as usize)) by {
                    if j == v {
                        assert(victims@.take(k as int)[k - 1] == v);
                    } else {
                        if victims@.take(k as int).contains(j as usize) {
                            let a = choose|a: int| 0 <= a < k && victims@.take(k as int)[a] == j;
                            assert(victims@.take(k - 1)[a] == j);
                        }
                    }
                }
            }
        }
        self.children.set(x, None);
        self.current = CaseId(x);
        proof {
            assert(victims@.take(k as int) =~= victims@);
            let fr = self.free();
            assert(fr == before.free() + victims@);
            assert forall|v: usize| #[trigger] fr.contains(v) <==> (before.free().contains(v)
                || before.cut_below(v, x)) by {
                if fr.contains(v) {
                    let a = choose|a: int| 0 <= a < fr.len() && fr[a] == v;
                    if a < before.free().len() {
                        assert(before.free()[a] == v);
                    } else {
                        assert(victims@[a - before.free().len()] == v);
                        assert(victims@.contains(v));
                    }
                }
                if before.free().contains(v) {
                    let a = choose|a: int| 0 <= a < before.free().len() && before.free()[a] == v;
                    assert(fr[a] == v);
                }
                if before.cut_below(v, x) {
                    assert(victims@.contains(v));
                    let a = choose|a: int| 0 <= a < victims@.len() && victims@[a] == v;
                    assert(fr[before.free().len() + a] == v);
                }
            }
            assert(fr.no_duplicates()) by {
                assert forall|a: int, b: int| 0 <= a < fr.len() && 0 <= b < fr.len() && a != b implies fr[a]
                    != fr[b] by {
                    let m = before.free().len() as int;
                    if a < m && b >= m {
                        assert(victims@.contains(fr[b]));
                        assert(before.free().contains(fr[a]));
                    } else if a >= m && b < m {
                        assert(victims@.contains(fr[a]));
                        assert(before.free().contains(fr[b]));
                    } else if a >= m && b >= m {
                        if a < b {
                            assert(victims@[a - m] < victims@[b - m]);
                        } else {
                            assert(victims@[b - m] < victims@[a - m]);
                        }
                    }
                }
            }
            CaseTree::lemma_revert_wf(before, *self, x);
        }
        let ghost cut = *self;
        self.rederive_up(x);
        proof {
            assert forall|i: usize| cut.below(x, i) == before.below(x, i) by {}
            assert(self.kids(x) is None);
        }
    }
    /// The flag of slot `i` is what its own goal and its children give:
    /// complete when its goal is proven or it is a branch whose children
    /// are all complete.
    pub open spec fn derived(&self, i: usize) -> bool {
        self.complete_at(i) == (self.case_at(i).solved() || match self.kids(i) {
            Some(cs) => forall|k: int| 0 <= k < cs.len() ==> self.complete_at(#[trigger] cs[k]),
            None => false,
        })
    }

    /// Setting the flag of live slot `p` to its derived value keeps the tree
    /// well formed.
    proof fn lemma_rederive(before: CaseTree, after: CaseTree, p: usize, v: bool)
        requires
            before.wf(),
            before.live(p),
            v == (before.case_at(p).solved() || match before.kids(p) {
                Some(cs) => forall|k: int| 0 <= k < cs.len() ==> before.complete_at(#[trigger] cs[k]),
                None => false,
            }),
            after.complete@ == before.complete@.update(p as int, v),
            after.cases == before.cases,
            after.parent == before.parent,
            after.children == before.children,
            after.in_use == before.in_use,
            after.free_list == before.free_list,
            after.depth == before.depth,
            after.current == before.current,
        ensures
            after.wf(),
            after.derived(p),
            v ==> before.complete_at(p),
    {
        before.lemma_live(p);
        CaseTree::lemma_keep_nodes(before, after, None);
        match before.kids(p) {
            Some(cs) => {
                assert forall|k: int| 0 <= k < cs.len() implies #[trigger] cs[k] != p by {
                    before.lemma_live(cs[k]);
                }
                assert forall|k: int| 0 <= k < cs.len() implies after.complete_at(#[trigger] cs[k])
                    == before.complete_at(cs[k]) by {
                    assert(cs[k] != p);
                }
            },
            None => {},
        }
        reveal(CaseTree::solved_ok_but);
        reveal(CaseTree::branches_ok_but);
        assert forall|i: usize|
            #![trigger after.in_use@[i as int]]
            i < after.cases@.len() && after.in_use@[i as int] && None::<usize> != Some(i) implies after.solved_ok(i) by {
            before.lemma_live(i);
        }
        assert forall|i: usize|
            #![trigger after.in_use@[i as int]]
            i < after.cases@.len() && after.in_use@[i as int] && None::<usize> != Some(i) implies after.branch_ok(i) by {
            before.lemma_live(i);
            if i != p {
                match before.kids(i) {
                    Some(cs) => {
                        if forall|k: int| 0 <= k < cs.len() ==> after.complete_at(#[trigger] cs[k]) {
                            assert forall|k: int| 0 <= k < cs.len() implies before.complete_at(#[trigger] cs[k]) by {
                                assert(after.complete_at(cs[k]));
                            }
                        }
                    },
                    None => {},
                }
            }
        }
    }

    /// Re-derives the flag of `x`, a leaf, and of each of its ancestors.
    #[verifier::spinoff_prover]
    fn rederive_up(&mut self, x: usize)
        requires
            old(self).wf(),
            old(self).live(x),
            old(self).kids(x) is None,
        ensures
            final(self).wf(),
            final(self).cases == old(self).cases,
            final(self).parent == old(self).parent,
            final(self).children == old(self).children,
            final(self).in_use == old(self).in_use,
            final(self).free_list == old(self).free_list,
            final(self).depth == old(self).depth,
            final(self).current == old(self).current,
            final(self).complete@.len() == old(self).complete@.len(),
            final(self).derived(x),
            forall|i: usize| i < old(self).slots() && old(self).below(x, i) ==> #[trigger] final(self).derived(i),
            forall|i: usize|
                i < old(self).slots() && i != x && !old(self).below(x, i) ==> #[trigger] final(self).complete_at(i)
                    == old(self).complete_at(i),
    {
        proof {
            self.lemma_live(x);
            self.cases@[x as int].lemma_goal_in_range();
        }
        let g = self.cases[x].goal();
        let solved = self.cases[x].proven(g);
        let ghost before = *self;
        self.complete.set(x, solved);
        proof {
            CaseTree::lemma_rederive(before, *self, x, solved);
        }
        let ghost start = *old(self);
        let mut cur = x;
        let ghost mut path: Seq<usize> = seq![x];
        proof {
            assert forall|i: usize|
                i < start.slots() && !path.contains(i) implies #[trigger] self.complete_at(i) == start.complete_at(i) by {
                if i == x {
                    assert(path[0] == x);
                }
            }
        }
        while cur != 0
            invariant
                self.wf(),
                start == *old(self),
                start.wf(),
                self.cases == start.cases,
                self.parent == start.parent,
                self.children == start.children,
                self.in_use == start.in_use,
                self.free_list == start.free_list,
                self.depth == start.depth,
                self.current == start.current,
                self.complete@.len() == start.complete@.len(),
                self.live(cur),
                path.len() >= 1,
                path[0] == x,
                path.last() == cur,
                forall|k: int| 0 <= k < path.len() ==> self.live(#[trigger] path[k]) && self.depth@[path[k] as int]
                    >= self.depth@[cur as int],
                forall|k: int| 0 <= k < path.len() ==> self.derived(#[trigger] path[k]),
                forall|i: usize| start.below(x, i) <==> (path.drop_first().contains(i) || start.below(cur, i)),
                forall|i: usize|
                    i < start.slots() && !path.contains(i) ==> #[trigger] self.complete_at(i) == start.complete_at(i),
            decreases self.depth@[cur as int],
        {
            proof {
                self.lemma_live(cur);
            }
            let p = self.parent[cur];
            proof {
                self.lemma_live(p);
            }
            let cs = small_to_vec(self.children[p].as_ref().unwrap());
            let all = self.all_done(&cs);
            let gp = self.cases[p].goal();
            proof {
                self.cases@[p as int].lemma_goal_in_range();
            }
            let sp = self.cases[p].proven(gp);
            let ghost prev = *self;
            let v = sp || all;
            self.complete.set(p, v);
            proof {
                CaseTree::lemma_rederive(prev, *self, p, v);
                assert(!path.contains(p)) by {
                    if path.contains(p) {
                        let k = choose|k: int| 0 <= k < path.len() && path[k] == p;
                        assert(self.depth@[path[k] as int] >= self.depth@[cur as int]);
                    }
                }
                let old_path = path;
                path = path.push(p);
                assert forall|k: int| 0 <= k < path.len() implies self.derived(#[trigger] path[k]) by {
                    if k < old_path.len() {
                        let j = path[k];
                        assert(prev.derived(j));
                        prev.lemma_live(j);
                        assert(j != p);
                        match prev.kids(j) {
                            Some(ks) => {
                                assert forall|q: int| 0 <= q < ks.len() implies self.complete_at(#[trigger] ks[q])
                                    == prev.complete_at(ks[q]) by {
                                    if ks[q] == p {
                                        prev.lemma_live(p);
                                        assert(prev.parent_of(p) == j);
                                        assert(self.depth@[j as int] >= self.depth@[cur as int]);
                                    }
                                }
                            },
                            None => {},
                        }
                    }
                }
                assert forall|k: int| 0 <= k < path.len() implies self.live(#[trigger] path[k]) && self.depth@[path[k] as int]
                    >= self.depth@[p as int] by {
                    if k < old_path.len() {
                        assert(old_path[k] == path[k]);
                    }
                }
                assert(path.drop_first() == old_path.drop_first().push(p));
                assert forall|i: usize| start.below(x, i) <==> (path.drop_first().contains(i) || start.below(p, i)) by {
                    assert(start.below(cur, i) == (p == i || start.below(p, i)));
                    if old_path.drop_first().contains(i) {
                        let k = choose|k: int| 0 <= k < old_path.drop_first().len() && old_path.drop_first()[k] == i;
                        assert(path.drop_first()[k] == i);
                    }
                    if path.drop_first().contains(i) && i != p {
                        let k = choose|k: int| 0 <= k < path.drop_first().len() && path.drop_first()[k] == i;
                        assert(old_path.drop_first()[k] == i);
                    }
                    if i == p {
                        assert(path.drop_first()[path.drop_first().len() - 1] == p);
                    }
                }
                assert forall|i: usize|
                    i < start.slots() && !path.contains(i) implies #[trigger] self.complete_at(i) == start.complete_at(i) by {
                    if old_path.contains(i) {
                        let k = choose|k: int| 0 <= k < old_path.len() && old_path[k] == i;
                        assert(path[k] == i);
                    }
                    if i == p {
                        assert(path[path.len() - 1] == p);
                    }
                    assert(prev.complete_at(i) == start.complete_at(i));
                }
            }
            cur = p;
        }
        proof {
            assert forall|i: usize| i < start.slots() && start.below(x, i) implies #[trigger] self.derived(i) by {
                assert(!start.below(0, i));
                let k = choose|k: int| 0 <= k < path.drop_first().len() && path.drop_first()[k] == i;
                assert(path[k + 1] == i);
            }
            assert forall|i: usize|
                i < start.slots() && i != x && !start.below(x, i) implies #[trigger] self.complete_at(i)
                    == start.complete_at(i) by {
                if path.contains(i) {
                    let k = choose|k: int| 0 <= k < path.len() && path[k] == i;
                    if k > 0 {
                        assert(path.drop_first()[k - 1] == i);
                    }
                }
            }
            assert(self.derived(path[0]));
        }
    }

    /// `self` is `t0` cut back to slot `x`: the same cases, `x` current and
    /// a leaf again, complete exactly when its goal is proven, its
    /// ancestors' flags derived afresh, and every slot below `x` free.
    pub open spec fn reverted(&self, t0: &CaseTree, x: usize) -> bool {
        &&& self.current_index() == x
        &&& self.slots() == t0.slots()
        &&& forall|i: usize| i < t0.slots() ==> #[trigger] self.case_at(i) == t0.case_at(i)
        &&& self.complete_at(x) == self.case_at(x).solved()
        &&& forall|i: usize| i < t0.slots() && t0.below(x, i) ==> #[trigger] self.derived(i)
        &&& forall|i: usize|
            i < t0.slots() && i != x && !t0.below(x, i) ==> #[trigger] self.complete_at(i) == t0.complete_at(i)
        &&& self.kids(x) == Option::<Seq<usize>>::None
        &&& forall|i: usize| i < t0.slots() && i != x ==> #[trigger] self.kids(i) == t0.kids(i)
        &&& forall|i: usize| i < t0.slots() ==> #[trigger] self.parent_of(i) == t0.parent_of(i)
        &&& forall|i: usize| #[trigger] self.live(i) == (t0.live(i) && !t0.cut_below(i, x))
        &&& forall|i: usize|
            #[trigger] self.free().contains(i) == (t0.free().contains(i) || t0.cut_below(i, x))
    }

    /// `self` is `t0` with its current case split into `subs`.
    pub open spec fn split_into(&self, t0: &CaseTree, subs: Seq<Case>) -> bool {
        let x = t0.current_index();
        &&& self.case_at(x) == t0.case_at(x)
        &&& self.live(x)
        &&& self.kids(x) is Some
        &&& self.kids(x).unwrap().len() == subs.len()
        &&& forall|k: int|
            #![trigger subs[k]]
            0 <= k < subs.len() ==> {
                let c = self.kids(x).unwrap()[k];
                &&& self.live(c)
                &&& self.case_at(c) == subs[k]
                &&& self.complete_at(c) == subs[k].solved()
                &&& self.parent_of(c) == x
                &&& self.kids(c) is None
            }
        &&& (forall|k: int| 0 <= k < subs.len() ==> (#[trigger] subs[k]).solved()) ==> {
            &&& self.current_index() == x
            &&& self.complete_at(x)
        }
        &&& (exists|k: int| 0 <= k < subs.len() && !(#[trigger] subs[k]).solved()) ==> (exists|k: int|
            0 <= k < subs.len() && !(#[trigger] subs[k]).solved() && (forall|j: int|
                0 <= j < k ==> subs[j].solved()) && self.current_index() == self.kids(x).unwrap()[k])
        &&& subs.len() == 0 ==> self.slots() == t0.slots()
        &&& t0.kids(x) is None ==> self.slots() == t0.slots() + if subs.len() > t0.free().len() {
            (subs.len() - t0.free().len()) as nat
        } else {
            0nat
        }
        &&& forall|i: usize|
            i < t0.slots() && t0.live(i) && i != x && !t0.cut_below(i, x) ==> {
                &&& #[trigger] self.case_at(i) == t0.case_at(i)
                &&& self.parent_of(i) == t0.parent_of(i)
                &&& self.kids(i) == t0.kids(i)
                &&& self.live(i)
            }
        &&& t0.kids(x) is None ==> forall|i: usize|
            i < t0.slots() && t0.live(i) && i != x ==> {
                &&& (t0.complete_at(i) ==> #[trigger] self.complete_at(i))
                &&& (self.complete_at(i) && !t0.complete_at(i) ==> {
                    &&& self.below(x, i)
                    &&& self.kids(i) is Some
                    &&& forall|k: int|
                        0 <= k < self.kids(i).unwrap().len() ==> self.complete_at(#[trigger] self.kids(i).unwrap()[k])
                })
            }
    }

    /// Whether every ancestor of `i`, up to the root, has all its children
    /// complete but perhaps the one on the way to `i`.
    pub open spec fn siblings_complete_up(&self, i: usize, fuel: nat) -> bool
        decreases fuel,
    {
        if i == 0 || fuel == 0 {
            true
        } else {
            let p = self.parent_of(i);
            &&& self.kids(p) is Some
            &&& forall|k: int|
                0 <= k < self.kids(p).unwrap().len() ==> #[trigger] self.kids(p).unwrap()[k] == i
                    || self.complete_at(self.kids(p).unwrap()[k])
            &&& self.siblings_complete_up(p, (fuel - 1) as nat)
        }
    }

    /// Completion climbs: a complete case whose siblings, and those of each
    /// of its ancestors, are complete makes the whole tree complete.
    pub proof fn lemma_completion_reaches_root(&self, i: usize)
        requires
            self.wf(),
            self.live(i),
            self.complete_at(i),
            self.siblings_complete_up(i, self.depth_of(i)),
        ensures
            self.complete_at(0),
        decreases self.depth_of(i),
    {
        if i != 0 {
            self.lemma_live(i);
            let p = self.parent_of(i);
            self.lemma_live(p);
            let cs = self.kids(p).unwrap();
            assert forall|k: int| 0 <= k < cs.len() implies self.complete_at(#[trigger] cs[k]) by {
                if cs[k] != i {
                }
            }
            self.lemma_completion_reaches_root(p);
        }
    }

    /// Undo restores: splitting the current case `x` and then reverting to
    /// `x` gives back the case of `x` as it was, makes `x` current, and frees
    /// the slots of all the new children.
    pub proof fn lemma_split_then_revert(t0: &CaseTree, t1: &CaseTree, t2: &CaseTree, subs: Seq<Case>)
        requires
            t0.wf(),
            t1.wf(),
            t1.split_into(t0, subs),
            t2.reverted(t1, t0.current_index()),
        ensures
            t2.case_at(t0.current_index()) == t0.case_at(t0.current_index()),
            t2.current_index() == t0.current_index(),
            t2.kids(t0.current_index()) is None,
            forall|k: int|
                0 <= k < subs.len() ==> t2.free().contains(
                    #[trigger] t1.kids(t0.current_index()).unwrap()[k],
                ),
    {
        let x = t0.current_index();
        t1.lemma_live(x);
        assert forall|k: int| 0 <= k < subs.len() implies t2.free().contains(
            #[trigger] t1.kids(x).unwrap()[k],
        ) by {
            let c = t1.kids(x).unwrap()[k];
            assert(subs[k] == subs[k]);
            t1.lemma_live(c);
            assert(t1.cut_below(c, x));
        }
    }

    /// Redo reuses slots: splitting the current case `x`, reverting to
    /// `x`, and splitting `x` again into as many cases needs no slot beyond
    /// those the first split used.
    pub proof fn lemma_redo_reuses_slots(
        t0: &CaseTree,
        t1: &CaseTree,
        t2: &CaseTree,
        t3: &CaseTree,
        subs: Seq<Case>,
        again: Seq<Case>,
    )
        requires
            t0.wf(),
            t1.wf(),
            t2.wf(),
            t1.split_into(t0, subs),
            t2.reverted(t1, t0.current_index()),
            t3.split_into(t2, again),
            again.len() == subs.len(),
        ensures
            t3.slots() == t1.slots(),
    {
        let x = t0.current_index();
        t1.lemma_live(x);
        let kids = t1.kids(x).unwrap();
        let free = t2.free();
        assert(free.no_duplicates());
        assert(kids.to_set().subset_of(free.to_set())) by {
            assert forall|v: usize| kids.to_set().contains(v) implies free.to_set().contains(v) by {
                let k = choose|k: int| 0 <= k < kids.len() && kids[k] == v;
                t1.lemma_live(kids[k]);
                assert(t1.cut_below(kids[k], x));
            }
        }
        kids.unique_seq_to_set();
        free.unique_seq_to_set();
        vstd::set_lib::lemma_len_subset(kids.to_set(), free.to_set());
    }

    /// Slot bookkeeping that holds while cases are being placed.
    spec fn alloc_ok(&self) -> bool {
        let n = self.cases@.len();
        &&& self.complete@.len() == n
        &&& self.parent@.len() == n
        &&& self.children@.len() == n
        &&& self.in_use@.len() == n
        &&& self.depth@.len() == n
        &&& self.free().no_duplicates()
        &&& forall|k: int|
            0 <= k < self.free().len() ==> #[trigger] self.free()[k] < n && !self.live(self.free()[k])
    }

    /// Puts `case` in a slot as an unlinked leaf under `parent`: a free slot
    /// if there is one, else a new one.
    #[verifier::spinoff_prover]
    fn create_case(&mut self, case: Case, parent: usize) -> (r: usize)
        requires
            old(self).alloc_ok(),
            parent < old(self).cases@.len(),
            case.wf(),
            case.goal_wire() is Some,
        ensures
            final(self).alloc_ok(),
            r < final(self).cases@.len(),
            final(self).cases@.len() == old(self).cases@.len() || (final(self).cases@.len()
                == old(self).cases@.len() + 1 && r == old(self).cases@.len()),
            old(self).free().len() > 0 ==> final(self).cases@.len() == old(self).cases@.len()
                && final(self).free().len() == old(self).free().len() - 1,
            old(self).free().len() == 0 ==> final(self).cases@.len() == old(self).cases@.len() + 1
                && final(self).free().len() == 0,
            r < old(self).cases@.len() ==> old(self).free().contains(r),
            !final(self).in_use@[r as int],
            !final(self).free().contains(r),
            forall|v: usize| #[trigger] final(self).free().contains(v) ==> old(self).free().contains(v),
            final(self).cases@[r as int] == case,
            final(self).complete@[r as int] == case.solved(),
            final(self).parent@[r as int] == parent,
            final(self).children@[r as int] is None,
            final(self).depth@[r as int] == old(self).depth@[parent as int] + 1,
            final(self).current == old(self).current,
            forall|j: int|
                0 <= j < old(self).cases@.len() && j != r ==> {
                    &&& #[trigger] final(self).cases@[j] == old(self).cases@[j]
                    &&& final(self).complete@[j] == old(self).complete@[j]
                    &&& final(self).parent@[j] == old(self).parent@[j]
                    &&& final(self).children@[j] == old(self).children@[j]
                    &&& final(self).in_use@[j] == old(self).in_use@[j]
                    &&& final(self).depth@[j] == old(self).depth@[j]
                },
    {
        proof {
            case.lemma_goal_in_range();
        }
        let g = case.goal();
        let done = case.proven(g);
        let ghost d = self.depth@[parent as int] + 1;
        let ghost before = *self;
        match small_pop(&mut self.free_list) {
            Some(node) => {
                proof {
                    assert(before.free()[before.free().len() - 1] == node);
                    assert(before.free().contains(node));
                    assert(self.free() =~= before.free().drop_last());
                    assert forall|v: usize| #[trigger] self.free().contains(v) implies before.free().contains(v) by {
                        let a = choose|a: int| 0 <= a < self.free().len() && self.free()[a] == v;
                        assert(before.free()[a] == v);
                    }
                    if self.free().contains(node) {
                        let a = choose|a: int| 0 <= a < self.free().len() && self.free()[a] == node;
                        assert(before.free()[a] == before.free()[before.free().len() - 1]);
                    }
                }
                self.cases.set(node, case);
                self.complete.set(node, done);
                self.parent.set(node, parent);
                self.children.set(node, None);
                self.depth = Ghost(self.depth@.update(node as int, d));
                node
            },
            None => {
                let node = self.cases.len();
                self.cases.push(case);
                self.complete.push(done);
                self.parent.push(parent);
                self.children.push(None);
                self.in_use.push(false);
                self.depth = Ghost(self.depth@.push(d));
                proof {
                    assert forall|k: int| 0 <= k < self.free().len() implies #[trigger] self.free()[k]
                        < self.cases@.len() && !self.live(self.free()[k]) by {
                        assert(before.free()[k] < before.cases@.len());
                    }
                    if self.free().contains(node) {
                        let a = choose|a: int| 0 <= a < self.free().len() && self.free()[a] == node;
                        assert(before.free()[a] < before.cases@.len());
                    }
                }
                node
            },
        }
    }

    /// `after` is `base` right after its current leaf `cur` got children `ids`.
    spec fn split_state(base: CaseTree, after: CaseTree, cur: usize, ids: Seq<usize>) -> bool {
        &&& base.wf()
        &&& base.live(cur)
        &&& base.kids(cur) is None
        &&& after.alloc_ok()
        &&& after.cases@.len() >= base.cases@.len()
        &&& after.kids(cur) == Some(ids)
        &&& ids.no_duplicates()
        &&& forall|j: int|
            0 <= j < ids.len() ==> {
                &&& #[trigger] ids[j] < after.cases@.len()
                &&& !base.live(ids[j])
                &&& after.in_use@[ids[j] as int]
                &&& after.cases@[ids[j] as int].wf()
                &&& after.cases@[ids[j] as int].goal_wire() is Some
                &&& after.complete@[ids[j] as int] == after.cases@[ids[j] as int].solved()
                &&& after.parent@[ids[j] as int] == cur
                &&& after.children@[ids[j] as int] is None
                &&& after.depth@[ids[j] as int] == base.depth@[cur as int] + 1
            }
        &&& forall|i: usize|
            i < after.cases@.len() ==> #[trigger] after.in_use@[i as int] == (base.live(i)
                || ids.contains(i))
        &&& forall|i: usize|
            i < base.cases@.len() && !ids.contains(i) ==> {
                &&& #[trigger] after.cases@[i as int] == base.cases@[i as int]
                &&& after.complete@[i as int] == base.complete@[i as int]
                &&& after.parent@[i as int] == base.parent@[i as int]
                &&& (i != cur ==> after.children@[i as int] == base.children@[i as int])
                &&& after.depth@[i as int] == base.depth@[i as int]
            }
        &&& after.live(after.current.0)
    }

    /// A slot of `after` that was live in `base` is not among `ids`, and keeps
    /// its data.
    proof fn lemma_split_old(base: CaseTree, after: CaseTree, cur: usize, ids: Seq<usize>, i: usize)
        requires
            CaseTree::split_state(base, after, cur, ids),
            base.live(i),
        ensures
            !ids.contains(i),
            after.live(i),
            after.cases@[i as int] == base.cases@[i as int],
            after.complete@[i as int] == base.complete@[i as int],
            after.parent@[i as int] == base.parent@[i as int],
            i != cur ==> after.children@[i as int] == base.children@[i as int],
            after.depth@[i as int] == base.depth@[i as int],
    {
        if ids.contains(i) {
            let j = choose|j: int| 0 <= j < ids.len() && ids[j] == i;
        }
        assert(after.cases@[i as int] == base.cases@[i as int]);
        assert(after.in_use@[i as int] == (base.live(i) || ids.contains(i)));
    }

    proof fn lemma_split_shape(base: CaseTree, after: CaseTree, cur: usize, ids: Seq<usize>)
        requires
            CaseTree::split_state(base, after, cur, ids),
        ensures
            after.shape_ok(),
    {
        CaseTree::lemma_split_old(base, after, cur, ids, 0);
    }

    #[verifier::spinoff_prover]
    proof fn lemma_split_nodes(base: CaseTree, after: CaseTree, cur: usize, ids: Seq<usize>)
        requires
            CaseTree::split_state(base, after, cur, ids),
        ensures
            after.nodes_ok(),
    {
        let n = after.cases@.len();
        CaseTree::lemma_split_old(base, after, cur, ids, cur);
        reveal(CaseTree::nodes_ok);
        assert forall|i: usize|
            #![trigger after.in_use@[i as int]]
            i < n && after.in_use@[i as int] implies after.links_ok(i) && after.case_ok(i) by {
            if ids.contains(i) {
                let j = choose|j: int| 0 <= j < ids.len() && ids[j] == i;
                assert(ids[j] == i);
            } else {
                assert(base.live(i));
                CaseTree::lemma_split_old(base, after, cur, ids, i);
                base.lemma_nodes_at(i);
                if i != 0 {
                    let p = base.parent@[i as int];
                    CaseTree::lemma_split_old(base, after, cur, ids, p);
                    assert(p != cur);
                }
                if i != cur {
                    match base.kids(i) {
                        Some(cs) => {
                            assert forall|k: int| 0 <= k < cs.len() implies {
                                &&& #[trigger] cs[k] < n
                                &&& after.live(cs[k])
                                &&& cs[k] != 0
                                &&& after.parent@[cs[k] as int] == i
                            } by {
                                CaseTree::lemma_split_old(base, after, cur, ids, cs[k]);
                            }
                        },
                        None => {},
                    }
                }
            }
        }
    }

    #[verifier::spinoff_prover]
    proof fn lemma_split_flags(base: CaseTree, after: CaseTree, cur: usize, ids: Seq<usize>)
        requires
            CaseTree::split_state(base, after, cur, ids),
        ensures
            after.solved_ok_but(None),
            after.branches_ok_but(Some(cur)),
    {
        let n = after.cases@.len();
        reveal(CaseTree::solved_ok_but);
        reveal(CaseTree::branches_ok_but);
        assert forall|i: usize|
            #![trigger after.in_use@[i as int]]
            i < n && after.in_use@[i as int] && None::<usize> != Some(i) implies after.solved_ok(i) by {
            if ids.contains(i) {
                let j = choose|j: int| 0 <= j < ids.len() && ids[j] == i;
                assert(ids[j] == i);
            } else {
                assert(base.live(i));
                CaseTree::lemma_split_old(base, after, cur, ids, i);
                base.lemma_solved_at(i, None);
            }
        }
        assert forall|i: usize|
            #![trigger after.in_use@[i as int]]
            i < n && after.in_use@[i as int] && Some(cur) != Some(i) implies after.branch_ok(i) by {
            if ids.contains(i) {
                let j = choose|j: int| 0 <= j < ids.len() && ids[j] == i;
                assert(ids[j] == i);
            } else {
                assert(base.live(i));
                CaseTree::lemma_split_old(base, after, cur, ids, i);
                base.lemma_branch_at(i, None);
                base.lemma_nodes_at(i);
                match base.kids(i) {
                    Some(cs) => {
                        assert forall|k: int| 0 <= k < cs.len() implies after.complete_at(#[trigger] cs[k])
                            == base.complete_at(cs[k]) by {
                            CaseTree::lemma_split_old(base, after, cur, ids, cs[k]);
                        }
                    },
                    None => {},
                }
            }
        }
    }

    /// Replaces the current case by one child per subcase. The tree moves to
    /// the first child whose goal is not yet proven; when there is none, the
    /// current case is complete, and so is each ancestor whose children all
    /// are. No subcase at all means nothing is left to prove.
    #[verifier::spinoff_prover]
    #[verifier::rlimit(50)]
    pub fn case_split(&mut self, subcases: Vec<Case>)
        requires
            old(self).wf(),
            forall|k: int|
                0 <= k < subcases@.len() ==> (#[trigger] subcases@[k]).wf() && subcases@[k].goal_wire() is Some,
        ensures
            final(self).wf(),
            final(self).split_into(old(self), subcases@),
    {
        let cur = self.current.0;
        let ghost leaf = self.children@[cur as int] is None;
        if self.children[cur].is_some() {
            let id = self.current;
            self.revert_to(id);
        }
        let ghost base = *self;
        proof {
            if leaf {
                assert(base == *old(self));
            }
        }
        proof {
            base.lemma_live(cur);
            assert(base.kids(cur) is None);
        }
        let ghost subs = subcases@;
        let mut rest = subcases;
        let mut ids: Vec<usize> = Vec::new();
        let mut first_open: Option<usize> = None;
        while rest.len() > 0
            invariant
                base.wf(),
                base.live(cur),
                base.kids(cur) is None,
                cur == base.current.0,
                self.alloc_ok(),
                self.current == base.current,
                self.cases@.len() >= base.cases@.len(),
                self.free().len() <= base.free().len(),
                (self.cases@.len() - base.cases@.len()) + (base.free().len() - self.free().len())
                    == ids@.len(),
                self.cases@.len() > base.cases@.len() ==> self.free().len() == 0,
                ids@.len() <= subs.len(),
                rest@ == subs.skip(ids@.len() as int),
                forall|k: int| 0 <= k < subs.len() ==> (#[trigger] subs[k]).wf() && subs[k].goal_wire() is Some,
                ids@.no_duplicates(),
                forall|j: int|
                    0 <= j < ids@.len() ==> {
                        &&& #[trigger] ids@[j] < self.cases@.len()
                        &&& !base.live(ids@[j])
                        &&& !self.in_use@[ids@[j] as int]
                        &&& !self.free().contains(ids@[j])
                        &&& self.cases@[ids@[j] as int] == subs[j]
                        &&& self.complete@[ids@[j] as int] == subs[j].solved()
                        &&& self.parent@[ids@[j] as int] == cur
                        &&& self.children@[ids@[j] as int] is None
                        &&& self.depth@[ids@[j] as int] == base.depth@[cur as int] + 1
                    },
                forall|i: usize|
                    i < base.cases@.len() && !ids@.contains(i) ==> {
                        &&& #[trigger] self.cases@[i as int] == base.cases@[i as int]
                        &&& self.complete@[i as int] == base.complete@[i as int]
                        &&& self.parent@[i as int] == base.parent@[i as int]
                        &&& self.children@[i as int] == base.children@[i as int]
                        &&& self.in_use@[i as int] == base.in_use@[i as int]
                        &&& self.depth@[i as int] == base.depth@[i as int]
                    },
                forall|i: usize|
                    base.cases@.len() <= i && i < self.cases@.len() ==> #[trigger] ids@.contains(i),
                forall|v: usize| #[trigger] self.free().contains(v) ==> base.free().contains(v),
                first_open is None ==> forall|j: int| 0 <= j < ids@.len() ==> (#[trigger] subs[j]).solved(),
                first_open matches Some(c) ==> exists|j: int|
                    0 <= j < ids@.len() && ids@[j] == c && !(#[trigger] subs[j]).solved() && (forall|i: int|
                        0 <= i < j ==> subs[i].solved()),
            decreases rest@.len(),
        {
            let ghost before = *self;
            let ghost prev = ids@;
            proof {
                assert(rest@[0] == subs[ids@.len() as int]);
            }
            let s = rest.remove(0);
            proof {
                assert(s == subs[ids@.len() as int]);
                assert(rest@ =~= subs.skip(ids@.len() as int + 1));
                base.lemma_nodes_at(cur);
            }
            let id = self.create_case(s, cur);
            proof {
                assert(!prev.contains(id)) by {
                    if prev.contains(id) {
                        let j = choose|j: int| 0 <= j < prev.len() && prev[j] == id;
                        assert(prev[j] < before.cases@.len());
                        assert(!before.free().contains(prev[j]));
                    }
                }
                assert(!base.live(id)) by {
                    if id < before.cases@.len() {
                        assert(before.free().contains(id));
                        assert(base.free().contains(id));
                        let a = choose|a: int| 0 <= a < base.free().len() && base.free()[a] == id;
                        assert(!base.live(base.free()[a]));
                    } else if id < base.cases@.len() {
                    }
                }
            }
            let ghost prev_open = first_open;
            ids.push(id);
            if first_open.is_none() && !self.complete[id] {
                first_open = Some(id);
            }
            proof {
                assert(ids@ == prev.push(id));
                assert forall|j: int| 0 <= j < ids@.len() implies {
                    &&& #[trigger] ids@[j] < self.cases@.len()
                    &&& !base.live(ids@[j])
                    &&& !self.in_use@[ids@[j] as int]
                    &&& !self.free().contains(ids@[j])
                    &&& self.cases@[ids@[j] as int] == subs[j]
                    &&& self.complete@[ids@[j] as int] == subs[j].solved()
                    &&& self.parent@[ids@[j] as int] == cur
                    &&& self.children@[ids@[j] as int] is None
                    &&& self.depth@[ids@[j] as int] == base.depth@[cur as int] + 1
                } by {
                    if j == prev.len() {
                        assert(ids@[j] == id);
                        assert(!prev.contains(cur)) by {
                            if prev.contains(cur) {
                                let a = choose|a: int| 0 <= a < prev.len() && prev[a] == cur;
                                assert(!base.live(prev[a]));
                            }
                        }
                        assert(before.cases@[cur as int] == base.cases@[cur as int]);
                        assert(self.cases@[id as int] == subs[j]);
                    }
                    if j < prev.len() {
                        assert(prev[j] != id) by {
                            assert(prev.contains(prev[j]));
                        }
                        assert(prev[j] < before.cases@.len());
                        assert(ids@[j] == prev[j]);
                        assert(self.cases@[prev[j] as int] == before.cases@[prev[j] as int]);
                        assert(!before.free().contains(prev[j]));
                        assert(!self.free().contains(prev[j])) by {
                            if self.free().contains(prev[j]) {
                                assert(before.free().contains(prev[j]));
                            }
                        }
                    }
                }
                assert forall|i: usize|
                    i < base.cases@.len() && !ids@.contains(i) implies {
                    &&& #[trigger] self.cases@[i as int] == base.cases@[i as int]
                    &&& self.complete@[i as int] == base.complete@[i as int]
                    &&& self.parent@[i as int] == base.parent@[i as int]
                    &&& self.children@[i as int] == base.children@[i as int]
                    &&& self.in_use@[i as int] == base.in_use@[i as int]
                    &&& self.depth@[i as int] == base.depth@[i as int]
                } by {
                    assert(!prev.contains(i as usize)) by {
                        if prev.contains(i as usize) {
                            let j = choose|j: int| 0 <= j < prev.len() && prev[j] == i;
                            assert(ids@[j] == i);
                        }
                    }
                    assert(i != id) by {
                        if i == id {
                            assert(ids@[ids@.len() - 1] == id);
                        }
                    }
                    assert(before.cases@[i as int] == base.cases@[i as int]);
                    assert(self.cases@[i as int] == before.cases@[i as int]);
                }
                assert forall|i: usize|
                    base.cases@.len() <= i && i < self.cases@.len() implies #[trigger] ids@.contains(i) by {
                    if i < before.cases@.len() {
                        assert(prev.contains(i as usize));
                        let j = choose|j: int| 0 <= j < prev.len() && prev[j] == i;
                        assert(ids@[j] == i);
                    } else {
                        assert(ids@[ids@.len() - 1] == i);
                    }
                }
                let last = ids@.len() - 1;
                assert(ids@[last] == id);
                if prev_open is None {
                    if first_open is Some {
                        assert(!subs[last].solved());
                        assert(forall|i: int| 0 <= i < last ==> subs[i].solved());
                    } else {
                        assert forall|j: int| 0 <= j < ids@.len() implies (#[trigger] subs[j]).solved() by {
                            if j < last {
                                assert(subs[j].solved());
                            }
                        }
                    }
                } else {
                    let c = prev_open.unwrap();
                    let j = choose|j: int|
                        0 <= j < prev.len() && prev[j] == c && !(#[trigger] subs[j]).solved() && (forall|i: int|
                            0 <= i < j ==> subs[i].solved());
                    assert(ids@[j] == c);
                }
            }
        }
        let ghost placed = *self;
        proof {
            let nn = subs.len();
            let f = base.free().len();
            assert(placed.cases@.len() == base.cases@.len() + if nn > f {
                (nn - f) as nat
            } else {
                0nat
            });
        }
        let mut k: usize = 0;
        while k < ids.len()
            invariant
                placed.alloc_ok(),
                self.cases == placed.cases,
                self.complete == placed.complete,
                self.parent == placed.parent,
                self.children == placed.children,
                self.depth == placed.depth,
                self.free_list == placed.free_list,
                self.current == placed.current,
                self.in_use@.len() == placed.in_use@.len(),
                k <= ids@.len(),
                forall|j: int| 0 <= j < ids@.len() ==> #[trigger] ids@[j] < placed.cases@.len(),
                forall|i: usize|
                    i < placed.cases@.len() ==> #[trigger] self.in_use@[i as int] == (placed.in_use@[i as int]
                        || ids@.take(k as int).contains(i)),
            decreases ids@.len() - k,
        {
            let v = ids[k];
            self.in_use.set(v, true);
            k = k + 1;
            proof {
                assert(ids@.take(k as int) == ids@.take(k - 1).push(v));
                assert forall|i: usize|
                    i < placed.cases@.len() implies #[trigger] self.in_use@[i as int] == (placed.in_use@[i as int]
                        || ids@.take(k as int).contains(i)) by {
                    if i == v {
                        assert(ids@.take(k as int)[k - 1] == v);
                    } else if ids@.take(k as int).contains(i as usize) {
                        let a = choose|a: int| 0 <= a < k && ids@.take(k as int)[a] == i;
                        assert(ids@.take(k - 1)[a] == i);
                    }
                }
            }
        }
        let ghost id_seq = ids@;
        proof {
            assert(ids@.take(k as int) =~= ids@);
        }
        let list = small_from_vec(ids);
        self.children.set(cur, Some(list));
        proof {
            assert(self.kids(cur) == Some(id_seq));
            assert forall|i: usize|
                i < self.cases@.len() implies #[trigger] self.in_use@[i as int] == (base.live(i)
                    || id_seq.contains(i)) by {
                if i < base.cases@.len() && !id_seq.contains(i as usize) {
                    assert(placed.cases@[i as int] == base.cases@[i as int]);
                    assert(placed.in_use@[i as int] == base.in_use@[i as int]);
                }
                if i >= base.cases@.len() {
                    assert(id_seq.contains(i as usize));
                }
                if id_seq.contains(i as usize) {
                    let j = choose|j: int| 0 <= j < id_seq.len() && id_seq[j] == i;
                    assert(!placed.in_use@[id_seq[j] as int]);
                }
            }
            assert forall|i: usize|
                i < base.cases@.len() && !id_seq.contains(i) implies {
                &&& #[trigger] self.cases@[i as int] == base.cases@[i as int]
                &&& self.complete@[i as int] == base.complete@[i as int]
                &&& self.parent@[i as int] == base.parent@[i as int]
                &&& (i != cur ==> self.children@[i as int] == base.children@[i as int])
                &&& self.depth@[i as int] == base.depth@[i as int]
            } by {
                assert(placed.cases@[i as int] == base.cases@[i as int]);
            }
            assert forall|k: int| 0 <= k < self.free().len() implies #[trigger] self.free()[k]
                < self.cases@.len() && !self.live(self.free()[k]) by {
                let v = self.free()[k];
                assert(placed.free()[k] == v);
                assert(self.free().contains(v));
                assert(base.free().contains(v));
                let a = choose|a: int| 0 <= a < base.free().len() && base.free()[a] == v;
                assert(!base.live(base.free()[a]));
                if id_seq.contains(v) {
                    let j = choose|j: int| 0 <= j < id_seq.len() && id_seq[j] == v;
                    assert(!placed.free().contains(id_seq[j]));
                }
            }
            assert(self.live(self.current.0)) by {
                assert(!id_seq.contains(cur)) by {
                    if id_seq.contains(cur) {
                        let j = choose|j: int| 0 <= j < id_seq.len() && id_seq[j] == cur;
                    }
                }
            }
            assert(self.alloc_ok());
            assert(self.cases@.len() >= base.cases@.len());
            assert(id_seq.no_duplicates());
            assert(self.live(self.current.0));
            assert(CaseTree::split_state(base, *self, cur, id_seq));
            CaseTree::lemma_split_shape(base, *self, cur, id_seq);
            CaseTree::lemma_split_nodes(base, *self, cur, id_seq);
            CaseTree::lemma_split_flags(base, *self, cur, id_seq);
        }
        let ghost linked = *self;
        match first_open {
            Some(c) => {
                self.current = CaseId(c);
                proof {
                    let j = choose|j: int|
                        0 <= j < id_seq.len() && id_seq[j] == c && !(#[trigger] subs[j]).solved() && (forall|i: int|
                            0 <= i < j ==> subs[i].solved());
                    assert(linked.complete@[c as int] == false);
                    CaseTree::lemma_keep_nodes(linked, *self, None);
                    CaseTree::lemma_keep_solved(linked, *self, None);
                    reveal(CaseTree::branches_ok_but);
                    assert forall|i: usize|
                        #![trigger self.in_use@[i as int]]
                        i < self.cases@.len() && self.in_use@[i as int] && None::<usize> != Some(i) implies self.branch_ok(
                        i,
                    ) by {
                        if i != cur {
                            assert(Some(cur) != Some(i));
                            assert(linked.branch_ok(i));
                        } else {
                            assert(!self.complete_at(id_seq[j]));
                        }
                    }
                    assert(self.live(c)) by {
                        assert(id_seq.contains(c));
                    }
                }
            },
            None => {
                proof {
                    reveal(CaseTree::solved_ok_but);
                }
                self.mark_complete(cur);
            },
        }
        proof {
            let t0 = *old(self);
            assert forall|i: usize|
                i < t0.slots() && t0.live(i) && i != cur && !t0.cut_below(i, cur) implies {
                    &&& #[trigger] self.case_at(i) == t0.case_at(i)
                    &&& self.parent_of(i) == t0.parent_of(i)
                    &&& self.kids(i) == t0.kids(i)
                    &&& self.live(i)
                } by {
                assert(base.live(i));
                CaseTree::lemma_split_old(base, linked, cur, id_seq, i);
                assert(base.case_at(i) == t0.case_at(i));
                assert(base.parent_of(i) == t0.parent_of(i));
                assert(base.kids(i) == t0.kids(i));
            }
            if leaf {
                assert forall|i: usize| i < t0.slots() && t0.live(i) && i != cur implies {
                    &&& (t0.complete_at(i) ==> #[trigger] self.complete_at(i))
                    &&& (self.complete_at(i) && !t0.complete_at(i) ==> {
                        &&& self.below(cur, i)
                        &&& self.kids(i) is Some
                        &&& forall|k: int|
                            0 <= k < self.kids(i).unwrap().len() ==> self.complete_at(#[trigger] self.kids(i).unwrap()[k])
                    })
                } by {
                    CaseTree::lemma_split_old(base, linked, cur, id_seq, i);
                    assert(linked.complete_at(i) == t0.complete_at(i));
                }
            }
        }
    }
}

} // verus!
