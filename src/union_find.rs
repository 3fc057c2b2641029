//! Disjoint sets over `usize` identifiers, with path compression, union by
//! rank, a cyclic successor list per class for enumeration, and the least
//! member of each class.
use vstd::prelude::*;
use vstd::set_lib::{lemma_len_subset, range_set_properties};

verus! {

/// Union-find over identifiers `0..`. Identifiers never touched behave as
/// singleton classes; `merge` registers them on first use.
pub struct UnionFind {
    parent: Vec<usize>,
    rank: Vec<usize>,
    next: Vec<usize>,
    least: Vec<usize>,
    /// The root of each registered identifier.
    roots: Ghost<Seq<usize>>,
    /// For each root, the members of its class in successor order, root first.
    cycles: Ghost<Map<usize, Seq<usize>>>,
}

/// The cycle of `a` followed by the cycle of `b`, as `merge` links them when
/// the root of `a` stays root.
pub open spec fn spliced(a: Seq<usize>, b: Seq<usize>) -> Seq<usize> {
    seq![a[0]] + b.drop_first() + seq![b[0]] + a.drop_first()
}

/// Is `c` a cycle of the successor function `next`, with members below `n`?
pub open spec fn is_cycle(c: Seq<usize>, next: Seq<usize>, n: nat) -> bool {
    &&& c.len() >= 1
    &&& c.no_duplicates()
    &&& forall|k: int| 0 <= k < c.len() ==> #[trigger] c[k] < n
    &&& forall|k: int| 0 <= k < c.len() - 1 ==> next[#[trigger] c[k] as int] == c[k + 1]
    &&& next[c[c.len() - 1] as int] == c[0]
}

proof fn lemma_cycle_len_bounded(c: Seq<usize>, n: usize)
    requires
        c.no_duplicates(),
        forall|k: int| 0 <= k < c.len() ==> #[trigger] c[k] < n,
    ensures
        c.len() <= n,
{
    broadcast use range_set_properties;

    c.unique_seq_to_set();
    let full = Set::<usize>::range(0, n);
    assert(c.to_set().subset_of(full)) by {
        assert forall|x: usize| c.to_set().contains(x) implies full.contains(x) by {
            let k = choose|k: int| 0 <= k < c.len() && c[k] == x;
        }
    }
    lemma_len_subset(c.to_set(), full);
}

/// Two distinct classes together have no more members than are registered.
proof fn lemma_disjoint_cycles_fit(uf: UnionFind, r1: usize, r2: usize)
    requires
        uf.wf(),
        r1 < uf.len(),
        r2 < uf.len(),
        r1 != r2,
        uf.roots@[r1 as int] == r1,
        uf.roots@[r2 as int] == r2,
    ensures
        uf.cycles@[r1].len() + uf.cycles@[r2].len() <= uf.len(),
{
    uf.lemma_cycle_at(r1 as int);
    uf.lemma_cycle_at(r2 as int);
    let c1 = uf.cycles@[r1];
    let c2 = uf.cycles@[r2];
    let both = c1 + c2;
    assert forall|i: int, j: int|
        0 <= i < both.len() && 0 <= j < both.len() && i != j implies both[i] != both[j] by {
        if i < c1.len() && j >= c1.len() {
            assert(uf.roots@[c1[i] as int] == r1);
            assert(uf.roots@[c2[j - c1.len()] as int] == r2);
        }
        if j < c1.len() && i >= c1.len() {
            assert(uf.roots@[c1[j] as int] == r1);
            assert(uf.roots@[c2[i - c1.len()] as int] == r2);
        }
    }
    assert forall|k: int| 0 <= k < both.len() implies #[trigger] both[k] < uf.roots@.len() by {
        if k < c1.len() {
            assert(c1[k] < uf.len());
        } else {
            assert(c2[k - c1.len()] < uf.len());
        }
    }
    lemma_cycle_len_bounded(both, uf.roots@.len() as usize);
}

/// `new` is `mid` after `merge` hung root `lo` under root `hi` and spliced
/// their cycles.
spec fn linked(mid: UnionFind, new: UnionFind, hi: usize, lo: usize) -> bool {
    &&& mid.wf()
    &&& hi < mid.len()
    &&& lo < mid.len()
    &&& hi != lo
    &&& mid.roots@[hi as int] == hi
    &&& mid.roots@[lo as int] == lo
    &&& mid.rank@[lo as int] <= mid.rank@[hi as int]
    &&& new.roots@.len() == mid.roots@.len()
    &&& forall|i: int|
        0 <= i < mid.roots@.len() ==> #[trigger] new.roots@[i] == if mid.roots@[i] == lo {
            hi
        } else {
            mid.roots@[i]
        }
    &&& new.cycles@ == mid.cycles@.insert(hi, spliced(mid.cycles@[hi], mid.cycles@[lo]))
    &&& new.parent@ == mid.parent@.update(lo as int, hi)
    &&& new.next@ == mid.next@.update(lo as int, mid.next@[hi as int]).update(
        hi as int,
        mid.next@[lo as int],
    )
    &&& new.rank@ == if mid.rank@[lo as int] == mid.rank@[hi as int] {
        mid.rank@.update(hi as int, (mid.rank@[hi as int] + 1) as usize)
    } else {
        mid.rank@
    }
    &&& new.least@ == mid.least@.update(
        hi as int,
        if mid.least@[hi as int] <= mid.least@[lo as int] {
            mid.least@[hi as int]
        } else {
            mid.least@[lo as int]
        },
    )
}

#[verifier::spinoff_prover]
proof fn lemma_link_tree(mid: UnionFind, new: UnionFind, hi: usize, lo: usize)
    requires
        linked(mid, new, hi, lo),
    ensures
        new.tree_ok(),
{
    lemma_disjoint_cycles_fit(mid, hi, lo);
    mid.lemma_cycle_at(hi as int);
    reveal(UnionFind::tree_ok);
    assert forall|i: int| 0 <= i < new.roots@.len() implies #[trigger] new.tree_facts(i) by {
        mid.lemma_tree_at(i);
        mid.lemma_tree_at(mid.roots@[i] as int);
        mid.lemma_tree_at(mid.parent@[i] as int);
        mid.lemma_tree_at(hi as int);
        let n = new.roots@.len();
        let roots = new.roots@;
        assert(roots[i] < n);
        assert(new.parent@[i] < n);
        assert(roots[roots[i] as int] == roots[i]);
        assert(new.parent@[roots[i] as int] == roots[i]);
        assert(roots[new.parent@[i] as int] == roots[i]);
        assert(new.parent@[i] == i ==> roots[i] == i);
        assert(new.parent@[i] != i ==> new.rank@[i] < new.rank@[new.parent@[i] as int]);
        assert(roots[i] != i ==> new.rank@[i] < new.rank@[roots[i] as int]);
    }
}

/// The spliced sequence is a cycle of the new successor function.
#[verifier::spinoff_prover]
proof fn lemma_link_cycle(mid: UnionFind, new: UnionFind, hi: usize, lo: usize)
    requires
        linked(mid, new, hi, lo),
    ensures
        is_cycle(spliced(mid.cycles@[hi], mid.cycles@[lo]), new.next@, mid.len()),
        forall|k: int|
            0 <= k < spliced(mid.cycles@[hi], mid.cycles@[lo]).len() ==> {
                let v = #[trigger] spliced(mid.cycles@[hi], mid.cycles@[lo])[k];
                mid.roots@[v as int] == hi || mid.roots@[v as int] == lo
            },
{
    let n = mid.len();
    let ch = mid.cycles@[hi];
    let cl = mid.cycles@[lo];
    let c = spliced(ch, cl);
    mid.lemma_cycle_at(hi as int);
    mid.lemma_cycle_at(lo as int);
    let lh = ch.len() as int;
    let ll = cl.len() as int;
    assert(c.len() == lh + ll);
    assert forall|k: int| 0 <= k < c.len() implies #[trigger] c[k] == if k == 0 {
        hi
    } else if k < ll {
        cl[k]
    } else if k == ll {
        lo
    } else {
        ch[k - ll]
    } by {}
    assert forall|k: int| 0 <= k < c.len() implies {
        &&& #[trigger] c[k] < n
        &&& mid.roots@[c[k] as int] == hi || mid.roots@[c[k] as int] == lo
        &&& mid.roots@[c[k] as int] == hi ==> c[k] == ch[if k == 0 { 0 } else { k - ll }]
        &&& mid.roots@[c[k] as int] == lo ==> c[k] == cl[if k == ll { 0 } else { k }]
    } by {
        if 0 < k < ll {
            assert(mid.roots@[cl[k] as int] == lo);
        } else if k > ll {
            assert(mid.roots@[ch[k - ll] as int] == hi);
        }
    }
    assert(c.no_duplicates()) by {
        assert forall|i: int, j: int|
            0 <= i < c.len() && 0 <= j < c.len() && i != j implies c[i] != c[j] by {
            if mid.roots@[c[i] as int] == hi && mid.roots@[c[j] as int] == hi {
            } else if mid.roots@[c[i] as int] == lo && mid.roots@[c[j] as int] == lo {
            }
        }
    }
    assert forall|k: int| 0 <= k < c.len() - 1 implies new.next@[#[trigger] c[k] as int] == c[k
        + 1] by {
        if k == 0 {
            if ll == 1 {
                assert(mid.next@[cl[0] as int] == cl[0]);
            } else {
                assert(mid.next@[cl[0] as int] == cl[1]);
            }
        } else if k < ll {
            assert(mid.roots@[cl[k] as int] == lo);
            assert(cl[k] != lo) by {
                assert(cl[0] == lo);
            }
            if k < ll - 1 {
                assert(mid.next@[cl[k] as int] == cl[k + 1]);
            } else {
                assert(mid.next@[cl[k] as int] == cl[0]);
            }
        } else if k == ll {
            if lh == 1 {
                assert(mid.next@[ch[0] as int] == ch[0]);
            } else {
                assert(mid.next@[ch[0] as int] == ch[1]);
            }
        } else {
            assert(mid.roots@[ch[k - ll] as int] == hi);
            assert(ch[k - ll] != hi) by {
                assert(ch[0] == hi);
            }
        }
    }
    assert(new.next@[c[c.len() - 1] as int] == c[0]) by {
        if lh == 1 {
            assert(mid.next@[ch[0] as int] == ch[0]);
        } else {
            assert(ch[lh - 1] != hi) by {
                assert(ch[0] == hi);
            }
            assert(mid.roots@[ch[lh - 1] as int] == hi);
        }
    }
}

/// Where the entries of a spliced cycle come from.
proof fn lemma_spliced(ch: Seq<usize>, cl: Seq<usize>)
    requires
        ch.len() >= 1,
        cl.len() >= 1,
    ensures
        spliced(ch, cl).len() == ch.len() + cl.len(),
        forall|k: int|
            0 <= k < spliced(ch, cl).len() ==> #[trigger] spliced(ch, cl)[k] == if k == 0 {
                ch[0]
            } else if k < cl.len() {
                cl[k]
            } else if k == cl.len() {
                cl[0]
            } else {
                ch[k - cl.len()]
            },
        forall|v: usize| #[trigger] spliced(ch, cl).contains(v) <==> (ch.contains(v) || cl.contains(v)),
{
    let c = spliced(ch, cl);
    let ll = cl.len() as int;
    assert forall|v: usize| #[trigger] c.contains(v) <==> (ch.contains(v) || cl.contains(v)) by {
        if c.contains(v) {
            let k = choose|k: int| 0 <= k < c.len() && c[k] == v;
            if k == 0 {
                assert(ch[0] == v);
            } else if k < ll {
                assert(cl[k] == v);
            } else if k == ll {
                assert(cl[0] == v);
            } else {
                assert(ch[k - ll] == v);
            }
        }
        if ch.contains(v) {
            let m = choose|m: int| 0 <= m < ch.len() && ch[m] == v;
            if m == 0 {
                assert(c[0] == v);
            } else {
                assert(c[m + ll] == v);
            }
        }
        if cl.contains(v) {
            let m = choose|m: int| 0 <= m < cl.len() && cl[m] == v;
            if m == 0 {
                assert(c[ll] == v);
            } else {
                assert(c[m] == v);
            }
        }
    }
}

#[verifier::spinoff_prover]
proof fn lemma_link_hi(mid: UnionFind, new: UnionFind, hi: usize, lo: usize)
    requires
        linked(mid, new, hi, lo),
    ensures
        new.cycle_facts(hi as int),
{
    let n = mid.len();
    let ch = mid.cycles@[hi];
    let cl = mid.cycles@[lo];
    let c = spliced(ch, cl);
    lemma_disjoint_cycles_fit(mid, hi, lo);
    mid.lemma_cycle_at(hi as int);
    mid.lemma_cycle_at(lo as int);
    lemma_link_cycle(mid, new, hi, lo);
    lemma_spliced(ch, cl);
    let ll = cl.len() as int;
    assert(new.cycles@[hi] == c);
    let lm = new.least@[hi as int];
    assert(c.contains(lm)) by {
        if mid.least@[hi as int] <= mid.least@[lo as int] {
            assert(ch.contains(lm));
        } else {
            assert(cl.contains(lm));
        }
    }
    assert forall|k: int| 0 <= k < c.len() implies lm <= #[trigger] c[k] by {
        if k == 0 {
            assert(mid.least@[hi as int] <= ch[0]);
        } else if k < ll {
            assert(mid.least@[lo as int] <= cl[k]);
        } else if k == ll {
            assert(mid.least@[lo as int] <= cl[0]);
        } else {
            assert(mid.least@[hi as int] <= ch[k - ll]);
        }
    }
    assert forall|i: int| 0 <= i < n && #[trigger] new.roots@[i] == hi implies c.contains(
        i as usize,
    ) by {
        if mid.roots@[i] == hi {
            assert(ch.contains(i as usize));
        } else {
            assert(cl.contains(i as usize));
        }
    }
}

#[verifier::spinoff_prover]
proof fn lemma_link_other(mid: UnionFind, new: UnionFind, hi: usize, lo: usize, r: int)
    requires
        linked(mid, new, hi, lo),
        0 <= r < mid.len(),
        new.roots@[r] == r,
        r != hi,
    ensures
        new.cycle_facts(r),
{
    let n = mid.len();
    assert(mid.roots@[r] == r);
    mid.lemma_cycle_at(r);
    let cr = mid.cycles@[r as usize];
    assert(new.cycles@[r as usize] == cr);
    assert forall|k: int| 0 <= k < cr.len() implies #[trigger] cr[k] != hi && cr[k] != lo by {
        assert(mid.roots@[cr[k] as int] == r);
    }
    assert forall|k: int| 0 <= k < cr.len() - 1 implies new.next@[#[trigger] cr[k] as int] == cr[k
        + 1] by {
        assert(cr[k] != hi && cr[k] != lo);
    }
    assert(cr[cr.len() - 1] != hi && cr[cr.len() - 1] != lo);
    assert forall|k: int| 0 <= k < cr.len() implies new.roots@[#[trigger] cr[k] as int] == r by {
        assert(mid.roots@[cr[k] as int] == r);
        assert(cr[k] < n);
    }
    assert forall|i: int| 0 <= i < n && #[trigger] new.roots@[i] == r implies cr.contains(
        i as usize,
    ) by {
        assert(mid.roots@[i] == r);
    }
}

/// The structure after `merge` hung root `lo` under root `hi` and spliced
/// their cycles is well formed, with the class of `lo` folded into `hi`.
proof fn lemma_link(mid: UnionFind, new: UnionFind, hi: usize, lo: usize)
    requires
        linked(mid, new, hi, lo),
    ensures
        new.wf(),
        new.len() == mid.len(),
        forall|x: usize|
            #[trigger] new.root(x) == if mid.root(x) == lo {
                hi
            } else {
                mid.root(x)
            },
{
    lemma_link_tree(mid, new, hi, lo);
    assert(new.cycles_ok()) by {
        reveal(UnionFind::cycles_ok);
        assert forall|r: int|
            0 <= r < new.roots@.len() && #[trigger] new.roots@[r] == r implies new.cycle_facts(r) by {
            if r == hi {
                lemma_link_hi(mid, new, hi, lo);
            } else {
                lemma_link_other(mid, new, hi, lo, r);
            }
        }
    }
}

/// `c` read from position `k` on, wrapping round.
pub open spec fn rotated(c: Seq<usize>, k: int) -> Seq<usize> {
    c.subrange(k, c.len() as int) + c.subrange(0, k)
}

proof fn lemma_rotation(c: Seq<usize>, k: int, next: Seq<usize>, n: nat)
    requires
        is_cycle(c, next, n),
        0 <= k < c.len(),
    ensures
        rotated(c, k).len() == c.len(),
        rotated(c, k)[0] == c[k],
        is_cycle(rotated(c, k), next, n),
        forall|y: usize| rotated(c, k).contains(y) <==> c.contains(y),
{
    let rot = rotated(c, k);
    let l = c.len() as int;
    assert forall|j: int| 0 <= j < l implies #[trigger] rot[j] == c[if j < l - k {
        k + j
    } else {
        j - (l - k)
    }] by {}
    assert forall|i: int, j: int| 0 <= i < l && 0 <= j < l && i != j implies rot[i] != rot[j] by {
        assert(rot[i] == c[if i < l - k { k + i } else { i - (l - k) }]);
        assert(rot[j] == c[if j < l - k { k + j } else { j - (l - k) }]);
    }
    assert forall|j: int| 0 <= j < l implies #[trigger] rot[j] < n by {
        assert(rot[j] == c[if j < l - k { k + j } else { j - (l - k) }]);
    }
    assert forall|j: int| 0 <= j < l - 1 implies next[#[trigger] rot[j] as int] == rot[j + 1] by {
        assert(rot[j] == c[if j < l - k { k + j } else { j - (l - k) }]);
        assert(rot[j + 1] == c[if j + 1 < l - k { k + j + 1 } else { j + 1 - (l - k) }]);
    }
    assert(next[rot[l - 1] as int] == rot[0]) by {
        assert(rot[l - 1] == c[if l - 1 < l - k { k + l - 1 } else { l - 1 - (l - k) }]);
    }
    assert forall|y: usize| rot.contains(y) <==> c.contains(y) by {
        if c.contains(y) {
            let m = choose|m: int| 0 <= m < l && c[m] == y;
            if m >= k {
                assert(rot[m - k] == y);
            } else {
                assert(rot[l - k + m] == y);
            }
        }
        if rot.contains(y) {
            let m = choose|m: int| 0 <= m < l && rot[m] == y;
            assert(rot[m] == c[if m < l - k { k + m } else { m - (l - k) }]);
        }
    }
}

impl UnionFind {
    /// Number of registered identifiers.
    pub closed spec fn len(&self) -> nat {
        self.roots@.len()
    }

    /// The canonical representative of `x`.
    pub closed spec fn root(&self, x: usize) -> usize {
        if x < self.roots@.len() {
            self.roots@[x as int]
        } else {
            x
        }
    }

    /// `a` and `b` are in the same class.
    pub open spec fn equiv(&self, a: usize, b: usize) -> bool {
        self.root(a) == self.root(b)
    }

    /// The members of the class of `x`.
    pub open spec fn class(&self, x: usize) -> Set<usize> {
        Set::new(|y: usize| self.equiv(x, y))
    }

    /// What holds of registered identifier `i` in the parent forest.
    spec fn tree_facts(&self, i: int) -> bool {
        let n = self.roots@.len();
        let roots = self.roots@;
        &&& roots[i] < n
        &&& self.parent@[i] < n
        &&& roots[roots[i] as int] == roots[i]
        &&& self.parent@[roots[i] as int] == roots[i]
        &&& roots[self.parent@[i] as int] == roots[i]
        &&& (self.parent@[i] == i ==> roots[i] == i)
        &&& (self.parent@[i] != i ==> self.rank@[i] < self.rank@[self.parent@[i] as int])
        &&& (roots[i] != i ==> self.rank@[i] < self.rank@[roots[i] as int])
    }

    /// What holds of the class of root `r`.
    spec fn cycle_facts(&self, r: int) -> bool {
        let n = self.roots@.len();
        let c = self.cycles@[r as usize];
        &&& self.cycles@.contains_key(r as usize)
        &&& is_cycle(c, self.next@, n)
        &&& c[0] == r
        &&& self.rank@[r] < c.len()
        &&& c.contains(self.least@[r])
        &&& forall|k: int| 0 <= k < c.len() ==> self.least@[r] <= #[trigger] c[k]
        &&& forall|k: int| 0 <= k < c.len() ==> self.roots@[#[trigger] c[k] as int] == r
        &&& forall|i: int| 0 <= i < n && #[trigger] self.roots@[i] == r ==> c.contains(i as usize)
    }

    #[verifier::opaque]
    spec fn tree_ok(&self) -> bool {
        forall|i: int| 0 <= i < self.roots@.len() ==> #[trigger] self.tree_facts(i)
    }

    #[verifier::opaque]
    spec fn cycles_ok(&self) -> bool {
        forall|r: int|
            0 <= r < self.roots@.len() && #[trigger] self.roots@[r] == r ==> self.cycle_facts(r)
    }

    /// The classes of `self` are those of `o` with the classes of `a` and
    /// `b` joined.
    pub open spec fn merged_from(&self, o: &UnionFind, a: usize, b: usize) -> bool {
        forall|x: usize, y: usize|
            #[trigger] self.equiv(x, y) <==> (o.equiv(x, y) || (o.equiv(x, a) && o.equiv(y, b)) || (
            o.equiv(x, b) && o.equiv(y, a)))
    }

    /// Every identifier is alone in its class.
    pub open spec fn all_apart(&self) -> bool {
        forall|x: usize, y: usize| #[trigger] self.equiv(x, y) <==> x == y
    }

    pub closed spec fn wf(&self) -> bool {
        let n = self.roots@.len();
        &&& n <= usize::MAX
        &&& self.parent@.len() == n
        &&& self.rank@.len() == n
        &&& self.next@.len() == n
        &&& self.least@.len() == n
        &&& self.tree_ok()
        &&& self.cycles_ok()
    }

    proof fn lemma_tree_at(&self, i: int)
        requires
            self.wf(),
            0 <= i < self.len(),
        ensures
            self.tree_facts(i),
    {
        reveal(UnionFind::tree_ok);
    }

    proof fn lemma_cycle_at(&self, r: int)
        requires
            self.wf(),
            0 <= r < self.len(),
            self.roots@[r] == r,
        ensures
            self.cycle_facts(r),
    {
        reveal(UnionFind::cycles_ok);
    }

    pub fn new() -> (r: Self)
        ensures
            r.wf(),
            r.len() == 0,
            r.all_apart(),
    {
        let r = UnionFind {
            parent: Vec::new(),
            rank: Vec::new(),
            next: Vec::new(),
            least: Vec::new(),
            roots: Ghost(Seq::empty()),
            cycles: Ghost(Map::empty()),
        };
        proof {
            reveal(UnionFind::tree_ok);
            reveal(UnionFind::cycles_ok);
        }
        r
    }

    pub proof fn lemma_equiv_bounds(&self, x: usize, y: usize)
        requires
            self.wf(),
            self.equiv(x, y),
        ensures
            x < self.len() <==> y < self.len(),
            x >= self.len() ==> x == y,
    {
        if x < self.len() {
            self.lemma_tree_at(x as int);
        }
        if y < self.len() {
            self.lemma_tree_at(y as int);
        }
    }

    pub proof fn lemma_root_facts(&self, x: usize)
        requires
            self.wf(),
        ensures
            self.root(self.root(x)) == self.root(x),
            x < self.len() ==> self.root(x) < self.len(),
            x >= self.len() ==> self.root(x) == x,
    {
        if x < self.len() {
            self.lemma_tree_at(x as int);
        }
    }

    /// The registered members of the class of `x` form the cycle of its root.
    proof fn lemma_class_is_cycle(&self, x: usize)
        requires
            self.wf(),
            x < self.len(),
        ensures
            self.root(x) < self.len(),
            self.roots@[self.root(x) as int] == self.root(x),
            self.cycle_facts(self.root(x) as int),
            forall|y: usize| #[trigger] self.equiv(x, y) <==> self.cycles@[self.root(x)].contains(y),
    {
        self.lemma_tree_at(x as int);
        let r = self.roots@[x as int];
        let c = self.cycles@[r];
        self.lemma_cycle_at(r as int);
        assert forall|y: usize| #[trigger] self.equiv(x, y) <==> c.contains(y) by {
            if c.contains(y) {
                let k = choose|k: int| 0 <= k < c.len() && c[k] == y;
                assert(self.roots@[c[k] as int] == r);
            }
            if self.equiv(x, y) && y < self.len() {
                assert(self.roots@[y as int] == r);
            }
        }
    }

    proof fn lemma_cycles_ok_same(a: UnionFind, b: UnionFind)
        requires
            a.cycles_ok(),
            a.roots == b.roots,
            a.cycles == b.cycles,
            a.next == b.next,
            a.rank == b.rank,
            a.least == b.least,
        ensures
            b.cycles_ok(),
    {
        reveal(UnionFind::cycles_ok);
        assert forall|r: int|
            0 <= r < b.roots@.len() && #[trigger] b.roots@[r] == r implies b.cycle_facts(r) by {
            assert(a.cycle_facts(r));
        }
    }

    /// Registers identifier `len()` as a class of its own.
    #[verifier::spinoff_prover]
    pub fn push_singleton(&mut self)
        requires
            old(self).wf(),
            old(self).len() < usize::MAX,
        ensures
            final(self).wf(),
            final(self).len() == old(self).len() + 1,
            forall|a: usize| #[trigger] final(self).root(a) == old(self).root(a),
    {
        let ghost before = *self;
        let n = self.parent.len();
        self.parent.push(n);
        self.rank.push(0);
        self.next.push(n);
        self.least.push(n);
        self.roots = Ghost(self.roots@.push(n));
        self.cycles = Ghost(self.cycles@.insert(n, seq![n]));
        proof {
            let nn = n as int;
            assert(self.tree_ok()) by {
                reveal(UnionFind::tree_ok);
                assert forall|i: int| 0 <= i < nn + 1 implies #[trigger] self.tree_facts(i) by {
                    if i < nn {
                        before.lemma_tree_at(i);
                    }
                }
            }
            assert(self.cycles_ok()) by {
                reveal(UnionFind::cycles_ok);
                assert forall|r: int|
                    0 <= r < nn + 1 && #[trigger] self.roots@[r] == r implies self.cycle_facts(r) by {
                    if r == nn {
                        let c = self.cycles@[r as usize];
                        assert(c == seq![n]);
                        assert forall|i: int|
                            0 <= i < nn + 1 && #[trigger] self.roots@[i] == r implies c.contains(
                            i as usize,
                        ) by {
                            if i < nn {
                                before.lemma_tree_at(i);
                            }
                            assert(c[0] == i);
                        }
                    } else {
                        before.lemma_cycle_at(r);
                        let c = before.cycles@[r as usize];
                        assert(self.cycles@[r as usize] == c);
                        assert forall|k: int| 0 <= k < c.len() - 1 implies self.next@[#[trigger] c[k] as int]
                            == c[k + 1] by {
                            assert(c[k] < nn);
                        }
                        assert(c[c.len() - 1] < nn);
                        assert forall|k: int| 0 <= k < c.len() implies self.roots@[#[trigger] c[k] as int]
                            == r by {
                            assert(c[k] < nn);
                        }
                        assert forall|i: int|
                            0 <= i < nn + 1 && #[trigger] self.roots@[i] == r implies c.contains(
                            i as usize,
                        ) by {
                            if i == nn {
                                assert(self.roots@[i] == nn);
                            } else {
                                assert(before.roots@[i] == r);
                            }
                        }
                    }
                }
            }
        }
    }

    /// The root of `x`, without changing the structure.
    pub fn canonical(&self, x: usize) -> (r: usize)
        requires
            self.wf(),
        ensures
            r == self.root(x),
    {
        if x >= self.parent.len() {
            return x;
        }
        let mut cur = x;
        proof {
            self.lemma_tree_at(x as int);
        }
        while self.parent[cur] != cur
            invariant
                self.wf(),
                cur < self.len(),
                x < self.len(),
                self.roots@[cur as int] == self.roots@[x as int],
                self.roots@[x as int] < self.len(),
            decreases self.rank@[self.roots@[x as int] as int] - self.rank@[cur as int],
        {
            proof {
                self.lemma_tree_at(cur as int);
                let p = self.parent@[cur as int];
                self.lemma_tree_at(p as int);
            }
            cur = self.parent[cur];
        }
        proof {
            self.lemma_tree_at(cur as int);
        }
        cur
    }

    /// Whether `a` and `b` are in the same class.
    pub fn eq(&self, a: usize, b: usize) -> (r: bool)
        requires
            self.wf(),
        ensures
            r == self.equiv(a, b),
    {
        self.canonical(a) == self.canonical(b)
    }

    /// Points every identifier on the path from `x` straight at `root`.
    fn compress(&mut self, x: usize, root: usize)
        requires
            old(self).wf(),
            x < old(self).len(),
            root == old(self).root(x),
        ensures
            final(self).wf(),
            final(self).roots == old(self).roots,
            final(self).cycles == old(self).cycles,
            final(self).rank == old(self).rank,
            final(self).next == old(self).next,
            final(self).least == old(self).least,
    {
        let mut cur = x;
        proof {
            self.lemma_tree_at(x as int);
        }
        while self.parent[cur] != cur
            invariant
                self.wf(),
                self.roots == old(self).roots,
                self.cycles == old(self).cycles,
                self.rank == old(self).rank,
                self.next == old(self).next,
                self.least == old(self).least,
                cur < self.len(),
                self.roots@[cur as int] == root,
                root < self.len(),
                self.roots@[root as int] == root,
            decreases self.rank@[root as int] - self.rank@[cur as int],
        {
            let ghost before = *self;
            proof {
                self.lemma_tree_at(cur as int);
            }
            let p = self.parent[cur];
            self.parent.set(cur, root);
            proof {
                before.lemma_tree_at(p as int);
                assert(self.tree_ok()) by {
                    reveal(UnionFind::tree_ok);
                    assert forall|i: int| 0 <= i < self.len() implies #[trigger] self.tree_facts(i) by {
                        before.lemma_tree_at(i);
                        before.lemma_tree_at(before.roots@[i] as int);
                    }
                }
                UnionFind::lemma_cycles_ok_same(before, *self);
            }
            cur = p;
        }
    }

    /// The root of `x` and its rank; compresses the path from `x`.
    fn find(&mut self, x: usize) -> (r: (usize, usize))
        requires
            old(self).wf(),
            x < old(self).len(),
        ensures
            final(self).wf(),
            final(self).roots == old(self).roots,
            final(self).cycles == old(self).cycles,
            final(self).rank == old(self).rank,
            final(self).next == old(self).next,
            final(self).least == old(self).least,
            r.0 == old(self).root(x),
            r.1 == old(self).rank@[r.0 as int],
    {
        let root = self.canonical(x);
        proof {
            self.lemma_root_facts(x);
        }
        self.compress(x, root);
        (root, self.rank[root])
    }

    /// Registers every identifier up to and including `x`.
    fn register(&mut self, x: usize)
        requires
            old(self).wf(),
            x < usize::MAX,
        ensures
            final(self).wf(),
            final(self).len() == if x < old(self).len() {
                old(self).len() as int
            } else {
                x + 1
            },
            forall|a: usize| #[trigger] final(self).root(a) == old(self).root(a),
    {
        while self.parent.len() <= x
            invariant
                self.wf(),
                x < usize::MAX,
                old(self).len() <= self.len(),
                x < old(self).len() ==> self.len() == old(self).len(),
                x >= old(self).len() ==> self.len() <= x + 1,
                forall|a: usize| #[trigger] self.root(a) == old(self).root(a),
            decreases x + 1 - self.len(),
        {
            self.push_singleton();
        }
    }

    /// Joins the classes of `a` and `b`.
    /// Hangs one of the roots `r1`, `r2` under the other and splices their
    /// cycles.
    #[verifier::spinoff_prover]
    fn link(&mut self, r1: usize, r2: usize)
        requires
            old(self).wf(),
            r1 < old(self).len(),
            r2 < old(self).len(),
            r1 != r2,
            old(self).root(r1) == r1,
            old(self).root(r2) == r2,
        ensures
            final(self).wf(),
            final(self).len() == old(self).len(),
            final(self).root(r1) == r1 || final(self).root(r1) == r2,
            forall|x: usize|
                #[trigger] final(self).root(x) == if old(self).root(x) == r1 || old(self).root(x)
                    == r2 {
                    final(self).root(r1)
                } else {
                    old(self).root(x)
                },
    {
        let ghost mid = *self;
        proof {
            self.lemma_cycle_at(r1 as int);
            lemma_disjoint_cycles_fit(*self, r1, r2);
        }
        let rank1 = self.rank[r1];
        let rank2 = self.rank[r2];
        // Splice the two successor cycles into one.
        let s1 = self.next[r1];
        let s2 = self.next[r2];
        self.next.set(r2, s1);
        self.next.set(r1, s2);
        let l1 = self.least[r1];
        let l2 = self.least[r2];
        let low = if l1 <= l2 {
            l1
        } else {
            l2
        };
        let ghost hi = if rank1 < rank2 {
            r2
        } else {
            r1
        };
        let ghost lo = if rank1 < rank2 {
            r1
        } else {
            r2
        };
        if rank1 < rank2 {
            self.parent.set(r1, r2);
            self.least.set(r2, low);
        } else {
            self.parent.set(r2, r1);
            if rank1 == rank2 {
                self.rank.set(r1, rank1 + 1);
            }
            self.least.set(r1, low);
        }
        self.roots = Ghost(
            Seq::new(
                mid.roots@.len(),
                |i: int|
                    if mid.roots@[i] == lo {
                        hi
                    } else {
                        mid.roots@[i]
                    },
            ),
        );
        self.cycles = Ghost(mid.cycles@.insert(hi, spliced(mid.cycles@[hi], mid.cycles@[lo])));
        proof {
            assert(self.next@ =~= mid.next@.update(lo as int, mid.next@[hi as int]).update(
                hi as int,
                mid.next@[lo as int],
            ));
            assert(self.parent@ =~= mid.parent@.update(lo as int, hi));
            assert(self.rank@ =~= if mid.rank@[lo as int] == mid.rank@[hi as int] {
                mid.rank@.update(hi as int, (mid.rank@[hi as int] + 1) as usize)
            } else {
                mid.rank@
            });
            assert(self.least@ =~= mid.least@.update(
                hi as int,
                if mid.least@[hi as int] <= mid.least@[lo as int] {
                    mid.least@[hi as int]
                } else {
                    mid.least@[lo as int]
                },
            ));
            assert(mid.wf());
            assert(hi < mid.len() && lo < mid.len());
            assert(mid.rank@[lo as int] <= mid.rank@[hi as int]);
            lemma_link(mid, *self, hi, lo);
            assert(self.root(r1) == hi);
            assert forall|x: usize|
                #[trigger] self.root(x) == if mid.root(x) == r1 || mid.root(x) == r2 {
                    self.root(r1)
                } else {
                    mid.root(x)
                } by {
                assert(self.root(x) == if mid.root(x) == lo {
                    hi
                } else {
                    mid.root(x)
                });
            }
        }
    }

    /// Joins the classes of `a` and `b`.
    #[verifier::spinoff_prover]
    pub fn merge(&mut self, a: usize, b: usize)
        requires
            old(self).wf(),
            a < usize::MAX,
            b < usize::MAX,
        ensures
            final(self).wf(),
            final(self).len() >= old(self).len(),
            final(self).len() >= a + 1,
            final(self).len() >= b + 1,
            a < old(self).len() && b < old(self).len() ==> final(self).len() == old(self).len(),
            final(self).merged_from(old(self), a, b),
            forall|x: usize|
                !old(self).equiv(x, a) && !old(self).equiv(x, b) ==> #[trigger] final(self).root(x)
                    == old(self).root(x),
            old(self).equiv(a, b) ==> forall|x: usize| #[trigger] final(self).root(x) == old(self).root(x),
    {
        self.register(a);
        self.register(b);
        let ghost reg = *self;
        let (r1, _) = self.find(a);
        let (r2, _) = self.find(b);
        let ghost mid = *self;
        proof {
            assert forall|x: usize| #[trigger] mid.root(x) == old(self).root(x) by {
                assert(reg.root(x) == old(self).root(x));
            }
            self.lemma_root_facts(a);
            self.lemma_root_facts(b);
        }
        if r1 == r2 {
            return;
        }
        self.link(r1, r2);
        proof {
            assert forall|x: usize, y: usize|
                #[trigger] self.equiv(x, y) <==> (old(self).equiv(x, y) || (old(self).equiv(
                    x,
                    a,
                ) && old(self).equiv(y, b)) || (old(self).equiv(x, b) && old(self).equiv(y, a))) by {
                assert(mid.root(x) == old(self).root(x));
                assert(mid.root(y) == old(self).root(y));
                assert(self.root(x) == if mid.root(x) == r1 || mid.root(x) == r2 {
                    self.root(r1)
                } else {
                    mid.root(x)
                });
                assert(self.root(y) == if mid.root(y) == r1 || mid.root(y) == r2 {
                    self.root(r1)
                } else {
                    mid.root(y)
                });
                self.lemma_root_facts(x);
                self.lemma_root_facts(y);
                mid.lemma_root_facts(x);
                mid.lemma_root_facts(y);
            }
            assert forall|x: usize|
                !old(self).equiv(x, a) && !old(self).equiv(x, b) implies #[trigger] self.root(x)
                    == old(self).root(x) by {
                assert(mid.root(x) == old(self).root(x));
            }
        }
    }

    /// The members of the class of `x`, each once, starting with `x`.
    #[verifier::spinoff_prover]
    pub fn iter_class(&self, x: usize) -> (r: Vec<usize>)
        requires
            self.wf(),
        ensures
            r@.len() >= 1,
            r@[0] == x,
            r@.no_duplicates(),
            forall|y: usize| #[trigger] r@.contains(y) <==> self.equiv(x, y),
            self.class(x).finite(),
            r@.len() == self.class(x).len(),
            x < self.len() ==> forall|k: int| 0 <= k < r@.len() ==> #[trigger] r@[k] < self.len(),
    {
        let mut out: Vec<usize> = Vec::new();
        out.push(x);
        if x >= self.next.len() {
            proof {
                assert forall|y: usize| #[trigger] out@.contains(y) <==> self.equiv(x, y) by {
                    assert(out@[0] == x);
                    if y < self.len() {
                        self.lemma_tree_at(y as int);
                    }
                    if out@.contains(y) {
                        assert(out@[0] == y);
                    }
                }
                lemma_seq_class_len(*self, x, out@);
            }
            return out;
        }
        let ghost c = self.cycles@[self.root(x)];
        let ghost k = c.index_of(x);
        let ghost rot = rotated(c, k);
        proof {
            self.lemma_class_is_cycle(x);
            lemma_rotation(c, k, self.next@, self.len());
        }
        let mut node = self.next[x];
        while node != x
            invariant
                self.wf(),
                x < self.len(),
                is_cycle(rot, self.next@, self.len()),
                rot[0] == x,
                1 <= out@.len() <= rot.len(),
                out@ == rot.take(out@.len() as int),
                node == if out@.len() < rot.len() {
                    rot[out@.len() as int]
                } else {
                    x
                },
            decreases rot.len() - out@.len(),
        {
            proof {
                if out@.len() == rot.len() {
                    assert(node == x);
                }
            }
            out.push(node);
            node = self.next[node];
            proof {
                assert(out@ =~= rot.take(out@.len() as int));
            }
        }
        proof {
            if out@.len() < rot.len() {
                assert(rot[out@.len() as int] == rot[0]);
            }
            assert(out@ =~= rot);
            assert forall|y: usize| #[trigger] out@.contains(y) <==> self.equiv(x, y) by {
                assert(rot.contains(y) <==> c.contains(y));
            }
            lemma_seq_class_len(*self, x, out@);
        }
        out
    }

    /// The least member of the class of `x`.
    pub fn smallest(&self, x: usize) -> (r: usize)
        requires
            self.wf(),
        ensures
            self.equiv(x, r),
            forall|y: usize| self.equiv(x, y) ==> r <= y,
    {
        let root = self.canonical(x);
        if x >= self.least.len() {
            proof {
                assert forall|y: usize| self.equiv(x, y) implies x <= y by {
                    if y < self.len() {
                        self.lemma_tree_at(y as int);
                    }
                }
            }
            return x;
        }
        proof {
            self.lemma_class_is_cycle(x);
        }
        let r = self.least[root];
        proof {
            let c = self.cycles@[root];
            assert(self.roots@[root as int] == root);
            assert forall|y: usize| self.equiv(x, y) implies r <= y by {
                assert(c.contains(y));
            }
        }
        r
    }
}


/// A listing of a class without repetition has as many entries as the class
/// has members.
proof fn lemma_seq_class_len(uf: UnionFind, x: usize, s: Seq<usize>)
    requires
        s.no_duplicates(),
        forall|y: usize| #[trigger] s.contains(y) <==> uf.equiv(x, y),
    ensures
        uf.class(x).finite(),
        s.len() == uf.class(x).len(),
{
    assert(s.to_set() =~= uf.class(x));
    s.unique_seq_to_set();
}

/// Whether `x` and `y` are joined by the merges `pairs`, made in order on a
/// structure where everything starts apart: the equivalence that those
/// pairs generate.
pub open spec fn linked_by(pairs: Seq<(usize, usize)>, x: usize, y: usize) -> bool
    decreases pairs.len(),
{
    if pairs.len() == 0 {
        x == y
    } else {
        let p = pairs.drop_last();
        let a = pairs.last().0;
        let b = pairs.last().1;
        linked_by(p, x, y) || (linked_by(p, x, a) && linked_by(p, y, b)) || (linked_by(p, x, b)
            && linked_by(p, y, a))
    }
}

/// Soundness of union-find: after any sequence of merges, two identifiers
/// are in one class exactly when the merges link them.
pub proof fn lemma_merges_link(states: Seq<UnionFind>, pairs: Seq<(usize, usize)>)
    requires
        states.len() == pairs.len() + 1,
        states[0].all_apart(),
        forall|i: int|
            0 <= i < pairs.len() ==> #[trigger] states[i + 1].merged_from(
                &states[i],
                pairs[i].0,
                pairs[i].1,
            ),
    ensures
        forall|x: usize, y: usize|
            #[trigger] states.last().equiv(x, y) == linked_by(pairs, x, y),
    decreases pairs.len(),
{
    if pairs.len() == 0 {
    } else {
        let n = pairs.len() - 1;
        let sp = states.drop_last();
        let pp = pairs.drop_last();
        assert forall|i: int| 0 <= i < pp.len() implies #[trigger] sp[i + 1].merged_from(
            &sp[i],
            pp[i].0,
            pp[i].1,
        ) by {
            assert(states[i + 1].merged_from(&states[i], pairs[i].0, pairs[i].1));
        }
        lemma_merges_link(sp, pp);
        assert(states[n + 1].merged_from(&states[n], pairs[n].0, pairs[n].1));
        assert forall|x: usize, y: usize| #[trigger] states.last().equiv(x, y) == linked_by(pairs, x, y) by {
            assert(sp.last() == states[n]);
            assert(sp.last().equiv(x, y) == linked_by(pp, x, y));
            assert(sp.last().equiv(x, pairs[n].0) == linked_by(pp, x, pairs[n].0));
            assert(sp.last().equiv(y, pairs[n].1) == linked_by(pp, y, pairs[n].1));
            assert(sp.last().equiv(x, pairs[n].1) == linked_by(pp, x, pairs[n].1));
            assert(sp.last().equiv(y, pairs[n].0) == linked_by(pp, y, pairs[n].0));
        }
    }
}

/// The representative of a representative is itself.
pub proof fn lemma_canonical_idempotent(uf: &UnionFind, x: usize)
    requires
        uf.wf(),
    ensures
        uf.root(uf.root(x)) == uf.root(x),
{
    uf.lemma_root_facts(x);
}

/// A copy of `v`.
pub fn copy_ids(v: &Vec<usize>) -> (r: Vec<usize>)
    ensures
        r@ == v@,
{
    let mut r: Vec<usize> = Vec::new();
    let mut k: usize = 0;
    while k < v.len()
        invariant
            k <= v@.len(),
            r@ == v@.take(k as int),
        decreases v@.len() - k,
    {
        r.push(v[k]);
        k = k + 1;
        assert(r@ =~= v@.take(k as int));
    }
    assert(v@.take(k as int) =~= v@);
    r
}

impl Clone for UnionFind {
    fn clone(&self) -> (r: UnionFind)
        ensures
            self.wf() ==> r.wf(),
            r.len() == self.len(),
            forall|x: usize| #[trigger] r.root(x) == self.root(x),
    {
        let r = UnionFind {
            parent: copy_ids(&self.parent),
            rank: copy_ids(&self.rank),
            next: copy_ids(&self.next),
            least: copy_ids(&self.least),
            roots: Ghost(self.roots@),
            cycles: Ghost(self.cycles@),
        };
        proof {
            if self.wf() {
                reveal(UnionFind::tree_ok);
                reveal(UnionFind::cycles_ok);
                assert forall|i: int| 0 <= i < r.roots@.len() implies #[trigger] r.tree_facts(i) by {
                    assert(self.tree_facts(i));
                }
                assert forall|q: int|
                    0 <= q < r.roots@.len() && #[trigger] r.roots@[q] == q implies r.cycle_facts(q) by {
                    assert(self.cycle_facts(q));
                }
            }
        }
        r
    }
}

} // verus!
