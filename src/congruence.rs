//! The e-graph of `egg` that recognises structurally identical expressions.
use vstd::prelude::*;
use egg::{EGraph, SymbolLang};

verus! {

/// An `egg` e-graph over plain symbols, with no analysis.
#[verifier::external_body]
pub struct Congruence {
    graph: EGraph<SymbolLang, ()>,
}

/// For each e-class id that the e-graph has handed out, the id that `find`
/// returns for it.
pub uninterp spec fn egraph_classes(g: Congruence) -> Map<usize, usize>;

/// The hash-cons table of the e-graph: each e-node it files, given by its
/// symbol and its children's ids, with the id it is filed under.
pub uninterp spec fn egraph_memo(g: Congruence) -> Map<(Seq<char>, Seq<usize>), usize>;

/// The children `ch` with each id replaced by its canonical id.
pub open spec fn canon(classes: Map<usize, usize>, ch: Seq<usize>) -> Seq<usize> {
    ch.map_values(|c: usize| classes[c])
}

/// The canonical id of an id is an id, and its own canonical id.
pub open spec fn classes_closed(c: Map<usize, usize>) -> bool {
    forall|x: usize| #[trigger] c.contains_key(x) ==> c.contains_key(c[x]) && c[c[x]] == c[x]
}

/// Every id in the table is an id the e-graph handed out.
pub open spec fn memo_ids(c: Map<usize, usize>, m: Map<(Seq<char>, Seq<usize>), usize>) -> bool {
    forall|k: (Seq<char>, Seq<usize>)| #[trigger] m.contains_key(k) ==> c.contains_key(m[k])
}

/// `b` keeps every equality between ids that `a` had, on the same ids.
pub open spec fn keeps_classes(a: Map<usize, usize>, b: Map<usize, usize>) -> bool {
    &&& b.dom() == a.dom()
    &&& forall|x: usize, y: usize|
        a.contains_key(x) && a.contains_key(y) && a[x] == a[y] ==> #[trigger] b[x] == #[trigger] b[y]
}

/// Relies on `EGraph::new`: an e-graph that has handed out no id.
#[verifier::external_body]
pub(crate) fn egraph_new() -> (r: Congruence)
    ensures
        egraph_classes(r).dom() == Set::<usize>::empty(),
        egraph_memo(r).dom() == Set::<(Seq<char>, Seq<usize>)>::empty(),
{
    Congruence { graph: EGraph::new(()) }
}

/// Relies on `EGraph::add`: files the node `tag:name(children)`, children
/// canonical, under a new id unless the table already holds it; unions
/// nothing, and returns the canonical id of its class.
#[verifier::external_body]
pub(crate) fn egraph_add(
    g: &mut Congruence,
    tag: &str,
    name: &str,
    children: Vec<usize>,
) -> (r: usize)
    requires
        egraph_classes(*old(g)).dom().finite(),
        egraph_classes(*old(g)).dom().len() < 4294967295,
        forall|i: int|
            0 <= i < children@.len() ==> egraph_classes(*old(g)).contains_key(#[trigger] children@[i]),
    ensures
        egraph_classes(*final(g)).dom() == egraph_classes(*old(g)).dom().insert(r),
        egraph_classes(*final(g))[r] == r,
        forall|x: usize|
            #[trigger] egraph_classes(*old(g)).contains_key(x) ==> egraph_classes(*final(g))[x]
                == egraph_classes(*old(g))[x],
        classes_closed(egraph_classes(*old(g))) ==> classes_closed(egraph_classes(*final(g))),
        memo_ids(egraph_classes(*old(g)), egraph_memo(*old(g))) ==> memo_ids(
            egraph_classes(*final(g)),
            egraph_memo(*final(g)),
        ),
        egraph_memo(*final(g)).contains_key((tag@ + ":"@ + name@, canon(egraph_classes(*old(g)), children@))),
        egraph_classes(*final(g))[egraph_memo(*final(g))[(tag@ + ":"@ + name@, canon(egraph_classes(*old(g)), children@))]] == r,
        forall|k: (Seq<char>, Seq<usize>)|
            #[trigger] egraph_memo(*old(g)).contains_key(k) ==> egraph_memo(*final(g)).contains_key(k)
                && egraph_memo(*final(g))[k] == egraph_memo(*old(g))[k],
{
    let op = format!("{tag}:{name}");
    let ids = children.into_iter().map(egg::Id::from).collect();
    usize::from(g.graph.add(SymbolLang::new(op, ids)))
}

/// Relies on `EGraph::union`: the two classes become one; none splits.
#[verifier::external_body]
pub(crate) fn egraph_union(g: &mut Congruence, a: usize, b: usize)
    requires
        egraph_classes(*old(g)).contains_key(a),
        egraph_classes(*old(g)).contains_key(b),
    ensures
        keeps_classes(egraph_classes(*old(g)), egraph_classes(*final(g))),
        egraph_classes(*final(g))[a] == egraph_classes(*final(g))[b],
        classes_closed(egraph_classes(*final(g))),
        egraph_memo(*final(g)) == egraph_memo(*old(g)),
        memo_ids(egraph_classes(*final(g)), egraph_memo(*final(g))),
{
    g.graph.union(egg::Id::from(a), egg::Id::from(b));
}

/// Relies on `EGraph::rebuild`: restores congruence closure, which only
/// joins classes, and files every e-node again with canonical children, in
/// its own class.
#[verifier::external_body]
pub(crate) fn egraph_rebuild(g: &mut Congruence)
    ensures
        keeps_classes(egraph_classes(*old(g)), egraph_classes(*final(g))),
        classes_closed(egraph_classes(*final(g))),
        memo_ids(egraph_classes(*final(g)), egraph_memo(*final(g))),
        forall|k: (Seq<char>, Seq<usize>)|
            #[trigger] egraph_memo(*old(g)).contains_key(k) ==> {
                let ck = (k.0, canon(egraph_classes(*final(g)), k.1));
                &&& egraph_memo(*final(g)).contains_key(ck)
                &&& egraph_classes(*final(g))[egraph_memo(*final(g))[ck]] == egraph_classes(
                    *final(g),
                )[egraph_memo(*old(g))[k]]
            },
{
    g.graph.rebuild();
}

/// Relies on `EGraph::find`: the canonical id of the class of `a`.
#[verifier::external_body]
pub(crate) fn egraph_find(g: &Congruence, a: usize) -> (r: usize)
    requires
        egraph_classes(*g).contains_key(a),
    ensures
        r == egraph_classes(*g)[a],
{
    usize::from(g.graph.find(egg::Id::from(a)))
}

/// Relies on `EGraph`'s `Clone`: a copy with the same classes.
#[verifier::external_body]
pub(crate) fn egraph_clone(g: &Congruence) -> (r: Congruence)
    ensures
        egraph_classes(r) == egraph_classes(*g),
        egraph_memo(r) == egraph_memo(*g),
{
    Congruence { graph: g.graph.clone() }
}

} // verus!
