//! Short inline lists of identifiers, kept in `smallvec::SmallVec`.
use vstd::prelude::*;
use smallvec::SmallVec;

verus! {

/// A short list of identifiers, stored inline up to two items.
#[verifier::external_body]
pub struct Inline {
    items: SmallVec<[usize; 2]>,
}

/// The items of a short list, in order.
pub uninterp spec fn small_items(v: Inline) -> Seq<usize>;

/// Relies on `SmallVec::new`: an empty list.
#[verifier::external_body]
pub(crate) fn small_new() -> (r: Inline)
    ensures
        small_items(r) == Seq::<usize>::empty(),
{
    Inline { items: SmallVec::new() }
}

/// Relies on `SmallVec::from_vec`: the same items, in the same order.
#[verifier::external_body]
pub(crate) fn small_from_vec(v: Vec<usize>) -> (r: Inline)
    ensures
        small_items(r) == v@,
{
    Inline { items: SmallVec::from_vec(v) }
}

/// Relies on `<[usize]>::to_vec`, reached through `SmallVec`'s `Deref` to a
/// slice: the same items, in the same order.
#[verifier::external_body]
pub(crate) fn small_to_vec(v: &Inline) -> (r: Vec<usize>)
    ensures
        r@ == small_items(*v),
{
    v.items.to_vec()
}

/// Relies on `SmallVec::push`: appends one item at the end.
#[verifier::external_body]
pub(crate) fn small_push(v: &mut Inline, x: usize)
    ensures
        small_items(*final(v)) == small_items(*old(v)).push(x),
{
    v.items.push(x)
}

/// Relies on `SmallVec::pop`: removes and returns the last item, if any.
#[verifier::external_body]
pub(crate) fn small_pop(v: &mut Inline) -> (r: Option<usize>)
    ensures
        small_items(*old(v)).len() == 0 ==> r == Option::<usize>::None && small_items(*final(v))
            == small_items(*old(v)),
        small_items(*old(v)).len() > 0 ==> r == Some(small_items(*old(v)).last()) && small_items(
            *final(v),
        ) == small_items(*old(v)).drop_last(),
{
    v.items.pop()
}

/// Relies on `SmallVec`'s `Clone`: a list with the same items.
#[verifier::external_body]
pub(crate) fn small_clone(v: &Inline) -> (r: Inline)
    ensures
        small_items(r) == small_items(*v),
{
    Inline { items: v.items.clone() }
}

} // verus!
