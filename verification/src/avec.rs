//! Building a vector from a list of items, or from one item repeated.
use vstd::prelude::*;

verus! {

/// `Vec::from`: a vector holding the items of an array, in order.
#[verifier::external_body]
fn array_into_vec<T, const N: usize>(elements: [T; N]) -> (v: Vec<T>)
    ensures
        v@ == elements@,
{
    Vec::from(elements)
}

/// A vector of the given items, in order.
pub fn avec<T, const N: usize>(elements: [T; N]) -> (vs: Vec<T>)
    ensures
        vs@ == elements@,
{
    array_into_vec(elements)
}

/// A vector of `count` clones of one clone of `element`.
pub fn avec_repeat<T: Clone>(element: T, count: usize) -> (vs: Vec<T>)
    ensures
        vs.len() == count,
        exists|el: T| #[trigger]
            cloned(element, el) && forall|i: int| 0 <= i < count ==> cloned(el, #[trigger] vs@[i]),
{
    let el = element.clone();
    let mut vs: Vec<T> = Vec::new();
    vs.resize(count, el);
    assert(cloned(element, el));
    vs
}

} // verus!
