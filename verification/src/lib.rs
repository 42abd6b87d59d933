//! Two sequential container types built from chained nodes: a singly linked
//! list with owning forward links, and a doubly linked list kept in a node
//! arena with integer links in both directions.

pub mod doublylinkedlist;
pub mod laws;
pub mod linkedlist;

use vstd::prelude::*;

verus! {

/// Relies on std's `impl TryFrom<Vec<T>> for [T; N]`: the conversion
/// succeeds exactly when the vector holds `N` values, handing them back
/// unchanged; the length check here makes the unwrap safe.
#[verifier::external_body]
pub(crate) fn vec_into_array<T: core::fmt::Debug, const N: usize>(vector: Vec<T>) -> (arr: [T; N])
    requires
        vector@.len() == N,
    ensures
        arr@ == vector@,
{
    vector.try_into().unwrap()
}

/// Relies on std's `impl From<[T; N]> for Vec<T>`: the vector holds exactly
/// the array's values in order.
#[verifier::external_body]
pub(crate) fn array_into_vec<T, const N: usize>(arr: [T; N]) -> (v: Vec<T>)
    ensures
        v@ == arr@,
{
    arr.into()
}

/// Clone the values of a slice into a vector, in order.
pub(crate) fn clone_values<T: Clone>(values: &[T]) -> (v: Vec<T>)
    ensures
        v@.len() == values@.len(),
        forall|i: int| 0 <= i < v@.len() ==> cloned::<T>(values@[i], #[trigger] v@[i]),
{
    let mut v: Vec<T> = Vec::new();
    let mut k: usize = 0;
    while k < values.len()
        invariant
            0 <= k <= values@.len(),
            v@.len() == k,
            forall|i: int| 0 <= i < k ==> cloned::<T>(values@[i], #[trigger] v@[i]),
        decreases values@.len() - k,
    {
        v.push(values[k].clone());
        k = k + 1;
    }
    v
}

} // verus!
