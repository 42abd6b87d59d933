//! Laws that both list types obey, stated over the sequence model that the
//! containers' contracts use: each operation's `ensures` describes its result
//! as a sequence operation, and these proofs pin down how those sequence
//! operations compose.

use vstd::prelude::*;

verus! {

/// Reading a position straight after writing it returns the written value:
/// `get_value(i)` after `set_value(i, v)`, whose contracts are
/// `update(i, v)` and indexing on the list's view, yields `v`.
pub proof fn lemma_get_after_set<T>(s: Seq<T>, i: int, v: T)
    requires
        0 <= i < s.len(),
    ensures
        s.update(i, v)[i] == v,
{
}

/// Inserting at an index and then removing at the same index is a no-op:
/// `push(i, v)` then `pop(i)`, whose contracts are `insert(i, v)` and
/// `remove(i)` on the list's view, restore the prior size and values.
pub proof fn lemma_pop_after_push<T>(s: Seq<T>, i: int, v: T)
    requires
        0 <= i <= s.len(),
    ensures
        s.insert(i, v).remove(i) == s,
{
    assert(s.insert(i, v).remove(i) =~= s);
}

/// Reversing twice returns a list equal to the original: `reverse()`'s
/// contract is `reverse` on the list's view, and that is an involution.
pub proof fn lemma_reverse_twice<T>(s: Seq<T>)
    ensures
        s.reverse().reverse() == s,
{
    assert(s.reverse().reverse() =~= s);
}

/// Flattening a list into a sequence and rebuilding a list from it yields an
/// equal list: `into_vec` promises a vector whose view equals the list's,
/// `from_vec` promises a list whose view equals the vector's, and equality
/// of views carries across the two steps.
pub proof fn lemma_round_trip<T>(list_view: Seq<T>, vec_view: Seq<T>, rebuilt_view: Seq<T>)
    requires
        vec_view == list_view,
        rebuilt_view == vec_view,
    ensures
        rebuilt_view == list_view,
{
}

/// One indexed operation on a list, by its effect on the list's view:
/// inserting a value at an index, or removing the value at an index.
pub enum ListOp<T> {
    Push(int, T),
    Pop(int),
}

/// Whether the operation's index is in bounds for `s`, which is exactly
/// when the corresponding list operation returns without an error.
pub open spec fn op_ok<T>(s: Seq<T>, op: ListOp<T>) -> bool {
    match op {
        ListOp::Push(i, v) => 0 <= i <= s.len(),
        ListOp::Pop(i) => 0 <= i < s.len(),
    }
}

/// The view after one operation: a successful push inserts, a successful
/// pop removes, and a failed operation leaves the view unchanged.
pub open spec fn apply_op<T>(s: Seq<T>, op: ListOp<T>) -> Seq<T> {
    if op_ok(s, op) {
        match op {
            ListOp::Push(i, v) => s.insert(i, v),
            ListOp::Pop(i) => s.remove(i),
        }
    } else {
        s
    }
}

/// The view after a whole run of operations, applied front to back.
pub open spec fn run_ops<T>(s: Seq<T>, ops: Seq<ListOp<T>>) -> Seq<T>
    decreases ops.len(),
{
    if ops.len() == 0 {
        s
    } else {
        run_ops(apply_op(s, ops[0]), ops.drop_first())
    }
}

/// How many pushes in the run succeed, counted against the evolving view.
pub open spec fn count_ok_pushes<T>(s: Seq<T>, ops: Seq<ListOp<T>>) -> int
    decreases ops.len(),
{
    if ops.len() == 0 {
        0
    } else {
        let here: int = if (ops[0] is Push) && op_ok(s, ops[0]) {
            1
        } else {
            0
        };
        here + count_ok_pushes(apply_op(s, ops[0]), ops.drop_first())
    }
}

/// How many pops in the run succeed, counted against the evolving view.
pub open spec fn count_ok_pops<T>(s: Seq<T>, ops: Seq<ListOp<T>>) -> int
    decreases ops.len(),
{
    if ops.len() == 0 {
        0
    } else {
        let here: int = if (ops[0] is Pop) && op_ok(s, ops[0]) {
            1
        } else {
            0
        };
        here + count_ok_pops(apply_op(s, ops[0]), ops.drop_first())
    }
}

/// After any run of pushes and pops, the size equals the starting size plus
/// the number of successful pushes minus the number of successful pops.
pub proof fn lemma_size_after_ops<T>(s: Seq<T>, ops: Seq<ListOp<T>>)
    ensures
        run_ops(s, ops).len() == s.len() + count_ok_pushes(s, ops) - count_ok_pops(s, ops),
    decreases ops.len(),
{
    if ops.len() == 0 {
    } else {
        lemma_size_after_ops(apply_op(s, ops[0]), ops.drop_first());
    }
}

} // verus!
