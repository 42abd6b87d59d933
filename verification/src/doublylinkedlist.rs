//! A doubly linked list kept in a node arena: the nodes live in a growable
//! table, and the links between them are table indices, one owning direction
//! forward (`next`) and one observing direction backward (`prev`). The table
//! is kept dense: it holds exactly the linked nodes, so removing a node moves
//! the table's last entry into the freed slot and renames the links to it.

use vstd::prelude::*;
use vstd::set_lib::lemma_int_range;
use vstd::set_lib::lemma_len_subset;
use vstd::set_lib::set_int_range;
use vstd::std_specs::cmp::PartialEqSpec;

verus! {

/// Linked list errors.
#[derive(Clone, Copy, Debug, PartialEq, Eq, Structural)]
pub enum LinkedListError {
    IndexOutOfBounds,
    InvalidArraySize,
}

/// A node in a linked list.
#[derive(Debug)]
struct Node<T> {
    /// The node's value.
    value: T,
    /// The arena index of the next node in the linked list.
    next: Option<usize>,
    /// The arena index of the previous node in the linked list.
    prev: Option<usize>,
}

/// A linked list.
#[derive(Debug)]
pub struct LinkedList<T> {
    /// The arena holding exactly the nodes of the linked list.
    nodes: Vec<Node<T>>,
    /// The arena index of the first node in the linked list.
    head: Option<usize>,
    /// The arena index of the last node in the linked list.
    tail: Option<usize>,
    /// The total number of nodes in the linked list.
    size: usize,
}

/// The arena indices reached from `link` by following `next` at most `fuel`
/// times: the chain of the list's nodes in list order.
spec fn chain<T>(nodes: Seq<Node<T>>, link: Option<usize>, fuel: nat) -> Seq<usize>
    decreases fuel,
{
    if fuel == 0 {
        Seq::empty()
    } else {
        match link {
            Option::None => Seq::empty(),
            Option::Some(j) => if (j as int) < nodes.len() {
                seq![j] + chain(nodes, nodes[j as int].next, (fuel - 1) as nat)
            } else {
                seq![j]
            },
        }
    }
}

/// Whether `ord` lists valid arena indices that start at `head` and whose
/// `next` links chain them together in exactly that order.
spec fn next_chain_ok<T>(nodes: Seq<Node<T>>, head: Option<usize>, ord: Seq<usize>) -> bool {
    &&& forall|k: int| 0 <= k < ord.len() ==> (#[trigger] ord[k] as int) < nodes.len()
    &&& if ord.len() == 0 {
        head is None
    } else {
        head == Some(ord[0])
    }
    &&& forall|k: int|
        0 <= k < ord.len() ==> nodes[#[trigger] ord[k] as int].next == (if k == ord.len() - 1 {
            None
        } else {
            Some(ord[k + 1])
        })
}

/// Whether `ord` lists distinct, valid arena indices whose `next` and `prev`
/// links chain them together in exactly that order, with `head` and `tail`
/// denoting its two ends.
spec fn links_ok<T>(
    nodes: Seq<Node<T>>,
    head: Option<usize>,
    tail: Option<usize>,
    ord: Seq<usize>,
) -> bool {
    &&& next_chain_ok(nodes, head, ord)
    &&& forall|k1: int, k2: int| 0 <= k1 < k2 < ord.len() ==> ord[k1] != ord[k2]
    &&& if ord.len() == 0 {
        tail is None
    } else {
        tail == Some(ord[ord.len() - 1])
    }
    &&& forall|k: int|
        0 <= k < ord.len() ==> nodes[#[trigger] ord[k] as int].prev == (if k == 0 {
            None
        } else {
            Some(ord[k - 1])
        })
}

/// The values stored at the arena indices `ord`, in that order.
spec fn seq_at<T>(nodes: Seq<Node<T>>, ord: Seq<usize>) -> Seq<T> {
    Seq::new(ord.len(), |k: int| nodes[ord[k] as int].value)
}

/// A chain that `next_chain_ok` accepts is the chain that `chain` computes,
/// as long as the fuel covers its length.
proof fn lemma_chain_agrees<T>(nodes: Seq<Node<T>>, head: Option<usize>, ord: Seq<usize>, fuel: nat)
    requires
        next_chain_ok(nodes, head, ord),
        fuel >= ord.len(),
    ensures
        chain(nodes, head, fuel) == ord,
    decreases ord.len(),
{
    if ord.len() == 0 {
        assert(chain(nodes, head, fuel) == Seq::<usize>::empty());
    } else {
        let j = ord[0];
        let rest = ord.drop_first();
        let link = nodes[j as int].next;
        assert forall|k: int| 0 <= k < rest.len() implies nodes[#[trigger] rest[k] as int].next == (
        if k == rest.len() - 1 {
            None
        } else {
            Some(rest[k + 1])
        }) by {
            assert(rest[k] == ord[k + 1]);
        }
        assert forall|k: int| 0 <= k < rest.len() implies (#[trigger] rest[k] as int)
            < nodes.len() by {
            assert(rest[k] == ord[k + 1]);
        }
        assert(next_chain_ok(nodes, link, rest));
        lemma_chain_agrees(nodes, link, rest, (fuel - 1) as nat);
        assert(chain(nodes, head, fuel) =~= ord);
    }
}

/// How the arena looks after pushing a fresh node `m` that is to stand
/// between the chain neighbours `p` and `j`, and rewiring those two to it:
/// everything else is unchanged.
spec fn spliced_arena<T>(
    n0: Seq<Node<T>>,
    n1: Seq<Node<T>>,
    m: usize,
    j: usize,
    p: usize,
    value: T,
) -> bool {
    &&& m as int == n0.len()
    &&& n1.len() == n0.len() + 1
    &&& n1[m as int].value == value
    &&& n1[m as int].next == Some(j)
    &&& n1[m as int].prev == Some(p)
    &&& n1[p as int].next == Some(m)
    &&& n1[p as int].value == n0[p as int].value
    &&& n1[p as int].prev == n0[p as int].prev
    &&& n1[j as int].prev == Some(m)
    &&& n1[j as int].value == n0[j as int].value
    &&& n1[j as int].next == n0[j as int].next
    &&& forall|i: int| 0 <= i < n0.len() && i != p && i != j ==> n1[i] == n0[i]
}

/// After the splice, the `next` links chain the extended order together.
#[verifier::rlimit(100)]
#[verifier::spinoff_prover]
proof fn lemma_splice_in_next<T>(
    n0: Seq<Node<T>>,
    n1: Seq<Node<T>>,
    head: Option<usize>,
    tail: Option<usize>,
    ord0: Seq<usize>,
    index: int,
    m: usize,
    j: usize,
    p: usize,
    value: T,
)
    requires
        links_ok(n0, head, tail, ord0),
        ord0.len() == n0.len(),
        1 <= index <= ord0.len() - 1,
        j == ord0[index],
        p == ord0[index - 1],
        spliced_arena(n0, n1, m, j, p, value),
    ensures
        forall|k: int|
            0 <= k < ord0.insert(index, m).len() ==> n1[#[trigger] ord0.insert(index, m)[k] as int].next
                == (if k == ord0.insert(index, m).len() - 1 {
                None
            } else {
                Some(ord0.insert(index, m)[k + 1])
            }),
{
    let ord1 = ord0.insert(index, m);
    assert(p != j);
    assert forall|k: int| 0 <= k < ord1.len() implies n1[#[trigger] ord1[k] as int].next == (if k
        == ord1.len() - 1 {
        None
    } else {
        Some(ord1[k + 1])
    }) by {
        if k < index - 1 {
            assert(ord1[k] == ord0[k] && ord1[k + 1] == ord0[k + 1]);
            assert(ord0[k] != p && ord0[k] != j);
            assert(n1[ord0[k] as int].next == n0[ord0[k] as int].next);
        } else if k == index - 1 {
            assert(ord1[k] == p && ord1[k + 1] == m);
        } else if k == index {
            assert(ord1[k] == m && ord1[k + 1] == ord0[index]);
        } else {
            assert(ord1[k] == ord0[k - 1]);
            assert(ord0[k - 1] != p);
            if k - 1 != index {
                assert(ord0[k - 1] != j);
                assert(n1[ord0[k - 1] as int].next == n0[ord0[k - 1] as int].next);
            } else {
                assert(n1[j as int].next == n0[j as int].next);
            }
            if k < ord1.len() - 1 {
                assert(ord1[k + 1] == ord0[k]);
            }
        }
    }
}

/// After the splice, the `prev` links chain the extended order together.
#[verifier::rlimit(100)]
#[verifier::spinoff_prover]
proof fn lemma_splice_in_prev<T>(
    n0: Seq<Node<T>>,
    n1: Seq<Node<T>>,
    head: Option<usize>,
    tail: Option<usize>,
    ord0: Seq<usize>,
    index: int,
    m: usize,
    j: usize,
    p: usize,
    value: T,
)
    requires
        links_ok(n0, head, tail, ord0),
        ord0.len() == n0.len(),
        1 <= index <= ord0.len() - 1,
        j == ord0[index],
        p == ord0[index - 1],
        spliced_arena(n0, n1, m, j, p, value),
    ensures
        forall|k: int|
            0 <= k < ord0.insert(index, m).len() ==> n1[#[trigger] ord0.insert(index, m)[k] as int].prev
                == (if k == 0 {
                None
            } else {
                Some(ord0.insert(index, m)[k - 1])
            }),
{
    let ord1 = ord0.insert(index, m);
    assert(p != j);
    assert forall|k: int| 0 <= k < ord1.len() implies n1[#[trigger] ord1[k] as int].prev == (if k
        == 0 {
        None
    } else {
        Some(ord1[k - 1])
    }) by {
        if k < index {
            assert(ord1[k] == ord0[k]);
            assert(ord0[k] != j);
            if ord0[k] != p {
                assert(n1[ord0[k] as int].prev == n0[ord0[k] as int].prev);
            }
            if k > 0 {
                assert(ord1[k - 1] == ord0[k - 1]);
            }
        } else if k == index {
            assert(ord1[k] == m && ord1[k - 1] == ord0[index - 1]);
        } else if k == index + 1 {
            assert(ord1[k] == ord0[index] && ord1[k - 1] == m);
        } else {
            assert(ord1[k] == ord0[k - 1] && ord1[k - 1] == ord0[k - 2]);
            assert(ord0[k - 1] != j && ord0[k - 1] != p);
            assert(n1[ord0[k - 1] as int].prev == n0[ord0[k - 1] as int].prev);
        }
    }
}

/// Splicing a fresh node `m` between the chain neighbours `p` and `j` turns
/// a well-linked arena into a well-linked arena whose chain and values have
/// the new node inserted at `index`.
#[verifier::rlimit(100)]
#[verifier::spinoff_prover]
proof fn lemma_splice_in<T>(
    n0: Seq<Node<T>>,
    n1: Seq<Node<T>>,
    head: Option<usize>,
    tail: Option<usize>,
    ord0: Seq<usize>,
    index: int,
    m: usize,
    j: usize,
    p: usize,
    value: T,
)
    requires
        links_ok(n0, head, tail, ord0),
        ord0.len() == n0.len(),
        1 <= index <= ord0.len() - 1,
        j == ord0[index],
        p == ord0[index - 1],
        spliced_arena(n0, n1, m, j, p, value),
    ensures
        links_ok(n1, head, tail, ord0.insert(index, m)),
        ord0.insert(index, m).len() == n1.len(),
        seq_at(n1, ord0.insert(index, m)) == seq_at(n0, ord0).insert(index, value),
{
    let ord1 = ord0.insert(index, m);
    let len0 = ord0.len();
    assert(p != j);
    lemma_splice_in_next(n0, n1, head, tail, ord0, index, m, j, p, value);
    lemma_splice_in_prev(n0, n1, head, tail, ord0, index, m, j, p, value);
    assert forall|k: int| 0 <= k < ord1.len() implies (#[trigger] ord1[k] as int) < n1.len() by {
        if k < index {
            assert(ord1[k] == ord0[k]);
        } else if k > index {
            assert(ord1[k] == ord0[k - 1]);
        }
    }
    assert forall|k1: int, k2: int| 0 <= k1 < k2 < ord1.len() implies ord1[k1] != ord1[k2] by {
        if k1 == index {
            assert(ord1[k1] == m && ord1[k2] == ord0[k2 - 1]);
            assert((ord0[k2 - 1] as int) < m as int);
        } else if k2 == index {
            assert(ord1[k2] == m);
            assert(ord1[k1] == ord0[k1]);
            assert((ord0[k1] as int) < m as int);
        } else {
            assert(ord1[k1] == (if k1 < index {
                ord0[k1]
            } else {
                ord0[k1 - 1]
            }));
            assert(ord1[k2] == (if k2 < index {
                ord0[k2]
            } else {
                ord0[k2 - 1]
            }));
        }
    }
    assert(ord1[0] == ord0[0] && ord1[ord1.len() - 1] == ord0[len0 - 1]);
    assert(links_ok(n1, head, tail, ord1));
    lemma_splice_in_values(n0, n1, head, tail, ord0, index, m, j, p, value);
}

/// After the splice, the values along the extended order are the old values
/// with the new one inserted at `index`.
#[verifier::rlimit(100)]
#[verifier::spinoff_prover]
proof fn lemma_splice_in_values<T>(
    n0: Seq<Node<T>>,
    n1: Seq<Node<T>>,
    head: Option<usize>,
    tail: Option<usize>,
    ord0: Seq<usize>,
    index: int,
    m: usize,
    j: usize,
    p: usize,
    value: T,
)
    requires
        links_ok(n0, head, tail, ord0),
        ord0.len() == n0.len(),
        1 <= index <= ord0.len() - 1,
        j == ord0[index],
        p == ord0[index - 1],
        spliced_arena(n0, n1, m, j, p, value),
    ensures
        seq_at(n1, ord0.insert(index, m)) == seq_at(n0, ord0).insert(index, value),
{
    let ord1 = ord0.insert(index, m);
    assert forall|k: int| 0 <= k < ord1.len() implies seq_at(n1, ord1)[k] == seq_at(n0, ord0).insert(
        index,
        value,
    )[k] by {
        if k < index {
            assert(ord1[k] == ord0[k]);
            if ord0[k] != p && ord0[k] != j {
                assert(n1[ord0[k] as int].value == n0[ord0[k] as int].value);
            }
        } else if k > index {
            assert(ord1[k] == ord0[k - 1]);
            if ord0[k - 1] != p && ord0[k - 1] != j {
                assert(n1[ord0[k - 1] as int].value == n0[ord0[k - 1] as int].value);
            }
        }
    }
    assert(seq_at(n1, ord1) =~= seq_at(n0, ord0).insert(index, value));
}

/// A run of distinct indices below `bound` that leaves out only `r` and has
/// length `bound - 1` must hold any other index `x` below `bound`, at some
/// position `q`.
proof fn lemma_missing_covers(cand: Seq<usize>, bound: int, r: usize, x: usize) -> (q: int)
    requires
        forall|k1: int, k2: int| 0 <= k1 < k2 < cand.len() ==> cand[k1] != cand[k2],
        forall|k: int| 0 <= k < cand.len() ==> (#[trigger] cand[k] as int) < bound,
        cand.len() == bound - 1,
        (r as int) < bound,
        forall|k: int| 0 <= k < cand.len() ==> #[trigger] cand[k] != r,
        0 <= (x as int) < bound,
        x != r,
    ensures
        0 <= q < cand.len(),
        cand[q] == x,
{
    broadcast use vstd::set::group_set_axioms;

    let ints = cand.map_values(|u: usize| u as int);
    assert forall|k1: int, k2: int| 0 <= k1 < k2 < ints.len() implies ints[k1] != ints[k2] by {
        assert(ints[k1] == cand[k1] as int && ints[k2] == cand[k2] as int);
    }
    assert(ints.no_duplicates());
    ints.unique_seq_to_set();
    {
        if !cand.contains(x) {
            let big = set_int_range(0, bound).remove(r as int).remove(x as int);
            assert forall|y: int| ints.to_set().contains(y) implies big.contains(y) by {
                let k = choose|k: int| 0 <= k < ints.len() && ints[k] == y;
                assert(cand[k] as int == y);
                assert(forall|k2: int| 0 <= k2 < cand.len() ==> cand[k2] != r && cand[k2] != x);
            }
            assert(ints.to_set().subset_of(big));
            lemma_int_range(0, bound);
            assert(set_int_range(0, bound).contains(r as int));
            assert(set_int_range(0, bound).remove(r as int).contains(x as int));
            assert(big.len() == bound - 2);
            lemma_len_subset(ints.to_set(), big);
            assert(false);
        }
    }
    choose|q: int| 0 <= q < cand.len() && cand[q] == x
}

/// How the arena looks after `swap_remove(r)` and the link renames: the old
/// last node's copy sits in slot `r`, the nodes that linked to the old last
/// slot link to `r`, and everything else is unchanged.
spec fn swapped_arena<T>(n0: Seq<Node<T>>, n1: Seq<Node<T>>, r: usize) -> bool {
    &&& n1.len() == n0.len() - 1
    &&& (r as int) < n0.len() - 1
    &&& n1[r as int].value == n0[n0.len() - 1].value
    &&& n1[r as int].next == n0[n0.len() - 1].next
    &&& n1[r as int].prev == n0[n0.len() - 1].prev
    &&& forall|i: int| 0 <= i < n1.len() && i != r ==> #[trigger] n1[i].value == n0[i].value
    &&& forall|i: int|
        0 <= i < n1.len() && i != r && n0[n0.len() - 1].prev != Some(i as usize)
            ==> #[trigger] n1[i].next == n0[i].next
    &&& forall|i: int|
        0 <= i < n1.len() && i != r && n0[n0.len() - 1].next != Some(i as usize)
            ==> #[trigger] n1[i].prev == n0[i].prev
    &&& match n0[n0.len() - 1].prev {
        Option::Some(p) => n1[p as int].next == Some(r),
        Option::None => true,
    }
    &&& match n0[n0.len() - 1].next {
        Option::Some(nx) => n1[nx as int].prev == Some(r),
        Option::None => true,
    }
}

/// In a dense arena with one detached slot `r`, the chain holds every other
/// arena index; in particular the last one, at some position `q`.
#[verifier::rlimit(100)]
#[verifier::spinoff_prover]
proof fn lemma_last_in_chain<T>(
    n0: Seq<Node<T>>,
    head0: Option<usize>,
    tail0: Option<usize>,
    cand: Seq<usize>,
    r: usize,
) -> (q: int)
    requires
        next_chain_ok(n0, head0, cand),
        forall|k1: int, k2: int| 0 <= k1 < k2 < cand.len() ==> cand[k1] != cand[k2],
        cand.len() == n0.len() - 1,
        forall|k: int| 0 <= k < cand.len() ==> #[trigger] cand[k] != r,
        (r as int) < n0.len() - 1,
        n0.len() <= usize::MAX,
    ensures
        0 <= q < cand.len(),
        cand[q] == (n0.len() - 1) as usize,
{
    lemma_missing_covers(cand, n0.len() as int, r, (n0.len() - 1) as usize)
}

/// After the swap and renames, the `next` link of the chain node at
/// position `k` points at the renamed successor.
#[verifier::rlimit(100)]
#[verifier::spinoff_prover]
proof fn lemma_swap_rename_next_at<T>(
    n0: Seq<Node<T>>,
    n1: Seq<Node<T>>,
    head0: Option<usize>,
    tail0: Option<usize>,
    cand: Seq<usize>,
    r: usize,
    q: int,
    k: int,
)
    requires
        links_ok(n0, head0, tail0, cand),
        cand.len() == n0.len() - 1,
        forall|k: int| 0 <= k < cand.len() ==> #[trigger] cand[k] != r,
        swapped_arena(n0, n1, r),
        0 <= q < cand.len(),
        cand[q] == n0.len() - 1,
        0 <= k < cand.len(),
    ensures
        n1[cand.update(q, r)[k] as int].next == (if k == cand.len() - 1 {
            None::<usize>
        } else {
            Some(cand.update(q, r)[k + 1])
        }),
{
    let last = (n0.len() - 1) as usize;
    let cand2 = cand.update(q, r);
    assert(cand[k] != r);
    if k == q {
        assert(cand2[k] == r);
        assert(n1[r as int].next == n0[last as int].next);
        if k < cand.len() - 1 {
            assert(cand[k + 1] != cand[q]);
            assert(cand2[k + 1] == cand[k + 1]);
        }
    } else if k == q - 1 {
        assert(n0[last as int].prev == Some(cand[k]));
        assert(n1[cand[k] as int].next == Some(r));
        assert(cand2[k] == cand[k] && cand2[k + 1] == r);
    } else {
        assert(cand2[k] == cand[k]);
        assert(cand[k] != cand[q]);
        assert((cand[k] as int) < n1.len());
        if q > 0 {
            assert(n0[last as int].prev == Some(cand[q - 1]));
            assert(cand[k] != cand[q - 1]);
        } else {
            assert(n0[last as int].prev is None);
        }
        assert(n0[last as int].prev != Some(cand[k]));
        assert(n1[cand[k] as int].next == n0[cand[k] as int].next);
        if k < cand.len() - 1 {
            assert(k + 1 != q);
            assert(cand2[k + 1] == cand[k + 1]);
        }
    }
}

/// After the swap and renames, the `prev` link of the chain node at
/// position `k` points at the renamed predecessor.
#[verifier::rlimit(100)]
#[verifier::spinoff_prover]
proof fn lemma_swap_rename_prev_at<T>(
    n0: Seq<Node<T>>,
    n1: Seq<Node<T>>,
    head0: Option<usize>,
    tail0: Option<usize>,
    cand: Seq<usize>,
    r: usize,
    q: int,
    k: int,
)
    requires
        links_ok(n0, head0, tail0, cand),
        cand.len() == n0.len() - 1,
        forall|k: int| 0 <= k < cand.len() ==> #[trigger] cand[k] != r,
        swapped_arena(n0, n1, r),
        0 <= q < cand.len(),
        cand[q] == n0.len() - 1,
        0 <= k < cand.len(),
    ensures
        n1[cand.update(q, r)[k] as int].prev == (if k == 0 {
            None::<usize>
        } else {
            Some(cand.update(q, r)[k - 1])
        }),
{
    let last = (n0.len() - 1) as usize;
    let cand2 = cand.update(q, r);
    assert(cand[k] != r);
    if k == q {
        assert(cand2[k] == r);
        assert(n1[r as int].prev == n0[last as int].prev);
        if k > 0 {
            assert(cand[k - 1] != cand[q]);
            assert(cand2[k - 1] == cand[k - 1]);
        }
    } else if k == q + 1 {
        assert(n0[last as int].next == Some(cand[k]));
        assert(n1[cand[k] as int].prev == Some(r));
        assert(cand2[k] == cand[k] && cand2[k - 1] == r);
    } else {
        assert(cand2[k] == cand[k]);
        assert(cand[k] != cand[q]);
        assert((cand[k] as int) < n1.len());
        if q < cand.len() - 1 {
            assert(n0[last as int].next == Some(cand[q + 1]));
            assert(cand[k] != cand[q + 1]);
        } else {
            assert(n0[last as int].next is None);
        }
        assert(n0[last as int].next != Some(cand[k]));
        assert(n1[cand[k] as int].prev == n0[cand[k] as int].prev);
        if k > 0 {
            assert(k - 1 != q);
            assert(cand2[k - 1] == cand[k - 1]);
        }
    }
}

/// Moving the node in the arena's last slot into the freed slot `r` and
/// renaming the links that pointed at the last slot keeps the arena well
/// linked, with the same values along the renamed chain.
#[verifier::rlimit(100)]
#[verifier::spinoff_prover]
proof fn lemma_swap_rename<T>(
    n0: Seq<Node<T>>,
    n1: Seq<Node<T>>,
    head0: Option<usize>,
    tail0: Option<usize>,
    head1: Option<usize>,
    tail1: Option<usize>,
    cand: Seq<usize>,
    r: usize,
    q: int,
) -> (cand2: Seq<usize>)
    requires
        links_ok(n0, head0, tail0, cand),
        cand.len() == n0.len() - 1,
        forall|k: int| 0 <= k < cand.len() ==> #[trigger] cand[k] != r,
        swapped_arena(n0, n1, r),
        0 <= q < cand.len(),
        cand[q] == n0.len() - 1,
        match n0[n0.len() - 1].prev {
            Option::Some(p) => head1 == head0,
            Option::None => head1 == Some(r),
        },
        match n0[n0.len() - 1].next {
            Option::Some(nx) => tail1 == tail0,
            Option::None => tail1 == Some(r),
        },
    ensures
        cand2.len() == cand.len(),
        links_ok(n1, head1, tail1, cand2),
        seq_at(n1, cand2) == seq_at(n0, cand),
{
    let last = (n0.len() - 1) as usize;
    let cand2 = cand.update(q, r);
    assert(forall|k: int| 0 <= k < cand.len() && k != q ==> #[trigger] cand[k] != last);
    assert(forall|k: int| 0 <= k < cand.len() ==> #[trigger] cand[k] != r);
    assert forall|k: int| 0 <= k < cand2.len() implies n1[#[trigger] cand2[k] as int].next == (if k
        == cand2.len() - 1 {
        None
    } else {
        Some(cand2[k + 1])
    }) by {
        lemma_swap_rename_next_at(n0, n1, head0, tail0, cand, r, q, k);
    }
    assert forall|k: int| 0 <= k < cand2.len() implies n1[#[trigger] cand2[k] as int].prev == (if k
        == 0 {
        None
    } else {
        Some(cand2[k - 1])
    }) by {
        lemma_swap_rename_prev_at(n0, n1, head0, tail0, cand, r, q, k);
    }
    assert(n0[last as int].prev == (if q == 0 {
        None::<usize>
    } else {
        Some(cand[q - 1])
    }));
    assert(n0[last as int].next == (if q == cand.len() - 1 {
        None::<usize>
    } else {
        Some(cand[q + 1])
    }));
    assert forall|k: int| 0 <= k < cand2.len() implies (#[trigger] cand2[k] as int) < n1.len() by {
        if k != q {
            assert(cand2[k] == cand[k]);
            assert(cand[k] != last);
        }
    }
    assert forall|k1: int, k2: int| 0 <= k1 < k2 < cand2.len() implies cand2[k1] != cand2[k2] by {
        if k1 != q && k2 != q {
            assert(cand2[k1] == cand[k1] && cand2[k2] == cand[k2]);
        } else if k1 == q {
            assert(cand2[k1] == r && cand2[k2] == cand[k2]);
        } else {
            assert(cand2[k2] == r && cand2[k1] == cand[k1]);
        }
    }
    if cand2.len() > 0 {
        if q == 0 {
            assert(head1 == Some(r) && cand2[0] == r);
        } else {
            assert(head1 == head0 && cand2[0] == cand[0]);
        }
        if q == cand.len() - 1 {
            assert(tail1 == Some(r) && cand2[cand2.len() - 1] == r);
        } else {
            assert(tail1 == tail0 && cand2[cand2.len() - 1] == cand[cand.len() - 1]);
        }
    }
    assert(links_ok(n1, head1, tail1, cand2));
    assert forall|k: int| 0 <= k < cand2.len() implies seq_at(n1, cand2)[k] == seq_at(n0, cand)[k]
    by {
        if k == q {
            assert(cand2[k] == r && cand[k] == last);
        } else {
            assert(cand2[k] == cand[k] && cand[k] != last && cand[k] != r);
        }
    }
    assert(seq_at(n1, cand2) =~= seq_at(n0, cand));
    cand2
}

/// How the arena looks after cutting the chain node at some position out by
/// rewiring its neighbours `p` and `nx` to each other: everything else,
/// including the detached node's slot, is unchanged.
spec fn unspliced_arena<T>(n0: Seq<Node<T>>, n1: Seq<Node<T>>, p: usize, nx: usize) -> bool {
    &&& n1.len() == n0.len()
    &&& n1[p as int].next == Some(nx)
    &&& n1[p as int].value == n0[p as int].value
    &&& n1[p as int].prev == n0[p as int].prev
    &&& n1[nx as int].prev == Some(p)
    &&& n1[nx as int].value == n0[nx as int].value
    &&& n1[nx as int].next == n0[nx as int].next
    &&& forall|i: int| 0 <= i < n0.len() && i != p && i != nx ==> n1[i] == n0[i]
}

/// After the cut, the `next` links chain the shortened order together.
#[verifier::rlimit(100)]
#[verifier::spinoff_prover]
proof fn lemma_splice_out_next<T>(
    n0: Seq<Node<T>>,
    n1: Seq<Node<T>>,
    head: Option<usize>,
    tail: Option<usize>,
    ord0: Seq<usize>,
    index: int,
    j: usize,
    p: usize,
    nx: usize,
)
    requires
        links_ok(n0, head, tail, ord0),
        1 <= index <= ord0.len() - 2,
        j == ord0[index],
        p == ord0[index - 1],
        nx == ord0[index + 1],
        unspliced_arena(n0, n1, p, nx),
    ensures
        forall|k: int|
            0 <= k < ord0.remove(index).len() ==> n1[#[trigger] ord0.remove(index)[k] as int].next
                == (if k == ord0.remove(index).len() - 1 {
                None
            } else {
                Some(ord0.remove(index)[k + 1])
            }),
{
    let ord1 = ord0.remove(index);
    assert(p != j && nx != j && p != nx);
    assert forall|k: int| 0 <= k < ord1.len() implies n1[#[trigger] ord1[k] as int].next == (if k
        == ord1.len() - 1 {
        None
    } else {
        Some(ord1[k + 1])
    }) by {
        if k < index - 1 {
            assert(ord1[k] == ord0[k] && ord1[k + 1] == ord0[k + 1]);
            assert(ord0[k] != p && ord0[k] != nx);
            assert(n1[ord0[k] as int].next == n0[ord0[k] as int].next);
        } else if k == index - 1 {
            assert(ord1[k] == p);
            if k < ord1.len() - 1 {
                assert(ord1[k + 1] == ord0[index + 1]);
            }
        } else {
            assert(ord1[k] == ord0[k + 1]);
            assert(ord0[k + 1] != p);
            if k + 1 != index + 1 {
                assert(ord0[k + 1] != nx);
                assert(n1[ord0[k + 1] as int].next == n0[ord0[k + 1] as int].next);
            } else {
                assert(n1[nx as int].next == n0[nx as int].next);
            }
            if k < ord1.len() - 1 {
                assert(ord1[k + 1] == ord0[k + 2]);
            }
        }
    }
}

/// After the cut, the `prev` links chain the shortened order together.
#[verifier::rlimit(100)]
#[verifier::spinoff_prover]
proof fn lemma_splice_out_prev<T>(
    n0: Seq<Node<T>>,
    n1: Seq<Node<T>>,
    head: Option<usize>,
    tail: Option<usize>,
    ord0: Seq<usize>,
    index: int,
    j: usize,
    p: usize,
    nx: usize,
)
    requires
        links_ok(n0, head, tail, ord0),
        1 <= index <= ord0.len() - 2,
        j == ord0[index],
        p == ord0[index - 1],
        nx == ord0[index + 1],
        unspliced_arena(n0, n1, p, nx),
    ensures
        forall|k: int|
            0 <= k < ord0.remove(index).len() ==> n1[#[trigger] ord0.remove(index)[k] as int].prev
                == (if k == 0 {
                None
            } else {
                Some(ord0.remove(index)[k - 1])
            }),
{
    let ord1 = ord0.remove(index);
    assert(p != j && nx != j && p != nx);
    assert forall|k: int| 0 <= k < ord1.len() implies n1[#[trigger] ord1[k] as int].prev == (if k
        == 0 {
        None
    } else {
        Some(ord1[k - 1])
    }) by {
        if k < index {
            assert(ord1[k] == ord0[k]);
            assert(ord0[k] != nx);
            if ord0[k] != p {
                assert(n1[ord0[k] as int].prev == n0[ord0[k] as int].prev);
            }
            if k > 0 {
                assert(ord1[k - 1] == ord0[k - 1]);
            }
        } else if k == index {
            assert(ord1[k] == nx && ord1[k - 1] == p);
        } else {
            assert(ord1[k] == ord0[k + 1] && ord1[k - 1] == ord0[k]);
            assert(ord0[k + 1] != nx && ord0[k + 1] != p);
            assert(n1[ord0[k + 1] as int].prev == n0[ord0[k + 1] as int].prev);
        }
    }
}

/// Cutting the chain node at `index` out by rewiring its two neighbours to
/// each other leaves the arena well linked along the shortened chain, with
/// the values unchanged.
#[verifier::rlimit(100)]
#[verifier::spinoff_prover]
proof fn lemma_splice_out<T>(
    n0: Seq<Node<T>>,
    n1: Seq<Node<T>>,
    head: Option<usize>,
    tail: Option<usize>,
    ord0: Seq<usize>,
    index: int,
    j: usize,
    p: usize,
    nx: usize,
)
    requires
        links_ok(n0, head, tail, ord0),
        1 <= index <= ord0.len() - 2,
        j == ord0[index],
        p == ord0[index - 1],
        nx == ord0[index + 1],
        unspliced_arena(n0, n1, p, nx),
    ensures
        links_ok(n1, head, tail, ord0.remove(index)),
        forall|k: int| 0 <= k < ord0.remove(index).len() ==> #[trigger] ord0.remove(index)[k] != j,
        seq_at(n1, ord0.remove(index)) == seq_at(n0, ord0).remove(index),
{
    let ord1 = ord0.remove(index);
    assert(p != j && nx != j && p != nx);
    lemma_splice_out_next(n0, n1, head, tail, ord0, index, j, p, nx);
    lemma_splice_out_prev(n0, n1, head, tail, ord0, index, j, p, nx);
    assert forall|k: int| 0 <= k < ord1.len() implies #[trigger] ord1[k] != j by {
        if k < index {
            assert(ord1[k] == ord0[k]);
        } else {
            assert(ord1[k] == ord0[k + 1]);
        }
    }
    assert forall|k: int| 0 <= k < ord1.len() implies (#[trigger] ord1[k] as int) < n1.len() by {
        if k < index {
            assert(ord1[k] == ord0[k]);
        } else {
            assert(ord1[k] == ord0[k + 1]);
        }
    }
    assert forall|k1: int, k2: int| 0 <= k1 < k2 < ord1.len() implies ord1[k1] != ord1[k2] by {
        assert(ord1[k1] == (if k1 < index {
            ord0[k1]
        } else {
            ord0[k1 + 1]
        }));
        assert(ord1[k2] == (if k2 < index {
            ord0[k2]
        } else {
            ord0[k2 + 1]
        }));
    }
    assert(ord1[0] == ord0[0] && ord1[ord1.len() - 1] == ord0[ord0.len() - 1]);
    assert(links_ok(n1, head, tail, ord1));
    assert forall|k: int| 0 <= k < ord1.len() implies seq_at(n1, ord1)[k] == seq_at(n0, ord0).remove(
        index,
    )[k] by {
        if k < index {
            assert(ord1[k] == ord0[k]);
            if ord0[k] != p && ord0[k] != nx {
                assert(n1[ord0[k] as int].value == n0[ord0[k] as int].value);
            }
        } else {
            assert(ord1[k] == ord0[k + 1]);
            if ord0[k + 1] != p && ord0[k + 1] != nx {
                assert(n1[ord0[k + 1] as int].value == n0[ord0[k + 1] as int].value);
            }
        }
    }
    assert(seq_at(n1, ord1) =~= seq_at(n0, ord0).remove(index));
}

/// Detaching the first chain node (clearing its successor's `prev` and
/// moving the head there, or emptying the list) leaves the arena well linked
/// along the rest of the chain, with the values unchanged.
#[verifier::rlimit(100)]
#[verifier::spinoff_prover]
proof fn lemma_detach_first<T>(
    n0: Seq<Node<T>>,
    n1: Seq<Node<T>>,
    head0: Option<usize>,
    tail0: Option<usize>,
    head1: Option<usize>,
    tail1: Option<usize>,
    ord0: Seq<usize>,
)
    requires
        links_ok(n0, head0, tail0, ord0),
        ord0.len() >= 1,
        n1.len() == n0.len(),
        ord0.len() == 1 ==> n1 == n0 && head1 is None && tail1 is None,
        ord0.len() > 1 ==> head1 == Some(ord0[1]) && tail1 == tail0 && n1[ord0[1] as int].prev
            is None && n1[ord0[1] as int].next == n0[ord0[1] as int].next
            && n1[ord0[1] as int].value == n0[ord0[1] as int].value && (forall|i: int|
            0 <= i < n0.len() && i != ord0[1] ==> n1[i] == n0[i]),
    ensures
        links_ok(n1, head1, tail1, ord0.drop_first()),
        forall|k: int| 0 <= k < ord0.drop_first().len() ==> #[trigger] ord0.drop_first()[k]
            != ord0[0],
        seq_at(n1, ord0.drop_first()) == seq_at(n0, ord0).drop_first(),
{
    let cand = ord0.drop_first();
    assert forall|k: int| 0 <= k < cand.len() implies #[trigger] cand[k] != ord0[0] by {
        assert(cand[k] == ord0[k + 1]);
    }
    assert forall|k: int| 0 <= k < cand.len() implies (#[trigger] cand[k] as int) < n1.len() by {
        assert(cand[k] == ord0[k + 1]);
    }
    assert forall|k1: int, k2: int| 0 <= k1 < k2 < cand.len() implies cand[k1] != cand[k2] by {
        assert(cand[k1] == ord0[k1 + 1] && cand[k2] == ord0[k2 + 1]);
    }
    assert forall|k: int| 0 <= k < cand.len() implies n1[#[trigger] cand[k] as int].next == (if k
        == cand.len() - 1 {
        None
    } else {
        Some(cand[k + 1])
    }) by {
        assert(cand[k] == ord0[k + 1]);
        if k < cand.len() - 1 {
            assert(cand[k + 1] == ord0[k + 2]);
        }
        if ord0.len() > 1 && ord0[k + 1] != ord0[1] {
            assert(n1[ord0[k + 1] as int].next == n0[ord0[k + 1] as int].next);
        }
    }
    assert forall|k: int| 0 <= k < cand.len() implies n1[#[trigger] cand[k] as int].prev == (if k
        == 0 {
        None
    } else {
        Some(cand[k - 1])
    }) by {
        assert(cand[k] == ord0[k + 1]);
        if k > 0 {
            assert(cand[k - 1] == ord0[k]);
            assert(ord0[k + 1] != ord0[1]);
            assert(n1[ord0[k + 1] as int].prev == n0[ord0[k + 1] as int].prev);
        }
    }
    if cand.len() > 0 {
        assert(cand[cand.len() - 1] == ord0[ord0.len() - 1]);
    }
    assert(links_ok(n1, head1, tail1, cand));
    assert forall|k: int| 0 <= k < cand.len() implies seq_at(n1, cand)[k] == seq_at(n0, ord0)[k
        + 1] by {
        assert(cand[k] == ord0[k + 1]);
        if ord0.len() > 1 && ord0[k + 1] != ord0[1] {
            assert(n1[ord0[k + 1] as int].value == n0[ord0[k + 1] as int].value);
        }
    }
    assert(seq_at(n1, cand) =~= seq_at(n0, ord0).drop_first());
}

/// Detaching the last chain node (clearing its predecessor's `next` and
/// moving the tail there, or emptying the list) leaves the arena well linked
/// along the rest of the chain, with the values unchanged.
#[verifier::rlimit(100)]
#[verifier::spinoff_prover]
proof fn lemma_detach_last<T>(
    n0: Seq<Node<T>>,
    n1: Seq<Node<T>>,
    head0: Option<usize>,
    tail0: Option<usize>,
    head1: Option<usize>,
    tail1: Option<usize>,
    ord0: Seq<usize>,
)
    requires
        links_ok(n0, head0, tail0, ord0),
        ord0.len() >= 1,
        n1.len() == n0.len(),
        ord0.len() == 1 ==> n1 == n0 && head1 is None && tail1 is None,
        ord0.len() > 1 ==> tail1 == Some(ord0[ord0.len() - 2]) && head1 == head0 && n1[ord0[ord0.len()
            - 2] as int].next is None && n1[ord0[ord0.len() - 2] as int].prev == n0[ord0[ord0.len()
            - 2] as int].prev && n1[ord0[ord0.len() - 2] as int].value == n0[ord0[ord0.len()
            - 2] as int].value && (forall|i: int|
            0 <= i < n0.len() && i != ord0[ord0.len() - 2] ==> n1[i] == n0[i]),
    ensures
        links_ok(n1, head1, tail1, ord0.drop_last()),
        forall|k: int| 0 <= k < ord0.drop_last().len() ==> #[trigger] ord0.drop_last()[k] != ord0[
            ord0.len() - 1],
        seq_at(n1, ord0.drop_last()) == seq_at(n0, ord0).drop_last(),
{
    let cand = ord0.drop_last();
    let len0 = ord0.len();
    assert forall|k: int| 0 <= k < cand.len() implies #[trigger] cand[k] != ord0[len0 - 1] by {
        assert(cand[k] == ord0[k]);
    }
    assert forall|k: int| 0 <= k < cand.len() implies (#[trigger] cand[k] as int) < n1.len() by {
        assert(cand[k] == ord0[k]);
    }
    assert forall|k1: int, k2: int| 0 <= k1 < k2 < cand.len() implies cand[k1] != cand[k2] by {
        assert(cand[k1] == ord0[k1] && cand[k2] == ord0[k2]);
    }
    assert forall|k: int| 0 <= k < cand.len() implies n1[#[trigger] cand[k] as int].next == (if k
        == cand.len() - 1 {
        None
    } else {
        Some(cand[k + 1])
    }) by {
        assert(cand[k] == ord0[k]);
        if k < cand.len() - 1 {
            assert(cand[k + 1] == ord0[k + 1]);
            assert(ord0[k] != ord0[len0 - 2]);
            assert(n1[ord0[k] as int].next == n0[ord0[k] as int].next);
        }
    }
    assert forall|k: int| 0 <= k < cand.len() implies n1[#[trigger] cand[k] as int].prev == (if k
        == 0 {
        None
    } else {
        Some(cand[k - 1])
    }) by {
        assert(cand[k] == ord0[k]);
        if k > 0 {
            assert(cand[k - 1] == ord0[k - 1]);
        }
        if ord0.len() > 1 && ord0[k] != ord0[len0 - 2] {
            assert(n1[ord0[k] as int].prev == n0[ord0[k] as int].prev);
        }
    }
    if cand.len() > 0 {
        assert(cand[0] == ord0[0]);
    }
    assert(links_ok(n1, head1, tail1, cand));
    assert forall|k: int| 0 <= k < cand.len() implies seq_at(n1, cand)[k] == seq_at(n0, ord0)[k]
    by {
        assert(cand[k] == ord0[k]);
        if ord0.len() > 1 && ord0[k] != ord0[len0 - 2] {
            assert(n1[ord0[k] as int].value == n0[ord0[k] as int].value);
        }
    }
    assert(seq_at(n1, cand) =~= seq_at(n0, ord0).drop_last());
}

/// In a dense arena with one detached slot `r`, locate the last slot's node
/// in the chain and read off its neighbours, all of which lie below the
/// last slot.
#[verifier::rlimit(100)]
#[verifier::spinoff_prover]
proof fn lemma_moved_neighbors<T>(
    n0: Seq<Node<T>>,
    head0: Option<usize>,
    tail0: Option<usize>,
    cand: Seq<usize>,
    r: usize,
) -> (q: int)
    requires
        links_ok(n0, head0, tail0, cand),
        cand.len() == n0.len() - 1,
        forall|k: int| 0 <= k < cand.len() ==> #[trigger] cand[k] != r,
        (r as int) < n0.len() - 1,
        n0.len() <= usize::MAX,
    ensures
        0 <= q < cand.len(),
        cand[q] == (n0.len() - 1) as usize,
        n0[n0.len() - 1].prev == (if q == 0 {
            None::<usize>
        } else {
            Some(cand[q - 1])
        }),
        n0[n0.len() - 1].next == (if q == cand.len() - 1 {
            None::<usize>
        } else {
            Some(cand[q + 1])
        }),
        q > 0 ==> (cand[q - 1] as int) < n0.len() - 1,
        q < cand.len() - 1 ==> (cand[q + 1] as int) < n0.len() - 1,
{
    let q = lemma_last_in_chain(n0, head0, tail0, cand, r);
    if q > 0 {
        assert(cand[q - 1] != cand[q]);
        assert((cand[q - 1] as int) < n0.len());
    }
    if q < cand.len() - 1 {
        assert(cand[q + 1] != cand[q]);
        assert((cand[q + 1] as int) < n0.len());
    }
    q
}

impl<T> View for LinkedList<T> {
    type V = Seq<T>;

    closed spec fn view(&self) -> Seq<T> {
        seq_at(self.nodes@, self.ord())
    }
}

impl<T> LinkedList<T> {
    /// The chain of arena indices in list order, read off the `next` links.
    closed spec fn ord(self) -> Seq<usize> {
        chain(self.nodes@, self.head, self.nodes@.len() as nat)
    }

    /// The chain covers the whole arena, the links in both directions agree
    /// with it, and the stored size matches.
    pub closed spec fn wf(self) -> bool {
        &&& self.size == self.nodes@.len()
        &&& self.ord().len() == self.nodes@.len()
        &&& links_ok(self.nodes@, self.head, self.tail, self.ord())
    }

    /// Create an empty linked list.
    pub fn new() -> (ll: Self)
        ensures
            ll.wf(),
            ll@ == Seq::<T>::empty(),
    {
        let ll = Self { nodes: Vec::new(), head: None, tail: None, size: 0 };
        proof {
            assert(ll.ord() =~= Seq::<usize>::empty());
            assert(ll@ =~= Seq::<T>::empty());
        }
        ll
    }

    /// Get the number of nodes in the linked list.
    pub fn len(&self) -> (n: usize)
        requires
            self.wf(),
        ensures
            n == self@.len(),
    {
        self.size
    }

    /// Walk the `next` links from the head and return the arena index of the
    /// node at the given list position.
    fn locate(&self, index: usize) -> (j: usize)
        requires
            self.wf(),
            index < self@.len(),
        ensures
            j == self.ord()[index as int],
    {
        let mut k: usize = 0;
        let mut j: usize = self.head.unwrap();
        while k < index
            invariant
                self.wf(),
                index < self.ord().len(),
                0 <= k <= index,
                j == self.ord()[k as int],
            decreases index - k,
        {
            j = self.nodes[j].next.unwrap();
            k = k + 1;
        }
        j
    }

    /// Set the value at a node by index.
    pub fn set_value(&mut self, index: usize, value: T) -> (r: Result<(), LinkedListError>)
        requires
            old(self).wf(),
        ensures
            index < old(self)@.len() ==> r is Ok && final(self).wf() && final(self)@ == old(
                self,
            )@.update(index as int, value),
            index >= old(self)@.len() ==> *final(self) == *old(self) && r == Err::<
                (),
                LinkedListError,
            >(LinkedListError::IndexOutOfBounds),
    {
        if index < self.size {
            let j = self.locate(index);
            let slot = &mut self.nodes[j];
            slot.value = value;
            proof {
                let ord0 = old(self).ord();
                let n0 = old(self).nodes@;
                let n1 = self.nodes@;
                assert forall|k: int| 0 <= k < ord0.len() implies n1[#[trigger] ord0[k] as int].next
                    == n0[ord0[k] as int].next && n1[ord0[k] as int].prev == n0[ord0[k] as int].prev
                by {}
                assert(next_chain_ok(n1, self.head, ord0));
                lemma_chain_agrees(n1, self.head, ord0, n1.len() as nat);
                assert(self.ord() == ord0);
                assert(links_ok(n1, self.head, self.tail, ord0));
                assert(self@ =~= old(self)@.update(index as int, value));
            }
            Ok(())
        } else {
            Err(LinkedListError::IndexOutOfBounds)
        }
    }

    /// Insert a value in a new node at a given index in the linked list.
    pub fn push(&mut self, index: usize, value: T) -> (r: Result<(), LinkedListError>)
        requires
            old(self).wf(),
        ensures
            index <= old(self)@.len() ==> r is Ok && final(self).wf() && final(self)@ == old(
                self,
            )@.insert(index as int, value),
            index > old(self)@.len() ==> *final(self) == *old(self) && r == Err::<
                (),
                LinkedListError,
            >(LinkedListError::IndexOutOfBounds),
    {
        if index == 0 {
            self.push_front(value);
            Ok(())
        } else if index == self.size {
            self.push_back(value);
            proof {
                assert(old(self)@.insert(index as int, value) =~= old(self)@.push(value));
            }
            Ok(())
        } else if index < self.size {
            let j = self.locate(index);
            let p = self.nodes[j].prev.unwrap();
            let m = self.nodes.len();
            self.nodes.push(Node { value, next: Some(j), prev: Some(p) });
            let pslot = &mut self.nodes[p];
            pslot.next = Some(m);
            let jslot = &mut self.nodes[j];
            jslot.prev = Some(m);
            self.size = self.nodes.len();
            proof {
                let ord0 = old(self).ord();
                let ord1 = ord0.insert(index as int, m);
                lemma_splice_in(
                    old(self).nodes@,
                    self.nodes@,
                    self.head,
                    self.tail,
                    ord0,
                    index as int,
                    m,
                    j,
                    p,
                    value,
                );
                lemma_chain_agrees(self.nodes@, self.head, ord1, self.nodes@.len() as nat);
                assert(self.ord() == ord1);
                assert(self@ == old(self)@.insert(index as int, value));
            }
            Ok(())
        } else {
            Err(LinkedListError::IndexOutOfBounds)
        }
    }

    /// Insert a value at the start of the linked list.
    pub fn push_front(&mut self, value: T)
        requires
            old(self).wf(),
        ensures
            final(self).wf(),
            final(self)@ == old(self)@.insert(0, value),
    {
        let m = self.nodes.len();
        let old_head = self.head;
        self.nodes.push(Node { value, next: old_head, prev: None });
        match old_head {
            Some(h) => {
                let slot = &mut self.nodes[h];
                slot.prev = Some(m);
            },
            None => {
                self.tail = Some(m);
            },
        }
        self.head = Some(m);
        self.size = self.nodes.len();
        proof {
            let ord0 = old(self).ord();
            let ord1 = seq![m] + ord0;
            let n0 = old(self).nodes@;
            let n1 = self.nodes@;
            assert forall|k: int| 0 <= k < ord1.len() implies (#[trigger] ord1[k] as int)
                < n1.len() by {
                if k > 0 {
                    assert(ord1[k] == ord0[k - 1]);
                }
            }
            assert forall|k: int| 0 <= k < ord1.len() implies n1[#[trigger] ord1[k] as int].next
                == (if k == ord1.len() - 1 {
                None
            } else {
                Some(ord1[k + 1])
            }) by {
                if k > 0 {
                    assert(ord1[k] == ord0[k - 1]);
                    assert(n1[ord0[k - 1] as int].next == n0[ord0[k - 1] as int].next);
                }
            }
            assert(next_chain_ok(n1, self.head, ord1));
            assert forall|k: int| 0 <= k < ord1.len() implies n1[#[trigger] ord1[k] as int].prev
                == (if k == 0 {
                None
            } else {
                Some(ord1[k - 1])
            }) by {
                if k > 1 {
                    assert(ord1[k] == ord0[k - 1]);
                    assert(n1[ord0[k - 1] as int].prev == n0[ord0[k - 1] as int].prev);
                }
            }
            assert forall|k1: int, k2: int| 0 <= k1 < k2 < ord1.len() implies ord1[k1] != ord1[k2] by {
                if k1 > 0 {
                    assert(ord1[k1] == ord0[k1 - 1] && ord1[k2] == ord0[k2 - 1]);
                } else {
                    assert(ord1[k2] == ord0[k2 - 1]);
                }
            }
            lemma_chain_agrees(n1, self.head, ord1, n1.len() as nat);
            assert(self.ord() == ord1);
            assert(links_ok(n1, self.head, self.tail, ord1));
            assert(self@ =~= old(self)@.insert(0, value));
        }
    }

    /// Insert a value at the end of the linked list.
    pub fn push_back(&mut self, value: T)
        requires
            old(self).wf(),
        ensures
            final(self).wf(),
            final(self)@ == old(self)@.push(value),
    {
        let m = self.nodes.len();
        let old_tail = self.tail;
        self.nodes.push(Node { value, next: None, prev: old_tail });
        match old_tail {
            Some(t) => {
                let slot = &mut self.nodes[t];
                slot.next = Some(m);
            },
            None => {
                self.head = Some(m);
            },
        }
        self.tail = Some(m);
        self.size = self.nodes.len();
        proof {
            let ord0 = old(self).ord();
            let ord1 = ord0.push(m);
            let n0 = old(self).nodes@;
            let n1 = self.nodes@;
            assert forall|k: int| 0 <= k < ord1.len() implies (#[trigger] ord1[k] as int)
                < n1.len() by {
                if k < ord0.len() {
                    assert(ord1[k] == ord0[k]);
                }
            }
            assert forall|k: int| 0 <= k < ord1.len() implies n1[#[trigger] ord1[k] as int].next
                == (if k == ord1.len() - 1 {
                None
            } else {
                Some(ord1[k + 1])
            }) by {
                if k < ord0.len() - 1 {
                    assert(ord1[k] == ord0[k]);
                    assert(n1[ord0[k] as int].next == n0[ord0[k] as int].next);
                }
            }
            assert(next_chain_ok(n1, self.head, ord1));
            assert forall|k: int| 0 <= k < ord1.len() implies n1[#[trigger] ord1[k] as int].prev
                == (if k == 0 {
                None
            } else {
                Some(ord1[k - 1])
            }) by {
                if k < ord0.len() {
                    assert(ord1[k] == ord0[k]);
                    assert(n1[ord0[k] as int].prev == n0[ord0[k] as int].prev);
                }
            }
            assert forall|k1: int, k2: int| 0 <= k1 < k2 < ord1.len() implies ord1[k1] != ord1[k2] by {
                if k2 < ord0.len() {
                    assert(ord1[k1] == ord0[k1] && ord1[k2] == ord0[k2]);
                } else {
                    assert(ord1[k1] == ord0[k1]);
                }
            }
            lemma_chain_agrees(n1, self.head, ord1, n1.len() as nat);
            assert(self.ord() == ord1);
            assert(links_ok(n1, self.head, self.tail, ord1));
            assert(self@ =~= old(self)@.push(value));
        }
    }

    /// Remove the arena slot `r`, which the chain `cand` no longer reaches,
    /// by moving the last slot's node into it and renaming the links that
    /// pointed there. Returns the detached node's value and the renamed
    /// chain.
    #[verifier::rlimit(100)]
    #[verifier::spinoff_prover]
    fn remove_slot(&mut self, r: usize, Ghost(cand): Ghost<Seq<usize>>) -> (res: (
        T,
        Ghost<Seq<usize>>,
    ))
        requires
            (r as int) < old(self).nodes@.len(),
            old(self).nodes@.len() <= usize::MAX,
            cand.len() == old(self).nodes@.len() - 1,
            links_ok(old(self).nodes@, old(self).head, old(self).tail, cand),
            forall|k: int| 0 <= k < cand.len() ==> #[trigger] cand[k] != r,
        ensures
            res.0 == old(self).nodes@[r as int].value,
            final(self).nodes@.len() == old(self).nodes@.len() - 1,
            final(self).size == old(self).size,
            res.1@.len() == cand.len(),
            links_ok(final(self).nodes@, final(self).head, final(self).tail, res.1@),
            seq_at(final(self).nodes@, res.1@) == seq_at(old(self).nodes@, cand),
    {
        let ghost n0 = old(self).nodes@;
        let ghost mut cand2: Seq<usize> = cand;
        let node = self.nodes.swap_remove(r);
        let last = self.nodes.len();
        if r < last {
            let moved_prev = self.nodes[r].prev;
            let moved_next = self.nodes[r].next;
            let ghost mut q: int = 0;
            proof {
                q = lemma_moved_neighbors(n0, old(self).head, old(self).tail, cand, r);
                assert(moved_prev == n0[n0.len() - 1].prev);
                assert(moved_next == n0[n0.len() - 1].next);
            }
            match moved_prev {
                Some(p) => {
                    let slot = &mut self.nodes[p];
                    slot.next = Some(r);
                },
                None => {
                    self.head = Some(r);
                },
            }
            match moved_next {
                Some(nx) => {
                    let slot = &mut self.nodes[nx];
                    slot.prev = Some(r);
                },
                None => {
                    self.tail = Some(r);
                },
            }
            proof {
                assert(swapped_arena(n0, self.nodes@, r));
                cand2 = lemma_swap_rename(
                    n0,
                    self.nodes@,
                    old(self).head,
                    old(self).tail,
                    self.head,
                    self.tail,
                    cand,
                    r,
                    q,
                );
            }
            (node.value, Ghost(cand2))
        } else {
            proof {
                let n1 = self.nodes@;
                assert forall|k: int| 0 <= k < cand.len() implies n1[#[trigger] cand[k] as int]
                    == n0[cand[k] as int] by {
                    assert(cand[k] != r);
                    assert((cand[k] as int) < n0.len());
                }
                assert(links_ok(n1, self.head, self.tail, cand));
                assert(seq_at(n1, cand) =~= seq_at(n0, cand));
            }
            (node.value, Ghost(cand))
        }
    }

    /// Remove the first node, returning the node's owned value.
    pub fn pop_front(&mut self) -> (r: Result<T, LinkedListError>)
        requires
            old(self).wf(),
        ensures
            final(self).wf(),
            old(self)@.len() > 0 ==> r == Ok::<T, LinkedListError>(old(self)@[0]) && final(self)@
                == old(self)@.drop_first(),
            old(self)@.len() == 0 ==> *final(self) == *old(self) && r == Err::<
                T,
                LinkedListError,
            >(LinkedListError::IndexOutOfBounds),
    {
        if self.size == 0 {
            return Err(LinkedListError::IndexOutOfBounds);
        }
        let ghost ord0 = old(self).ord();
        let ghost n0 = old(self).nodes@;
        let h = self.head.unwrap();
        let hnext = self.nodes[h].next;
        match hnext {
            Some(j) => {
                proof {
                    assert(j == ord0[1]);
                }
                let slot = &mut self.nodes[j];
                slot.prev = None;
                self.head = Some(j);
            },
            None => {
                self.head = None;
                self.tail = None;
            },
        }
        let ghost cand = ord0.drop_first();
        proof {
            lemma_detach_first(n0, self.nodes@, old(self).head, old(self).tail, self.head, self.tail, ord0);
        }
        let (value, ghost_cand2) = self.remove_slot(h, Ghost(cand));
        self.size = self.size - 1;
        proof {
            let cand2 = ghost_cand2@;
            lemma_chain_agrees(self.nodes@, self.head, cand2, self.nodes@.len() as nat);
            assert(self.ord() == cand2);
            assert(self@ =~= old(self)@.drop_first());
        }
        Ok(value)
    }

    /// Remove the last node, returning the node's owned value.
    pub fn pop_back(&mut self) -> (r: Result<T, LinkedListError>)
        requires
            old(self).wf(),
        ensures
            final(self).wf(),
            old(self)@.len() > 0 ==> r == Ok::<T, LinkedListError>(old(self)@.last())
                && final(self)@ == old(self)@.drop_last(),
            old(self)@.len() == 0 ==> *final(self) == *old(self) && r == Err::<
                T,
                LinkedListError,
            >(LinkedListError::IndexOutOfBounds),
    {
        if self.size == 0 {
            return Err(LinkedListError::IndexOutOfBounds);
        }
        let ghost ord0 = old(self).ord();
        let ghost n0 = old(self).nodes@;
        let t = self.tail.unwrap();
        let tprev = self.nodes[t].prev;
        match tprev {
            Some(p) => {
                proof {
                    assert(t == ord0[ord0.len() - 1]);
                    assert(p == ord0[ord0.len() - 2]);
                }
                let slot = &mut self.nodes[p];
                slot.next = None;
                self.tail = Some(p);
            },
            None => {
                self.head = None;
                self.tail = None;
            },
        }
        let ghost cand = ord0.drop_last();
        proof {
            lemma_detach_last(n0, self.nodes@, old(self).head, old(self).tail, self.head, self.tail, ord0);
        }
        let (value, ghost_cand2) = self.remove_slot(t, Ghost(cand));
        self.size = self.size - 1;
        proof {
            let cand2 = ghost_cand2@;
            lemma_chain_agrees(self.nodes@, self.head, cand2, self.nodes@.len() as nat);
            assert(self.ord() == cand2);
            assert(self@ =~= old(self)@.drop_last());
        }
        Ok(value)
    }

    /// Remove the node at a given index, returning the node's owned value.
    pub fn pop(&mut self, index: usize) -> (r: Result<T, LinkedListError>)
        requires
            old(self).wf(),
        ensures
            index < old(self)@.len() ==> r == Ok::<T, LinkedListError>(old(self)@[index as int])
                && final(self).wf() && final(self)@ == old(self)@.remove(index as int),
            index >= old(self)@.len() ==> *final(self) == *old(self) && r == Err::<
                T,
                LinkedListError,
            >(LinkedListError::IndexOutOfBounds),
    {
        if index >= self.size {
            Err(LinkedListError::IndexOutOfBounds)
        } else if index == 0 {
            let r = self.pop_front();
            proof {
                assert(old(self)@.remove(0) =~= old(self)@.drop_first());
            }
            r
        } else if index == self.size - 1 {
            let r = self.pop_back();
            proof {
                assert(old(self)@.remove(old(self)@.len() - 1) =~= old(self)@.drop_last());
            }
            r
        } else {
            let ghost ord0 = old(self).ord();
            let ghost n0 = old(self).nodes@;
            let j = self.locate(index);
            let p = self.nodes[j].prev.unwrap();
            let nx = self.nodes[j].next.unwrap();
            proof {
                assert(p == ord0[index - 1] && nx == ord0[index + 1]);
                assert(ord0[index - 1] != ord0[index as int]);
                assert(ord0[index + 1] != ord0[index as int]);
            }
            let pslot = &mut self.nodes[p];
            pslot.next = Some(nx);
            let nxslot = &mut self.nodes[nx];
            nxslot.prev = Some(p);
            let ghost cand = ord0.remove(index as int);
            proof {
                assert(unspliced_arena(n0, self.nodes@, p, nx));
                lemma_splice_out(
                    n0,
                    self.nodes@,
                    self.head,
                    self.tail,
                    ord0,
                    index as int,
                    j,
                    p,
                    nx,
                );
            }
            let (value, ghost_cand2) = self.remove_slot(j, Ghost(cand));
            self.size = self.size - 1;
            proof {
                let cand2 = ghost_cand2@;
                lemma_chain_agrees(self.nodes@, self.head, cand2, self.nodes@.len() as nat);
                assert(self.ord() == cand2);
                assert(self@ == seq_at(n0, ord0).remove(index as int));
            }
            Ok(value)
        }
    }

    /// Clear the linked list.
    pub fn clear(&mut self)
        ensures
            final(self).wf(),
            final(self)@ == Seq::<T>::empty(),
    {
        self.nodes.clear();
        self.head = None;
        self.tail = None;
        self.size = 0;
        proof {
            assert(self.ord() =~= Seq::<usize>::empty());
            assert(self@ =~= Seq::<T>::empty());
        }
    }
}

impl<T> LinkedList<T> {
    /// Reverse the elements in the linked list in place.
    pub fn reverse(&mut self)
        requires
            old(self).wf(),
        ensures
            final(self).wf(),
            final(self)@ == old(self)@.reverse(),
    {
        let ghost n = old(self)@.len() as int;
        let mut orig = Self::new();
        core::mem::swap(&mut orig, self);
        let ghost mut i = 0int;
        proof {
            assert(self@ =~= old(self)@.take(0).reverse());
        }
        while orig.len() > 0
            invariant
                0 <= i <= n,
                n == old(self)@.len(),
                orig.wf(),
                self.wf(),
                orig@ == old(self)@.skip(i),
                self@ == old(self)@.take(i).reverse(),
            decreases n - i,
        {
            let value = orig.pop_front().unwrap();
            self.push_front(value);
            proof {
                i = i + 1;
                assert(orig@ =~= old(self)@.skip(i));
                assert(self@ =~= old(self)@.take(i).reverse());
            }
        }
        proof {
            assert(old(self)@.take(n) =~= old(self)@);
        }
    }

    /// Build a linked list from a vector, keeping the values in order, by
    /// repeatedly prepending the vector's values from its back to its front.
    pub fn from_vec(values: Vec<T>) -> (ll: Self)
        ensures
            ll.wf(),
            ll@ == values@,
    {
        let ghost full = values@;
        let mut vector = values;
        let mut ll = Self::new();
        while vector.len() > 0
            invariant
                ll.wf(),
                vector@ + ll@ == full,
            decreases vector@.len(),
        {
            let value = vector.pop().unwrap();
            let pushed = ll.push(0, value);
            proof {
                assert(pushed is Ok);
                assert(vector@ + ll@ =~= full);
            }
        }
        proof {
            assert(ll@ =~= full);
        }
        ll
    }

    /// Turn the list into an iterator that drains its values.
    pub fn into_iter(self) -> (it: IntoIter<T>)
        requires
            self.wf(),
        ensures
            it.wf(),
            it@ == self@,
    {
        IntoIter(self)
    }

    /// Flatten the linked list into a vector, keeping the values in order,
    /// by repeatedly removing the front value until the list is empty.
    pub fn into_vec(self) -> (v: Vec<T>)
        requires
            self.wf(),
        ensures
            v@ == self@,
    {
        let ghost full = self@;
        let mut ll = self;
        let mut vector: Vec<T> = Vec::new();
        while ll.len() > 0
            invariant
                ll.wf(),
                vector@ + ll@ == full,
            decreases ll@.len(),
        {
            let value = ll.pop_front().unwrap();
            vector.push(value);
            proof {
                assert(vector@ + ll@ =~= full);
            }
        }
        proof {
            assert(vector@ =~= full);
        }
        vector
    }
}

impl<T> From<Vec<T>> for LinkedList<T> {
    /// Build a linked list holding the vector's values in order.
    fn from(vector: Vec<T>) -> (ll: Self)
        ensures
            ll.wf(),
            ll@ == vector@,
    {
        Self::from_vec(vector)
    }
}

impl<T> vstd::std_specs::convert::FromSpecImpl<Vec<T>> for LinkedList<T> {
    open spec fn obeys_from_spec() -> bool {
        false
    }

    open spec fn from_spec(vector: Vec<T>) -> Self {
        choose|ll: LinkedList<T>| ll.wf() && ll@ == vector@
    }
}

impl<'a, T: Clone> From<&'a [T]> for LinkedList<T> {
    /// Build a linked list holding clones of the slice's values in order.
    fn from(arr: &'a [T]) -> (ll: Self)
        ensures
            ll@.len() == arr@.len(),
            forall|i: int| 0 <= i < ll@.len() ==> cloned::<T>(arr@[i], #[trigger] ll@[i]),
            ll.wf(),
    {
        Self::from_vec(crate::clone_values(arr))
    }
}

impl<'a, T: Clone> vstd::std_specs::convert::FromSpecImpl<&'a [T]> for LinkedList<T> {
    open spec fn obeys_from_spec() -> bool {
        false
    }

    open spec fn from_spec(arr: &'a [T]) -> Self {
        choose|ll: LinkedList<T>|
            ll.wf() && ll@.len() == arr@.len() && (forall|i: int|
                0 <= i < ll@.len() ==> cloned::<T>(arr@[i], #[trigger] ll@[i]))
    }
}

impl<'a, T: Clone> From<&'a mut [T]> for LinkedList<T> {
    /// Build a linked list holding clones of the slice's values in order.
    fn from(arr: &'a mut [T]) -> (ll: Self)
        ensures
            ll@.len() == old(arr)@.len(),
            forall|i: int| 0 <= i < ll@.len() ==> cloned::<T>(old(arr)@[i], #[trigger] ll@[i]),
            ll.wf(),
            final(arr)@ == old(arr)@,
    {
        Self::from_vec(crate::clone_values(arr))
    }
}

impl<'a, T: Clone> vstd::std_specs::convert::FromSpecImpl<&'a mut [T]> for LinkedList<T> {
    open spec fn obeys_from_spec() -> bool {
        false
    }

    open spec fn from_spec(arr: &'a mut [T]) -> Self {
        choose|ll: LinkedList<T>|
            ll.wf() && ll@.len() == arr@.len() && (forall|i: int|
                0 <= i < ll@.len() ==> cloned::<T>(arr@[i], #[trigger] ll@[i]))
    }
}

impl<'a, T: Clone, const N: usize> From<&'a [T; N]> for LinkedList<T> {
    /// Build a linked list holding clones of the array's values in order.
    fn from(arr: &'a [T; N]) -> (ll: Self)
        ensures
            ll@.len() == arr@.len(),
            forall|i: int| 0 <= i < ll@.len() ==> cloned::<T>(arr@[i], #[trigger] ll@[i]),
            ll.wf(),
    {
        Self::from_vec(crate::clone_values(arr.as_slice()))
    }
}

impl<'a, T: Clone, const N: usize> vstd::std_specs::convert::FromSpecImpl<&'a [T; N]> for LinkedList<T> {
    open spec fn obeys_from_spec() -> bool {
        false
    }

    open spec fn from_spec(arr: &'a [T; N]) -> Self {
        choose|ll: LinkedList<T>|
            ll.wf() && ll@.len() == arr@.len() && (forall|i: int|
                0 <= i < ll@.len() ==> cloned::<T>(arr@[i], #[trigger] ll@[i]))
    }
}

impl<'a, T: Clone, const N: usize> From<&'a mut [T; N]> for LinkedList<T> {
    /// Build a linked list holding clones of the array's values in order.
    fn from(arr: &'a mut [T; N]) -> (ll: Self)
        ensures
            ll@.len() == old(arr)@.len(),
            forall|i: int| 0 <= i < ll@.len() ==> cloned::<T>(old(arr)@[i], #[trigger] ll@[i]),
            ll.wf(),
    {
        Self::from_vec(crate::clone_values(arr.as_slice()))
    }
}

impl<'a, T: Clone, const N: usize> vstd::std_specs::convert::FromSpecImpl<&'a mut [T; N]> for LinkedList<T> {
    open spec fn obeys_from_spec() -> bool {
        false
    }

    open spec fn from_spec(arr: &'a mut [T; N]) -> Self {
        choose|ll: LinkedList<T>|
            ll.wf() && ll@.len() == arr@.len() && (forall|i: int|
                0 <= i < ll@.len() ==> cloned::<T>(arr@[i], #[trigger] ll@[i]))
    }
}

impl<T, const N: usize> From<[T; N]> for LinkedList<T> {
    /// Build a linked list holding the array's values in order.
    fn from(arr: [T; N]) -> (ll: Self)
        ensures
            ll.wf(),
            ll@ == arr@,
    {
        Self::from_vec(crate::array_into_vec(arr))
    }
}

impl<T, const N: usize> vstd::std_specs::convert::FromSpecImpl<[T; N]> for LinkedList<T> {
    open spec fn obeys_from_spec() -> bool {
        false
    }

    open spec fn from_spec(arr: [T; N]) -> Self {
        choose|ll: LinkedList<T>| ll.wf() && ll@ == arr@
    }
}

impl<T> Default for LinkedList<T> {
    /// The default linked list is empty.
    fn default() -> (ll: Self)
        ensures
            ll.wf(),
            ll@ == Seq::<T>::empty(),
    {
        Self::new()
    }
}

/// Whether two value sequences have the same length and agree position by
/// position under `T`'s equality specification.
pub open spec fn seqs_agree<T: PartialEq>(x: Seq<T>, y: Seq<T>) -> bool {
    x.len() == y.len() && (forall|i: int| 0 <= i < x.len() ==> #[trigger] x[i].eq_spec(&y[i]))
}

impl<T: PartialEq> PartialEq for LinkedList<T> {
    /// Two lists are equal when they hold equal values in the same order.
    /// The `prev` links and the tail handle take no part in the comparison.
    fn eq(&self, other: &Self) -> (r: bool)
        ensures
            (<T as PartialEqSpec>::obeys_eq_spec() && self.wf() && other.wf()) ==> (r
                <==> seqs_agree(self@, other@)),
    {
        if self.size != other.size {
            return false;
        }
        let mut k: usize = 0;
        let mut a = self.head;
        let mut b = other.head;
        while k < self.size
            invariant
                0 <= k <= self.size,
                self.size == other.size,
                (self.wf() && other.wf()) ==> {
                    &&& a == (if (k as int) < self.ord().len() {
                        Some(self.ord()[k as int])
                    } else {
                        None::<usize>
                    })
                    &&& b == (if (k as int) < other.ord().len() {
                        Some(other.ord()[k as int])
                    } else {
                        None::<usize>
                    })
                },
                (<T as PartialEqSpec>::obeys_eq_spec() && self.wf() && other.wf()) ==> (forall|
                    i: int,
                |
                    0 <= i < k ==> #[trigger] self@[i].eq_spec(&other@[i])),
            decreases self.size - k,
        {
            let (i, j) = match (a, b) {
                (Some(i), Some(j)) => (i, j),
                _ => {
                    proof {
                        if self.wf() && other.wf() {
                            assert(false);
                        }
                    }
                    return false;
                },
            };
            if i >= self.nodes.len() || j >= other.nodes.len() {
                proof {
                    if self.wf() && other.wf() {
                        assert(false);
                    }
                }
                return false;
            }
            if !(self.nodes[i].value == other.nodes[j].value) {
                proof {
                    if <T as PartialEqSpec>::obeys_eq_spec() && self.wf() && other.wf() {
                        assert(self@[k as int] == self.nodes@[self.ord()[k as int] as int].value);
                        assert(other@[k as int] == other.nodes@[other.ord()[k as int] as int].value);
                        assert(!self@[k as int].eq_spec(&other@[k as int]));
                        assert(!seqs_agree(self@, other@));
                    }
                }
                return false;
            }
            a = self.nodes[i].next;
            b = other.nodes[j].next;
            k = k + 1;
        }
        proof {
            if <T as PartialEqSpec>::obeys_eq_spec() && self.wf() && other.wf() {
                assert(seqs_agree(self@, other@));
            }
        }
        true
    }
}

impl<T: PartialEq> vstd::std_specs::cmp::PartialEqSpecImpl for LinkedList<T> {
    open spec fn obeys_eq_spec() -> bool {
        false
    }

    open spec fn eq_spec(&self, other: &Self) -> bool {
        seqs_agree(self@, other@)
    }
}

impl<T: core::fmt::Debug> LinkedList<T> {
    /// Move the values out into a fixed-size array; fails unless the list
    /// holds exactly as many values as the array has room for.
    pub fn try_into_array<const N: usize>(self) -> (r: Result<[T; N], LinkedListError>)
        requires
            self.wf(),
        ensures
            self@.len() == N ==> (r matches Ok(arr) && arr@ == self@),
            self@.len() != N ==> r == Err::<[T; N], LinkedListError>(
                LinkedListError::InvalidArraySize,
            ),
    {
        if self.size == N {
            Ok(crate::vec_into_array(self.into_vec()))
        } else {
            Err(LinkedListError::InvalidArraySize)
        }
    }
}

/// An iterator over a linked list, draining it from either end.
pub struct IntoIter<T>(LinkedList<T>);

impl<T> View for IntoIter<T> {
    type V = Seq<T>;

    /// The values the iterator has not yet handed out.
    closed spec fn view(&self) -> Seq<T> {
        self.0@
    }
}

impl<T> IntoIter<T> {
    /// The wrapped list is well formed.
    pub closed spec fn wf(self) -> bool {
        self.0.wf()
    }

    /// Take the next value from the front, or `None` past the last one.
    pub fn next(&mut self) -> (r: Option<T>)
        requires
            old(self).wf(),
        ensures
            final(self).wf(),
            old(self)@.len() > 0 ==> r == Some(old(self)@[0]) && final(self)@ == old(
                self,
            )@.drop_first(),
            old(self)@.len() == 0 ==> r is None && *final(self) == *old(self),
    {
        match self.0.pop_front() {
            Ok(value) => Some(value),
            Err(_) => None,
        }
    }

    /// Take the next value from the back, or `None` past the last one.
    pub fn next_back(&mut self) -> (r: Option<T>)
        requires
            old(self).wf(),
        ensures
            final(self).wf(),
            old(self)@.len() > 0 ==> r == Some(old(self)@.last()) && final(self)@ == old(
                self,
            )@.drop_last(),
            old(self)@.len() == 0 ==> r is None && *final(self) == *old(self),
    {
        match self.0.pop_back() {
            Ok(value) => Some(value),
            Err(_) => None,
        }
    }
}

impl<T: Copy> LinkedList<T> {
    /// Gets a copy of the value at a given index.
    pub fn get(&self, index: usize) -> (r: Result<T, LinkedListError>)
        requires
            self.wf(),
        ensures
            index < self@.len() ==> r == Ok::<T, LinkedListError>(self@[index as int]),
            index >= self@.len() ==> r == Err::<T, LinkedListError>(
                LinkedListError::IndexOutOfBounds,
            ),
    {
        if index < self.size {
            let j = self.locate(index);
            Ok(self.nodes[j].value)
        } else {
            Err(LinkedListError::IndexOutOfBounds)
        }
    }
}

} // verus!
