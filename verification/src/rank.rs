//! The order of the documents by their sort keys.

use vstd::prelude::*;

verus! {

/// Document `a` stands before document `b`: its key is larger, or the keys
/// are equal and `a` comes first in the index.
pub open spec fn stands_before(keys: Seq<u64>, a: int, b: int) -> bool {
    keys[a] > keys[b] || (keys[a] == keys[b] && a < b)
}

/// Document `d` stands somewhere in `order`.
pub open spec fn names(order: Seq<usize>, d: int) -> bool {
    exists|i: int| 0 <= i < order.len() && #[trigger] order[i] == d
}

/// `order` lists the first `count` documents, each once, so that each
/// stands before all that follow it.
pub open spec fn ranks(keys: Seq<u64>, order: Seq<usize>, count: int) -> bool {
    &&& order.len() == count
    &&& forall|i: int| 0 <= i < order.len() ==> (#[trigger] order[i]) < count
    &&& forall|d: int| 0 <= d < count ==> #[trigger] names(order, d)
    &&& forall|i: int, j: int|
        0 <= i < j < order.len() ==> stands_before(
            keys,
            #[trigger] order[i] as int,
            #[trigger] order[j] as int,
        )
}

/// A ranking does not name a document twice.
pub proof fn lemma_ranks_once(keys: Seq<u64>, order: Seq<usize>, count: int)
    requires
        ranks(keys, order, count),
    ensures
        forall|i: int, j: int|
            0 <= i < order.len() && 0 <= j < order.len() && i != j ==> #[trigger] order[i]
                != #[trigger] order[j],
{
    assert forall|i: int, j: int|
        0 <= i < order.len() && 0 <= j < order.len() && i != j implies #[trigger] order[i]
        != #[trigger] order[j] by {
        if i < j {
            assert(stands_before(keys, order[i] as int, order[j] as int));
        } else {
            assert(stands_before(keys, order[j] as int, order[i] as int));
        }
    }
}

/// The documents `0 .. keys.len()` by falling key; documents with equal
/// keys keep the order of the index.
pub fn rank(keys: &Vec<u64>) -> (order: Vec<usize>)
    ensures
        ranks(keys@, order@, keys@.len() as int),
        forall|i: int, j: int|
            0 <= i < order@.len() && 0 <= j < order@.len() && i != j ==> #[trigger] order@[i]
                != #[trigger] order@[j],
{
    let mut order: Vec<usize> = Vec::new();
    let mut k: usize = 0;
    while k < keys.len()
        invariant
            k <= keys@.len(),
            ranks(keys@, order@, k as int),
        decreases keys@.len() - k,
    {
        let mut p: usize = 0;
        while p < order.len() && keys[order[p]] >= keys[k]
            invariant
                k < keys@.len(),
                ranks(keys@, order@, k as int),
                p <= order@.len(),
                forall|i: int| 0 <= i < p ==> keys@[(#[trigger] order@[i]) as int] >= keys@[k as int],
            decreases order@.len() - p,
        {
            p += 1;
        }
        let ghost before = order@;
        order.insert(p, k);
        proof {
            let after = order@;
            assert forall|i: int, j: int| 0 <= i < j < after.len() implies stands_before(
                keys@,
                #[trigger] after[i] as int,
                #[trigger] after[j] as int,
            ) by {
                if j < p {
                    assert(after[i] == before[i] && after[j] == before[j]);
                } else if j == p {
                    assert(after[i] == before[i]);
                } else if i < p {
                    assert(after[i] == before[i] && after[j] == before[j - 1]);
                } else if i == p {
                    assert(after[j] == before[j - 1]);
                    if p < before.len() {
                        assert(stands_before(keys@, before[p as int] as int, before[j - 1] as int)
                            || j - 1 == p);
                    }
                } else {
                    assert(after[i] == before[i - 1] && after[j] == before[j - 1]);
                }
            }
            assert forall|d: int| 0 <= d < k + 1 implies #[trigger] names(after, d) by {
                if d == k {
                    assert(after[p as int] == d);
                } else {
                    assert(names(before, d));
                    let i = choose|i: int| 0 <= i < before.len() && #[trigger] before[i] == d;
                    if i < p {
                        assert(after[i] == d);
                    } else {
                        assert(after[i + 1] == d);
                    }
                }
            }
            assert forall|i: int| 0 <= i < after.len() implies (#[trigger] after[i]) < k + 1 by {
                if i < p {
                    assert(after[i] == before[i]);
                } else if i > p {
                    assert(after[i] == before[i - 1]);
                }
            }
        }
        k += 1;
    }
    proof {
        lemma_ranks_once(keys@, order@, keys@.len() as int);
    }
    order
}

} // verus!
