//! A binary heap of scored guesses with the lowest score on top: the
//! bounded store from which the lowest guess leaves when a better one comes.

use vstd::prelude::*;
use crate::mahd_fast2::HandleEntropy;

verus! {

/// The place above place `i` in the heap.
pub open spec fn parent(i: int) -> int {
    (i - 1) / 2
}

/// No item scores lower than the item above it.
pub open spec fn is_heap(s: Seq<HandleEntropy>) -> bool {
    forall|i: int| 1 <= i < s.len() ==> s[parent(i)].entropy <= (#[trigger] s[i]).entropy
}

/// The heap order holds but between place `k` and the place above it; the
/// items below `k` score no lower than the item above `k`.
pub open spec fn heap_but_above(s: Seq<HandleEntropy>, k: int) -> bool {
    &&& forall|i: int|
        1 <= i < s.len() && i != k ==> s[parent(i)].entropy <= (#[trigger] s[i]).entropy
    &&& forall|i: int|
        1 <= i < s.len() && parent(i) == k && k > 0 ==> s[parent(k)].entropy <= (
        #[trigger] s[i]).entropy
}

/// The heap order holds but between place `k` and the places below it; the
/// items below `k` score no lower than the item above `k`.
pub open spec fn heap_but_below(s: Seq<HandleEntropy>, k: int) -> bool {
    &&& forall|i: int|
        1 <= i < s.len() && parent(i) != k ==> s[parent(i)].entropy <= (#[trigger] s[i]).entropy
    &&& forall|i: int|
        1 <= i < s.len() && parent(i) == k && k > 0 ==> s[parent(k)].entropy <= (
        #[trigger] s[i]).entropy
}

/// The item on top of a heap scores lowest.
pub proof fn lemma_top_is_lowest(s: Seq<HandleEntropy>, i: int)
    requires
        is_heap(s),
        0 <= i < s.len(),
    ensures
        s[0].entropy <= s[i].entropy,
    decreases i,
{
    if i > 0 {
        lemma_top_is_lowest(s, parent(i));
        assert(s[parent(i)].entropy <= s[i].entropy);
    }
}

/// Two items changing places leaves the same items.
proof fn lemma_swap(s: Seq<HandleEntropy>, i: int, j: int)
    requires
        0 <= i < s.len(),
        0 <= j < s.len(),
    ensures
        s.update(i, s[j]).update(j, s[i]).to_multiset() == s.to_multiset(),
{
    broadcast use vstd::multiset::group_multiset_axioms;

    let t = s.update(i, s[j]);
    vstd::seq_lib::to_multiset_update(s, i, s[j]);
    vstd::seq_lib::to_multiset_update(t, j, s[i]);
    s.to_multiset_ensures();
    assert(s.contains(s[i]));
    assert(s.contains(s[j]));
    assert(t.update(j, s[i]).to_multiset() =~= s.to_multiset());
}

fn swap(heap: &mut Vec<HandleEntropy>, i: usize, j: usize)
    requires
        i < old(heap)@.len(),
        j < old(heap)@.len(),
    ensures
        final(heap)@ == old(heap)@.update(i as int, old(heap)@[j as int]).update(
            j as int,
            old(heap)@[i as int],
        ),
        final(heap)@.to_multiset() == old(heap)@.to_multiset(),
{
    proof {
        lemma_swap(heap@, i as int, j as int);
    }
    let a = heap[i];
    let b = heap[j];
    heap[i] = b;
    heap[j] = a;
}

/// Puts one more item into the heap.
pub fn heap_push(heap: &mut Vec<HandleEntropy>, item: HandleEntropy)
    requires
        is_heap(old(heap)@),
    ensures
        is_heap(final(heap)@),
        final(heap)@.len() == old(heap)@.len() + 1,
        final(heap)@.to_multiset() == old(heap)@.to_multiset().insert(item),
{
    let ghost before = heap@;
    heap.push(item);
    proof {
        vstd::seq_lib::to_multiset_build(before, item);
    }
    let ghost pushed = heap@;
    let mut k: usize = heap.len() - 1;
    assert(heap_but_above(heap@, k as int)) by {
        assert forall|i: int| 1 <= i < heap@.len() && i != k implies heap@[parent(i)].entropy <= (
        #[trigger] heap@[i]).entropy by {
            assert(before[parent(i)].entropy <= before[i].entropy);
        }
    }
    while k > 0 && heap[(k - 1) / 2].entropy > heap[k].entropy
        invariant
            k < heap@.len(),
            heap@.len() == pushed.len(),
            heap@.to_multiset() == pushed.to_multiset(),
            heap_but_above(heap@, k as int),
        decreases k,
    {
        let up = (k - 1) / 2;
        let ghost s = heap@;
        swap(heap, k, up);
        proof {
            let t = heap@;
            assert forall|i: int| 1 <= i < t.len() && i != up implies t[parent(i)].entropy <= (
            #[trigger] t[i]).entropy by {
                if i == k {
                } else if parent(i) == k {
                    assert(s[parent(k as int)].entropy <= s[i].entropy);
                } else if parent(i) == up {
                    assert(s[parent(i)].entropy <= s[i].entropy);
                } else {
                    assert(s[parent(i)].entropy <= s[i].entropy);
                }
            }
            assert forall|i: int| 1 <= i < t.len() && parent(i) == up && up > 0 implies t[parent(
                up as int,
            )].entropy <= (#[trigger] t[i]).entropy by {
                assert(s[parent(up as int)].entropy <= s[up as int].entropy);
                if i != k {
                    assert(s[parent(i)].entropy <= s[i].entropy);
                }
            }
        }
        k = up;
    }
    assert(is_heap(heap@)) by {
        assert forall|i: int| 1 <= i < heap@.len() implies heap@[parent(i)].entropy <= (
        #[trigger] heap@[i]).entropy by {
            if i == k {
            }
        }
    }
}

/// Takes the item with the lowest score out of the heap.
#[verifier::rlimit(30)]
pub fn heap_pop(heap: &mut Vec<HandleEntropy>) -> (lowest: HandleEntropy)
    requires
        is_heap(old(heap)@),
        old(heap)@.len() > 0,
    ensures
        is_heap(final(heap)@),
        final(heap)@.len() == old(heap)@.len() - 1,
        lowest == old(heap)@[0],
        forall|i: int| 0 <= i < old(heap)@.len() ==> lowest.entropy <= old(heap)@[i].entropy,
        final(heap)@.to_multiset() == old(heap)@.to_multiset().remove(lowest),
{
    broadcast use vstd::multiset::group_multiset_axioms;

    let ghost before = heap@;
    let lowest = heap[0];
    proof {
        assert forall|i: int| 0 <= i < before.len() implies lowest.entropy
            <= before[i].entropy by {
            lemma_top_is_lowest(before, i);
        }
    }
    let last = heap.len() - 1;
    swap(heap, 0, last);
    let ghost swapped = heap@;
    let moved = heap.pop();
    proof {
        assert(swapped[last as int] == lowest);
        assert(heap@ =~= swapped.remove(last as int));
        vstd::seq_lib::to_multiset_remove(swapped, last as int);
    }
    let n = heap.len();
    let mut k: usize = 0;
    assert(heap_but_below(heap@, 0)) by {
        assert forall|i: int| 1 <= i < heap@.len() && parent(i) != 0 implies heap@[parent(
            i,
        )].entropy <= (#[trigger] heap@[i]).entropy by {
            assert(before[parent(i)].entropy <= before[i].entropy);
        }
    }
    loop
        invariant
            n == heap@.len(),
            k <= n,
            n < usize::MAX,
            heap@.to_multiset() == before.to_multiset().remove(lowest),
            heap_but_below(heap@, k as int),
        ensures
            is_heap(heap@),
        decreases n - k,
    {
        if n < 2 || k > (n - 2) / 2 {
            // No place below.
            assert(is_heap(heap@)) by {
                assert forall|i: int| 1 <= i < heap@.len() implies heap@[parent(i)].entropy <= (
                #[trigger] heap@[i]).entropy by {
                    if parent(i) == k {
                    }
                }
            }
            break;
        }
        let left = 2 * k + 1;
        let right = left + 1;
        let low = if right < n && heap[right].entropy < heap[left].entropy {
            right
        } else {
            left
        };
        if heap[k].entropy <= heap[low].entropy {
            assert(is_heap(heap@)) by {
                assert forall|i: int| 1 <= i < heap@.len() implies heap@[parent(i)].entropy <= (
                #[trigger] heap@[i]).entropy by {
                    if parent(i) == k {
                        assert(i == left || i == right);
                    }
                }
            }
            break;
        }
        let ghost s = heap@;
        swap(heap, k, low);
        proof {
            let t = heap@;
            assert forall|i: int| 1 <= i < t.len() && parent(i) != low implies t[parent(i)].entropy
                <= (#[trigger] t[i]).entropy by {
                if parent(i) == k {
                    assert(i == left || i == right);
                } else if i == k {
                    assert(s[parent(k as int)].entropy <= s[low as int].entropy);
                } else {
                    assert(s[parent(i)].entropy <= s[i].entropy);
                }
            }
            assert forall|i: int| 1 <= i < t.len() && parent(i) == low && low > 0 implies t[parent(
                low as int,
            )].entropy <= (#[trigger] t[i]).entropy by {
                assert(s[parent(i)].entropy <= s[i].entropy);
            }
        }
        k = low;
    }
    lowest
}

} // verus!
