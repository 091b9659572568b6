//! Counting bytes and assembling the Huffman tree.

use super::huff_tree::{bytes_below, HuffmanNode};
use super::pq::{pq_contents, pq_len, pq_new, pq_pop, pq_push};
use priority_queue::PriorityQueue;
use vstd::prelude::*;

verus! {

/// The number of times `b` occurs in `s`.
pub open spec fn occurrences(s: Seq<u8>, b: u8) -> nat
    decreases s.len(),
{
    if s.len() == 0 {
        0
    } else {
        occurrences(s.drop_last(), b) + if s.last() == b {
            1nat
        } else {
            0nat
        }
    }
}

/// The sum of the counts of the byte values below `k` that are in `set`.
pub open spec fn freq_sum(freqs: Seq<usize>, set: Set<u8>, k: int) -> int
    decreases k,
{
    if k <= 0 {
        0
    } else {
        freq_sum(freqs, set, k - 1) + if set.contains((k - 1) as u8) {
            freqs[k - 1] as int
        } else {
            0
        }
    }
}

/// The sum of all 256 counts.
pub open spec fn freq_total(freqs: Seq<usize>) -> int {
    freq_sum(freqs, bytes_below(256), 256)
}

proof fn lemma_freq_sum_union(freqs: Seq<usize>, a: Set<u8>, b: Set<u8>, k: int)
    requires
        a.disjoint(b),
        0 <= k <= 256,
    ensures
        freq_sum(freqs, a.union(b), k) == freq_sum(freqs, a, k) + freq_sum(freqs, b, k),
    decreases k,
{
    if k > 0 {
        lemma_freq_sum_union(freqs, a, b, k - 1);
    }
}

proof fn lemma_freq_sum_subset(freqs: Seq<usize>, a: Set<u8>, b: Set<u8>, k: int)
    requires
        a.subset_of(b),
        0 <= k <= 256,
    ensures
        0 <= freq_sum(freqs, a, k) <= freq_sum(freqs, b, k),
    decreases k,
{
    if k > 0 {
        lemma_freq_sum_subset(freqs, a, b, k - 1);
    }
}

proof fn lemma_freq_sum_single(freqs: Seq<usize>, x: u8, k: int)
    requires
        0 <= k <= 256,
    ensures
        freq_sum(freqs, set![x], k) == if (x as int) < k {
            freqs[x as int] as int
        } else {
            0
        },
    decreases k,
{
    if k > 0 {
        lemma_freq_sum_single(freqs, x, k - 1);
    }
}

proof fn lemma_freq_sum_bump(freqs: Seq<usize>, v: u8, k: int)
    requires
        freqs.len() == 256,
        freqs[v as int] < usize::MAX,
        0 <= k <= 256,
    ensures
        freq_sum(freqs.update(v as int, (freqs[v as int] + 1) as usize), bytes_below(256), k)
            == freq_sum(freqs, bytes_below(256), k) + if (v as int) < k {
            1int
        } else {
            0int
        },
    decreases k,
{
    if k > 0 {
        lemma_freq_sum_bump(freqs, v, k - 1);
    }
}

proof fn lemma_freq_sum_zero(freqs: Seq<usize>, k: int)
    requires
        0 <= k <= 256,
        forall|i: int| 0 <= i < 256 ==> freqs[i] == 0,
    ensures
        freq_sum(freqs, bytes_below(256), k) == 0,
    decreases k,
{
    if k > 0 {
        lemma_freq_sum_zero(freqs, k - 1);
    }
}

/// Counts how often each byte value occurs in `data_bytes`.
pub fn count_frequencies(data_bytes: &[u8]) -> (freq: [usize; 256])
    ensures
        forall|b: u8| freq@[b as int] == occurrences(data_bytes@, b),
        freq_total(freq@) == data_bytes@.len(),
{
    let mut freq: [usize; 256] = [0usize; 256];
    let mut i: usize = 0;
    proof {
        lemma_freq_sum_zero(freq@, 256);
        assert(data_bytes@.take(0) =~= Seq::<u8>::empty());
    }
    while i < data_bytes.len()
        invariant
            i <= data_bytes.len(),
            forall|b: u8| freq@[b as int] == occurrences(data_bytes@.take(i as int), b),
            freq_total(freq@) == i,
        decreases data_bytes.len() - i,
    {
        let val: u8 = data_bytes[i];
        let ghost before = freq@;
        proof {
            lemma_freq_sum_subset(before, set![val], bytes_below(256), 256);
            lemma_freq_sum_single(before, val, 256);
            lemma_freq_sum_bump(before, val, 256);
            assert(data_bytes@.take(i + 1).drop_last() =~= data_bytes@.take(i as int));
        }
        let cur: usize = freq[val as usize];
        freq[val as usize] = cur + 1;
        i = i + 1;
    }
    assert(data_bytes@.take(i as int) =~= data_bytes@);
    freq
}

/// A node while the tree is assembled: its children are named by their places in
/// the list of nodes.
#[derive(Clone, Copy)]
pub enum Slot {
    /// A byte value with its count.
    Leaf { freq: usize, byte: u8 },
    /// Two earlier nodes, with the sum of their counts.
    Pair { freq: usize, left: usize, right: usize },
}

/// The children of the node at place `k` stand before it.
pub open spec fn slot_ok(slot: Slot, k: int) -> bool {
    match slot {
        Slot::Leaf { .. } => true,
        Slot::Pair { left, right, .. } => left < k && right < k,
    }
}

/// Every node's children stand before it.
pub open spec fn arena_ok(arena: Seq<Slot>) -> bool {
    forall|k: int| 0 <= k < arena.len() ==> slot_ok(#[trigger] arena[k], k)
}

/// The tree below the node at place `idx`.
pub open spec fn slot_tree(arena: Seq<Slot>, idx: int) -> HuffmanNode
    decreases idx,
{
    if idx < 0 || idx >= arena.len() {
        HuffmanNode::Leaf { freq: 0, byte: 0 }
    } else {
        match arena[idx] {
            Slot::Leaf { freq, byte } => HuffmanNode::Leaf { freq, byte },
            Slot::Pair { freq, left, right } => if left < idx && right < idx {
                HuffmanNode::Internal {
                    freq,
                    left: Box::new(slot_tree(arena, left as int)),
                    right: Box::new(slot_tree(arena, right as int)),
                }
            } else {
                HuffmanNode::Leaf { freq: 0, byte: 0 }
            },
        }
    }
}

proof fn lemma_slot_tree_stable(arena: Seq<Slot>, slot: Slot, idx: int)
    requires
        0 <= idx < arena.len(),
    ensures
        slot_tree(arena.push(slot), idx) == slot_tree(arena, idx),
    decreases idx,
{
    match arena[idx] {
        Slot::Leaf { .. } => {},
        Slot::Pair { left, right, .. } => {
            if left < idx && right < idx {
                lemma_slot_tree_stable(arena, slot, left as int);
                lemma_slot_tree_stable(arena, slot, right as int);
            }
        },
    }
}

/// Builds the tree below the node at place `idx`.
fn materialize(arena: &Vec<Slot>, idx: usize) -> (r: HuffmanNode)
    requires
        idx < arena.len(),
        arena_ok(arena@),
    ensures
        r == slot_tree(arena@, idx as int),
    decreases idx,
{
    match arena[idx] {
        Slot::Leaf { freq, byte } => HuffmanNode::Leaf { freq, byte },
        Slot::Pair { freq, left, right } => {
            assert(slot_ok(arena@[idx as int], idx as int));
            let l = materialize(arena, left);
            let r = materialize(arena, right);
            HuffmanNode::Internal { freq, left: Box::new(l), right: Box::new(r) }
        },
    }
}

/// The node at place `i` is in the queue with the priority that its count gives,
/// and its tree is sound.
pub open spec fn root_ok(arena: Seq<Slot>, q: Map<usize, usize>, freqs: Seq<usize>, i: usize) -> bool {
    let t = slot_tree(arena, i as int);
    &&& i < arena.len()
    &&& q[i] == usize::MAX - t.weight()
    &&& t.distinct()
    &&& t.counts(freqs)
    &&& t.ordered()
    &&& t.weight() == freq_sum(freqs, t.leafset(), 256)
}

/// The trees in the queue are sound and share no leaf; `owner` names for each
/// byte value at a leaf the tree that holds it; all leaves are below `upto`.
pub open spec fn forest_ok(
    arena: Seq<Slot>,
    q: Map<usize, usize>,
    freqs: Seq<usize>,
    owner: Seq<usize>,
    upto: int,
) -> bool {
    &&& freqs.len() == 256
    &&& owner.len() == 256
    &&& q.dom().finite()
    &&& arena_ok(arena)
    &&& forall|i: usize| #[trigger] q.contains_key(i) ==> root_ok(arena, q, freqs, i)
    &&& forall|i: usize, x: u8|
        q.contains_key(i) && #[trigger] slot_tree(arena, i as int).leafset().contains(x)
            ==> freqs[x as int] > 0 && owner[x as int] == i && (x as int) < upto
    &&& forall|x: u8|
        (x as int) < upto && freqs[x as int] > 0 ==> q.contains_key(#[trigger] owner[x as int])
            && slot_tree(arena, owner[x as int] as int).leafset().contains(x)
}

proof fn lemma_forest_leaf(
    arena: Seq<Slot>,
    q: Map<usize, usize>,
    freqs: Seq<usize>,
    owner: Seq<usize>,
    b: u8,
)
    requires
        forest_ok(arena, q, freqs, owner, b as int),
        freqs[b as int] > 0,
        arena.len() < usize::MAX,
        forall|i: usize| q.contains_key(i) ==> i < arena.len(),
    ensures
        forest_ok(
            arena.push(Slot::Leaf { freq: freqs[b as int], byte: b }),
            q.insert(arena.len() as usize, (usize::MAX - freqs[b as int]) as usize),
            freqs,
            owner.update(b as int, arena.len() as usize),
            b + 1,
        ),
{
    let slot = Slot::Leaf { freq: freqs[b as int], byte: b };
    let n = arena.len() as usize;
    let arena2 = arena.push(slot);
    let q2 = q.insert(n, (usize::MAX - freqs[b as int]) as usize);
    let owner2 = owner.update(b as int, n);
    assert forall|i: int| 0 <= i < arena.len() implies slot_tree(arena2, i) == slot_tree(
        arena,
        i,
    ) by {
        lemma_slot_tree_stable(arena, slot, i);
    }
    let t = slot_tree(arena2, n as int);
    assert(t == HuffmanNode::Leaf { freq: freqs[b as int], byte: b });
    lemma_freq_sum_single(freqs, b, 256);
    assert forall|i: usize| #[trigger] q2.contains_key(i) implies root_ok(
        arena2,
        q2,
        freqs,
        i,
    ) by {
        if i != n {
            assert(q.contains_key(i));
            assert(root_ok(arena, q, freqs, i));
        }
    }
    assert forall|i: usize, x: u8|
        q2.contains_key(i) && #[trigger] slot_tree(arena2, i as int).leafset().contains(
            x,
        ) implies freqs[x as int] > 0 && owner2[x as int] == i && (x as int) < b + 1 by {
        if i != n {
            assert(q.contains_key(i));
            assert(slot_tree(arena, i as int).leafset().contains(x));
        }
    }
    assert forall|x: u8| (x as int) < b + 1 && freqs[x as int] > 0 implies q2.contains_key(
        #[trigger] owner2[x as int],
    ) && slot_tree(arena2, owner2[x as int] as int).leafset().contains(x) by {
        if x != b {
            assert(q.contains_key(owner[x as int]));
        }
    }
}

proof fn lemma_forest_skip(
    arena: Seq<Slot>,
    q: Map<usize, usize>,
    freqs: Seq<usize>,
    owner: Seq<usize>,
    b: u8,
)
    requires
        forest_ok(arena, q, freqs, owner, b as int),
        freqs[b as int] == 0,
    ensures
        forest_ok(arena, q, freqs, owner, b + 1),
{
}

proof fn lemma_forest_pair_weight(
    arena: Seq<Slot>,
    q: Map<usize, usize>,
    freqs: Seq<usize>,
    owner: Seq<usize>,
    a: usize,
    b: usize,
)
    requires
        forest_ok(arena, q, freqs, owner, 256),
        q.contains_key(a),
        q.contains_key(b),
        a != b,
    ensures
        slot_tree(arena, a as int).leafset().disjoint(slot_tree(arena, b as int).leafset()),
        0 <= slot_tree(arena, a as int).weight() + slot_tree(arena, b as int).weight()
            <= freq_total(freqs),
{
    let ta = slot_tree(arena, a as int);
    let tb = slot_tree(arena, b as int);
    assert(root_ok(arena, q, freqs, a));
    assert(root_ok(arena, q, freqs, b));
    assert forall|x: u8| !(ta.leafset().contains(x) && tb.leafset().contains(x)) by {
        if ta.leafset().contains(x) && tb.leafset().contains(x) {
            assert(owner[x as int] == a);
            assert(owner[x as int] == b);
        }
    }
    lemma_freq_sum_union(freqs, ta.leafset(), tb.leafset(), 256);
    lemma_freq_sum_subset(freqs, ta.leafset().union(tb.leafset()), bytes_below(256), 256);
}

proof fn lemma_forest_merge(
    arena: Seq<Slot>,
    q: Map<usize, usize>,
    freqs: Seq<usize>,
    owner: Seq<usize>,
    a: usize,
    b: usize,
) -> (owner2: Seq<usize>)
    requires
        forest_ok(arena, q, freqs, owner, 256),
        q.contains_key(a),
        q.contains_key(b),
        a != b,
        q[a] >= q[b],
        arena.len() < usize::MAX,
        freq_total(freqs) <= usize::MAX,
    ensures
        forest_ok(
            arena.push(
                Slot::Pair {
                    freq: (slot_tree(arena, a as int).weight() + slot_tree(
                        arena,
                        b as int,
                    ).weight()) as usize,
                    left: a,
                    right: b,
                },
            ),
            q.remove(a).remove(b).insert(
                arena.len() as usize,
                (usize::MAX - (slot_tree(arena, a as int).weight() + slot_tree(
                    arena,
                    b as int,
                ).weight())) as usize,
            ),
            freqs,
            owner2,
            256,
        ),
{
    let ta = slot_tree(arena, a as int);
    let tb = slot_tree(arena, b as int);
    lemma_forest_pair_weight(arena, q, freqs, owner, a, b);
    let w = (ta.weight() + tb.weight()) as usize;
    let n = arena.len() as usize;
    let slot = Slot::Pair { freq: w, left: a, right: b };
    let arena2 = arena.push(slot);
    let q2 = q.remove(a).remove(b).insert(n, (usize::MAX - w) as usize);
    let owner2 = Seq::new(
        256,
        |x: int|
            if ta.leafset().contains(x as u8) || tb.leafset().contains(x as u8) {
                n
            } else {
                owner[x]
            },
    );
    assert(root_ok(arena, q, freqs, a));
    assert(root_ok(arena, q, freqs, b));
    assert forall|i: int| 0 <= i < arena.len() implies slot_tree(arena2, i) == slot_tree(
        arena,
        i,
    ) by {
        lemma_slot_tree_stable(arena, slot, i);
    }
    let t = slot_tree(arena2, n as int);
    assert(t == HuffmanNode::Internal { freq: w, left: Box::new(ta), right: Box::new(tb) });
    assert(t.leafset() == ta.leafset().union(tb.leafset()));
    lemma_freq_sum_union(freqs, ta.leafset(), tb.leafset(), 256);
    assert(arena_ok(arena2)) by {
        assert forall|k: int| 0 <= k < arena2.len() implies slot_ok(#[trigger] arena2[k], k) by {
            if k < arena.len() {
                assert(slot_ok(arena[k], k));
            }
        }
    }
    assert forall|i: usize| #[trigger] q2.contains_key(i) implies root_ok(
        arena2,
        q2,
        freqs,
        i,
    ) by {
        if i != n {
            assert(q.contains_key(i));
            assert(root_ok(arena, q, freqs, i));
        }
    }
    assert forall|i: usize, x: u8|
        q2.contains_key(i) && #[trigger] slot_tree(arena2, i as int).leafset().contains(
            x,
        ) implies freqs[x as int] > 0 && owner2[x as int] == i && (x as int) < 256 by {
        if i != n {
            assert(q.contains_key(i));
            assert(root_ok(arena, q, freqs, i));
            assert(slot_tree(arena, i as int).leafset().contains(x));
            assert(owner[x as int] == i);
            if ta.leafset().contains(x) {
                assert(owner[x as int] == a);
            }
            if tb.leafset().contains(x) {
                assert(owner[x as int] == b);
            }
        } else {
            if ta.leafset().contains(x) {
                assert(freqs[x as int] > 0);
            } else {
                assert(tb.leafset().contains(x));
                assert(freqs[x as int] > 0);
            }
        }
    }
    assert forall|x: u8| (x as int) < 256 && freqs[x as int] > 0 implies q2.contains_key(
        #[trigger] owner2[x as int],
    ) && slot_tree(arena2, owner2[x as int] as int).leafset().contains(x) by {
        let o = owner[x as int];
        assert(q.contains_key(o));
        assert(root_ok(arena, q, freqs, o));
        assert(slot_tree(arena, o as int).leafset().contains(x));
        if ta.leafset().contains(x) || tb.leafset().contains(x) {
        } else {
            assert(o != a);
            assert(o != b);
        }
    }
    owner2
}

impl Slot {
    /// The count that the node carries.
    pub open spec fn weight(self) -> int {
        match self {
            Slot::Leaf { freq, .. } => freq as int,
            Slot::Pair { freq, .. } => freq as int,
        }
    }

    /// The node has `j` as a child.
    pub open spec fn refers(self, j: int) -> bool {
        match self {
            Slot::Leaf { .. } => false,
            Slot::Pair { left, right, .. } => left == j || right == j,
        }
    }
}

/// Among the first `k` nodes, node `j` is a root: none of them has it as a child.
pub open spec fn is_root(arena: Seq<Slot>, k: int, j: int) -> bool {
    0 <= j < k && forall|p: int| 0 <= p < k && p < arena.len() ==> !(#[trigger] arena[p]).refers(j)
}

/// Node `k` came about as the rule says: a leaf stands before every joined node; a
/// joined node joins two of the roots before it, the one of the lowest count on
/// the left, and no other root before it counts less than the one on the right.
pub open spec fn joins_lowest(arena: Seq<Slot>, k: int) -> bool {
    match arena[k] {
        Slot::Leaf { .. } => forall|p: int| 0 <= p < k ==> (#[trigger] arena[p]) is Leaf,
        Slot::Pair { freq, left, right } => {
            &&& left != right
            &&& is_root(arena, k, left as int)
            &&& is_root(arena, k, right as int)
            &&& freq == arena[left as int].weight() + arena[right as int].weight()
            &&& arena[left as int].weight() <= arena[right as int].weight()
            &&& forall|j: int| #[trigger]
                is_root(arena, k, j) && j != left && j != right ==> arena[right as int].weight()
                    <= arena[j].weight()
        },
    }
}

/// The nodes are those of a Huffman tree in the making: each came about as the
/// rule says, and only the last of them is a root.
pub open spec fn huffman_arena(arena: Seq<Slot>) -> bool {
    &&& arena.len() > 0
    &&& forall|k: int| 0 <= k < arena.len() ==> #[trigger] joins_lowest(arena, k)
    &&& forall|j: int| 0 <= j < arena.len() - 1 ==> !#[trigger] is_root(arena, arena.len() as int, j)
}

/// The queue holds the roots, each with the priority that its count gives.
pub open spec fn roots_queued(arena: Seq<Slot>, q: Map<usize, usize>) -> bool {
    &&& forall|j: usize| #[trigger] q.contains_key(j) <==> is_root(arena, arena.len() as int, j as int)
    &&& forall|j: usize| #[trigger] q.contains_key(j) ==> q[j] == usize::MAX - arena[j as int].weight()
    &&& forall|k: int| 0 <= k < arena.len() ==> #[trigger] joins_lowest(arena, k)
}

proof fn lemma_order_leaf(arena: Seq<Slot>, q: Map<usize, usize>, freq: usize, byte: u8)
    requires
        roots_queued(arena, q),
        forall|p: int| 0 <= p < arena.len() ==> (#[trigger] arena[p]) is Leaf,
        arena.len() < usize::MAX,
    ensures
        roots_queued(
            arena.push(Slot::Leaf { freq, byte }),
            q.insert(arena.len() as usize, (usize::MAX - freq) as usize),
        ),
        forall|p: int| 0 <= p < arena.len() + 1 ==> (#[trigger] arena.push(
            Slot::Leaf { freq, byte },
        )[p]) is Leaf,
{
    let n = arena.len() as usize;
    let arena2 = arena.push(Slot::Leaf { freq, byte });
    let q2 = q.insert(n, (usize::MAX - freq) as usize);
    assert forall|j: usize| #[trigger] q2.contains_key(j) <==> is_root(
        arena2,
        arena2.len() as int,
        j as int,
    ) by {
        if j < n {
            assert(q.contains_key(j) <==> is_root(arena, arena.len() as int, j as int));
        }
    }
    assert forall|k: int| 0 <= k < arena2.len() implies #[trigger] joins_lowest(arena2, k) by {
        if k < arena.len() {
            assert(joins_lowest(arena, k));
        }
    }
}

proof fn lemma_order_merge(arena: Seq<Slot>, q: Map<usize, usize>, a: usize, b: usize)
    requires
        roots_queued(arena, q),
        arena_ok(arena),
        q.contains_key(a),
        q.contains_key(b),
        a != b,
        forall|j: usize| #[trigger] q.contains_key(j) ==> q[j] <= q[a],
        forall|j: usize| #[trigger] q.contains_key(j) && j != a ==> q[j] <= q[b],
        arena[a as int].weight() + arena[b as int].weight() <= usize::MAX,
        arena.len() < usize::MAX,
    ensures
        roots_queued(
            arena.push(
                Slot::Pair {
                    freq: (arena[a as int].weight() + arena[b as int].weight()) as usize,
                    left: a,
                    right: b,
                },
            ),
            q.remove(a).remove(b).insert(
                arena.len() as usize,
                (usize::MAX - (arena[a as int].weight() + arena[b as int].weight())) as usize,
            ),
        ),
{
    let n = arena.len() as usize;
    let w = (arena[a as int].weight() + arena[b as int].weight()) as usize;
    let slot = Slot::Pair { freq: w, left: a, right: b };
    let arena2 = arena.push(slot);
    let q2 = q.remove(a).remove(b).insert(n, (usize::MAX - w) as usize);
    assert(is_root(arena, arena.len() as int, a as int));
    assert(is_root(arena, arena.len() as int, b as int));
    assert forall|j: usize| #[trigger] q2.contains_key(j) <==> is_root(
        arena2,
        arena2.len() as int,
        j as int,
    ) by {
        if j < n {
            assert(q.contains_key(j) <==> is_root(arena, arena.len() as int, j as int));
            assert(slot.refers(j as int) <==> (j == a || j == b));
            if is_root(arena2, arena2.len() as int, j as int) {
                assert(!arena2[n as int].refers(j as int));
                assert forall|p: int| 0 <= p < arena.len() implies !(#[trigger] arena[p]).refers(
                    j as int,
                ) by {
                    assert(arena2[p] == arena[p]);
                }
            }
        } else if j == n {
            assert forall|p: int| 0 <= p < arena2.len() implies !(#[trigger] arena2[p]).refers(
                n as int,
            ) by {
                if p < arena.len() {
                    assert(slot_ok(arena[p], p));
                }
            }
        }
    }
    assert forall|k: int| 0 <= k < arena2.len() implies #[trigger] joins_lowest(arena2, k) by {
        if k < arena.len() {
            assert(joins_lowest(arena, k));
            assert forall|j: int| is_root(arena2, k, j) <==> is_root(arena, k, j) by {
                if is_root(arena2, k, j) {
                    assert forall|p: int| 0 <= p < k && p < arena.len() implies !(
                    #[trigger] arena[p]).refers(j) by {
                        assert(arena2[p] == arena[p]);
                    }
                }
                if is_root(arena, k, j) {
                    assert forall|p: int| 0 <= p < k && p < arena2.len() implies !(
                    #[trigger] arena2[p]).refers(j) by {
                        assert(arena2[p] == arena[p]);
                    }
                }
            }
        } else {
            assert forall|j: int| is_root(arena2, k, j) implies is_root(arena, k, j) by {
                assert forall|p: int| 0 <= p < k && p < arena.len() implies !(
                #[trigger] arena[p]).refers(j) by {
                    assert(arena2[p] == arena[p]);
                }
            }
            assert forall|j: int| is_root(arena, k, j) implies is_root(arena2, k, j) by {
                assert forall|p: int| 0 <= p < k && p < arena2.len() implies !(
                #[trigger] arena2[p]).refers(j) by {
                    assert(arena2[p] == arena[p]);
                }
            }
            assert forall|j: int| #[trigger]
                is_root(arena2, k, j) && j != a && j != b implies arena2[b as int].weight()
                    <= arena2[j].weight() by {
                assert(is_root(arena, k, j));
                assert(q.contains_key(j as usize));
            }
        }
    }
}

/// Assembles the Huffman tree of the byte values that occur: the two roots of the
/// lowest count are joined under a new node, the lowest on the left, until one root
/// is left. `None` where no byte value occurs.
pub fn build_huffman_tree(frequencies: &[usize; 256]) -> (r: Option<HuffmanNode>)
    requires
        freq_total(frequencies@) <= usize::MAX,
    ensures
        r is None <==> (forall|x: u8| frequencies@[x as int] == 0),
        r matches Some(t) ==> t.distinct() && t.counts(frequencies@) && t.ordered() && (forall|
            x: u8,
        | t.leafset().contains(x) <==> frequencies@[x as int] > 0),
        r matches Some(t) ==> exists|arena: Seq<Slot>| #[trigger]
            huffman_arena(arena) && t == slot_tree(arena, arena.len() - 1),
{
    let mut pq: PriorityQueue<usize, usize> = pq_new();
    let mut arena: Vec<Slot> = Vec::new();
    let ghost freqs: Seq<usize> = frequencies@;
    let ghost mut owner: Seq<usize> = Seq::new(256, |x: int| 0usize);
    let mut b: usize = 0;
    while b < 256
        invariant
            b <= 256,
            freqs == frequencies@,
            arena.len() <= b,
            pq_contents(pq).dom().len() <= b,
            forest_ok(arena@, pq_contents(pq), freqs, owner, b as int),
            roots_queued(arena@, pq_contents(pq)),
            forall|p: int| 0 <= p < arena.len() ==> (#[trigger] arena@[p]) is Leaf,
        decreases 256 - b,
    {
        let freq: usize = frequencies[b];
        if freq != 0 {
            proof {
                lemma_forest_leaf(arena@, pq_contents(pq), freqs, owner, b as u8);
                lemma_order_leaf(arena@, pq_contents(pq), freq, b as u8);
                owner = owner.update(b as int, arena.len());
            }
            arena.push(Slot::Leaf { freq, byte: b as u8 });
            pq_push(&mut pq, arena.len() - 1, usize::MAX - freq);
        } else {
            proof {
                lemma_forest_skip(arena@, pq_contents(pq), freqs, owner, b as u8);
            }
        }
        b = b + 1;
    }
    while pq_len(&pq) > 1
        invariant
            freqs == frequencies@,
            freq_total(freqs) <= usize::MAX,
            arena.len() + pq_contents(pq).dom().len() <= 512,
            forest_ok(arena@, pq_contents(pq), freqs, owner, 256),
            roots_queued(arena@, pq_contents(pq)),
        ensures
            pq_contents(pq).dom().len() <= 1,
        decreases pq_contents(pq).dom().len(),
    {
        let ghost q0 = pq_contents(pq);
        let first = match pq_pop(&mut pq) {
            None => {
                assert(false);
                break ;
            },
            Some(pair) => pair.0,
        };
        let second = match pq_pop(&mut pq) {
            None => {
                assert(q0.dom().remove(first).len() == 0);
                assert(false);
                break ;
            },
            Some(pair) => pair.0,
        };
        proof {
            assert(q0.contains_key(first));
            assert(q0.remove(first).contains_key(second));
            assert(root_ok(arena@, q0, freqs, first));
            assert(root_ok(arena@, q0, freqs, second));
            lemma_forest_pair_weight(arena@, q0, freqs, owner, first, second);
            owner = lemma_forest_merge(arena@, q0, freqs, owner, first, second);
            assert(slot_ok(arena@[first as int], first as int));
            assert(slot_ok(arena@[second as int], second as int));
            lemma_order_merge(arena@, q0, first, second);
        }
        let freq: usize = slot_freq(&arena, first) + slot_freq(&arena, second);
        arena.push(Slot::Pair { freq, left: first, right: second });
        pq_push(&mut pq, arena.len() - 1, usize::MAX - freq);
    }
    let ghost q1 = pq_contents(pq);
    match pq_pop(&mut pq) {
        None => {
            proof {
                assert forall|x: u8| frequencies@[x as int] == 0 by {
                    if frequencies@[x as int] > 0 {
                        assert(q1.contains_key(owner[x as int]));
                    }
                }
            }
            None
        },
        Some(pair) => {
            let root: usize = pair.0;
            proof {
                assert(root_ok(arena@, q1, freqs, root));
                let t = slot_tree(arena@, root as int);
                assert forall|i: usize| q1.contains_key(i) implies i == root by {
                    if i != root {
                        assert(q1.dom().remove(root).contains(i));
                    }
                }
                assert forall|x: u8| t.leafset().contains(x) <==> frequencies@[x as int]
                    > 0 by {
                    if frequencies@[x as int] > 0 {
                        assert(q1.contains_key(owner[x as int]));
                    }
                }
                match t {
                    HuffmanNode::Leaf { byte, .. } => {
                        assert(t.leafset().contains(byte));
                    },
                    HuffmanNode::Internal { left, right, .. } => {
                        lemma_leafset_nonempty(*left);
                        let x = choose|x: u8| (*left).leafset().contains(x);
                        assert(t.leafset().contains(x));
                    },
                }
                let last = (arena@.len() - 1) as usize;
                assert(is_root(arena@, arena@.len() as int, last as int)) by {
                    assert forall|p: int| 0 <= p < arena@.len() implies !(
                    #[trigger] arena@[p]).refers(last as int) by {
                        assert(slot_ok(arena@[p], p));
                    }
                }
                assert(q1.contains_key(last));
                assert(huffman_arena(arena@)) by {
                    assert forall|j: int| 0 <= j < arena@.len() - 1 implies !#[trigger] is_root(
                        arena@,
                        arena@.len() as int,
                        j,
                    ) by {
                        if is_root(arena@, arena@.len() as int, j) {
                            assert(q1.contains_key(j as usize));
                        }
                    }
                }
            }
            Some(materialize(&arena, root))
        },
    }
}

/// The count that the node at place `i` carries.
fn slot_freq(arena: &Vec<Slot>, i: usize) -> (r: usize)
    requires
        i < arena.len(),
        arena_ok(arena@),
    ensures
        r == slot_tree(arena@, i as int).weight(),
{
    assert(slot_ok(arena@[i as int], i as int));
    match arena[i] {
        Slot::Leaf { freq, .. } => freq,
        Slot::Pair { freq, .. } => freq,
    }
}

/// Every tree has a leaf.
pub proof fn lemma_leafset_nonempty(t: HuffmanNode)
    ensures
        exists|x: u8| t.leafset().contains(x),
    decreases t,
{
    match t {
        HuffmanNode::Leaf { byte, .. } => {
            assert(t.leafset().contains(byte));
        },
        HuffmanNode::Internal { left, right, .. } => {
            lemma_leafset_nonempty(*left);
            let x = choose|x: u8| (*left).leafset().contains(x);
            assert(t.leafset().contains(x));
        },
    }
}

} // verus!
