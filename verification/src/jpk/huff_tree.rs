//! The Huffman tree, its codes and its table, and why the table walk finds again
//! what the codes say.

use super::huff_spec::{
    huff_all, huff_bits_left, huff_entry, huff_stream_bit, huff_symbol,
    lemma_huff_symbol_advances,
};
use vstd::prelude::*;
use vstd::set_lib::{lemma_len_subset, lemma_set_disjoint_lens};

verus! {

/// A binary tree whose leaves are byte values.
#[derive(Debug)]
pub enum HuffmanNode {
    /// A byte value, with the number of times it occurs.
    Leaf { freq: usize, byte: u8 },
    /// Two subtrees, with the sum of their counts.
    Internal { freq: usize, left: Box<HuffmanNode>, right: Box<HuffmanNode> },
}

impl HuffmanNode {
    /// The count that the node carries.
    pub open spec fn weight(self) -> int {
        match self {
            HuffmanNode::Leaf { freq, .. } => freq as int,
            HuffmanNode::Internal { freq, .. } => freq as int,
        }
    }

    /// The byte values at the leaves.
    pub open spec fn leafset(self) -> Set<u8>
        decreases self,
    {
        match self {
            HuffmanNode::Leaf { byte, .. } => set![byte],
            HuffmanNode::Internal { left, right, .. } => (*left).leafset().union(
                (*right).leafset(),
            ),
        }
    }

    /// No byte value is at two leaves.
    pub open spec fn distinct(self) -> bool
        decreases self,
    {
        match self {
            HuffmanNode::Leaf { .. } => true,
            HuffmanNode::Internal { left, right, .. } => (*left).distinct() && (*right).distinct()
                && (*left).leafset().disjoint((*right).leafset()),
        }
    }

    /// The number of inner nodes.
    pub open spec fn internals(self) -> nat
        decreases self,
    {
        match self {
            HuffmanNode::Leaf { .. } => 0,
            HuffmanNode::Internal { left, right, .. } => 1 + (*left).internals()
                + (*right).internals(),
        }
    }

    /// Each leaf carries the count of its byte, each inner node the sum of its two
    /// subtrees.
    pub open spec fn counts(self, freqs: Seq<usize>) -> bool
        decreases self,
    {
        match self {
            HuffmanNode::Leaf { freq, byte } => freq == freqs[byte as int],
            HuffmanNode::Internal { freq, left, right } => freq == (*left).weight()
                + (*right).weight() && (*left).counts(freqs) && (*right).counts(freqs),
        }
    }

    /// Under every inner node the left subtree counts no more than the right one.
    pub open spec fn ordered(self) -> bool
        decreases self,
    {
        match self {
            HuffmanNode::Leaf { .. } => true,
            HuffmanNode::Internal { left, right, .. } => (*left).weight() <= (*right).weight()
                && (*left).ordered() && (*right).ordered(),
        }
    }

    /// The code of `b`: the way from the root to its leaf, 0 for left and 1 for right.
    pub open spec fn code(self, b: u8) -> Seq<u8>
        decreases self,
    {
        match self {
            HuffmanNode::Leaf { .. } => Seq::empty(),
            HuffmanNode::Internal { left, right, .. } => if (*left).leafset().contains(b) {
                seq![0u8] + (*left).code(b)
            } else {
                seq![1u8] + (*right).code(b)
            },
        }
    }

    /// What a table cell holds for this node: the byte of a leaf, the index of an
    /// inner node.
    pub open spec fn cell(self, idx: int) -> int {
        match self {
            HuffmanNode::Leaf { byte, .. } => byte as int,
            HuffmanNode::Internal { .. } => idx,
        }
    }

    /// The table holds this subtree: the node has index `idx`, the inner nodes
    /// below it have the indices from `base` on, in the order in which a walk that
    /// takes the left subtree first meets them.
    pub open spec fn in_table(self, idx: int, base: int, tab: Seq<u16>) -> bool
        decreases self,
    {
        match self {
            HuffmanNode::Leaf { .. } => true,
            HuffmanNode::Internal { left, right, .. } => {
                let rbase = base + (*left).internals();
                &&& 256 <= idx <= 510
                &&& tab[2 * (idx - 256)] == (*left).cell(base)
                &&& tab[2 * (idx - 256) + 1] == (*right).cell(rbase)
                &&& (*left).in_table(base, base + 1, tab)
                &&& (*right).in_table(rbase, rbase + 1, tab)
            },
        }
    }
}

/// `tab` is the table of the tree: 510 cells, two for each inner node as
/// `in_table` says, all others zero.
pub open spec fn is_table(t: HuffmanNode, tab: Seq<u16>) -> bool {
    &&& tab.len() == 510
    &&& t is Internal ==> t.in_table(510, 256, tab)
    &&& forall|k: int|
        0 <= k < 508 && (t is Leaf || 2 * (t.internals() - 1) <= k) ==> #[trigger] tab[k] == 0
    &&& t is Leaf ==> tab[508] == 0 && tab[509] == 0
}

/// The byte values below `k`.
pub open spec fn bytes_below(k: int) -> Set<u8> {
    Set::new(|b: u8| (b as int) < k)
}

proof fn lemma_bytes_below(k: int)
    requires
        0 <= k <= 256,
    ensures
        bytes_below(k).finite(),
        bytes_below(k).len() == k,
    decreases k,
{
    if k == 0 {
        assert(bytes_below(0) =~= Set::<u8>::empty());
    } else {
        lemma_bytes_below(k - 1);
        assert(bytes_below(k) =~= bytes_below(k - 1).insert((k - 1) as u8));
    }
}

/// A tree without repeated leaves has one inner node less than leaves, and no more
/// leaves than there are byte values.
pub proof fn lemma_tree_size(t: HuffmanNode)
    requires
        t.distinct(),
    ensures
        t.leafset().finite(),
        t.leafset().len() == t.internals() + 1,
        t.internals() <= 255,
    decreases t,
{
    match t {
        HuffmanNode::Leaf { byte, .. } => {
            assert(t.leafset() =~= Set::<u8>::empty().insert(byte));
        },
        HuffmanNode::Internal { left, right, .. } => {
            lemma_tree_size(*left);
            lemma_tree_size(*right);
            lemma_set_disjoint_lens((*left).leafset(), (*right).leafset());
        },
    }
    lemma_bytes_below(256);
    assert(t.leafset().subset_of(bytes_below(256)));
    lemma_len_subset(t.leafset(), bytes_below(256));
}

/// The first 510 cells of the table in `buf` are `tab`.
pub open spec fn table_in_buf(buf: Seq<u8>, tab: Seq<u16>) -> bool {
    &&& tab.len() == 510
    &&& forall|k: int| 0 <= k < 510 ==> #[trigger] huff_entry(buf, k) == Some(tab[k] as int)
}

/// The bits of the stream from bit `p` on are `bits`.
pub open spec fn bits_in_buf(buf: Seq<u8>, base: int, p: int, bits: Seq<u8>) -> bool {
    forall|k: int|
        0 <= k < bits.len() ==> #[trigger] huff_stream_bit(buf, base, p + k) == Some(bits[k])
}

/// The walk from an inner node along the code of `b` ends at `b`.
pub proof fn lemma_walk(
    buf: Seq<u8>,
    dbase: int,
    p: int,
    t: HuffmanNode,
    idx: int,
    base: int,
    tab: Seq<u16>,
    b: u8,
)
    requires
        t is Internal,
        t.in_table(idx, base, tab),
        table_in_buf(buf, tab),
        t.leafset().contains(b),
        bits_in_buf(buf, dbase, p, t.code(b)),
        0 <= p,
    ensures
        huff_symbol(buf, dbase, p, idx) == Some((b, p + t.code(b).len())),
        t.code(b).len() >= 1,
    decreases t,
{
    match t {
        HuffmanNode::Leaf { .. } => {},
        HuffmanNode::Internal { left, right, .. } => {
            let c = t.code(b);
            let rbase = base + (*left).internals();
            let goes_left = (*left).leafset().contains(b);
            let child = if goes_left {
                *left
            } else {
                *right
            };
            let cidx = if goes_left {
                base
            } else {
                rbase
            };
            let bit: u8 = if goes_left {
                0
            } else {
                1
            };
            assert(c[0] == bit);
            assert(c.skip(1) =~= child.code(b));
            assert(huff_stream_bit(buf, dbase, p + 0) == Some(c[0]));
            let k = 2 * (idx - 256) + bit as int;
            assert(huff_entry(buf, k) == Some(tab[k] as int));
            assert(tab[k] as int == child.cell(cidx));
            assert forall|j: int| 0 <= j < child.code(b).len() implies #[trigger] huff_stream_bit(
                buf,
                dbase,
                p + 1 + j,
            ) == Some(child.code(b)[j]) by {
                assert(huff_stream_bit(buf, dbase, p + (j + 1)) == Some(c[j + 1]));
            }
            match child {
                HuffmanNode::Leaf { byte, .. } => {
                    assert(child.leafset().contains(b));
                    assert(byte == b);
                    assert(huff_symbol(buf, dbase, p + 1, byte as int) == Some((byte, p + 1)));
                },
                HuffmanNode::Internal { .. } => {
                    lemma_walk(buf, dbase, p + 1, child, cidx, cidx + 1, tab, b);
                },
            }
        },
    }
}

/// The codes of the bytes of `s`, one after another.
pub open spec fn code_stream(t: HuffmanNode, s: Seq<u8>) -> Seq<u8>
    decreases s.len(),
{
    if s.len() == 0 {
        Seq::empty()
    } else {
        t.code(s[0]) + code_stream(t, s.skip(1))
    }
}

/// The code stream of a sequence with one more byte at its end.
pub proof fn lemma_code_stream_push(t: HuffmanNode, s: Seq<u8>, x: u8)
    ensures
        code_stream(t, s.push(x)) == code_stream(t, s) + t.code(x),
    decreases s.len(),
{
    if s.len() == 0 {
        let one = s.push(x);
        assert(one.skip(1) =~= Seq::<u8>::empty());
        assert(one[0] == x);
        assert(code_stream(t, one.skip(1)) =~= Seq::<u8>::empty());
        assert(code_stream(t, one) == t.code(one[0]) + code_stream(t, one.skip(1)));
        assert(code_stream(t, s) =~= Seq::<u8>::empty());
        assert(code_stream(t, s) + t.code(x) =~= t.code(x));
        assert(t.code(x) + Seq::<u8>::empty() =~= t.code(x));
    } else {
        assert(s.push(x).skip(1) =~= s.skip(1).push(x));
        lemma_code_stream_push(t, s.skip(1), x);
        assert(code_stream(t, s.push(x)) =~= code_stream(t, s) + t.code(x));
    }
}

/// Reading a stream that holds the codes of `s` gives `s`, and then whatever the
/// bits after them give.
pub proof fn lemma_stream(
    buf: Seq<u8>,
    dbase: int,
    p: int,
    t: HuffmanNode,
    tab: Seq<u16>,
    s: Seq<u8>,
)
    requires
        t is Internal,
        t.in_table(510, 256, tab),
        table_in_buf(buf, tab),
        forall|i: int| 0 <= i < s.len() ==> t.leafset().contains(#[trigger] s[i]),
        bits_in_buf(buf, dbase, p, code_stream(t, s)),
        0 <= p,
    ensures
        huff_all(buf, dbase, 510, p) == s + huff_all(
            buf,
            dbase,
            510,
            p + code_stream(t, s).len(),
        ),
    decreases s.len(),
{
    if s.len() == 0 {
        assert(s + huff_all(buf, dbase, 510, p) =~= huff_all(buf, dbase, 510, p));
    } else {
        let c = t.code(s[0]);
        let rest = code_stream(t, s.skip(1));
        assert(t.leafset().contains(s[0]));
        assert forall|k: int| 0 <= k < c.len() implies #[trigger] huff_stream_bit(
            buf,
            dbase,
            p + k,
        ) == Some(c[k]) by {
            assert(code_stream(t, s)[k] == c[k]);
        }
        lemma_walk(buf, dbase, p, t, 510, 256, tab, s[0]);
        let q = p + c.len();
        assert forall|k: int| 0 <= k < rest.len() implies #[trigger] huff_stream_bit(
            buf,
            dbase,
            q + k,
        ) == Some(rest[k]) by {
            assert(code_stream(t, s)[c.len() + k] == rest[k]);
            assert(huff_stream_bit(buf, dbase, p + (c.len() + k)) == Some(
                code_stream(t, s)[c.len() + k],
            ));
        }
        assert forall|i: int| 0 <= i < s.skip(1).len() implies t.leafset().contains(
            #[trigger] s.skip(1)[i],
        ) by {
            assert(s.skip(1)[i] == s[i + 1]);
        }
        lemma_stream(buf, dbase, q, t, tab, s.skip(1));
        assert(seq![s[0]] + (s.skip(1) + huff_all(buf, dbase, 510, q + rest.len())) =~= s
            + huff_all(buf, dbase, 510, p + code_stream(t, s).len()));
    }
}

/// No more bytes come out of a stream than it has bits left.
pub proof fn lemma_huff_all_len(buf: Seq<u8>, base: int, root: int, p: int)
    ensures
        huff_all(buf, base, root, p).len() <= huff_bits_left(buf, base, p),
    decreases huff_bits_left(buf, base, p),
{
    if root >= 0x100 && p >= 0 {
        lemma_huff_symbol_advances(buf, base, p, root);
        match huff_symbol(buf, base, p, root) {
            None => {},
            Some((v, q)) => {
                lemma_huff_all_len(buf, base, root, q);
            },
        }
    }
}

/// Cell `k` belongs to the subtree whose root has index `idx` and whose other inner
/// nodes have the `below` indices from `base` on.
pub open spec fn cell_of(k: int, idx: int, base: int, below: int) -> bool {
    k == 2 * (idx - 256) || k == 2 * (idx - 256) + 1 || 2 * (base - 256) <= k < 2 * (base + below
        - 256)
}

/// Whether the table holds a subtree depends on the subtree's own cells only.
pub proof fn lemma_in_table_frame(
    t: HuffmanNode,
    idx: int,
    base: int,
    tab: Seq<u16>,
    tab2: Seq<u16>,
)
    requires
        t.in_table(idx, base, tab),
        forall|k: int| #[trigger] cell_of(k, idx, base, t.internals() - 1) ==> tab2[k] == tab[k],
    ensures
        t.in_table(idx, base, tab2),
    decreases t,
{
    reveal_with_fuel(HuffmanNode::in_table, 2);
    match t {
        HuffmanNode::Leaf { .. } => {},
        HuffmanNode::Internal { left, right, .. } => {
            let li = (*left).internals() as int;
            let ri = (*right).internals() as int;
            let rbase = base + li;
            assert(cell_of(2 * (idx - 256), idx, base, t.internals() - 1));
            assert(cell_of(2 * (idx - 256) + 1, idx, base, t.internals() - 1));
            if *left is Internal {
                assert forall|k: int| #[trigger]
                    cell_of(k, base, base + 1, li - 1) implies tab2[k] == tab[k] by {
                    assert(cell_of(k, idx, base, t.internals() - 1));
                }
                lemma_in_table_frame(*left, base, base + 1, tab, tab2);
            }
            if *right is Internal {
                assert forall|k: int| #[trigger]
                    cell_of(k, rbase, rbase + 1, ri - 1) implies tab2[k] == tab[k] by {
                    assert(cell_of(k, idx, base, t.internals() - 1));
                }
                lemma_in_table_frame(*right, rbase, rbase + 1, tab, tab2);
            }
        },
    }
}

/// A code has at most as many bits as the tree has inner nodes.
pub proof fn lemma_code_len(t: HuffmanNode, b: u8)
    ensures
        t.code(b).len() <= t.internals(),
    decreases t,
{
    match t {
        HuffmanNode::Leaf { .. } => {},
        HuffmanNode::Internal { left, right, .. } => {
            lemma_code_len(*left, b);
            lemma_code_len(*right, b);
        },
    }
}

/// The codes of a sequence have at most as many bits as the tree has inner nodes,
/// for each byte.
pub proof fn lemma_code_stream_len(t: HuffmanNode, s: Seq<u8>)
    ensures
        code_stream(t, s).len() <= t.internals() * s.len(),
    decreases s.len(),
{
    if s.len() > 0 {
        lemma_code_len(t, s[0]);
        lemma_code_stream_len(t, s.skip(1));
        assert(t.internals() * s.len() == t.internals() * (s.len() - 1) + t.internals())
            by (nonlinear_arith);
    }
}

} // verus!
