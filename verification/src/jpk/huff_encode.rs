//! The Huffman encoder: codes, table and bit stream.

use super::bit_writer::{normal_bits, BitWriter};
use super::encode::{encode_jpk_lz, lz_encode};
use super::huff_build::{
    build_huffman_tree, count_frequencies, huffman_arena, lemma_leafset_nonempty, occurrences,
    slot_tree, Slot,
};
use super::huff_spec::{
    huff_all, huff_entry, huff_header_ok, huff_lz_decode, huff_stream, huff_stream_bit,
    huff_table_length,
};
use super::huff_tree::{
    cell_of, code_stream, lemma_code_stream_len, lemma_code_stream_push, lemma_huff_all_len,
    is_table, lemma_in_table_frame, lemma_stream, lemma_tree_size, table_in_buf, HuffmanNode,
};
use super::lz_proof::lemma_lz_run_extend;
use super::lz_spec::{bit_at, lz_start};
use super::JpkError;
use crate::endian::{lemma_u16_le_at, push_u16_le, u16_le_bytes};
use vstd::prelude::*;

verus! {

/// Copies a code.
fn copy_code(code: &Vec<u8>) -> (r: Vec<u8>)
    ensures
        r@ == code@,
{
    let mut r: Vec<u8> = Vec::new();
    let mut i: usize = 0;
    while i < code.len()
        invariant
            i <= code.len(),
            r@ == code@.take(i as int),
        decreases code.len() - i,
    {
        r.push(code[i]);
        assert(code@.take(i + 1) =~= code@.take(i as int).push(code@[i as int]));
        i = i + 1;
    }
    assert(code@.take(code.len() as int) =~= code@);
    r
}

/// Files under each byte value of the tree its code, with `prefix` before it:
/// left is 0, right is 1.
pub fn generate_code_map(
    huffman_node: &HuffmanNode,
    prefix: &mut Vec<u8>,
    code_map: &mut Vec<Vec<u8>>,
)
    requires
        old(code_map).len() == 256,
    ensures
        final(prefix)@ == old(prefix)@,
        final(code_map).len() == 256,
        huffman_node.distinct() ==> forall|x: u8|
            huffman_node.leafset().contains(x) ==> (#[trigger] final(code_map)@[x as int])@ == old(
                prefix,
            )@ + huffman_node.code(x),
        forall|x: u8|
            !huffman_node.leafset().contains(x) ==> #[trigger] final(code_map)@[x as int] == old(
                code_map,
            )@[x as int],
    decreases huffman_node,
{
    match huffman_node {
        HuffmanNode::Leaf { freq: _, byte } => {
            let code = copy_code(prefix);
            code_map.set(*byte as usize, code);
            assert(prefix@ + huffman_node.code(*byte) =~= prefix@);
        },
        HuffmanNode::Internal { freq: _, left, right } => {
            let ghost kept = prefix@;
            prefix.push(0);
            generate_code_map(left, prefix, code_map);
            let ghost map_left = code_map@;
            prefix.pop();
            prefix.push(1);
            generate_code_map(right, prefix, code_map);
            prefix.pop();
            proof {
                assert(prefix@ =~= kept);
                assert forall|x: u8|
                    huffman_node.distinct() && huffman_node.leafset().contains(x) implies (
                #[trigger] code_map@[x as int])@ == kept + huffman_node.code(x) by {
                    if left.leafset().contains(x) {
                        assert(!right.leafset().contains(x));
                        assert(code_map@[x as int] == map_left[x as int]);
                        assert(kept.push(0u8) + left.code(x) =~= kept + (seq![0u8] + left.code(x)));
                    } else {
                        assert(right.leafset().contains(x));
                        assert(kept.push(1u8) + right.code(x) =~= kept + (seq![1u8] + right.code(
                            x,
                        )));
                    }
                }
            }
        },
    }
}

/// Gives the inner nodes of the subtree their indices and fills in their table
/// cells. The root of the whole tree has index 510; every other inner node takes
/// the next free index, a node before the nodes of its left subtree, and these
/// before the nodes of its right subtree. Returns what a cell that points to this
/// node holds.
#[verifier::rlimit(30)]
pub fn assign_indexes(
    huffman_node: &HuffmanNode,
    root: bool,
    next_idx: &mut usize,
    table: &mut Vec<u16>,
) -> (cell: u16)
    requires
        old(table).len() == 510,
        256 <= *old(next_idx),
        *old(next_idx) + huffman_node.internals() <= 510 + if root && huffman_node is Internal {
            1int
        } else {
            0int
        },
    ensures
        final(table).len() == 510,
        *final(next_idx) == *old(next_idx) + huffman_node.internals() - if root
            && huffman_node is Internal {
            1int
        } else {
            0int
        },
        cell == huffman_node.cell(
            if root {
                510
            } else {
                *old(next_idx) as int
            },
        ),
        huffman_node.in_table(
            if root {
                510
            } else {
                *old(next_idx) as int
            },
            if root {
                *old(next_idx) as int
            } else {
                *old(next_idx) + 1
            },
            final(table)@,
        ),
        forall|k: int|
            0 <= k < 510 && !(2 * (*old(next_idx) - 256) <= k < 2 * (*final(next_idx) - 256))
                && !(root && k >= 508) ==> #[trigger] final(table)@[k] == old(table)@[k],
    decreases huffman_node,
{
    match huffman_node {
        HuffmanNode::Leaf { freq: _, byte } => {
            assert(huffman_node.internals() == 0);
            *byte as u16
        },
        HuffmanNode::Internal { freq: _, left, right } => {
            let my_idx: usize = if root {
                510
            } else {
                let v: usize = *next_idx;
                *next_idx = v + 1;
                v
            };
            let ghost base: int = *next_idx as int;
            let ghost li: int = left.internals() as int;
            let ghost ri: int = right.internals() as int;
            let left_cell: u16 = assign_indexes(left, false, next_idx, table);
            let ghost tab1 = table@;
            let right_cell: u16 = assign_indexes(right, false, next_idx, table);
            let ghost tab2 = table@;
            table.set((my_idx - 256) * 2, left_cell);
            table.set((my_idx - 256) * 2 + 1, right_cell);
            proof {
                reveal_with_fuel(HuffmanNode::in_table, 2);
                let tab3 = table@;
                let rbase = base + li;
                if **left is Internal {
                    assert forall|k: int| #[trigger]
                        cell_of(k, base, base + 1, li - 1) implies tab3[k] == tab1[k] by {
                        assert(tab2[k] == tab1[k]);
                    }
                    lemma_in_table_frame(**left, base, base + 1, tab1, tab3);
                }
                if **right is Internal {
                    assert forall|k: int| #[trigger]
                        cell_of(k, rbase, rbase + 1, ri - 1) implies tab3[k] == tab2[k] by {
                    }
                    lemma_in_table_frame(**right, rbase, rbase + 1, tab2, tab3);
                }
            }
            my_idx as u16
        },
    }
}

/// The table of a tree: 510 cells, two for each inner node, all others zero.
pub fn serialize_jpk_table(huffman_root: &HuffmanNode) -> (jpk_table: Vec<u16>)
    requires
        huffman_root.internals() <= 255,
    ensures
        is_table(*huffman_root, jpk_table@),
{
    let mut jpk_table: Vec<u16> = vec![0u16; 510];
    let mut next_index: usize = 0x100;
    match huffman_root {
        HuffmanNode::Leaf { .. } => {},
        HuffmanNode::Internal { .. } => {
            let _ = assign_indexes(huffman_root, true, &mut next_index, &mut jpk_table);
        },
    }
    jpk_table
}

/// The buffer is not empty and holds one byte value only.
pub open spec fn uniform(s: Seq<u8>) -> bool {
    s.len() > 0 && forall|i: int| 0 <= i < s.len() ==> #[trigger] s[i] == s[0]
}

/// The payload without any bit stream: the table length 510 and 510 cells of zero.
pub open spec fn blank_huff() -> Seq<u8> {
    u16_le_bytes(510) + Seq::new(1020, |i: int| 0u8)
}

/// A byte value that occurs has a count above zero.
pub proof fn lemma_occurs(s: Seq<u8>, i: int)
    requires
        0 <= i < s.len(),
    ensures
        occurrences(s, s[i]) > 0,
    decreases s.len(),
{
    if i < s.len() - 1 {
        lemma_occurs(s.drop_last(), i);
    }
}

/// A byte value with a count above zero occurs.
pub proof fn lemma_counted(s: Seq<u8>, b: u8) -> (i: int)
    requires
        occurrences(s, b) > 0,
    ensures
        0 <= i < s.len(),
        s[i] == b,
    decreases s.len(),
{
    if s.last() == b {
        s.len() - 1
    } else {
        lemma_counted(s.drop_last(), b)
    }
}

/// A code is made of the bits 0 and 1.
pub proof fn lemma_code_bits(t: HuffmanNode, b: u8)
    ensures
        normal_bits(t.code(b)) == t.code(b),
    decreases t,
{
    match t {
        HuffmanNode::Leaf { .. } => {},
        HuffmanNode::Internal { left, right, .. } => {
            lemma_code_bits(*left, b);
            lemma_code_bits(*right, b);
            let c = t.code(b);
            let sub = if (*left).leafset().contains(b) {
                (*left).code(b)
            } else {
                (*right).code(b)
            };
            assert forall|k: int| 0 <= k < c.len() implies c[k] == 0 || c[k] == 1 by {
                if k > 0 {
                    assert(c[k] == sub[k - 1]);
                    assert(normal_bits(sub)[k - 1] == sub[k - 1]);
                }
            }
        },
    }
    assert(normal_bits(t.code(b)) =~= t.code(b));
}

/// The blank payload holds no byte.
pub proof fn lemma_blank_stream()
    ensures
        blank_huff().len() == 1022,
        huff_header_ok(blank_huff()),
        huff_table_length(blank_huff()) == 510,
        huff_stream(blank_huff()) == Seq::<u8>::empty(),
{
    let b = blank_huff();
    assert(b[0] == 254 && b[1] == 1);
    assert(huff_stream_bit(b, 1022, 0) is None);
}

/// Writes the table length and the table.
fn write_table(jpk_table: &Vec<u16>) -> (out: Vec<u8>)
    requires
        jpk_table.len() == 510,
    ensures
        out.len() == 1022,
        out@.subrange(0, 2) == u16_le_bytes(510),
        forall|k: int|
            0 <= k < 510 ==> #[trigger] out@.subrange(2 + 2 * k, 4 + 2 * k) == u16_le_bytes(
                jpk_table@[k],
            ),
{
    let mut out: Vec<u8> = Vec::new();
    push_u16_le(&mut out, 510);
    assert(out@.subrange(0, 2) =~= u16_le_bytes(510));
    let mut i: usize = 0;
    while i < 510
        invariant
            i <= 510,
            jpk_table.len() == 510,
            out.len() == 2 + 2 * i,
            out@.subrange(0, 2) == u16_le_bytes(510),
            forall|k: int|
                0 <= k < i ==> #[trigger] out@.subrange(2 + 2 * k, 4 + 2 * k) == u16_le_bytes(
                    jpk_table@[k],
                ),
        decreases 510 - i,
    {
        let ghost before = out@;
        push_u16_le(&mut out, jpk_table[i]);
        proof {
            assert(out@.subrange(0, 2) =~= before.subrange(0, 2));
            assert forall|k: int| 0 <= k < i + 1 implies #[trigger] out@.subrange(
                2 + 2 * k,
                4 + 2 * k,
            ) == u16_le_bytes(jpk_table@[k]) by {
                if k < i {
                    assert(out@.subrange(2 + 2 * k, 4 + 2 * k) =~= before.subrange(
                        2 + 2 * k,
                        4 + 2 * k,
                    ));
                } else {
                    assert(out@.subrange(2 + 2 * k, 4 + 2 * k) =~= u16_le_bytes(jpk_table@[k]));
                }
            }
        }
        i = i + 1;
    }
    out
}

/// The table that was written can be read in any buffer that begins with it.
proof fn lemma_table_in_buf(head: Seq<u8>, buf: Seq<u8>, tab: Seq<u16>)
    requires
        tab.len() == 510,
        head.len() == 1022,
        buf.len() >= 1022,
        buf.take(1022) == head,
        head.subrange(0, 2) == u16_le_bytes(510),
        forall|k: int|
            0 <= k < 510 ==> #[trigger] head.subrange(2 + 2 * k, 4 + 2 * k) == u16_le_bytes(tab[k]),
    ensures
        table_in_buf(buf, tab),
        huff_table_length(buf) == 510,
        huff_header_ok(buf),
{
    assert(buf.subrange(0, 2) =~= head.subrange(0, 2));
    lemma_u16_le_at(buf, 0, 510);
    assert forall|k: int| 0 <= k < 510 implies #[trigger] huff_entry(buf, k) == Some(
        tab[k] as int,
    ) by {
        assert(buf.subrange(2 + 2 * k, 2 + 2 * k + 2) =~= head.subrange(2 + 2 * k, 4 + 2 * k));
        lemma_u16_le_at(buf, 2 + 2 * k, tab[k]);
    }
}

/// A table of zeros is written as zeros.
proof fn lemma_blank_table(head: Seq<u8>, tab: Seq<u16>)
    requires
        tab.len() == 510,
        head.len() == 1022,
        head.subrange(0, 2) == u16_le_bytes(510),
        forall|k: int|
            0 <= k < 510 ==> #[trigger] head.subrange(2 + 2 * k, 4 + 2 * k) == u16_le_bytes(tab[k]),
        forall|k: int| 0 <= k < 510 ==> tab[k] == 0,
    ensures
        head == blank_huff(),
{
    let b = blank_huff();
    assert forall|j: int| 0 <= j < 1022 implies head[j] == b[j] by {
        if j < 2 {
            assert(head.subrange(0, 2)[j] == head[j]);
        } else {
            let k = (j - 2) / 2;
            let part = head.subrange(2 + 2 * k, 4 + 2 * k);
            assert(part == u16_le_bytes(tab[k]));
            assert(part[j - 2 - 2 * k] == head[j]);
        }
    }
    assert(head =~= b);
}

/// How often each byte value occurs in `input`.
pub open spec fn counts_of(input: Seq<u8>) -> Seq<usize> {
    Seq::new(256, |b: int| occurrences(input, b as u8) as usize)
}

/// `t` is a Huffman tree of `input`: it has a leaf for each byte value that occurs,
/// with its count, and came about by joining the two roots of the lowest count
/// until one was left.
pub open spec fn huffman_tree_of(t: HuffmanNode, input: Seq<u8>) -> bool {
    &&& t.distinct()
    &&& t.counts(counts_of(input))
    &&& t.ordered()
    &&& forall|x: u8| t.leafset().contains(x) <==> occurrences(input, x) > 0
    &&& exists|arena: Seq<Slot>| #[trigger]
        huffman_arena(arena) && t == slot_tree(arena, arena.len() - 1)
}

/// `out` is the payload with the table `tab` and the bit stream `bits`: the table
/// length 510, the cells of the table, then the bits, eight to a byte from the
/// highest bit down, the last byte filled up with zero bits.
pub open spec fn is_huff_payload(out: Seq<u8>, tab: Seq<u16>, bits: Seq<u8>) -> bool {
    &&& tab.len() == 510
    &&& out.len() == 1022 + (bits.len() + 7) / 8
    &&& out.subrange(0, 2) == u16_le_bytes(510)
    &&& forall|k: int|
        0 <= k < 510 ==> #[trigger] out.subrange(2 + 2 * k, 4 + 2 * k) == u16_le_bytes(tab[k])
    &&& forall|k: int|
        0 <= k < 8 * (out.len() - 1022) ==> #[trigger] huff_stream_bit(out, 1022, k) == Some(
            if k < bits.len() {
                bits[k]
            } else {
                0u8
            },
        )
}

/// `out` is `input` coded with the tree `t`, or with no tree where `input` is
/// empty.
pub open spec fn coded_with(input: Seq<u8>, t: Option<HuffmanNode>, tab: Seq<u16>, out: Seq<u8>) -> bool {
    match t {
        None => input.len() == 0 && out == blank_huff(),
        Some(tree) => input.len() > 0 && huffman_tree_of(tree, input) && is_table(tree, tab)
            && is_huff_payload(out, tab, code_stream(tree, input)),
    }
}

/// A tree of a buffer is a single leaf exactly where the buffer holds one byte
/// value only.
pub proof fn lemma_leaf_iff_uniform(tree: HuffmanNode, input: Seq<u8>)
    requires
        input.len() > 0,
        huffman_tree_of(tree, input),
    ensures
        tree is Leaf <==> uniform(input),
{
    match tree {
        HuffmanNode::Leaf { byte, .. } => {
            assert forall|j: int| 0 <= j < input.len() implies #[trigger] input[j] == input[0] by {
                lemma_occurs(input, j);
                lemma_occurs(input, 0);
                assert(tree.leafset().contains(input[j]));
                assert(tree.leafset().contains(input[0]));
            }
        },
        HuffmanNode::Internal { left, right, .. } => {
            lemma_leafset_nonempty(*left);
            lemma_leafset_nonempty(*right);
            let x = choose|x: u8| (*left).leafset().contains(x);
            let y = choose|y: u8| (*right).leafset().contains(y);
            assert(tree.leafset().contains(x) && tree.leafset().contains(y));
            let ix = lemma_counted(input, x);
            let iy = lemma_counted(input, y);
            assert(input[ix] != input[iy]);
        },
    }
}

/// Reading back a Huffman-coded buffer gives the buffer, and after it at most
/// seven bytes that the filling bits make up; none where the codes fill their last
/// byte. A buffer of one byte value only has the blank payload, which holds no
/// stream.
pub proof fn lemma_huff_round_trip(input: Seq<u8>, tree: HuffmanNode, tab: Seq<u16>, out: Seq<u8>)
    requires
        coded_with(input, Some(tree), tab, out),
    ensures
        huff_header_ok(out),
        huff_table_length(out) == 510,
        uniform(input) ==> out == blank_huff(),
        !uniform(input) ==> out.len() > 1022 && input.len() <= huff_stream(out).len()
            <= input.len() + 7 && huff_stream(out).take(input.len() as int) == input,
        !uniform(input) && code_stream(tree, input).len() % 8 == 0 ==> huff_stream(out) == input,
{
    let n = input.len() as int;
    let stream = code_stream(tree, input);
    lemma_leaf_iff_uniform(tree, input);
    let head = out.take(1022);
    assert(head.subrange(0, 2) =~= out.subrange(0, 2));
    assert forall|k: int| 0 <= k < 510 implies #[trigger] head.subrange(2 + 2 * k, 4 + 2 * k)
        == u16_le_bytes(tab[k]) by {
        assert(head.subrange(2 + 2 * k, 4 + 2 * k) =~= out.subrange(2 + 2 * k, 4 + 2 * k));
    }
    lemma_table_in_buf(head, out, tab);
    match tree {
        HuffmanNode::Leaf { .. } => {
            lemma_leaf_stream(tree, input);
            assert(out =~= out.take(1022));
            lemma_blank_table(out, tab);
        },
        HuffmanNode::Internal { .. } => {
            assert forall|k: int| 0 <= k < stream.len() implies #[trigger] huff_stream_bit(
                out,
                1022,
                0 + k,
            ) == Some(stream[k]) by {}
            assert forall|j: int| 0 <= j < n implies tree.leafset().contains(
                #[trigger] input[j],
            ) by {
                lemma_occurs(input, j);
            }
            lemma_stream(out, 1022, 0, tree, tab, input);
            let extra = huff_all(out, 1022, 510, 0 + stream.len() as int);
            lemma_huff_all_len(out, 1022, 510, 0 + stream.len() as int);
            assert(huff_stream(out) == input + extra);
            assert((input + extra).take(n) =~= input);
            lemma_stream_nonempty(tree, input);
            if stream.len() % 8 == 0 {
                assert(input + extra =~= input);
            }
        },
    }
}

/// Decoding the Huffman-coded LZ stream of a buffer with the buffer's length gives
/// the buffer back, unless the LZ stream holds one byte value only.
pub proof fn lemma_huff_lz_round_trip(
    data: Seq<u8>,
    tree: Option<HuffmanNode>,
    tab: Seq<u16>,
    out: Seq<u8>,
)
    requires
        data.len() <= usize::MAX,
        coded_with(lz_encode(data), tree, tab, out),
        !uniform(lz_encode(data)),
    ensures
        huff_lz_decode(out, data.len()) == Ok::<Seq<u8>, JpkError>(data),
{
    let lz = lz_encode(data);
    super::encode::lemma_lz_round_trip(data);
    lemma_blank_stream();
    match tree {
        None => {
            assert(lz =~= Seq::<u8>::empty());
        },
        Some(t) => {
            lemma_huff_round_trip(lz, t, tab, out);
            let h = huff_stream(out);
            let extra = h.skip(lz.len() as int);
            assert(h =~= lz + extra);
            lemma_lz_run_extend(lz, extra, lz_start(), Seq::empty(), data.len());
        },
    }
}

/// Huffman-codes `buffer`: the table length, the table, then the codes of the
/// bytes as a bit stream, the last byte filled up with zero bits.
///
/// Reading the payload back gives `buffer` and after it at most seven bytes that
/// the filling bits make up. A buffer with one byte value only has codes of no
/// bits, so its payload holds no bit stream: the blank payload.
pub fn encode_jpk_huff(buffer: &[u8]) -> (out: Vec<u8>)
    ensures
        out.len() >= 1022,
        huff_header_ok(out@),
        huff_table_length(out@) == 510,
        uniform(buffer@) || buffer@.len() == 0 ==> out@ == blank_huff(),
        !uniform(buffer@) ==> buffer@.len() <= huff_stream(out@).len() <= buffer@.len() + 7
            && huff_stream(out@).take(buffer@.len() as int) == buffer@,
        !uniform(buffer@) && buffer@.len() > 0 ==> out.len() > 1022,
        out.len() <= 1022 + 32 * buffer@.len(),
        exists|t: Option<HuffmanNode>, tab: Seq<u16>| #[trigger] coded_with(buffer@, t, tab, out@),
{
    let frequencies = count_frequencies(buffer);
    assert(buffer@.len() == buffer.len());
    let huffman_root = build_huffman_tree(&frequencies);
    let mut code_table: Vec<Vec<u8>> = Vec::new();
    while code_table.len() < 256
        invariant
            code_table.len() <= 256,
            forall|k: int| 0 <= k < code_table.len() ==> (#[trigger] code_table@[k])@ == Seq::<
                u8,
            >::empty(),
        decreases 256 - code_table.len(),
    {
        code_table.push(Vec::new());
    }
    let jpk_table: Vec<u16> = match &huffman_root {
        Some(root) => {
            let mut prefix: Vec<u8> = Vec::new();
            generate_code_map(root, &mut prefix, &mut code_table);
            proof {
                lemma_tree_size(*root);
            }
            serialize_jpk_table(root)
        },
        None => vec![0u16; 510],
    };
    let head = write_table(&jpk_table);
    let ghost head_view = head@;
    let mut bit_writer = BitWriter::new(head);
    let ghost input = buffer@;
    proof {
        assert(input.take(0) =~= Seq::<u8>::empty());
        if input.len() > 0 {
            lemma_occurs(input, 0);
            assert(frequencies@[input[0] as int] > 0);
            let root = huffman_root.unwrap();
            assert forall|x: u8| root.leafset().contains(x) implies (
            #[trigger] code_table@[x as int])@ == root.code(x) by {
                assert(Seq::<u8>::empty() + root.code(x) =~= root.code(x));
            }
        }
    }
    let mut i: usize = 0;
    while i < buffer.len()
        invariant
            i <= buffer.len(),
            input == buffer@,
            code_table.len() == 256,
            bit_writer.wf(),
            bit_writer.start_view() == 1022,
            bit_writer.buffer_view().take(1022) == head_view,
            input.len() == 0 ==> bit_writer.bits() == Seq::<u8>::empty(),
            input.len() > 0 ==> huffman_root is Some,
            input.len() > 0 ==> huffman_root.unwrap().distinct(),
            input.len() > 0 ==> forall|x: u8|
                huffman_root.unwrap().leafset().contains(x) <==> occurrences(input, x) > 0,
            input.len() > 0 ==> forall|x: u8|
                huffman_root.unwrap().leafset().contains(x) ==> (
                #[trigger] code_table@[x as int])@ == huffman_root.unwrap().code(x),
            input.len() > 0 ==> bit_writer.bits() == code_stream(
                huffman_root.unwrap(),
                input.take(i as int),
            ),
        decreases buffer.len() - i,
    {
        let byte: u8 = buffer[i];
        proof {
            lemma_occurs(input, i as int);
            lemma_code_bits(huffman_root.unwrap(), byte);
            lemma_code_stream_push(huffman_root.unwrap(), input.take(i as int), byte);
            assert(input.take(i as int).push(byte) =~= input.take(i + 1));
        }
        bit_writer.write_huff_byte(byte, &code_table);
        i = i + 1;
    }
    let ghost written = bit_writer.bits();
    bit_writer.flush();
    let ghost padded = bit_writer.bits();
    let out = bit_writer.into_buffer();
    proof {
        let n = input.len() as int;
        assert(input.take(n) =~= input);
        assert(out@.take(1022) == head_view);
        lemma_table_in_buf(head_view, out@, jpk_table@);
        lemma_blank_stream();
        assert(frequencies@ =~= counts_of(input));
        assert(out@.subrange(0, 2) =~= head_view.subrange(0, 2));
        assert forall|k: int| 0 <= k < 510 implies #[trigger] out@.subrange(
            2 + 2 * k,
            4 + 2 * k,
        ) == u16_le_bytes(jpk_table@[k]) by {
            assert(out@.subrange(2 + 2 * k, 4 + 2 * k) =~= head_view.subrange(
                2 + 2 * k,
                4 + 2 * k,
            ));
        }
        assert forall|k: int|
            0 <= k < 8 * (out@.len() - 1022) implies #[trigger] huff_stream_bit(out@, 1022, k)
                == Some(
                if k < written.len() {
                    written[k]
                } else {
                    0u8
                },
            ) by {
            assert(padded[k] == bit_at(out@[1022 + k / 8], (7 - k % 8) as u8));
            if k < written.len() {
                assert(padded[k] == padded.take(written.len() as int)[k]);
            }
        }
        assert(is_huff_payload(out@, jpk_table@, written));
        match huffman_root {
            None => {
                assert(n == 0) by {
                    if n > 0 {
                        lemma_occurs(input, 0);
                    }
                }
                assert(out@ =~= out@.take(1022));
                lemma_blank_table(head_view, jpk_table@);
                assert(coded_with(input, None, jpk_table@, out@));
            },
            Some(root) => {
                assert(n > 0) by {
                    lemma_leafset_nonempty(root);
                    let x = choose|x: u8| root.leafset().contains(x);
                    let _ = lemma_counted(input, x);
                }
                assert(huffman_tree_of(root, input));
                assert(coded_with(input, Some(root), jpk_table@, out@));
                lemma_huff_round_trip(input, root, jpk_table@, out@);
                lemma_code_stream_len(root, input);
                lemma_tree_size(root);
                assert(written.len() <= 255 * n) by (nonlinear_arith)
                    requires
                        written.len() <= root.internals() * n,
                        root.internals() <= 255,
                        0 <= n,
                ;
            },
        }
    }
    out
}

/// With a single leaf every code is empty.
proof fn lemma_leaf_stream(t: HuffmanNode, s: Seq<u8>)
    requires
        t is Leaf,
    ensures
        code_stream(t, s) == Seq::<u8>::empty(),
    decreases s.len(),
{
    if s.len() > 0 {
        lemma_leaf_stream(t, s.skip(1));
        assert(code_stream(t, s) =~= Seq::<u8>::empty());
    }
}

/// Below an inner node every code has a bit.
proof fn lemma_stream_nonempty(t: HuffmanNode, s: Seq<u8>)
    requires
        t is Internal,
        s.len() > 0,
    ensures
        code_stream(t, s).len() > 0,
{
}

/// Compresses `buffer` with LZ and Huffman-codes the result.
///
/// Decoding the payload with the buffer's length gives the buffer back, unless the
/// LZ stream holds one byte value only: then the payload is the blank one, which
/// holds no stream.
pub fn encode_jpk_huff_lz(buffer: &[u8]) -> (out: Vec<u8>)
    ensures
        1022 <= out.len() <= 1022 + 64 * buffer@.len(),
        huff_header_ok(out@),
        exists|t: Option<HuffmanNode>, tab: Seq<u16>| #[trigger]
            coded_with(lz_encode(buffer@), t, tab, out@),
        !uniform(lz_encode(buffer@)) ==> huff_lz_decode(out@, buffer@.len()) == Ok::<
            Seq<u8>,
            JpkError,
        >(buffer@),
        uniform(lz_encode(buffer@)) <==> out.len() == 1022 && buffer@.len() > 0,
        out.len() == 1022 ==> out@ == blank_huff(),
{
    let lz_buffer = encode_jpk_lz(buffer);
    let out = encode_jpk_huff(lz_buffer.as_slice());
    proof {
        let n = buffer@.len();
        let lz = lz_buffer@;
        lemma_blank_stream();
        if !uniform(lz) {
            let h = huff_stream(out@);
            let extra = h.skip(lz.len() as int);
            assert(h =~= lz + extra);
            lemma_lz_run_extend(lz, extra, lz_start(), Seq::empty(), n);
        }
    }
    out
}

} // verus!
