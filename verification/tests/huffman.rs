use rsfrontier_core::jpk::bit_writer::BitWriter;
use rsfrontier_core::jpk::decode::{
    consume_huff_bit, decode_jpk_huff, decode_jpk_huff_lz, decode_jpk_huff_raw, decode_jpk_lz,
};
use rsfrontier_core::jpk::encode::encode_jpk_lz;
use rsfrontier_core::jpk::huff_build::{build_huffman_tree, count_frequencies};
use rsfrontier_core::jpk::huff_encode::{
    assign_indexes, encode_jpk_huff, encode_jpk_huff_lz, generate_code_map, serialize_jpk_table,
};
use rsfrontier_core::jpk::huff_read::{initialize_huffman_state, read_huff_byte, HuffmanReader};
use rsfrontier_core::jpk::huff_tree::HuffmanNode;
use rsfrontier_core::jpk::source::ByteSource;
use rsfrontier_core::jpk::JpkError;

fn leaf(byte: u8, freq: usize) -> HuffmanNode {
    HuffmanNode::Leaf { freq, byte }
}

fn node(left: HuffmanNode, right: HuffmanNode) -> HuffmanNode {
    HuffmanNode::Internal { freq: 0, left: Box::new(left), right: Box::new(right) }
}

fn leaves(tree: &HuffmanNode, out: &mut Vec<(u8, usize)>) {
    match tree {
        HuffmanNode::Leaf { freq, byte } => out.push((*byte, *freq)),
        HuffmanNode::Internal { left, right, .. } => {
            leaves(left, out);
            leaves(right, out);
        }
    }
}

fn weight(tree: &HuffmanNode) -> usize {
    match tree {
        HuffmanNode::Leaf { freq, .. } => *freq,
        HuffmanNode::Internal { freq, .. } => *freq,
    }
}

fn sums_hold(tree: &HuffmanNode) -> bool {
    match tree {
        HuffmanNode::Leaf { .. } => true,
        HuffmanNode::Internal { freq, left, right } => {
            *freq == weight(left) + weight(right) && sums_hold(left) && sums_hold(right)
        }
    }
}

fn sample(len: usize) -> Vec<u8> {
    let mut v: Vec<u8> = Vec::new();
    let mut x: u32 = 99;
    for _ in 0..len {
        x = x.wrapping_mul(1664525).wrapping_add(1013904223);
        let r = (x >> 24) as u8;
        v.push(if r < 128 { b'a' } else if r < 200 { b'b' } else { r });
    }
    v
}

/// A payload with the table of the tree ((A B) (C D)) and the given bit stream.
fn payload_of_four(data: &[u8]) -> Vec<u8> {
    let mut table = vec![0u16; 510];
    table[508] = 256;
    table[509] = 257;
    table[0] = b'A' as u16;
    table[1] = b'B' as u16;
    table[2] = b'C' as u16;
    table[3] = b'D' as u16;
    let mut out = vec![0xfe, 0x01];
    for cell in table {
        out.push(cell as u8);
        out.push((cell >> 8) as u8);
    }
    out.extend_from_slice(data);
    out
}

#[test]
fn counting_bytes() {
    let freq = count_frequencies(b"AAAABBBCCDD");
    assert_eq!(freq[b'A' as usize], 4);
    assert_eq!(freq[b'B' as usize], 3);
    assert_eq!(freq[b'C' as usize], 2);
    assert_eq!(freq[b'D' as usize], 2);
    assert_eq!(freq.iter().sum::<usize>(), 11);
    assert_eq!(count_frequencies(b"").iter().sum::<usize>(), 0);
}

#[test]
fn the_tree_has_one_leaf_for_each_byte_value() {
    let freq = count_frequencies(b"AAAABBBCCDD");
    let tree = build_huffman_tree(&freq).unwrap();
    let mut found = Vec::new();
    leaves(&tree, &mut found);
    found.sort();
    assert_eq!(found, vec![(b'A', 4), (b'B', 3), (b'C', 2), (b'D', 2)]);
    assert_eq!(weight(&tree), 11);
    assert!(sums_hold(&tree));
}

#[test]
fn no_tree_without_bytes() {
    assert!(build_huffman_tree(&[0usize; 256]).is_none());
}

#[test]
fn one_byte_value_gives_a_single_leaf() {
    let freq = count_frequencies(b"zzzz");
    match build_huffman_tree(&freq).unwrap() {
        HuffmanNode::Leaf { freq, byte } => {
            assert_eq!(freq, 4);
            assert_eq!(byte, b'z');
        }
        HuffmanNode::Internal { .. } => panic!("expected a leaf"),
    }
}

#[test]
fn the_rarest_byte_has_the_longest_code() {
    let mut data = vec![b'a'; 100];
    data.extend_from_slice(&[b'b'; 10]);
    data.extend_from_slice(&[b'c'; 3]);
    data.push(b'd');
    let tree = build_huffman_tree(&count_frequencies(&data)).unwrap();
    let mut codes: Vec<Vec<u8>> = vec![Vec::new(); 256];
    let mut prefix = Vec::new();
    generate_code_map(&tree, &mut prefix, &mut codes);
    assert_eq!(codes[b'a' as usize].len(), 1);
    assert_eq!(codes[b'b' as usize].len(), 2);
    assert_eq!(codes[b'c' as usize].len(), 3);
    assert_eq!(codes[b'd' as usize].len(), 3);
}

#[test]
fn codes_follow_the_tree() {
    let tree = node(node(leaf(b'A', 1), leaf(b'B', 1)), node(leaf(b'C', 1), leaf(b'D', 1)));
    let mut codes: Vec<Vec<u8>> = vec![vec![9]; 256];
    let mut prefix = vec![1u8];
    generate_code_map(&tree, &mut prefix, &mut codes);
    assert_eq!(prefix, vec![1]);
    assert_eq!(codes[b'A' as usize], vec![1, 0, 0]);
    assert_eq!(codes[b'B' as usize], vec![1, 0, 1]);
    assert_eq!(codes[b'C' as usize], vec![1, 1, 0]);
    assert_eq!(codes[b'D' as usize], vec![1, 1, 1]);
    assert_eq!(codes[b'E' as usize], vec![9]);
}

#[test]
fn the_table_of_a_small_tree() {
    let tree = node(node(leaf(b'A', 1), leaf(b'B', 1)), node(leaf(b'C', 1), leaf(b'D', 1)));
    let table = serialize_jpk_table(&tree);
    assert_eq!(table.len(), 510);
    assert_eq!(&table[508..510], &[256, 257]);
    assert_eq!(&table[0..4], &[b'A' as u16, b'B' as u16, b'C' as u16, b'D' as u16]);
    assert!(table[4..508].iter().all(|cell| *cell == 0));
}

#[test]
fn inner_nodes_are_numbered_left_subtree_first() {
    // (((A B) C) (D E)): 256 = ((A B) C), 257 = (A B), 258 = (D E)
    let tree = node(
        node(node(leaf(b'A', 1), leaf(b'B', 1)), leaf(b'C', 1)),
        node(leaf(b'D', 1), leaf(b'E', 1)),
    );
    let mut table = vec![0u16; 510];
    let mut next: usize = 256;
    assert_eq!(assign_indexes(&tree, true, &mut next, &mut table), 510);
    assert_eq!(next, 259);
    assert_eq!(&table[508..510], &[256, 258]);
    assert_eq!(&table[0..2], &[257, b'C' as u16]);
    assert_eq!(&table[2..4], &[b'A' as u16, b'B' as u16]);
    assert_eq!(&table[4..6], &[b'D' as u16, b'E' as u16]);
}

#[test]
fn a_leaf_takes_no_index() {
    let mut table = vec![0u16; 510];
    let mut next: usize = 300;
    assert_eq!(assign_indexes(&leaf(b'Q', 1), false, &mut next, &mut table), b'Q' as u16);
    assert_eq!(next, 300);
    assert!(table.iter().all(|cell| *cell == 0));
    assert!(serialize_jpk_table(&leaf(b'Q', 1)).iter().all(|cell| *cell == 0));
}

#[test]
fn reading_bytes_from_a_hand_made_payload() {
    // A = 00, B = 01, C = 10, D = 11: "ABCD" is 0001 1011, "DA" and four more bits 1100 0000
    let payload = payload_of_four(&[0b0001_1011, 0b1100_0000]);
    assert_eq!(decode_jpk_huff(&payload), Ok(b"ABCDDAAA".to_vec()));
    assert_eq!(decode_jpk_huff_raw(&payload, 6), Ok(b"ABCDDA".to_vec()));
    assert_eq!(decode_jpk_huff_raw(&payload, 0), Ok(vec![]));
    assert_eq!(decode_jpk_huff_raw(&payload, 9), Err(JpkError::TruncatedPayload));
}

#[test]
fn the_reader_walks_the_table_bit_by_bit() {
    let payload = payload_of_four(&[0b0001_1011]);
    let mut state = initialize_huffman_state(510, 2, 1022);
    assert_eq!(state.flag_shift, -1);
    assert_eq!(read_huff_byte(&payload, &mut state), Ok(b'A'));
    assert_eq!(state.flag_shift, 6);
    assert_eq!(state.flag, 0b0001_1011);
    assert_eq!(state.data_offset, 1023);
    assert_eq!(read_huff_byte(&payload, &mut state), Ok(b'B'));
    assert_eq!(read_huff_byte(&payload, &mut state), Ok(b'C'));
    assert_eq!(read_huff_byte(&payload, &mut state), Ok(b'D'));
    assert_eq!(state.flag_shift, 0);
    assert_eq!(read_huff_byte(&payload, &mut state), Err(JpkError::TruncatedPayload));
}

#[test]
fn the_reader_is_a_source_of_bytes() {
    let payload = payload_of_four(&[0b0001_1011]);
    let mut reader = HuffmanReader::new(&payload).unwrap();
    assert_eq!(reader.next_byte(), Some(b'A'));
    assert_eq!(reader.next_byte(), Some(b'B'));
    assert_eq!(reader.next_byte(), Some(b'C'));
    assert_eq!(reader.next_byte(), Some(b'D'));
    assert_eq!(reader.next_byte(), None);
}

#[test]
fn control_bits_come_out_of_decoded_bytes() {
    // the stream decodes to the bytes C B: the control bits of C = 0x43 are 0100 0011
    let payload = payload_of_four(&[0b1001_0000]);
    let mut reader = HuffmanReader::new(&payload).unwrap();
    let mut flag: u8 = 0;
    let mut shift_idx: i8 = -1;
    assert_eq!(consume_huff_bit(&mut reader, &mut shift_idx, &mut flag), Ok(0));
    assert_eq!(flag, b'C');
    assert_eq!(consume_huff_bit(&mut reader, &mut shift_idx, &mut flag), Ok(1));
    assert_eq!(shift_idx, 6);
}

#[test]
fn a_payload_without_a_usable_table_length_is_refused() {
    assert_eq!(decode_jpk_huff(&[]), Err(JpkError::MalformedHeader));
    assert_eq!(decode_jpk_huff(&[0xfe]), Err(JpkError::MalformedHeader));
    assert_eq!(decode_jpk_huff(&[0xff, 0x00, 1, 2, 3]), Err(JpkError::MalformedHeader));
    assert_eq!(decode_jpk_huff_raw(&[0xff, 0x00], 1), Err(JpkError::MalformedHeader));
    assert_eq!(decode_jpk_huff_lz(&[0x00, 0x00], 1), Err(JpkError::MalformedHeader));
    assert!(HuffmanReader::new(&[0xff, 0x00]).is_err());
}

#[test]
fn a_payload_that_ends_in_its_table_holds_no_bytes() {
    assert_eq!(decode_jpk_huff(&[0xfe, 0x01, 0, 0, 0, 0]), Ok(vec![]));
    assert_eq!(decode_jpk_huff(&[0x00, 0x01]), Ok(vec![]));
}

#[test]
fn a_walk_that_leaves_the_table_ends_the_stream() {
    // the cell for bit 1 at the root points to node 60000, whose cells lie outside the payload
    let mut payload = payload_of_four(&[0b0010_0000]);
    payload[2 + 2 * 509] = 0x60;
    payload[2 + 2 * 509 + 1] = 0xea;
    assert_eq!(decode_jpk_huff(&payload), Ok(b"A".to_vec()));
}

#[test]
fn huffman_round_trip_of_four_letters() {
    let data = b"AAAABBBCCDD";
    let packed = encode_jpk_huff(data);
    assert_eq!(&packed[0..2], &[0xfe, 0x01]);
    assert!(packed.len() > 1022);
    assert_eq!(decode_jpk_huff_raw(&packed, data.len()), Ok(data.to_vec()));
    let all = decode_jpk_huff(&packed).unwrap();
    assert!(all.len() >= data.len() && all.len() <= data.len() + 7);
    assert_eq!(&all[..data.len()], &data[..]);
}

#[test]
fn the_codes_of_four_letters_are_prefix_free() {
    let tree = build_huffman_tree(&count_frequencies(b"AAAABBBCCDD")).unwrap();
    let mut codes: Vec<Vec<u8>> = vec![Vec::new(); 256];
    let mut prefix = Vec::new();
    generate_code_map(&tree, &mut prefix, &mut codes);
    let letters = [b'A', b'B', b'C', b'D'];
    for x in letters {
        assert!(!codes[x as usize].is_empty());
        for y in letters {
            if x != y {
                assert!(!codes[y as usize].starts_with(&codes[x as usize]));
            }
        }
    }
}

#[test]
fn huffman_round_trip_of_whole_bytes_is_exact() {
    // two letters have codes of one bit, so sixteen of them fill two bytes
    let data = b"abababababababab";
    let packed = encode_jpk_huff(data);
    assert_eq!(packed.len(), 1022 + 2);
    assert_eq!(decode_jpk_huff(&packed), Ok(data.to_vec()));
}

#[test]
fn huffman_round_trip_of_many_values() {
    let data = sample(4000);
    let packed = encode_jpk_huff(&data);
    assert_eq!(decode_jpk_huff_raw(&packed, data.len()), Ok(data.clone()));
    let all: Vec<u8> = (0..=255u8).collect();
    assert_eq!(decode_jpk_huff_raw(&encode_jpk_huff(&all), 256), Ok(all));
}

#[test]
fn codes_longer_than_sixteen_bits() {
    // counts that double make a tree as deep as it has leaves
    let mut data: Vec<u8> = Vec::new();
    for value in 0..20u8 {
        for _ in 0..(1usize << value) {
            data.push(value);
        }
    }
    let tree = build_huffman_tree(&count_frequencies(&data)).unwrap();
    let mut codes: Vec<Vec<u8>> = vec![Vec::new(); 256];
    let mut prefix = Vec::new();
    generate_code_map(&tree, &mut prefix, &mut codes);
    assert_eq!(codes[0].len(), 19);
    assert_eq!(codes[19].len(), 1);
    let packed = encode_jpk_huff(&data);
    assert_eq!(decode_jpk_huff_raw(&packed, data.len()), Ok(data));
}

#[test]
fn one_byte_value_gives_the_blank_payload() {
    let packed = encode_jpk_huff(b"zzzz");
    assert_eq!(packed.len(), 1022);
    assert_eq!(&packed[0..2], &[0xfe, 0x01]);
    assert!(packed[2..].iter().all(|b| *b == 0));
    assert_eq!(decode_jpk_huff(&packed), Ok(vec![]));
    assert_eq!(encode_jpk_huff(b""), packed);
}

#[test]
fn huffman_and_lz_round_trip() {
    for data in [b"HELLO".to_vec(), b"".to_vec(), sample(3000), vec![7u8; 2000]] {
        let packed = encode_jpk_huff_lz(&data);
        assert_eq!(decode_jpk_huff_lz(&packed, data.len()), Ok(data));
    }
}

#[test]
fn huffman_and_lz_is_lz_inside_huffman() {
    let data = sample(1000);
    let packed = encode_jpk_huff_lz(&data);
    let inner = decode_jpk_huff(&packed).unwrap();
    let lz = encode_jpk_lz(&data);
    assert_eq!(&inner[..lz.len()], &lz[..]);
    assert_eq!(decode_jpk_lz(&inner, data.len()), Ok(data));
}

#[test]
fn an_lz_stream_of_one_byte_value_cannot_be_huffman_coded() {
    let packed = encode_jpk_huff_lz(&[0]);
    assert_eq!(packed.len(), 1022);
    assert_eq!(decode_jpk_huff_lz(&packed, 1), Err(JpkError::TruncatedPayload));
}

#[test]
fn bits_are_written_from_the_top_of_each_byte() {
    let mut writer = BitWriter::new(vec![0xEE]);
    writer.write_bit(1);
    writer.write_bit(0);
    writer.write_bit(1);
    writer.flush();
    assert_eq!(writer.into_buffer(), vec![0xEE, 0b1010_0000]);
}

#[test]
fn a_full_byte_is_kept_until_the_next_bit_or_the_flush() {
    let mut writer = BitWriter::new(Vec::new());
    writer.write_bits(0b1100_1010, 8);
    writer.write_bits(0b101, 3);
    writer.flush();
    writer.flush();
    assert_eq!(writer.into_buffer(), vec![0b1100_1010, 0b1010_0000]);
    let mut exact = BitWriter::new(Vec::new());
    exact.write_bits(0xABCD, 16);
    exact.flush();
    assert_eq!(exact.into_buffer(), vec![0xAB, 0xCD]);
}

#[test]
fn flushing_nothing_writes_nothing() {
    let mut writer = BitWriter::new(vec![1, 2]);
    writer.write_bits(0xffff, 0);
    writer.flush();
    assert_eq!(writer.into_buffer(), vec![1, 2]);
}

#[test]
fn writing_a_byte_writes_its_code() {
    let mut codes: Vec<Vec<u8>> = vec![Vec::new(); 256];
    codes[b'x' as usize] = vec![1, 1, 0];
    codes[b'y' as usize] = vec![0];
    let mut writer = BitWriter::new(Vec::new());
    writer.write_huff_byte(b'x', &codes);
    writer.write_huff_byte(b'y', &codes);
    writer.write_huff_byte(b'x', &codes);
    writer.write_huff_byte(b'q', &codes);
    writer.flush();
    assert_eq!(writer.into_buffer(), vec![0b1100_1100]);
}
