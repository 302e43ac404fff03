use huffman::bits::{BitReader, BitWriter};
use huffman::code::{build_encoding_table, Code};
use huffman::container::{decode, decode_header, encode, DecodeError, EncodeError};
use huffman::freq::calculate_frequencies;
use huffman::tree::{build_huffman_tree, HuffmanNode};

fn check_weights(node: &HuffmanNode) -> u32 {
    match node {
        HuffmanNode::Leaf { weight, .. } => *weight,
        HuffmanNode::Parent { weight, left, right } => {
            let l = check_weights(left);
            let r = check_weights(right);
            assert_eq!(*weight, l + r);
            *weight
        }
    }
}

fn is_prefix(a: &Code, b: &Code) -> bool {
    if a.length > b.length {
        return false;
    }
    (0..a.length).all(|i| ((a.bits >> (7 - i)) & 1) == ((b.bits >> (7 - i)) & 1))
}

#[test]
fn round_trip_text() {
    let data = b"hello, huffman world! the quick brown fox".to_vec();
    let out = encode(&data).unwrap();
    assert_eq!(decode(&out), Ok(data));
}

#[test]
fn round_trip_every_byte_value() {
    let data: Vec<u8> = (0..=255u8).collect();
    let out = encode(&data).unwrap();
    // all 256 symbols have equal weight: eight-bit codes, 256 bytes of payload
    assert_eq!(out.len(), 9 + 3 * 256 + 256);
    assert_eq!(decode(&out), Ok(data));
}

#[test]
fn round_trip_skewed() {
    let mut data = Vec::new();
    for (i, n) in [40usize, 20, 10, 5, 3, 1].iter().enumerate() {
        for _ in 0..*n {
            data.push(b'a' + i as u8);
        }
    }
    let out = encode(&data).unwrap();
    assert_eq!(decode(&out), Ok(data));
}

#[test]
fn empty_input() {
    let out = encode(&Vec::new()).unwrap();
    assert_eq!(out, vec![b'H', b'R', b'S', b'T', 0, 0, 0, 0, 0]);
    assert_eq!(decode(&out), Ok(Vec::new()));
}

#[test]
fn single_repeated_byte() {
    let data = b"aaaa".to_vec();
    let out = encode(&data).unwrap();
    assert_eq!(
        out,
        vec![b'H', b'R', b'S', b'T', 1, 0, 0, 0, 4, b'a', 0, 1, 0]
    );
    assert_eq!(decode(&out), Ok(data));
}

#[test]
fn scenario_aabbbcccc() {
    let data = b"aabbbcccc".to_vec();
    let freqs = calculate_frequencies(&data);
    assert_eq!(freqs, vec![(b'a', 2), (b'b', 3), (b'c', 4)]);
    let tree = build_huffman_tree(&freqs).unwrap();
    let table = build_encoding_table(&tree);
    let a = table.codes[b'a' as usize].unwrap();
    let b = table.codes[b'b' as usize].unwrap();
    let c = table.codes[b'c' as usize].unwrap();
    assert_eq!(c, Code { bits: 0, length: 1 });
    assert_eq!(a, Code { bits: 0b1000_0000, length: 2 });
    assert_eq!(b, Code { bits: 0b1100_0000, length: 2 });
    assert!(c.length < a.length);
    let out = encode(&data).unwrap();
    assert_eq!(
        out,
        vec![
            b'H', b'R', b'S', b'T', 3, 0, 0, 0, 2, b'a', 0x80, 2, b'b', 0xC0, 2, b'c', 0x00, 1,
            0xAF, 0xC0
        ]
    );
    assert_eq!(decode(&out), Ok(data));
}

#[test]
fn truncated_payload_is_corrupt() {
    let data = b"caabbbccc".to_vec();
    let mut out = encode(&data).unwrap();
    assert_eq!(out[out.len() - 2..].to_vec(), vec![0x57, 0xE0]);
    out.pop();
    assert_eq!(decode(&out), Err(DecodeError::Corrupt));
}

#[test]
fn overlong_accumulator_is_corrupt() {
    // one code `0`; a payload byte of ones never matches
    let file = vec![b'H', b'R', b'S', b'T', 1, 0, 0, 0, 0, b'a', 0, 1, 0xFF];
    assert_eq!(decode(&file), Err(DecodeError::Corrupt));
}

#[test]
fn bad_magic() {
    let mut out = encode(&b"abc".to_vec()).unwrap();
    out[0] = b'X';
    assert_eq!(decode(&out), Err(DecodeError::InvalidFormat));
}

#[test]
fn truncated_header() {
    assert_eq!(decode(&vec![b'H', b'R', b'S', b'T', 1]), Err(DecodeError::InvalidFormat));
    // announces two entries but holds one
    let file = vec![b'H', b'R', b'S', b'T', 2, 0, 0, 0, 0, b'a', 0, 1];
    assert_eq!(decode(&file), Err(DecodeError::InvalidFormat));
}

#[test]
fn bad_header_fields() {
    let padding = vec![b'H', b'R', b'S', b'T', 1, 0, 0, 0, 8, b'a', 0, 1, 0];
    assert_eq!(decode(&padding), Err(DecodeError::InvalidFormat));
    let zero_length = vec![b'H', b'R', b'S', b'T', 1, 0, 0, 0, 0, b'a', 0, 0, 0];
    assert_eq!(decode(&zero_length), Err(DecodeError::InvalidFormat));
    let long = vec![b'H', b'R', b'S', b'T', 1, 0, 0, 0, 0, b'a', 0, 9, 0];
    assert_eq!(decode(&long), Err(DecodeError::InvalidFormat));
}

#[test]
fn codes_longer_than_a_byte_are_refused() {
    let counts = [1usize, 1, 2, 3, 5, 8, 13, 21, 34, 55];
    let mut data = Vec::new();
    for (i, n) in counts.iter().enumerate() {
        for _ in 0..*n {
            data.push(i as u8);
        }
    }
    assert_eq!(encode(&data), Err(EncodeError::CodeTooLong));
}

#[test]
fn header_reads_back() {
    let out = encode(&b"aabbbcccc".to_vec()).unwrap();
    let header = decode_header(&out).ok().unwrap();
    assert_eq!(header.num_entries, 3);
    assert_eq!(header.padding_bits, 2);
    assert_eq!(
        header.encoding_table,
        vec![
            (b'a', Code { bits: 0x80, length: 2 }),
            (b'b', Code { bits: 0xC0, length: 2 }),
            (b'c', Code { bits: 0x00, length: 1 })
        ]
    );
}

#[test]
fn frequencies_hold_present_bytes_only() {
    assert_eq!(
        calculate_frequencies(&b"abca".to_vec()),
        vec![(b'a', 2), (b'b', 1), (b'c', 1)]
    );
    assert_eq!(calculate_frequencies(&Vec::new()), vec![]);
}

#[test]
fn tree_weights_add_up() {
    let data = b"mississippi river banks".to_vec();
    let tree = build_huffman_tree(&calculate_frequencies(&data)).unwrap();
    assert_eq!(check_weights(&tree), data.len() as u32);
    assert!(build_huffman_tree(&Vec::new()).is_none());
}

#[test]
fn table_is_complete_and_prefix_free() {
    let data = b"mississippi river banks".to_vec();
    let freqs = calculate_frequencies(&data);
    let tree = build_huffman_tree(&freqs).unwrap();
    let table = build_encoding_table(&tree);
    for b in 0..256usize {
        assert_eq!(table.codes[b].is_some(), data.contains(&(b as u8)));
    }
    for x in 0..256usize {
        for y in 0..256usize {
            if x != y {
                if let (Some(p), Some(q)) = (table.codes[x], table.codes[y]) {
                    assert!(!is_prefix(&p, &q));
                }
            }
        }
    }
}

#[test]
fn node_constructors() {
    let a = HuffmanNode::new_leaf(b'a', 2);
    let b = HuffmanNode::new_leaf(b'b', 3);
    assert_eq!(a.weight(), 2);
    let p = HuffmanNode::new_parent(Box::new(a), Box::new(b));
    assert_eq!(p.weight(), 5);
    assert!(p.depth_at_most(1));
    assert!(!p.depth_at_most(0));
}

#[test]
fn padding_bits_complete_the_last_byte() {
    let mut w = BitWriter::new();
    w.write_bits(0b1010_0000, 3);
    assert_eq!(w.flush(), (vec![0b1010_0000], 5));
    let mut w = BitWriter::new();
    w.write_bits(0b1111_0000, 8);
    assert_eq!(w.flush(), (vec![0b1111_0000], 0));
    let w = BitWriter::new();
    assert_eq!(w.flush(), (vec![], 0));
    let mut w = BitWriter::new();
    for _ in 0..9 {
        w.write_bit(true);
    }
    assert_eq!(w.flush(), (vec![0xFF, 0x80], 7));
}

#[test]
fn reader_drops_padding() {
    let mut r = BitReader::new(vec![0b1100_0000, 0b1010_0000], 5);
    let mut bits = Vec::new();
    while let Some(bit) = r.read_bit() {
        bits.push(bit);
    }
    assert_eq!(
        bits,
        vec![true, true, false, false, false, false, false, false, true, false, true]
    );
    assert_eq!(r.read_bit(), None);
    let mut empty = BitReader::new(vec![], 0);
    assert_eq!(empty.read_bit(), None);
}

fn leaf_char(node: &HuffmanNode) -> Option<u8> {
    match node {
        HuffmanNode::Leaf { character, .. } => Some(*character),
        HuffmanNode::Parent { .. } => None,
    }
}

#[test]
fn zero_counts_take_no_part() {
    let tree = build_huffman_tree(&vec![(b'a', 1), (b'b', 0)]).unwrap();
    assert_eq!(leaf_char(&tree), Some(b'a'));
    assert_eq!(tree.weight(), 1);
    let table = build_encoding_table(&tree);
    assert!(table.codes[b'b' as usize].is_none());
    assert_eq!(table.codes[b'a' as usize], Some(Code { bits: 0, length: 1 }));

    assert!(build_huffman_tree(&vec![(b'a', 0)]).is_none());

    let tree = build_huffman_tree(&vec![(b'a', 1), (b'b', 1), (b'c', 0)]).unwrap();
    let table = build_encoding_table(&tree);
    assert_eq!(table.codes[b'a' as usize], Some(Code { bits: 0x00, length: 1 }));
    assert_eq!(table.codes[b'b' as usize], Some(Code { bits: 0x80, length: 1 }));
    assert!(table.codes[b'c' as usize].is_none());
}

#[test]
fn equal_weights_take_the_lowest_byte_first() {
    let tree = build_huffman_tree(&vec![(b'a', 1), (b'b', 1)]).unwrap();
    match &*tree {
        HuffmanNode::Parent { left, right, weight } => {
            assert_eq!(*weight, 2);
            assert_eq!(leaf_char(left), Some(b'a'));
            assert_eq!(leaf_char(right), Some(b'b'));
        }
        HuffmanNode::Leaf { .. } => panic!("expected an internal node"),
    }
    // b and c (weight 1) merge first; then the leaf a comes before their parent
    let tree = build_huffman_tree(&vec![(b'a', 2), (b'b', 1), (b'c', 1)]).unwrap();
    let table = build_encoding_table(&tree);
    assert_eq!(table.codes[b'a' as usize], Some(Code { bits: 0x00, length: 1 }));
    assert_eq!(table.codes[b'b' as usize], Some(Code { bits: 0x80, length: 2 }));
    assert_eq!(table.codes[b'c' as usize], Some(Code { bits: 0xC0, length: 2 }));
}
