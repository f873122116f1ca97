use huffman::bits::{convert_bits_to_bytes, convert_bytes_to_bits};
use huffman::codec::{compress, decompress, CodecError};
use huffman::codes::{generate_codes, new_code_table};
use huffman::tree::{build_frequency_table, build_huffman_tree, Node};

fn le32(b: &[u8]) -> usize {
    (b[0] as usize) | ((b[1] as usize) << 8) | ((b[2] as usize) << 16) | ((b[3] as usize) << 24)
}

fn le64(b: &[u8]) -> u64 {
    let mut v: u64 = 0;
    for i in (0..8).rev() {
        v = (v << 8) | (b[i] as u64);
    }
    v
}

fn code_table_for(data: &[u8]) -> Vec<Vec<bool>> {
    let freq = build_frequency_table(data);
    let tree = build_huffman_tree(&freq).expect("tree for nonempty input");
    let tree_opt = Some(tree);
    let mut codes = new_code_table();
    generate_codes(&tree_opt, Vec::new(), &mut codes);
    codes
}

#[test]
fn round_trip_small() {
    let data = b"hello, huffman world".to_vec();
    let packed = compress(&data).expect("compress");
    let back = decompress(&packed).expect("decompress");
    assert_eq!(back, data);
}

#[test]
fn round_trip_all_byte_values() {
    let mut data: Vec<u8> = Vec::new();
    for round in 0..3u16 {
        for b in 0..=255u8 {
            data.push(b);
            if round == 1 {
                data.push(b);
            }
        }
    }
    let packed = compress(&data).expect("compress");
    let back = decompress(&packed).expect("decompress");
    assert_eq!(back, data);
}

#[test]
fn round_trip_two_symbols() {
    let mut data: Vec<u8> = Vec::new();
    for i in 0..777 {
        data.push(if i % 5 == 0 { 7 } else { 200 });
    }
    let packed = compress(&data).expect("compress");
    let back = decompress(&packed).expect("decompress");
    assert_eq!(back, data);
}

#[test]
fn single_symbol_round_trip_and_one_bit_code() {
    let data = vec![0x41u8; 1000];
    let packed = compress(&data).expect("compress");
    let back = decompress(&packed).expect("decompress");
    assert_eq!(back, data);
    let codes = code_table_for(&data);
    assert_eq!(codes[0x41].len(), 1);
    for (b, code) in codes.iter().enumerate() {
        if b != 0x41 {
            assert!(code.is_empty());
        }
    }
}

#[test]
fn empty_input_rejected() {
    let data: Vec<u8> = Vec::new();
    assert_eq!(compress(&data), Err(CodecError::EmptyInput));
}

#[test]
fn generated_tables_are_prefix_free() {
    for data in [
        b"aaaabbbcc".to_vec(),
        b"the quick brown fox jumps over the lazy dog".to_vec(),
        (0..=255u8).collect::<Vec<u8>>(),
        vec![9u8; 40],
    ] {
        let codes = code_table_for(&data);
        let present: Vec<(usize, &Vec<bool>)> =
            codes.iter().enumerate().filter(|(_, c)| !c.is_empty()).collect();
        for (b1, c1) in &present {
            for (b2, c2) in &present {
                if b1 != b2 {
                    assert!(
                        !(c1.len() <= c2.len() && c2[..c1.len()] == c1[..]),
                        "code of {} is a prefix of code of {}",
                        b1,
                        b2
                    );
                }
            }
        }
    }
}

#[test]
fn bit_count_accounting() {
    for data in [b"aaaabbbcc".to_vec(), b"abcdefgh".to_vec(), vec![3u8; 17]] {
        let packed = compress(&data).expect("compress");
        let hlen = le32(&packed[0..4]);
        let count = le64(&packed[4..12]);
        let payload_bits = (packed.len() - 4 - hlen) as u64 * 8;
        assert!(count <= payload_bits);
        assert!(payload_bits - count < 8);
    }
}

#[test]
fn deterministic_compression() {
    let data = b"determinism is a testable property".to_vec();
    let first = compress(&data).expect("compress");
    let second = compress(&data).expect("compress");
    assert_eq!(first, second);
}

#[test]
fn truncated_container_is_detected_not_crashing() {
    let data = b"aaaabbbcc".to_vec();
    let packed = compress(&data).expect("compress");
    let cut = &packed[..packed.len() - 1];
    match decompress(cut) {
        Ok(short) => assert_ne!(short, data),
        Err(e) => assert!(matches!(
            e,
            CodecError::MalformedContainer
                | CodecError::CorruptHeader
                | CodecError::UnmatchedResidualBits
        )),
    }
}

#[test]
fn example_scenario_aaaabbbcc() {
    let data = b"aaaabbbcc".to_vec();
    let freq = build_frequency_table(&data);
    assert_eq!(freq[b'a' as usize], 4);
    assert_eq!(freq[b'b' as usize], 3);
    assert_eq!(freq[b'c' as usize], 2);
    let codes = code_table_for(&data);
    assert_eq!(codes[b'a' as usize].len(), 1);
    assert_eq!(codes[b'b' as usize].len(), 2);
    assert_eq!(codes[b'c' as usize].len(), 2);
    let packed = compress(&data).expect("compress");
    let back = decompress(&packed).expect("decompress");
    assert_eq!(back, data);
}

#[test]
fn malformed_container_too_short() {
    assert_eq!(decompress(&[1u8, 2u8]), Err(CodecError::MalformedContainer));
    assert_eq!(decompress(&[]), Err(CodecError::MalformedContainer));
}

#[test]
fn malformed_container_header_length_past_end() {
    // Header length claims 100 bytes but only 2 follow.
    let mut c = vec![100u8, 0, 0, 0];
    c.push(1);
    c.push(2);
    assert_eq!(decompress(&c), Err(CodecError::MalformedContainer));
}

#[test]
fn corrupt_header_detected() {
    // Header region shorter than the 8-byte bit count field.
    let c = vec![3u8, 0, 0, 0, 9, 9, 9];
    assert_eq!(decompress(&c), Err(CodecError::CorruptHeader));
    // Header region of 8 bytes (bit count only) followed by garbage that is
    // not a valid entry list.
    let mut c2 = vec![9u8, 0, 0, 0];
    c2.extend_from_slice(&[0u8; 8]);
    c2.push(77);
    assert_eq!(decompress(&c2), Err(CodecError::CorruptHeader));
}

#[test]
fn unmatched_residual_bits_detected() {
    // Hand-built container: byte 65 has the two-bit code 00, bit count 1,
    // one payload byte. The single decoded bit never completes a code.
    let mut header: Vec<u8> = Vec::new();
    header.extend_from_slice(&1u64.to_le_bytes());
    for b in 0..=255u16 {
        if b == 65 {
            header.push(2);
            header.push(0);
            header.push(0);
        } else {
            header.push(0);
        }
    }
    let mut c: Vec<u8> = Vec::new();
    c.extend_from_slice(&(header.len() as u32).to_le_bytes());
    c.extend_from_slice(&header);
    c.push(0);
    assert_eq!(decompress(&c), Err(CodecError::UnmatchedResidualBits));
}

#[test]
fn empty_frequency_table_yields_no_tree() {
    let freq = vec![0usize; 256];
    assert!(build_huffman_tree(&freq).is_none());
}

#[test]
fn node_new_sets_fields() {
    let leaf = Node::new(7, Some(65), None, None);
    assert_eq!(leaf.freq, 7);
    assert_eq!(leaf.char_val, Some(65));
    assert!(leaf.left.is_none() && leaf.right.is_none());
    let inner = Node::new(
        12,
        None,
        Some(Box::new(Node::new(7, Some(65), None, None))),
        Some(Box::new(Node::new(5, Some(66), None, None))),
    );
    assert_eq!(inner.freq, 12);
    assert_eq!(inner.char_val, None);
    assert_eq!(inner.left.unwrap().char_val, Some(65));
    assert_eq!(inner.right.unwrap().char_val, Some(66));
}

#[test]
fn pack_bits_msb_first_with_zero_padding() {
    let bits = vec![true, false, true];
    let bytes = convert_bits_to_bytes(&bits);
    assert_eq!(bytes, vec![0b1010_0000u8]);
    let bits2 = vec![true; 9];
    let bytes2 = convert_bits_to_bytes(&bits2);
    assert_eq!(bytes2, vec![0xFFu8, 0b1000_0000u8]);
    assert_eq!(convert_bits_to_bytes(&Vec::new()), Vec::<u8>::new());
}

#[test]
fn unpack_bits_expands_every_byte() {
    let bits = convert_bytes_to_bits(&[0b1010_0000u8, 0xFF]);
    assert_eq!(bits.len(), 16);
    assert_eq!(
        &bits[..8],
        &[true, false, true, false, false, false, false, false]
    );
    assert!(bits[8..].iter().all(|&b| b));
}

#[test]
fn pack_then_unpack_round_trips_bits() {
    let bits = vec![
        true, true, false, true, false, false, true, true, true, false, false,
    ];
    let bytes = convert_bits_to_bytes(&bits);
    let expanded = convert_bytes_to_bits(&bytes);
    assert_eq!(&expanded[..bits.len()], &bits[..]);
    assert!(expanded[bits.len()..].iter().all(|&b| !b));
}
