use compression_tool::{
    bit_str_to_bytes, build_prefix_table, byte_to_bit_str, character_frequencies, decode,
    decompress_data, encode, parse_freq_table, write_header, CodecError, FreqTable, TreeNode,
};

#[test]
fn round_trip_abccba() {
    let data = b"abccba".to_vec();
    let frequencies = character_frequencies(&data);
    assert_eq!(frequencies.get(b'a'), Some(2));
    assert_eq!(frequencies.get(b'b'), Some(2));
    assert_eq!(frequencies.get(b'c'), Some(2));
    let encoded = encode(&data).unwrap();
    let decoded = decode(&encoded).unwrap();
    assert_eq!(decoded, data);
}

#[test]
fn round_trip_single_repeated_byte() {
    // the degenerate single-leaf tree: the lone code is one bit wide
    let data = b"aaaa".to_vec();
    let encoded = encode(&data).unwrap();
    let decoded = decode(&encoded).unwrap();
    assert_eq!(decoded, data);
}

#[test]
fn round_trip_with_header_delimiter_bytes() {
    // a frequency table of {',': 3, 'x': 2}: the binary header format
    // is unambiguous for the textual form's delimiter bytes
    let data = b",x,x,".to_vec();
    let frequencies = character_frequencies(&data);
    assert_eq!(frequencies.get(b','), Some(3));
    assert_eq!(frequencies.get(b'x'), Some(2));
    let header = write_header(&frequencies);
    let body = header[4..].to_vec();
    let parsed = parse_freq_table(&body).unwrap();
    assert_eq!(parsed, frequencies);
    let encoded = encode(&data).unwrap();
    assert_eq!(decode(&encoded).unwrap(), data);
}

#[test]
fn round_trip_all_byte_values() {
    let mut data = Vec::new();
    for b in 0..=255u8 {
        data.push(b);
        data.push(b);
    }
    let encoded = encode(&data).unwrap();
    assert_eq!(decode(&encoded).unwrap(), data);
}

#[test]
fn round_trip_binary_data() {
    let data = vec![0u8, 255, 0, 0, 17, 58, 44, 44, 3, 128, 200, 17, 17, 17];
    let encoded = encode(&data).unwrap();
    assert_eq!(decode(&encoded).unwrap(), data);
}

#[test]
fn encoding_is_deterministic() {
    let data = b"the quick brown fox jumps over the lazy dog".to_vec();
    assert_eq!(encode(&data).unwrap(), encode(&data).unwrap());
}

#[test]
fn frequency_counts_sum_to_input_length() {
    let data = b"abracadabra".to_vec();
    let frequencies = character_frequencies(&data);
    let mut sum: usize = 0;
    for b in 0..=255u8 {
        if let Some(c) = frequencies.get(b) {
            sum += c;
        }
    }
    assert_eq!(sum, data.len());
    let root = TreeNode::build_huffman_tree(&frequencies).unwrap();
    assert_eq!(root.frequency, data.len());
}

#[test]
fn derived_codes_are_prefix_free() {
    let data = b"abracadabra".to_vec();
    let frequencies = character_frequencies(&data);
    let tree = TreeNode::build_huffman_tree(&frequencies);
    let prefix_table = build_prefix_table(&tree);
    let mut codes: Vec<Vec<bool>> = Vec::new();
    for b in 0..=255u8 {
        if let Some(code) = prefix_table.get(b) {
            codes.push(code.clone());
        }
    }
    assert_eq!(codes.len(), 5);
    for i in 0..codes.len() {
        for j in 0..codes.len() {
            if i != j {
                let a = &codes[i];
                let b = &codes[j];
                assert!(!(a.len() <= b.len() && &b[..a.len()] == &a[..]));
            }
        }
    }
}

#[test]
fn header_round_trips_for_any_table() {
    let mut t = FreqTable::new();
    t.insert(0u8, 1);
    t.insert(b':', 3);
    t.insert(b',', 61458);
    t.insert(255u8, usize::MAX);
    let header = write_header(&t);
    let body = header[4..].to_vec();
    assert_eq!(parse_freq_table(&body).unwrap(), t);
}

#[test]
fn write_header_layout_is_byte_exact() {
    let mut t = FreqTable::new();
    t.insert(b'a', 1);
    let header = write_header(&t);
    assert_eq!(header, vec![9, 0, 0, 0, 97, 1, 0, 0, 0, 0, 0, 0, 0]);
}

#[test]
fn encode_of_single_symbol_stream_is_byte_exact() {
    // "aaaa": header of one entry, then four zero bits packed into one byte
    let data = b"aaaa".to_vec();
    let encoded = encode(&data).unwrap();
    assert_eq!(
        encoded,
        vec![9, 0, 0, 0, 97, 4, 0, 0, 0, 0, 0, 0, 0, 0]
    );
}

#[test]
fn encode_packs_tie_broken_codes_msb_first() {
    // all counts equal: 'c' gets code 0, 'a' code 10, 'b' code 11,
    // so "abccba" packs to 1011001110 and two payload bytes
    let data = b"abccba".to_vec();
    let encoded = encode(&data).unwrap();
    let payload = &encoded[4 + 27..];
    assert_eq!(payload, &[0b1011_0011, 0b1000_0000]);
}

#[test]
fn encode_of_empty_input_fails() {
    let data = Vec::new();
    assert_eq!(encode(&data), Err(CodecError::EmptyInput));
}

#[test]
fn decode_of_short_stream_fails() {
    assert_eq!(decode(&vec![1u8, 2]), Err(CodecError::TruncatedStream));
}

#[test]
fn decode_of_missing_header_fails() {
    // the length prefix promises ten header bytes that are not there
    assert_eq!(decode(&vec![10u8, 0, 0, 0, 1]), Err(CodecError::TruncatedStream));
}

#[test]
fn decode_of_empty_table_fails() {
    assert_eq!(decode(&vec![0u8, 0, 0, 0]), Err(CodecError::EmptyInput));
}

#[test]
fn decode_of_ragged_header_fails() {
    // a header body of three bytes is no sequence of 9-byte entries
    assert_eq!(decode(&vec![3u8, 0, 0, 0, 9, 9, 9]), Err(CodecError::MalformedHeader));
}

#[test]
fn decode_of_zero_count_fails() {
    let mut stream = vec![9u8, 0, 0, 0];
    stream.extend_from_slice(&[97, 0, 0, 0, 0, 0, 0, 0, 0]);
    assert_eq!(decode(&stream), Err(CodecError::MalformedHeader));
}

#[test]
fn decode_of_unsorted_keys_fails() {
    let mut stream = vec![18u8, 0, 0, 0];
    stream.extend_from_slice(&[98, 1, 0, 0, 0, 0, 0, 0, 0]);
    stream.extend_from_slice(&[97, 1, 0, 0, 0, 0, 0, 0, 0]);
    assert_eq!(decode(&stream), Err(CodecError::MalformedHeader));
}

#[test]
fn decode_of_exhausted_payload_fails() {
    let data = b"abababababababab".to_vec();
    let encoded = encode(&data).unwrap();
    let truncated = encoded[..encoded.len() - 1].to_vec();
    assert_eq!(decode(&truncated), Err(CodecError::TruncatedStream));
}

#[test]
fn decompress_fails_on_missing_child() {
    let leaf = TreeNode { val: Some(b'a'), frequency: 1, left: None, right: None };
    let root = TreeNode { val: None, frequency: 1, left: Some(Box::new(leaf)), right: None };
    let payload = vec![0b1000_0000u8];
    assert_eq!(decompress_data(&payload, &Some(root)), Err(CodecError::InvalidTraversal));
}

#[test]
fn decompress_without_tree_fails() {
    let payload = vec![0u8];
    assert_eq!(decompress_data(&payload, &None), Err(CodecError::EmptyInput));
}

#[test]
fn bit_packing_is_msb_first_and_zero_padded() {
    let bits = vec![true, false, true];
    assert_eq!(bit_str_to_bytes(&bits), vec![0b1010_0000]);
    let nine = vec![true, true, true, true, true, true, true, true, true];
    assert_eq!(bit_str_to_bytes(&nine), vec![0xFF, 0b1000_0000]);
}

#[test]
fn bit_unpacking_expands_each_byte() {
    let bytes = vec![0b1010_0000u8];
    let bits = byte_to_bit_str(&bytes);
    assert_eq!(bits, vec![true, false, true, false, false, false, false, false]);
}

#[test]
fn bit_packing_round_trips_with_padding() {
    let bits = vec![true, false, false, true, true, false, true, false, true, true];
    let unpacked = byte_to_bit_str(&bit_str_to_bytes(&bits));
    assert_eq!(&unpacked[..bits.len()], &bits[..]);
    for &b in &unpacked[bits.len()..] {
        assert!(!b);
    }
}
