use huffman::codec::huff_encode;
use huffman::decode::huff_decode;
use huffman::CodecError;

/// One code `(w1, l1)` is a bit-prefix of another `(w2, l2)`.
fn is_prefix_pair(w1: u64, l1: u8, w2: u64, l2: u8) -> bool {
    l1 <= l2 && (w2 >> (l2 - l1)) == w1
}

#[test]
fn round_trip_simple() {
    let f: Vec<u8> = b"abracadabra alakazam".to_vec();
    let out = huff_encode(&f).unwrap();
    let back = huff_decode(&out).unwrap();
    assert_eq!(back, f);
}

#[test]
fn round_trip_binary_data() {
    let mut f: Vec<u8> = Vec::new();
    let mut x: u32 = 1;
    for _ in 0..5000 {
        x = x.wrapping_mul(1103515245).wrapping_add(12345);
        f.push((x >> 16) as u8);
    }
    let out = huff_encode(&f).unwrap();
    let back = huff_decode(&out).unwrap();
    assert_eq!(back, f);
}

#[test]
fn encoding_starts_with_magic() {
    let f: Vec<u8> = b"some plain text".to_vec();
    let out = huff_encode(&f).unwrap();
    assert_eq!(&out[0..7], b"HUFFMAN");
}

#[test]
fn single_repeated_byte_round_trips() {
    // A single distinct symbol gets a one-entry table and a length-1 code.
    let f: Vec<u8> = vec![0x41; 1000];
    let out = huff_encode(&f).unwrap();
    assert_eq!(out[7], 0, "symbol count less one");
    assert_eq!(out[8], 0x41, "the one table entry's symbol");
    // Six length bits 000001, then the single code bit 0.
    assert_eq!(out[9] >> 2, 1);
    assert_eq!((out[9] >> 1) & 1, 0);
    let back = huff_decode(&out).unwrap();
    assert_eq!(back, f);
}

#[test]
fn all_256_byte_values_round_trip() {
    let mut f: Vec<u8> = Vec::new();
    for round in 0..4u32 {
        for b in 0..=255u8 {
            f.push(b);
            if (b as u32) % 7 < round {
                f.push(b);
            }
        }
    }
    let out = huff_encode(&f).unwrap();
    assert_eq!(out[7], 255, "256 symbols stored as 255");
    let back = huff_decode(&out).unwrap();
    assert_eq!(back, f);
}

#[test]
fn empty_input_rejected() {
    let f: Vec<u8> = Vec::new();
    assert_eq!(huff_encode(&f), Err(CodecError::UnrepresentableInput));
}

#[test]
fn encoding_is_deterministic() {
    let f: Vec<u8> = b"mississippi riverbanks".to_vec();
    let once = huff_encode(&f).unwrap();
    let twice = huff_encode(&f).unwrap();
    assert_eq!(once, twice);
}

#[test]
fn two_symbol_scenario() {
    // Three 'A's and one 'B': the two leaves merge directly, each symbol gets
    // a one-bit code, the header declares two symbols and size four.
    let f: Vec<u8> = vec![0x41, 0x41, 0x41, 0x42];
    let out = huff_encode(&f).unwrap();
    assert_eq!(&out[0..7], b"HUFFMAN");
    assert_eq!(out[7], 1, "two symbols stored as one");
    let back = huff_decode(&out).unwrap();
    assert_eq!(back, f);
    assert_eq!(back.len(), 4, "declared size drives decoding");
}

#[test]
fn flipped_magic_is_format_mismatch() {
    let f: Vec<u8> = b"payload".to_vec();
    let mut out = huff_encode(&f).unwrap();
    out[0] ^= 0xff;
    assert_eq!(huff_decode(&out), Err(CodecError::FormatMismatch));
}

#[test]
fn truncated_header_is_truncated_stream() {
    let f: Vec<u8> = b"payload".to_vec();
    let out = huff_encode(&f).unwrap();
    let cut: Vec<u8> = out[0..7].to_vec();
    assert_eq!(huff_decode(&cut), Err(CodecError::TruncatedStream));
}

#[test]
fn truncated_body_is_truncated_stream() {
    let f: Vec<u8> = vec![0x41; 1000];
    let out = huff_encode(&f).unwrap();
    let cut: Vec<u8> = out[0..out.len() - 1].to_vec();
    assert_eq!(huff_decode(&cut), Err(CodecError::TruncatedStream));
}

#[test]
fn short_input_not_huffman() {
    // Three bytes are enough to read and reject the first magic byte.
    let garbage: Vec<u8> = vec![1, 2, 3];
    assert_eq!(huff_decode(&garbage), Err(CodecError::FormatMismatch));
}

#[test]
fn wrong_magic_rejected() {
    let not_encoded: Vec<u8> = b"HUFFMAX-and-more-bytes-here".to_vec();
    assert_eq!(huff_decode(&not_encoded), Err(CodecError::FormatMismatch));
}

#[test]
fn table_codes_are_prefix_free() {
    // Skewed counts give codes of different lengths; none may prefix another.
    let mut counts: [i64; 256] = [0; 256];
    counts[0x61] = 50;
    counts[0x62] = 20;
    counts[0x63] = 10;
    counts[0x64] = 5;
    counts[0x65] = 1;
    let tree = huffman::tree::get_huff_tree(counts);
    let entries = huffman::table::navigate_tree(&tree, 0, 0).unwrap();
    assert_eq!(entries.len(), 5);
    for i in 0..entries.len() {
        for j in 0..entries.len() {
            if i != j {
                assert!(
                    !is_prefix_pair(
                        entries[i].word,
                        entries[i].word_len,
                        entries[j].word,
                        entries[j].word_len
                    ),
                    "codes must be prefix-free"
                );
            }
        }
    }
}

#[test]
fn writer_and_reader_mirror_each_other() {
    let mut w = huffman::stream::Writer::new();
    w.write_on_buff_byte(0xa5);
    w.write_on_buff_6bit(0x2b);
    w.write_huff_code(0x155, 9);
    w.flush();
    let bytes = w.into_bytes();
    let mut r = huffman::stream::Reader::new(&bytes);
    assert_eq!(r.read_byte(), Ok(0xa5));
    assert_eq!(r.read_6bit(), Ok(0x2b));
    assert_eq!(r.read_word(9), Ok(0x155));
}

#[test]
fn reader_reports_exhaustion() {
    let bytes: Vec<u8> = vec![0xff];
    let mut r = huffman::stream::Reader::new(&bytes);
    assert_eq!(r.read_byte(), Ok(0xff));
    assert_eq!(r.read_bit(), Err(CodecError::TruncatedStream));
}

#[test]
fn tree_builder_single_leaf() {
    let mut counts: [i64; 256] = [0; 256];
    counts[7] = 3;
    let tree = huffman::tree::get_huff_tree(counts);
    assert_eq!(tree.children.len(), 0);
    assert_eq!(tree.char_value as u32, 7);
    assert_eq!(tree.count, 3);
}

#[test]
fn tree_builder_merges_counts() {
    let mut counts: [i64; 256] = [0; 256];
    counts[1] = 3;
    counts[2] = 1;
    let tree = huffman::tree::get_huff_tree(counts);
    assert_eq!(tree.children.len(), 2);
    assert_eq!(tree.count, 4, "root carries the histogram total");
    // The smaller leaf is taken out first and becomes the first child.
    assert_eq!(tree.children[0].count, 1);
    assert_eq!(tree.children[0].char_value, 2 as u8 as char);
    assert_eq!(tree.children[1].count, 3);
    assert_eq!(tree.children[1].char_value, 1 as u8 as char);
}

#[test]
fn lone_leaf_gets_length_one_code() {
    // The single-symbol special case lives in the table builder itself.
    let mut counts: [i64; 256] = [0; 256];
    counts[7] = 3;
    let tree = huffman::tree::get_huff_tree(counts);
    let entries = huffman::table::navigate_tree(&tree, 0, 0).unwrap();
    assert_eq!(entries.len(), 1);
    assert_eq!(entries[0].char_value, 7);
    assert_eq!(entries[0].word, 0);
    assert_eq!(entries[0].word_len, 1);
}

#[test]
fn unmatchable_code_is_corrupt_stream() {
    // A hand-built stream: one table entry with the two-bit code 00, then a
    // body of all one bits that can never match it.
    let mut w = huffman::stream::Writer::new();
    for b in b"HUFFMAN" {
        w.write_on_buff_byte(*b);
    }
    w.write_on_buff_byte(0); // one symbol, stored as zero
    w.write_on_buff_byte(0x41); // its symbol
    w.write_on_buff_6bit(2); // its code length
    w.write_huff_code(0, 2); // its code: 00
    w.write_huff_code(1, 32); // declared size: one symbol
    for _ in 0..9 {
        w.write_on_buff_byte(0xff); // more than 63 bits with no match
    }
    w.flush();
    let bytes = w.into_bytes();
    assert_eq!(huff_decode(&bytes), Err(CodecError::CorruptStream));
}
