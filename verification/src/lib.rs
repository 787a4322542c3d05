//! A lossless byte-stream compressor based on Huffman coding.
//!
//! The encoder counts byte frequencies, builds a Huffman tree with a
//! deterministic tie-break, derives a prefix-free code table, and emits
//! `[4-byte LE header length][header][bit-packed payload]`.  The header
//! records the frequency table, from which the decoder rebuilds the very
//! same tree and walks it bit by bit to recover the original bytes.

use vstd::prelude::*;

mod decode;
mod encode;
mod freq;
mod huffman;
mod laws;

pub use decode::{
    all_digits, byte_to_bit_str, decode, decompress_data, digits_val, find_byte, is_digit,
    parse_freq_table, parse_header, read_compressed_data, read_header, read_header_len,
    spec_decode, spec_decompress, spec_parse_entries, spec_parse_text, spec_text_item,
    unpack_bits, walk_n, walk_sym, DecodeOpt,
};
pub use encode::{
    bit_str_to_bytes, build_header, build_prefix_table, character_frequencies, count_of,
    encode, encode_msg, lemma_prefix_free, pack_bits, spec_codes, spec_dec_digits,
    spec_encode, spec_encode_bits, spec_payload, spec_ser_entries, spec_text_header,
    table_of, write_header, EncodeOpt, PrefixTable,
};
pub use freq::{entries_wf, lookup, spec_insert, total_count, FreqTable};
pub use huffman::{
    is_leaf, join_nodes, leaf_bytes, leaf_node, leaves_of, merge_nodes, min_idx,
    spec_build_tree, sum_freqs, table_keys, wf_tree, TreeNode,
};
pub use laws::{
    lemma_encode_deterministic, lemma_frequency_conservation, lemma_header_round_trip,
    lemma_round_trip, lemma_tree_reconstruction_deterministic, lemma_unpack_pack,
};

verus! {

/// The error kinds the codec reports.  Every failure of `encode` or
/// `decode` is one of these; I/O failures belong to the caller.
#[derive(Debug, Clone, Copy, PartialEq, Eq, Structural)]
pub enum CodecError {
    /// The input (or the parsed frequency table) is empty; no tree exists.
    EmptyInput,
    /// The header body cannot be parsed into well-formed `(byte, count)` pairs.
    MalformedHeader,
    /// Fewer bytes or bits are available than the stream declares.
    TruncatedStream,
    /// A bit directs the tree traversal into a non-existent child.
    InvalidTraversal,
}

} // verus!
