//! The properties that hold the codec together, proved once and for
//! all: packed bits unpack to what was packed, a serialized frequency
//! table parses back to itself, every code walks the tree back to its
//! own byte, and decoding inverts encoding exactly.

use vstd::prelude::*;

use crate::decode::{
    spec_decode, spec_decompress, spec_parse_entries, unpack_bits, walk_n, walk_sym,
};
use crate::encode::{
    bit_of_byte, bitval, byte_from_bits, lemma_codes_dom, lemma_codes_prefixed,
    lemma_count_below_all, lemma_count_occurs, lemma_entries_len_bound,
    lemma_entries_upto_props, lemma_ser_entries_len, lemma_total_upto, pack_bits, spec_codes,
    spec_encode, spec_encode_bits, spec_payload, spec_ser_entries, table_of,
};
use crate::freq::{entries_wf, lookup, total_count};
use crate::huffman::{
    is_leaf, leaves_of, lemma_leaf_bytes_of_leaves, lemma_leaves_wf, lemma_merge_props,
    lemma_sum_leaves, lemma_table_keys_lookup, merge_nodes, spec_build_tree, TreeNode,
};
use crate::CodecError;

verus! {

/// Reading bit `k` of a byte packed from eight bit values gives back
/// the bit value it was packed from.
proof fn lemma_bit_of_byte_from(s: Seq<bool>, base: int, k: int)
    requires
        0 <= k < 8,
    ensures
        bit_of_byte(byte_from_bits(s, base), k) == (bitval(s, base + k) == 1),
{
    let b0 = bitval(s, base);
    let b1 = bitval(s, base + 1);
    let b2 = bitval(s, base + 2);
    let b3 = bitval(s, base + 3);
    let b4 = bitval(s, base + 4);
    let b5 = bitval(s, base + 5);
    let b6 = bitval(s, base + 6);
    let b7 = bitval(s, base + 7);
    let x = byte_from_bits(s, base);
    assert(x == (b0 << 7) | (b1 << 6) | (b2 << 5) | (b3 << 4) | (b4 << 3) | (b5 << 2) | (b6 << 1)
        | b7);
    if k == 0 {
        assert((x == (b0 << 7) | (b1 << 6) | (b2 << 5) | (b3 << 4) | (b4 << 3) | (b5 << 2) | (b6
            << 1) | b7 && b0 <= 1 && b1 <= 1 && b2 <= 1 && b3 <= 1 && b4 <= 1 && b5 <= 1 && b6
            <= 1 && b7 <= 1) ==> (((x >> 7u8) & 1 == 1) == (b0 == 1))) by (bit_vector);
    } else if k == 1 {
        assert((x == (b0 << 7) | (b1 << 6) | (b2 << 5) | (b3 << 4) | (b4 << 3) | (b5 << 2) | (b6
            << 1) | b7 && b0 <= 1 && b1 <= 1 && b2 <= 1 && b3 <= 1 && b4 <= 1 && b5 <= 1 && b6
            <= 1 && b7 <= 1) ==> (((x >> 6u8) & 1 == 1) == (b1 == 1))) by (bit_vector);
    } else if k == 2 {
        assert((x == (b0 << 7) | (b1 << 6) | (b2 << 5) | (b3 << 4) | (b4 << 3) | (b5 << 2) | (b6
            << 1) | b7 && b0 <= 1 && b1 <= 1 && b2 <= 1 && b3 <= 1 && b4 <= 1 && b5 <= 1 && b6
            <= 1 && b7 <= 1) ==> (((x >> 5u8) & 1 == 1) == (b2 == 1))) by (bit_vector);
    } else if k == 3 {
        assert((x == (b0 << 7) | (b1 << 6) | (b2 << 5) | (b3 << 4) | (b4 << 3) | (b5 << 2) | (b6
            << 1) | b7 && b0 <= 1 && b1 <= 1 && b2 <= 1 && b3 <= 1 && b4 <= 1 && b5 <= 1 && b6
            <= 1 && b7 <= 1) ==> (((x >> 4u8) & 1 == 1) == (b3 == 1))) by (bit_vector);
    } else if k == 4 {
        assert((x == (b0 << 7) | (b1 << 6) | (b2 << 5) | (b3 << 4) | (b4 << 3) | (b5 << 2) | (b6
            << 1) | b7 && b0 <= 1 && b1 <= 1 && b2 <= 1 && b3 <= 1 && b4 <= 1 && b5 <= 1 && b6
            <= 1 && b7 <= 1) ==> (((x >> 3u8) & 1 == 1) == (b4 == 1))) by (bit_vector);
    } else if k == 5 {
        assert((x == (b0 << 7) | (b1 << 6) | (b2 << 5) | (b3 << 4) | (b4 << 3) | (b5 << 2) | (b6
            << 1) | b7 && b0 <= 1 && b1 <= 1 && b2 <= 1 && b3 <= 1 && b4 <= 1 && b5 <= 1 && b6
            <= 1 && b7 <= 1) ==> (((x >> 2u8) & 1 == 1) == (b5 == 1))) by (bit_vector);
    } else if k == 6 {
        assert((x == (b0 << 7) | (b1 << 6) | (b2 << 5) | (b3 << 4) | (b4 << 3) | (b5 << 2) | (b6
            << 1) | b7 && b0 <= 1 && b1 <= 1 && b2 <= 1 && b3 <= 1 && b4 <= 1 && b5 <= 1 && b6
            <= 1 && b7 <= 1) ==> (((x >> 1u8) & 1 == 1) == (b6 == 1))) by (bit_vector);
    } else {
        assert((x == (b0 << 7) | (b1 << 6) | (b2 << 5) | (b3 << 4) | (b4 << 3) | (b5 << 2) | (b6
            << 1) | b7 && b0 <= 1 && b1 <= 1 && b2 <= 1 && b3 <= 1 && b4 <= 1 && b5 <= 1 && b6
            <= 1 && b7 <= 1) ==> (((x >> 0u8) & 1 == 1) == (b7 == 1))) by (bit_vector);
    }
}

/// Unpacking packed bits gives back the original bit string followed by
/// zero padding up to the next byte boundary.
pub proof fn lemma_unpack_pack(s: Seq<bool>)
    ensures
        unpack_bits(pack_bits(s)).len() == 8 * ((s.len() + 7) / 8),
        s.len() <= unpack_bits(pack_bits(s)).len() < s.len() + 8,
        unpack_bits(pack_bits(s)).take(s.len() as int) == s,
        forall|i: int|
            s.len() <= i < unpack_bits(pack_bits(s)).len() ==> unpack_bits(pack_bits(s))[i]
                == false,
{
    let p = pack_bits(s);
    let u = unpack_bits(p);
    assert(p.len() == (s.len() + 7) / 8);
    assert(u.len() == 8 * p.len());
    assert forall|i: int| 0 <= i < u.len() implies u[i] == (bitval(s, i) == 1) by {
        assert(u[i] == bit_of_byte(p[i / 8], i % 8));
        assert(p[i / 8] == byte_from_bits(s, 8 * (i / 8)));
        lemma_bit_of_byte_from(s, 8 * (i / 8), i % 8);
        assert(8 * (i / 8) + i % 8 == i);
    }
    assert(u.take(s.len() as int) =~= s);
}

/// A serialized table parses back to exactly the same entries
/// (stated with the running lower key bound the parser threads).
proof fn lemma_header_entries_round_trip(s: Seq<(u8, usize)>, lo: int)
    requires
        entries_wf(s),
        s.len() > 0 ==> (s[0].0 as int) > lo,
    ensures
        spec_parse_entries(spec_ser_entries(s), lo) == Some(s),
    decreases s.len(),
{
    vstd::bytes::lemma_auto_spec_u64_to_from_le_bytes();
    if s.len() == 0 {
        assert(spec_ser_entries(s).len() == 0);
        assert(Some(Seq::<(u8, usize)>::empty()) == Some(s)) by {
            assert(Seq::<(u8, usize)>::empty() =~= s);
        }
    } else {
        let le = vstd::bytes::spec_u64_to_le_bytes(s[0].1 as u64);
        let chunk = seq![s[0].0] + le;
        let rest = spec_ser_entries(s.drop_first());
        let w = spec_ser_entries(s);
        lemma_ser_entries_len(s);
        lemma_ser_entries_len(s.drop_first());
        assert(w == chunk + rest);
        assert(chunk.len() == 9);
        assert(w.len() >= 9);
        assert(w[0] == s[0].0);
        assert(w.subrange(1, 9) =~= le);
        assert(vstd::bytes::spec_u64_from_le_bytes(le) == s[0].1 as u64);
        assert(s[0].1 as u64 != 0 && s[0].1 as u64 <= usize::MAX as u64);
        assert(w.skip(9) =~= rest);
        assert(entries_wf(s.drop_first())) by {
            assert(forall|j: int|
                #![trigger s.drop_first()[j]]
                0 <= j < s.len() - 1 ==> s.drop_first()[j] == s[j + 1]);
        }
        if s.len() > 1 {
            assert(s.drop_first()[0] == s[1]);
            assert(s[0].0 < s[1].0);
        }
        lemma_header_entries_round_trip(s.drop_first(), s[0].0 as int);
        assert(seq![(s[0].0, (s[0].1 as u64) as usize)] + s.drop_first() =~= s);
    }
}

/// Header round-trip: parsing a serialized frequency table yields the
/// very table that was serialized, for any table with keys in 0-255
/// and counts of at least one.
pub proof fn lemma_header_round_trip(s: Seq<(u8, usize)>)
    requires
        entries_wf(s),
    ensures
        spec_parse_entries(spec_ser_entries(s), -1) == Some(s),
{
    lemma_header_entries_round_trip(s, -1);
}

/// Following a byte's recorded code from the root reaches that byte and
/// leaves exactly the trailing bits unconsumed.
proof fn lemma_code_walk(t: TreeNode, prefix: Seq<bool>, b: u8, rest: Seq<bool>)
    requires
        crate::huffman::wf_tree(t),
        !is_leaf(t),
        spec_codes(t, prefix).dom().contains(b),
    ensures
        spec_codes(t, prefix)[b].len() > prefix.len(),
        walk_sym(t, spec_codes(t, prefix)[b].skip(prefix.len() as int) + rest) == Ok::<
            (u8, Seq<bool>),
            CodecError,
        >((b, rest)),
    decreases t,
{
    let code = spec_codes(t, prefix)[b];
    let pl = prefix.len() as int;
    let l = t.left.unwrap();
    let r = t.right.unwrap();
    let lm = spec_codes(*l, prefix.push(false));
    let rm = spec_codes(*r, prefix.push(true));
    if rm.dom().contains(b) {
        assert(code == rm[b]);
        lemma_codes_prefixed(*r, prefix.push(true), b);
        crate::encode::lemma_prefixed_index(prefix, true, code);
        let suffix = code.skip(pl + 1);
        assert(code.skip(pl) =~= seq![true] + suffix);
        let bits = code.skip(pl) + rest;
        assert(bits[0] == true);
        assert(bits.len() > 0);
        assert(bits.drop_first() =~= suffix + rest);
        assert(crate::huffman::wf_tree(*r));
        if is_leaf(*r) {
            assert(r.val is Some);
            assert(rm =~= Map::<u8, Seq<bool>>::empty().insert(r.val.unwrap(), prefix.push(true)));
            assert(b == r.val.unwrap());
            assert(code == prefix.push(true));
            assert(suffix =~= Seq::<bool>::empty());
            assert(suffix + rest =~= rest);
        } else {
            assert(r.val is None);
            lemma_code_walk(*r, prefix.push(true), b, rest);
            assert(rm[b].skip(prefix.push(true).len() as int) == code.skip(pl + 1));
        }
    } else {
        assert(lm.dom().contains(b));
        assert(code == lm[b]);
        lemma_codes_prefixed(*l, prefix.push(false), b);
        crate::encode::lemma_prefixed_index(prefix, false, code);
        let suffix = code.skip(pl + 1);
        assert(code.skip(pl) =~= seq![false] + suffix);
        let bits = code.skip(pl) + rest;
        assert(bits[0] == false);
        assert(bits.len() > 0);
        assert(bits.drop_first() =~= suffix + rest);
        assert(crate::huffman::wf_tree(*l));
        if is_leaf(*l) {
            assert(l.val is Some);
            assert(lm =~= Map::<u8, Seq<bool>>::empty().insert(l.val.unwrap(), prefix.push(false)));
            assert(b == l.val.unwrap());
            assert(code == prefix.push(false));
            assert(suffix =~= Seq::<bool>::empty());
            assert(suffix + rest =~= rest);
        } else {
            assert(l.val is None);
            lemma_code_walk(*l, prefix.push(false), b, rest);
            assert(lm[b].skip(prefix.push(false).len() as int) == code.skip(pl + 1));
        }
    }
}

/// Walking the concatenated codes of a byte sequence decodes exactly
/// that sequence, whatever bits follow — which is why the zero padding
/// of the last packed byte is harmless.
proof fn lemma_walk_payload(t: TreeNode, d: Seq<u8>, suffix: Seq<bool>)
    requires
        crate::huffman::wf_tree(t),
        !is_leaf(t),
        forall|i: int|
            0 <= i < d.len() ==> spec_codes(t, Seq::<bool>::empty()).dom().contains(
                #[trigger] d[i],
            ),
    ensures
        walk_n(t, spec_payload(d, spec_codes(t, Seq::<bool>::empty())) + suffix, d.len() as nat)
            == Ok::<Seq<u8>, CodecError>(d),
    decreases d.len(),
{
    let cmap = spec_codes(t, Seq::<bool>::empty());
    if d.len() == 0 {
        assert(spec_payload(d, cmap) + suffix =~= suffix);
        assert(Seq::<u8>::empty() =~= d);
    } else {
        let code = cmap[d[0]];
        let tail_payload = spec_payload(d.drop_first(), cmap);
        assert(spec_payload(d, cmap) == code + tail_payload);
        lemma_code_walk(t, Seq::<bool>::empty(), d[0], tail_payload + suffix);
        assert(code.skip(0int) =~= code);
        assert((code + tail_payload) + suffix =~= code + (tail_payload + suffix));
        assert(forall|i: int|
            0 <= i < d.drop_first().len() ==> cmap.dom().contains(#[trigger] d.drop_first()[i]));
        lemma_walk_payload(t, d.drop_first(), suffix);
        assert(seq![d[0]] + d.drop_first() =~= d);
    }
}

/// Frequency conservation: the counts of the frequency table sum to the
/// input length, and the root of the tree built from the table carries
/// that same sum as its frequency.
pub proof fn lemma_frequency_conservation(d: Seq<u8>)
    requires
        d.len() <= usize::MAX,
    ensures
        total_count(table_of(d)) == d.len(),
        d.len() >= 1 ==> spec_build_tree(table_of(d)) is Some && spec_build_tree(
            table_of(d),
        ).unwrap().frequency == d.len(),
{
    let table = table_of(d);
    lemma_entries_upto_props(d, 256);
    lemma_total_upto(d, 256);
    lemma_count_below_all(d);
    if d.len() >= 1 {
        lemma_count_occurs(d, 0);
        if table.len() == 0 {
            assert(lookup(table, d[0]) is None);
        }
        lemma_leaves_wf(table);
        lemma_sum_leaves(table);
        lemma_merge_props(leaves_of(table));
    }
}

/// Determinism of encoding: the output bytes are a function of the
/// input bytes alone (the executable `encode` returns exactly
/// `spec_encode` of its input), so encoding the same input twice
/// yields byte-identical output.
pub proof fn lemma_encode_deterministic(d1: Seq<u8>, d2: Seq<u8>)
    requires
        d1 == d2,
    ensures
        spec_encode(d1) == spec_encode(d2),
{
}

/// Determinism of tree reconstruction: two trees built from the same
/// frequency table are the same tree, and hence assign the same code
/// to every byte.
pub proof fn lemma_tree_reconstruction_deterministic(s1: Seq<(u8, usize)>, s2: Seq<(u8, usize)>)
    requires
        s1 == s2,
    ensures
        spec_build_tree(s1) == spec_build_tree(s2),
        spec_build_tree(s1) is Some ==> spec_codes(
            spec_build_tree(s1).unwrap(),
            Seq::<bool>::empty(),
        ) == spec_codes(spec_build_tree(s2).unwrap(), Seq::<bool>::empty()),
{
}

/// Round-trip: decoding an encoded stream gives back the original
/// bytes, for every non-empty input that fits in memory.
#[verifier::rlimit(100)]
#[verifier::spinoff_prover]
pub proof fn lemma_round_trip(d: Seq<u8>)
    requires
        1 <= d.len() <= usize::MAX,
    ensures
        spec_encode(d) is Ok,
        spec_decode(spec_encode(d).unwrap()) == Ok::<Seq<u8>, CodecError>(d),
{
    let table = table_of(d);
    lemma_entries_upto_props(d, 256);
    lemma_total_upto(d, 256);
    lemma_count_below_all(d);
    lemma_count_occurs(d, 0);
    if table.len() == 0 {
        assert(lookup(table, d[0]) is None);
    }
    assert(table.len() >= 1);
    lemma_entries_len_bound(table);
    let body = spec_ser_entries(table);
    lemma_ser_entries_len(table);
    let bits = spec_encode_bits(d);
    let packed = pack_bits(bits);
    let lenpfx = vstd::bytes::spec_u32_to_le_bytes(body.len() as u32);
    vstd::bytes::lemma_auto_spec_u32_to_from_le_bytes();
    let e = spec_encode(d).unwrap();
    assert(e == lenpfx + body + packed);
    assert(e.len() == 4 + body.len() + packed.len());
    assert(e.subrange(0, 4) =~= lenpfx);
    assert(vstd::bytes::spec_u32_from_le_bytes(e.subrange(0, 4)) == body.len() as u32);
    let hl = body.len() as int;
    assert(e.len() >= 4 + hl);
    assert(e.subrange(4, 4 + hl) =~= body);
    lemma_header_entries_round_trip(table, -1);
    assert(spec_parse_entries(e.subrange(4, 4 + hl), -1) == Some(table));
    assert(total_count(table) == d.len() <= usize::MAX);
    assert(e.skip(4 + hl) =~= packed);
    lemma_leaves_wf(table);
    lemma_sum_leaves(table);
    lemma_leaf_bytes_of_leaves(table);
    lemma_merge_props(leaves_of(table));
    let tree = spec_build_tree(table).unwrap();
    let ubits = unpack_bits(packed);
    lemma_unpack_pack(bits);
    if table.len() == 1 {
        assert(leaves_of(table).len() == 1);
        assert(merge_nodes(leaves_of(table)) == Some(leaves_of(table)[0]));
        assert(leaves_of(table)[0] == crate::huffman::leaf_node(table[0].0, table[0].1));
        assert(is_leaf(tree) && tree.val == Some(table[0].0));
        assert(bits == Seq::new(d.len(), |i: int| false));
        assert(ubits.len() >= bits.len() == d.len());
        assert(spec_decompress(tree, ubits, d.len() as nat) == Ok::<Seq<u8>, CodecError>(
            Seq::new(d.len() as nat, |i: int| tree.val.unwrap()),
        ));
        assert forall|i: int| 0 <= i < d.len() implies d[i] == table[0].0 by {
            lemma_count_occurs(d, i);
            assert(lookup(table, d[i]) is Some);
            if d[i] != table[0].0 {
                assert(table.drop_last() =~= Seq::<(u8, usize)>::empty());
                assert(lookup(table, d[i]) == lookup(table.drop_last(), d[i]));
                assert(lookup(table.drop_last(), d[i]) is None);
            }
        }
        assert(Seq::new(d.len() as nat, |i: int| tree.val.unwrap()) =~= d);
    } else {
        assert(!is_leaf(tree));
        let cmap = spec_codes(tree, Seq::<bool>::empty());
        lemma_codes_dom(tree, Seq::<bool>::empty());
        assert forall|i: int| 0 <= i < d.len() implies cmap.dom().contains(#[trigger] d[i]) by {
            lemma_count_occurs(d, i);
            lemma_table_keys_lookup(table, d[i]);
        }
        assert(bits == spec_payload(d, cmap));
        let suffix = ubits.skip(bits.len() as int);
        assert(ubits =~= ubits.take(bits.len() as int) + suffix);
        assert(ubits.take(bits.len() as int) == bits);
        lemma_walk_payload(tree, d, suffix);
        assert(walk_n(tree, bits + suffix, d.len() as nat) == Ok::<Seq<u8>, CodecError>(d));
        assert(spec_decompress(tree, ubits, d.len() as nat) == Ok::<Seq<u8>, CodecError>(d));
    }
    assert(spec_decode(e) == Ok::<Seq<u8>, CodecError>(d));
}

} // verus!
