//! The decoder side: header parsing, tree reconstruction, bit
//! unpacking, tree traversal, and the `decode` pipeline.

use vstd::prelude::*;

use crate::encode::bit_of_byte;
use crate::freq::{entries_wf, total_count, FreqTable};
use crate::huffman::{is_leaf, spec_build_tree, TreeNode};
use crate::CodecError;

verus! {

/// Options for a decode run: the path of the file to decompress.
#[derive(Debug)]
pub struct DecodeOpt {
    input: String,
}

impl DecodeOpt {
    pub fn new(input: String) -> (r: DecodeOpt)
        ensures
            r.spec_input() == input@,
    {
        DecodeOpt { input }
    }

    pub closed spec fn spec_input(&self) -> Seq<char> {
        self.input@
    }

    /// The path of the file to decompress.
    pub fn input(&self) -> (r: &String)
        ensures
            r@ == self.spec_input(),
    {
        &self.input
    }
}

/// Every byte of `s` expanded into its eight bits, most significant
/// bit first.
pub open spec fn unpack_bits(s: Seq<u8>) -> Seq<bool> {
    Seq::new(8 * s.len(), |i: int| bit_of_byte(s[i / 8], i % 8))
}

/// Expands packed bytes back into the bit string they carry.
pub fn byte_to_bit_str(bytes: &Vec<u8>) -> (r: Vec<bool>)
    ensures
        r@ == unpack_bits(bytes@),
{
    let n = bytes.len();
    let mut r: Vec<bool> = Vec::new();
    let mut i: usize = 0;
    while i < n
        invariant
            i <= n,
            n == bytes@.len(),
            r@.len() == 8 * i,
            forall|q: int|
                #![trigger r@[q]]
                0 <= q < r@.len() ==> r@[q] == bit_of_byte(bytes@[q / 8], q % 8),
        decreases n - i,
    {
        let x = bytes[i];
        let mut k: u8 = 0;
        while k < 8
            invariant
                k <= 8,
                i < n,
                n == bytes@.len(),
                x == bytes@[i as int],
                r@.len() == 8 * i + k,
                forall|q: int|
                    #![trigger r@[q]]
                    0 <= q < r@.len() ==> r@[q] == bit_of_byte(bytes@[q / 8], q % 8),
            decreases 8 - k,
        {
            let sh: u8 = 7 - k;
            let bit = ((x >> sh) & 1) == 1;
            proof {
                let q = r@.len() as int;
                assert(q / 8 == i && q % 8 == k);
                assert(bit == bit_of_byte(bytes@[q / 8], q % 8));
            }
            r.push(bit);
            k = k + 1;
        }
        i = i + 1;
    }
    proof {
        assert(r@ =~= unpack_bits(bytes@));
    }
    r
}

/// The entries read from a header body: 9 bytes each — the byte value,
/// then its count as eight little-endian bytes — with byte values
/// strictly ascending (each above `lo`) and counts in `1..=usize::MAX`.
/// `None` when the body violates any of that.
pub open spec fn spec_parse_entries(s: Seq<u8>, lo: int) -> Option<Seq<(u8, usize)>>
    decreases s.len(),
{
    if s.len() == 0 {
        Some(Seq::empty())
    } else if s.len() < 9 {
        None
    } else {
        let b = s[0];
        let c = vstd::bytes::spec_u64_from_le_bytes(s.subrange(1, 9));
        if b as int <= lo || c == 0 || c > usize::MAX as u64 {
            None
        } else {
            match spec_parse_entries(s.skip(9), b as int) {
                Option::None => None,
                Option::Some(rest) => Some(seq![(b, c as usize)] + rest),
            }
        }
    }
}

/// Reads the 4-byte little-endian header length.
pub fn read_header_len(data: &Vec<u8>) -> (r: Result<usize, CodecError>)
    ensures
        r is Ok <==> data@.len() >= 4,
        r is Ok ==> r.unwrap() == vstd::bytes::spec_u32_from_le_bytes(
            data@.subrange(0, 4),
        ) as usize,
        r is Err ==> r.unwrap_err() == CodecError::TruncatedStream,
{
    if data.len() < 4 {
        return Err(CodecError::TruncatedStream);
    }
    let mut four: Vec<u8> = Vec::new();
    four.push(data[0]);
    four.push(data[1]);
    four.push(data[2]);
    four.push(data[3]);
    proof {
        assert(four@ =~= data@.subrange(0, 4));
    }
    let hl = vstd::bytes::u32_from_le_bytes(four.as_slice());
    Ok(hl as usize)
}

/// Copies the `header_len` header body bytes that follow the length
/// prefix.
pub fn read_header(data: &Vec<u8>, header_len: usize) -> (r: Result<Vec<u8>, CodecError>)
    requires
        data@.len() >= 4,
    ensures
        r is Ok <==> data@.len() >= 4 + header_len,
        r is Ok ==> r.unwrap()@ == data@.subrange(4, 4 + header_len as int),
        r is Err ==> r.unwrap_err() == CodecError::TruncatedStream,
{
    if header_len > data.len() - 4 {
        return Err(CodecError::TruncatedStream);
    }
    let dn = data.len();
    let mut body: Vec<u8> = Vec::new();
    let mut i: usize = 0;
    while i < header_len
        invariant
            i <= header_len,
            dn == data@.len(),
            data@.len() >= 4 + header_len,
            body@ == data@.subrange(4, 4 + i as int),
        decreases header_len - i,
    {
        body.push(data[4 + i]);
        proof {
            assert(data@.subrange(4, 4 + (i + 1) as int) =~= data@.subrange(4, 4 + i as int).push(
                data@[4 + i as int],
            ));
        }
        i = i + 1;
    }
    Ok(body)
}

/// The bytes of the compressed stream that follow the header: the
/// packed payload.
pub fn read_compressed_data(data: &Vec<u8>, from: usize) -> (r: Vec<u8>)
    requires
        from <= data@.len(),
    ensures
        r@ == data@.skip(from as int),
{
    let mut out: Vec<u8> = Vec::new();
    let mut i: usize = from;
    proof {
        assert(data@.subrange(from as int, from as int) =~= Seq::<u8>::empty());
    }
    while i < data.len()
        invariant
            from <= i <= data@.len(),
            out@ == data@.subrange(from as int, i as int),
        decreases data@.len() - i,
    {
        out.push(data[i]);
        proof {
            assert(data@.subrange(from as int, i + 1) =~= data@.subrange(
                from as int,
                i as int,
            ).push(data@[i as int]));
        }
        i = i + 1;
    }
    proof {
        assert(data@.subrange(from as int, data@.len() as int) =~= data@.skip(from as int));
    }
    out
}

/// Parses a header body into a frequency table.
pub fn parse_freq_table(body: &Vec<u8>) -> (r: Result<FreqTable, CodecError>)
    ensures
        r is Ok <==> spec_parse_entries(body@, -1) is Some,
        r is Ok ==> r.unwrap()@ == spec_parse_entries(body@, -1).unwrap() && r.unwrap().wf(),
        r is Err ==> r.unwrap_err() == CodecError::MalformedHeader,
{
    let n = body.len();
    if n % 9 != 0 {
        proof {
            lemma_parse_entries_len(body@, -1);
        }
        return Err(CodecError::MalformedHeader);
    }
    let mut entries: Vec<(u8, usize)> = Vec::new();
    let mut pos: usize = 0;
    let ghost mut lo: int = -1;
    proof {
        assert(body@.skip(0int) =~= body@);
    }
    while pos < n
        invariant
            pos <= n,
            n == body@.len(),
            (n - pos) % 9 == 0,
            entries_wf(entries@),
            forall|j: int| #![trigger entries@[j]] 0 <= j < entries@.len() ==> entries@[j].0 <= lo,
            entries@.len() == 0 ==> lo == -1,
            entries@.len() > 0 ==> lo == entries@.last().0,
            -1 <= lo < 256,
            (match spec_parse_entries(body@.skip(pos as int), lo) {
                Option::None => spec_parse_entries(body@, -1) is None,
                Option::Some(rest) => spec_parse_entries(body@, -1) == Some(entries@ + rest),
            }),
        decreases n - pos,
    {
        let ghost rem = body@.skip(pos as int);
        proof {
            assert(rem.len() == n - pos >= 9);
            assert(rem[0] == body@[pos as int]);
        }
        let b = body[pos];
        let mut eight: Vec<u8> = Vec::new();
        let mut k: usize = 0;
        while k < 8
            invariant
                k <= 8,
                pos + 9 <= n,
                n == body@.len(),
                eight@ == body@.subrange(pos + 1, pos + 1 + k as int),
            decreases 8 - k,
        {
            eight.push(body[pos + 1 + k]);
            proof {
                assert(body@.subrange(pos + 1, pos + 1 + (k + 1) as int) =~= body@.subrange(
                    pos + 1,
                    pos + 1 + k as int,
                ).push(body@[pos + 1 + k as int]));
            }
            k = k + 1;
        }
        proof {
            assert(rem.subrange(1, 9) =~= body@.subrange(pos + 1, pos + 9));
        }
        let c = vstd::bytes::u64_from_le_bytes(eight.as_slice());
        let ghost c_spec = vstd::bytes::spec_u64_from_le_bytes(rem.subrange(1, 9));
        proof {
            assert(c == c_spec);
        }
        let key_ok = if entries.len() > 0 {
            let last = entries[entries.len() - 1];
            last.0 < b
        } else {
            true
        };
        proof {
            assert(key_ok <==> b as int > lo);
        }
        if !key_ok || c == 0 || c > usize::MAX as u64 {
            proof {
                assert(spec_parse_entries(rem, lo) is None);
            }
            return Err(CodecError::MalformedHeader);
        }
        let ghost old_entries = entries@;
        entries.push((b, c as usize));
        proof {
            assert(forall|j: int|
                #![trigger old_entries[j]]
                0 <= j < old_entries.len() ==> old_entries[j].0 <= lo);
            assert(entries_wf(entries@)) by {
                assert(forall|j: int|
                    #![trigger entries@[j]]
                    0 <= j < old_entries.len() ==> entries@[j] == old_entries[j]);
            }
            assert(rem.skip(9) =~= body@.skip(pos + 9));
            assert(spec_parse_entries(rem, lo) == (match spec_parse_entries(
                body@.skip(pos + 9),
                b as int,
            ) {
                Option::None => None::<Seq<(u8, usize)>>,
                Option::Some(rest) => Some(seq![(b, c_spec as usize)] + rest),
            }));
            if spec_parse_entries(body@.skip(pos + 9), b as int) is Some {
                let rest = spec_parse_entries(body@.skip(pos + 9), b as int).unwrap();
                assert(old_entries + (seq![(b, c_spec as usize)] + rest) =~= entries@ + rest);
            }
            lo = b as int;
        }
        pos = pos + 9;
    }
    proof {
        assert(body@.skip(n as int) =~= Seq::<u8>::empty());
        assert(spec_parse_entries(body@.skip(n as int), lo) == Some(Seq::<(u8, usize)>::empty()));
        assert(entries@ + Seq::<(u8, usize)>::empty() =~= entries@);
    }
    Ok(FreqTable::from_sorted(entries))
}

/// A body whose length is not a multiple of nine never parses.
proof fn lemma_parse_entries_len(s: Seq<u8>, lo: int)
    requires
        s.len() % 9 != 0,
    ensures
        spec_parse_entries(s, lo) is None,
    decreases s.len(),
{
    if s.len() >= 9 {
        let b = s[0];
        assert(s.skip(9).len() == s.len() - 9);
        lemma_parse_entries_len(s.skip(9), b as int);
    }
}

/// One traversal step sequence: starting under `t`, follow one bit per
/// step — `false` left, `true` right — and stop on the first node that
/// carries a byte value, yielding it and the unconsumed bits.
pub open spec fn walk_sym(t: TreeNode, bits: Seq<bool>) -> Result<(u8, Seq<bool>), CodecError>
    decreases bits.len(),
{
    if bits.len() == 0 {
        Err(CodecError::TruncatedStream)
    } else {
        let child = if !bits[0] {
            t.left
        } else {
            t.right
        };
        match child {
            Option::None => Err(CodecError::InvalidTraversal),
            Option::Some(c) => if c.val is Some {
                Ok((c.val.unwrap(), bits.drop_first()))
            } else {
                walk_sym(*c, bits.drop_first())
            },
        }
    }
}

/// `n` symbols decoded by repeated traversal from the root.
pub open spec fn walk_n(t: TreeNode, bits: Seq<bool>, n: nat) -> Result<Seq<u8>, CodecError>
    decreases n,
{
    if n == 0 {
        Ok(Seq::empty())
    } else {
        match walk_sym(t, bits) {
            Err(e) => Err(e),
            Ok(p) => match walk_n(t, p.1, (n - 1) as nat) {
                Err(e) => Err(e),
                Ok(rest) => Ok(seq![p.0] + rest),
            },
        }
    }
}

/// What decompression yields: `n` symbols read off the tree, or — for
/// the degenerate single-leaf tree — the leaf's byte repeated `n`
/// times, consuming one bit per symbol.
pub open spec fn spec_decompress(root: TreeNode, bits: Seq<bool>, n: nat) -> Result<
    Seq<u8>,
    CodecError,
> {
    if is_leaf(root) {
        if root.val is None {
            Err(CodecError::InvalidTraversal)
        } else if n <= bits.len() {
            Ok(Seq::new(n, |i: int| root.val.unwrap()))
        } else {
            Err(CodecError::TruncatedStream)
        }
    } else {
        walk_n(root, bits, n)
    }
}

/// One traversal step sequence over an indexed bit buffer.
fn walk_sym_exec(t: &TreeNode, bits: &Vec<bool>, pos: usize) -> (r: Result<
    (u8, usize),
    CodecError,
>)
    requires
        pos <= bits@.len(),
    ensures
        r is Ok ==> pos < r.unwrap().1 <= bits@.len() && walk_sym(*t, bits@.skip(pos as int))
            == Ok::<(u8, Seq<bool>), CodecError>(
            (r.unwrap().0, bits@.skip(r.unwrap().1 as int)),
        ),
        r is Err ==> walk_sym(*t, bits@.skip(pos as int)) == Err::<(u8, Seq<bool>), CodecError>(
            r.unwrap_err(),
        ),
    decreases bits@.len() - pos,
{
    if pos == bits.len() {
        return Err(CodecError::TruncatedStream);
    }
    let bit = bits[pos];
    proof {
        assert(bits@.skip(pos as int)[0] == bits@[pos as int]);
        assert(bits@.skip(pos as int).drop_first() =~= bits@.skip(pos + 1));
    }
    let child = if !bit {
        &t.left
    } else {
        &t.right
    };
    match child {
        None => Err(CodecError::InvalidTraversal),
        Some(c) => {
            if c.val.is_some() {
                let b = match c.val {
                    Some(b) => b,
                    None => 0,
                };
                Ok((b, pos + 1))
            } else {
                walk_sym_exec(&**c, bits, pos + 1)
            }
        },
    }
}

/// Decompresses a packed payload against a reconstructed tree: walks
/// the tree bit by bit, emitting a byte at each value-carrying node,
/// until as many bytes as the root frequency records have been emitted.
pub fn decompress_data(encoded_data: &Vec<u8>, root: &Option<TreeNode>) -> (r: Result<
    Vec<u8>,
    CodecError,
>)
    ensures
        (*root) is None ==> r == Err::<Vec<u8>, CodecError>(CodecError::EmptyInput),
        (*root) is Some ==> (match spec_decompress(
            (*root).unwrap(),
            unpack_bits(encoded_data@),
            (*root).unwrap().frequency as nat,
        ) {
            Ok(s) => r is Ok && r.unwrap()@ == s,
            Err(e) => r == Err::<Vec<u8>, CodecError>(e),
        }),
{
    match root {
        None => Err(CodecError::EmptyInput),
        Some(rt) => {
            proof {
                assert((*root) is Some);
                assert((*root).unwrap() == *rt);
            }
            let n = rt.frequency;
            let bits = byte_to_bit_str(encoded_data);
            let ghost bits0 = bits@;
            if rt.left.is_none() && rt.right.is_none() {
                let b = match rt.val {
                    Some(b) => b,
                    None => {
                        return Err(CodecError::InvalidTraversal);
                    },
                };
                if n > bits.len() {
                    return Err(CodecError::TruncatedStream);
                }
                let mut out: Vec<u8> = Vec::new();
                let mut i: usize = 0;
                while i < n
                    invariant
                        i <= n,
                        out@.len() == i,
                        forall|j: int| 0 <= j < i ==> out@[j] == b,
                    decreases n - i,
                {
                    out.push(b);
                    i = i + 1;
                }
                proof {
                    assert(out@ =~= Seq::new(n as nat, |i: int| rt.val.unwrap()));
                }
                Ok(out)
            } else {
                let mut out: Vec<u8> = Vec::new();
                let mut pos: usize = 0;
                proof {
                    assert(bits0.skip(0int) =~= bits0);
                }
                while out.len() < n
                    invariant
                        pos <= bits0.len(),
                        out@.len() <= n,
                        bits@ == bits0,
                        bits0 == unpack_bits(encoded_data@),
                        (*root) is Some,
                        (*root).unwrap() == *rt,
                        !is_leaf(*rt),
                        n == rt.frequency,
                        (match walk_n(*rt, bits0.skip(pos as int), (n - out@.len()) as nat) {
                            Ok(s) => walk_n(*rt, bits0, n as nat) == Ok::<Seq<u8>, CodecError>(
                                out@ + s,
                            ),
                            Err(e) => walk_n(*rt, bits0, n as nat) == Err::<Seq<u8>, CodecError>(
                                e,
                            ),
                        }),
                    decreases n - out@.len(),
                {
                    let ghost m = (n - out@.len()) as nat;
                    let ghost old_pos = pos as int;
                    match walk_sym_exec(rt, &bits, pos) {
                        Err(e) => {
                            proof {
                                assert(walk_n(*rt, bits0.skip(old_pos), m) == Err::<
                                    Seq<u8>,
                                    CodecError,
                                >(e));
                            }
                            return Err(e);
                        },
                        Ok(bp) => {
                            let ghost old_out = out@;
                            out.push(bp.0);
                            pos = bp.1;
                            proof {
                                assert(walk_sym(*rt, bits0.skip(old_pos)) == Ok::<
                                    (u8, Seq<bool>),
                                    CodecError,
                                >((bp.0, bits0.skip(pos as int))));
                                match walk_n(*rt, bits0.skip(pos as int), (m - 1) as nat) {
                                    Ok(s2) => {
                                        assert(walk_n(*rt, bits0.skip(old_pos), m) == Ok::<
                                            Seq<u8>,
                                            CodecError,
                                        >(seq![bp.0] + s2));
                                        assert(old_out + (seq![bp.0] + s2) =~= out@ + s2);
                                    },
                                    Err(e2) => {
                                        assert(walk_n(*rt, bits0.skip(old_pos), m) == Err::<
                                            Seq<u8>,
                                            CodecError,
                                        >(e2));
                                    },
                                }
                            }
                        },
                    }
                }
                proof {
                    assert(walk_n(*rt, bits0.skip(pos as int), 0nat) == Ok::<Seq<u8>, CodecError>(
                        Seq::empty(),
                    ));
                    assert(out@ + Seq::<u8>::empty() =~= out@);
                }
                Ok(out)
            }
        },
    }
}

/// A table of at most 256 entries has a bounded total.
proof fn lemma_total_count_bound(s: Seq<(u8, usize)>)
    ensures
        total_count(s) <= s.len() * (usize::MAX as int),
    decreases s.len(),
{
    if s.len() > 0 {
        lemma_total_count_bound(s.drop_last());
        assert(s.len() * (usize::MAX as int) == (s.len() - 1) * (usize::MAX as int)
            + usize::MAX as int) by (nonlinear_arith);
    }
}

/// What `decode` yields for a compressed stream: read the header
/// length, the header, the frequency table; rebuild the tree the
/// encoder used; then walk the payload bits until as many symbols as
/// the table's total count have been emitted.
pub open spec fn spec_decode(d: Seq<u8>) -> Result<Seq<u8>, CodecError> {
    if d.len() < 4 {
        Err(CodecError::TruncatedStream)
    } else {
        let hl = vstd::bytes::spec_u32_from_le_bytes(d.subrange(0, 4)) as int;
        if d.len() < 4 + hl {
            Err(CodecError::TruncatedStream)
        } else {
            match spec_parse_entries(d.subrange(4, 4 + hl), -1) {
                Option::None => Err(CodecError::MalformedHeader),
                Option::Some(entries) => {
                    if entries.len() == 0 {
                        Err(CodecError::EmptyInput)
                    } else if total_count(entries) > usize::MAX {
                        Err(CodecError::TruncatedStream)
                    } else {
                        spec_decompress(
                            spec_build_tree(entries).unwrap(),
                            unpack_bits(d.skip(4 + hl)),
                            total_count(entries) as nat,
                        )
                    }
                },
            }
        }
    }
}

/// Decompresses a stream produced by `encode`: parses the header,
/// rebuilds the encoder's tree from the frequencies alone, and walks
/// the packed payload.  Fails exactly as the stream is truncated,
/// malformed, or carries an empty table.
pub fn decode(data: &Vec<u8>) -> (r: Result<Vec<u8>, CodecError>)
    ensures
        (match spec_decode(data@) {
            Ok(s) => r is Ok && r.unwrap()@ == s,
            Err(e) => r == Err::<Vec<u8>, CodecError>(e),
        }),
{
    let hl = match read_header_len(data) {
        Ok(h) => h,
        Err(e) => {
            return Err(e);
        },
    };
    let body = match read_header(data, hl) {
        Ok(b) => b,
        Err(e) => {
            return Err(e);
        },
    };
    let freq_table = match parse_freq_table(&body) {
        Ok(t) => t,
        Err(e) => {
            return Err(e);
        },
    };
    let ghost entries = freq_table@;
    let k = freq_table.len();
    if k == 0 {
        return Err(CodecError::EmptyInput);
    }
    proof {
        crate::encode::lemma_entries_len_bound(entries);
        assert(entries.take(0int) =~= Seq::<(u8, usize)>::empty());
    }
    let mut acc: u128 = 0;
    let mut i: usize = 0;
    while i < k
        invariant
            i <= k,
            k == freq_table@.len(),
            k <= 256,
            freq_table.wf(),
            acc as int == total_count(freq_table@.take(i as int)),
        decreases k - i,
    {
        let e = freq_table.entry_at(i);
        proof {
            assert(freq_table@.take(i + 1).drop_last() =~= freq_table@.take(i as int));
            assert(freq_table@.take(i + 1).last() == freq_table@[i as int]);
            lemma_total_count_bound(freq_table@.take(i as int));
            assert((i as int) * (usize::MAX as int) <= 256 * (usize::MAX as int))
                by (nonlinear_arith)
                requires 0 <= i <= 256;
        }
        acc = acc + (e.1 as u128);
        i = i + 1;
    }
    proof {
        assert(freq_table@.take(k as int) =~= freq_table@);
    }
    if acc > usize::MAX as u128 {
        return Err(CodecError::TruncatedStream);
    }
    let tree = TreeNode::build_huffman_tree(&freq_table);
    let dn = data.len();
    let payload = read_compressed_data(data, 4 + hl);
    let r = decompress_data(&payload, &tree);
    proof {
        assert(tree == spec_build_tree(entries));
        assert(tree is Some);
        assert(tree.unwrap().frequency as int == total_count(entries));
        assert(payload@ == data@.skip(4 + hl as int));
    }
    r
}

/// An ASCII decimal digit.
pub open spec fn is_digit(c: u8) -> bool {
    48 <= c <= 57
}

pub open spec fn all_digits(s: Seq<u8>) -> bool {
    forall|i: int| 0 <= i < s.len() ==> is_digit(#[trigger] s[i])
}

/// The value of a string of decimal digits, most significant first.
pub open spec fn digits_val(s: Seq<u8>) -> int
    decreases s.len(),
{
    if s.len() == 0 {
        0
    } else {
        10 * digits_val(s.drop_last()) + (s.last() - 48)
    }
}

proof fn lemma_digits_val_nonneg(s: Seq<u8>)
    requires
        all_digits(s),
    ensures
        digits_val(s) >= 0,
    decreases s.len(),
{
    if s.len() > 0 {
        assert(all_digits(s.drop_last())) by {
            assert(forall|i: int| 0 <= i < s.len() - 1 ==> s.drop_last()[i] == #[trigger] s[i]);
        }
        lemma_digits_val_nonneg(s.drop_last());
    }
}

/// Once a digit prefix exceeds the machine word, the whole number does.
proof fn lemma_digits_prefix_big(s: Seq<u8>, i: int)
    requires
        all_digits(s),
        0 <= i <= s.len(),
        digits_val(s.take(i)) > usize::MAX,
    ensures
        digits_val(s) > usize::MAX,
    decreases s.len() - i,
{
    if i == s.len() {
        assert(s.take(i) =~= s);
    } else {
        assert(s.take(i + 1).drop_last() =~= s.take(i));
        assert(s.take(i + 1).last() == s[i]);
        assert(all_digits(s.take(i))) by {
            assert(forall|j: int| 0 <= j < i ==> s.take(i)[j] == #[trigger] s[j]);
        }
        lemma_digits_val_nonneg(s.take(i));
        assert(digits_val(s.take(i + 1)) == 10 * digits_val(s.take(i)) + (s[i] - 48));
        lemma_digits_prefix_big(s, i + 1);
    }
}

/// The index of the first occurrence of `c` in `s` at or after `from`,
/// or the length of `s` when there is none.
pub open spec fn find_byte(s: Seq<u8>, c: u8, from: int) -> int
    decreases s.len() - from,
{
    if from >= s.len() {
        s.len() as int
    } else if s[from] == c {
        from
    } else {
        find_byte(s, c, from + 1)
    }
}

proof fn lemma_find_byte_range(s: Seq<u8>, c: u8, from: int)
    requires
        0 <= from <= s.len(),
    ensures
        from <= find_byte(s, c, from) <= s.len(),
    decreases s.len() - from,
{
    if from < s.len() && s[from] != c {
        lemma_find_byte_range(s, c, from + 1);
    }
}

/// How one `<count>:<byte>` item between `from` and the next comma at
/// `c` changes the table: items without a colon, with an empty or
/// non-numeric count, with a zero or oversized count, or with nothing
/// after the colon are ignored; otherwise the byte right after the
/// first colon is recorded with the decimal count before it.
pub open spec fn spec_text_item(s: Seq<u8>, from: int, c: int, acc: Seq<(u8, usize)>) -> Seq<
    (u8, usize),
> {
    let ci = find_byte(s, 58, from);
    if ci >= c {
        acc
    } else if ci + 1 >= c {
        acc
    } else if ci == from || !all_digits(s.subrange(from, ci)) {
        acc
    } else {
        let v = digits_val(s.subrange(from, ci));
        if v == 0 || v > usize::MAX {
            acc
        } else {
            crate::freq::spec_insert(acc, s[ci + 1], v as usize)
        }
    }
}

/// The table the legacy textual header denotes: items separated by
/// commas, processed left to right starting from `acc`.
pub open spec fn spec_parse_text(s: Seq<u8>, from: int, acc: Seq<(u8, usize)>) -> Seq<(u8, usize)>
    decreases s.len() - from,
        via spec_parse_text_decreases
{
    if from < 0 || from > s.len() {
        acc
    } else {
        let c = find_byte(s, 44, from);
        let acc2 = spec_text_item(s, from, c, acc);
        if c >= s.len() {
            acc2
        } else {
            spec_parse_text(s, c + 1, acc2)
        }
    }
}

#[via_fn]
proof fn spec_parse_text_decreases(s: Seq<u8>, from: int, acc: Seq<(u8, usize)>) {
    if 0 <= from <= s.len() {
        lemma_find_byte_range(s, 44, from);
    }
}

/// Parses the legacy textual header form: `<count>:<byte>` items
/// separated by commas.  This reader is tolerant — it ignores items it
/// cannot make sense of, as the textual form cannot distinguish
/// delimiter bytes in the payload from its own separators.  The codec
/// pipeline itself uses the strict byte-safe parser `parse_freq_table`.
pub fn parse_header(header: &Vec<u8>) -> (r: FreqTable)
    ensures
        r.wf(),
        r@ == spec_parse_text(header@, 0, Seq::<(u8, usize)>::empty()),
{
    let n = header.len();
    let ghost s = header@;
    let mut table = FreqTable::new();
    let mut pos: usize = 0;
    let mut done = false;
    while !done
        invariant
            n == s.len(),
            s == header@,
            table.wf(),
            !done ==> pos <= n && spec_parse_text(s, 0, Seq::<(u8, usize)>::empty())
                == spec_parse_text(s, pos as int, table@),
            done ==> spec_parse_text(s, 0, Seq::<(u8, usize)>::empty()) == table@,
        decreases (if done { 0int } else { n + 2 - pos }),
    {
        let ghost acc0 = table@;
        // the end of this item: the next comma, or the end of the header
        let mut cm: usize = pos;
        while cm < n && header[cm] != 44
            invariant
                pos <= cm <= n,
                n == s.len(),
                s == header@,
                find_byte(s, 44, pos as int) == find_byte(s, 44, cm as int),
            decreases n - cm,
        {
            cm = cm + 1;
        }
        proof {
            assert(find_byte(s, 44, cm as int) == cm);
        }
        // the first colon at or after the item start
        let mut cl: usize = pos;
        while cl < n && header[cl] != 58
            invariant
                pos <= cl <= n,
                n == s.len(),
                s == header@,
                find_byte(s, 58, pos as int) == find_byte(s, 58, cl as int),
            decreases n - cl,
        {
            cl = cl + 1;
        }
        proof {
            assert(find_byte(s, 58, cl as int) == cl);
        }
        if cl < cm && cl + 1 < cm && cl > pos {
            // scan the count part for digits and its value
            let ghost cnt = s.subrange(pos as int, cl as int);
            let mut valid = true;
            let mut too_big = false;
            let mut acc: u128 = 0;
            let mut idx: usize = pos;
            while idx < cl
                invariant
                    pos <= idx <= cl,
                    cl <= n,
                    n == s.len(),
                    s == header@,
                    cnt == s.subrange(pos as int, cl as int),
                    valid <==> all_digits(cnt.take(idx - pos)),
                    valid && !too_big ==> acc as int == digits_val(cnt.take(idx - pos)) && acc
                        <= usize::MAX as u128,
                    valid && too_big ==> digits_val(cnt.take(idx - pos)) > usize::MAX,
                decreases cl - idx,
            {
                let ch = header[idx];
                proof {
                    assert(cnt.take(idx - pos + 1).drop_last() =~= cnt.take(idx - pos));
                    assert(cnt.take(idx - pos + 1).last() == s[idx as int]);
                    assert(forall|j: int|
                        0 <= j < idx - pos ==> cnt.take(idx - pos + 1)[j] == #[trigger] cnt.take(
                            idx - pos,
                        )[j]);
                }
                if ch < 48 || ch > 57 {
                    valid = false;
                } else if valid && !too_big {
                    proof {
                        lemma_digits_val_nonneg(cnt.take(idx - pos));
                    }
                    acc = 10 * acc + ((ch - 48) as u128);
                    if acc > usize::MAX as u128 {
                        too_big = true;
                    }
                } else if valid && too_big {
                    proof {
                        lemma_digits_val_nonneg(cnt.take(idx - pos));
                    }
                }
                idx = idx + 1;
            }
            proof {
                assert(cnt.take(cl - pos) =~= cnt);
            }
            if valid && !too_big && acc != 0 {
                let b = header[cl + 1];
                table.insert(b, acc as usize);
            }
        }
        proof {
            let from = pos as int;
            let c = find_byte(s, 44, from);
            assert(c == cm);
            assert(find_byte(s, 58, from) == cl);
            assert(table@ == spec_text_item(s, from, c, acc0));
            assert(spec_parse_text(s, from, acc0) == (if c >= s.len() {
                spec_text_item(s, from, c, acc0)
            } else {
                spec_parse_text(s, c + 1, spec_text_item(s, from, c, acc0))
            }));
        }
        if cm == n {
            done = true;
        } else {
            pos = cm + 1;
        }
    }
    table
}

} // verus!
