//! The encoder side: frequency counting, prefix-code table derivation,
//! bit packing, header serialization, and the `encode` pipeline.

use vstd::prelude::*;

use crate::freq::{entries_wf, lookup, total_count, FreqTable};
use crate::huffman::{
    is_leaf, leaf_bytes, lemma_table_keys_lookup, spec_build_tree, table_keys, wf_tree,
    TreeNode,
};
use crate::CodecError;

verus! {

/// Options for an encode run: the path of the file to compress.
#[derive(Debug)]
pub struct EncodeOpt {
    input: String,
}

impl EncodeOpt {
    pub fn new(input: String) -> (r: EncodeOpt)
        ensures
            r.spec_input() == input@,
    {
        EncodeOpt { input }
    }

    pub closed spec fn spec_input(&self) -> Seq<char> {
        self.input@
    }

    /// The path of the file to compress.
    pub fn input(&self) -> (r: &String)
        ensures
            r@ == self.spec_input(),
    {
        &self.input
    }
}

/// The code of every byte value recorded in the tree: its root-to-leaf
/// path, `false` for a left step and `true` for a right step, appended
/// to `prefix`.
pub open spec fn spec_codes(t: TreeNode, prefix: Seq<bool>) -> Map<u8, Seq<bool>>
    decreases t,
{
    let m0 = match t.val {
        Option::Some(b) => Map::<u8, Seq<bool>>::empty().insert(b, prefix),
        Option::None => Map::<u8, Seq<bool>>::empty(),
    };
    let ml = match t.left {
        Option::Some(l) => spec_codes(*l, prefix.push(false)),
        Option::None => Map::<u8, Seq<bool>>::empty(),
    };
    let mr = match t.right {
        Option::Some(r) => spec_codes(*r, prefix.push(true)),
        Option::None => Map::<u8, Seq<bool>>::empty(),
    };
    m0.union_prefer_right(ml).union_prefer_right(mr)
}

/// A mapping from byte value to its bit-string code, one optional slot
/// per byte value.
pub struct PrefixTable {
    codes: Vec<Option<Vec<bool>>>,
}

impl View for PrefixTable {
    type V = Map<u8, Seq<bool>>;

    closed spec fn view(&self) -> Map<u8, Seq<bool>> {
        Map::new(
            |b: u8| self.codes@[b as int] is Some,
            |b: u8| self.codes@[b as int].unwrap()@,
        )
    }
}

impl PrefixTable {
    pub closed spec fn wf(&self) -> bool {
        self.codes@.len() == 256
    }

    /// An empty table: no byte has a code yet.
    pub fn new() -> (r: PrefixTable)
        ensures
            r.wf(),
            r@ == Map::<u8, Seq<bool>>::empty(),
    {
        let mut codes: Vec<Option<Vec<bool>>> = Vec::new();
        let mut i: usize = 0;
        while i < 256
            invariant
                i <= 256,
                codes@.len() == i,
                forall|j: int| 0 <= j < i ==> codes@[j] is None,
            decreases 256 - i,
        {
            codes.push(None);
            i = i + 1;
        }
        let r = PrefixTable { codes };
        proof {
            assert(r@ =~= Map::<u8, Seq<bool>>::empty());
        }
        r
    }

    /// The code recorded for `b`, if any.
    pub fn get(&self, b: u8) -> (r: Option<&Vec<bool>>)
        requires
            self.wf(),
        ensures
            r is Some <==> self@.dom().contains(b),
            r is Some ==> r.unwrap()@ == self@[b],
    {
        match &self.codes[b as usize] {
            Some(code) => Some(code),
            None => None,
        }
    }

    /// Records `code` for byte `b`, replacing any earlier code.
    fn set_code(&mut self, b: u8, code: Vec<bool>)
        requires
            old(self).wf(),
        ensures
            final(self).wf(),
            final(self)@ == old(self)@.insert(b, code@),
    {
        let ghost m0 = self@;
        let ghost c = code@;
        self.codes[b as usize] = Some(code);
        proof {
            assert(self@ =~= m0.insert(b, c));
        }
    }
}

/// A fresh copy of a bit string.
fn clone_bits(v: &Vec<bool>) -> (r: Vec<bool>)
    ensures
        r@ == v@,
{
    let mut r: Vec<bool> = Vec::new();
    let mut i: usize = 0;
    while i < v.len()
        invariant
            i <= v@.len(),
            r@ == v@.take(i as int),
        decreases v@.len() - i,
    {
        r.push(v[i]);
        proof {
            assert(v@.take(i + 1) =~= v@.take(i as int).push(v@[i as int]));
        }
        i = i + 1;
    }
    proof {
        assert(v@.take(v@.len() as int) =~= v@);
    }
    r
}

/// Walks the tree depth first, recording for every byte value the path
/// that leads to it.
fn collect_codes(node: &TreeNode, path: &Vec<bool>, out: &mut PrefixTable)
    requires
        old(out).wf(),
    ensures
        final(out).wf(),
        final(out)@ == old(out)@.union_prefer_right(spec_codes(*node, path@)),
    decreases *node,
{
    let ghost start = out@;
    let ghost mv = match node.val {
        Option::Some(b) => Map::<u8, Seq<bool>>::empty().insert(b, path@),
        Option::None => Map::<u8, Seq<bool>>::empty(),
    };
    let ghost ml = match &node.left {
        Option::Some(l) => spec_codes(**l, path@.push(false)),
        Option::None => Map::<u8, Seq<bool>>::empty(),
    };
    let ghost mr = match &node.right {
        Option::Some(r) => spec_codes(**r, path@.push(true)),
        Option::None => Map::<u8, Seq<bool>>::empty(),
    };
    if let Some(b) = node.val {
        out.set_code(b, clone_bits(path));
    }
    proof {
        assert(out@ =~= start.union_prefer_right(mv));
    }
    let ghost m1 = out@;
    if let Some(l) = &node.left {
        let mut lp = clone_bits(path);
        lp.push(false);
        collect_codes(&**l, &lp, out);
    }
    proof {
        assert(out@ =~= m1.union_prefer_right(ml));
    }
    let ghost m2 = out@;
    if let Some(r) = &node.right {
        let mut rp = clone_bits(path);
        rp.push(true);
        collect_codes(&**r, &rp, out);
    }
    proof {
        assert(out@ =~= m2.union_prefer_right(mr));
        assert(out@ =~= start.union_prefer_right(spec_codes(*node, path@)));
    }
}

/// Derives the prefix-code table of a tree: each recorded byte value is
/// mapped to its root-to-leaf path.
pub fn build_prefix_table(root: &Option<TreeNode>) -> (r: PrefixTable)
    ensures
        r.wf(),
        (*root) is Some ==> r@ == spec_codes((*root).unwrap(), Seq::<bool>::empty()),
        (*root) is None ==> r@ == Map::<u8, Seq<bool>>::empty(),
{
    let mut out = PrefixTable::new();
    if let Some(t) = root {
        let path: Vec<bool> = Vec::new();
        collect_codes(t, &path, &mut out);
        proof {
            assert(out@ =~= spec_codes((*root).unwrap(), Seq::<bool>::empty()));
        }
    }
    out
}

/// Every code a tree assigns carries the prefix it was collected under.
pub proof fn lemma_codes_prefixed(t: TreeNode, prefix: Seq<bool>, b: u8)
    requires
        spec_codes(t, prefix).dom().contains(b),
    ensures
        prefix.is_prefix_of(spec_codes(t, prefix)[b]),
    decreases t,
{
    let m = spec_codes(t, prefix);
    match t.right {
        Option::Some(r) => {
            if spec_codes(*r, prefix.push(true)).dom().contains(b) {
                lemma_codes_prefixed(*r, prefix.push(true), b);
                assert(prefix.is_prefix_of(prefix.push(true)));
                assert(m[b] == spec_codes(*r, prefix.push(true))[b]);
                lemma_prefix_trans(prefix, prefix.push(true), m[b]);
                return;
            }
        },
        Option::None => {},
    }
    match t.left {
        Option::Some(l) => {
            if spec_codes(*l, prefix.push(false)).dom().contains(b) {
                lemma_codes_prefixed(*l, prefix.push(false), b);
                assert(prefix.is_prefix_of(prefix.push(false)));
                assert(m[b] == spec_codes(*l, prefix.push(false))[b]);
                lemma_prefix_trans(prefix, prefix.push(false), m[b]);
                return;
            }
        },
        Option::None => {},
    }
    assert(t.val == Some(b) && m[b] == prefix);
    assert(prefix.is_prefix_of(prefix));
}

/// Prefix-of is transitive.
proof fn lemma_prefix_trans(a: Seq<bool>, b: Seq<bool>, c: Seq<bool>)
    requires
        a.is_prefix_of(b),
        b.is_prefix_of(c),
    ensures
        a.is_prefix_of(c),
{
    assert(a =~= c.subrange(0, a.len() as int)) by {
        assert(forall|i: int| 0 <= i < a.len() ==> a[i] == b[i] && b[i] == c[i]);
    }
}

/// A code that extends `p.push(x)` reads `x` right after `p`.
pub proof fn lemma_prefixed_index(p: Seq<bool>, x: bool, c: Seq<bool>)
    requires
        p.push(x).is_prefix_of(c),
    ensures
        c.len() > p.len(),
        c[p.len() as int] == x,
{
    assert(p.push(x) =~= c.subrange(0, p.len() as int + 1));
    assert(c.subrange(0, p.len() as int + 1)[p.len() as int] == c[p.len() as int]);
    assert(p.push(x)[p.len() as int] == x);
}

/// The set of bytes that receive a code is exactly the set of byte
/// values the tree records.
pub proof fn lemma_codes_dom(t: TreeNode, prefix: Seq<bool>)
    ensures
        spec_codes(t, prefix).dom() == leaf_bytes(t),
    decreases t,
{
    match t.left {
        Option::Some(l) => lemma_codes_dom(*l, prefix.push(false)),
        Option::None => {},
    }
    match t.right {
        Option::Some(r) => lemma_codes_dom(*r, prefix.push(true)),
        Option::None => {},
    }
    assert(spec_codes(t, prefix).dom() =~= leaf_bytes(t));
}

/// In a well-formed tree no code is a prefix of another byte's code:
/// codes end at leaves, and a leaf has no children to continue through.
pub proof fn lemma_codes_prefix_free(t: TreeNode, prefix: Seq<bool>)
    requires
        wf_tree(t),
    ensures
        forall|a: u8, b: u8|
            #![trigger spec_codes(t, prefix)[a], spec_codes(t, prefix)[b]]
            spec_codes(t, prefix).dom().contains(a) && spec_codes(t, prefix).dom().contains(b)
                && a != b ==> !spec_codes(t, prefix)[a].is_prefix_of(spec_codes(t, prefix)[b]),
    decreases t,
{
    let m = spec_codes(t, prefix);
    if is_leaf(t) {
        assert forall|a: u8, b: u8|
            m.dom().contains(a) && m.dom().contains(b) && a != b implies !(#[trigger] m[a])
            .is_prefix_of(#[trigger] m[b]) by {
            assert(t.val == Some(a) && t.val == Some(b));
        }
    } else {
        let l = t.left.unwrap();
        let r = t.right.unwrap();
        let lm = spec_codes(*l, prefix.push(false));
        let rm = spec_codes(*r, prefix.push(true));
        lemma_codes_prefix_free(*l, prefix.push(false));
        lemma_codes_prefix_free(*r, prefix.push(true));
        assert forall|a: u8, b: u8|
            m.dom().contains(a) && m.dom().contains(b) && a != b implies !(#[trigger] m[a])
            .is_prefix_of(#[trigger] m[b]) by {
            let pl = prefix.len() as int;
            if rm.dom().contains(a) && rm.dom().contains(b) {
                assert(m[a] == rm[a] && m[b] == rm[b]);
            } else if !rm.dom().contains(a) && !rm.dom().contains(b) {
                assert(m[a] == lm[a] && m[b] == lm[b]);
            } else {
                let ca = m[a];
                let cb = m[b];
                if rm.dom().contains(a) {
                    lemma_codes_prefixed(*r, prefix.push(true), a);
                    lemma_codes_prefixed(*l, prefix.push(false), b);
                    assert(ca == rm[a] && cb == lm[b]);
                    lemma_prefixed_index(prefix, true, ca);
                    lemma_prefixed_index(prefix, false, cb);
                    assert(ca[pl] == true && cb[pl] == false);
                } else {
                    lemma_codes_prefixed(*l, prefix.push(false), a);
                    lemma_codes_prefixed(*r, prefix.push(true), b);
                    assert(ca == lm[a] && cb == rm[b]);
                    lemma_prefixed_index(prefix, false, ca);
                    lemma_prefixed_index(prefix, true, cb);
                    assert(ca[pl] == false && cb[pl] == true);
                }
                if ca.is_prefix_of(cb) {
                    assert(cb.subrange(0, ca.len() as int) =~= ca);
                    assert(ca[pl] == cb[pl]);
                }
            }
        }
    }
}

/// No code in a tree's prefix table is a prefix of another byte's code.
/// This is what makes the concatenated payload unambiguous.
pub proof fn lemma_prefix_free(t: TreeNode)
    requires
        wf_tree(t),
    ensures
        forall|a: u8, b: u8|
            #![trigger spec_codes(t, Seq::<bool>::empty())[a], spec_codes(t, Seq::<bool>::empty())[b]]
            spec_codes(t, Seq::<bool>::empty()).dom().contains(a)
                && spec_codes(t, Seq::<bool>::empty()).dom().contains(b) && a != b
                ==> !spec_codes(t, Seq::<bool>::empty())[a].is_prefix_of(
                spec_codes(t, Seq::<bool>::empty())[b],
            ),
{
    lemma_codes_prefix_free(t, Seq::<bool>::empty());
}

/// The number of occurrences of byte `b` in `d`.
pub open spec fn count_of(d: Seq<u8>, b: u8) -> int
    decreases d.len(),
{
    if d.len() == 0 {
        0
    } else {
        count_of(d.drop_last(), b) + if d.last() == b {
            1int
        } else {
            0int
        }
    }
}

pub proof fn lemma_count_bounds(d: Seq<u8>, b: u8)
    ensures
        0 <= count_of(d, b) <= d.len(),
    decreases d.len(),
{
    if d.len() > 0 {
        lemma_count_bounds(d.drop_last(), b);
    }
}

/// A byte that occurs in `d` has a positive count.
pub proof fn lemma_count_occurs(d: Seq<u8>, i: int)
    requires
        0 <= i < d.len(),
    ensures
        count_of(d, d[i]) >= 1,
    decreases d.len(),
{
    if i == d.len() - 1 {
        lemma_count_bounds(d.drop_last(), d[i]);
    } else {
        lemma_count_occurs(d.drop_last(), i);
        assert(d.drop_last()[i] == d[i]);
    }
}

/// The entries the counter produces for byte values below `k`:
/// ascending, one entry per byte value with a positive count.
pub open spec fn entries_upto(d: Seq<u8>, k: int) -> Seq<(u8, usize)>
    decreases k,
{
    if k <= 0 {
        Seq::empty()
    } else {
        let prev = entries_upto(d, k - 1);
        if count_of(d, (k - 1) as u8) > 0 {
            prev.push((((k - 1) as u8), count_of(d, (k - 1) as u8) as usize))
        } else {
            prev
        }
    }
}

/// The frequency table of a byte sequence.
pub open spec fn table_of(d: Seq<u8>) -> Seq<(u8, usize)> {
    entries_upto(d, 256)
}

/// Sum of the counts of all byte values below `k`.
pub open spec fn count_below(d: Seq<u8>, k: int) -> int
    decreases k,
{
    if k <= 0 {
        0
    } else {
        count_below(d, k - 1) + count_of(d, (k - 1) as u8)
    }
}

pub proof fn lemma_entries_upto_props(d: Seq<u8>, k: int)
    requires
        d.len() <= usize::MAX,
        0 <= k <= 256,
    ensures
        entries_wf(entries_upto(d, k)),
        forall|j: int|
            #![trigger entries_upto(d, k)[j]]
            0 <= j < entries_upto(d, k).len() ==> (entries_upto(d, k)[j].0 as int) < k
                && entries_upto(d, k)[j].1 == count_of(d, entries_upto(d, k)[j].0),
        forall|b: u8|
            #![trigger lookup(entries_upto(d, k), b)]
            (b as int) < k ==> lookup(entries_upto(d, k), b) == (if count_of(d, b) > 0 {
                Some(count_of(d, b) as usize)
            } else {
                None::<usize>
            }),
        forall|b: u8|
            #![trigger lookup(entries_upto(d, k), b)]
            (b as int) >= k ==> lookup(entries_upto(d, k), b) is None,
    decreases k,
{
    if k > 0 {
        lemma_entries_upto_props(d, k - 1);
        lemma_count_bounds(d, (k - 1) as u8);
        let prev = entries_upto(d, k - 1);
        let cur = entries_upto(d, k);
        let kb = (k - 1) as u8;
        if count_of(d, kb) > 0 {
            let e = (kb, count_of(d, kb) as usize);
            assert(cur == prev.push(e));
            assert(cur.drop_last() =~= prev);
            assert(cur.last() == e);
            assert(forall|j: int| 0 <= j < prev.len() ==> cur[j] == #[trigger] prev[j]);
            assert forall|b: u8| (b as int) < k implies lookup(cur, b) == (if count_of(d, b) > 0 {
                Some(count_of(d, b) as usize)
            } else {
                None::<usize>
            }) by {
                if b == kb {
                    assert(lookup(cur, b) == Some(e.1));
                } else {
                    assert(lookup(cur, b) == lookup(prev, b));
                }
            }
            assert forall|b: u8| (b as int) >= k implies lookup(cur, b) is None by {
                assert(b != kb);
                assert(lookup(cur, b) == lookup(prev, b));
            }
        } else {
            assert(cur == prev);
            assert forall|b: u8| (b as int) < k implies lookup(cur, b) == (if count_of(d, b) > 0 {
                Some(count_of(d, b) as usize)
            } else {
                None::<usize>
            }) by {
                if b == kb {
                    assert(lookup(prev, b) is None);
                }
            }
        }
    }
}

pub proof fn lemma_total_upto(d: Seq<u8>, k: int)
    requires
        d.len() <= usize::MAX,
        0 <= k,
    ensures
        total_count(entries_upto(d, k)) == count_below(d, k),
    decreases k,
{
    if k > 0 {
        lemma_total_upto(d, k - 1);
        lemma_count_bounds(d, (k - 1) as u8);
        let prev = entries_upto(d, k - 1);
        if count_of(d, (k - 1) as u8) > 0 {
            let e = (((k - 1) as u8), count_of(d, (k - 1) as u8) as usize);
            assert(prev.push(e).drop_last() =~= prev);
        }
    }
}

proof fn lemma_count_below_drop(d: Seq<u8>, k: int)
    requires
        d.len() >= 1,
        0 <= k <= 256,
    ensures
        count_below(d, k) == count_below(d.drop_last(), k) + if (d.last() as int) < k {
            1int
        } else {
            0int
        },
    decreases k,
{
    if k > 0 {
        lemma_count_below_drop(d, k - 1);
    }
}

proof fn lemma_count_below_empty(d: Seq<u8>, k: int)
    requires
        d.len() == 0,
        0 <= k,
    ensures
        count_below(d, k) == 0,
    decreases k,
{
    if k > 0 {
        lemma_count_below_empty(d, k - 1);
    }
}

/// Summing the per-byte counts over all 256 byte values gives back the
/// length of the input.
pub proof fn lemma_count_below_all(d: Seq<u8>)
    ensures
        count_below(d, 256) == d.len(),
    decreases d.len(),
{
    if d.len() == 0 {
        lemma_count_below_empty(d, 256);
    } else {
        lemma_count_below_drop(d, 256);
        lemma_count_below_all(d.drop_last());
    }
}

/// Scans a byte buffer and produces its frequency table: one entry per
/// occurring byte value, in ascending byte order, counting every
/// occurrence.  The counts sum to the buffer's length.
pub fn character_frequencies(data: &Vec<u8>) -> (r: FreqTable)
    ensures
        r.wf(),
        r@ == table_of(data@),
        total_count(r@) == data@.len(),
        forall|b: u8|
            #![trigger lookup(r@, b)]
            lookup(r@, b) == (if count_of(data@, b) > 0 {
                Some(count_of(data@, b) as usize)
            } else {
                None::<usize>
            }),
{
    let n = data.len();
    let mut counts: Vec<usize> = Vec::new();
    let mut i: usize = 0;
    while i < 256
        invariant
            i <= 256,
            counts@.len() == i,
            forall|v: int| 0 <= v < i ==> counts@[v] == 0,
        decreases 256 - i,
    {
        counts.push(0);
        i = i + 1;
    }
    proof {
        assert(data@.take(0int) =~= Seq::<u8>::empty());
    }
    let mut i: usize = 0;
    while i < n
        invariant
            i <= n,
            n == data@.len(),
            counts@.len() == 256,
            forall|v: int|
                #![trigger counts@[v]]
                0 <= v < 256 ==> counts@[v] == count_of(data@.take(i as int), v as u8),
        decreases n - i,
    {
        let b = data[i];
        proof {
            lemma_count_bounds(data@.take(i as int), b);
        }
        let cur = counts[b as usize];
        counts[b as usize] = cur + 1;
        proof {
            assert(data@.take(i + 1).drop_last() =~= data@.take(i as int));
            assert(data@.take(i + 1).last() == data@[i as int]);
            assert(forall|v: int|
                #![trigger counts@[v]]
                0 <= v < 256 ==> counts@[v] == count_of(data@.take(i + 1), v as u8));
        }
        i = i + 1;
    }
    proof {
        assert(data@.take(n as int) =~= data@);
    }
    let mut entries: Vec<(u8, usize)> = Vec::new();
    let mut b: usize = 0;
    while b < 256
        invariant
            b <= 256,
            counts@.len() == 256,
            forall|v: int|
                #![trigger counts@[v]]
                0 <= v < 256 ==> counts@[v] == count_of(data@, v as u8),
            entries@ == entries_upto(data@, b as int),
        decreases 256 - b,
    {
        let c = counts[b];
        if c > 0 {
            entries.push((b as u8, c));
        }
        b = b + 1;
    }
    proof {
        lemma_entries_upto_props(data@, 256);
        lemma_total_upto(data@, 256);
        lemma_count_below_all(data@);
    }
    FreqTable::from_sorted(entries)
}

/// The concatenation of the codes of every byte of `d`, in order.
pub open spec fn spec_payload(d: Seq<u8>, m: Map<u8, Seq<bool>>) -> Seq<bool>
    decreases d.len(),
{
    if d.len() == 0 {
        Seq::empty()
    } else {
        m[d[0]] + spec_payload(d.drop_first(), m)
    }
}

pub proof fn lemma_payload_append(a: Seq<u8>, b: Seq<u8>, m: Map<u8, Seq<bool>>)
    ensures
        spec_payload(a + b, m) == spec_payload(a, m) + spec_payload(b, m),
    decreases a.len(),
{
    if a.len() == 0 {
        assert(a + b =~= b);
        assert(spec_payload(a, m) + spec_payload(b, m) =~= spec_payload(b, m));
    } else {
        assert((a + b).drop_first() =~= a.drop_first() + b);
        assert((a + b)[0] == a[0]);
        assert((a + b).len() > 0);
        lemma_payload_append(a.drop_first(), b, m);
        assert(spec_payload(a + b, m) =~= spec_payload(a, m) + spec_payload(b, m));
    }
}

/// Appends a copy of `src` to `dst`.
fn append_bits(dst: &mut Vec<bool>, src: &Vec<bool>)
    ensures
        final(dst)@ == old(dst)@ + src@,
{
    let mut k: usize = 0;
    proof {
        assert(old(dst)@ + src@.take(0int) =~= old(dst)@);
    }
    while k < src.len()
        invariant
            k <= src@.len(),
            dst@ == old(dst)@ + src@.take(k as int),
        decreases src@.len() - k,
    {
        dst.push(src[k]);
        proof {
            assert(old(dst)@ + src@.take(k + 1) =~= (old(dst)@ + src@.take(k as int)).push(
                src@[k as int],
            ));
        }
        k = k + 1;
    }
    proof {
        assert(src@.take(src@.len() as int) =~= src@);
    }
}

/// Replaces every byte of `data` by its code and concatenates the codes.
/// Returns `None` exactly when some byte of `data` has no code.
pub fn encode_msg(data: &Vec<u8>, prefix_table: &PrefixTable) -> (r: Option<Vec<bool>>)
    requires
        prefix_table.wf(),
    ensures
        r is Some <==> (forall|i: int|
            0 <= i < data@.len() ==> prefix_table@.dom().contains(#[trigger] data@[i])),
        r is Some ==> r.unwrap()@ == spec_payload(data@, prefix_table@),
{
    let mut bits: Vec<bool> = Vec::new();
    let mut i: usize = 0;
    while i < data.len()
        invariant
            i <= data@.len(),
            prefix_table.wf(),
            forall|j: int| 0 <= j < i ==> prefix_table@.dom().contains(#[trigger] data@[j]),
            bits@ == spec_payload(data@.take(i as int), prefix_table@),
        decreases data@.len() - i,
    {
        let b = data[i];
        match prefix_table.get(b) {
            None => {
                proof {
                    assert(!prefix_table@.dom().contains(data@[i as int]));
                }
                return None;
            },
            Some(code) => {
                append_bits(&mut bits, code);
                proof {
                    assert(data@.take(i + 1) =~= data@.take(i as int) + seq![data@[i as int]]);
                    lemma_payload_append(data@.take(i as int), seq![data@[i as int]], prefix_table@);
                    assert(seq![data@[i as int]].drop_first() =~= Seq::<u8>::empty());
                    assert(spec_payload(Seq::<u8>::empty(), prefix_table@) =~= Seq::<bool>::empty());
                    assert(spec_payload(seq![data@[i as int]], prefix_table@) =~= prefix_table@[data@[i as int]]);
                }
            },
        }
        i = i + 1;
    }
    proof {
        assert(data@.take(data@.len() as int) =~= data@);
    }
    Some(bits)
}

/// Bit `i` of a byte, most significant bit first.
pub open spec fn bit_of_byte(x: u8, i: int) -> bool {
    (x >> ((7 - i) as u8)) & 1 == 1
}

/// The 0/1 value at position `i` of a bit string, zero past its end.
pub open spec fn bitval(s: Seq<bool>, i: int) -> u8 {
    if 0 <= i < s.len() && s[i] {
        1
    } else {
        0
    }
}

/// The byte packing the eight bits of `s` starting at `base`,
/// most significant bit first, zero-padded past the end of `s`.
pub open spec fn byte_from_bits(s: Seq<bool>, base: int) -> u8 {
    (bitval(s, base) << 7) | (bitval(s, base + 1) << 6) | (bitval(s, base + 2) << 5) | (bitval(
        s,
        base + 3,
    ) << 4) | (bitval(s, base + 4) << 3) | (bitval(s, base + 5) << 2) | (bitval(s, base + 6)
        << 1) | bitval(s, base + 7)
}

/// A bit string packed into bytes, eight bits per byte, most significant
/// bit first, the last byte zero-padded.
pub open spec fn pack_bits(s: Seq<bool>) -> Seq<u8> {
    Seq::new(((s.len() + 7) / 8) as nat, |j: int| byte_from_bits(s, 8 * j))
}

/// The bit at `base + off`, or zero past the end.
fn bit_at_or_zero(bits: &Vec<bool>, base: usize, off: usize) -> (r: u8)
    requires
        base <= bits@.len(),
        off < 8,
    ensures
        r == bitval(bits@, base as int + off as int),
        r <= 1,
{
    if off < bits.len() - base {
        if bits[base + off] {
            1
        } else {
            0
        }
    } else {
        0
    }
}

/// Packs a bit string into bytes, most significant bit first, padding
/// the trailing bits of the last byte with zeroes.
pub fn bit_str_to_bytes(bits: &Vec<bool>) -> (r: Vec<u8>)
    ensures
        r@ == pack_bits(bits@),
{
    let n = bits.len();
    let chunks = n / 8 + if n % 8 != 0 {
        1usize
    } else {
        0usize
    };
    proof {
        assert(chunks == (n + 7) / 8);
    }
    let mut out: Vec<u8> = Vec::new();
    let mut j: usize = 0;
    while j < chunks
        invariant
            j <= chunks,
            n == bits@.len(),
            chunks == (n + 7) / 8,
            out@.len() == j,
            forall|q: int|
                #![trigger out@[q]]
                0 <= q < j ==> out@[q] == byte_from_bits(bits@, 8 * q),
        decreases chunks - j,
    {
        let base = 8 * j;
        proof {
            assert(8 * j <= n);
        }
        let g0 = bit_at_or_zero(bits, base, 0);
        let g1 = bit_at_or_zero(bits, base, 1);
        let g2 = bit_at_or_zero(bits, base, 2);
        let g3 = bit_at_or_zero(bits, base, 3);
        let g4 = bit_at_or_zero(bits, base, 4);
        let g5 = bit_at_or_zero(bits, base, 5);
        let g6 = bit_at_or_zero(bits, base, 6);
        let g7 = bit_at_or_zero(bits, base, 7);
        let byte: u8 = (g0 << 7) | (g1 << 6) | (g2 << 5) | (g3 << 4) | (g4 << 3) | (g5 << 2) | (
        g6 << 1) | g7;
        out.push(byte);
        j = j + 1;
    }
    proof {
        assert(out@ =~= pack_bits(bits@));
    }
    out
}

/// The header body: for each entry in ascending byte order, the byte
/// value followed by its count as eight little-endian bytes.
pub open spec fn spec_ser_entries(s: Seq<(u8, usize)>) -> Seq<u8>
    decreases s.len(),
{
    if s.len() == 0 {
        Seq::empty()
    } else {
        seq![s[0].0] + vstd::bytes::spec_u64_to_le_bytes(s[0].1 as u64) + spec_ser_entries(
            s.drop_first(),
        )
    }
}

pub proof fn lemma_ser_entries_len(s: Seq<(u8, usize)>)
    ensures
        spec_ser_entries(s).len() == 9 * s.len(),
    decreases s.len(),
{
    vstd::bytes::lemma_auto_spec_u64_to_from_le_bytes();
    if s.len() > 0 {
        lemma_ser_entries_len(s.drop_first());
    }
}

pub proof fn lemma_ser_entries_append(a: Seq<(u8, usize)>, b: Seq<(u8, usize)>)
    ensures
        spec_ser_entries(a + b) == spec_ser_entries(a) + spec_ser_entries(b),
    decreases a.len(),
{
    if a.len() == 0 {
        assert(a + b =~= b);
        assert(spec_ser_entries(a) + spec_ser_entries(b) =~= spec_ser_entries(b));
    } else {
        assert((a + b).drop_first() =~= a.drop_first() + b);
        assert((a + b)[0] == a[0]);
        lemma_ser_entries_append(a.drop_first(), b);
        assert(spec_ser_entries(a + b) =~= spec_ser_entries(a) + spec_ser_entries(b));
    }
}

/// Keys grow at least as fast as indices in a sorted entry list.
proof fn lemma_key_ge_index(s: Seq<(u8, usize)>, i: int)
    requires
        entries_wf(s),
        0 <= i < s.len(),
    ensures
        s[i].0 >= i,
    decreases i,
{
    if i > 0 {
        lemma_key_ge_index(s, i - 1);
        assert(s[i - 1].0 < s[i].0);
    }
}

/// A sorted table of byte keys has at most 256 entries.
pub proof fn lemma_entries_len_bound(s: Seq<(u8, usize)>)
    requires
        entries_wf(s),
    ensures
        s.len() <= 256,
{
    if s.len() > 256 {
        lemma_key_ge_index(s, 256);
    }
}

/// Serializes a frequency table into the full header: a 4-byte
/// little-endian length prefix counting the body bytes, then the body.
pub fn write_header(freq_table: &FreqTable) -> (r: Vec<u8>)
    requires
        freq_table.wf(),
    ensures
        r@ == vstd::bytes::spec_u32_to_le_bytes(
            spec_ser_entries(freq_table@).len() as u32,
        ) + spec_ser_entries(freq_table@),
        r@.len() == 4 + spec_ser_entries(freq_table@).len(),
{
    proof {
        lemma_entries_len_bound(freq_table@);
        lemma_ser_entries_len(freq_table@);
    }
    let k = freq_table.len();
    let mut body: Vec<u8> = Vec::new();
    let mut i: usize = 0;
    proof {
        assert(freq_table@.take(0int) =~= Seq::<(u8, usize)>::empty());
    }
    while i < k
        invariant
            i <= k,
            k == freq_table@.len() <= 256,
            freq_table.wf(),
            body@ == spec_ser_entries(freq_table@.take(i as int)),
        decreases k - i,
    {
        let e = freq_table.entry_at(i);
        body.push(e.0);
        let mut le = vstd::bytes::u64_to_le_bytes(e.1 as u64);
        body.append(&mut le);
        proof {
            assert(freq_table@.take(i + 1) =~= freq_table@.take(i as int) + seq![
                freq_table@[i as int],
            ]);
            lemma_ser_entries_append(freq_table@.take(i as int), seq![freq_table@[i as int]]);
            let single = seq![freq_table@[i as int]];
            assert(single.drop_first() =~= Seq::<(u8, usize)>::empty());
            assert(spec_ser_entries(Seq::<(u8, usize)>::empty()) =~= Seq::<u8>::empty());
            assert(spec_ser_entries(single) =~= seq![freq_table@[i as int].0]
                + vstd::bytes::spec_u64_to_le_bytes(freq_table@[i as int].1 as u64));
            assert(body@ =~= spec_ser_entries(freq_table@.take(i + 1)));
        }
        i = i + 1;
    }
    proof {
        assert(freq_table@.take(k as int) =~= freq_table@);
        lemma_ser_entries_len(freq_table@);
    }
    let header_len = body.len() as u32;
    let mut r = vstd::bytes::u32_to_le_bytes(header_len);
    r.append(&mut body);
    r
}

/// The payload bits of an encode run: the concatenated codes, except
/// that a single-entry table (one distinct byte) uses a one-bit code,
/// since the lone leaf's root-to-leaf path would be empty.
pub open spec fn spec_encode_bits(d: Seq<u8>) -> Seq<bool> {
    let table = table_of(d);
    let tree = spec_build_tree(table).unwrap();
    if table.len() == 1 {
        Seq::new(d.len(), |i: int| false)
    } else {
        spec_payload(d, spec_codes(tree, Seq::<bool>::empty()))
    }
}

/// What `encode` produces: the serialized frequency table behind a
/// 4-byte little-endian length prefix, then the bit-packed payload.
pub open spec fn spec_encode(d: Seq<u8>) -> Result<Seq<u8>, CodecError> {
    if d.len() == 0 {
        Err(CodecError::EmptyInput)
    } else {
        let body = spec_ser_entries(table_of(d));
        Ok(
            vstd::bytes::spec_u32_to_le_bytes(body.len() as u32) + body + pack_bits(
                spec_encode_bits(d),
            ),
        )
    }
}

/// Compresses a byte buffer: `[4-byte LE header length][header body]
/// [packed payload bits]`.  Fails exactly on empty input, which gives
/// no frequency table to build a tree from.
pub fn encode(data: &Vec<u8>) -> (r: Result<Vec<u8>, CodecError>)
    ensures
        r is Ok <==> data@.len() > 0,
        r is Ok ==> r.unwrap()@ == spec_encode(data@).unwrap(),
        r is Err ==> r.unwrap_err() == CodecError::EmptyInput,
{
    if data.len() == 0 {
        return Err(CodecError::EmptyInput);
    }
    let freq_table = character_frequencies(data);
    proof {
        lemma_count_occurs(data@, 0);
        assert(lookup(freq_table@, data@[0]) is Some);
        if freq_table@.len() == 0 {
            assert(lookup(freq_table@, data@[0]) is None);
        }
    }
    let tree = TreeNode::build_huffman_tree(&freq_table);
    let header = write_header(&freq_table);
    let k = freq_table.len();
    let n = data.len();
    let bits: Vec<bool> = if k == 1 {
        let mut zs: Vec<bool> = Vec::new();
        let mut i: usize = 0;
        while i < n
            invariant
                i <= n,
                zs@.len() == i,
                forall|j: int| 0 <= j < i ==> zs@[j] == false,
            decreases n - i,
        {
            zs.push(false);
            i = i + 1;
        }
        proof {
            assert(zs@ =~= Seq::new(data@.len(), |i: int| false));
        }
        zs
    } else {
        let prefix_table = build_prefix_table(&tree);
        proof {
            let troot = tree.unwrap();
            lemma_codes_dom(troot, Seq::<bool>::empty());
            assert forall|i: int| 0 <= i < data@.len() implies prefix_table@.dom().contains(
                #[trigger] data@[i],
            ) by {
                lemma_count_occurs(data@, i);
                lemma_table_keys_lookup(freq_table@, data@[i]);
            }
        }
        match encode_msg(data, &prefix_table) {
            Some(bs) => bs,
            None => {
                proof {
                    assert(false);
                }
                return Err(CodecError::EmptyInput);
            },
        }
    };
    let mut out = header;
    let mut packed = bit_str_to_bytes(&bits);
    out.append(&mut packed);
    proof {
        assert(bits@ == spec_encode_bits(data@));
        assert(out@ =~= spec_encode(data@).unwrap());
    }
    Ok(out)
}

/// The decimal digits of `n`, most significant first.
pub open spec fn spec_dec_digits(n: int) -> Seq<u8>
    decreases n,
{
    if n < 10 {
        seq![(n + 48) as u8]
    } else {
        spec_dec_digits(n / 10).push((n % 10 + 48) as u8)
    }
}

/// The textual header form: for each entry in ascending byte order,
/// `<count>:<byte>` followed by `,` — the count in decimal, the byte
/// raw.  This legacy form is ambiguous when the payload itself uses
/// the delimiter bytes `:` or `,`; the codec pipeline therefore uses
/// the byte-safe binary header of `write_header` instead.
pub open spec fn spec_text_header(s: Seq<(u8, usize)>) -> Seq<u8>
    decreases s.len(),
{
    if s.len() == 0 {
        Seq::empty()
    } else {
        spec_dec_digits(s[0].1 as int) + seq![58u8, s[0].0, 44u8] + spec_text_header(
            s.drop_first(),
        )
    }
}

proof fn lemma_text_header_append(a: Seq<(u8, usize)>, b: Seq<(u8, usize)>)
    ensures
        spec_text_header(a + b) == spec_text_header(a) + spec_text_header(b),
    decreases a.len(),
{
    if a.len() == 0 {
        assert(a + b =~= b);
        assert(spec_text_header(a) + spec_text_header(b) =~= spec_text_header(b));
    } else {
        assert((a + b).drop_first() =~= a.drop_first() + b);
        assert((a + b)[0] == a[0]);
        lemma_text_header_append(a.drop_first(), b);
        assert(spec_text_header(a + b) =~= spec_text_header(a) + spec_text_header(b));
    }
}

/// Appends the decimal digits of `n`.
fn push_decimal(out: &mut Vec<u8>, n: usize)
    ensures
        final(out)@ == old(out)@ + spec_dec_digits(n as int),
    decreases n,
{
    if n >= 10 {
        push_decimal(out, n / 10);
    }
    out.push((n % 10) as u8 + 48);
    proof {
        if n < 10 {
            assert(old(out)@ + spec_dec_digits(n as int) =~= old(out)@.push((n as int + 48) as u8));
        } else {
            assert(old(out)@ + spec_dec_digits(n as int) =~= (old(out)@ + spec_dec_digits(
                n as int / 10,
            )).push((n as int % 10 + 48) as u8));
        }
    }
}

/// Serializes a frequency table in the legacy textual header form:
/// `<count>:<byte>` pairs each followed by `,`.
pub fn build_header(freq_table: &FreqTable) -> (r: Vec<u8>)
    ensures
        r@ == spec_text_header(freq_table@),
{
    let k = freq_table.len();
    let mut out: Vec<u8> = Vec::new();
    let mut i: usize = 0;
    proof {
        assert(freq_table@.take(0int) =~= Seq::<(u8, usize)>::empty());
    }
    while i < k
        invariant
            i <= k,
            k == freq_table@.len(),
            out@ == spec_text_header(freq_table@.take(i as int)),
        decreases k - i,
    {
        let e = freq_table.entry_at(i);
        push_decimal(&mut out, e.1);
        out.push(58);
        out.push(e.0);
        out.push(44);
        proof {
            let single = seq![freq_table@[i as int]];
            assert(freq_table@.take(i + 1) =~= freq_table@.take(i as int) + single);
            lemma_text_header_append(freq_table@.take(i as int), single);
            assert(single.drop_first() =~= Seq::<(u8, usize)>::empty());
            assert(spec_text_header(Seq::<(u8, usize)>::empty()) =~= Seq::<u8>::empty());
            assert(spec_text_header(single) =~= spec_dec_digits(single[0].1 as int) + seq![
                58u8,
                single[0].0,
                44u8,
            ]);
            assert(out@ =~= spec_text_header(freq_table@.take(i + 1)));
        }
        i = i + 1;
    }
    proof {
        assert(freq_table@.take(k as int) =~= freq_table@);
    }
    out
}

} // verus!
