//! The Huffman tree: built from a frequency table by repeatedly joining
//! the two lowest-frequency nodes.  Ties are broken deterministically —
//! among equal frequencies the node inserted earlier wins (leaves are
//! inserted in ascending byte order, joined nodes in creation order) —
//! so that the decoder reconstructs the encoder's tree from the
//! frequency table alone.

use vstd::prelude::*;

use crate::freq::{total_count, FreqTable};

verus! {

/// A strict binary tree node.  A leaf holds a byte value; an inner node
/// holds two children and the sum of their frequencies.
#[derive(Debug, PartialEq, Eq)]
pub struct TreeNode {
    pub val: Option<u8>,
    pub frequency: usize,
    pub left: Option<Box<TreeNode>>,
    pub right: Option<Box<TreeNode>>,
}

/// A node with no children.
pub open spec fn is_leaf(t: TreeNode) -> bool {
    t.left is None && t.right is None
}

/// The shape the builder guarantees: leaves carry a byte value, inner
/// nodes carry none, have both children, and sum their frequencies.
pub open spec fn wf_tree(t: TreeNode) -> bool
    decreases t,
{
    match (t.left, t.right) {
        (Option::None, Option::None) => t.val is Some,
        (Option::Some(l), Option::Some(r)) => {
            &&& t.val is None
            &&& t.frequency == l.frequency + r.frequency
            &&& wf_tree(*l)
            &&& wf_tree(*r)
        },
        _ => false,
    }
}

/// Every byte value recorded anywhere in the tree.
pub open spec fn leaf_bytes(t: TreeNode) -> Set<u8>
    decreases t,
{
    let base = match t.val {
        Option::Some(b) => Set::empty().insert(b),
        Option::None => Set::empty(),
    };
    let ls = match t.left {
        Option::Some(l) => leaf_bytes(*l),
        Option::None => Set::empty(),
    };
    let rs = match t.right {
        Option::Some(r) => leaf_bytes(*r),
        Option::None => Set::empty(),
    };
    base.union(ls).union(rs)
}

/// The leaf for one table entry.
pub open spec fn leaf_node(b: u8, c: usize) -> TreeNode {
    TreeNode { val: Some(b), frequency: c, left: None, right: None }
}

/// One leaf per table entry, in table (ascending byte) order.
pub open spec fn leaves_of(s: Seq<(u8, usize)>) -> Seq<TreeNode>
    decreases s.len(),
{
    if s.len() == 0 {
        Seq::empty()
    } else {
        leaves_of(s.drop_last()).push(leaf_node(s.last().0, s.last().1))
    }
}

/// Sum of the frequencies of a work list of nodes.
pub open spec fn sum_freqs(s: Seq<TreeNode>) -> int
    decreases s.len(),
{
    if s.len() == 0 {
        0
    } else {
        sum_freqs(s.drop_last()) + s.last().frequency
    }
}

/// The index of the lowest-frequency node; on ties the earliest index.
pub open spec fn min_idx(s: Seq<TreeNode>) -> int
    recommends
        s.len() >= 1,
    decreases s.len(),
{
    if s.len() <= 1 {
        0
    } else {
        let m = min_idx(s.drop_last());
        if s.last().frequency < s[m].frequency {
            s.len() - 1
        } else {
            m
        }
    }
}

/// The inner node joining two subtrees.
pub open spec fn join_nodes(a: TreeNode, b: TreeNode) -> TreeNode {
    TreeNode {
        val: None,
        frequency: (a.frequency + b.frequency) as usize,
        left: Some(Box::new(a)),
        right: Some(Box::new(b)),
    }
}

/// The greedy merge: take the two lowest-frequency nodes out of the work
/// list, join them, append the joined node, until one node remains.
pub open spec fn merge_nodes(s: Seq<TreeNode>) -> Option<TreeNode>
    decreases s.len(),
        via merge_nodes_decreases
{
    if s.len() == 0 {
        None
    } else if s.len() == 1 {
        Some(s[0])
    } else {
        let i = min_idx(s);
        let a = s[i];
        let s1 = s.remove(i);
        let j = min_idx(s1);
        let b = s1[j];
        merge_nodes(s1.remove(j).push(join_nodes(a, b)))
    }
}

#[via_fn]
proof fn merge_nodes_decreases(s: Seq<TreeNode>) {
    if s.len() >= 2 {
        lemma_min_idx_range(s);
        lemma_min_idx_range(s.remove(min_idx(s)));
    }
}

/// The tree a frequency table determines: `None` only for an empty table.
pub open spec fn spec_build_tree(entries: Seq<(u8, usize)>) -> Option<TreeNode> {
    merge_nodes(leaves_of(entries))
}

/// Every byte value recorded anywhere in a work list of nodes.
pub open spec fn seq_leaf_bytes(s: Seq<TreeNode>) -> Set<u8>
    decreases s.len(),
{
    if s.len() == 0 {
        Set::empty()
    } else {
        seq_leaf_bytes(s.drop_last()).union(leaf_bytes(s.last()))
    }
}

/// The set of byte values a frequency table records.
pub open spec fn table_keys(s: Seq<(u8, usize)>) -> Set<u8>
    decreases s.len(),
{
    if s.len() == 0 {
        Set::empty()
    } else {
        table_keys(s.drop_last()).insert(s.last().0)
    }
}

pub proof fn lemma_min_idx_range(s: Seq<TreeNode>)
    requires
        s.len() >= 1,
    ensures
        0 <= min_idx(s) < s.len(),
    decreases s.len(),
{
    if s.len() > 1 {
        lemma_min_idx_range(s.drop_last());
    }
}

pub proof fn lemma_sum_push(s: Seq<TreeNode>, x: TreeNode)
    ensures
        sum_freqs(s.push(x)) == sum_freqs(s) + x.frequency,
{
    assert(s.push(x).drop_last() =~= s);
}

pub proof fn lemma_sum_remove(s: Seq<TreeNode>, i: int)
    requires
        0 <= i < s.len(),
    ensures
        sum_freqs(s.remove(i)) == sum_freqs(s) - s[i].frequency,
    decreases s.len(),
{
    if i == s.len() - 1 {
        assert(s.remove(i) =~= s.drop_last());
    } else {
        assert(s.remove(i).drop_last() =~= s.drop_last().remove(i));
        assert(s.remove(i).last() == s.last());
        lemma_sum_remove(s.drop_last(), i);
    }
}

pub proof fn lemma_sum_nonneg(s: Seq<TreeNode>)
    ensures
        sum_freqs(s) >= 0,
    decreases s.len(),
{
    if s.len() > 0 {
        lemma_sum_nonneg(s.drop_last());
    }
}

pub proof fn lemma_sum_leaves(entries: Seq<(u8, usize)>)
    ensures
        sum_freqs(leaves_of(entries)) == total_count(entries),
    decreases entries.len(),
{
    if entries.len() > 0 {
        lemma_sum_leaves(entries.drop_last());
        lemma_sum_push(
            leaves_of(entries.drop_last()),
            leaf_node(entries.last().0, entries.last().1),
        );
    }
}

pub proof fn lemma_leaf_bytes_push(s: Seq<TreeNode>, x: TreeNode)
    ensures
        seq_leaf_bytes(s.push(x)) == seq_leaf_bytes(s).union(leaf_bytes(x)),
{
    assert(s.push(x).drop_last() =~= s);
}

pub proof fn lemma_leaf_bytes_remove(s: Seq<TreeNode>, i: int)
    requires
        0 <= i < s.len(),
    ensures
        seq_leaf_bytes(s) == seq_leaf_bytes(s.remove(i)).union(leaf_bytes(s[i])),
    decreases s.len(),
{
    if i == s.len() - 1 {
        assert(s.remove(i) =~= s.drop_last());
    } else {
        assert(s.remove(i).drop_last() =~= s.drop_last().remove(i));
        assert(s.remove(i).last() == s.last());
        lemma_leaf_bytes_remove(s.drop_last(), i);
        assert(seq_leaf_bytes(s) =~= seq_leaf_bytes(s.remove(i)).union(leaf_bytes(s[i])));
    }
}

pub proof fn lemma_leaf_bytes_of_leaves(entries: Seq<(u8, usize)>)
    ensures
        seq_leaf_bytes(leaves_of(entries)) == table_keys(entries),
    decreases entries.len(),
{
    if entries.len() > 0 {
        lemma_leaf_bytes_of_leaves(entries.drop_last());
        lemma_leaf_bytes_push(
            leaves_of(entries.drop_last()),
            leaf_node(entries.last().0, entries.last().1),
        );
        assert(seq_leaf_bytes(leaves_of(entries)) =~= table_keys(entries));
    } else {
        assert(seq_leaf_bytes(leaves_of(entries)) =~= table_keys(entries));
    }
}

/// A byte is a table key exactly when the table records a count for it.
pub proof fn lemma_table_keys_lookup(s: Seq<(u8, usize)>, b: u8)
    ensures
        table_keys(s).contains(b) <==> crate::freq::lookup(s, b) is Some,
    decreases s.len(),
{
    if s.len() > 0 {
        lemma_table_keys_lookup(s.drop_last(), b);
    }
}

/// What the greedy merge guarantees: it succeeds on a non-empty work list
/// of well-formed nodes, keeps the frequency sum as the root frequency,
/// keeps the recorded byte values, and yields an inner root whenever two
/// or more nodes were present.
pub proof fn lemma_merge_props(s: Seq<TreeNode>)
    requires
        s.len() >= 1,
        forall|k: int| 0 <= k < s.len() ==> wf_tree(#[trigger] s[k]),
        sum_freqs(s) <= usize::MAX,
    ensures
        merge_nodes(s) is Some,
        wf_tree(merge_nodes(s).unwrap()),
        merge_nodes(s).unwrap().frequency == sum_freqs(s),
        leaf_bytes(merge_nodes(s).unwrap()) == seq_leaf_bytes(s),
        s.len() >= 2 ==> !is_leaf(merge_nodes(s).unwrap()),
    decreases s.len(),
{
    if s.len() == 1 {
        assert(s.drop_last() =~= Seq::<TreeNode>::empty());
        assert(seq_leaf_bytes(Seq::<TreeNode>::empty()) == Set::<u8>::empty());
        assert(sum_freqs(Seq::<TreeNode>::empty()) == 0);
        assert(s.last() == s[0]);
        assert(seq_leaf_bytes(s) == Set::<u8>::empty().union(leaf_bytes(s[0])));
        assert(seq_leaf_bytes(s) =~= leaf_bytes(s[0]));
        assert(sum_freqs(s) == s[0].frequency);
    } else {
        let i = min_idx(s);
        lemma_min_idx_range(s);
        let a = s[i];
        let s1 = s.remove(i);
        let j = min_idx(s1);
        lemma_min_idx_range(s1);
        let b = s1[j];
        let s2 = s1.remove(j);
        let m = join_nodes(a, b);
        let s3 = s2.push(m);

        lemma_sum_remove(s, i);
        lemma_sum_remove(s1, j);
        lemma_sum_nonneg(s2);
        assert(a.frequency + b.frequency <= sum_freqs(s));
        assert(m.frequency == a.frequency + b.frequency);
        assert(wf_tree(a) && wf_tree(b));
        assert(wf_tree(m));
        lemma_sum_push(s2, m);
        assert(sum_freqs(s3) == sum_freqs(s));

        assert(forall|k: int| 0 <= k < s2.len() ==> wf_tree(#[trigger] s2[k]));
        assert(forall|k: int| 0 <= k < s3.len() ==> wf_tree(#[trigger] s3[k]));

        lemma_leaf_bytes_remove(s, i);
        lemma_leaf_bytes_remove(s1, j);
        lemma_leaf_bytes_push(s2, m);
        assert(leaf_bytes(m) =~= leaf_bytes(a).union(leaf_bytes(b)));
        assert(seq_leaf_bytes(s3) =~= seq_leaf_bytes(s));

        lemma_merge_props(s3);
        assert(merge_nodes(s) == merge_nodes(s3));
        if s3.len() == 1 {
            assert(merge_nodes(s3) == Some(s3[0]));
            assert(s3[0] == m);
            assert(!is_leaf(m));
        }
    }
}

/// Finds the lowest-frequency node, preferring the earliest on ties.
fn find_min(nodes: &Vec<TreeNode>) -> (r: usize)
    requires
        nodes@.len() >= 1,
    ensures
        r == min_idx(nodes@),
        r < nodes@.len(),
{
    let mut best: usize = 0;
    let mut i: usize = 1;
    proof {
        assert(nodes@.take(1).len() == 1);
    }
    while i < nodes.len()
        invariant
            1 <= i <= nodes@.len(),
            best < i,
            best == min_idx(nodes@.take(i as int)),
        decreases nodes@.len() - i,
    {
        proof {
            assert(nodes@.take(i + 1).drop_last() =~= nodes@.take(i as int));
            assert(nodes@.take(i + 1).last() == nodes@[i as int]);
            assert(nodes@.take(i + 1)[best as int] == nodes@[best as int]);
        }
        if nodes[i].frequency < nodes[best].frequency {
            best = i;
        }
        i = i + 1;
    }
    proof {
        assert(nodes@.take(nodes@.len() as int) =~= nodes@);
    }
    best
}

impl TreeNode {
    /// Builds the Huffman tree for a frequency table: one leaf per entry,
    /// then greedy lowest-frequency joins until a single root remains.
    /// Returns `None` exactly when the table is empty.
    pub fn build_huffman_tree(freq_table: &FreqTable) -> (r: Option<TreeNode>)
        requires
            freq_table.wf(),
            total_count(freq_table@) <= usize::MAX,
        ensures
            r == spec_build_tree(freq_table@),
            r is Some <==> freq_table@.len() >= 1,
            r is Some ==> wf_tree(r.unwrap()) && r.unwrap().frequency == total_count(freq_table@)
                && leaf_bytes(r.unwrap()) == table_keys(freq_table@),
            freq_table@.len() >= 2 && r is Some ==> !is_leaf(r.unwrap()),
    {
        let ghost full = freq_table@;
        let k = freq_table.len();
        let mut nodes: Vec<TreeNode> = Vec::new();
        let mut idx: usize = 0;
        proof {
            assert(full.take(0int) =~= Seq::<(u8, usize)>::empty());
        }
        while idx < k
            invariant
                idx <= k,
                k == full.len(),
                full == freq_table@,
                nodes@ == leaves_of(full.take(idx as int)),
            decreases k - idx,
        {
            let e = freq_table.entry_at(idx);
            nodes.push(TreeNode { val: Some(e.0), frequency: e.1, left: None, right: None });
            proof {
                assert(full.take(idx + 1).drop_last() =~= full.take(idx as int));
                assert(full.take(idx + 1).last() == full[idx as int]);
            }
            idx = idx + 1;
        }
        proof {
            assert(full.take(k as int) =~= full);
            lemma_sum_leaves(full);
            lemma_leaf_bytes_of_leaves(full);
            lemma_leaves_wf(full);
            if k >= 1 {
                lemma_merge_props(nodes@);
            }
        }
        let ghost total = total_count(full);
        while nodes.len() > 1
            invariant
                merge_nodes(nodes@) == spec_build_tree(full),
                sum_freqs(nodes@) == total,
                total <= usize::MAX,
            decreases nodes@.len(),
        {
            let ghost s = nodes@;
            let i = find_min(&nodes);
            let a = nodes.remove(i);
            let ghost s1 = nodes@;
            let j = find_min(&nodes);
            let b = nodes.remove(j);
            let ghost s2 = nodes@;
            proof {
                lemma_sum_remove(s, i as int);
                lemma_sum_remove(s1, j as int);
                lemma_sum_nonneg(s2);
            }
            let ghost ga = a;
            let ghost gb = b;
            let merged = TreeNode {
                val: None,
                frequency: a.frequency + b.frequency,
                left: Some(Box::new(a)),
                right: Some(Box::new(b)),
            };
            proof {
                assert(merged == join_nodes(ga, gb));
            }
            nodes.push(merged);
            proof {
                assert(nodes@ == s.remove(i as int).remove(j as int).push(join_nodes(ga, gb)));
                assert(merge_nodes(s) == merge_nodes(nodes@));
                lemma_sum_push(s2, merged);
            }
        }
        let ghost fin = nodes@;
        let r = nodes.pop();
        proof {
            if fin.len() == 1 {
                assert(merge_nodes(fin) == Some(fin[0]));
                assert(fin.last() == fin[0]);
            } else {
                assert(fin.len() == 0);
                assert(merge_nodes(fin) is None);
            }
        }
        r
    }
}

/// Leaves made from well-formed table entries are well-formed nodes.
pub proof fn lemma_leaves_wf(entries: Seq<(u8, usize)>)
    ensures
        leaves_of(entries).len() == entries.len(),
        forall|k: int|
            0 <= k < entries.len() ==> #[trigger] leaves_of(entries)[k] == leaf_node(
                entries[k].0,
                entries[k].1,
            ),
        forall|k: int| 0 <= k < entries.len() ==> wf_tree(#[trigger] leaves_of(entries)[k]),
    decreases entries.len(),
{
    if entries.len() > 0 {
        lemma_leaves_wf(entries.drop_last());
    }
}

} // verus!
