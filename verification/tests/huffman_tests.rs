use compression_tool::{build_prefix_table, FreqTable, TreeNode};

#[test]
fn test_build_huffman_tree() {
    let mut freq_map = FreqTable::new();
    freq_map.insert(b'a', 5);
    freq_map.insert(b'b', 9);
    freq_map.insert(b'c', 12);
    freq_map.insert(b'd', 13);
    freq_map.insert(b'e', 16);
    freq_map.insert(b'f', 45);

    if let Some(root) = TreeNode::build_huffman_tree(&freq_map) {
        assert_eq!(root.frequency, 100);
    } else {
        panic!("Failed to build Huffman Tree");
    }
}

#[test]
fn build_huffman_tree_of_empty_table_is_none() {
    let empty = FreqTable::new();
    assert_eq!(TreeNode::build_huffman_tree(&empty), None);
}

#[test]
fn build_huffman_tree_of_single_entry_is_a_leaf() {
    let mut t = FreqTable::new();
    t.insert(b'a', 4);
    let root = TreeNode::build_huffman_tree(&t).unwrap();
    assert_eq!(root.val, Some(b'a'));
    assert_eq!(root.frequency, 4);
    assert!(root.left.is_none());
    assert!(root.right.is_none());
}

#[test]
fn tree_reconstruction_is_deterministic() {
    let mut t = FreqTable::new();
    t.insert(b'a', 2);
    t.insert(b'b', 2);
    t.insert(b'c', 2);
    let t1 = TreeNode::build_huffman_tree(&t);
    let t2 = TreeNode::build_huffman_tree(&t);
    assert_eq!(t1, t2);
    let p1 = build_prefix_table(&t1);
    let p2 = build_prefix_table(&t2);
    for b in 0..=255u8 {
        assert_eq!(p1.get(b), p2.get(b));
    }
}

#[test]
fn equal_frequencies_break_ties_by_insertion_order() {
    // three symbols with equal counts: the two earliest (lowest byte
    // values) are joined first, and the third becomes the left child
    // of the root
    let mut t = FreqTable::new();
    t.insert(b'a', 2);
    t.insert(b'b', 2);
    t.insert(b'c', 2);
    let root = TreeNode::build_huffman_tree(&t).unwrap();
    assert_eq!(root.frequency, 6);
    let left = *root.left.unwrap();
    let right = *root.right.unwrap();
    assert_eq!(left.val, Some(b'c'));
    assert_eq!(right.left.unwrap().val, Some(b'a'));
    assert_eq!(right.right.unwrap().val, Some(b'b'));
}
