use compression_tool::{
    build_header, build_prefix_table, character_frequencies, encode_msg, parse_header,
    FreqTable, PrefixTable, TreeNode,
};

#[test]
fn test_character_frequencies() {
    let data = b"abccba".to_vec();

    let frequencies = character_frequencies(&data);

    assert_eq!(frequencies.get(b'a'), Some(2));
    assert_eq!(frequencies.get(b'b'), Some(2));
    assert_eq!(frequencies.get(b'c'), Some(2));

    let data2 = b"xyz".to_vec();

    let frequencies2 = character_frequencies(&data2);

    assert_eq!(frequencies2.get(b'x'), Some(1));
    assert_eq!(frequencies2.get(b'y'), Some(1));
    assert_eq!(frequencies2.get(b'z'), Some(1));
}

#[test]
fn test_build_prefix_table() {
    // Example tree structure:   a:5
    //                         /   \
    //                        b:2     c:3
    //                       / \   / \
    //                      d:1 e:1 f:2 g:1

    let leaf_d = TreeNode { val: Some(b'd'), frequency: 1, left: None, right: None };

    let leaf_e = TreeNode { val: Some(b'e'), frequency: 1, left: None, right: None };

    let leaf_f = TreeNode { val: Some(b'f'), frequency: 2, left: None, right: None };

    let leaf_g = TreeNode { val: Some(b'g'), frequency: 1, left: None, right: None };

    let node_b = TreeNode {
        val: Some(b'b'),
        frequency: 2,
        left: Some(Box::new(leaf_d)),
        right: Some(Box::new(leaf_e)),
    };

    let node_c = TreeNode {
        val: Some(b'c'),
        frequency: 3,
        left: Some(Box::new(leaf_f)),
        right: Some(Box::new(leaf_g)),
    };

    let root = TreeNode {
        val: Some(b'a'),
        frequency: 5,
        left: Some(Box::new(node_b)),
        right: Some(Box::new(node_c)),
    };

    let prefix_table = build_prefix_table(&Some(root));

    let code_a: Vec<bool> = vec![];
    let code_b: Vec<bool> = vec![false];
    let code_c: Vec<bool> = vec![true];
    let code_d: Vec<bool> = vec![false, false];
    let code_e: Vec<bool> = vec![false, true];
    let code_f: Vec<bool> = vec![true, false];
    let code_g: Vec<bool> = vec![true, true];
    assert_eq!(prefix_table.get(b'a'), Some(&code_a));
    assert_eq!(prefix_table.get(b'b'), Some(&code_b));
    assert_eq!(prefix_table.get(b'c'), Some(&code_c));
    assert_eq!(prefix_table.get(b'd'), Some(&code_d));
    assert_eq!(prefix_table.get(b'e'), Some(&code_e));
    assert_eq!(prefix_table.get(b'f'), Some(&code_f));
    assert_eq!(prefix_table.get(b'g'), Some(&code_g));
}

#[test]
fn encode_msg_fails_without_codes() {
    let data = b"a".to_vec();
    let empty_table = PrefixTable::new();
    assert_eq!(encode_msg(&data, &empty_table), None);
}

#[test]
fn build_header_writes_count_colon_byte_comma() {
    let mut t = FreqTable::new();
    t.insert(b'a', 5);
    t.insert(b'b', 12);
    assert_eq!(build_header(&t), b"5:a,12:b,".to_vec());
}

#[test]
fn text_header_round_trips_for_delimiter_free_tables() {
    let mut t = FreqTable::new();
    t.insert(b'a', 61458);
    t.insert(b'\n', 2);
    t.insert(b' ', 7);
    assert_eq!(parse_header(&build_header(&t)), t);
}
