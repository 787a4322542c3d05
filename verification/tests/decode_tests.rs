use compression_tool::{parse_header, FreqTable};

fn table_from(pairs: &[(u8, usize)]) -> FreqTable {
    let mut t = FreqTable::new();
    for &(b, c) in pairs {
        t.insert(b, c);
    }
    t
}

#[test]
fn test_parse_header() {
    let header1 = b"61458:\n".to_vec();
    let expected_result1 = table_from(&[(b'\n', 61458)]);
    assert_eq!(parse_header(&header1), expected_result1);

    let header2 = b"12:3,45: ,678:\n".to_vec();
    let expected_result2 = table_from(&[(b'3', 12), (b' ', 45), (b'\n', 678)]);
    assert_eq!(parse_header(&header2), expected_result2);

    let header3 = b"1:2,3:a,45: ,55:\n".to_vec();
    let expected_result3 = table_from(&[(b'2', 1), (b'a', 3), (b' ', 45), (b'\n', 55)]);
    assert_eq!(parse_header(&header3), expected_result3);

    let header5 = b"55:  ,49:.,125678:~".to_vec();
    let expected_result5 = table_from(&[(b' ', 55), (b'.', 49), (b'~', 125678)]);
    assert_eq!(parse_header(&header5), expected_result5);

    let header6 = b"2:'".to_vec();
    let expected_result6 = table_from(&[(b'\'', 2)]);
    assert_eq!(parse_header(&header6), expected_result6);
}

#[test]
fn parse_header_ignores_items_without_colon() {
    let header = b"12,34:x".to_vec();
    let expected = table_from(&[(b'x', 34)]);
    assert_eq!(parse_header(&header), expected);
}

#[test]
fn parse_header_ignores_bad_counts() {
    let header = b"abc:x,0:y,7:z".to_vec();
    let expected = table_from(&[(b'z', 7)]);
    assert_eq!(parse_header(&header), expected);
}

#[test]
fn parse_header_of_empty_header_is_empty() {
    let header = Vec::new();
    assert_eq!(parse_header(&header), FreqTable::new());
}
