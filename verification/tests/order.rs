use warehouse_lab::order::{goes_before, sort_rows};

#[test]
fn bytes_are_ordered_as_in_a_dictionary() {
    let texts: [&[u8]; 5] = [b"", b"a", b"aa", b"ab", b"b"];
    for (i, left) in texts.iter().enumerate() {
        for (j, right) in texts.iter().enumerate() {
            assert_eq!(goes_before(left, right), i < j);
        }
    }
}

#[test]
fn rows_are_sorted_by_their_text() {
    let rows = vec![("b".to_string(), 1), ("\u{e9}".to_string(), 2), ("".to_string(), 3), ("a".to_string(), 4)];
    let sorted = sort_rows(&rows);
    assert_eq!(
        sorted,
        vec![("".to_string(), 3), ("a".to_string(), 4), ("b".to_string(), 1), ("\u{e9}".to_string(), 2)]
    );
    assert!(sort_rows(&[]).is_empty());
}
