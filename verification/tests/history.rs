use warehouse_lab::binary::{decode_operation, encode_operation};
use warehouse_lab::codec::CodecError;
use warehouse_lab::history::{
    complete_binary_history_migration, history_len, history_row, index_end, index_key, index_prefix,
    materialize_history_batch, migration_restart, prepare_binary_history_migration, read_history_record,
    HistoryRecord, InvalidIndexKey, MigrationStart, Page,
};
use warehouse_lab::model::Operation;

fn operation(id: &str, owner: &str) -> Operation {
    Operation { operation_id: id.into(), owner_id: owner.into(), sku: "s".into(), delta: 1, event_version: 1 }
}

fn pages(ids: &[&str], limit: usize) -> Vec<Vec<String>> {
    let prefix = index_prefix("o");
    let mut result = Vec::new();
    let mut cursor: Option<String> = None;
    loop {
        let mut page = Page::new(cursor.clone(), limit);
        for id in ids {
            if page.wants_indexed(prefix.len(), &index_key("o", id)).unwrap() {
                let payload = encode_operation(&operation(id, "o")).unwrap();
                if page.push_record(&payload).unwrap() {
                    break;
                }
            }
        }
        let found = page.into_operations().into_iter().map(|op| op.operation_id).collect::<Vec<_>>();
        cursor = found.last().cloned();
        let full = found.len() == limit;
        result.push(found);
        if !full {
            return result;
        }
    }
}

#[test]
fn index_keys_have_a_zero_byte_between() {
    assert_eq!(index_prefix("ab"), b"ab\0");
    assert_eq!(index_key("ab", "id"), b"ab\0id");
    assert_eq!(index_end(b"ab\0"), b"ab\0\xff");
}

#[test]
fn range_of_a_value_holds_its_keys_alone() {
    let prefix = index_prefix("owner");
    let end = index_end(&prefix);
    for id in ["", "a", "\u{10ffff}\u{10ffff}", "zzz"] {
        let key = index_key("owner", id);
        assert!(key >= prefix && key < end);
    }
    for other in ["owne", "owner1", "owner-", "p", "owner\u{1}"] {
        let key = index_key(other, "id");
        assert!(!(key >= prefix && key < end));
    }
}

#[test]
fn pages_follow_without_gap() {
    let ids = ["a", "b", "c", "d", "e"];
    assert_eq!(pages(&ids, 2), vec![vec!["a", "b"], vec!["c", "d"], vec!["e"]]);
    assert_eq!(pages(&ids, 5), vec![vec!["a", "b", "c", "d", "e"], vec![]]);
    assert_eq!(pages(&ids, 9), vec![vec!["a", "b", "c", "d", "e"]]);
    assert_eq!(pages(&[], 3), vec![Vec::<String>::new()]);
}

#[test]
fn index_key_must_end_in_a_text() {
    let page = Page::new(None, 1);
    assert_eq!(page.wants_indexed(2, &[b'o', 0, 0xff]), Err(InvalidIndexKey));
    assert_eq!(page.wants_indexed(2, &[b'o', 0, b'x']), Ok(true));
}

#[test]
fn scan_leaves_out_the_cursor_itself() {
    let page = Page::new(Some("b".into()), 10);
    assert!(!page.wants_scanned(b"b"));
    assert!(page.wants_scanned(b"c"));
    assert!(Page::new(None, 10).wants_scanned(b"b"));
}

#[test]
fn damaged_record_stays_off_the_page() {
    let mut page = Page::new(None, 1);
    assert_eq!(page.push_record(b"nothing"), Err(CodecError::WrongMagic));
    assert!(page.needs_older(0));
    assert!(!page.needs_older(1));
    assert!(page.push(operation("a", "o")));
    assert!(!page.needs_older(0));
    assert_eq!(page.into_operations(), vec![operation("a", "o")]);
}

#[test]
fn row_leads_to_its_operation() {
    let op = operation("id-1", "owner");
    let row = history_row(&op).unwrap();
    assert_eq!(row.key, b"id-1");
    assert_eq!(row.owner_key, b"owner\0id-1");
    assert_eq!(row.sku_key, b"s\0id-1");
    assert_eq!(decode_operation(&row.payload).unwrap(), op);
}

#[test]
fn records_become_one_batch() {
    let records = vec![
        (4, 1, vec![operation("a", "o"), operation("b", "o")]),
        (5, 1, Vec::new()),
        (6, 2, vec![operation("c", "p")]),
    ];
    let batch = materialize_history_batch(&records).unwrap().unwrap();
    assert_eq!((batch.sequence, batch.epoch), (6, 2));
    assert_eq!(batch.rows.iter().map(|row| row.key.clone()).collect::<Vec<_>>(), vec![b"a".to_vec(), b"b".to_vec(), b"c".to_vec()]);
    assert!(materialize_history_batch(&[]).unwrap().is_none());
    let long = Operation { sku: "s".repeat(70_000), ..operation("x", "o") };
    assert_eq!(materialize_history_batch(&[(1, 1, vec![long])]).unwrap_err(), CodecError::StringTooLong);
}

#[test]
fn older_rows_are_told_apart() {
    let op = operation("a", "o");
    match read_history_record(&encode_operation(&op).unwrap()) {
        HistoryRecord::Operation(found) => assert_eq!(found, op),
        HistoryRecord::Legacy => panic!("unexpected older row"),
    }
    assert!(matches!(read_history_record(b"{}"), HistoryRecord::Legacy));
}

#[test]
fn migration_starts_over_once() {
    assert_eq!(prepare_binary_history_migration(0), MigrationStart::Restart);
    assert_eq!(migration_restart(), vec![(1, 0), (2, 0), (3, 1), (4, 1)]);
    assert_eq!(prepare_binary_history_migration(1), MigrationStart::Resume);
    assert_eq!(complete_binary_history_migration(), vec![(3, 2), (4, 2)]);
    assert_eq!(prepare_binary_history_migration(2), MigrationStart::Resume);
}

#[test]
fn older_history_counts_where_the_current_one_is_empty() {
    assert_eq!(history_len(0, 7), 7);
    assert_eq!(history_len(3, 7), 3);
}

#[test]
fn page_holds_what_comes_after_any_cursor() {
    let ids = ["b", "d", "f", "h"];
    let prefix = index_prefix("o");
    for (cursor, expected) in [
        (None, vec!["b", "d"]),
        (Some("a"), vec!["b", "d"]),
        (Some("c"), vec!["d", "f"]),
        (Some("d"), vec!["f", "h"]),
        (Some("g"), vec!["h"]),
        (Some("z"), vec![]),
        (Some(""), vec!["b", "d"]),
    ] {
        let mut page = Page::new(cursor.map(String::from), 2);
        for id in ids {
            if page.wants_indexed(prefix.len(), &index_key("o", id)).unwrap() && page.push(operation(id, "o")) {
                break;
            }
        }
        let found = page.into_operations().into_iter().map(|op| op.operation_id).collect::<Vec<_>>();
        assert_eq!(found, expected);
    }
}
