//! The operation history on the disk: its rows, the index keys by owner and by
//! stock-keeping unit, and the pages that are read from it.

use vstd::prelude::*;
use vstd::utf8::{encode_scalar, encode_utf8, encode_utf8_decode_utf8, valid_utf8};

use crate::binary::{
    decode_operation, encode_operation, law_operation_round_trip, op_fits, op_record, read_op_record,
};
use crate::codec::{put_bytes, utf8_text, CodecError};
use crate::model::{operation_views, Operation, OperationView};
use crate::order::{bytes_before, goes_before, lemma_before_antisymmetric, splits_at};
use crate::snapshot::same_bytes;

verus! {

/// The metadata keys of the history.
pub const HISTORY_SEQUENCE: u8 = 1;

pub const HISTORY_EPOCH: u8 = 2;

pub const HISTORY_BINARY_MIGRATION: u8 = 3;

pub const HISTORY_LSM_ID_FORMAT: u8 = 4;

// ---------------------------------------------------------------- index keys
/// What the index keys of a value begin with: its text and a zero byte.
pub open spec fn prefix_of(value: Seq<char>) -> Seq<u8> {
    encode_utf8(value).push(0)
}

/// The index key of an operation under a value.
pub open spec fn index_key_of(value: Seq<char>, operation_id: Seq<char>) -> Seq<u8> {
    prefix_of(value) + encode_utf8(operation_id)
}

/// What the index keys of a value begin with.
pub fn index_prefix(value: &str) -> (prefix: Vec<u8>)
    ensures
        prefix@ == prefix_of(value@),
{
    let mut prefix: Vec<u8> = Vec::new();
    put_bytes(&mut prefix, value.as_bytes());
    prefix.push(0);
    assert(prefix@ =~= prefix_of(value@));
    prefix
}

/// The index key of an operation under a value.
pub fn index_key(value: &str, operation_id: &str) -> (key: Vec<u8>)
    ensures
        key@ == index_key_of(value@, operation_id@),
{
    let mut key: Vec<u8> = index_prefix(value);
    put_bytes(&mut key, operation_id.as_bytes());
    key
}

/// The end of the range in which the index keys of a value lie: beyond the prefix
/// and any text after it.
pub fn index_end(prefix: &[u8]) -> (end: Vec<u8>)
    ensures
        end@ == prefix@.push(0xff),
{
    let mut end: Vec<u8> = Vec::new();
    put_bytes(&mut end, prefix);
    end.push(0xff);
    assert(end@ =~= prefix@.push(0xff));
    end
}

/// Whether a key lies in the range from a prefix to its end.
pub open spec fn in_range(key: Seq<u8>, prefix: Seq<u8>) -> bool {
    !bytes_before(key, prefix) && bytes_before(key, prefix.push(0xff))
}

/// Whether one byte string begins with another.
pub open spec fn begins_with(key: Seq<u8>, prefix: Seq<u8>) -> bool {
    prefix.len() <= key.len() && key.take(prefix.len() as int) == prefix
}

/// Every key in the range of a prefix begins with it.
pub proof fn law_range_keys_begin_with_the_prefix(key: Seq<u8>, prefix: Seq<u8>)
    requires
        in_range(key, prefix),
    ensures
        begins_with(key, prefix),
{
    let end = prefix.push(0xff);
    let k = choose|k: int| splits_at(key, end, k);
    if k < prefix.len() {
        assert forall|i: int| 0 <= i < k implies key[i] == prefix[i] by {
            assert(key[i] == end[i]);
        }
        assert(splits_at(key, prefix, k));
    } else {
        assert(key.take(prefix.len() as int) =~= prefix) by {
            assert forall|i: int| 0 <= i < prefix.len() implies key[i] == prefix[i] by {
                assert(key[i] == end[i]);
            }
        }
    }
}

proof fn lemma_first_byte(text: Seq<char>)
    requires
        text.len() > 0,
    ensures
        encode_utf8(text).len() > 0,
        encode_utf8(text)[0] < 0xff,
{
    let c = text[0] as u32;
    assert(((c & 0x7F) as u8) < 0xff) by (bit_vector);
    assert((0xC0u8 | (((c >> 6) & 0x1F) as u8)) < 0xff) by (bit_vector);
    assert((0xE0u8 | (((c >> 12) & 0x0F) as u8)) < 0xff) by (bit_vector);
    assert((0xF0u8 | (((c >> 18) & 0x7) as u8)) < 0xff) by (bit_vector);
    assert(encode_utf8(text)[0] == encode_scalar(c)[0]);
}

proof fn lemma_not_zero(c: char)
    requires
        c != '\0',
    ensures
        c as u32 != 0,
{
}

proof fn lemma_no_zero_byte(text: Seq<char>)
    requires
        !text.contains('\0'),
    ensures
        !encode_utf8(text).contains(0),
    decreases text.len(),
{
    if text.len() > 0 {
        let c = text[0] as u32;
        let rest = text.drop_first();
        assert(text[0] != '\0');
        lemma_not_zero(text[0]);
        assert(!rest.contains('\0')) by {
            if rest.contains('\0') {
                let i = choose|i: int| 0 <= i < rest.len() && rest[i] == '\0';
                assert(text[i + 1] == '\0');
            }
        }
        lemma_no_zero_byte(rest);
        assert(0 < c <= 0x7F ==> ((c & 0x7F) as u8) != 0) by (bit_vector);
        assert((0xC0u8 | (((c >> 6) & 0x1F) as u8)) != 0) by (bit_vector);
        assert((0xE0u8 | (((c >> 12) & 0x0F) as u8)) != 0) by (bit_vector);
        assert((0xF0u8 | (((c >> 18) & 0x7) as u8)) != 0) by (bit_vector);
        assert((0x80u8 | ((c & 0x3F) as u8)) != 0) by (bit_vector);
        assert((0x80u8 | (((c >> 6) & 0x3F) as u8)) != 0) by (bit_vector);
        assert((0x80u8 | (((c >> 12) & 0x3F) as u8)) != 0) by (bit_vector);
        let first = encode_scalar(c);
        assert forall|i: int| 0 <= i < first.len() implies first[i] != 0 by {}
        let all = encode_utf8(text);
        if all.contains(0) {
            let i = choose|i: int| 0 <= i < all.len() && all[i] == 0;
            if i >= first.len() {
                assert(encode_utf8(rest)[i - first.len()] == 0);
                assert(encode_utf8(rest).contains(0));
            }
        }
    }
}

/// The index key of every operation lies in the range of its value.
pub proof fn law_index_keys_lie_in_the_range(value: Seq<char>, operation_id: Seq<char>)
    ensures
        in_range(index_key_of(value, operation_id), prefix_of(value)),
{
    let prefix = prefix_of(value);
    let id = encode_utf8(operation_id);
    let key = index_key_of(value, operation_id);
    let end = prefix.push(0xff);
    if bytes_before(key, prefix) {
        let k = choose|k: int| splits_at(key, prefix, k);
        assert(key[k] == prefix[k]);
    }
    if operation_id.len() > 0 {
        lemma_first_byte(operation_id);
        assert(key[prefix.len() as int] == id[0]);
    } else {
        assert(id.len() == 0);
    }
    assert(splits_at(key, end, prefix.len() as int));
}

/// In the range of a value without a zero character lie only the index keys of
/// that value.
pub proof fn law_range_holds_one_value(
    value: Seq<char>,
    other: Seq<char>,
    operation_id: Seq<char>,
)
    requires
        !value.contains('\0'),
        !other.contains('\0'),
        in_range(index_key_of(other, operation_id), prefix_of(value)),
    ensures
        other == value,
{
    let a = encode_utf8(value);
    let b = encode_utf8(other);
    let key = index_key_of(other, operation_id);
    let prefix = prefix_of(value);
    lemma_no_zero_byte(value);
    lemma_no_zero_byte(other);
    law_range_keys_begin_with_the_prefix(key, prefix);
    assert forall|i: int| 0 <= i < prefix.len() implies key[i] == prefix[i] by {
        assert(key.take(prefix.len() as int)[i] == prefix[i]);
    }
    if a.len() < b.len() {
        assert(key[a.len() as int] == 0);
        assert(b[a.len() as int] == 0);
        assert(b.contains(0));
    } else if b.len() < a.len() {
        assert(key[b.len() as int] == 0);
        assert(a[b.len() as int] == 0);
        assert(a.contains(0));
    }
    assert forall|i: int| 0 <= i < a.len() implies a[i] == b[i] by {
        assert(key[i] == prefix[i]);
    }
    assert(a =~= b);
    encode_utf8_decode_utf8(value);
    encode_utf8_decode_utf8(other);
}

// ---------------------------------------------------------------- rows
/// A row of the history, with the keys that lead to it.
#[derive(Debug)]
pub struct HistoryRow {
    /// The operation identifier.
    pub key: Vec<u8>,
    /// The record of the operation.
    pub payload: Vec<u8>,
    /// The index key by owner.
    pub owner_key: Vec<u8>,
    /// The index key by stock-keeping unit.
    pub sku_key: Vec<u8>,
}

/// Whether a row is that of an operation.
pub open spec fn is_row_of(row: HistoryRow, op: OperationView) -> bool {
    &&& row.key@ == encode_utf8(op.operation_id)
    &&& row.payload@ == op_record(op)
    &&& row.owner_key@ == index_key_of(op.owner_id, op.operation_id)
    &&& row.sku_key@ == index_key_of(op.sku, op.operation_id)
}

/// The row of an operation.
pub fn history_row(operation: &Operation) -> (result: Result<HistoryRow, CodecError>)
    ensures
        match result {
            Ok(row) => op_fits(operation@) && is_row_of(row, operation@),
            Err(e) => !op_fits(operation@) && e == CodecError::StringTooLong,
        },
{
    let payload: Vec<u8> = encode_operation(operation)?;
    let mut key: Vec<u8> = Vec::new();
    put_bytes(&mut key, operation.operation_id.as_str().as_bytes());
    assert(key@ =~= encode_utf8(operation.operation_id@));
    Ok(
        HistoryRow {
            key,
            payload,
            owner_key: index_key(operation.owner_id.as_str(), operation.operation_id.as_str()),
            sku_key: index_key(operation.sku.as_str(), operation.operation_id.as_str()),
        },
    )
}

/// The operations of the first `n` records of the log, one after another.
pub open spec fn record_ops(records: Seq<(u64, u64, Vec<Operation>)>, n: int) -> Seq<OperationView>
    decreases n,
{
    if n <= 0 {
        Seq::empty()
    } else {
        record_ops(records, n - 1) + operation_views(records[n - 1].2@)
    }
}

/// What goes to the history from records of the log.
#[derive(Debug)]
pub struct HistoryBatch {
    pub rows: Vec<HistoryRow>,
    /// The position in the log that the history has come to.
    pub sequence: u64,
    /// The writer epoch at that position.
    pub epoch: u64,
}

/// Whether rows are those of operations.
pub open spec fn are_rows_of(rows: Seq<HistoryRow>, ops: Seq<OperationView>) -> bool {
    &&& rows.len() == ops.len()
    &&& forall|i: int| 0 <= i < rows.len() ==> is_row_of(#[trigger] rows[i], ops[i])
}

/// Whether every operation fits a record.
pub open spec fn all_fit(ops: Seq<OperationView>) -> bool {
    forall|i: int| 0 <= i < ops.len() ==> op_fits(#[trigger] ops[i])
}

/// What goes to the history from records of the log; nothing from no records.
pub fn materialize_history_batch(records: &[(u64, u64, Vec<Operation>)]) -> (result: Result<
    Option<HistoryBatch>,
    CodecError,
>)
    ensures
        ({
            let ops = record_ops(records@, records@.len() as int);
            match result {
                Ok(None) => records@.len() == 0,
                Ok(Some(batch)) => records@.len() > 0 && all_fit(ops) && are_rows_of(
                    batch.rows@,
                    ops,
                ) && batch.sequence == records@.last().0 && batch.epoch == records@.last().1,
                Err(e) => !all_fit(ops) && e == CodecError::StringTooLong,
            }
        }),
{
    if records.len() == 0 {
        return Ok(None);
    }
    let mut rows: Vec<HistoryRow> = Vec::new();
    let mut at: usize = 0;
    let ghost all = record_ops(records@, records@.len() as int);
    while at < records.len()
        invariant
            at <= records@.len(),
            all == record_ops(records@, records@.len() as int),
            all_fit(record_ops(records@, at as int)),
            are_rows_of(rows@, record_ops(records@, at as int)),
        decreases records@.len() - at,
    {
        let operations: &Vec<Operation> = &records[at].2;
        let ghost before = record_ops(records@, at as int);
        let ghost here = operation_views(operations@);
        let mut i: usize = 0;
        assert(before + here.take(0) =~= before);
        while i < operations.len()
            invariant
                i <= operations@.len(),
                at < records@.len(),
                all == record_ops(records@, records@.len() as int),
                before == record_ops(records@, at as int),
                *operations == records@[at as int].2,
                here == operation_views(operations@),
                all_fit(before + here.take(i as int)),
                are_rows_of(rows@, before + here.take(i as int)),
            decreases operations@.len() - i,
        {
            assert(here[i as int] == operations@[i as int]@);
            assert(before + here.take(i + 1) =~= (before + here.take(i as int)).push(here[i as int]));
            match history_row(&operations[i]) {
                Ok(row) => {
                    rows.push(row);
                },
                Err(e) => {
                    proof {
                        let n = (before + here.take(i as int)).len() as int;
                        lemma_record_ops(records@, at as int, records@.len() as int);
                        assert(all[n] == here[i as int]);
                        assert(!op_fits(all[n]));
                    }
                    return Err(e);
                },
            }
            i = i + 1;
        }
        assert(here.take(i as int) =~= here);
        at = at + 1;
    }
    let last: usize = records.len() - 1;
    Ok(Some(HistoryBatch { rows, sequence: records[last].0, epoch: records[last].1 }))
}

/// The operations of a record stand among those of all records.
proof fn lemma_record_ops(records: Seq<(u64, u64, Vec<Operation>)>, at: int, n: int)
    requires
        0 <= at < n <= records.len(),
    ensures
        ({
            let before = record_ops(records, at);
            let here = operation_views(records[at].2@);
            &&& record_ops(records, n).len() >= before.len() + here.len()
            &&& forall|i: int|
                0 <= i < here.len() ==> record_ops(records, n)[before.len() + i] == #[trigger] here[i]
        }),
    decreases n,
{
    if n > at + 1 {
        lemma_record_ops(records, at, n - 1);
    }
}

/// A row of the history reads back as its operation.
pub proof fn law_history_row_reads_back(row: HistoryRow, op: OperationView)
    requires
        op_fits(op),
        is_row_of(row, op),
    ensures
        read_op_record(row.payload@) == Ok::<OperationView, CodecError>(op),
{
    law_operation_round_trip(op);
}

/// A stored row, as far as it can be read here.
#[derive(Debug)]
pub enum HistoryRecord {
    /// A record in the current format.
    Operation(Operation),
    /// A record in the older text format, which is still to be parsed.
    Legacy,
}

/// Reads a row of the older history: a record, or else the older text format.
pub fn read_history_record(payload: &[u8]) -> (record: HistoryRecord)
    ensures
        match (read_op_record(payload@), record) {
            (Ok(op), HistoryRecord::Operation(operation)) => operation@ == op,
            (Err(_), HistoryRecord::Legacy) => true,
            _ => false,
        },
{
    match decode_operation(payload) {
        Ok(operation) => HistoryRecord::Operation(operation),
        Err(_) => HistoryRecord::Legacy,
    }
}

/// How many operations the history holds: the current one counts, and the older
/// one only where the current one is empty.
pub fn history_len(current: u64, older: u64) -> (len: u64)
    ensures
        len == if current > 0 {
            current
        } else {
            older
        },
        len == entries_held(current, older),
{
    if current > 0 {
        current
    } else {
        older
    }
}

// ---------------------------------------------------------------- migration
/// How the filling of the history goes on.
#[derive(Clone, Copy, Debug, PartialEq, Eq, Structural)]
pub enum MigrationStart {
    /// The history was never filled in the current format: it starts over.
    Restart,
    /// The history goes on from where it has come to.
    Resume,
}

/// How the filling of the history goes on, from the stored format state.
pub fn prepare_binary_history_migration(state: u64) -> (start: MigrationStart)
    ensures
        start == (if state == 0 {
            MigrationStart::Restart
        } else {
            MigrationStart::Resume
        }),
        start is Restart <==> starts_over(state),
{
    if state == 0 {
        MigrationStart::Restart
    } else {
        MigrationStart::Resume
    }
}

/// The metadata that a history that starts over is given.
pub open spec fn restart_metadata() -> Seq<(u8, u64)> {
    seq![
        (HISTORY_SEQUENCE, 0u64),
        (HISTORY_EPOCH, 0u64),
        (HISTORY_BINARY_MIGRATION, 1u64),
        (HISTORY_LSM_ID_FORMAT, 1u64),
    ]
}

/// The metadata that a filled history is given.
pub open spec fn completed_metadata() -> Seq<(u8, u64)> {
    seq![(HISTORY_BINARY_MIGRATION, 2u64), (HISTORY_LSM_ID_FORMAT, 2u64)]
}

/// The metadata that a history that starts over is given.
pub fn migration_restart() -> (writes: Vec<(u8, u64)>)
    ensures
        writes@ == restart_metadata(),
{
    let mut writes: Vec<(u8, u64)> = Vec::new();
    writes.push((HISTORY_SEQUENCE, 0));
    writes.push((HISTORY_EPOCH, 0));
    writes.push((HISTORY_BINARY_MIGRATION, 1));
    writes.push((HISTORY_LSM_ID_FORMAT, 1));
    assert(writes@ =~= restart_metadata());
    writes
}

/// The metadata that a filled history is given.
pub fn complete_binary_history_migration() -> (writes: Vec<(u8, u64)>)
    ensures
        writes@ == completed_metadata(),
{
    let mut writes: Vec<(u8, u64)> = Vec::new();
    writes.push((HISTORY_BINARY_MIGRATION, 2));
    writes.push((HISTORY_LSM_ID_FORMAT, 2));
    assert(writes@ =~= completed_metadata());
    writes
}

// ---------------------------------------------------------------- pages
/// A page that is being read from the history.
pub struct Page {
    cursor: Option<String>,
    limit: usize,
    operations: Vec<Operation>,
}

/// What a page that is being read says.
pub ghost struct PageView {
    /// The identifier after which the page begins.
    pub cursor: Option<Seq<char>>,
    pub limit: nat,
    pub operations: Seq<OperationView>,
}

impl View for Page {
    type V = PageView;

    closed spec fn view(&self) -> PageView {
        PageView {
            cursor: match self.cursor {
                Some(cursor) => Some(cursor@),
                None => None,
            },
            limit: self.limit as nat,
            operations: operation_views(self.operations@),
        }
    }
}

/// Whether an identifier comes after the cursor.
pub open spec fn after_cursor(cursor: Option<Seq<char>>, id: Seq<u8>) -> bool {
    match cursor {
        Some(cursor) => bytes_before(encode_utf8(cursor), id),
        None => true,
    }
}

/// An index key does not end in a text.
#[derive(Clone, Copy, Debug, PartialEq, Eq, Structural)]
pub struct InvalidIndexKey;

/// The text of an optional string.
pub open spec fn text_view(text: Option<String>) -> Option<Seq<char>> {
    match text {
        Some(text) => Some(text@),
        None => None,
    }
}

impl Page {
    /// A page of at most `limit` operations after the cursor.
    pub fn new(cursor: Option<String>, limit: usize) -> (page: Page)
        ensures
            page@ == (PageView {
                cursor: text_view(cursor),
                limit: limit as nat,
                operations: Seq::empty(),
            }),
            page@ == new_page(text_view(cursor), limit as nat),
    {
        let page: Page = Page { cursor, limit, operations: Vec::new() };
        assert(operation_views(page.operations@) =~= Seq::empty());
        page
    }

    /// Whether an entry of an index belongs on the page: its identifier comes after
    /// the cursor.
    pub fn wants_indexed(&self, prefix_len: usize, index_key: &[u8]) -> (result: Result<
        bool,
        InvalidIndexKey,
    >)
        requires
            prefix_len <= index_key@.len(),
        ensures
            ({
                let id = index_key@.skip(prefix_len as int);
                match result {
                    Ok(wanted) => valid_utf8(id) && wanted == after_cursor(self@.cursor, id),
                    Err(_) => !valid_utf8(id),
                }
            }),
    {
        let id: &[u8] = vstd::slice::slice_subrange(index_key, prefix_len, index_key.len());
        assert(id@ =~= index_key@.skip(prefix_len as int));
        if utf8_text(id).is_none() {
            return Err(InvalidIndexKey);
        }
        match &self.cursor {
            None => Ok(true),
            Some(cursor) => Ok(goes_before(cursor.as_str().as_bytes(), id)),
        }
    }

    /// Whether an entry of the history belongs on the page: it is not the one that
    /// the cursor names.
    pub fn wants_scanned(&self, key: &[u8]) -> (wanted: bool)
        ensures
            wanted == match self@.cursor {
                Some(cursor) => key@ != encode_utf8(cursor),
                None => true,
            },
    {
        match &self.cursor {
            None => true,
            Some(cursor) => !same_bytes(key, cursor.as_str().as_bytes()),
        }
    }

    /// Puts an operation on the page; says whether the page is full.
    pub fn push(&mut self, operation: Operation) -> (full: bool)
        ensures
            final(self)@ == (PageView {
                operations: old(self)@.operations.push(operation@),
                ..old(self)@
            }),
            full == (final(self)@.operations.len() == final(self)@.limit),
            full == is_full(final(self)@),
    {
        let ghost before = self.operations@;
        self.operations.push(operation);
        assert(operation_views(self.operations@) =~= operation_views(before).push(operation@));
        self.operations.len() == self.limit
    }

    /// Puts a stored operation on the page; says whether the page is full.
    pub fn push_record(&mut self, payload: &[u8]) -> (result: Result<bool, CodecError>)
        ensures
            match read_op_record(payload@) {
                Ok(op) => final(self)@ == (PageView {
                    operations: old(self)@.operations.push(op),
                    ..old(self)@
                }) && result == Ok::<bool, CodecError>(
                    final(self)@.operations.len() == final(self)@.limit,
                ),
                Err(e) => final(self)@ == old(self)@ && result == Err::<bool, CodecError>(e),
            },
    {
        let operation: Operation = decode_operation(payload)?;
        Ok(self.push(operation))
    }

    /// Whether the older history has to be read: the page is empty, and so is the
    /// current history.
    pub fn needs_older(&self, current_len: u64) -> (result: bool)
        ensures
            result == (self@.operations.len() == 0 && current_len == 0),
    {
        self.operations.len() == 0 && current_len == 0
    }

    /// The operations on the page.
    pub fn into_operations(self) -> (operations: Vec<Operation>)
        ensures
            operation_views(operations@) == self@.operations,
    {
        self.operations
    }
}

// ---------------------------------------------------------------- how pages follow each other
/// Whether a page that an operation was put on is full.
pub open spec fn is_full(page: PageView) -> bool {
    page.operations.len() > 0 && page.operations.len() == page.limit
}

/// A page after the first `n` entries of an index, each an identifier and the
/// operation that it leads to: those after the cursor, until the page is full.
pub open spec fn read_page(
    page: PageView,
    entries: Seq<(Seq<char>, OperationView)>,
    n: int,
) -> PageView
    decreases n,
{
    if n <= 0 {
        page
    } else {
        let before = read_page(page, entries, n - 1);
        let (id, op) = entries[n - 1];
        if !is_full(before) && after_cursor(before.cursor, encode_utf8(id)) {
            PageView { operations: before.operations.push(op), ..before }
        } else {
            before
        }
    }
}

/// A page that nothing was put on yet.
pub open spec fn new_page(cursor: Option<Seq<char>>, limit: nat) -> PageView {
    PageView { cursor, limit, operations: Seq::empty() }
}

/// Whether the entries of an index stand in the order of their identifiers, none
/// of them twice.
pub open spec fn entries_ordered(entries: Seq<(Seq<char>, OperationView)>) -> bool {
    forall|i: int, j: int|
        0 <= i < j < entries.len() ==> bytes_before(
            encode_utf8((#[trigger] entries[i]).0),
            encode_utf8((#[trigger] entries[j]).0),
        )
}

/// The operations of at most `limit` entries from entry `start` on.
pub open spec fn operations_from(
    entries: Seq<(Seq<char>, OperationView)>,
    start: int,
    limit: nat,
) -> Seq<OperationView> {
    let left = entries.len() - start;
    Seq::new(
        if left < limit {
            left as nat
        } else {
            limit
        },
        |k: int| entries[start + k].1,
    )
}

proof fn lemma_read_page(
    cursor: Option<Seq<char>>,
    limit: nat,
    entries: Seq<(Seq<char>, OperationView)>,
    start: int,
    n: int,
)
    requires
        limit > 0,
        0 <= start,
        0 <= n <= entries.len(),
        forall|i: int|
            0 <= i < entries.len() ==> (after_cursor(cursor, encode_utf8((#[trigger] entries[i]).0))
                <==> start <= i),
    ensures
        ({
            let page = read_page(new_page(cursor, limit), entries, n);
            &&& page.cursor == cursor
            &&& page.limit == limit
            &&& page.operations == if n <= start {
                Seq::empty()
            } else {
                operations_from(entries.take(n), start, limit)
            }
        }),
    decreases n,
{
    if n > 0 {
        lemma_read_page(cursor, limit, entries, start, n - 1);
        let page = read_page(new_page(cursor, limit), entries, n);
        assert(after_cursor(cursor, encode_utf8(entries[n - 1].0)) <==> start <= n - 1);
        if n > start {
            assert(page.operations =~= operations_from(entries.take(n), start, limit));
        }
    }
}

/// The operations of those of the first `n` entries that come after a cursor.
pub open spec fn operations_after(
    cursor: Option<Seq<char>>,
    entries: Seq<(Seq<char>, OperationView)>,
    n: int,
) -> Seq<OperationView>
    decreases n,
{
    if n <= 0 {
        Seq::empty()
    } else if after_cursor(cursor, encode_utf8(entries[n - 1].0)) {
        operations_after(cursor, entries, n - 1).push(entries[n - 1].1)
    } else {
        operations_after(cursor, entries, n - 1)
    }
}

/// As many operations from the front as a page has room for.
pub open spec fn page_of(ops: Seq<OperationView>, limit: nat) -> Seq<OperationView> {
    if ops.len() <= limit {
        ops
    } else {
        ops.take(limit as int)
    }
}

proof fn lemma_page_of_first(
    cursor: Option<Seq<char>>,
    limit: nat,
    entries: Seq<(Seq<char>, OperationView)>,
    n: int,
)
    requires
        limit > 0,
        0 <= n <= entries.len(),
    ensures
        ({
            let page = read_page(new_page(cursor, limit), entries, n);
            &&& page.cursor == cursor
            &&& page.limit == limit
            &&& page.operations == page_of(operations_after(cursor, entries, n), limit)
        }),
    decreases n,
{
    if n > 0 {
        lemma_page_of_first(cursor, limit, entries, n - 1);
        let before = operations_after(cursor, entries, n - 1);
        let page = read_page(new_page(cursor, limit), entries, n);
        assert(page.operations =~= page_of(operations_after(cursor, entries, n), limit));
    }
}

/// Whatever its cursor, a page holds the operations of the entries of an index that
/// come after the cursor, in the order of the index, the first of them, as many as
/// fit.
pub proof fn law_page_holds_what_comes_after_the_cursor(
    cursor: Option<Seq<char>>,
    entries: Seq<(Seq<char>, OperationView)>,
    limit: nat,
)
    requires
        limit > 0,
    ensures
        read_page(new_page(cursor, limit), entries, entries.len() as int).operations == page_of(
            operations_after(cursor, entries, entries.len() as int),
            limit,
        ),
{
    lemma_page_of_first(cursor, limit, entries, entries.len() as int);
}

/// The first page holds the operations of the first entries of an index, as many
/// as fit.
pub proof fn law_first_page_holds_the_first_entries(
    entries: Seq<(Seq<char>, OperationView)>,
    limit: nat,
)
    requires
        limit > 0,
    ensures
        read_page(new_page(None, limit), entries, entries.len() as int).operations
            == operations_from(entries, 0, limit),
{
    lemma_read_page(None, limit, entries, 0, entries.len() as int);
    assert(entries.take(entries.len() as int) =~= entries);
    if entries.len() == 0 {
        assert(operations_from(entries, 0, limit) =~= Seq::empty());
    }
}

/// A page whose cursor is the identifier of an entry holds the operations of the
/// entries right after it, as many as fit: nothing is left out between pages, and
/// nothing comes twice.
pub proof fn law_pages_follow_without_gap(
    entries: Seq<(Seq<char>, OperationView)>,
    last: int,
    limit: nat,
)
    requires
        limit > 0,
        entries_ordered(entries),
        0 <= last < entries.len(),
    ensures
        read_page(
            new_page(Some(entries[last].0), limit),
            entries,
            entries.len() as int,
        ).operations == operations_from(entries, last + 1, limit),
{
    let cursor = Some(entries[last].0);
    let at = encode_utf8(entries[last].0);
    assert forall|i: int| 0 <= i < entries.len() implies (after_cursor(
        cursor,
        encode_utf8((#[trigger] entries[i]).0),
    ) <==> last + 1 <= i) by {
        let id = encode_utf8(entries[i].0);
        if i < last {
            assert(bytes_before(id, at));
            lemma_before_antisymmetric(id, at);
        } else if i == last {
            if bytes_before(at, id) {
                lemma_before_antisymmetric(at, id);
            }
        }
    }
    lemma_read_page(cursor, limit, entries, last + 1, entries.len() as int);
    assert(entries.take(entries.len() as int) =~= entries);
    if entries.len() == last + 1 {
        assert(operations_from(entries, last + 1, limit) =~= Seq::empty());
    }
}

// ---------------------------------------------------------------- how entries are kept
/// How many operations the history holds.
pub open spec fn entries_held(current: u64, older: u64) -> u64 {
    if current > 0 {
        current
    } else {
        older
    }
}

/// The older history counts exactly where the current one holds nothing.
pub proof fn law_older_history_counts_while_the_current_is_empty(current: u64, older: u64)
    ensures
        current > 0 ==> entries_held(current, older) == current,
        entries_held(0, older) == older,
{
}

/// Whether the history starts over, from the stored format state.
pub open spec fn starts_over(state: u64) -> bool {
    state == 0
}

/// The history starts over only where it was never filled in the current format: once
/// it has started, or is filled, it goes on from where it has come to.
pub proof fn law_started_history_goes_on(state: u64, at: int)
    ensures
        starts_over(0),
        state > 0 ==> !starts_over(state),
        0 <= at < restart_metadata().len() && restart_metadata()[at].0 == 3 ==> !starts_over(
            restart_metadata()[at].1,
        ),
        0 <= at < completed_metadata().len() && completed_metadata()[at].0 == 3 ==> !starts_over(
            completed_metadata()[at].1,
        ),
{
}

/// The index key of an operation is the text of the value, a zero byte, and the
/// identifier, which stands behind the prefix of the value.
pub proof fn law_index_key_ends_in_the_identifier(value: Seq<char>, operation_id: Seq<char>)
    ensures
        prefix_of(value) == encode_utf8(value) + seq![0u8],
        index_key_of(value, operation_id) == encode_utf8(value) + seq![0u8] + encode_utf8(
            operation_id,
        ),
        index_key_of(value, operation_id).skip(prefix_of(value).len() as int) == encode_utf8(
            operation_id,
        ),
{
    assert(encode_utf8(value).push(0) =~= encode_utf8(value) + seq![0u8]);
    assert(index_key_of(value, operation_id).skip(prefix_of(value).len() as int) =~= encode_utf8(
        operation_id,
    ));
}

/// The row of an operation has the identifier for its key and the record of the
/// operation for its payload, and is found under the owner and under the stock-keeping
/// unit.
pub proof fn law_row_is_found_by_owner_and_unit(row: HistoryRow, op: OperationView)
    requires
        is_row_of(row, op),
    ensures
        row.key@ == encode_utf8(op.operation_id),
        row.payload@ == op_record(op),
        begins_with(row.owner_key@, prefix_of(op.owner_id)),
        row.owner_key@.skip(prefix_of(op.owner_id).len() as int) == row.key@,
        begins_with(row.sku_key@, prefix_of(op.sku)),
        row.sku_key@.skip(prefix_of(op.sku).len() as int) == row.key@,
{
    law_index_key_ends_in_the_identifier(op.owner_id, op.operation_id);
    law_index_key_ends_in_the_identifier(op.sku, op.operation_id);
    let (owner, unit) = (prefix_of(op.owner_id), prefix_of(op.sku));
    assert(row.owner_key@.take(owner.len() as int) =~= owner);
    assert(row.sku_key@.take(unit.len() as int) =~= unit);
}

/// The rows of records of the log are those of their operations, one for each, in the
/// order of the log; they can be made exactly where each operation fits a record.
pub proof fn law_rows_follow_the_log(
    records: Seq<(u64, u64, Vec<Operation>)>,
    n: int,
    rows: Seq<HistoryRow>,
    ops: Seq<OperationView>,
)
    requires
        0 <= n < records.len(),
    ensures
        record_ops(records, 0).len() == 0,
        record_ops(records, n + 1) == record_ops(records, n) + records[n].2@.map_values(
            |op: Operation| op@,
        ),
        are_rows_of(rows, ops) <==> rows.len() == ops.len() && (forall|i: int|
            0 <= i < rows.len() ==> is_row_of(#[trigger] rows[i], ops[i])),
        all_fit(ops) <==> (forall|i: int| 0 <= i < ops.len() ==> op_fits(#[trigger] ops[i])),
{
    assert(operation_views(records[n].2@) =~= records[n].2@.map_values(|op: Operation| op@));
}

/// An identifier comes after a cursor where its bytes do, and every identifier comes
/// after none.
pub proof fn law_cursor_goes_by_bytes(cursor: Seq<char>, id: Seq<u8>)
    ensures
        after_cursor(None, id),
        after_cursor(Some(cursor), id) <==> bytes_before(encode_utf8(cursor), id),
        !after_cursor(Some(cursor), encode_utf8(cursor)),
{
    if bytes_before(encode_utf8(cursor), encode_utf8(cursor)) {
        crate::order::lemma_before_antisymmetric(encode_utf8(cursor), encode_utf8(cursor));
    }
}

/// A page that begins behind the first `start` entries of an index holds the entries
/// from there on, in their order: as many as it may, or all that are left.
pub proof fn law_page_holds_the_next_entries(
    entries: Seq<(Seq<char>, OperationView)>,
    start: int,
    limit: nat,
)
    requires
        forall|i: int, j: int|
            0 <= i < j < entries.len() ==> bytes_before(
                encode_utf8((#[trigger] entries[i]).0),
                encode_utf8((#[trigger] entries[j]).0),
            ),
        0 <= start <= entries.len(),
        limit > 0,
    ensures
        ({
            let cursor = if start == 0 {
                None
            } else {
                Some(entries[start - 1].0)
            };
            let page = read_page(
                (PageView { cursor, limit, operations: Seq::empty() }),
                entries,
                entries.len() as int,
            ).operations;
            let left = entries.len() - start;
            &&& page.len() == if left < limit {
                left
            } else {
                limit as int
            }
            &&& forall|k: int| 0 <= k < page.len() ==> #[trigger] page[k] == entries[start + k].1
        }),
{
    assert(entries_ordered(entries));
    if start == 0 {
        law_first_page_holds_the_first_entries(entries, limit);
    } else {
        law_pages_follow_without_gap(entries, start - 1, limit);
    }
}

/// The text of an optional string is that of the string where there is one.
pub proof fn law_optional_text(text: String)
    ensures
        text_view(Some(text)) == Some(text@),
        text_view(None) is None,
{
}

/// A history that starts over begins at position zero and epoch zero and is marked as
/// started; one that is filled is marked as such and its position stays.
pub proof fn law_metadata_of_the_history(at: int)
    ensures
        restart_metadata() == seq![(1u8, 0u64), (2u8, 0u64), (3u8, 1u64), (4u8, 1u64)],
        completed_metadata() == seq![(3u8, 2u64), (4u8, 2u64)],
        0 <= at < completed_metadata().len() ==> completed_metadata()[at].0 != 1
            && completed_metadata()[at].0 != 2,
{
}

} // verus!
