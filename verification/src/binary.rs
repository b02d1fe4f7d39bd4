//! The binary records of operations: a single operation, a batch, and the
//! entries of the replicated log.

use vstd::prelude::*;

use crate::codec::{
    i64_bits, i64_of_bits, i64_to_bits, le_bytes, lemma_concat_assoc, lemma_concat_empty, lemma_cut,
    lemma_i64_bits, lemma_i64_of_bits, lemma_le_bytes_len, lemma_parse_string_read,
    lemma_parse_string_written, lemma_parse_uint_read, lemma_parse_uint_written, lemma_pow256_values,
    parse_string, parse_uint, put_string, put_uint, string_bytes, string_fits, CodecError,
    Reader,
};
use crate::model::{operation_views, Operation, OperationView};

verus! {

/// The most operations that a record may hold to be readable.
pub const MAX_COUNT: u64 = 100_000;

/// An entry of the replicated log.
#[derive(Debug)]
pub enum BinaryLogRecord {
    /// From here on only the writer with this epoch may append.
    Fence { epoch: u64, owner: String },
    /// A batch of operations, appended under an epoch.
    Operations { epoch: u64, operations: Vec<Operation> },
}

/// What an entry of the replicated log says.
pub ghost enum LogView {
    Fence { epoch: u64, owner: Seq<char> },
    Operations { epoch: u64, operations: Seq<OperationView> },
}

impl View for BinaryLogRecord {
    type V = LogView;

    open spec fn view(&self) -> LogView {
        match self {
            BinaryLogRecord::Fence { epoch, owner } => LogView::Fence { epoch: *epoch, owner: owner@ },
            BinaryLogRecord::Operations { epoch, operations } => LogView::Operations {
                epoch: *epoch,
                operations: operation_views(operations@),
            },
        }
    }
}

// ---------------------------------------------------------------- the format
/// The magic of a single operation: `WOP1`.
pub open spec fn op_magic() -> Seq<u8> {
    seq![0x57u8, 0x4f, 0x50, 0x31]
}

/// The magic of a batch: `WBT1`.
pub open spec fn batch_magic() -> Seq<u8> {
    seq![0x57u8, 0x42, 0x54, 0x31]
}

/// The magic of a log entry: `WLG1`.
pub open spec fn log_magic() -> Seq<u8> {
    seq![0x57u8, 0x4c, 0x47, 0x31]
}

/// Whether every string of an operation fits its field.
pub open spec fn op_fits(op: OperationView) -> bool {
    string_fits(op.operation_id) && string_fits(op.owner_id) && string_fits(op.sku)
}

/// Whether every operation fits its record.
pub open spec fn ops_fit(ops: Seq<OperationView>) -> bool {
    forall|i: int| 0 <= i < ops.len() ==> op_fits(#[trigger] ops[i])
}

/// The fields of an operation.
pub open spec fn op_body(op: OperationView) -> Seq<u8> {
    string_bytes(op.operation_id) + string_bytes(op.owner_id) + string_bytes(op.sku) + le_bytes(
        i64_bits(op.delta),
        8,
    ) + le_bytes(op.event_version as nat, 8)
}

/// The fields of several operations, one after the other.
pub open spec fn ops_body(ops: Seq<OperationView>) -> Seq<u8>
    decreases ops.len(),
{
    if ops.len() == 0 {
        Seq::empty()
    } else {
        ops_body(ops.drop_last()) + op_body(ops.last())
    }
}

/// A count of four bytes, then that many operations.
pub open spec fn counted_body(ops: Seq<OperationView>) -> Seq<u8> {
    le_bytes(ops.len(), 4) + ops_body(ops)
}

/// The record of a single operation.
pub open spec fn op_record(op: OperationView) -> Seq<u8> {
    op_magic() + op_body(op)
}

/// The record of a batch.
pub open spec fn batch_record(ops: Seq<OperationView>) -> Seq<u8> {
    batch_magic() + counted_body(ops)
}

/// Whether a log entry can be written.
pub open spec fn log_fits(record: LogView) -> bool {
    match record {
        LogView::Fence { epoch, owner } => string_fits(owner),
        LogView::Operations { epoch, operations } => ops_fit(operations) && operations.len()
            <= u32::MAX,
    }
}

/// The record of a log entry: a kind byte, the epoch, and what it says.
pub open spec fn log_record(record: LogView) -> Seq<u8> {
    match record {
        LogView::Fence { epoch, owner } => log_magic() + seq![1u8] + le_bytes(epoch as nat, 8)
            + string_bytes(owner),
        LogView::Operations { epoch, operations } => log_magic() + seq![2u8] + le_bytes(
            epoch as nat,
            8,
        ) + counted_body(operations),
    }
}

// ---------------------------------------------------------------- writing
fn put_op_magic(out: &mut Vec<u8>)
    ensures
        final(out)@ == old(out)@ + op_magic(),
{
    out.push(0x57);
    out.push(0x4f);
    out.push(0x50);
    out.push(0x31);
    assert(out@ =~= old(out)@ + op_magic());
}

fn put_batch_magic(out: &mut Vec<u8>)
    ensures
        final(out)@ == old(out)@ + batch_magic(),
{
    out.push(0x57);
    out.push(0x42);
    out.push(0x54);
    out.push(0x31);
    assert(out@ =~= old(out)@ + batch_magic());
}

fn put_log_magic(out: &mut Vec<u8>)
    ensures
        final(out)@ == old(out)@ + log_magic(),
{
    out.push(0x57);
    out.push(0x4c);
    out.push(0x47);
    out.push(0x31);
    assert(out@ =~= old(out)@ + log_magic());
}

/// Appends the fields of an operation.
pub fn put_operation(out: &mut Vec<u8>, op: &Operation) -> (result: Result<(), CodecError>)
    ensures
        op_fits(op@) ==> result is Ok && final(out)@ == old(out)@ + op_body(op@),
        !op_fits(op@) ==> result == Err::<(), CodecError>(CodecError::StringTooLong),
{
    put_string(out, &op.operation_id)?;
    put_string(out, &op.owner_id)?;
    put_string(out, &op.sku)?;
    put_uint(out, i64_to_bits(op.delta), 8);
    put_uint(out, op.event_version, 8);
    assert(out@ =~= old(out)@ + op_body(op@));
    Ok(())
}

/// Appends a count and that many operations.
fn put_counted(out: &mut Vec<u8>, operations: &[Operation]) -> (result: Result<(), CodecError>)
    ensures
        operations@.len() > u32::MAX ==> result == Err::<(), CodecError>(CodecError::CountTooLarge),
        operations@.len() <= u32::MAX && !ops_fit(operation_views(operations@)) ==> result == Err::<
            (),
            CodecError,
        >(CodecError::StringTooLong),
        operations@.len() <= u32::MAX && ops_fit(operation_views(operations@)) ==> result is Ok
            && final(out)@ == old(out)@ + counted_body(operation_views(operations@)),
{
    let count: usize = operations.len();
    if count as u64 > 0xffff_ffff {
        return Err(CodecError::CountTooLarge);
    }
    put_uint(out, count as u64, 4);
    let ghost views = operation_views(operations@);
    let ghost head = out@;
    let mut at: usize = 0;
    assert(views.take(0) =~= Seq::empty());
    assert(head + ops_body(views.take(0)) =~= head);
    while at < count
        invariant
            at <= count == operations@.len() <= u32::MAX,
            views == operation_views(operations@),
            forall|i: int| 0 <= i < at ==> op_fits(#[trigger] views[i]),
            out@ == head + ops_body(views.take(at as int)),
        decreases count - at,
    {
        assert(views[at as int] == operations@[at as int]@);
        put_operation(out, &operations[at])?;
        proof {
            let next = views.take(at as int + 1);
            assert(next.drop_last() =~= views.take(at as int));
            assert(next.last() == operations@[at as int]@);
            assert(out@ =~= head + ops_body(next));
        }
        at = at + 1;
    }
    assert(views.take(views.len() as int) =~= views);
    assert(out@ =~= old(out)@ + counted_body(views));
    Ok(())
}

/// The record of a single operation. It can be written exactly where each of
/// its strings has at most 65535 bytes.
pub fn encode_operation(operation: &Operation) -> (result: Result<Vec<u8>, CodecError>)
    ensures
        match result {
            Ok(bytes) => op_fits(operation@) && bytes@ == op_record(operation@),
            Err(e) => !op_fits(operation@) && e == CodecError::StringTooLong,
        },
{
    let mut out: Vec<u8> = Vec::new();
    put_op_magic(&mut out);
    put_operation(&mut out, operation)?;
    assert(out@ =~= op_record(operation@));
    Ok(out)
}

/// The record of a batch. A batch of more than `u32::MAX` operations is refused
/// for its count, any other exactly where a string is too long.
pub fn encode_batch(operations: &[Operation]) -> (result: Result<Vec<u8>, CodecError>)
    ensures
        match result {
            Ok(bytes) => operations@.len() <= u32::MAX && ops_fit(operation_views(operations@))
                && bytes@ == batch_record(operation_views(operations@)),
            Err(CodecError::CountTooLarge) => operations@.len() > u32::MAX,
            Err(CodecError::StringTooLong) => operations@.len() <= u32::MAX && !ops_fit(
                operation_views(operations@),
            ),
            Err(_) => false,
        },
{
    let mut out: Vec<u8> = Vec::new();
    put_batch_magic(&mut out);
    put_counted(&mut out, operations)?;
    assert(out@ =~= batch_record(operation_views(operations@)));
    Ok(out)
}

/// The log entry of a batch of operations.
pub fn encode_log_operations(epoch: u64, operations: &[Operation]) -> (result: Result<
    Vec<u8>,
    CodecError,
>)
    ensures
        match result {
            Ok(bytes) => operations@.len() <= u32::MAX && ops_fit(operation_views(operations@))
                && bytes@ == log_record(
                LogView::Operations { epoch, operations: operation_views(operations@) },
            ),
            Err(CodecError::CountTooLarge) => operations@.len() > u32::MAX,
            Err(CodecError::StringTooLong) => operations@.len() <= u32::MAX && !ops_fit(
                operation_views(operations@),
            ),
            Err(_) => false,
        },
{
    let mut out: Vec<u8> = Vec::new();
    put_log_magic(&mut out);
    out.push(2);
    put_uint(&mut out, epoch, 8);
    put_counted(&mut out, operations)?;
    assert(out@ =~= log_record(
        LogView::Operations { epoch, operations: operation_views(operations@) },
    ));
    Ok(out)
}

/// The log entry of a fence.
pub fn encode_log_fence(epoch: u64, owner: &str) -> (result: Result<Vec<u8>, CodecError>)
    ensures
        match result {
            Ok(bytes) => string_fits(owner@) && bytes@ == log_record(
                LogView::Fence { epoch, owner: owner@ },
            ),
            Err(e) => !string_fits(owner@) && e == CodecError::StringTooLong,
        },
{
    let mut out: Vec<u8> = Vec::new();
    put_log_magic(&mut out);
    out.push(1);
    put_uint(&mut out, epoch, 8);
    put_string(&mut out, owner)?;
    assert(out@ =~= log_record(LogView::Fence { epoch, owner: owner@ }));
    Ok(out)
}

// ---------------------------------------------------------------- reading
/// The fields of an operation at the front of `s`, and the rest.
pub open spec fn parse_op(s: Seq<u8>) -> Result<(OperationView, Seq<u8>), CodecError> {
    match parse_string(s) {
        Err(e) => Err(e),
        Ok((operation_id, s1)) => match parse_string(s1) {
            Err(e) => Err(e),
            Ok((owner_id, s2)) => match parse_string(s2) {
                Err(e) => Err(e),
                Ok((sku, s3)) => match parse_uint(s3, 8) {
                    Err(e) => Err(e),
                    Ok((bits, s4)) => match parse_uint(s4, 8) {
                        Err(e) => Err(e),
                        Ok((version, rest)) => Ok(
                            (
                                OperationView {
                                    operation_id,
                                    owner_id,
                                    sku,
                                    delta: i64_of_bits(bits),
                                    event_version: version as u64,
                                },
                                rest,
                            ),
                        ),
                    },
                },
            },
        },
    }
}

/// The fields of `n` operations at the front of `s`, and the rest.
pub open spec fn parse_ops(s: Seq<u8>, n: nat) -> Result<(Seq<OperationView>, Seq<u8>), CodecError>
    decreases n,
{
    if n == 0 {
        Ok((Seq::empty(), s))
    } else {
        match parse_ops(s, (n - 1) as nat) {
            Err(e) => Err(e),
            Ok((ops, after)) => match parse_op(after) {
                Err(e) => Err(e),
                Ok((op, rest)) => Ok((ops.push(op), rest)),
            },
        }
    }
}

/// A count of four bytes and that many operations at the front of `s`, and the rest.
pub open spec fn parse_counted(s: Seq<u8>) -> Result<(Seq<OperationView>, Seq<u8>), CodecError> {
    match parse_uint(s, 4) {
        Err(e) => Err(e),
        Ok((n, after)) => if n > MAX_COUNT {
            Err(CodecError::CountTooLarge)
        } else {
            parse_ops(after, n)
        },
    }
}

/// The value of a parse that must leave nothing over.
pub open spec fn whole<T>(parsed: Result<(T, Seq<u8>), CodecError>) -> Result<T, CodecError> {
    match parsed {
        Err(e) => Err(e),
        Ok((value, rest)) => if rest.len() == 0 {
            Ok(value)
        } else {
            Err(CodecError::TrailingBytes)
        },
    }
}

/// Whether `s` begins with `magic`.
pub open spec fn has_magic(s: Seq<u8>, magic: Seq<u8>) -> bool {
    magic.is_prefix_of(s)
}

/// The operation that a record holds.
pub open spec fn read_op_record(s: Seq<u8>) -> Result<OperationView, CodecError> {
    if has_magic(s, op_magic()) {
        whole(parse_op(s.skip(4)))
    } else {
        Err(CodecError::WrongMagic)
    }
}

/// The operations that a batch record holds.
pub open spec fn read_batch_record(s: Seq<u8>) -> Result<Seq<OperationView>, CodecError> {
    if has_magic(s, batch_magic()) {
        whole(parse_counted(s.skip(4)))
    } else {
        Err(CodecError::WrongMagic)
    }
}

/// A log entry, after its magic, at the front of `s`, and the rest.
pub open spec fn parse_log(s: Seq<u8>) -> Result<(LogView, Seq<u8>), CodecError> {
    match parse_uint(s, 1) {
        Err(e) => Err(e),
        Ok((kind, s1)) => match parse_uint(s1, 8) {
            Err(e) => Err(e),
            Ok((epoch, s2)) => if kind == 1 {
                match parse_string(s2) {
                    Err(e) => Err(e),
                    Ok((owner, rest)) => Ok((LogView::Fence { epoch: epoch as u64, owner }, rest)),
                }
            } else if kind == 2 {
                match parse_counted(s2) {
                    Err(e) => Err(e),
                    Ok((operations, rest)) => Ok(
                        (LogView::Operations { epoch: epoch as u64, operations }, rest),
                    ),
                }
            } else {
                Err(CodecError::UnknownKind)
            },
        },
    }
}

/// The log entry that a record holds.
pub open spec fn read_log_record(s: Seq<u8>) -> Result<LogView, CodecError> {
    if has_magic(s, log_magic()) {
        whole(parse_log(s.skip(4)))
    } else {
        Err(CodecError::WrongMagic)
    }
}

/// Whether `data` begins with the four bytes given.
pub fn starts_with(data: &[u8], a: u8, b: u8, c: u8, d: u8) -> (result: bool)
    ensures
        result == has_magic(data@, seq![a, b, c, d]),
{
    let result: bool = data.len() >= 4 && data[0] == a && data[1] == b && data[2] == c && data[3]
        == d;
    proof {
        let magic = seq![a, b, c, d];
        if result {
            assert(data@.take(4) =~= magic);
            assert(magic.is_prefix_of(data@)) by {
                assert(magic =~= data@.subrange(0, 4));
            }
        } else if magic.is_prefix_of(data@) {
            assert(data@.subrange(0, 4) == magic);
            assert(data@[0] == magic[0] && data@[1] == magic[1] && data@[2] == magic[2] && data@[3]
                == magic[3]) by {
                assert(data@.subrange(0, 4)[0] == data@[0]);
                assert(data@.subrange(0, 4)[1] == data@[1]);
                assert(data@.subrange(0, 4)[2] == data@[2]);
                assert(data@.subrange(0, 4)[3] == data@[3]);
            }
        }
    }
    result
}

/// Reads the fields of an operation.
fn operation(reader: &mut Reader) -> (result: Result<Operation, CodecError>)
    requires
        old(reader).wf(),
    ensures
        final(reader).wf(),
        match parse_op(old(reader).rest()) {
            Ok((op, rest)) => result matches Ok(r) && r@ == op && final(reader).rest() == rest,
            Err(e) => result == Err::<Operation, CodecError>(e),
        },
{
    let operation_id: String = reader.string()?;
    let owner_id: String = reader.string()?;
    let sku: String = reader.string()?;
    let delta: i64 = reader.i64()?;
    let event_version: u64 = reader.uint(8)?;
    Ok(Operation { operation_id, owner_id, sku, delta, event_version })
}

/// Reads a count and that many operations.
fn counted(reader: &mut Reader) -> (result: Result<Vec<Operation>, CodecError>)
    requires
        old(reader).wf(),
    ensures
        final(reader).wf(),
        match parse_counted(old(reader).rest()) {
            Ok((ops, rest)) => result matches Ok(r) && operation_views(r@) == ops && final(reader).rest() == rest,
            Err(e) => result == Err::<Vec<Operation>, CodecError>(e),
        },
{
    let count: u64 = reader.uint(4)?;
    if count > MAX_COUNT {
        return Err(CodecError::CountTooLarge);
    }
    let ghost body = reader.rest();
    let mut operations: Vec<Operation> = Vec::new();
    let mut at: u64 = 0;
    assert(operation_views(operations@) =~= Seq::empty());
    while at < count
        invariant
            at <= count,
            reader.wf(),
            parse_ops(body, at as nat) == Ok::<(Seq<OperationView>, Seq<u8>), CodecError>(
                (operation_views(operations@), reader.rest()),
            ),
            parse_counted(old(reader).rest()) == parse_ops(body, count as nat),
        decreases count - at,
    {
        match operation(reader) {
            Ok(op) => {
                let ghost before = operations@;
                operations.push(op);
                assert(operation_views(operations@) =~= operation_views(before).push(op@));
            },
            Err(e) => {
                proof {
                    lemma_parse_ops_fails(body, at as nat + 1, count as nat);
                }
                return Err(e);
            },
        }
        at = at + 1;
    }
    Ok(operations)
}

proof fn lemma_parse_ops_fails(s: Seq<u8>, n: nat, m: nat)
    requires
        n <= m,
        parse_ops(s, n) is Err,
    ensures
        parse_ops(s, m) == parse_ops(s, n),
    decreases m,
{
    if n < m {
        lemma_parse_ops_fails(s, n, (m - 1) as nat);
    }
}

/// Reads the record of a single operation.
pub fn decode_operation(data: &[u8]) -> (result: Result<Operation, CodecError>)
    ensures
        match read_op_record(data@) {
            Ok(op) => result matches Ok(r) && r@ == op,
            Err(e) => result == Err::<Operation, CodecError>(e),
        },
{
    if !starts_with(data, 0x57, 0x4f, 0x50, 0x31) {
        return Err(CodecError::WrongMagic);
    }
    let mut reader = after_magic(data);
    let op: Operation = operation(&mut reader)?;
    reader.done()?;
    Ok(op)
}

/// A reader of what follows a magic of four bytes.
fn after_magic<'a>(data: &'a [u8]) -> (reader: Reader<'a>)
    requires
        data@.len() >= 4,
    ensures
        reader.wf(),
        reader.rest() == data@.skip(4),
{
    let rest: &'a [u8] = vstd::slice::slice_subrange(data, 4, data.len());
    assert(rest@ =~= data@.skip(4));
    Reader::new(rest)
}

/// Reads the record of a batch.
pub fn decode_batch(data: &[u8]) -> (result: Result<Vec<Operation>, CodecError>)
    ensures
        match read_batch_record(data@) {
            Ok(ops) => result matches Ok(r) && operation_views(r@) == ops,
            Err(e) => result == Err::<Vec<Operation>, CodecError>(e),
        },
{
    if !starts_with(data, 0x57, 0x42, 0x54, 0x31) {
        return Err(CodecError::WrongMagic);
    }
    let mut reader = after_magic(data);
    let operations: Vec<Operation> = counted(&mut reader)?;
    reader.done()?;
    Ok(operations)
}

/// Reads a log entry.
pub fn decode_log(data: &[u8]) -> (result: Result<BinaryLogRecord, CodecError>)
    ensures
        match read_log_record(data@) {
            Ok(record) => result matches Ok(r) && r@ == record,
            Err(e) => result == Err::<BinaryLogRecord, CodecError>(e),
        },
{
    if !starts_with(data, 0x57, 0x4c, 0x47, 0x31) {
        return Err(CodecError::WrongMagic);
    }
    let mut reader = after_magic(data);
    let kind: u64 = reader.uint(1)?;
    let epoch: u64 = reader.uint(8)?;
    let record: BinaryLogRecord = if kind == 1 {
        BinaryLogRecord::Fence { epoch, owner: reader.string()? }
    } else if kind == 2 {
        BinaryLogRecord::Operations { epoch, operations: counted(&mut reader)? }
    } else {
        return Err(CodecError::UnknownKind);
    };
    reader.done()?;
    Ok(record)
}

// ---------------------------------------------------------------- laws
/// The fields of an operation parse back, whatever follows them.
pub proof fn lemma_parse_op_written(op: OperationView, tail: Seq<u8>)
    requires
        op_fits(op),
    ensures
        parse_op(op_body(op) + tail) == Ok::<(OperationView, Seq<u8>), CodecError>((op, tail)),
{
    lemma_pow256_values();
    lemma_i64_bits(op.delta);
    let s4 = le_bytes(op.event_version as nat, 8) + tail;
    let s3 = le_bytes(i64_bits(op.delta), 8) + s4;
    let s2 = string_bytes(op.sku) + s3;
    let s1 = string_bytes(op.owner_id) + s2;
    assert(op_body(op) + tail =~= string_bytes(op.operation_id) + s1);
    lemma_parse_string_written(op.operation_id, s1);
    lemma_parse_string_written(op.owner_id, s2);
    lemma_parse_string_written(op.sku, s3);
    lemma_parse_uint_written(i64_bits(op.delta), 8, s4);
    lemma_parse_uint_written(op.event_version as nat, 8, tail);
}

/// What parsed as an operation was written as that operation.
pub proof fn lemma_parse_op_read(s: Seq<u8>)
    requires
        parse_op(s) is Ok,
    ensures
        s == op_body(parse_op(s)->Ok_0.0) + parse_op(s)->Ok_0.1,
        op_fits(parse_op(s)->Ok_0.0),
{
    lemma_pow256_values();
    let s1 = parse_string(s)->Ok_0.1;
    let s2 = parse_string(s1)->Ok_0.1;
    let s3 = parse_string(s2)->Ok_0.1;
    let (bits, s4) = parse_uint(s3, 8)->Ok_0;
    lemma_parse_string_read(s);
    lemma_parse_string_read(s1);
    lemma_parse_string_read(s2);
    lemma_parse_uint_read(s3, 8);
    lemma_parse_uint_read(s4, 8);
    lemma_i64_of_bits(bits);
    let (op, rest) = parse_op(s)->Ok_0;
    assert(s =~= op_body(op) + rest);
}

proof fn lemma_parse_ops_written(ops: Seq<OperationView>, tail: Seq<u8>)
    requires
        ops_fit(ops),
    ensures
        parse_ops(ops_body(ops) + tail, ops.len()) == Ok::<(Seq<OperationView>, Seq<u8>), CodecError>(
            (ops, tail),
        ),
    decreases ops.len(),
{
    if ops.len() == 0 {
        assert(ops_body(ops) + tail =~= tail);
        assert(ops =~= Seq::empty());
    } else {
        let front = ops.drop_last();
        let after = op_body(ops.last()) + tail;
        lemma_concat_assoc(ops_body(front), op_body(ops.last()), tail);
        assert(op_fits(ops[ops.len() - 1]));
        lemma_parse_ops_written(front, after);
        lemma_parse_op_written(ops.last(), tail);
        assert(front.push(ops.last()) =~= ops);
    }
}

proof fn lemma_parse_ops_read(s: Seq<u8>, n: nat)
    requires
        parse_ops(s, n) is Ok,
    ensures
        s == ops_body(parse_ops(s, n)->Ok_0.0) + parse_ops(s, n)->Ok_0.1,
        ops_fit(parse_ops(s, n)->Ok_0.0),
        parse_ops(s, n)->Ok_0.0.len() == n,
    decreases n,
{
    if n == 0 {
        assert(ops_body(Seq::<OperationView>::empty()) + s =~= s);
    } else {
        lemma_parse_ops_read(s, (n - 1) as nat);
        let (front, after) = parse_ops(s, (n - 1) as nat)->Ok_0;
        lemma_parse_op_read(after);
        let (op, rest) = parse_op(after)->Ok_0;
        let ops = front.push(op);
        assert(ops.drop_last() =~= front);
        lemma_concat_assoc(ops_body(front), op_body(op), rest);
    }
}

proof fn lemma_parse_counted_written(ops: Seq<OperationView>, tail: Seq<u8>)
    requires
        ops_fit(ops),
        ops.len() <= MAX_COUNT,
    ensures
        parse_counted(counted_body(ops) + tail) == Ok::<(Seq<OperationView>, Seq<u8>), CodecError>(
            (ops, tail),
        ),
{
    lemma_pow256_values();
    assert(counted_body(ops) + tail =~= le_bytes(ops.len(), 4) + (ops_body(ops) + tail));
    lemma_parse_uint_written(ops.len(), 4, ops_body(ops) + tail);
    lemma_parse_ops_written(ops, tail);
}

proof fn lemma_parse_counted_read(s: Seq<u8>)
    requires
        parse_counted(s) is Ok,
    ensures
        s == counted_body(parse_counted(s)->Ok_0.0) + parse_counted(s)->Ok_0.1,
        ops_fit(parse_counted(s)->Ok_0.0),
        parse_counted(s)->Ok_0.0.len() <= MAX_COUNT,
{
    lemma_parse_uint_read(s, 4);
    let (n, after) = parse_uint(s, 4)->Ok_0;
    lemma_parse_ops_read(after, n);
    let (ops, rest) = parse_counted(s)->Ok_0;
    assert(s =~= counted_body(ops) + rest);
}

proof fn lemma_magic(magic: Seq<u8>, body: Seq<u8>)
    requires
        magic.len() == 4,
    ensures
        has_magic(magic + body, magic),
        (magic + body).skip(4) == body,
{
    assert((magic + body).subrange(0, 4) =~= magic);
    assert((magic + body).skip(4) =~= body);
}

proof fn lemma_magic_split(s: Seq<u8>, magic: Seq<u8>)
    requires
        magic.len() == 4,
        has_magic(s, magic),
    ensures
        s == magic + s.skip(4),
{
    assert(s =~= s.subrange(0, 4) + s.skip(4));
}

/// Decoding an encoded operation gives the operation back.
pub proof fn law_operation_round_trip(op: OperationView)
    requires
        op_fits(op),
    ensures
        read_op_record(op_record(op)) == Ok::<OperationView, CodecError>(op),
{
    lemma_magic(op_magic(), op_body(op));
    lemma_concat_empty(op_body(op));
    lemma_parse_op_written(op, Seq::empty());
}

/// Only the encoding of an operation decodes to it: every other byte string is
/// refused or stands for another operation.
pub proof fn law_operation_canonical(data: Seq<u8>, op: OperationView)
    requires
        read_op_record(data) == Ok::<OperationView, CodecError>(op),
    ensures
        op_fits(op),
        data == op_record(op),
{
    lemma_magic_split(data, op_magic());
    lemma_parse_op_read(data.skip(4));
    assert(parse_op(data.skip(4))->Ok_0.1 =~= Seq::empty());
    lemma_concat_empty(op_body(op));
}

/// An operation's record that is cut short anywhere is refused.
pub proof fn law_operation_rejects_truncation(op: OperationView, length: int)
    requires
        op_fits(op),
        0 <= length < op_record(op).len(),
    ensures
        read_op_record(op_record(op).take(length)) is Err,
{
    let cut = op_record(op).take(length);
    if read_op_record(cut) is Ok {
        let other = read_op_record(cut)->Ok_0;
        let tail = op_record(op).skip(length);
        law_operation_canonical(cut, other);
        lemma_cut(op_record(op), length);
        lemma_op_record_prefix_free(op, other, tail);
    }
}

/// No operation's record begins with that of another.
proof fn lemma_op_record_prefix_free(op: OperationView, other: OperationView, tail: Seq<u8>)
    requires
        op_fits(op),
        op_fits(other),
        op_record(op) == op_record(other) + tail,
    ensures
        tail.len() == 0,
        op == other,
{
    lemma_concat_assoc(op_magic(), op_body(other), tail);
    lemma_magic(op_magic(), op_body(op));
    lemma_magic(op_magic(), op_body(other) + tail);
    lemma_op_body_prefix_free(op, other, tail);
}

/// No operation's fields begin with those of another.
proof fn lemma_op_body_prefix_free(op: OperationView, other: OperationView, tail: Seq<u8>)
    requires
        op_fits(op),
        op_fits(other),
        op_body(op) == op_body(other) + tail,
    ensures
        tail.len() == 0,
        op == other,
{
    lemma_concat_empty(op_body(op));
    lemma_parse_op_written(op, Seq::empty());
    lemma_parse_op_written(other, tail);
}

/// An operation's record with anything after it is refused.
pub proof fn law_operation_rejects_trailing_bytes(op: OperationView, tail: Seq<u8>)
    requires
        op_fits(op),
        tail.len() > 0,
    ensures
        read_op_record(op_record(op) + tail) == Err::<OperationView, CodecError>(
            CodecError::TrailingBytes,
        ),
{
    let s = op_record(op) + tail;
    let body = op_body(op) + tail;
    lemma_concat_assoc(op_magic(), op_body(op), tail);
    lemma_magic(op_magic(), body);
    lemma_parse_op_written(op, tail);
    lemma_op_and_more(s, body, op, tail);
}

proof fn lemma_op_and_more(s: Seq<u8>, body: Seq<u8>, op: OperationView, tail: Seq<u8>)
    requires
        has_magic(s, op_magic()),
        s.skip(4) == body,
        parse_op(body) == Ok::<(OperationView, Seq<u8>), CodecError>((op, tail)),
        tail.len() > 0,
    ensures
        read_op_record(s) == Err::<OperationView, CodecError>(CodecError::TrailingBytes),
{
}

/// Decoding an encoded batch gives the batch back, up to the number of
/// operations that a reader accepts.
pub proof fn law_batch_round_trip(ops: Seq<OperationView>)
    requires
        ops_fit(ops),
        ops.len() <= MAX_COUNT,
    ensures
        read_batch_record(batch_record(ops)) == Ok::<Seq<OperationView>, CodecError>(ops),
{
    lemma_magic(batch_magic(), counted_body(ops));
    lemma_concat_empty(counted_body(ops));
    lemma_parse_counted_written(ops, Seq::empty());
}

/// Only the encoding of a batch decodes to it.
pub proof fn law_batch_canonical(data: Seq<u8>, ops: Seq<OperationView>)
    requires
        read_batch_record(data) == Ok::<Seq<OperationView>, CodecError>(ops),
    ensures
        ops_fit(ops),
        ops.len() <= MAX_COUNT,
        data == batch_record(ops),
{
    lemma_magic_split(data, batch_magic());
    lemma_parse_counted_read(data.skip(4));
    assert(parse_counted(data.skip(4))->Ok_0.1 =~= Seq::empty());
    lemma_concat_empty(counted_body(ops));
}

/// Whether a log entry is one that a reader accepts.
pub open spec fn log_readable(record: LogView) -> bool {
    &&& log_fits(record)
    &&& record matches LogView::Operations { operations, .. } ==> operations.len() <= MAX_COUNT
}

/// Decoding an encoded log entry gives the entry back, up to the number of
/// operations that a reader accepts.
pub proof fn law_log_round_trip(record: LogView)
    requires
        log_readable(record),
    ensures
        read_log_record(log_record(record)) == Ok::<LogView, CodecError>(record),
{
    lemma_pow256_values();
    let empty = Seq::<u8>::empty();
    match record {
        LogView::Fence { epoch, owner } => {
            let s2 = string_bytes(owner);
            let s1 = le_bytes(epoch as nat, 8) + s2;
            lemma_kind(1, s1);
            lemma_magic(log_magic(), seq![1u8] + s1);
            assert(log_record(record) =~= log_magic() + (seq![1u8] + s1));
            lemma_parse_uint_written(epoch as nat, 8, s2);
            assert(s2 + empty =~= s2);
            lemma_parse_string_written(owner, empty);
        },
        LogView::Operations { epoch, operations } => {
            let s2 = counted_body(operations);
            let s1 = le_bytes(epoch as nat, 8) + s2;
            lemma_kind(2, s1);
            lemma_magic(log_magic(), seq![2u8] + s1);
            assert(log_record(record) =~= log_magic() + (seq![2u8] + s1));
            lemma_parse_uint_written(epoch as nat, 8, s2);
            assert(s2 + empty =~= s2);
            lemma_parse_counted_written(operations, empty);
        },
    }
}

proof fn lemma_kind(kind: u8, tail: Seq<u8>)
    ensures
        parse_uint(seq![kind] + tail, 1) == Ok::<(nat, Seq<u8>), CodecError>((kind as nat, tail)),
        le_bytes(kind as nat, 1) == seq![kind],
{
    lemma_pow256_values();
    reveal_with_fuel(le_bytes, 2);
    assert(le_bytes(kind as nat, 1) =~= seq![kind]);
    lemma_parse_uint_written(kind as nat, 1, tail);
}

/// Only the encoding of a log entry decodes to it.
pub proof fn law_log_canonical(data: Seq<u8>, record: LogView)
    requires
        read_log_record(data) == Ok::<LogView, CodecError>(record),
    ensures
        log_readable(record),
        data == log_record(record),
{
    lemma_pow256_values();
    lemma_magic_split(data, log_magic());
    let s = data.skip(4);
    lemma_parse_uint_read(s, 1);
    let (kind, s1) = parse_uint(s, 1)->Ok_0;
    lemma_parse_uint_read(s1, 8);
    let (epoch, s2) = parse_uint(s1, 8)->Ok_0;
    lemma_kind(kind as u8, s1);
    if kind == 1 {
        lemma_parse_string_read(s2);
    } else {
        lemma_parse_counted_read(s2);
    }
    assert(data =~= log_record(record));
}

/// The record of an operation has at most 196631 bytes.
pub proof fn lemma_op_record_len(op: OperationView)
    requires
        op_fits(op),
    ensures
        op_record(op).len() <= 196_631,
{
    lemma_le_bytes_len(i64_bits(op.delta), 8);
    lemma_le_bytes_len(op.event_version as nat, 8);
    lemma_le_bytes_len(vstd::utf8::encode_utf8(op.operation_id).len(), 2);
    lemma_le_bytes_len(vstd::utf8::encode_utf8(op.owner_id).len(), 2);
    lemma_le_bytes_len(vstd::utf8::encode_utf8(op.sku).len(), 2);
}

// ---------------------------------------------------------------- the formats
/// The record of an operation: four bytes of magic, the three texts, the change and the
/// version, in this order.
pub proof fn law_operation_record_layout(op: OperationView)
    ensures
        op_record(op) == seq![0x57u8, 0x4f, 0x50, 0x31] + (string_bytes(op.operation_id)
            + string_bytes(op.owner_id) + string_bytes(op.sku) + le_bytes(i64_bits(op.delta), 8)
            + le_bytes(op.event_version as nat, 8)),
        op_fits(op) <==> string_fits(op.operation_id) && string_fits(op.owner_id) && string_fits(
            op.sku,
        ),
{
}

/// The operations of a record stand one behind the other, each as it does in a record
/// of its own after the magic; they can be written exactly where each can.
pub proof fn law_operations_stand_one_behind_the_other(
    a: Seq<OperationView>,
    b: Seq<OperationView>,
    op: OperationView,
)
    ensures
        ops_body(Seq::empty()).len() == 0,
        ops_body(seq![op]) == op_record(op).skip(4),
        ops_body(a + b) == ops_body(a) + ops_body(b),
        ops_fit(a.push(op)) <==> ops_fit(a) && op_fits(op),
        ops_fit(Seq::empty()),
    decreases b.len(),
{
    let one = seq![op];
    assert(one.drop_last() =~= Seq::empty());
    assert(ops_body(one.drop_last()).len() == 0);
    assert(one.last() == op);
    assert(ops_body(one) =~= op_body(op));
    assert(op_record(op).skip(4) =~= op_body(op));
    if b.len() == 0 {
        assert(a + b =~= a);
        assert(ops_body(a) + ops_body(b) =~= ops_body(a));
    } else {
        law_operations_stand_one_behind_the_other(a, b.drop_last(), op);
        assert((a + b).drop_last() =~= a + b.drop_last());
        assert((a + b).last() == b.last());
        assert(ops_body(a + b) =~= ops_body(a) + ops_body(b));
    }
    if ops_fit(a.push(op)) {
        assert forall|i: int| 0 <= i < a.len() implies op_fits(#[trigger] a[i]) by {
            assert(a.push(op)[i] == a[i]);
        }
        assert(a.push(op)[a.len() as int] == op);
    }
}

/// The record of a batch is magic, the number of operations in four bytes, and the
/// operations. A message of the log is magic, a byte for its kind, the epoch in eight
/// bytes, and then the owner, or a number of operations and the operations.
pub proof fn law_batch_and_log_record_layout(
    ops: Seq<OperationView>,
    epoch: u64,
    owner: Seq<char>,
)
    ensures
        batch_record(ops) == seq![0x57u8, 0x42, 0x54, 0x31] + (le_bytes(ops.len(), 4) + ops_body(
            ops,
        )),
        log_record(LogView::Fence { epoch, owner }) == seq![0x57u8, 0x4c, 0x47, 0x31, 1] + le_bytes(
            epoch as nat,
            8,
        ) + string_bytes(owner),
        log_record(LogView::Operations { epoch, operations: ops }) == seq![
            0x57u8,
            0x4c,
            0x47,
            0x31,
            2,
        ] + le_bytes(epoch as nat, 8) + (le_bytes(ops.len(), 4) + ops_body(ops)),
        log_fits(LogView::Fence { epoch, owner }) <==> string_fits(owner),
        log_fits(LogView::Operations { epoch, operations: ops }) <==> ops_fit(ops) && ops.len()
            <= 0xffff_ffff,
{
    assert(log_magic() + seq![1u8] =~= seq![0x57u8, 0x4c, 0x47, 0x31, 1]);
    assert(log_magic() + seq![2u8] =~= seq![0x57u8, 0x4c, 0x47, 0x31, 2]);
}

proof fn lemma_magic_bytes(s: Seq<u8>, magic: Seq<u8>)
    requires
        magic.len() == 4,
    ensures
        has_magic(s, magic) <==> s.len() >= 4 && s[0] == magic[0] && s[1] == magic[1] && s[2]
            == magic[2] && s[3] == magic[3],
{
    if has_magic(s, magic) {
        lemma_magic_split(s, magic);
    } else if s.len() >= 4 && s[0] == magic[0] && s[1] == magic[1] && s[2] == magic[2] && s[3]
        == magic[3] {
        assert(s.subrange(0, 4) =~= magic);
    }
}

/// What does not begin with the magic of an operation is refused for that, and what
/// does is not.
pub proof fn law_operation_begins_with_its_magic(s: Seq<u8>)
    ensures
        s.len() >= 4 && s[0] == 0x57 && s[1] == 0x4f && s[2] == 0x50 && s[3] == 0x31
            <==> read_op_record(s) != Err::<OperationView, CodecError>(CodecError::WrongMagic),
{
    lemma_magic_bytes(s, op_magic());
    lemma_no_magic_inside(s.skip(4));
}

/// What does not begin with the magic of a batch is refused for that.
pub proof fn law_batch_begins_with_its_magic(s: Seq<u8>)
    requires
        !(s.len() >= 4 && s[0] == 0x57 && s[1] == 0x42 && s[2] == 0x54 && s[3] == 0x31),
    ensures
        read_batch_record(s) == Err::<Seq<OperationView>, CodecError>(CodecError::WrongMagic),
{
    lemma_magic_bytes(s, batch_magic());
}

/// What does not begin with the magic of a message of the log is refused for that.
pub proof fn law_message_begins_with_its_magic(s: Seq<u8>)
    requires
        !(s.len() >= 4 && s[0] == 0x57 && s[1] == 0x4c && s[2] == 0x47 && s[3] == 0x31),
    ensures
        read_log_record(s) == Err::<LogView, CodecError>(CodecError::WrongMagic),
{
    lemma_magic_bytes(s, log_magic());
}

proof fn lemma_no_magic_inside(s: Seq<u8>)
    ensures
        parse_op(s) != Err::<(OperationView, Seq<u8>), CodecError>(CodecError::WrongMagic),
{
}

/// A record that says that it holds more than a hundred thousand operations is refused
/// for that, whatever follows; a message of the log of a kind that is not known is
/// refused for its kind, whatever follows its epoch.
pub proof fn law_large_counts_and_other_kinds_are_refused(
    count: u32,
    epoch: u64,
    kind: u8,
    tail: Seq<u8>,
)
    ensures
        count > 100_000 ==> read_batch_record(
            seq![0x57u8, 0x42, 0x54, 0x31] + (le_bytes(count as nat, 4) + tail),
        ) == Err::<Seq<OperationView>, CodecError>(CodecError::CountTooLarge),
        count > 100_000 ==> read_log_record(
            seq![0x57u8, 0x4c, 0x47, 0x31] + (seq![2u8] + (le_bytes(epoch as nat, 8) + (le_bytes(
                count as nat,
                4,
            ) + tail))),
        ) == Err::<LogView, CodecError>(CodecError::CountTooLarge),
        kind != 1 && kind != 2 ==> read_log_record(
            seq![0x57u8, 0x4c, 0x47, 0x31] + (seq![kind] + (le_bytes(epoch as nat, 8) + tail)),
        ) == Err::<LogView, CodecError>(CodecError::UnknownKind),
{
    lemma_pow256_values();
    let counted = le_bytes(count as nat, 4) + tail;
    lemma_parse_uint_written(count as nat, 4, tail);
    lemma_parse_uint_written(epoch as nat, 8, tail);
    lemma_parse_uint_written(epoch as nat, 8, counted);
    lemma_magic(batch_magic(), counted);
    lemma_kind(2, le_bytes(epoch as nat, 8) + counted);
    lemma_kind(kind, le_bytes(epoch as nat, 8) + tail);
    lemma_magic(log_magic(), seq![2u8] + (le_bytes(epoch as nat, 8) + counted));
    lemma_magic(log_magic(), seq![kind] + (le_bytes(epoch as nat, 8) + tail));
}

/// What stands behind the operations of a batch makes it one with trailing bytes.
pub proof fn law_nothing_may_follow_a_batch(ops: Seq<OperationView>, tail: Seq<u8>)
    requires
        ops_fit(ops),
        ops.len() <= 100_000,
        tail.len() > 0,
    ensures
        read_batch_record(batch_record(ops) + tail) == Err::<Seq<OperationView>, CodecError>(
            CodecError::TrailingBytes,
        ),
{
    lemma_parse_counted_written(ops, tail);
    lemma_magic(batch_magic(), counted_body(ops) + tail);
    lemma_concat_assoc(batch_magic(), counted_body(ops), tail);
}

proof fn lemma_log_body(kind: u8, epoch: u64, body: Seq<u8>, tail: Seq<u8>)
    ensures
        ({
            let s = log_magic() + seq![kind] + le_bytes(epoch as nat, 8) + body + tail;
            &&& has_magic(s, log_magic())
            &&& parse_uint(s.skip(4), 1) == Ok::<(nat, Seq<u8>), CodecError>(
                (kind as nat, le_bytes(epoch as nat, 8) + (body + tail)),
            )
            &&& parse_uint(le_bytes(epoch as nat, 8) + (body + tail), 8) == Ok::<
                (nat, Seq<u8>),
                CodecError,
            >((epoch as nat, body + tail))
        }),
{
    let number = le_bytes(epoch as nat, 8);
    lemma_pow256_values();
    lemma_parse_uint_written(epoch as nat, 8, body + tail);
    lemma_kind(kind, number + (body + tail));
    lemma_magic(log_magic(), seq![kind] + (number + (body + tail)));
    lemma_concat_assoc(log_magic(), seq![kind], number);
    lemma_concat_assoc(log_magic(), seq![kind] + number, body);
    lemma_concat_assoc(log_magic(), seq![kind] + number + body, tail);
    lemma_concat_assoc(seq![kind], number, body);
    lemma_concat_assoc(seq![kind], number + body, tail);
    lemma_concat_assoc(number, body, tail);
}

/// What stands behind the owner or the operations of a message of the log makes it one
/// with trailing bytes.
pub proof fn law_nothing_may_follow_a_message(record: LogView, tail: Seq<u8>)
    requires
        log_readable(record),
        tail.len() > 0,
    ensures
        read_log_record(log_record(record) + tail) == Err::<LogView, CodecError>(
            CodecError::TrailingBytes,
        ),
{
    match record {
        LogView::Fence { epoch, owner } => {
            lemma_parse_string_written(owner, tail);
            lemma_log_body(1, epoch, string_bytes(owner), tail);
        },
        LogView::Operations { epoch, operations } => {
            lemma_parse_counted_written(operations, tail);
            lemma_log_body(2, epoch, counted_body(operations), tail);
        },
    }
}

/// A message of the log reads back exactly where it could be written and holds no more
/// than a hundred thousand operations.
pub proof fn law_log_record_is_read_within_limits(
    epoch: u64,
    owner: Seq<char>,
    operations: Seq<OperationView>,
)
    ensures
        string_fits(owner) <==> log_readable(LogView::Fence { epoch, owner }),
        ops_fit(operations) && operations.len() <= 100_000 <==> log_readable(
            LogView::Operations { epoch, operations },
        ),
{
}

/// The first field of an operation that cannot be read decides how the operation is
/// refused.
pub proof fn law_first_bad_field_decides(
    first: Seq<char>,
    second: Seq<char>,
    s: Seq<u8>,
    error: CodecError,
)
    requires
        string_fits(first),
        string_fits(second),
        parse_string(s) == Err::<(Seq<char>, Seq<u8>), CodecError>(error),
    ensures
        parse_op(s) == Err::<(OperationView, Seq<u8>), CodecError>(error),
        parse_op(string_bytes(first) + s) == Err::<(OperationView, Seq<u8>), CodecError>(error),
        parse_op(string_bytes(first) + (string_bytes(second) + s)) == Err::<
            (OperationView, Seq<u8>),
            CodecError,
        >(error),
{
    lemma_parse_string_written(first, s);
    lemma_parse_string_written(second, s);
    lemma_parse_string_written(first, string_bytes(second) + s);
}

/// An operation whose numbers are cut off is refused as cut off.
pub proof fn law_cut_numbers_are_truncated(
    first: Seq<char>,
    second: Seq<char>,
    third: Seq<char>,
    s: Seq<u8>,
)
    requires
        string_fits(first),
        string_fits(second),
        string_fits(third),
        s.len() < 16,
    ensures
        parse_op(string_bytes(first) + (string_bytes(second) + (string_bytes(third) + s))) == Err::<
            (OperationView, Seq<u8>),
            CodecError,
        >(CodecError::Truncated),
{
    lemma_parse_string_written(third, s);
    lemma_parse_string_written(second, string_bytes(third) + s);
    lemma_parse_string_written(first, string_bytes(second) + (string_bytes(third) + s));
    if s.len() >= 8 {
        assert(s.skip(8).len() < 8);
    }
}

proof fn lemma_bad_operation(
    body: Seq<u8>,
    ops: Seq<OperationView>,
    s: Seq<u8>,
    count: nat,
    error: CodecError,
)
    requires
        parse_ops(body, ops.len()) == Ok::<(Seq<OperationView>, Seq<u8>), CodecError>((ops, s)),
        parse_op(s) == Err::<(OperationView, Seq<u8>), CodecError>(error),
        ops.len() < count,
    ensures
        parse_ops(body, count) == Err::<(Seq<OperationView>, Seq<u8>), CodecError>(error),
{
    let next = parse_ops(body, (ops.len() + 1) as nat);
    assert(next == Err::<(Seq<OperationView>, Seq<u8>), CodecError>(error));
    lemma_parse_ops_fails(body, (ops.len() + 1) as nat, count);
}

/// The first operation that cannot be read decides how a number of operations is
/// refused.
pub proof fn law_first_bad_operation_decides(
    ops: Seq<OperationView>,
    count: u32,
    s: Seq<u8>,
    error: CodecError,
)
    requires
        ops_fit(ops),
        ops.len() < count <= 100_000,
        parse_op(s) == Err::<(OperationView, Seq<u8>), CodecError>(error),
    ensures
        parse_counted(le_bytes(count as nat, 4) + (ops_body(ops) + s)) == Err::<
            (Seq<OperationView>, Seq<u8>),
            CodecError,
        >(error),
{
    let body = ops_body(ops) + s;
    assert(parse_ops(body, count as nat) == Err::<(Seq<OperationView>, Seq<u8>), CodecError>(
        error,
    )) by {
        lemma_parse_ops_written(ops, s);
        lemma_bad_operation(body, ops, s, count as nat, error);
    }
    lemma_pow256_values();
    lemma_parse_uint_written(count as nat, 4, body);
}

} // verus!
