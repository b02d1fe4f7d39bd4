//! The local write-ahead log. Each record is a header of `length: u32` and
//! `crc32: u32`, both little-endian, and then the payload. A last record that
//! is cut short is dropped on recovery; a damaged one stops it.

use vstd::prelude::*;

use crate::binary::{
    decode_operation, encode_operation, lemma_op_record_len, law_operation_round_trip, op_fits, op_record,
    ops_fit, read_op_record,
};
use crate::codec::{
    get_uint, le_bytes, le_value, lemma_le_bytes_len, lemma_le_bytes_of_value, lemma_le_value_of_bytes,
    lemma_pow256_values, put_bytes, put_uint, CodecError,
};
use crate::model::{operation_views, Operation, OperationView};

verus! {

/// The bytes of a record's header.
pub const HEADER_SIZE: usize = 8;

/// The most bytes that a record's payload may have to be recovered.
pub const MAX_RECORD: usize = 1_048_576;

/// Why a log cannot be recovered.
#[derive(Clone, Copy, Debug, PartialEq, Eq, Structural)]
pub enum WalError {
    /// A record says that its payload has more than 1 MiB.
    RecordTooLarge,
    /// A record's payload does not have the checksum of its header.
    ChecksumMismatch,
    /// A payload is neither a binary record nor a JSON operation.
    InvalidLegacyRecord,
}

/// The CRC-32 (IEEE) checksum of a byte string.
pub uninterp spec fn crc32(data: Seq<u8>) -> u32;

/// `crc32fast::hash`: the CRC-32 checksum of `data`. It depends on the bytes of
/// `data` alone; nothing else is claimed of it.
#[verifier::external_body]
pub(crate) fn crc32_hash(data: &[u8]) -> (checksum: u32)
    ensures
        checksum == crc32(data@),
{
    crc32fast::hash(data)
}

// ---------------------------------------------------------------- writing
/// A record: the length of the payload in its lowest 32 bits, the checksum, and
/// the payload.
pub open spec fn frame(payload: Seq<u8>) -> Seq<u8> {
    le_bytes(payload.len() % 0x1_0000_0000, 4) + le_bytes(crc32(payload) as nat, 4) + payload
}

/// The records of several payloads, one after the other.
pub open spec fn frames(payloads: Seq<Seq<u8>>) -> Seq<u8>
    decreases payloads.len(),
{
    if payloads.len() == 0 {
        Seq::empty()
    } else {
        frames(payloads.drop_last()) + frame(payloads.last())
    }
}

/// The bytes of several payloads.
pub open spec fn payload_views(payloads: Seq<Vec<u8>>) -> Seq<Seq<u8>> {
    payloads.map_values(|payload: Vec<u8>| payload@)
}

/// The payloads that carry operations.
pub open spec fn op_payloads(ops: Seq<OperationView>) -> Seq<Seq<u8>> {
    ops.map_values(|op: OperationView| op_record(op))
}

/// The payloads of the operations to append. Where one cannot be encoded, none
/// is appended.
pub fn encode_payloads(operations: &[Operation]) -> (result: Result<Vec<Vec<u8>>, CodecError>)
    ensures
        match result {
            Ok(payloads) => ops_fit(operation_views(operations@)) && payload_views(payloads@)
                == op_payloads(operation_views(operations@)),
            Err(e) => !ops_fit(operation_views(operations@)) && e == CodecError::StringTooLong,
        },
{
    let ghost views = operation_views(operations@);
    let mut payloads: Vec<Vec<u8>> = Vec::new();
    let mut at: usize = 0;
    while at < operations.len()
        invariant
            at <= operations@.len(),
            views == operation_views(operations@),
            payloads@.len() == at,
            forall|i: int| 0 <= i < at ==> op_fits(#[trigger] views[i]),
            forall|i: int| 0 <= i < at ==> (#[trigger] payloads@[i])@ == op_record(views[i]),
        decreases operations@.len() - at,
    {
        assert(views[at as int] == operations@[at as int]@);
        let payload: Vec<u8> = encode_operation(&operations[at])?;
        payloads.push(payload);
        at = at + 1;
    }
    assert(payload_views(payloads@) =~= op_payloads(views));
    Ok(payloads)
}

/// Appends the record of a payload.
fn put_frame(out: &mut Vec<u8>, payload: &[u8])
    ensures
        final(out)@ == old(out)@ + frame(payload@),
{
    let length: u64 = payload.len() as u64 % 0x1_0000_0000;
    put_uint(out, length, 4);
    put_uint(out, crc32_hash(payload) as u64, 4);
    put_bytes(out, payload);
    assert(out@ =~= old(out)@ + frame(payload@));
}

/// The payloads that are written and synced together.
pub struct WalBatch {
    payloads: Vec<Vec<u8>>,
    max_batch: usize,
}

impl WalBatch {
    /// The payloads collected so far.
    pub closed spec fn payloads(&self) -> Seq<Seq<u8>> {
        payload_views(self.payloads@)
    }

    /// How many records a batch waits for.
    pub closed spec fn max_batch(&self) -> nat {
        self.max_batch as nat
    }

    /// A batch without payloads.
    pub fn new(max_batch: usize) -> (batch: Self)
        ensures
            batch.payloads() == Seq::<Seq<u8>>::empty(),
            batch.max_batch() == max_batch,
    {
        let batch = WalBatch { payloads: Vec::new(), max_batch };
        assert(batch.payloads() =~= Seq::empty());
        batch
    }

    /// Adds the payloads of one request.
    pub fn push(&mut self, payloads: Vec<Vec<u8>>)
        ensures
            final(self).payloads() == old(self).payloads() + payload_views(payloads@),
            final(self).max_batch() == old(self).max_batch(),
    {
        let mut more: Vec<Vec<u8>> = payloads;
        self.payloads.append(&mut more);
        assert(self.payloads() =~= old(self).payloads() + payload_views(payloads@));
    }

    /// Whether the batch waits for more requests no longer.
    pub fn is_full(&self) -> (full: bool)
        ensures
            full == (self.payloads().len() >= self.max_batch()),
            full == batch_is_full(self.payloads().len(), self.max_batch()),
    {
        self.payloads.len() >= self.max_batch
    }

    /// What the batch appends to the log.
    pub fn buffer(&self) -> (buffer: Vec<u8>)
        ensures
            buffer@ == frames(self.payloads()),
    {
        let mut buffer: Vec<u8> = Vec::new();
        let ghost views = self.payloads();
        let mut at: usize = 0;
        assert(views.take(0) =~= Seq::empty());
        while at < self.payloads.len()
            invariant
                at <= self.payloads@.len(),
                views == payload_views(self.payloads@),
                buffer@ == frames(views.take(at as int)),
            decreases self.payloads@.len() - at,
        {
            put_frame(&mut buffer, self.payloads[at].as_slice());
            proof {
                let next = views.take(at as int + 1);
                assert(next.drop_last() =~= views.take(at as int));
                assert(next.last() == self.payloads@[at as int]@);
            }
            at = at + 1;
        }
        assert(views.take(views.len() as int) =~= views);
        buffer
    }
}

// ---------------------------------------------------------------- recovery
/// A recovered record.
#[derive(Debug)]
pub enum WalRecord {
    /// A payload that is the binary record of an operation.
    Operation(Operation),
    /// Any other payload: the JSON text of an operation, from an older log.
    Legacy(Vec<u8>),
}

/// What a recovered record says.
pub ghost enum WalRecordView {
    Operation(OperationView),
    Legacy(Seq<u8>),
}

impl View for WalRecord {
    type V = WalRecordView;

    open spec fn view(&self) -> WalRecordView {
        match self {
            WalRecord::Operation(op) => WalRecordView::Operation(op@),
            WalRecord::Legacy(payload) => WalRecordView::Legacy(payload@),
        }
    }
}

/// What a payload says.
pub open spec fn record_of(payload: Seq<u8>) -> WalRecordView {
    match read_op_record(payload) {
        Ok(op) => WalRecordView::Operation(op),
        Err(_) => WalRecordView::Legacy(payload),
    }
}

/// The complete records of a log, and the bytes that they take. What is left at
/// the end and too short to be a record is not counted.
pub open spec fn scan(data: Seq<u8>) -> Result<(Seq<Seq<u8>>, nat), WalError>
    decreases data.len(),
{
    if data.len() < HEADER_SIZE {
        Ok((Seq::empty(), 0))
    } else {
        let size = le_value(data.take(4));
        if size > MAX_RECORD {
            Err(WalError::RecordTooLarge)
        } else if HEADER_SIZE + size > data.len() {
            Ok((Seq::empty(), 0))
        } else {
            let end = HEADER_SIZE + size as int;
            let payload = data.subrange(HEADER_SIZE as int, end);
            if crc32(payload) as nat != le_value(data.subrange(4, 8)) {
                Err(WalError::ChecksumMismatch)
            } else {
                match scan(data.skip(end)) {
                    Err(e) => Err(e),
                    Ok((payloads, taken)) => Ok((seq![payload] + payloads, (end + taken) as nat)),
                }
            }
        }
    }
}

/// What the rest of a log adds to what was recovered before it.
pub open spec fn scan_onto(done: Seq<Seq<u8>>, taken: nat, rest: Seq<u8>) -> Result<
    (Seq<Seq<u8>>, nat),
    WalError,
> {
    match scan(rest) {
        Err(e) => Err(e),
        Ok((payloads, more)) => Ok((done + payloads, taken + more)),
    }
}

/// A complete record moves from the rest of a log to what was recovered.
proof fn lemma_scan_step(done: Seq<Seq<u8>>, taken: nat, rest: Seq<u8>, size: nat)
    requires
        HEADER_SIZE + size <= rest.len(),
        size == le_value(rest.take(4)),
        size <= MAX_RECORD,
        crc32(rest.subrange(HEADER_SIZE as int, HEADER_SIZE + size)) as nat == le_value(
            rest.subrange(4, 8),
        ),
    ensures
        scan_onto(done, taken, rest) == scan_onto(
            done.push(rest.subrange(HEADER_SIZE as int, HEADER_SIZE + size)),
            taken + HEADER_SIZE as nat + size,
            rest.skip(HEADER_SIZE + size),
        ),
{
    let payload = rest.subrange(HEADER_SIZE as int, HEADER_SIZE + size);
    let after = scan(rest.skip(HEADER_SIZE + size));
    if after is Ok {
        assert(done + (seq![payload] + after->Ok_0.0) =~= done.push(payload) + after->Ok_0.0);
    }
}

/// Reads the payload of a record.
fn read_record(payload: &[u8]) -> (record: WalRecord)
    ensures
        record@ == record_of(payload@),
{
    match decode_operation(payload) {
        Ok(op) => WalRecord::Operation(op),
        Err(_) => WalRecord::Legacy(vstd::slice::slice_to_vec(payload)),
    }
}

/// Recovers a log: its records, and the length to which the log must be cut so
/// that nothing but them is left.
pub fn recover(data: &[u8]) -> (result: Result<(Vec<WalRecord>, usize), WalError>)
    ensures
        match scan(data@) {
            Ok((payloads, taken)) => {
                &&& result matches Ok((records, valid))
                &&& valid == taken
                &&& valid <= data@.len()
                &&& records@.map_values(|r: WalRecord| r@) == payloads.map_values(
                    |p: Seq<u8>| record_of(p),
                )
            },
            Err(e) => result == Err::<(Vec<WalRecord>, usize), WalError>(e),
        },
{
    let mut records: Vec<WalRecord> = Vec::new();
    let mut cursor: usize = 0;
    let ghost mut done: Seq<Seq<u8>> = Seq::empty();
    proof {
        assert(data@.skip(0) =~= data@);
        if scan(data@) is Ok {
            assert(done + scan(data@)->Ok_0.0 =~= scan(data@)->Ok_0.0);
        }
    }
    while data.len() - cursor >= HEADER_SIZE
        invariant
            cursor <= data@.len(),
            scan(data@) == scan_onto(done, cursor as nat, data@.skip(cursor as int)),
            records@.len() == done.len(),
            forall|i: int| 0 <= i < done.len() ==> (#[trigger] records@[i])@ == record_of(done[i]),
        ensures
            scan(data@.skip(cursor as int)) == Ok::<(Seq<Seq<u8>>, nat), WalError>((Seq::empty(), 0)),
        decreases data@.len() - cursor,
    {
        let ghost rest = data@.skip(cursor as int);
        let size_bytes: &[u8] = vstd::slice::slice_subrange(data, cursor, cursor + 4);
        let sum_bytes: &[u8] = vstd::slice::slice_subrange(data, cursor + 4, cursor + 8);
        assert(size_bytes@ =~= rest.take(4));
        assert(sum_bytes@ =~= rest.subrange(4, 8));
        let size: u64 = get_uint(size_bytes);
        let checksum: u64 = get_uint(sum_bytes);
        if size > MAX_RECORD as u64 {
            return Err(WalError::RecordTooLarge);
        }
        if size as usize > data.len() - cursor - HEADER_SIZE {
            break ;
        }
        let end: usize = cursor + HEADER_SIZE + size as usize;
        let payload: &[u8] = vstd::slice::slice_subrange(data, cursor + HEADER_SIZE, end);
        let ghost length = HEADER_SIZE + size as int;
        assert(payload@ =~= rest.subrange(HEADER_SIZE as int, length));
        if crc32_hash(payload) as u64 != checksum {
            return Err(WalError::ChecksumMismatch);
        }
        records.push(read_record(payload));
        proof {
            lemma_scan_step(done, cursor as nat, rest, size as nat);
            assert(rest.skip(length) =~= data@.skip(end as int));
            done = done.push(payload@);
        }
        cursor = end;
    }
    proof {
        assert(done + Seq::<Seq<u8>>::empty() =~= done);
        assert(records@.map_values(|r: WalRecord| r@) =~= done.map_values(
            |p: Seq<u8>| record_of(p),
        ));
    }
    Ok((records, cursor))
}

/// The operation of a recovered record, where the JSON text of an older record
/// has been read as `parsed`.
pub open spec fn resolved(record: WalRecordView, parsed: Option<OperationView>) -> Option<
    OperationView,
> {
    match record {
        WalRecordView::Operation(op) => Some(op),
        WalRecordView::Legacy(_) => parsed,
    }
}

/// What the readings of older records say.
pub open spec fn parsed_view(parsed: Option<Operation>) -> Option<OperationView> {
    match parsed {
        Some(op) => Some(op@),
        None => None,
    }
}

/// The operations of recovered records. `parsed` holds, at the place of each
/// older record, its reading as JSON, or nothing where it is no operation.
pub fn resolve_records(records: &Vec<WalRecord>, parsed: &Vec<Option<Operation>>) -> (result: Result<
    Vec<Operation>,
    WalError,
>)
    requires
        parsed@.len() == records@.len(),
    ensures
        match result {
            Ok(ops) => ops@.len() == records@.len() && forall|i: int|
                0 <= i < ops@.len() ==> resolved(records@[i]@, parsed_view(parsed@[i])) == Some(
                    (#[trigger] ops@[i])@,
                ),
            Err(e) => e == WalError::InvalidLegacyRecord && exists|i: int|
                0 <= i < records@.len() && resolved(
                    (#[trigger] records@[i])@,
                    parsed_view(parsed@[i]),
                ) is None,
        },
{
    let mut operations: Vec<Operation> = Vec::new();
    let mut at: usize = 0;
    while at < records.len()
        invariant
            at <= records@.len() == parsed@.len(),
            operations@.len() == at,
            forall|i: int|
                0 <= i < at ==> resolved(records@[i]@, parsed_view(parsed@[i])) == Some(
                    (#[trigger] operations@[i])@,
                ),
        decreases records@.len() - at,
    {
        match &records[at] {
            WalRecord::Operation(op) => operations.push(op.clone()),
            WalRecord::Legacy(_) => match &parsed[at] {
                Some(op) => operations.push(op.clone()),
                None => {
                    assert(resolved(records@[at as int]@, parsed_view(parsed@[at as int])) is None);
                    return Err(WalError::InvalidLegacyRecord);
                },
            },
        }
        at = at + 1;
    }
    Ok(operations)
}

// ---------------------------------------------------------------- laws
/// Whether every payload is small enough to be recovered.
pub open spec fn recoverable(payloads: Seq<Seq<u8>>) -> bool {
    forall|i: int| 0 <= i < payloads.len() ==> (#[trigger] payloads[i]).len() <= MAX_RECORD
}

proof fn lemma_frame_fields(payload: Seq<u8>, tail: Seq<u8>)
    requires
        payload.len() <= MAX_RECORD,
    ensures
        frame(payload).len() == HEADER_SIZE + payload.len(),
        le_value((frame(payload) + tail).take(4)) == payload.len(),
        le_value((frame(payload) + tail).subrange(4, 8)) == crc32(payload) as nat,
        (frame(payload) + tail).subrange(8, 8 + payload.len() as int) == payload,
        (frame(payload) + tail).skip(8 + payload.len() as int) == tail,
{
    let size = le_bytes(payload.len(), 4);
    let sum = le_bytes(crc32(payload) as nat, 4);
    let s = frame(payload) + tail;
    lemma_pow256_values();
    lemma_le_bytes_len(payload.len(), 4);
    lemma_le_bytes_len(crc32(payload) as nat, 4);
    lemma_le_value_of_bytes(payload.len(), 4);
    lemma_le_value_of_bytes(crc32(payload) as nat, 4);
    assert(s.take(4) =~= size);
    assert(s.subrange(4, 8) =~= sum);
    assert(s.subrange(8, 8 + payload.len() as int) =~= payload);
    assert(s.skip(8 + payload.len() as int) =~= tail);
}

/// One complete record in front of a log is recovered in front of the rest.
proof fn lemma_scan_frame(payload: Seq<u8>, tail: Seq<u8>)
    requires
        payload.len() <= MAX_RECORD,
    ensures
        scan(frame(payload) + tail) == scan_onto(seq![payload], frame(payload).len(), tail),
{
    lemma_frame_fields(payload, tail);
}

/// Complete records are recovered, whatever follows them: what follows is
/// recovered as if it stood alone.
pub proof fn law_scan_of_records(payloads: Seq<Seq<u8>>, tail: Seq<u8>)
    requires
        recoverable(payloads),
    ensures
        scan(frames(payloads) + tail) == scan_onto(payloads, frames(payloads).len(), tail),
    decreases payloads.len(),
{
    if payloads.len() == 0 {
        assert(frames(payloads) + tail =~= tail);
        if scan(tail) is Ok {
            assert(payloads + scan(tail)->Ok_0.0 =~= scan(tail)->Ok_0.0);
        }
    } else {
        let front = payloads.drop_last();
        let last = payloads.last();
        assert(frames(payloads) + tail =~= frames(front) + (frame(last) + tail));
        assert(payloads[payloads.len() - 1].len() <= MAX_RECORD);
        law_scan_of_records(front, frame(last) + tail);
        lemma_scan_frame(last, tail);
        if scan(tail) is Ok {
            let after = scan(tail)->Ok_0.0;
            assert(front + (seq![last] + after) =~= payloads + after);
        }
    }
}

/// Whatever was appended is recovered: the operations in the order in which
/// they were appended, and the whole log is valid.
pub proof fn law_appended_operations_are_recovered(ops: Seq<OperationView>)
    requires
        ops_fit(ops),
    ensures
        scan(frames(op_payloads(ops))) == Ok::<(Seq<Seq<u8>>, nat), WalError>(
            (op_payloads(ops), frames(op_payloads(ops)).len()),
        ),
        op_payloads(ops).map_values(|p: Seq<u8>| record_of(p)) == ops.map_values(
            |op: OperationView| WalRecordView::Operation(op),
        ),
{
    let payloads = op_payloads(ops);
    let empty = Seq::<u8>::empty();
    lemma_op_payloads_recoverable(ops);
    law_scan_of_records(payloads, empty);
    assert(frames(payloads) + empty =~= frames(payloads));
    assert(payloads + Seq::<Seq<u8>>::empty() =~= payloads);
    assert forall|i: int| 0 <= i < ops.len() implies record_of(#[trigger] payloads[i])
        == WalRecordView::Operation(ops[i]) by {
        assert(op_fits(ops[i]));
        law_operation_round_trip(ops[i]);
    }
    assert(payloads.map_values(|p: Seq<u8>| record_of(p)) =~= ops.map_values(
        |op: OperationView| WalRecordView::Operation(op),
    ));
}

proof fn lemma_op_payloads_recoverable(ops: Seq<OperationView>)
    requires
        ops_fit(ops),
    ensures
        recoverable(op_payloads(ops)),
{
    assert forall|i: int| 0 <= i < ops.len() implies (#[trigger] op_payloads(ops)[i]).len()
        <= MAX_RECORD by {
        assert(op_fits(ops[i]));
        lemma_op_record_len(ops[i]);
    }
}

/// A last record that was cut short by a crash is dropped: the records in front
/// of it are recovered, and the log is cut behind them.
pub proof fn law_torn_record_is_dropped(payloads: Seq<Seq<u8>>, torn: Seq<u8>, length: int)
    requires
        recoverable(payloads),
        torn.len() <= MAX_RECORD,
        0 <= length < frame(torn).len(),
    ensures
        scan(frames(payloads) + frame(torn).take(length)) == Ok::<(Seq<Seq<u8>>, nat), WalError>(
            (payloads, frames(payloads).len()),
        ),
{
    let cut = frame(torn).take(length);
    let empty = Seq::<u8>::empty();
    law_scan_of_records(payloads, cut);
    lemma_frame_fields(torn, empty);
    assert(frame(torn) + empty =~= frame(torn));
    if length >= 8 {
        assert(cut.take(4) =~= frame(torn).take(4));
    }
    assert(scan(cut) == Ok::<(Seq<Seq<u8>>, nat), WalError>((Seq::empty(), 0)));
    assert(payloads + Seq::<Seq<u8>>::empty() =~= payloads);
}

/// A complete record with a wrong checksum stops recovery, wherever in the log
/// it stands: damage never passes for the end of the log.
pub proof fn law_damaged_record_stops_recovery(
    payloads: Seq<Seq<u8>>,
    damaged: Seq<u8>,
    checksum: u32,
    tail: Seq<u8>,
)
    requires
        recoverable(payloads),
        damaged.len() <= MAX_RECORD,
        checksum != crc32(damaged),
    ensures
        scan(
            frames(payloads) + (le_bytes(damaged.len(), 4) + le_bytes(checksum as nat, 4) + damaged
                + tail),
        ) == Err::<(Seq<Seq<u8>>, nat), WalError>(WalError::ChecksumMismatch),
{
    let size = le_bytes(damaged.len(), 4);
    let sum = le_bytes(checksum as nat, 4);
    let rest = size + sum + damaged + tail;
    law_scan_of_records(payloads, rest);
    lemma_pow256_values();
    lemma_le_bytes_len(damaged.len(), 4);
    lemma_le_bytes_len(checksum as nat, 4);
    lemma_le_value_of_bytes(damaged.len(), 4);
    lemma_le_value_of_bytes(checksum as nat, 4);
    assert(rest.take(4) =~= size);
    assert(rest.subrange(4, 8) =~= sum);
    assert(rest.subrange(8, 8 + damaged.len() as int) =~= damaged);
}

/// Cutting a recovered log to its valid length leaves exactly the records that
/// were recovered: recovering again gives them again.
pub proof fn law_recovery_is_stable(data: Seq<u8>)
    requires
        scan(data) is Ok,
    ensures
        ({
            let (payloads, taken) = scan(data)->Ok_0;
            &&& taken <= data.len()
            &&& recoverable(payloads)
            &&& data.take(taken as int) == frames(payloads)
            &&& scan(data.take(taken as int)) == scan(data)
        }),
{
    lemma_scan_is_frames(data);
    let (payloads, taken) = scan(data)->Ok_0;
    let empty = Seq::<u8>::empty();
    law_scan_of_records(payloads, empty);
    assert(frames(payloads) + empty =~= frames(payloads));
    assert(payloads + Seq::<Seq<u8>>::empty() =~= payloads);
}

proof fn lemma_scan_is_frames(data: Seq<u8>)
    requires
        scan(data) is Ok,
    ensures
        ({
            let (payloads, taken) = scan(data)->Ok_0;
            &&& taken <= data.len()
            &&& recoverable(payloads)
            &&& data.take(taken as int) == frames(payloads)
            &&& frames(payloads).len() == taken
        }),
    decreases data.len(),
{
    let (payloads, taken) = scan(data)->Ok_0;
    let size = if data.len() < 8 {
        0
    } else {
        le_value(data.take(4))
    };
    if data.len() < 8 || 8 + size > data.len() {
        assert(data.take(0) =~= Seq::empty());
    } else {
        let end = 8 + size as int;
        let payload = data.subrange(8, end);
        let rest = data.skip(end);
        lemma_scan_is_frames(rest);
        let (more, after) = scan(rest)->Ok_0;
        assert(payloads == seq![payload] + more);
        lemma_frames_cons(payload, more);
        lemma_le_bytes_of_value(data.take(4));
        lemma_le_bytes_of_value(data.subrange(4, 8));
        assert(frame(payload) =~= data.take(end));
        assert(data.take(taken as int) =~= frame(payload) + rest.take(after as int));
        assert forall|i: int| 0 <= i < payloads.len() implies (#[trigger] payloads[i]).len()
            <= MAX_RECORD by {
            if i > 0 {
                assert(payloads[i] == more[i - 1]);
            }
        }
    }
}

proof fn lemma_frames_cons(payload: Seq<u8>, more: Seq<Seq<u8>>)
    ensures
        frames(seq![payload] + more) == frame(payload) + frames(more),
    decreases more.len(),
{
    let all = seq![payload] + more;
    if more.len() == 0 {
        assert(all.drop_last() =~= Seq::empty());
        assert(all.last() == payload);
        assert(frames(all.drop_last()) == Seq::<u8>::empty());
        assert(frames(all) =~= frame(payload) + frames(more));
    } else {
        lemma_frames_cons(payload, more.drop_last());
        assert(all.drop_last() =~= seq![payload] + more.drop_last());
        assert(all.last() == more.last());
        assert(frames(all) =~= frame(payload) + frames(more));
    }
}

/// A record is the length of its payload in four bytes, the checksum of the payload in
/// four bytes, and the payload; records stand one behind the other.
pub proof fn law_record_layout(payload: Seq<u8>, a: Seq<Seq<u8>>, b: Seq<Seq<u8>>)
    requires
        payload.len() < 0x1_0000_0000,
    ensures
        frame(payload) == le_bytes(payload.len(), 4) + le_bytes(crc32(payload) as nat, 4) + payload,
        frames(seq![payload]) == frame(payload),
        frames(a + b) == frames(a) + frames(b),
        frames(Seq::empty()).len() == 0,
    decreases b.len(),
{
    let one = seq![payload];
    assert(one.drop_last() =~= Seq::empty());
    assert(frames(one.drop_last()).len() == 0);
    assert(one.last() == payload);
    assert(frames(one) =~= frame(payload));
    if b.len() == 0 {
        assert(a + b =~= a);
        assert(frames(a) + frames(b) =~= frames(a));
    } else {
        law_record_layout(payload, a, b.drop_last());
        assert((a + b).drop_last() =~= a + b.drop_last());
        assert((a + b).last() == b.last());
        assert(frames(a + b) =~= frames(a) + frames(b));
    }
}

/// Behind complete records, one whose header says more than a mebibyte stops recovery,
/// whatever follows; one that the log ends before, or a header that is cut off, ends it.
pub proof fn law_recovery_ends_by_the_header(
    payloads: Seq<Seq<u8>>,
    size: u32,
    checksum: u32,
    rest: Seq<u8>,
)
    requires
        recoverable(payloads),
    ensures
        ({
            let data = frames(payloads) + (le_bytes(size as nat, 4) + le_bytes(checksum as nat, 4)
                + rest);
            &&& size > 1_048_576 ==> scan(data) == Err::<(Seq<Seq<u8>>, nat), WalError>(
                WalError::RecordTooLarge,
            )
            &&& size <= 1_048_576 && rest.len() < size ==> scan(data) == Ok::<
                (Seq<Seq<u8>>, nat),
                WalError,
            >((payloads, frames(payloads).len()))
        }),
        rest.len() < 8 ==> scan(frames(payloads) + rest) == Ok::<(Seq<Seq<u8>>, nat), WalError>(
            (payloads, frames(payloads).len()),
        ),
{
    let tail = le_bytes(size as nat, 4) + le_bytes(checksum as nat, 4) + rest;
    lemma_pow256_values();
    lemma_le_bytes_len(size as nat, 4);
    lemma_le_bytes_len(checksum as nat, 4);
    lemma_le_value_of_bytes(size as nat, 4);
    assert(tail.take(4) =~= le_bytes(size as nat, 4));
    law_scan_of_records(payloads, tail);
    law_scan_of_records(payloads, rest);
    assert(payloads + Seq::<Seq<u8>>::empty() =~= payloads);
}

/// A payload of up to a mebibyte can be recovered, and no larger one.
pub proof fn law_recoverable_payloads(payloads: Seq<Seq<u8>>)
    ensures
        recoverable(payloads) <==> (forall|i: int|
            0 <= i < payloads.len() ==> (#[trigger] payloads[i]).len() <= 1_048_576),
{
}

/// A payload that is the record of an operation stands for that operation, and any
/// other is left to be read as an older one: then it stands for what it was read as.
pub proof fn law_payload_is_an_operation_or_older(
    op: OperationView,
    other: Seq<u8>,
    parsed: Option<OperationView>,
)
    requires
        op_fits(op),
        read_op_record(other) is Err,
    ensures
        record_of(op_record(op)) == WalRecordView::Operation(op),
        record_of(other) == WalRecordView::Legacy(other),
        resolved(record_of(op_record(op)), parsed) == Some(op),
        resolved(record_of(other), parsed) == parsed,
{
    crate::binary::law_operation_round_trip(op);
}

/// What is said of payloads and of operations to be written is said of each, in their
/// order.
pub proof fn law_payloads_are_said_one_by_one(
    payloads: Seq<Vec<u8>>,
    ops: Seq<OperationView>,
    op: Operation,
    i: int,
)
    ensures
        payload_views(payloads).len() == payloads.len(),
        0 <= i < payloads.len() ==> payload_views(payloads)[i] == payloads[i]@,
        op_payloads(ops).len() == ops.len(),
        0 <= i < ops.len() ==> op_payloads(ops)[i] == op_record(ops[i]),
        WalRecord::Operation(op)@ == WalRecordView::Operation(op@),
        parsed_view(Some(op)) == Some(op@),
        parsed_view(None) is None,
{
}

/// Whether a batch holds as many records as it may.
pub open spec fn batch_is_full(records: nat, max_batch: nat) -> bool {
    !(records < max_batch)
}

/// A batch is full from the moment it holds as many records as it may, and stays so;
/// before that it is not.
pub proof fn law_batch_is_full_at_its_limit(records: nat, more: nat, max_batch: nat)
    ensures
        batch_is_full(max_batch, max_batch),
        records < max_batch ==> !batch_is_full(records, max_batch),
        batch_is_full(records, max_batch) ==> batch_is_full(records + more, max_batch),
{
}

} // verus!
