//! The replicated log: what its messages say, how they are published, and who may
//! write to it.

use vstd::prelude::*;
use vstd::string::StringExecFns;

use crate::binary::{
    decode_log, encode_log_operations, log_record, ops_fit, read_log_record, BinaryLogRecord, LogView,
};
use crate::codec::CodecError;
use crate::digest::{message_id, publish_message_id};
use crate::model::{operation_complaint, operation_views, Operation, OperationView};
use crate::text::{append_decimal, char_vec, decimal_text, parse_signed, parsed_signed};

verus! {

/// The number of replicas that the log must have.
pub const REPLICAS: usize = 3;

/// The least that the log may be limited to, in bytes.
pub const MIN_STREAM_BYTES: i64 = 1_048_576;

/// What the log is limited to where nothing is said, in bytes.
pub const DEFAULT_STREAM_BYTES: i64 = 17_179_869_184;

// ---------------------------------------------------------------- messages
/// A message of the replicated log.
#[derive(Debug)]
pub enum LogRecord {
    /// From here on only the writer with this epoch may append.
    Fence { epoch: u64, owner: String },
    /// A batch of operations, appended under an epoch.
    Operations { epoch: u64, operations: Vec<Operation> },
}

impl View for LogRecord {
    type V = LogView;

    open spec fn view(&self) -> LogView {
        match self {
            LogRecord::Fence { epoch, owner } => LogView::Fence { epoch: *epoch, owner: owner@ },
            LogRecord::Operations { epoch, operations } => LogView::Operations {
                epoch: *epoch,
                operations: operation_views(operations@),
            },
        }
    }
}

/// Reads a message in the current format; any other is still to be parsed as one
/// of the older text formats.
pub fn decode_record(payload: &[u8]) -> (record: Option<LogRecord>)
    ensures
        match read_log_record(payload@) {
            Ok(said) => record matches Some(r) && r@ == said,
            Err(_) => record is None,
        },
{
    match decode_log(payload) {
        Ok(BinaryLogRecord::Fence { epoch, owner }) => Some(LogRecord::Fence { epoch, owner }),
        Ok(BinaryLogRecord::Operations { epoch, operations }) => Some(
            LogRecord::Operations { epoch, operations },
        ),
        Err(_) => None,
    }
}

/// A message of the oldest format: operations from before there were epochs.
pub fn unfenced_record(operations: Vec<Operation>) -> (record: LogRecord)
    ensures
        record@ == (LogView::Operations { epoch: 0, operations: operation_views(operations@) }),
{
    LogRecord::Operations { epoch: 0, operations }
}

/// The first complaint about the first `n` operations.
pub open spec fn first_complaint(ops: Seq<OperationView>, n: int) -> Option<Seq<char>>
    decreases n,
{
    if n <= 0 {
        None
    } else {
        match first_complaint(ops, n - 1) {
            Some(complaint) => Some(complaint),
            None => operation_complaint(ops[n - 1]),
        }
    }
}

/// Why a message is not let in; nothing parsed means that it cannot be read.
pub open spec fn record_complaint(parsed: Option<LogView>) -> Option<Seq<char>> {
    match parsed {
        None => Some("invalid replicated log record"@),
        Some(LogView::Fence { epoch, owner }) => None,
        Some(LogView::Operations { epoch, operations }) => first_complaint(
            operations,
            operations.len() as int,
        ),
    }
}

/// What an optional message says.
pub open spec fn record_view(record: Option<LogRecord>) -> Option<LogView> {
    match record {
        Some(record) => Some(record@),
        None => None,
    }
}

/// A complaint about the first operations is one about all of them.
pub proof fn lemma_complaint_stays(ops: Seq<OperationView>, i: int, n: int)
    requires
        0 <= i <= n,
        first_complaint(ops, i) is Some,
    ensures
        first_complaint(ops, n) == first_complaint(ops, i),
    decreases n,
{
    if n > i {
        lemma_complaint_stays(ops, i, n - 1);
    }
}

/// Lets a message in, or says why it is not let in: it cannot be read, or one of
/// its operations breaks a rule.
pub fn admit_record(parsed: Option<LogRecord>) -> (result: Result<LogRecord, String>)
    ensures
        match result {
            Ok(record) => parsed == Some(record) && record_complaint(record_view(parsed)) is None,
            Err(reason) => record_complaint(record_view(parsed)) == Some(reason@),
        },
{
    match parsed {
        None => Err(String::from_str("invalid replicated log record")),
        Some(LogRecord::Fence { epoch, owner }) => Ok(LogRecord::Fence { epoch, owner }),
        Some(LogRecord::Operations { epoch, operations }) => {
            let ghost ops = operation_views(operations@);
            let ghost said = record_view(parsed);
            assert(said == Some(LogView::Operations { epoch, operations: ops }));
            let mut at: usize = 0;
            while at < operations.len()
                invariant
                    at <= operations@.len(),
                    said == record_view(parsed),
                    said == Some(LogView::Operations { epoch, operations: ops }),
                    ops == operation_views(operations@),
                    first_complaint(ops, at as int) is None,
                decreases operations@.len() - at,
            {
                assert(ops[at as int] == operations@[at as int]@);
                match operations[at].validate() {
                    Ok(()) => {},
                    Err(reason) => {
                        proof {
                            lemma_complaint_stays(ops, at + 1, ops.len() as int);
                        }
                        return Err(String::from_str(reason));
                    },
                }
                at = at + 1;
            }
            Ok(LogRecord::Operations { epoch, operations })
        },
    }
}

/// What stands in the log in place of a message that was not let in.
pub fn poison_record() -> (record: LogRecord)
    ensures
        record@ == (LogView::Operations { epoch: u64::MAX, operations: Seq::empty() }),
{
    let record: LogRecord = LogRecord::Operations { epoch: u64::MAX, operations: Vec::new() };
    assert(record@->operations =~= Seq::empty());
    record
}

/// What is published for a batch, and under which identifier.
#[derive(Debug)]
pub struct Publication {
    pub payload: Vec<u8>,
    pub message_id: String,
}

/// Whether a payload and its identifier publish a batch of operations.
pub open spec fn publishes(
    payload: Seq<u8>,
    id: Seq<char>,
    epoch: u64,
    operations: Seq<OperationView>,
) -> bool {
    payload == log_record(LogView::Operations { epoch, operations }) && id == message_id(payload)
}

/// What is published for a batch is read back as that batch, under its epoch, by
/// whoever follows the log; and it is known by the digest of its payload.
pub proof fn law_published_batch_is_read_back(
    payload: Seq<u8>,
    id: Seq<char>,
    epoch: u64,
    operations: Seq<OperationView>,
)
    requires
        publishes(payload, id, epoch, operations),
        ops_fit(operations),
        operations.len() <= 100_000,
    ensures
        read_log_record(payload) == Ok::<LogView, CodecError>(
            LogView::Operations { epoch, operations },
        ),
        id == "operations-"@ + crate::digest::hex_text(crate::digest::sha256(payload)@),
{
    crate::binary::law_log_round_trip(LogView::Operations { epoch, operations });
}

/// What is published for a batch of operations; nothing for an empty batch.
pub fn publication(epoch: u64, operations: &[Operation]) -> (result: Result<
    Option<Publication>,
    CodecError,
>)
    ensures
        match result {
            Ok(None) => operations@.len() == 0,
            Ok(Some(publication)) => 0 < operations@.len() <= u32::MAX && ops_fit(
                operation_views(operations@),
            ) && publication.payload@ == log_record(
                LogView::Operations { epoch, operations: operation_views(operations@) },
            ) && publication.message_id@ == message_id(publication.payload@),
            Err(CodecError::CountTooLarge) => operations@.len() > u32::MAX,
            Err(CodecError::StringTooLong) => 0 < operations@.len() <= u32::MAX && !ops_fit(
                operation_views(operations@),
            ),
            Err(_) => false,
        },
        result matches Ok(Some(publication)) ==> publishes(
            publication.payload@,
            publication.message_id@,
            epoch,
            operation_views(operations@),
        ),
{
    if operations.len() == 0 {
        return Ok(None);
    }
    let payload: Vec<u8> = encode_log_operations(epoch, operations)?;
    let message_id: String = publish_message_id(payload.as_slice());
    Ok(Some(Publication { payload, message_id }))
}

/// The identifier under which a message that was not let in is set aside.
pub fn dead_letter_id(sequence: u64) -> (id: String)
    ensures
        id@ == "WAREHOUSE_OPERATIONS-"@ + decimal_text(sequence as nat),
{
    let mut id: String = String::from_str("WAREHOUSE_OPERATIONS-");
    append_decimal(&mut id, sequence);
    id
}

// ---------------------------------------------------------------- the stream
/// Why the stream of the log cannot be used.
#[derive(Clone, Copy, Debug, PartialEq, Eq, Structural)]
pub enum StreamError {
    /// The limit is not a number.
    InvalidLimit,
    /// The limit is under the least that is allowed.
    LimitTooSmall,
    /// The stream does not have the replicas that it must have.
    WrongReplicas(usize),
    /// The stream does not keep what it must keep.
    WrongRetention,
}

/// Whether a setting gives this limit for the stream.
pub open spec fn limit_is(setting: Option<Seq<char>>, limit: Result<i64, StreamError>) -> bool {
    match (setting, limit) {
        (None, Ok(bytes)) => bytes == DEFAULT_STREAM_BYTES,
        (None, Err(_)) => false,
        (Some(text), Ok(bytes)) => parsed_signed(text) == Some(bytes as int) && bytes
            >= MIN_STREAM_BYTES,
        (Some(text), Err(e)) => match parsed_signed(text) {
            None => e == StreamError::InvalidLimit,
            Some(number) => number < MIN_STREAM_BYTES && e == StreamError::LimitTooSmall,
        },
    }
}

/// A stream is limited to sixteen gibibytes where nothing is said, and else to the
/// number that is said, which may not be under a mebibyte.
pub proof fn law_stream_limit_is_what_is_said(text: Seq<char>, limit: Result<i64, StreamError>)
    ensures
        limit_is(None, limit) <==> limit == Ok::<i64, StreamError>(0x4_0000_0000),
        limit_is(Some(text), limit) && parsed_signed(text) is None ==> limit == Err::<
            i64,
            StreamError,
        >(StreamError::InvalidLimit),
        limit_is(Some(text), limit) ==> (limit matches Ok(bytes) ==> bytes >= 0x10_0000
            && parsed_signed(text) == Some(bytes as int)),
        limit_is(Some(text), limit) ==> (parsed_signed(text) matches Some(number) ==> {
            &&& number >= 0x10_0000 ==> limit is Ok
            &&& number < 0x10_0000 ==> limit == Err::<i64, StreamError>(StreamError::LimitTooSmall)
        }),
{
}

/// What the stream is limited to, in bytes.
pub fn stream_max_bytes(value: Option<&str>) -> (result: Result<i64, StreamError>)
    ensures
        match value {
            None => result == Ok::<i64, StreamError>(DEFAULT_STREAM_BYTES),
            Some(text) => match parsed_signed(text@) {
                None => result == Err::<i64, StreamError>(StreamError::InvalidLimit),
                Some(limit) => if limit < MIN_STREAM_BYTES {
                    result == Err::<i64, StreamError>(StreamError::LimitTooSmall)
                } else {
                    result matches Ok(bytes) && bytes == limit
                },
            },
        },
        value is None ==> limit_is(None, result),
        value matches Some(text) ==> limit_is(Some(text@), result),
{
    match value {
        None => Ok(DEFAULT_STREAM_BYTES),
        Some(text) => match parse_signed(&char_vec(text)) {
            None => Err(StreamError::InvalidLimit),
            Some(limit) => if limit < MIN_STREAM_BYTES {
                Err(StreamError::LimitTooSmall)
            } else {
                Ok(limit)
            },
        },
    }
}

/// How often a node tries to connect to the log.
pub const CONNECT_ATTEMPTS: u32 = 120;

/// How often a node tries to come by the bucket of the writer lease.
pub const BUCKET_ATTEMPTS: u32 = 20;

/// What is done after an attempt.
#[derive(Clone, Copy, Debug, PartialEq, Eq, Structural)]
pub enum Attempt {
    /// The attempt succeeded.
    Done,
    /// There is another attempt.
    Again,
    /// That was the last attempt.
    GiveUp,
}

/// What is done after attempt number `attempt` of at most `max`.
pub open spec fn attempt_after(failed: bool, attempt: int, max: int) -> Attempt {
    if !failed {
        Attempt::Done
    } else if attempt < max {
        Attempt::Again
    } else {
        Attempt::GiveUp
    }
}

/// How many attempts are made from attempt number `attempt` on where none but that
/// with the number `succeeds` succeeds.
pub open spec fn attempts_made(attempt: int, max: int, succeeds: int) -> int
    decreases max - attempt,
{
    if attempt < max && attempt_after(attempt != succeeds, attempt, max) is Again {
        1 + attempts_made(attempt + 1, max, succeeds)
    } else {
        1
    }
}

/// There are as many attempts as are allowed, and none after one that succeeds; the
/// last one that fails is given up, and no earlier one.
pub proof fn law_attempts_are_made_until_one_succeeds(attempt: int, max: int, succeeds: int)
    requires
        1 <= attempt <= max,
    ensures
        attempts_made(attempt, max, succeeds) == if attempt <= succeeds <= max {
            succeeds - attempt + 1
        } else {
            max - attempt + 1
        },
        attempt_after(false, attempt, max) is Done,
        attempt_after(true, attempt, max) is Again <==> attempt < max,
        attempt_after(true, max, max) is GiveUp,
    decreases max - attempt,
{
    if attempt < max && attempt != succeeds {
        law_attempts_are_made_until_one_succeeds(attempt + 1, max, succeeds);
    }
}

/// What is done after attempt number `attempt`, the first one being number one, of
/// at most `max`.
pub fn after_attempt(failed: bool, attempt: u32, max: u32) -> (next: Attempt)
    ensures
        next == (if !failed {
            Attempt::Done
        } else if attempt < max {
            Attempt::Again
        } else {
            Attempt::GiveUp
        }),
        next == attempt_after(failed, attempt as int, max as int),
{
    if !failed {
        Attempt::Done
    } else if attempt < max {
        Attempt::Again
    } else {
        Attempt::GiveUp
    }
}

/// What is known of the stream.
#[derive(Clone, Copy, Debug)]
pub struct StreamInfo {
    pub replicas: usize,
    pub max_bytes: i64,
    /// Whether the stream refuses new messages when it is full, rather than dropping
    /// old ones.
    pub refuses_new: bool,
}

/// Whether the stream keeps what it must keep.
pub open spec fn retention_holds(info: StreamInfo, max_bytes: i64) -> bool {
    info.max_bytes == max_bytes && info.refuses_new
}

/// Whether the stream has to be given its limit.
pub fn needs_update(info: &StreamInfo, max_bytes: i64) -> (result: bool)
    ensures
        result == !retention_holds(*info, max_bytes),
{
    info.max_bytes != max_bytes || !info.refuses_new
}

/// Whether the stream can be used.
pub open spec fn stream_usable(info: StreamInfo, max_bytes: i64) -> bool {
    info.replicas == REPLICAS && retention_holds(info, max_bytes)
}

/// A stream can be used exactly where it has three replicas, the limit that it is to
/// have, and refuses new messages when it is full.
pub proof fn law_stream_is_used_as_it_must_be(info: StreamInfo, max_bytes: i64)
    ensures
        stream_usable(info, max_bytes) <==> info.replicas == 3 && info.max_bytes == max_bytes
            && info.refuses_new,
{
}

/// Whether the stream can be used.
pub fn verify_stream(info: &StreamInfo, max_bytes: i64) -> (result: Result<(), StreamError>)
    ensures
        result == (if info.replicas != REPLICAS {
            Err(StreamError::WrongReplicas(info.replicas))
        } else if !retention_holds(*info, max_bytes) {
            Err(StreamError::WrongRetention)
        } else {
            Ok::<(), StreamError>(())
        }),
        result is Ok <==> stream_usable(*info, max_bytes),
{
    if info.replicas != REPLICAS {
        return Err(StreamError::WrongReplicas(info.replicas));
    }
    if needs_update(info, max_bytes) {
        return Err(StreamError::WrongRetention);
    }
    Ok(())
}

/// The limit of the stream as it is reported.
pub open spec fn limit_shown(max_bytes: i64) -> int {
    if max_bytes < 0 {
        0
    } else {
        max_bytes as int
    }
}

/// A limit is reported as it is, and no limit as zero.
pub proof fn law_limit_is_reported_as_it_is(max_bytes: i64)
    ensures
        max_bytes >= 0 ==> limit_shown(max_bytes) == max_bytes,
        max_bytes < 0 ==> limit_shown(max_bytes) == 0,
{
}

/// What is said of a message is what its fields hold.
pub proof fn law_message_says_its_fields(
    epoch: u64,
    owner: String,
    operations: Vec<Operation>,
    record: LogRecord,
)
    ensures
        (LogRecord::Fence { epoch, owner })@ == (LogView::Fence { epoch, owner: owner@ }),
        (LogRecord::Operations { epoch, operations })@ == (LogView::Operations {
            epoch,
            operations: operation_views(operations@),
        }),
        record_view(Some(record)) == Some(record@),
        record_view(None) is None,
{
}

/// The limit of the stream as it is reported; no limit counts as zero.
pub fn reported_limit(max_bytes: i64) -> (limit: u64)
    ensures
        limit == if max_bytes > 0 {
            max_bytes as int
        } else {
            0
        },
        limit == limit_shown(max_bytes),
{
    if max_bytes > 0 {
        max_bytes as u64
    } else {
        0
    }
}

/// Of the first `n` operations none is complained of exactly where none of them is
/// by itself, and otherwise the first that is decides what is said.
pub proof fn law_first_complaint_is_that_of_the_first_bad_operation(
    ops: Seq<OperationView>,
    n: int,
)
    requires
        0 <= n <= ops.len(),
    ensures
        first_complaint(ops, n) is None <==> (forall|i: int|
            0 <= i < n ==> operation_complaint(#[trigger] ops[i]) is None),
        forall|k: int|
            0 <= k < n && operation_complaint(#[trigger] ops[k]) is Some && (forall|i: int|
                0 <= i < k ==> operation_complaint(#[trigger] ops[i]) is None) ==> first_complaint(
                ops,
                n,
            ) == operation_complaint(ops[k]),
    decreases n,
{
    if n > 0 {
        law_first_complaint_is_that_of_the_first_bad_operation(ops, n - 1);
        assert(operation_complaint(ops[n - 1]) is None || operation_complaint(ops[n - 1]) is Some);
    }
}

/// A message is let in exactly where it can be read and each of its operations
/// passes; a fence is always let in. What is said of one that is not let in is said
/// of the reading, or of its first operation that does not pass.
pub proof fn law_message_is_let_in_by_the_rules(
    epoch: u64,
    owner: Seq<char>,
    operations: Seq<OperationView>,
)
    ensures
        record_complaint(None) == Some("invalid replicated log record"@),
        record_complaint(Some(LogView::Fence { epoch, owner })) is None,
        record_complaint(Some(LogView::Operations { epoch, operations })) is None <==> (forall|i: int|
            0 <= i < operations.len() ==> operation_complaint(#[trigger] operations[i]) is None),
        forall|k: int|
            0 <= k < operations.len() && operation_complaint(#[trigger] operations[k]) is Some && (
            forall|i: int| 0 <= i < k ==> operation_complaint(#[trigger] operations[i]) is None)
                ==> record_complaint(Some(LogView::Operations { epoch, operations }))
                == operation_complaint(operations[k]),
{
    law_first_complaint_is_that_of_the_first_bad_operation(operations, operations.len() as int);
}

/// A stream keeps what it must keep exactly where it has the limit that it is to have
/// and refuses new messages when it is full.
pub proof fn law_stream_keeps_by_limit_and_refusal(info: StreamInfo, max_bytes: i64)
    ensures
        retention_holds(info, max_bytes) ==> info.max_bytes == max_bytes && info.refuses_new,
        info.refuses_new ==> retention_holds(info, info.max_bytes),
        retention_holds(
            StreamInfo { replicas: info.replicas, max_bytes, refuses_new: true },
            max_bytes,
        ),
{
}

/// A node tries a hundred and twenty times to connect to the log, and twenty times to
/// come by the bucket of the writer lease, where no attempt succeeds.
pub proof fn law_attempts_of_a_node(succeeds: int)
    requires
        succeeds < 1,
    ensures
        attempts_made(1, CONNECT_ATTEMPTS as int, succeeds) == 120,
        attempts_made(1, BUCKET_ATTEMPTS as int, succeeds) == 20,
{
    law_attempts_are_made_until_one_succeeds(1, 120, succeeds);
    law_attempts_are_made_until_one_succeeds(1, 20, succeeds);
}

} // verus!
