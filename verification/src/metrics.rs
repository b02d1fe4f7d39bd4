//! What a node reports about itself.

use vstd::prelude::*;
use vstd::string::StringExecFns;

use crate::api::RefusalKind;
use crate::model::{ApplyResult, ApplyStatus};
use crate::text::{append_decimal, char_vec, decimal_text, is_white_space, parse_decimal, parsed_decimal, white_space};

verus! {

// ---------------------------------------------------------------- counting
/// How many of the first `n` answers have a status.
pub open spec fn count_status(results: Seq<ApplyResult>, status: ApplyStatus, n: int) -> nat
    decreases n,
{
    if n <= 0 {
        0
    } else {
        count_status(results, status, n - 1) + if results[n - 1].status == status {
            1nat
        } else {
            0nat
        }
    }
}

proof fn lemma_count_status(results: Seq<ApplyResult>, status: ApplyStatus, n: int)
    requires
        0 <= n,
    ensures
        count_status(results, status, n) <= n,
    decreases n,
{
    if n > 0 {
        lemma_count_status(results, status, n - 1);
    }
}

/// How many operations were applied, and how many were duplicates.
pub fn record_results(results: &[ApplyResult]) -> (counts: (u64, u64))
    ensures
        counts.0 == count_status(results@, ApplyStatus::Applied, results@.len() as int),
        counts.1 == count_status(results@, ApplyStatus::Duplicate, results@.len() as int),
{
    let mut applied: u64 = 0;
    let mut duplicates: u64 = 0;
    let mut at: usize = 0;
    while at < results.len()
        invariant
            at <= results@.len(),
            applied == count_status(results@, ApplyStatus::Applied, at as int),
            duplicates == count_status(results@, ApplyStatus::Duplicate, at as int),
        decreases results@.len() - at,
    {
        proof {
            lemma_count_status(results@, ApplyStatus::Applied, at as int);
            lemma_count_status(results@, ApplyStatus::Duplicate, at as int);
        }
        match results[at].status {
            ApplyStatus::Applied => {
                applied = applied + 1;
            },
            ApplyStatus::Duplicate => {
                duplicates = duplicates + 1;
            },
        }
        at = at + 1;
    }
    (applied, duplicates)
}

/// By how much a refusal raises the count of conflicts and that of requests that
/// could not be served.
pub fn record_error(kind: RefusalKind) -> (counts: (u64, u64))
    ensures
        counts.0 == if kind == RefusalKind::Conflict {
            1int
        } else {
            0int
        },
        counts.1 == if kind == RefusalKind::Unavailable {
            1int
        } else {
            0int
        },
        counts.0 == refusals_counted(kind).0,
        counts.1 == refusals_counted(kind).1,
{
    match kind {
        RefusalKind::Conflict => (1, 0),
        RefusalKind::Unavailable => (0, 1),
        _ => (0, 0),
    }
}

/// How far a checkpoint is behind the log.
pub fn lag(last_sequence: u64, checkpoint: u64) -> (lag: u64)
    ensures
        lag == if last_sequence > checkpoint {
            last_sequence - checkpoint
        } else {
            0
        },
{
    last_sequence.saturating_sub(checkpoint)
}

// ---------------------------------------------------------------- the report
/// What a node reports. Times are texts, in seconds.
pub struct Report {
    pub applied: u64,
    pub duplicates: u64,
    pub conflicts: u64,
    pub unavailable: u64,
    pub quorum_available: bool,
    pub lease_owned: bool,
    pub writer_epoch: u64,
    pub checkpoint: u64,
    pub last_sequence: u64,
    pub wal_bytes: u64,
    pub memory_bytes: u64,
    pub dedup_entries: u64,
    pub dedup_bytes: u64,
    pub history_entries: u64,
    pub history_bytes: u64,
    pub history_checkpoint: u64,
    pub stream_messages: u64,
    pub stream_bytes: u64,
    pub stream_max_bytes: u64,
    pub batch_requests: u64,
    pub pipeline_operations: u64,
    pub json_decode_seconds: String,
    pub preflight_seconds: String,
    pub quorum_seconds: String,
    pub apply_seconds: String,
    pub finish_seconds: String,
    pub handler_seconds: String,
}

/// The lines of a metric: its kind, and its value.
pub open spec fn metric_lines(name: Seq<char>, kind: Seq<char>, value: Seq<char>) -> Seq<char> {
    "# TYPE "@ + name + " "@ + kind + "\n"@ + name + " "@ + value + "\n"@
}

/// The lines of a count that only grows.
pub open spec fn counter_lines(name: Seq<char>, value: u64) -> Seq<char> {
    metric_lines(name, "counter"@, decimal_text(value as nat))
}

/// The lines of a value that goes up and down.
pub open spec fn gauge_lines(name: Seq<char>, value: u64) -> Seq<char> {
    metric_lines(name, "gauge"@, decimal_text(value as nat))
}

/// The lines of a time that only grows.
pub open spec fn seconds_lines(name: Seq<char>, value: Seq<char>) -> Seq<char> {
    metric_lines(name, "counter"@, value)
}

/// A yes or no as a number.
pub open spec fn flag_value(flag: bool) -> u64 {
    if flag {
        1
    } else {
        0
    }
}

/// How far a checkpoint is behind the log.
pub open spec fn lag_value(last_sequence: u64, checkpoint: u64) -> u64 {
    if last_sequence > checkpoint {
        (last_sequence - checkpoint) as u64
    } else {
        0
    }
}

/// The first part of a report: operations and replication.
pub open spec fn replication_text(report: Report) -> Seq<char> {
    counter_lines("warehouse_operations_applied_total"@, report.applied) + counter_lines(
        "warehouse_operations_duplicate_total"@,
        report.duplicates,
    ) + counter_lines("warehouse_conflicts_total"@, report.conflicts) + counter_lines(
        "warehouse_unavailable_total"@,
        report.unavailable,
    ) + gauge_lines("warehouse_quorum_available"@, flag_value(report.quorum_available)) + gauge_lines(
        "warehouse_writer_lease_owned"@,
        flag_value(report.lease_owned),
    ) + gauge_lines("warehouse_writer_epoch"@, report.writer_epoch) + gauge_lines(
        "warehouse_replication_checkpoint"@,
        report.checkpoint,
    ) + gauge_lines("warehouse_replication_last_sequence"@, report.last_sequence) + gauge_lines(
        "warehouse_replication_lag"@,
        lag_value(report.last_sequence, report.checkpoint),
    )
}

/// The second part of a report: what is stored.
pub open spec fn storage_text(report: Report) -> Seq<char> {
    gauge_lines("warehouse_wal_bytes"@, report.wal_bytes) + gauge_lines(
        "warehouse_process_memory_bytes"@,
        report.memory_bytes,
    ) + gauge_lines("warehouse_disk_dedup_entries"@, report.dedup_entries) + gauge_lines(
        "warehouse_disk_dedup_bytes"@,
        report.dedup_bytes,
    ) + gauge_lines("warehouse_history_entries"@, report.history_entries) + gauge_lines(
        "warehouse_history_bytes"@,
        report.history_bytes,
    ) + gauge_lines("warehouse_history_checkpoint"@, report.history_checkpoint) + gauge_lines(
        "warehouse_history_lag"@,
        lag_value(report.last_sequence, report.history_checkpoint),
    ) + gauge_lines("warehouse_stream_messages"@, report.stream_messages) + gauge_lines(
        "warehouse_stream_bytes"@,
        report.stream_bytes,
    ) + gauge_lines("warehouse_stream_max_bytes"@, report.stream_max_bytes)
}

/// The third part of a report: how batches pass through.
pub open spec fn pipeline_text(report: Report) -> Seq<char> {
    counter_lines("warehouse_pipeline_batch_requests_total"@, report.batch_requests) + counter_lines(
        "warehouse_pipeline_operations_total"@,
        report.pipeline_operations,
    ) + seconds_lines(
        "warehouse_pipeline_json_decode_seconds_total"@,
        report.json_decode_seconds@,
    ) + seconds_lines("warehouse_pipeline_preflight_seconds_total"@, report.preflight_seconds@)
        + seconds_lines("warehouse_pipeline_quorum_seconds_total"@, report.quorum_seconds@)
        + seconds_lines("warehouse_pipeline_wal_apply_seconds_total"@, report.apply_seconds@)
        + seconds_lines("warehouse_pipeline_publish_seconds_total"@, report.finish_seconds@)
        + seconds_lines("warehouse_pipeline_handler_seconds_total"@, report.handler_seconds@)
}

fn append_metric(out: &mut String, name: &str, kind: &str, value: &str)
    ensures
        final(out)@ == old(out)@ + metric_lines(name@, kind@, value@),
{
    out.append("# TYPE ");
    out.append(name);
    out.append(" ");
    out.append(kind);
    out.append("\n");
    out.append(name);
    out.append(" ");
    out.append(value);
    out.append("\n");
    assert(out@ =~= old(out)@ + metric_lines(name@, kind@, value@));
}

fn append_number(out: &mut String, name: &str, kind: &str, value: u64)
    ensures
        final(out)@ == old(out)@ + metric_lines(name@, kind@, decimal_text(value as nat)),
{
    let mut text: String = String::from_str("");
    proof {
        reveal_strlit("");
    }
    append_decimal(&mut text, value);
    assert(text@ =~= decimal_text(value as nat));
    append_metric(out, name, kind, text.as_str());
}

fn counter(out: &mut String, name: &str, value: u64)
    ensures
        final(out)@ == old(out)@ + counter_lines(name@, value),
{
    append_number(out, name, "counter", value);
}

fn gauge(out: &mut String, name: &str, value: u64)
    ensures
        final(out)@ == old(out)@ + gauge_lines(name@, value),
{
    append_number(out, name, "gauge", value);
}

fn seconds(out: &mut String, name: &str, value: &String)
    ensures
        final(out)@ == old(out)@ + seconds_lines(name@, value@),
{
    append_metric(out, name, "counter", value.as_str());
}

fn flag(value: bool) -> (number: u64)
    ensures
        number == flag_value(value),
{
    if value {
        1
    } else {
        0
    }
}

fn replication_part(report: &Report) -> (out: String)
    ensures
        out@ == replication_text(*report),
{
    let mut out: String = String::from_str("");
    proof {
        reveal_strlit("");
    }
    counter(&mut out, "warehouse_operations_applied_total", report.applied);
    assert(out@ =~= counter_lines("warehouse_operations_applied_total"@, report.applied));
    counter(&mut out, "warehouse_operations_duplicate_total", report.duplicates);
    counter(&mut out, "warehouse_conflicts_total", report.conflicts);
    counter(&mut out, "warehouse_unavailable_total", report.unavailable);
    gauge(&mut out, "warehouse_quorum_available", flag(report.quorum_available));
    gauge(&mut out, "warehouse_writer_lease_owned", flag(report.lease_owned));
    gauge(&mut out, "warehouse_writer_epoch", report.writer_epoch);
    gauge(&mut out, "warehouse_replication_checkpoint", report.checkpoint);
    gauge(&mut out, "warehouse_replication_last_sequence", report.last_sequence);
    gauge(&mut out, "warehouse_replication_lag", lag(report.last_sequence, report.checkpoint));
    out
}

fn storage_part(report: &Report) -> (out: String)
    ensures
        out@ == storage_text(*report),
{
    let mut out: String = String::from_str("");
    proof {
        reveal_strlit("");
    }
    gauge(&mut out, "warehouse_wal_bytes", report.wal_bytes);
    assert(out@ =~= gauge_lines("warehouse_wal_bytes"@, report.wal_bytes));
    gauge(&mut out, "warehouse_process_memory_bytes", report.memory_bytes);
    gauge(&mut out, "warehouse_disk_dedup_entries", report.dedup_entries);
    gauge(&mut out, "warehouse_disk_dedup_bytes", report.dedup_bytes);
    gauge(&mut out, "warehouse_history_entries", report.history_entries);
    gauge(&mut out, "warehouse_history_bytes", report.history_bytes);
    gauge(&mut out, "warehouse_history_checkpoint", report.history_checkpoint);
    gauge(&mut out, "warehouse_history_lag", lag(report.last_sequence, report.history_checkpoint));
    gauge(&mut out, "warehouse_stream_messages", report.stream_messages);
    gauge(&mut out, "warehouse_stream_bytes", report.stream_bytes);
    gauge(&mut out, "warehouse_stream_max_bytes", report.stream_max_bytes);
    out
}

fn pipeline_part(report: &Report) -> (out: String)
    ensures
        out@ == pipeline_text(*report),
{
    let mut out: String = String::from_str("");
    proof {
        reveal_strlit("");
    }
    counter(&mut out, "warehouse_pipeline_batch_requests_total", report.batch_requests);
    assert(out@ =~= counter_lines("warehouse_pipeline_batch_requests_total"@, report.batch_requests));
    counter(&mut out, "warehouse_pipeline_operations_total", report.pipeline_operations);
    seconds(&mut out, "warehouse_pipeline_json_decode_seconds_total", &report.json_decode_seconds);
    seconds(&mut out, "warehouse_pipeline_preflight_seconds_total", &report.preflight_seconds);
    seconds(&mut out, "warehouse_pipeline_quorum_seconds_total", &report.quorum_seconds);
    seconds(&mut out, "warehouse_pipeline_wal_apply_seconds_total", &report.apply_seconds);
    seconds(&mut out, "warehouse_pipeline_publish_seconds_total", &report.finish_seconds);
    seconds(&mut out, "warehouse_pipeline_handler_seconds_total", &report.handler_seconds);
    out
}

/// The report of a node, as a text.
pub fn render(report: &Report) -> (text: String)
    ensures
        text@ == replication_text(*report) + storage_text(*report) + pipeline_text(*report),
{
    let mut text: String = replication_part(report);
    text.append(storage_part(report).as_str());
    text.append(pipeline_part(report).as_str());
    text
}

/// What is known of the stream of the log for a report.
#[derive(Clone, Copy, Debug, PartialEq, Eq, Structural)]
pub struct StreamGauges {
    pub available: bool,
    pub last_sequence: u64,
    pub messages: u64,
    pub bytes: u64,
    pub max_bytes: u64,
}

/// What is reported of the stream of the log. `state` holds its last sequence, its
/// messages, its bytes and its limit, where it answered; where it did not, or there
/// is none, the log is taken to end at the checkpoint.
pub fn stream_gauges(state: Option<(u64, u64, u64, u64)>, checkpoint: u64) -> (gauges: StreamGauges)
    ensures
        gauges == (match state {
            Some((last_sequence, messages, bytes, max_bytes)) => StreamGauges {
                available: true,
                last_sequence,
                messages,
                bytes,
                max_bytes,
            },
            None => StreamGauges {
                available: false,
                last_sequence: checkpoint,
                messages: 0,
                bytes: 0,
                max_bytes: 0,
            },
        }),
        state is Some == gauges.available,
        lag_value(gauges.last_sequence, checkpoint) == match state {
            Some((last_sequence, messages, bytes, max_bytes)) => lag_value(last_sequence, checkpoint),
            None => 0,
        },
{
    match state {
        Some((last_sequence, messages, bytes, max_bytes)) => StreamGauges {
            available: true,
            last_sequence,
            messages,
            bytes,
            max_bytes,
        },
        None => StreamGauges {
            available: false,
            last_sequence: checkpoint,
            messages: 0,
            bytes: 0,
            max_bytes: 0,
        },
    }
}

// ---------------------------------------------------------------- memory
/// Where the line that begins at `start` ends.
pub open spec fn line_end(text: Seq<char>, start: int) -> int
    decreases text.len() - start,
{
    if start < 0 || start >= text.len() || text[start] == '\n' {
        start
    } else {
        line_end(text, start + 1)
    }
}

/// Whether a line begins with a prefix.
pub open spec fn line_begins(line: Seq<char>, prefix: Seq<char>) -> bool {
    prefix.len() <= line.len() && line.take(prefix.len() as int) == prefix
}

/// The first line from `start` on that begins with a prefix.
pub open spec fn find_line(text: Seq<char>, prefix: Seq<char>, start: int) -> Option<Seq<char>>
    decreases text.len() - start,
{
    if start < 0 || start >= text.len() {
        None
    } else {
        let end = line_end(text, start);
        let line = text.subrange(start, end);
        if line_begins(line, prefix) {
            Some(line)
        } else if end >= text.len() {
            None
        } else {
            proof {
                lemma_line_end(text, start);
            }
            find_line(text, prefix, end + 1)
        }
    }
}

/// A line ends where it begins or after, and within the text.
pub proof fn lemma_line_end(text: Seq<char>, start: int)
    requires
        0 <= start <= text.len(),
    ensures
        start <= line_end(text, start) <= text.len(),
    decreases text.len() - start,
{
    if start < text.len() && text[start] != '\n' {
        lemma_line_end(text, start + 1);
    }
}

/// The place of the first character from `start` on that is not white space.
pub open spec fn word_start(line: Seq<char>, start: int) -> int
    decreases line.len() - start,
{
    if start < 0 || start >= line.len() || !is_white_space(line[start]) {
        start
    } else {
        word_start(line, start + 1)
    }
}

/// The place of the first white space from `start` on.
pub open spec fn word_end(line: Seq<char>, start: int) -> int
    decreases line.len() - start,
{
    if start < 0 || start >= line.len() || is_white_space(line[start]) {
        start
    } else {
        word_end(line, start + 1)
    }
}

/// The second word of a line; empty where there is none.
pub open spec fn second_word(line: Seq<char>) -> Seq<char> {
    let start = word_start(line, word_end(line, word_start(line, 0)));
    line.subrange(start, word_end(line, start))
}

/// The resident memory that the status of a process says, in bytes: the number in
/// the line that begins with `VmRSS:`, which counts kilobytes.
pub open spec fn resident(status: Seq<char>) -> Option<nat> {
    match find_line(status, "VmRSS:"@, 0) {
        None => None,
        Some(line) => match parsed_decimal(second_word(line), u64::MAX as nat) {
            None => None,
            Some(kilobytes) => if kilobytes * 1024 <= u64::MAX {
                Some(kilobytes * 1024)
            } else {
                None
            },
        },
    }
}

fn find_line_end(text: &Vec<char>, start: usize) -> (end: usize)
    requires
        start <= text@.len(),
    ensures
        end == line_end(text@, start as int),
        start <= end <= text@.len(),
{
    let mut end: usize = start;
    while end < text.len() && text[end] != '\n'
        invariant
            start <= end <= text@.len(),
            line_end(text@, start as int) == line_end(text@, end as int),
        decreases text@.len() - end,
    {
        end = end + 1;
    }
    end
}

fn begins_with(text: &Vec<char>, start: usize, end: usize, prefix: &Vec<char>) -> (result: bool)
    requires
        start <= end <= text@.len(),
    ensures
        result == line_begins(text@.subrange(start as int, end as int), prefix@),
{
    let ghost line = text@.subrange(start as int, end as int);
    if prefix.len() > end - start {
        return false;
    }
    let mut at: usize = 0;
    while at < prefix.len()
        invariant
            at <= prefix@.len() <= line.len(),
            start <= end <= text@.len(),
            line == text@.subrange(start as int, end as int),
            forall|i: int| 0 <= i < at ==> line[i] == prefix@[i],
        decreases prefix@.len() - at,
    {
        if text[start + at] != prefix[at] {
            assert(line[at as int] != prefix@[at as int]);
            assert(line.take(prefix@.len() as int)[at as int] == line[at as int]);
            return false;
        }
        at = at + 1;
    }
    assert(line.take(prefix@.len() as int) =~= prefix@);
    true
}

fn sub_chars(text: &Vec<char>, start: usize, end: usize) -> (part: Vec<char>)
    requires
        start <= end <= text@.len(),
    ensures
        part@ == text@.subrange(start as int, end as int),
{
    let mut part: Vec<char> = Vec::new();
    let mut at: usize = start;
    while at < end
        invariant
            start <= at <= end <= text@.len(),
            part@ == text@.subrange(start as int, at as int),
        decreases end - at,
    {
        part.push(text[at]);
        at = at + 1;
        assert(part@ =~= text@.subrange(start as int, at as int));
    }
    part
}

fn skip_white_space(line: &Vec<char>, start: usize) -> (at: usize)
    requires
        start <= line@.len(),
    ensures
        at == word_start(line@, start as int),
        start <= at <= line@.len(),
{
    let mut at: usize = start;
    while at < line.len() && white_space(line[at])
        invariant
            start <= at <= line@.len(),
            word_start(line@, start as int) == word_start(line@, at as int),
        decreases line@.len() - at,
    {
        at = at + 1;
    }
    at
}

fn skip_word(line: &Vec<char>, start: usize) -> (at: usize)
    requires
        start <= line@.len(),
    ensures
        at == word_end(line@, start as int),
        start <= at <= line@.len(),
{
    let mut at: usize = start;
    while at < line.len() && !white_space(line[at])
        invariant
            start <= at <= line@.len(),
            word_end(line@, start as int) == word_end(line@, at as int),
        decreases line@.len() - at,
    {
        at = at + 1;
    }
    at
}

fn first_line(text: &Vec<char>, prefix: &Vec<char>) -> (line: Option<Vec<char>>)
    ensures
        match line {
            Some(line) => find_line(text@, prefix@, 0) == Some(line@),
            None => find_line(text@, prefix@, 0) is None,
        },
{
    let mut start: usize = 0;
    while start < text.len()
        invariant
            start <= text@.len(),
            find_line(text@, prefix@, 0) == find_line(text@, prefix@, start as int),
        decreases text@.len() - start,
    {
        let end: usize = find_line_end(text, start);
        if begins_with(text, start, end, prefix) {
            return Some(sub_chars(text, start, end));
        }
        if end == text.len() {
            return None;
        }
        start = end + 1;
    }
    None
}

/// The resident memory that the status of a process says, in bytes.
pub fn process_memory_bytes(status: &str) -> (bytes: Option<u64>)
    ensures
        match bytes {
            Some(bytes) => resident(status@) == Some(bytes as nat),
            None => resident(status@) is None,
        },
{
    let text: Vec<char> = char_vec(status);
    let prefix: Vec<char> = char_vec("VmRSS:");
    match first_line(&text, &prefix) {
        None => None,
        Some(line) => {
            let first: usize = skip_white_space(&line, 0);
            let gap: usize = skip_word(&line, first);
            let start: usize = skip_white_space(&line, gap);
            let end: usize = skip_word(&line, start);
            let word: Vec<char> = sub_chars(&line, start, end);
            match parse_decimal(&word) {
                None => None,
                Some(kilobytes) => kilobytes.checked_mul(1024),
            }
        },
    }
}

// ---------------------------------------------------------------- laws
/// Each answer is counted once, under its own status: one more answer adds one to the
/// count of its status and nothing to the other.
pub proof fn law_each_answer_is_counted_once(results: Seq<ApplyResult>, n: int)
    requires
        0 <= n < results.len(),
    ensures
        count_status(results, ApplyStatus::Applied, 0) == 0,
        count_status(results, ApplyStatus::Duplicate, 0) == 0,
        results[n].status == ApplyStatus::Applied ==> {
            &&& count_status(results, ApplyStatus::Applied, n + 1) == count_status(
                results,
                ApplyStatus::Applied,
                n,
            ) + 1
            &&& count_status(results, ApplyStatus::Duplicate, n + 1) == count_status(
                results,
                ApplyStatus::Duplicate,
                n,
            )
        },
        results[n].status == ApplyStatus::Duplicate ==> {
            &&& count_status(results, ApplyStatus::Duplicate, n + 1) == count_status(
                results,
                ApplyStatus::Duplicate,
                n,
            ) + 1
            &&& count_status(results, ApplyStatus::Applied, n + 1) == count_status(
                results,
                ApplyStatus::Applied,
                n,
            )
        },
{
}

/// Every answer is counted: the applied ones and the duplicates are all there are.
pub proof fn law_counts_add_up_to_all_answers(results: Seq<ApplyResult>, n: int)
    requires
        0 <= n <= results.len(),
    ensures
        count_status(results, ApplyStatus::Applied, n) + count_status(
            results,
            ApplyStatus::Duplicate,
            n,
        ) == n,
    decreases n,
{
    if n > 0 {
        law_counts_add_up_to_all_answers(results, n - 1);
    }
}

/// The lag is what is missing from the checkpoint to the last message, and nothing
/// where the checkpoint is there or beyond.
pub proof fn law_lag_is_what_is_missing(last_sequence: u64, checkpoint: u64)
    ensures
        last_sequence >= checkpoint ==> checkpoint + lag_value(last_sequence, checkpoint)
            == last_sequence,
        last_sequence <= checkpoint ==> lag_value(last_sequence, checkpoint) == 0,
        flag_value(true) == 1,
        flag_value(false) == 0,
{
}

/// The first part of a report gives, each under its name and with its type, what was
/// counted of requests and how far replication has come.
pub proof fn law_report_of_replication(report: Report)
    ensures
        ({
            let lines = |name: Seq<char>, kind: Seq<char>, value: int|
                "# TYPE "@ + name + " "@ + kind + "\n"@ + name + " "@ + decimal_text(value as nat)
                    + "\n"@;
            let flag = |set: bool|
                if set {
                    1int
                } else {
                    0int
                };
            replication_text(report) == lines(
                "warehouse_operations_applied_total"@,
                "counter"@,
                report.applied as int,
            ) + lines(
                "warehouse_operations_duplicate_total"@,
                "counter"@,
                report.duplicates as int,
            ) + lines("warehouse_conflicts_total"@, "counter"@, report.conflicts as int) + lines(
                "warehouse_unavailable_total"@,
                "counter"@,
                report.unavailable as int,
            ) + lines("warehouse_quorum_available"@, "gauge"@, flag(report.quorum_available)) + lines(
                "warehouse_writer_lease_owned"@,
                "gauge"@,
                flag(report.lease_owned),
            ) + lines("warehouse_writer_epoch"@, "gauge"@, report.writer_epoch as int) + lines(
                "warehouse_replication_checkpoint"@,
                "gauge"@,
                report.checkpoint as int,
            ) + lines(
                "warehouse_replication_last_sequence"@,
                "gauge"@,
                report.last_sequence as int,
            ) + lines(
                "warehouse_replication_lag"@,
                "gauge"@,
                if report.last_sequence > report.checkpoint {
                    report.last_sequence - report.checkpoint
                } else {
                    0
                },
            )
        }),
{
}

/// The second part of a report gives what is stored and how far the history has come.
pub proof fn law_report_of_storage(report: Report)
    ensures
        ({
            let lines = |name: Seq<char>, value: int|
                "# TYPE "@ + name + " "@ + "gauge"@ + "\n"@ + name + " "@ + decimal_text(value as nat)
                    + "\n"@;
            storage_text(report) == lines("warehouse_wal_bytes"@, report.wal_bytes as int) + lines(
                "warehouse_process_memory_bytes"@,
                report.memory_bytes as int,
            ) + lines("warehouse_disk_dedup_entries"@, report.dedup_entries as int) + lines(
                "warehouse_disk_dedup_bytes"@,
                report.dedup_bytes as int,
            ) + lines("warehouse_history_entries"@, report.history_entries as int) + lines(
                "warehouse_history_bytes"@,
                report.history_bytes as int,
            ) + lines("warehouse_history_checkpoint"@, report.history_checkpoint as int) + lines(
                "warehouse_history_lag"@,
                if report.last_sequence > report.history_checkpoint {
                    report.last_sequence - report.history_checkpoint
                } else {
                    0
                },
            ) + lines("warehouse_stream_messages"@, report.stream_messages as int) + lines(
                "warehouse_stream_bytes"@,
                report.stream_bytes as int,
            ) + lines("warehouse_stream_max_bytes"@, report.stream_max_bytes as int)
        }),
{
}

/// The last part of a report gives how many batches and operations went through, and
/// how long each part of the way took.
pub proof fn law_report_of_the_pipeline(report: Report)
    ensures
        ({
            let lines = |name: Seq<char>, value: Seq<char>|
                "# TYPE "@ + name + " "@ + "counter"@ + "\n"@ + name + " "@ + value + "\n"@;
            pipeline_text(report) == lines(
                "warehouse_pipeline_batch_requests_total"@,
                decimal_text(report.batch_requests as nat),
            ) + lines(
                "warehouse_pipeline_operations_total"@,
                decimal_text(report.pipeline_operations as nat),
            ) + lines(
                "warehouse_pipeline_json_decode_seconds_total"@,
                report.json_decode_seconds@,
            ) + lines("warehouse_pipeline_preflight_seconds_total"@, report.preflight_seconds@)
                + lines("warehouse_pipeline_quorum_seconds_total"@, report.quorum_seconds@) + lines(
                "warehouse_pipeline_wal_apply_seconds_total"@,
                report.apply_seconds@,
            ) + lines("warehouse_pipeline_publish_seconds_total"@, report.finish_seconds@) + lines(
                "warehouse_pipeline_handler_seconds_total"@,
                report.handler_seconds@,
            )
        }),
{
}

proof fn lemma_line_ends_before(text: Seq<char>, start: int, at: int)
    requires
        0 <= start <= at < text.len(),
        text[at] == '\n',
    ensures
        line_end(text, start) <= at,
    decreases at - start,
{
    if start < at && text[start] != '\n' {
        lemma_line_ends_before(text, start + 1, at);
    }
}

proof fn lemma_line_goes_on(text: Seq<char>, start: int, to: int)
    requires
        0 <= start <= to <= text.len(),
        forall|i: int| start <= i < to ==> #[trigger] text[i] != '\n',
    ensures
        line_end(text, start) == line_end(text, to),
    decreases to - start,
{
    if start < to {
        assert(text[start] != '\n');
        lemma_line_goes_on(text, start + 1, to);
    }
}

proof fn lemma_line_end_is_one(text: Seq<char>, start: int)
    requires
        0 <= start <= text.len(),
    ensures
        start <= line_end(text, start) <= text.len(),
        line_end(text, start) < text.len() ==> text[line_end(text, start)] == '\n',
    decreases text.len() - start,
{
    if start < text.len() && text[start] != '\n' {
        lemma_line_end_is_one(text, start + 1);
    }
}

proof fn lemma_begins_there(text: Seq<char>, prefix: Seq<char>, start: int)
    requires
        0 <= start < text.len(),
        line_begins(text.subrange(start, line_end(text, start)), prefix),
    ensures
        start + prefix.len() <= text.len(),
        text.subrange(start, start + prefix.len()) == prefix,
{
    lemma_line_end(text, start);
    let line = text.subrange(start, line_end(text, start));
    assert(text.subrange(start, start + prefix.len()) =~= line.take(prefix.len() as int));
}

/// Whether a line of a text begins at a place.
pub open spec fn is_line_start(text: Seq<char>, at: int) -> bool {
    at == 0 || (0 < at <= text.len() && text[at - 1] == '\n')
}

/// Whether a text holds a prefix at a place.
pub open spec fn holds_at(text: Seq<char>, prefix: Seq<char>, at: int) -> bool {
    0 <= at && at + prefix.len() <= text.len() && text.subrange(at, at + prefix.len()) == prefix
}

proof fn lemma_find_line(text: Seq<char>, prefix: Seq<char>, start: int, at: int)
    requires
        0 <= start <= at < text.len(),
        is_line_start(text, start),
        is_line_start(text, at),
        prefix.len() > 0,
        forall|i: int| 0 <= i < prefix.len() ==> #[trigger] prefix[i] != '\n',
        holds_at(text, prefix, at),
        forall|i: int|
            start <= i < at && #[trigger] is_line_start(text, i) ==> !holds_at(text, prefix, i),
    ensures
        find_line(text, prefix, start) == Some(text.subrange(at, line_end(text, at))),
    decreases at - start,
{
    let end = line_end(text, start);
    lemma_line_end_is_one(text, start);
    if start == at {
        assert forall|i: int| at <= i < at + prefix.len() implies #[trigger] text[i] != '\n' by {
            assert(text.subrange(at, at + prefix.len())[i - at] == prefix[i - at]);
        }
        lemma_line_goes_on(text, at, at + prefix.len());
        lemma_line_end_is_one(text, at + prefix.len());
        let line = text.subrange(at, end);
        assert(line.take(prefix.len() as int) =~= text.subrange(at, at + prefix.len()));
    } else {
        assert(text[at - 1] == '\n');
        lemma_line_ends_before(text, start, at - 1);
        if line_begins(text.subrange(start, end), prefix) {
            lemma_begins_there(text, prefix, start);
        }
        assert(text[end] == '\n');
        lemma_find_line(text, prefix, end + 1, at);
    }
}

proof fn lemma_find_no_line(text: Seq<char>, prefix: Seq<char>, start: int)
    requires
        0 <= start <= text.len(),
        is_line_start(text, start),
        forall|i: int|
            start <= i < text.len() && #[trigger] is_line_start(text, i) ==> !holds_at(
                text,
                prefix,
                i,
            ),
    ensures
        find_line(text, prefix, start) is None,
    decreases text.len() - start,
{
    if start < text.len() {
        let end = line_end(text, start);
        lemma_line_end_is_one(text, start);
        if line_begins(text.subrange(start, end), prefix) {
            lemma_begins_there(text, prefix, start);
        }
        if end < text.len() {
            assert(text[end] == '\n');
            lemma_find_no_line(text, prefix, end + 1);
        }
    }
}

proof fn lemma_word_start(line: Seq<char>, start: int, at: int)
    requires
        0 <= start <= at <= line.len(),
        forall|i: int| start <= i < at ==> is_white_space(#[trigger] line[i]),
        at < line.len() ==> !is_white_space(line[at]),
    ensures
        word_start(line, start) == at,
    decreases at - start,
{
    if start < at {
        assert(is_white_space(line[start]));
        lemma_word_start(line, start + 1, at);
    }
}

proof fn lemma_word_end(line: Seq<char>, start: int, at: int)
    requires
        0 <= start <= at <= line.len(),
        forall|i: int| start <= i < at ==> !is_white_space(#[trigger] line[i]),
        at < line.len() ==> is_white_space(line[at]),
    ensures
        word_end(line, start) == at,
    decreases at - start,
{
    if start < at {
        assert(!is_white_space(line[start]));
        lemma_word_end(line, start + 1, at);
    }
}

/// The second word of a line is what stands between the white space behind the first
/// word and the next white space or the end.
pub proof fn law_second_word(
    first: Seq<char>,
    gap: Seq<char>,
    second: Seq<char>,
    rest: Seq<char>,
)
    requires
        first.len() > 0,
        gap.len() > 0,
        second.len() > 0,
        forall|i: int| 0 <= i < first.len() ==> !is_white_space(#[trigger] first[i]),
        forall|i: int| 0 <= i < gap.len() ==> is_white_space(#[trigger] gap[i]),
        forall|i: int| 0 <= i < second.len() ==> !is_white_space(#[trigger] second[i]),
        rest.len() > 0 ==> is_white_space(rest[0]),
    ensures
        second_word(first + gap + second + rest) == second,
{
    let line = first + gap + second + rest;
    let a = first.len() as int;
    let b = a + gap.len();
    let c = b + second.len();
    assert forall|i: int| 0 <= i < a implies !is_white_space(#[trigger] line[i]) by {
        assert(line[i] == first[i]);
    }
    assert forall|i: int| a <= i < b implies is_white_space(#[trigger] line[i]) by {
        assert(line[i] == gap[i - a]);
    }
    assert forall|i: int| b <= i < c implies !is_white_space(#[trigger] line[i]) by {
        assert(line[i] == second[i - b]);
    }
    assert(!is_white_space(line[0]));
    assert(is_white_space(line[a]));
    assert(!is_white_space(line[b]));
    if c < line.len() {
        assert(line[c] == rest[0]);
    }
    lemma_word_start(line, 0, 0);
    lemma_word_end(line, 0, a);
    lemma_word_start(line, a, b);
    lemma_word_end(line, b, c);
    assert(line.subrange(b, c) =~= second);
}

/// The memory of a process is the number in the first line that says it, taken as
/// kilobytes, whatever the lines before and after it say.
pub proof fn law_memory_is_what_the_line_says(
    before: Seq<char>,
    gap: Seq<char>,
    digits: Seq<char>,
    rest: Seq<char>,
    after: Seq<char>,
)
    requires
        ({
            let text = before + "VmRSS:"@ + gap + digits + rest + after;
            &&& is_line_start(text, before.len() as int)
            &&& forall|i: int|
                0 <= i < before.len() && #[trigger] is_line_start(text, i) ==> !holds_at(
                    text,
                    "VmRSS:"@,
                    i,
                )
        }),
        gap.len() > 0,
        forall|i: int|
            0 <= i < gap.len() ==> is_white_space(#[trigger] gap[i]) && gap[i] != '\n',
        digits.len() > 0,
        forall|i: int| 0 <= i < digits.len() ==> '0' <= #[trigger] digits[i] <= '9',
        forall|i: int| 0 <= i < rest.len() ==> #[trigger] rest[i] != '\n',
        rest.len() > 0 ==> is_white_space(rest[0]),
        after.len() > 0 ==> after[0] == '\n',
    ensures
        ({
            let text = before + "VmRSS:"@ + gap + digits + rest + after;
            let kilobytes = crate::text::decimal_value(digits);
            &&& kilobytes * 1024 <= 0xffff_ffff_ffff_ffff ==> resident(text) == Some(
                kilobytes * 1024,
            )
            &&& kilobytes * 1024 > 0xffff_ffff_ffff_ffff ==> resident(text) is None
        }),
{
    reveal_strlit("VmRSS:");
    let name = "VmRSS:"@;
    let text = before + name + gap + digits + rest + after;
    let line = name + gap + digits + rest;
    let at = before.len() as int;
    assert(name.len() == 6);
    assert forall|i: int| 0 <= i < name.len() implies #[trigger] name[i] != '\n' && !is_white_space(
        name[i],
    ) by {}
    assert(text.subrange(at, at + name.len()) =~= name);
    lemma_find_line(text, name, 0, at);
    let end = at + line.len();
    assert forall|i: int| at <= i < end implies #[trigger] text[i] != '\n' by {
        assert(text[i] == line[i - at]);
        if i - at < 6 {
            assert(line[i - at] == name[i - at]);
        } else if i - at < 6 + gap.len() {
            assert(line[i - at] == gap[i - at - 6]);
        } else if i - at < 6 + gap.len() + digits.len() {
            assert(line[i - at] == digits[i - at - 6 - gap.len()]);
        } else {
            assert(line[i - at] == rest[i - at - 6 - gap.len() - digits.len()]);
        }
    }
    lemma_line_goes_on(text, at, end);
    if after.len() > 0 {
        assert(text[end] == after[0]);
    }
    assert(line_end(text, end) == end);
    assert(text.subrange(at, end) =~= line);
    assert forall|i: int| 0 <= i < digits.len() implies !is_white_space(#[trigger] digits[i]) by {
        assert('0' <= digits[i] <= '9');
    }
    law_second_word(name, gap, digits, rest);
    crate::text::law_number_is_digits(digits, u64::MAX as nat);
    if crate::text::decimal_value(digits) > u64::MAX {
        assert('0' <= digits[0] <= '9');
        assert(crate::text::decimal_digits(digits) == digits);
    }
}

/// Where no line says it, the memory of a process is not known.
pub proof fn law_memory_is_unknown_without_the_line(text: Seq<char>)
    requires
        forall|i: int|
            0 <= i < text.len() && #[trigger] is_line_start(text, i) ==> !holds_at(
                text,
                "VmRSS:"@,
                i,
            ),
    ensures
        resident(text) is None,
{
    lemma_find_no_line(text, "VmRSS:"@, 0);
}

/// What a refusal adds to the counts of conflicts and of unavailability.
pub open spec fn refusals_counted(kind: RefusalKind) -> (int, int) {
    match kind {
        RefusalKind::Conflict => (1, 0),
        RefusalKind::Unavailable => (0, 1),
        _ => (0, 0),
    }
}

/// A conflict is counted once as a conflict, unavailability once as such, and no other
/// refusal is counted.
pub proof fn law_refusals_are_counted_by_kind(kind: RefusalKind)
    ensures
        refusals_counted(kind).0 == 1 <==> kind == RefusalKind::Conflict,
        refusals_counted(kind).1 == 1 <==> kind == RefusalKind::Unavailable,
        0 <= refusals_counted(kind).0 <= 1,
        0 <= refusals_counted(kind).1 <= 1,
{
}

} // verus!
