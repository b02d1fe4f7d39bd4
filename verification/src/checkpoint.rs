//! The position in the replicated log up to which operations have been applied,
//! and the writer epoch that was active there.

use vstd::prelude::*;
use vstd::utf8::{decode_utf8, valid_utf8};

use crate::binary::{has_magic, starts_with};
use crate::codec::{
    get_uint, le_bytes, le_value, lemma_le_bytes_len, lemma_le_value_of_bytes, lemma_pow256_values,
    put_uint, utf8_text,
};
use crate::text::{char_vec, parse_decimal, parsed_decimal, trim_chars, trimmed};

verus! {

/// Why a stored checkpoint cannot be used.
#[derive(Clone, Copy, Debug, PartialEq, Eq, Structural)]
pub enum CheckpointError {
    /// The file is neither a checkpoint record nor text.
    InvalidUtf8,
    /// The text is neither a JSON checkpoint nor a number.
    InvalidText,
}

/// A position in the replicated log and the writer epoch that is active there.
#[derive(Clone, Copy, Debug, PartialEq, Eq, Structural)]
pub struct Checkpoint {
    pub sequence: u64,
    pub writer_epoch: u64,
}

/// A stored checkpoint.
#[derive(Debug)]
pub enum OpenedCheckpoint {
    /// A checkpoint record.
    Record(Checkpoint),
    /// The text of an older checkpoint: JSON, or a bare sequence number.
    Text(String),
}

/// The magic of a checkpoint record: `WCP1`.
pub open spec fn checkpoint_magic() -> Seq<u8> {
    seq![0x57u8, 0x43, 0x50, 0x31]
}

/// The record of a checkpoint.
pub open spec fn checkpoint_record(checkpoint: Checkpoint) -> Seq<u8> {
    checkpoint_magic() + le_bytes(checkpoint.sequence as nat, 8) + le_bytes(
        checkpoint.writer_epoch as nat,
        8,
    )
}

/// Whether `data` is a checkpoint record.
pub open spec fn is_record(data: Seq<u8>) -> bool {
    has_magic(data, checkpoint_magic()) && data.len() == 20
}

/// The checkpoint that a record holds.
pub open spec fn read_record(data: Seq<u8>) -> Checkpoint {
    Checkpoint {
        sequence: le_value(data.subrange(4, 12)) as u64,
        writer_epoch: le_value(data.subrange(12, 20)) as u64,
    }
}

/// The checkpoint that an older text holds: the reading as JSON where there is
/// one, else the number that it is, with epoch 0.
pub open spec fn read_text(json: Option<Checkpoint>, text: Seq<char>) -> Option<Checkpoint> {
    match json {
        Some(checkpoint) => Some(checkpoint),
        None => match parsed_decimal(trimmed(text), u64::MAX as nat) {
            Some(sequence) => Some(Checkpoint { sequence: sequence as u64, writer_epoch: 0 }),
            None => None,
        },
    }
}

/// The checkpoint after a request to move it: it never moves back.
pub open spec fn advanced(checkpoint: Checkpoint, next: u64, writer_epoch: u64) -> Checkpoint {
    if next <= checkpoint.sequence {
        checkpoint
    } else {
        Checkpoint { sequence: next, writer_epoch }
    }
}

impl Checkpoint {
    /// The checkpoint before anything has been applied.
    pub fn new() -> (checkpoint: Self)
        ensures
            checkpoint == (Checkpoint { sequence: 0, writer_epoch: 0 }),
    {
        Checkpoint { sequence: 0, writer_epoch: 0 }
    }

    /// Reads a stored checkpoint.
    pub fn open(data: &[u8]) -> (result: Result<OpenedCheckpoint, CheckpointError>)
        ensures
            is_record(data@) ==> (result matches Ok(OpenedCheckpoint::Record(checkpoint))
                && checkpoint == read_record(data@)),
            !is_record(data@) && valid_utf8(data@) ==> (result matches Ok(
                OpenedCheckpoint::Text(text),
            ) && text@ == decode_utf8(data@)),
            !is_record(data@) && !valid_utf8(data@) ==> (result matches Err(e) && e
                == CheckpointError::InvalidUtf8),
    {
        if data.len() == 20 && starts_with(data, 0x57, 0x43, 0x50, 0x31) {
            let sequence: u64 = get_uint(vstd::slice::slice_subrange(data, 4, 12));
            let writer_epoch: u64 = get_uint(vstd::slice::slice_subrange(data, 12, 20));
            return Ok(OpenedCheckpoint::Record(Checkpoint { sequence, writer_epoch }));
        }
        match utf8_text(data) {
            Some(text) => {
                proof {
                    vstd::utf8::encode_utf8_decode_utf8(text@);
                }
                Ok(OpenedCheckpoint::Text(text))
            },
            None => Err(CheckpointError::InvalidUtf8),
        }
    }

    /// Reads the text of an older checkpoint, which has been read as JSON to `json`.
    pub fn from_text(json: Option<Checkpoint>, text: &str) -> (result: Result<
        Checkpoint,
        CheckpointError,
    >)
        ensures
            result == (match read_text(json, text@) {
                Some(checkpoint) => Ok::<Checkpoint, CheckpointError>(checkpoint),
                None => Err::<Checkpoint, CheckpointError>(CheckpointError::InvalidText),
            }),
    {
        match json {
            Some(checkpoint) => Ok(checkpoint),
            None => {
                let chars: Vec<char> = char_vec(text);
                let inner: Vec<char> = trim_chars(&chars);
                match parse_decimal(&inner) {
                    Some(sequence) => Ok(Checkpoint { sequence, writer_epoch: 0 }),
                    None => Err(CheckpointError::InvalidText),
                }
            },
        }
    }

    /// The position up to which operations have been applied.
    pub fn current(&self) -> (sequence: u64)
        ensures
            sequence == self.sequence,
    {
        self.sequence
    }

    /// The writer epoch that is active at the position.
    pub fn writer_epoch(&self) -> (epoch: u64)
        ensures
            epoch == self.writer_epoch,
    {
        self.writer_epoch
    }

    /// Moves the checkpoint forward, and says whether it moved: only then does it
    /// have to be stored.
    pub fn advance(&mut self, next: u64, writer_epoch: u64) -> (moved: bool)
        ensures
            *final(self) == advanced(*old(self), next, writer_epoch),
            moved == (next > old(self).sequence),
    {
        if next <= self.sequence {
            return false;
        }
        self.sequence = next;
        self.writer_epoch = writer_epoch;
        true
    }

    /// Moves the checkpoint to the beginning.
    pub fn reset(&mut self)
        ensures
            *final(self) == (Checkpoint { sequence: 0, writer_epoch: 0 }),
    {
        self.sequence = 0;
        self.writer_epoch = 0;
    }

    /// The record of the checkpoint.
    pub fn encode(&self) -> (record: Vec<u8>)
        ensures
            record@ == checkpoint_record(*self),
    {
        let mut record: Vec<u8> = Vec::new();
        record.push(0x57);
        record.push(0x43);
        record.push(0x50);
        record.push(0x31);
        assert(record@ =~= checkpoint_magic());
        put_uint(&mut record, self.sequence, 8);
        put_uint(&mut record, self.writer_epoch, 8);
        record
    }
}

/// A stored checkpoint reads back as it was.
pub proof fn law_checkpoint_survives_reopen(checkpoint: Checkpoint)
    ensures
        is_record(checkpoint_record(checkpoint)),
        read_record(checkpoint_record(checkpoint)) == checkpoint,
{
    let record = checkpoint_record(checkpoint);
    let sequence = le_bytes(checkpoint.sequence as nat, 8);
    let epoch = le_bytes(checkpoint.writer_epoch as nat, 8);
    lemma_pow256_values();
    lemma_le_bytes_len(checkpoint.sequence as nat, 8);
    lemma_le_bytes_len(checkpoint.writer_epoch as nat, 8);
    lemma_le_value_of_bytes(checkpoint.sequence as nat, 8);
    lemma_le_value_of_bytes(checkpoint.writer_epoch as nat, 8);
    assert(record.subrange(0, 4) =~= checkpoint_magic());
    assert(record.subrange(4, 12) =~= sequence);
    assert(record.subrange(12, 20) =~= epoch);
}

/// A checkpoint never moves back, and a request that does not move it forward
/// leaves it as it was, epoch and all.
pub proof fn law_checkpoint_is_monotonic(checkpoint: Checkpoint, next: u64, writer_epoch: u64)
    ensures
        advanced(checkpoint, next, writer_epoch).sequence >= checkpoint.sequence,
        advanced(checkpoint, next, writer_epoch).sequence >= next,
        next <= checkpoint.sequence ==> advanced(checkpoint, next, writer_epoch) == checkpoint,
        advanced(advanced(checkpoint, next, writer_epoch), next, writer_epoch) == advanced(
            checkpoint,
            next,
            writer_epoch,
        ),
{
}

/// A request that goes beyond the checkpoint moves it there, with the writer epoch of
/// the request.
pub proof fn law_checkpoint_moves_to_what_is_asked(
    checkpoint: Checkpoint,
    next: u64,
    writer_epoch: u64,
)
    requires
        next > checkpoint.sequence,
    ensures
        advanced(checkpoint, next, writer_epoch).sequence == next,
        advanced(checkpoint, next, writer_epoch).writer_epoch == writer_epoch,
{
}

/// A record holds four bytes of magic, the position and the writer epoch, each in
/// eight bytes with the lowest first; nothing else is a record.
pub proof fn law_checkpoint_record_layout(checkpoint: Checkpoint, data: Seq<u8>)
    ensures
        checkpoint_record(checkpoint) == seq![0x57u8, 0x43, 0x50, 0x31] + le_bytes(
            checkpoint.sequence as nat,
            8,
        ) + le_bytes(checkpoint.writer_epoch as nat, 8),
        is_record(data) <==> data.len() == 20 && data[0] == 0x57 && data[1] == 0x43 && data[2] == 0x50
            && data[3] == 0x31,
        is_record(data) ==> read_record(data).sequence == le_value(data.subrange(4, 12))
            && read_record(data).writer_epoch == le_value(data.subrange(12, 20)),
{
    if data.len() == 20 {
        assert(data.take(4) =~= seq![data[0], data[1], data[2], data[3]]);
        lemma_pow256_values();
        crate::codec::lemma_le_value_bound(data.subrange(4, 12));
        crate::codec::lemma_le_value_bound(data.subrange(12, 20));
    }
    if is_record(data) {
        let magic = seq![0x57u8, 0x43, 0x50, 0x31];
        assert(data[0] == magic[0] && data[1] == magic[1] && data[2] == magic[2] && data[3]
            == magic[3]);
    }
}

/// An older text is read as JSON where it can be, and else as a number with white
/// space round it, which then has epoch zero.
pub proof fn law_older_checkpoint_is_json_or_a_number(
    json: Checkpoint,
    text: Seq<char>,
    sequence: u64,
)
    ensures
        read_text(Some(json), text) == Some(json),
        parsed_decimal(trimmed(text), 0xffff_ffff_ffff_ffff) is None ==> read_text(None, text) is None,
        parsed_decimal(trimmed(text), 0xffff_ffff_ffff_ffff) == Some(sequence as nat) ==> read_text(
            None,
            text,
        ) == Some(Checkpoint { sequence, writer_epoch: 0 }),
{
}

} // verus!
