//! Snapshots of the materialized state: a header of magic, payload length and
//! SHA-256 digest, and a payload of balances and deduplication entries.

use vstd::prelude::*;

use crate::binary::whole;
use crate::codec::{
    get_uint, i64_bits, i64_of_bits, i64_to_bits, le_bytes, le_value, lemma_concat_assoc,
    lemma_concat_empty, lemma_i64_bits, lemma_i64_of_bits, lemma_le_bytes_len, lemma_le_value_of_bytes,
    lemma_parse_string_read, lemma_parse_string_written, lemma_parse_uint_read, lemma_parse_uint_written,
    lemma_pow256_values, parse_string, parse_take, parse_uint, put_bytes, put_string, put_uint,
    string_bytes, string_fits, CodecError, Reader,
};
use crate::digest::{sha256, sha256_digest};

verus! {

/// The bytes of a snapshot's header.
pub const HEADER_SIZE: usize = 48;

/// The most items of a kind that a snapshot may hold to be readable.
pub const MAX_ITEMS: u64 = 100_000_000;

/// The most bytes that a snapshot's payload may have to be readable.
pub const MAX_PAYLOAD: u64 = 4_294_967_296;

/// The balance of one owner and stock-keeping unit.
#[derive(Debug)]
pub struct BalanceSnapshot {
    pub owner_id: String,
    pub sku: String,
    pub balance: i64,
}

/// A committed operation identifier and the fingerprint of its operation.
#[derive(Debug)]
pub struct DedupSnapshot {
    pub operation_id: String,
    pub fingerprint: [u8; 32],
}

/// The materialized state up to a position of the replicated log.
#[derive(Debug)]
pub struct SnapshotData {
    pub version: u32,
    pub sequence: u64,
    pub balances: Vec<BalanceSnapshot>,
    pub dedup: Vec<DedupSnapshot>,
    pub writer_epoch: u64,
}

/// What a balance entry says.
pub ghost struct BalanceView {
    pub owner_id: Seq<char>,
    pub sku: Seq<char>,
    pub balance: i64,
}

/// What a deduplication entry says.
pub ghost struct DedupView {
    pub operation_id: Seq<char>,
    pub fingerprint: [u8; 32],
}

/// What a snapshot says.
pub ghost struct SnapshotView {
    pub version: u32,
    pub sequence: u64,
    pub balances: Seq<BalanceView>,
    pub dedup: Seq<DedupView>,
    pub writer_epoch: u64,
}

impl View for BalanceSnapshot {
    type V = BalanceView;

    open spec fn view(&self) -> BalanceView {
        BalanceView { owner_id: self.owner_id@, sku: self.sku@, balance: self.balance }
    }
}

impl View for DedupSnapshot {
    type V = DedupView;

    open spec fn view(&self) -> DedupView {
        DedupView { operation_id: self.operation_id@, fingerprint: self.fingerprint }
    }
}

/// What the balance entries of a snapshot say.
pub open spec fn balance_views(balances: Seq<BalanceSnapshot>) -> Seq<BalanceView> {
    balances.map_values(|entry: BalanceSnapshot| entry@)
}

/// What the deduplication entries of a snapshot say.
pub open spec fn dedup_views(dedup: Seq<DedupSnapshot>) -> Seq<DedupView> {
    dedup.map_values(|entry: DedupSnapshot| entry@)
}

impl View for SnapshotData {
    type V = SnapshotView;

    open spec fn view(&self) -> SnapshotView {
        SnapshotView {
            version: self.version,
            sequence: self.sequence,
            balances: balance_views(self.balances@),
            dedup: dedup_views(self.dedup@),
            writer_epoch: self.writer_epoch,
        }
    }
}

/// Why a snapshot cannot be used.
#[derive(Clone, Copy, Debug, PartialEq, Eq, Structural)]
pub enum SnapshotError {
    /// There are fewer bytes than a header has.
    HeaderTruncated,
    /// The magic is neither the current nor the older one.
    WrongMagic,
    /// The header says that the payload has more than 4 GiB.
    TooLarge,
    /// The payload does not have the length that the header says.
    LengthMismatch,
    /// The payload does not have the digest that the header says.
    ChecksumMismatch,
    /// The payload cannot be read.
    InvalidPayload(CodecError),
    /// The payload of an older snapshot cannot be read.
    InvalidLegacyPayload,
    /// The version is none of those that are supported.
    UnsupportedVersion(u32),
}

// ---------------------------------------------------------------- the format
/// The magic of a snapshot: `WHSNAP02`.
pub open spec fn magic() -> Seq<u8> {
    seq![0x57u8, 0x48, 0x53, 0x4e, 0x41, 0x50, 0x30, 0x32]
}

/// The magic of an older snapshot, whose payload is JSON: `WHSNAP01`.
pub open spec fn legacy_magic() -> Seq<u8> {
    seq![0x57u8, 0x48, 0x53, 0x4e, 0x41, 0x50, 0x30, 0x31]
}

pub open spec fn balance_fits(entry: BalanceView) -> bool {
    string_fits(entry.owner_id) && string_fits(entry.sku)
}

/// Whether every string of a snapshot fits its field.
pub open spec fn snapshot_fits(snapshot: SnapshotView) -> bool {
    &&& forall|i: int|
        0 <= i < snapshot.balances.len() ==> balance_fits(#[trigger] snapshot.balances[i])
    &&& forall|i: int|
        0 <= i < snapshot.dedup.len() ==> string_fits((#[trigger] snapshot.dedup[i]).operation_id)
}

pub open spec fn balance_body(entry: BalanceView) -> Seq<u8> {
    string_bytes(entry.owner_id) + string_bytes(entry.sku) + le_bytes(i64_bits(entry.balance), 8)
}

pub open spec fn dedup_body(entry: DedupView) -> Seq<u8> {
    string_bytes(entry.operation_id) + entry.fingerprint@
}

pub open spec fn balances_body(entries: Seq<BalanceView>) -> Seq<u8>
    decreases entries.len(),
{
    if entries.len() == 0 {
        Seq::empty()
    } else {
        balances_body(entries.drop_last()) + balance_body(entries.last())
    }
}

pub open spec fn dedups_body(entries: Seq<DedupView>) -> Seq<u8>
    decreases entries.len(),
{
    if entries.len() == 0 {
        Seq::empty()
    } else {
        dedups_body(entries.drop_last()) + dedup_body(entries.last())
    }
}

/// The writer epoch, which a snapshot carries from version 3 on.
pub open spec fn epoch_body(snapshot: SnapshotView) -> Seq<u8> {
    if snapshot.version >= 3 {
        le_bytes(snapshot.writer_epoch as nat, 8)
    } else {
        Seq::empty()
    }
}

/// The payload of a snapshot.
pub open spec fn payload(snapshot: SnapshotView) -> Seq<u8> {
    le_bytes(snapshot.version as nat, 4) + le_bytes(snapshot.sequence as nat, 8) + le_bytes(
        snapshot.balances.len(),
        8,
    ) + balances_body(snapshot.balances) + le_bytes(snapshot.dedup.len(), 8) + dedups_body(
        snapshot.dedup,
    ) + epoch_body(snapshot)
}

/// A snapshot file: the magic, the length of the payload, its digest, and the
/// payload.
pub open spec fn snapshot_file(magic: Seq<u8>, payload: Seq<u8>) -> Seq<u8> {
    magic + le_bytes(payload.len(), 8) + sha256(payload)@ + payload
}

// ---------------------------------------------------------------- writing
fn put_magic(out: &mut Vec<u8>, last: u8)
    ensures
        last == 0x32 ==> final(out)@ == old(out)@ + magic(),
        last == 0x31 ==> final(out)@ == old(out)@ + legacy_magic(),
{
    out.push(0x57);
    out.push(0x48);
    out.push(0x53);
    out.push(0x4e);
    out.push(0x41);
    out.push(0x50);
    out.push(0x30);
    out.push(last);
    assert(last == 0x32 ==> out@ =~= old(out)@ + magic());
    assert(last == 0x31 ==> out@ =~= old(out)@ + legacy_magic());
}

/// Puts a header in front of a payload.
fn put_file(last: u8, payload: &[u8]) -> (file: Vec<u8>)
    ensures
        last == 0x32 ==> file@ == snapshot_file(magic(), payload@),
        last == 0x31 ==> file@ == snapshot_file(legacy_magic(), payload@),
{
    let mut file: Vec<u8> = Vec::new();
    put_magic(&mut file, last);
    put_uint(&mut file, payload.len() as u64, 8);
    let digest: [u8; 32] = sha256_digest(payload);
    put_bytes(&mut file, digest.as_slice());
    put_bytes(&mut file, payload);
    assert(last == 0x32 ==> file@ =~= snapshot_file(magic(), payload@));
    assert(last == 0x31 ==> file@ =~= snapshot_file(legacy_magic(), payload@));
    file
}

/// The file of an older snapshot, around its JSON payload.
pub fn legacy_file(payload: &[u8]) -> (file: Vec<u8>)
    ensures
        file@ == snapshot_file(legacy_magic(), payload@),
{
    put_file(0x31, payload)
}

fn put_balances(out: &mut Vec<u8>, entries: &Vec<BalanceSnapshot>) -> (result: Result<(), CodecError>)
    ensures
        ({
            let views = balance_views(entries@);
            let fits = forall|i: int| 0 <= i < views.len() ==> balance_fits(#[trigger] views[i]);
            &&& fits ==> result is Ok && final(out)@ == old(out)@ + balances_body(views)
            &&& !fits ==> result == Err::<(), CodecError>(CodecError::StringTooLong)
        }),
{
    let ghost views = balance_views(entries@);
    let mut at: usize = 0;
    assert(views.take(0) =~= Seq::empty());
    assert(out@ + balances_body(views.take(0)) =~= out@);
    while at < entries.len()
        invariant
            at <= entries@.len(),
            views == balance_views(entries@),
            forall|i: int| 0 <= i < at ==> balance_fits(#[trigger] views[i]),
            out@ == old(out)@ + balances_body(views.take(at as int)),
        decreases entries@.len() - at,
    {
        let ghost before = out@;
        let entry: &BalanceSnapshot = &entries[at];
        assert(views[at as int] == entry@);
        put_string(out, &entry.owner_id)?;
        put_string(out, &entry.sku)?;
        put_uint(out, i64_to_bits(entry.balance), 8);
        proof {
            let next = views.take(at as int + 1);
            assert(next.drop_last() =~= views.take(at as int));
            assert(next.last() == entry@);
            assert(out@ =~= before + balance_body(entry@));
            assert(out@ =~= old(out)@ + balances_body(next));
        }
        at = at + 1;
    }
    assert(views.take(views.len() as int) =~= views);
    Ok(())
}

fn put_dedups(out: &mut Vec<u8>, entries: &Vec<DedupSnapshot>) -> (result: Result<(), CodecError>)
    ensures
        ({
            let views = dedup_views(entries@);
            let fits = forall|i: int|
                0 <= i < views.len() ==> string_fits((#[trigger] views[i]).operation_id);
            &&& fits ==> result is Ok && final(out)@ == old(out)@ + dedups_body(views)
            &&& !fits ==> result == Err::<(), CodecError>(CodecError::StringTooLong)
        }),
{
    let ghost views = dedup_views(entries@);
    let mut at: usize = 0;
    assert(views.take(0) =~= Seq::empty());
    assert(out@ + dedups_body(views.take(0)) =~= out@);
    while at < entries.len()
        invariant
            at <= entries@.len(),
            views == dedup_views(entries@),
            forall|i: int| 0 <= i < at ==> string_fits((#[trigger] views[i]).operation_id),
            out@ == old(out)@ + dedups_body(views.take(at as int)),
        decreases entries@.len() - at,
    {
        let ghost before = out@;
        let entry: &DedupSnapshot = &entries[at];
        assert(views[at as int] == entry@);
        put_string(out, &entry.operation_id)?;
        put_bytes(out, entry.fingerprint.as_slice());
        proof {
            let next = views.take(at as int + 1);
            assert(next.drop_last() =~= views.take(at as int));
            assert(next.last() == entry@);
            assert(out@ =~= before + dedup_body(entry@));
            assert(out@ =~= old(out)@ + dedups_body(next));
        }
        at = at + 1;
    }
    assert(views.take(views.len() as int) =~= views);
    Ok(())
}

/// The payload of a snapshot. It can be written exactly where each of its
/// strings has at most 65535 bytes.
pub fn encode(snapshot: &SnapshotData) -> (result: Result<Vec<u8>, CodecError>)
    ensures
        match result {
            Ok(bytes) => snapshot_fits(snapshot@) && bytes@ == payload(snapshot@),
            Err(e) => !snapshot_fits(snapshot@) && e == CodecError::StringTooLong,
        },
{
    let mut out: Vec<u8> = Vec::new();
    put_uint(&mut out, snapshot.version as u64, 4);
    put_uint(&mut out, snapshot.sequence, 8);
    put_uint(&mut out, snapshot.balances.len() as u64, 8);
    put_balances(&mut out, &snapshot.balances)?;
    put_uint(&mut out, snapshot.dedup.len() as u64, 8);
    put_dedups(&mut out, &snapshot.dedup)?;
    if snapshot.version >= 3 {
        put_uint(&mut out, snapshot.writer_epoch, 8);
    }
    assert(out@ =~= payload(snapshot@));
    Ok(out)
}

/// The file of a snapshot.
pub fn save(snapshot: &SnapshotData) -> (result: Result<Vec<u8>, CodecError>)
    ensures
        match result {
            Ok(file) => snapshot_fits(snapshot@) && file@ == snapshot_file(
                magic(),
                payload(snapshot@),
            ),
            Err(e) => !snapshot_fits(snapshot@) && e == CodecError::StringTooLong,
        },
{
    let payload: Vec<u8> = encode(snapshot)?;
    Ok(put_file(0x32, payload.as_slice()))
}

// ---------------------------------------------------------------- reading
/// The balance entry at the front of `s`, and the rest.
pub open spec fn parse_balance(s: Seq<u8>) -> Result<(BalanceView, Seq<u8>), CodecError> {
    match parse_string(s) {
        Err(e) => Err(e),
        Ok((owner_id, s1)) => match parse_string(s1) {
            Err(e) => Err(e),
            Ok((sku, s2)) => match parse_uint(s2, 8) {
                Err(e) => Err(e),
                Ok((bits, rest)) => Ok(
                    (BalanceView { owner_id, sku, balance: i64_of_bits(bits) }, rest),
                ),
            },
        },
    }
}

/// The 32 bytes of a fingerprint.
pub open spec fn array_of(bytes: Seq<u8>) -> [u8; 32] {
    choose|a: [u8; 32]| a@ == bytes
}

/// The deduplication entry at the front of `s`, and the rest.
pub open spec fn parse_dedup(s: Seq<u8>) -> Result<(DedupView, Seq<u8>), CodecError> {
    match parse_string(s) {
        Err(e) => Err(e),
        Ok((operation_id, s1)) => match parse_take(s1, 32) {
            Err(e) => Err(e),
            Ok((bytes, rest)) => Ok((DedupView { operation_id, fingerprint: array_of(bytes) }, rest)),
        },
    }
}

/// `n` balance entries at the front of `s`, and the rest.
pub open spec fn parse_balances(s: Seq<u8>, n: nat) -> Result<
    (Seq<BalanceView>, Seq<u8>),
    CodecError,
>
    decreases n,
{
    if n == 0 {
        Ok((Seq::empty(), s))
    } else {
        match parse_balances(s, (n - 1) as nat) {
            Err(e) => Err(e),
            Ok((entries, after)) => match parse_balance(after) {
                Err(e) => Err(e),
                Ok((entry, rest)) => Ok((entries.push(entry), rest)),
            },
        }
    }
}

/// `n` deduplication entries at the front of `s`, and the rest.
pub open spec fn parse_dedups(s: Seq<u8>, n: nat) -> Result<(Seq<DedupView>, Seq<u8>), CodecError>
    decreases n,
{
    if n == 0 {
        Ok((Seq::empty(), s))
    } else {
        match parse_dedups(s, (n - 1) as nat) {
            Err(e) => Err(e),
            Ok((entries, after)) => match parse_dedup(after) {
                Err(e) => Err(e),
                Ok((entry, rest)) => Ok((entries.push(entry), rest)),
            },
        }
    }
}

/// A count of items at the front of `s`, and the rest.
pub open spec fn parse_count(s: Seq<u8>) -> Result<(nat, Seq<u8>), CodecError> {
    match parse_uint(s, 8) {
        Err(e) => Err(e),
        Ok((n, rest)) => if n > MAX_ITEMS {
            Err(CodecError::CountTooLarge)
        } else {
            Ok((n, rest))
        },
    }
}

/// The writer epoch at the front of `s`, and the rest: zero before version 3.
pub open spec fn parse_epoch(s: Seq<u8>, version: nat) -> Result<(nat, Seq<u8>), CodecError> {
    if version >= 3 {
        parse_uint(s, 8)
    } else {
        Ok((0, s))
    }
}

/// The balance entries behind their count, at the front of `s`, and the rest.
pub open spec fn parse_balance_list(s: Seq<u8>) -> Result<(Seq<BalanceView>, Seq<u8>), CodecError> {
    match parse_count(s) {
        Err(e) => Err(e),
        Ok((n, after)) => parse_balances(after, n),
    }
}

/// The deduplication entries behind their count, at the front of `s`, and the rest.
pub open spec fn parse_dedup_list(s: Seq<u8>) -> Result<(Seq<DedupView>, Seq<u8>), CodecError> {
    match parse_count(s) {
        Err(e) => Err(e),
        Ok((n, after)) => parse_dedups(after, n),
    }
}

/// A snapshot's payload at the front of `s`, and the rest.
pub open spec fn parse_payload(s: Seq<u8>) -> Result<(SnapshotView, Seq<u8>), CodecError> {
    match parse_uint(s, 4) {
        Err(e) => Err(e),
        Ok((version, s1)) => match parse_uint(s1, 8) {
            Err(e) => Err(e),
            Ok((sequence, s2)) => match parse_balance_list(s2) {
                Err(e) => Err(e),
                Ok((balances, s3)) => match parse_dedup_list(s3) {
                    Err(e) => Err(e),
                    Ok((dedup, s4)) => match parse_epoch(s4, version) {
                        Err(e) => Err(e),
                        Ok((epoch, rest)) => Ok(
                            (
                                SnapshotView {
                                    version: version as u32,
                                    sequence: sequence as u64,
                                    balances,
                                    dedup,
                                    writer_epoch: epoch as u64,
                                },
                                rest,
                            ),
                        ),
                    },
                },
            },
        },
    }
}

/// The snapshot that a payload holds.
pub open spec fn read_payload(s: Seq<u8>) -> Result<SnapshotView, CodecError> {
    whole(parse_payload(s))
}

fn take_fingerprint(reader: &mut Reader) -> (result: Result<[u8; 32], CodecError>)
    requires
        old(reader).wf(),
    ensures
        final(reader).wf(),
        match parse_take(old(reader).rest(), 32) {
            Ok((bytes, rest)) => result == Ok::<[u8; 32], CodecError>(array_of(bytes)) && final(reader).rest()
                == rest,
            Err(e) => result == Err::<[u8; 32], CodecError>(e),
        },
{
    let bytes: &[u8] = reader.take(32)?;
    let array: [u8; 32] = to_array(bytes);
    proof {
        lemma_array_of(array);
    }
    Ok(array)
}

/// The array of an array's bytes is the array.
pub proof fn lemma_array_of(a: [u8; 32])
    ensures
        array_of(a@) == a,
{
    let b = array_of(a@);
    assert(b@ == a@);
    assert(b =~= a);
}

/// The 32 bytes of a slice as an array.
pub fn to_array(bytes: &[u8]) -> (array: [u8; 32])
    requires
        bytes@.len() == 32,
    ensures
        array@ == bytes@,
{
    let mut array: [u8; 32] = [0;32];
    let mut at: usize = 0;
    while at < 32
        invariant
            at <= 32,
            bytes@.len() == 32,
            forall|i: int| 0 <= i < at ==> array@[i] == bytes@[i],
        decreases 32 - at,
    {
        array[at] = bytes[at];
        at = at + 1;
    }
    assert(array@ =~= bytes@);
    array
}

fn count(reader: &mut Reader) -> (result: Result<u64, CodecError>)
    requires
        old(reader).wf(),
    ensures
        final(reader).wf(),
        match parse_count(old(reader).rest()) {
            Ok((n, rest)) => result matches Ok(c) && c as nat == n && final(reader).rest() == rest,
            Err(e) => result == Err::<u64, CodecError>(e),
        },
{
    let count: u64 = reader.uint(8)?;
    if count > MAX_ITEMS {
        return Err(CodecError::CountTooLarge);
    }
    Ok(count)
}

fn balance_list(reader: &mut Reader) -> (result: Result<Vec<BalanceSnapshot>, CodecError>)
    requires
        old(reader).wf(),
    ensures
        final(reader).wf(),
        match parse_balance_list(old(reader).rest()) {
            Ok((entries, rest)) => result matches Ok(r) && balance_views(r@) == entries && final(reader).rest()
                == rest,
            Err(e) => result == Err::<Vec<BalanceSnapshot>, CodecError>(e),
        },
{
    let total: u64 = count(reader)?;
    let ghost body = reader.rest();
    let mut entries: Vec<BalanceSnapshot> = Vec::new();
    let mut at: u64 = 0;
    assert(balance_views(entries@) =~= Seq::empty());
    while at < total
        invariant
            at <= total,
            reader.wf(),
            parse_balances(body, at as nat) == Ok::<(Seq<BalanceView>, Seq<u8>), CodecError>(
                (balance_views(entries@), reader.rest()),
            ),
            parse_balance_list(old(reader).rest()) == parse_balances(body, total as nat),
        decreases total - at,
    {
        match balance_entry(reader) {
            Ok(entry) => {
                let ghost before = entries@;
                entries.push(entry);
                assert(balance_views(entries@) =~= balance_views(before).push(entry@));
            },
            Err(e) => {
                proof {
                    lemma_parse_balances_fails(body, at as nat + 1, total as nat);
                }
                return Err(e);
            },
        }
        at = at + 1;
    }
    Ok(entries)
}

fn balance_entry(reader: &mut Reader) -> (result: Result<BalanceSnapshot, CodecError>)
    requires
        old(reader).wf(),
    ensures
        final(reader).wf(),
        match parse_balance(old(reader).rest()) {
            Ok((entry, rest)) => result matches Ok(r) && r@ == entry && final(reader).rest() == rest,
            Err(e) => result == Err::<BalanceSnapshot, CodecError>(e),
        },
{
    let owner_id: String = reader.string()?;
    let sku: String = reader.string()?;
    let balance: i64 = reader.i64()?;
    Ok(BalanceSnapshot { owner_id, sku, balance })
}

fn dedup_list(reader: &mut Reader) -> (result: Result<Vec<DedupSnapshot>, CodecError>)
    requires
        old(reader).wf(),
    ensures
        final(reader).wf(),
        match parse_dedup_list(old(reader).rest()) {
            Ok((entries, rest)) => result matches Ok(r) && dedup_views(r@) == entries && final(reader).rest()
                == rest,
            Err(e) => result == Err::<Vec<DedupSnapshot>, CodecError>(e),
        },
{
    let total: u64 = count(reader)?;
    let ghost body = reader.rest();
    let mut entries: Vec<DedupSnapshot> = Vec::new();
    let mut at: u64 = 0;
    assert(dedup_views(entries@) =~= Seq::empty());
    while at < total
        invariant
            at <= total,
            reader.wf(),
            parse_dedups(body, at as nat) == Ok::<(Seq<DedupView>, Seq<u8>), CodecError>(
                (dedup_views(entries@), reader.rest()),
            ),
            parse_dedup_list(old(reader).rest()) == parse_dedups(body, total as nat),
        decreases total - at,
    {
        match dedup_entry(reader) {
            Ok(entry) => {
                let ghost before = entries@;
                entries.push(entry);
                assert(dedup_views(entries@) =~= dedup_views(before).push(entry@));
            },
            Err(e) => {
                proof {
                    lemma_parse_dedups_fails(body, at as nat + 1, total as nat);
                }
                return Err(e);
            },
        }
        at = at + 1;
    }
    Ok(entries)
}

fn dedup_entry(reader: &mut Reader) -> (result: Result<DedupSnapshot, CodecError>)
    requires
        old(reader).wf(),
    ensures
        final(reader).wf(),
        match parse_dedup(old(reader).rest()) {
            Ok((entry, rest)) => result matches Ok(r) && r@ == entry && final(reader).rest() == rest,
            Err(e) => result == Err::<DedupSnapshot, CodecError>(e),
        },
{
    let operation_id: String = reader.string()?;
    let fingerprint: [u8; 32] = take_fingerprint(reader)?;
    Ok(DedupSnapshot { operation_id, fingerprint })
}

proof fn lemma_parse_balances_fails(s: Seq<u8>, n: nat, m: nat)
    requires
        n <= m,
        parse_balances(s, n) is Err,
    ensures
        parse_balances(s, m) == parse_balances(s, n),
    decreases m,
{
    if n < m {
        lemma_parse_balances_fails(s, n, (m - 1) as nat);
    }
}

proof fn lemma_parse_dedups_fails(s: Seq<u8>, n: nat, m: nat)
    requires
        n <= m,
        parse_dedups(s, n) is Err,
    ensures
        parse_dedups(s, m) == parse_dedups(s, n),
    decreases m,
{
    if n < m {
        lemma_parse_dedups_fails(s, n, (m - 1) as nat);
    }
}

/// Reads the payload of a snapshot.
pub fn decode(payload: &[u8]) -> (result: Result<SnapshotData, CodecError>)
    ensures
        match read_payload(payload@) {
            Ok(snapshot) => result matches Ok(r) && r@ == snapshot,
            Err(e) => result == Err::<SnapshotData, CodecError>(e),
        },
{
    proof {
        lemma_pow256_values();
        if parse_uint(payload@, 4) is Ok {
            lemma_parse_uint_read(payload@, 4);
        }
    }
    let mut reader = Reader::new(payload);
    let version: u64 = reader.uint(4)?;
    let sequence: u64 = reader.uint(8)?;
    let balances: Vec<BalanceSnapshot> = balance_list(&mut reader)?;
    let dedup: Vec<DedupSnapshot> = dedup_list(&mut reader)?;
    let writer_epoch: u64 = if version >= 3 {
        reader.uint(8)?
    } else {
        0
    };
    reader.done()?;
    Ok(SnapshotData { version: version as u32, sequence, balances, dedup, writer_epoch })
}

/// Whether a snapshot's version is supported.
pub open spec fn version_supported(version: u32) -> bool {
    1 <= version <= 3
}

/// A snapshot file whose header has been checked.
#[derive(Debug)]
pub enum LoadedSnapshot {
    /// A snapshot in the current format.
    Current(SnapshotData),
    /// The JSON payload of an older snapshot.
    Legacy(Vec<u8>),
}

/// What a snapshot file whose header has been checked holds.
pub ghost enum LoadedView {
    Current(SnapshotView),
    Legacy(Seq<u8>),
}

impl View for LoadedSnapshot {
    type V = LoadedView;

    open spec fn view(&self) -> LoadedView {
        match self {
            LoadedSnapshot::Current(snapshot) => LoadedView::Current(snapshot@),
            LoadedSnapshot::Legacy(payload) => LoadedView::Legacy(payload@),
        }
    }
}

/// What a snapshot file holds.
pub open spec fn read_file(data: Seq<u8>) -> Result<LoadedView, SnapshotError> {
    if data.len() < HEADER_SIZE {
        Err(SnapshotError::HeaderTruncated)
    } else if data.take(8) != magic() && data.take(8) != legacy_magic() {
        Err(SnapshotError::WrongMagic)
    } else if le_value(data.subrange(8, 16)) > MAX_PAYLOAD {
        Err(SnapshotError::TooLarge)
    } else if data.len() != HEADER_SIZE + le_value(data.subrange(8, 16)) {
        Err(SnapshotError::LengthMismatch)
    } else if sha256(data.skip(HEADER_SIZE as int))@ != data.subrange(16, 48) {
        Err(SnapshotError::ChecksumMismatch)
    } else if data.take(8) == legacy_magic() {
        Ok(LoadedView::Legacy(data.skip(HEADER_SIZE as int)))
    } else {
        match read_payload(data.skip(HEADER_SIZE as int)) {
            Err(e) => Err(SnapshotError::InvalidPayload(e)),
            Ok(snapshot) => if version_supported(snapshot.version) {
                Ok(LoadedView::Current(snapshot))
            } else {
                Err(SnapshotError::UnsupportedVersion(snapshot.version))
            },
        }
    }
}

/// Whether two byte strings are the same.
pub fn same_bytes(a: &[u8], b: &[u8]) -> (result: bool)
    ensures
        result == (a@ == b@),
{
    if a.len() != b.len() {
        return false;
    }
    let mut at: usize = 0;
    while at < a.len()
        invariant
            at <= a@.len() == b@.len(),
            forall|i: int| 0 <= i < at ==> a@[i] == b@[i],
        decreases a@.len() - at,
    {
        if a[at] != b[at] {
            return false;
        }
        at = at + 1;
    }
    assert(a@ =~= b@);
    true
}

/// Reads a snapshot file.
pub fn load(data: &[u8]) -> (result: Result<LoadedSnapshot, SnapshotError>)
    ensures
        match read_file(data@) {
            Ok(loaded) => result matches Ok(r) && r@ == loaded,
            Err(e) => result == Err::<LoadedSnapshot, SnapshotError>(e),
        },
{
    if data.len() < HEADER_SIZE {
        return Err(SnapshotError::HeaderTruncated);
    }
    let head: &[u8] = vstd::slice::slice_subrange(data, 0, 8);
    assert(head@ =~= data@.take(8));
    let mut current: Vec<u8> = Vec::new();
    put_magic(&mut current, 0x32);
    assert(current@ =~= magic());
    let mut legacy: Vec<u8> = Vec::new();
    put_magic(&mut legacy, 0x31);
    assert(legacy@ =~= legacy_magic());
    let is_legacy: bool = same_bytes(head, legacy.as_slice());
    if !is_legacy && !same_bytes(head, current.as_slice()) {
        return Err(SnapshotError::WrongMagic);
    }
    let length_bytes: &[u8] = vstd::slice::slice_subrange(data, 8, 16);
    let length: u64 = get_uint(length_bytes);
    if length > MAX_PAYLOAD {
        return Err(SnapshotError::TooLarge);
    }
    if (data.len() - HEADER_SIZE) as u64 != length {
        return Err(SnapshotError::LengthMismatch);
    }
    let payload: &[u8] = vstd::slice::slice_subrange(data, HEADER_SIZE, data.len());
    assert(payload@ =~= data@.skip(HEADER_SIZE as int));
    let digest: [u8; 32] = sha256_digest(payload);
    let expected: &[u8] = vstd::slice::slice_subrange(data, 16, 48);
    if !same_bytes(digest.as_slice(), expected) {
        return Err(SnapshotError::ChecksumMismatch);
    }
    if is_legacy {
        return Ok(LoadedSnapshot::Legacy(vstd::slice::slice_to_vec(payload)));
    }
    match decode(payload) {
        Err(e) => Err(SnapshotError::InvalidPayload(e)),
        Ok(snapshot) => if 1 <= snapshot.version && snapshot.version <= 3 {
            Ok(LoadedSnapshot::Current(snapshot))
        } else {
            Err(SnapshotError::UnsupportedVersion(snapshot.version))
        },
    }
}

/// Accepts the reading of an older snapshot's JSON payload, or refuses it where
/// it could not be read or has an unsupported version.
pub fn accept_legacy(parsed: Option<SnapshotData>) -> (result: Result<SnapshotData, SnapshotError>)
    ensures
        match parsed {
            None => result == Err::<SnapshotData, SnapshotError>(
                SnapshotError::InvalidLegacyPayload,
            ),
            Some(snapshot) => if version_supported(snapshot.version) {
                result == Ok::<SnapshotData, SnapshotError>(snapshot)
            } else {
                result == Err::<SnapshotData, SnapshotError>(
                    SnapshotError::UnsupportedVersion(snapshot.version),
                )
            },
        },
{
    match parsed {
        None => Err(SnapshotError::InvalidLegacyPayload),
        Some(snapshot) => if 1 <= snapshot.version && snapshot.version <= 3 {
            Ok(snapshot)
        } else {
            Err(SnapshotError::UnsupportedVersion(snapshot.version))
        },
    }
}

// ---------------------------------------------------------------- laws
/// There is an array for every 32 bytes.
proof fn lemma_array_exists(bytes: Seq<u8>)
    requires
        bytes.len() == 32,
    ensures
        array_of(bytes)@ == bytes,
{
    let a: [u8; 32] = [
        bytes[0], bytes[1], bytes[2], bytes[3], bytes[4], bytes[5], bytes[6], bytes[7],
        bytes[8], bytes[9], bytes[10], bytes[11], bytes[12], bytes[13], bytes[14], bytes[15],
        bytes[16], bytes[17], bytes[18], bytes[19], bytes[20], bytes[21], bytes[22], bytes[23],
        bytes[24], bytes[25], bytes[26], bytes[27], bytes[28], bytes[29], bytes[30], bytes[31],
    ];
    assert(a@ =~= bytes);
}

proof fn lemma_parse_balance_written(entry: BalanceView, tail: Seq<u8>)
    requires
        balance_fits(entry),
    ensures
        parse_balance(balance_body(entry) + tail) == Ok::<(BalanceView, Seq<u8>), CodecError>(
            (entry, tail),
        ),
{
    lemma_pow256_values();
    lemma_i64_bits(entry.balance);
    let s2 = le_bytes(i64_bits(entry.balance), 8) + tail;
    let s1 = string_bytes(entry.sku) + s2;
    assert(balance_body(entry) + tail =~= string_bytes(entry.owner_id) + s1);
    lemma_parse_string_written(entry.owner_id, s1);
    lemma_parse_string_written(entry.sku, s2);
    lemma_parse_uint_written(i64_bits(entry.balance), 8, tail);
}

proof fn lemma_parse_balance_read(s: Seq<u8>)
    requires
        parse_balance(s) is Ok,
    ensures
        s == balance_body(parse_balance(s)->Ok_0.0) + parse_balance(s)->Ok_0.1,
        balance_fits(parse_balance(s)->Ok_0.0),
{
    lemma_pow256_values();
    let s1 = parse_string(s)->Ok_0.1;
    let s2 = parse_string(s1)->Ok_0.1;
    lemma_parse_string_read(s);
    lemma_parse_string_read(s1);
    lemma_parse_uint_read(s2, 8);
    lemma_i64_of_bits(parse_uint(s2, 8)->Ok_0.0);
    let (entry, rest) = parse_balance(s)->Ok_0;
    assert(s =~= balance_body(entry) + rest);
}

proof fn lemma_parse_dedup_written(entry: DedupView, tail: Seq<u8>)
    requires
        string_fits(entry.operation_id),
    ensures
        parse_dedup(dedup_body(entry) + tail) == Ok::<(DedupView, Seq<u8>), CodecError>(
            (entry, tail),
        ),
{
    let s1 = entry.fingerprint@ + tail;
    assert(dedup_body(entry) + tail =~= string_bytes(entry.operation_id) + s1);
    lemma_parse_string_written(entry.operation_id, s1);
    assert(s1.take(32) =~= entry.fingerprint@);
    assert(s1.skip(32) =~= tail);
    lemma_array_of(entry.fingerprint);
}

proof fn lemma_parse_dedup_read(s: Seq<u8>)
    requires
        parse_dedup(s) is Ok,
    ensures
        s == dedup_body(parse_dedup(s)->Ok_0.0) + parse_dedup(s)->Ok_0.1,
        string_fits(parse_dedup(s)->Ok_0.0.operation_id),
{
    let s1 = parse_string(s)->Ok_0.1;
    lemma_parse_string_read(s);
    lemma_array_exists(s1.take(32));
    let (entry, rest) = parse_dedup(s)->Ok_0;
    assert(s1 =~= s1.take(32) + rest);
    assert(s =~= dedup_body(entry) + rest);
}

proof fn lemma_parse_balances_written(entries: Seq<BalanceView>, tail: Seq<u8>)
    requires
        forall|i: int| 0 <= i < entries.len() ==> balance_fits(#[trigger] entries[i]),
    ensures
        parse_balances(balances_body(entries) + tail, entries.len()) == Ok::<
            (Seq<BalanceView>, Seq<u8>),
            CodecError,
        >((entries, tail)),
    decreases entries.len(),
{
    if entries.len() == 0 {
        assert(balances_body(entries) + tail =~= tail);
        assert(entries =~= Seq::empty());
    } else {
        let front = entries.drop_last();
        let last = entries.last();
        lemma_concat_assoc(balances_body(front), balance_body(last), tail);
        assert(balance_fits(entries[entries.len() - 1]));
        lemma_parse_balances_written(front, balance_body(last) + tail);
        lemma_parse_balance_written(last, tail);
        assert(front.push(last) =~= entries);
    }
}

proof fn lemma_parse_balances_read(s: Seq<u8>, n: nat)
    requires
        parse_balances(s, n) is Ok,
    ensures
        ({
            let (entries, rest) = parse_balances(s, n)->Ok_0;
            &&& s == balances_body(entries) + rest
            &&& entries.len() == n
            &&& forall|i: int| 0 <= i < entries.len() ==> balance_fits(#[trigger] entries[i])
        }),
    decreases n,
{
    if n == 0 {
        assert(balances_body(Seq::<BalanceView>::empty()) + s =~= s);
    } else {
        lemma_parse_balances_read(s, (n - 1) as nat);
        let (front, after) = parse_balances(s, (n - 1) as nat)->Ok_0;
        lemma_parse_balance_read(after);
        let (entry, rest) = parse_balance(after)->Ok_0;
        assert(front.push(entry).drop_last() =~= front);
        lemma_concat_assoc(balances_body(front), balance_body(entry), rest);
    }
}

proof fn lemma_parse_dedups_written(entries: Seq<DedupView>, tail: Seq<u8>)
    requires
        forall|i: int| 0 <= i < entries.len() ==> string_fits((#[trigger] entries[i]).operation_id),
    ensures
        parse_dedups(dedups_body(entries) + tail, entries.len()) == Ok::<
            (Seq<DedupView>, Seq<u8>),
            CodecError,
        >((entries, tail)),
    decreases entries.len(),
{
    if entries.len() == 0 {
        assert(dedups_body(entries) + tail =~= tail);
        assert(entries =~= Seq::empty());
    } else {
        let front = entries.drop_last();
        let last = entries.last();
        lemma_concat_assoc(dedups_body(front), dedup_body(last), tail);
        assert(string_fits(entries[entries.len() - 1].operation_id));
        lemma_parse_dedups_written(front, dedup_body(last) + tail);
        lemma_parse_dedup_written(last, tail);
        assert(front.push(last) =~= entries);
    }
}

proof fn lemma_parse_dedups_read(s: Seq<u8>, n: nat)
    requires
        parse_dedups(s, n) is Ok,
    ensures
        ({
            let (entries, rest) = parse_dedups(s, n)->Ok_0;
            &&& s == dedups_body(entries) + rest
            &&& entries.len() == n
            &&& forall|i: int|
                0 <= i < entries.len() ==> string_fits((#[trigger] entries[i]).operation_id)
        }),
    decreases n,
{
    if n == 0 {
        assert(dedups_body(Seq::<DedupView>::empty()) + s =~= s);
    } else {
        lemma_parse_dedups_read(s, (n - 1) as nat);
        let (front, after) = parse_dedups(s, (n - 1) as nat)->Ok_0;
        lemma_parse_dedup_read(after);
        let (entry, rest) = parse_dedup(after)->Ok_0;
        assert(front.push(entry).drop_last() =~= front);
        lemma_concat_assoc(dedups_body(front), dedup_body(entry), rest);
    }
}

/// Whether a snapshot is one that a reader accepts and that loses nothing when
/// it is written: before version 3 the writer epoch is not written.
pub open spec fn snapshot_kept(snapshot: SnapshotView) -> bool {
    &&& snapshot_fits(snapshot)
    &&& snapshot.balances.len() <= MAX_ITEMS
    &&& snapshot.dedup.len() <= MAX_ITEMS
    &&& snapshot.version < 3 ==> snapshot.writer_epoch == 0
}

/// The payload, part by part from its end.
proof fn lemma_payload_parts(snapshot: SnapshotView)
    ensures
        ({
            let s4 = epoch_body(snapshot);
            let s3 = dedups_body(snapshot.dedup) + s4;
            let s2 = le_bytes(snapshot.dedup.len(), 8) + s3;
            let s1 = balances_body(snapshot.balances) + s2;
            let s0 = le_bytes(snapshot.balances.len(), 8) + s1;
            payload(snapshot) == le_bytes(snapshot.version as nat, 4) + (le_bytes(
                snapshot.sequence as nat,
                8,
            ) + s0)
        }),
{
    let a = le_bytes(snapshot.version as nat, 4);
    let b = le_bytes(snapshot.sequence as nat, 8);
    let c = le_bytes(snapshot.balances.len(), 8);
    let d = balances_body(snapshot.balances);
    let e = le_bytes(snapshot.dedup.len(), 8);
    let f = dedups_body(snapshot.dedup);
    let g = epoch_body(snapshot);
    assert(a + b + c + d + e + f + g =~= a + (b + (c + (d + (e + (f + g))))));
}

/// Decoding an encoded snapshot gives the snapshot back.
pub proof fn law_snapshot_round_trip(snapshot: SnapshotView)
    requires
        snapshot_kept(snapshot),
    ensures
        read_payload(payload(snapshot)) == Ok::<SnapshotView, CodecError>(snapshot),
{
    lemma_pow256_values();
    lemma_payload_parts(snapshot);
    let empty = Seq::<u8>::empty();
    let s4 = epoch_body(snapshot);
    let s3 = dedups_body(snapshot.dedup) + s4;
    let s2 = le_bytes(snapshot.dedup.len(), 8) + s3;
    let s1 = balances_body(snapshot.balances) + s2;
    let s0 = le_bytes(snapshot.balances.len(), 8) + s1;
    lemma_parse_uint_written(
        snapshot.version as nat,
        4,
        le_bytes(snapshot.sequence as nat, 8) + s0,
    );
    lemma_parse_uint_written(snapshot.sequence as nat, 8, s0);
    lemma_parse_uint_written(snapshot.balances.len(), 8, s1);
    lemma_parse_balances_written(snapshot.balances, s2);
    lemma_parse_uint_written(snapshot.dedup.len(), 8, s3);
    lemma_parse_dedups_written(snapshot.dedup, s4);
    if snapshot.version >= 3 {
        lemma_concat_empty(s4);
        lemma_parse_uint_written(snapshot.writer_epoch as nat, 8, empty);
    }
}

/// Only the encoding of a snapshot decodes to it.
pub proof fn law_snapshot_canonical(data: Seq<u8>, snapshot: SnapshotView)
    requires
        read_payload(data) == Ok::<SnapshotView, CodecError>(snapshot),
    ensures
        snapshot_kept(snapshot),
        data == payload(snapshot),
{
    lemma_pow256_values();
    lemma_payload_parts(snapshot);
    lemma_parse_uint_read(data, 4);
    let (version, s1) = parse_uint(data, 4)->Ok_0;
    lemma_parse_uint_read(s1, 8);
    let s2 = parse_uint(s1, 8)->Ok_0.1;
    lemma_parse_uint_read(s2, 8);
    let (balances, after) = parse_uint(s2, 8)->Ok_0;
    lemma_parse_balances_read(after, balances);
    let s3 = parse_balance_list(s2)->Ok_0.1;
    lemma_parse_uint_read(s3, 8);
    let (dedups, behind) = parse_uint(s3, 8)->Ok_0;
    lemma_parse_dedups_read(behind, dedups);
    let s4 = parse_dedup_list(s3)->Ok_0.1;
    let rest = parse_epoch(s4, version)->Ok_0.1;
    assert(rest =~= Seq::empty());
    if version >= 3 {
        lemma_parse_uint_read(s4, 8);
        lemma_concat_empty(epoch_body(snapshot));
    }
}

proof fn lemma_file_fields(head: Seq<u8>, body: Seq<u8>)
    requires
        head.len() == 8,
        body.len() <= MAX_PAYLOAD,
    ensures
        ({
            let file = snapshot_file(head, body);
            &&& file.len() == HEADER_SIZE + body.len()
            &&& file.take(8) == head
            &&& le_value(file.subrange(8, 16)) == body.len()
            &&& file.subrange(16, 48) == sha256(body)@
            &&& file.skip(HEADER_SIZE as int) == body
        }),
{
    let file = snapshot_file(head, body);
    lemma_pow256_values();
    lemma_le_bytes_len(body.len(), 8);
    lemma_le_value_of_bytes(body.len(), 8);
    assert(file.take(8) =~= head);
    assert(file.subrange(8, 16) =~= le_bytes(body.len(), 8));
    assert(file.subrange(16, 48) =~= sha256(body)@);
    assert(file.skip(HEADER_SIZE as int) =~= body);
}

/// Loading a saved snapshot gives the snapshot back, for every supported
/// version and every payload of at most 4 GiB.
pub proof fn law_saved_snapshot_is_loaded(snapshot: SnapshotView)
    requires
        snapshot_kept(snapshot),
        version_supported(snapshot.version),
        payload(snapshot).len() <= MAX_PAYLOAD,
    ensures
        read_file(snapshot_file(magic(), payload(snapshot))) == Ok::<LoadedView, SnapshotError>(
            LoadedView::Current(snapshot),
        ),
{
    let body = payload(snapshot);
    lemma_file_fields(magic(), body);
    law_snapshot_round_trip(snapshot);
    assert(magic()[7] != legacy_magic()[7]);
}

/// The file of an older snapshot hands its payload on unchanged.
pub proof fn law_legacy_snapshot_is_loaded(body: Seq<u8>)
    requires
        body.len() <= MAX_PAYLOAD,
    ensures
        read_file(snapshot_file(legacy_magic(), body)) == Ok::<LoadedView, SnapshotError>(
            LoadedView::Legacy(body),
        ),
{
    lemma_file_fields(legacy_magic(), body);
}

/// A file whose payload is not the one that its digest was taken of is refused,
/// unless the two payloads have one digest.
pub proof fn law_damaged_snapshot_is_refused(head: Seq<u8>, body: Seq<u8>, damaged: Seq<u8>)
    requires
        head == magic() || head == legacy_magic(),
        body.len() <= MAX_PAYLOAD,
        damaged.len() == body.len(),
        sha256(damaged) != sha256(body),
    ensures
        read_file(head + le_bytes(body.len(), 8) + sha256(body)@ + damaged) == Err::<
            LoadedView,
            SnapshotError,
        >(SnapshotError::ChecksumMismatch),
{
    let file = head + le_bytes(body.len(), 8) + sha256(body)@ + damaged;
    lemma_pow256_values();
    lemma_le_bytes_len(body.len(), 8);
    lemma_le_value_of_bytes(body.len(), 8);
    assert(file.take(8) =~= head);
    assert(file.subrange(8, 16) =~= le_bytes(body.len(), 8));
    assert(file.subrange(16, 48) =~= sha256(body)@);
    assert(file.skip(HEADER_SIZE as int) =~= damaged);
    if sha256(damaged)@ == sha256(body)@ {
        assert(sha256(damaged) =~= sha256(body));
    }
}

// ---------------------------------------------------------------- the format
/// The payload of a snapshot: version, position, the number of balances and the
/// balances, the number of identifiers and the identifiers, and from the third version
/// on the writer epoch.
pub proof fn law_snapshot_layout(snapshot: SnapshotView)
    ensures
        payload(snapshot) == le_bytes(snapshot.version as nat, 4) + le_bytes(
            snapshot.sequence as nat,
            8,
        ) + le_bytes(snapshot.balances.len(), 8) + balances_body(snapshot.balances) + le_bytes(
            snapshot.dedup.len(),
            8,
        ) + dedups_body(snapshot.dedup) + (if snapshot.version >= 3 {
            le_bytes(snapshot.writer_epoch as nat, 8)
        } else {
            Seq::empty()
        }),
{
}

/// The balances of a snapshot stand one behind the other, each as its two texts and its
/// number; so do the identifiers, each as its text and its fingerprint.
pub proof fn law_snapshot_entries_stand_one_behind_the_other(
    balances: Seq<BalanceView>,
    balance: BalanceView,
    dedup: Seq<DedupView>,
    entry: DedupView,
)
    ensures
        balances_body(Seq::empty()).len() == 0,
        balances_body(balances.push(balance)) == balances_body(balances) + (string_bytes(
            balance.owner_id,
        ) + string_bytes(balance.sku) + le_bytes(i64_bits(balance.balance), 8)),
        dedups_body(Seq::empty()).len() == 0,
        dedups_body(dedup.push(entry)) == dedups_body(dedup) + (string_bytes(entry.operation_id)
            + entry.fingerprint@),
{
    assert(balances.push(balance).drop_last() =~= balances);
    assert(dedup.push(entry).drop_last() =~= dedup);
}

/// A snapshot can be written exactly where each of its texts can.
pub proof fn law_snapshot_fits_by_its_texts(snapshot: SnapshotView)
    ensures
        snapshot_fits(snapshot) <==> (forall|i: int|
            0 <= i < snapshot.balances.len() ==> string_fits(
                (#[trigger] snapshot.balances[i]).owner_id,
            ) && string_fits(snapshot.balances[i].sku)) && (forall|i: int|
            0 <= i < snapshot.dedup.len() ==> string_fits((#[trigger] snapshot.dedup[i]).operation_id)),
        snapshot_kept(snapshot) <==> snapshot_fits(snapshot) && snapshot.balances.len() <= 100_000_000
            && snapshot.dedup.len() <= 100_000_000 && (snapshot.version >= 3 || snapshot.writer_epoch
            == 0),
{
    if snapshot_fits(snapshot) {
        assert forall|i: int| 0 <= i < snapshot.balances.len() implies string_fits(
            (#[trigger] snapshot.balances[i]).owner_id,
        ) && string_fits(snapshot.balances[i].sku) by {
            assert(balance_fits(snapshot.balances[i]));
        }
    }
}

/// A file of a snapshot is eight bytes of magic, the length of the payload in eight
/// bytes, the digest of the payload, and the payload.
pub proof fn law_snapshot_file_layout(head: Seq<u8>, body: Seq<u8>)
    ensures
        snapshot_file(head, body) == head + le_bytes(body.len(), 8) + sha256(body)@ + body,
        magic() == seq![0x57u8, 0x48, 0x53, 0x4e, 0x41, 0x50, 0x30, 0x32],
        legacy_magic() == seq![0x57u8, 0x48, 0x53, 0x4e, 0x41, 0x50, 0x30, 0x31],
{
}

/// A file is refused for the first of these that holds: it is shorter than a header, it
/// has another magic, its payload is said to be over four gibibytes, or has not the
/// length that is said, or has not the digest that is said.
pub proof fn law_file_is_refused_for_the_first_fault(data: Seq<u8>)
    ensures
        ({
            let known = data.take(8) == seq![0x57u8, 0x48, 0x53, 0x4e, 0x41, 0x50, 0x30, 0x32]
                || data.take(8) == seq![0x57u8, 0x48, 0x53, 0x4e, 0x41, 0x50, 0x30, 0x31];
            let said = le_value(data.subrange(8, 16));
            let sound = sha256(data.skip(48))@ == data.subrange(16, 48);
            let full = data.len() >= 48;
            let refused = |why: SnapshotError| read_file(data) == Err::<LoadedView, SnapshotError>(why);
            &&& !full ==> refused(SnapshotError::HeaderTruncated)
            &&& full && !known ==> refused(SnapshotError::WrongMagic)
            &&& full && known && said > 0x1_0000_0000 ==> refused(SnapshotError::TooLarge)
            &&& full && known && said <= 0x1_0000_0000 && data.len() != 48 + said ==> refused(
                SnapshotError::LengthMismatch,
            )
            &&& full && known && said <= 0x1_0000_0000 && data.len() == 48 + said && !sound ==> refused(
                SnapshotError::ChecksumMismatch,
            )
        }),
{
}

/// A sound file of the older kind is left to be read as that. One of the current kind is
/// refused where its payload cannot be read, with the reason, and where its version is
/// not one to three; else it is the snapshot that its payload holds.
pub proof fn law_sound_file_is_read(body: Seq<u8>)
    requires
        body.len() <= 0x1_0000_0000,
    ensures
        read_file(snapshot_file(legacy_magic(), body)) == Ok::<LoadedView, SnapshotError>(
            LoadedView::Legacy(body),
        ),
        match read_payload(body) {
            Err(e) => read_file(snapshot_file(magic(), body)) == Err::<LoadedView, SnapshotError>(
                SnapshotError::InvalidPayload(e),
            ),
            Ok(snapshot) => {
                &&& snapshot.version == 1 || snapshot.version == 2 || snapshot.version == 3
                    ==> read_file(snapshot_file(magic(), body)) == Ok::<LoadedView, SnapshotError>(
                    LoadedView::Current(snapshot),
                )
                &&& snapshot.version < 1 || snapshot.version > 3 ==> read_file(
                    snapshot_file(magic(), body),
                ) == Err::<LoadedView, SnapshotError>(
                    SnapshotError::UnsupportedVersion(snapshot.version),
                )
            },
        },
{
    lemma_file_fields(magic(), body);
    lemma_file_fields(legacy_magic(), body);
    assert(magic()[7] != legacy_magic()[7]);
}

/// The versions that are supported are the first, the second and the third.
pub proof fn law_three_versions_are_supported(version: u32)
    ensures
        version_supported(version) <==> version == 1 || version == 2 || version == 3,
{
}

/// A snapshot that says it holds more than a hundred million balances is refused for
/// that, whatever follows.
pub proof fn law_too_many_entries_are_refused(version: u32, sequence: u64, count: u64, tail: Seq<u8>)
    requires
        count > 100_000_000,
    ensures
        read_payload(
            le_bytes(version as nat, 4) + (le_bytes(sequence as nat, 8) + (le_bytes(count as nat, 8)
                + tail)),
        ) == Err::<SnapshotView, CodecError>(CodecError::CountTooLarge),
{
    lemma_pow256_values();
    lemma_parse_uint_written(count as nat, 8, tail);
    lemma_parse_uint_written(sequence as nat, 8, le_bytes(count as nat, 8) + tail);
    lemma_parse_uint_written(
        version as nat,
        4,
        le_bytes(sequence as nat, 8) + (le_bytes(count as nat, 8) + tail),
    );
}

/// What is said of a snapshot is what its fields hold, entry by entry.
pub proof fn law_snapshot_says_its_fields(
    snapshot: SnapshotData,
    balance: BalanceSnapshot,
    entry: DedupSnapshot,
    i: int,
)
    ensures
        snapshot@.version == snapshot.version,
        snapshot@.sequence == snapshot.sequence,
        snapshot@.writer_epoch == snapshot.writer_epoch,
        snapshot@.balances.len() == snapshot.balances@.len(),
        0 <= i < snapshot.balances@.len() ==> snapshot@.balances[i] == snapshot.balances@[i]@,
        snapshot@.dedup.len() == snapshot.dedup@.len(),
        0 <= i < snapshot.dedup@.len() ==> snapshot@.dedup[i] == snapshot.dedup@[i]@,
        balance@.owner_id == balance.owner_id@,
        balance@.sku == balance.sku@,
        balance@.balance == balance.balance,
        entry@.operation_id == entry.operation_id@,
        entry@.fingerprint == entry.fingerprint,
        LoadedSnapshot::Current(snapshot)@ == LoadedView::Current(snapshot@),
        balance_views(snapshot.balances@).len() == snapshot.balances@.len(),
{
}

/// The first part of a payload that cannot be read decides how it is refused: behind the
/// balances, that is the list of identifiers, and behind that, from the third version
/// on, the writer epoch.
pub proof fn law_first_bad_part_decides(snapshot: SnapshotView, s: Seq<u8>, error: CodecError)
    requires
        snapshot_kept(snapshot),
    ensures
        ({
            let head = le_bytes(snapshot.version as nat, 4) + (le_bytes(snapshot.sequence as nat, 8)
                + (le_bytes(snapshot.balances.len(), 8) + (balances_body(snapshot.balances) + s)));
            parse_dedup_list(s) == Err::<(Seq<DedupView>, Seq<u8>), CodecError>(error)
                ==> read_payload(head) == Err::<SnapshotView, CodecError>(error)
        }),
        s.len() < 4 ==> read_payload(s) == Err::<SnapshotView, CodecError>(CodecError::Truncated),
        s.len() < 8 ==> read_payload(le_bytes(snapshot.version as nat, 4) + s) == Err::<
            SnapshotView,
            CodecError,
        >(CodecError::Truncated),
        s.len() < 8 ==> parse_dedup_list(s) == Err::<(Seq<DedupView>, Seq<u8>), CodecError>(
            CodecError::Truncated,
        ),
{
    lemma_pow256_values();
    let b = balances_body(snapshot.balances) + s;
    let c = le_bytes(snapshot.balances.len(), 8) + b;
    let d = le_bytes(snapshot.sequence as nat, 8) + c;
    lemma_parse_balances_written(snapshot.balances, s);
    lemma_parse_uint_written(snapshot.balances.len(), 8, b);
    lemma_parse_uint_written(snapshot.sequence as nat, 8, c);
    lemma_parse_uint_written(snapshot.version as nat, 4, d);
    lemma_parse_uint_written(snapshot.version as nat, 4, s);
}

} // verus!
