//! SHA-256 digests: the keys of the deduplication index, the fingerprints of
//! operations, and the identifiers of replicated messages.

use sha2::Digest;
use vstd::prelude::*;
use vstd::string::StringExecFns;
use vstd::utf8::{encode_utf8, encode_utf8_decode_utf8};

use crate::codec::{
    i64_bits, i64_to_bits, le_bytes, lemma_i64_bits, lemma_le_bytes_len, lemma_le_value_of_bytes,
    lemma_parse_uint_written, lemma_pow256_values, put_bytes, put_uint,
};
use crate::model::{Operation, OperationView};

verus! {

/// The SHA-256 digest of a byte string.
pub uninterp spec fn sha256(data: Seq<u8>) -> [u8; 32];

/// `sha2::Sha256::digest`: the SHA-256 digest of `data`. The digest depends on
/// the bytes of `data` alone; nothing else is claimed of it.
#[verifier::external_body]
pub(crate) fn sha256_digest(data: &[u8]) -> (digest: [u8; 32])
    ensures
        digest == sha256(data@),
{
    sha2::Sha256::digest(data).into()
}

/// The deduplication key of an operation identifier.
pub open spec fn id_key(operation_id: Seq<char>) -> [u8; 32] {
    sha256(encode_utf8(operation_id))
}

/// The deduplication key of an operation identifier: the digest of its UTF-8 text.
pub fn operation_id_hash(operation_id: &str) -> (key: [u8; 32])
    ensures
        key == id_key(operation_id@),
{
    sha256_digest(operation_id.as_bytes())
}

/// A field as it enters a fingerprint: its length in eight bytes, then itself.
pub open spec fn hashed_field(bytes: Seq<u8>) -> Seq<u8> {
    le_bytes(bytes.len(), 8) + bytes
}

/// What the fingerprint of an operation is the digest of: all its fields but
/// the operation identifier.
pub open spec fn fingerprint_input(op: OperationView) -> Seq<u8> {
    hashed_field(encode_utf8(op.owner_id)) + hashed_field(encode_utf8(op.sku)) + hashed_field(
        le_bytes(i64_bits(op.delta), 8),
    ) + hashed_field(le_bytes(op.event_version as nat, 8))
}

/// The fingerprint of an operation.
pub open spec fn op_fingerprint(op: OperationView) -> [u8; 32] {
    sha256(fingerprint_input(op))
}

/// Appends a field to what is to be digested.
fn hash_field(input: &mut Vec<u8>, value: &[u8])
    ensures
        final(input)@ == old(input)@ + hashed_field(value@),
{
    put_uint(input, value.len() as u64, 8);
    put_bytes(input, value);
    assert(input@ =~= old(input)@ + hashed_field(value@));
}

/// The fingerprint of an operation: two operations with the same identifier are
/// the same request exactly where their fingerprints agree.
pub fn fingerprint(operation: &Operation) -> (fingerprint: [u8; 32])
    ensures
        fingerprint == op_fingerprint(operation@),
{
    let mut delta: Vec<u8> = Vec::new();
    put_uint(&mut delta, i64_to_bits(operation.delta), 8);
    let mut version: Vec<u8> = Vec::new();
    put_uint(&mut version, operation.event_version, 8);
    assert(delta@ =~= le_bytes(i64_bits(operation.delta), 8));
    assert(version@ =~= le_bytes(operation.event_version as nat, 8));
    let mut input: Vec<u8> = Vec::new();
    hash_field(&mut input, operation.owner_id.as_str().as_bytes());
    hash_field(&mut input, operation.sku.as_str().as_bytes());
    hash_field(&mut input, delta.as_slice());
    hash_field(&mut input, version.as_slice());
    assert(input@ =~= fingerprint_input(operation@));
    sha256_digest(input.as_slice())
}

/// Whether two digests are the same.
pub fn same_digest(a: &[u8; 32], b: &[u8; 32]) -> (result: bool)
    ensures
        result == (*a == *b),
{
    let mut at: usize = 0;
    while at < 32
        invariant
            at <= 32,
            forall|i: int| 0 <= i < at ==> a@[i] == b@[i],
        decreases 32 - at,
    {
        if a[at] != b[at] {
            assert(a@[at as int] != b@[at as int]);
            return false;
        }
        at = at + 1;
    }
    assert(*a =~= *b);
    true
}

// ---------------------------------------------------------------- hexadecimal
/// The lower-case hexadecimal digit that stands for `d`.
pub open spec fn hex_char(d: nat) -> char {
    if d < 10 {
        (d + '0' as nat) as char
    } else {
        (d - 10 + 'a' as nat) as char
    }
}

/// Two lower-case hexadecimal digits for each byte.
pub open spec fn hex_text(bytes: Seq<u8>) -> Seq<char>
    decreases bytes.len(),
{
    if bytes.len() == 0 {
        Seq::empty()
    } else {
        hex_text(bytes.drop_last()) + seq![
            hex_char(bytes.last() as nat / 16),
            hex_char(bytes.last() as nat % 16),
        ]
    }
}

fn hex_str(d: u8) -> (text: &'static str)
    requires
        d < 16,
    ensures
        text@ == seq![hex_char(d as nat)],
{
    proof {
        reveal_strlit("0");
        reveal_strlit("1");
        reveal_strlit("2");
        reveal_strlit("3");
        reveal_strlit("4");
        reveal_strlit("5");
        reveal_strlit("6");
        reveal_strlit("7");
        reveal_strlit("8");
        reveal_strlit("9");
        reveal_strlit("a");
        reveal_strlit("b");
        reveal_strlit("c");
        reveal_strlit("d");
        reveal_strlit("e");
        reveal_strlit("f");
    }
    let text: &'static str = match d {
        0 => "0",
        1 => "1",
        2 => "2",
        3 => "3",
        4 => "4",
        5 => "5",
        6 => "6",
        7 => "7",
        8 => "8",
        9 => "9",
        10 => "a",
        11 => "b",
        12 => "c",
        13 => "d",
        14 => "e",
        _ => "f",
    };
    assert(text@ =~= seq![hex_char(d as nat)]);
    text
}

/// Appends `bytes` in hexadecimal.
pub fn append_hex(out: &mut String, bytes: &[u8])
    ensures
        final(out)@ == old(out)@ + hex_text(bytes@),
{
    let mut at: usize = 0;
    assert(out@ + hex_text(bytes@.take(0)) =~= out@);
    while at < bytes.len()
        invariant
            at <= bytes@.len(),
            out@ == old(out)@ + hex_text(bytes@.take(at as int)),
        decreases bytes@.len() - at,
    {
        let byte: u8 = bytes[at];
        out.append(hex_str(byte / 16));
        out.append(hex_str(byte % 16));
        proof {
            let next = bytes@.take(at as int + 1);
            assert(next.drop_last() =~= bytes@.take(at as int));
            assert(out@ =~= old(out)@ + hex_text(next));
        }
        at = at + 1;
    }
    assert(bytes@.take(bytes@.len() as int) =~= bytes@);
}

/// The identifier under which a batch is published to the replicated log: the
/// same payload always has the same one, so that the log can collapse retries.
pub open spec fn message_id(payload: Seq<u8>) -> Seq<char> {
    "operations-"@ + hex_text(sha256(payload)@)
}

/// Payloads that the digest tells apart are published under different identifiers,
/// and equal payloads under the same one.
pub proof fn law_message_ids_tell_payloads_apart(a: Seq<u8>, b: Seq<u8>)
    requires
        sha256(a) == sha256(b) ==> a == b,
    ensures
        message_id(a) == message_id(b) <==> a == b,
{
    if message_id(a) == message_id(b) {
        let front = "operations-"@;
        let x = hex_text(sha256(a)@);
        let y = hex_text(sha256(b)@);
        assert((front + x).skip(front.len() as int) =~= x);
        assert((front + y).skip(front.len() as int) =~= y);
        law_hex_round_trip(sha256(a)@);
        law_hex_round_trip(sha256(b)@);
        assert(sha256(a)@ == sha256(b)@);
        assert(sha256(a) =~= sha256(b));
    }
}

/// The identifier under which a payload is published to the replicated log.
pub fn publish_message_id(payload: &[u8]) -> (id: String)
    ensures
        id@ == message_id(payload@),
{
    let digest: [u8; 32] = sha256_digest(payload);
    let mut id: String = "operations-".to_owned();
    append_hex(&mut id, digest.as_slice());
    id
}

/// Reading a row of hexadecimal digits back.
#[derive(Clone, Copy, Debug, PartialEq, Eq, Structural)]
pub enum HexError {
    /// The number of characters is odd.
    OddLength,
    /// A pair of characters is not a hexadecimal number.
    InvalidDigit,
}

/// The number that a hexadecimal digit of either case stands for.
pub open spec fn hex_digit_value(b: u8) -> Option<nat> {
    if 0x30 <= b <= 0x39 {
        Some((b - 0x30) as nat)
    } else if 0x61 <= b <= 0x66 {
        Some((b - 0x61 + 10) as nat)
    } else if 0x41 <= b <= 0x46 {
        Some((b - 0x41 + 10) as nat)
    } else {
        None
    }
}

/// The byte that two characters stand for: two digits, or a plus sign and one.
pub open spec fn hex_pair_value(high: u8, low: u8) -> Option<nat> {
    match (hex_digit_value(high), hex_digit_value(low)) {
        (Some(h), Some(l)) => Some((16 * h + l) as nat),
        (None, Some(l)) => if high == 0x2b {
            Some(l)
        } else {
            None
        },
        _ => None,
    }
}

/// The bytes that pairs of characters stand for.
pub open spec fn hex_bytes(text: Seq<u8>) -> Option<Seq<u8>>
    decreases text.len(),
{
    if text.len() < 2 {
        Some(Seq::empty())
    } else {
        match (
            hex_bytes(text.take(text.len() - 2)),
            hex_pair_value(text[text.len() - 2], text[text.len() - 1]),
        ) {
            (Some(front), Some(value)) => Some(front.push(value as u8)),
            _ => None,
        }
    }
}

fn hex_digit(b: u8) -> (digit: Option<u8>)
    ensures
        match digit {
            Some(d) => d < 16 && hex_digit_value(b) == Some(d as nat),
            None => hex_digit_value(b) is None,
        },
{
    if 0x30 <= b && b <= 0x39 {
        Some(b - 0x30)
    } else if 0x61 <= b && b <= 0x66 {
        Some(b - 0x61 + 10)
    } else if 0x41 <= b && b <= 0x46 {
        Some(b - 0x41 + 10)
    } else {
        None
    }
}

/// Reads a payload that is written as pairs of hexadecimal digits.
pub fn parse_hex(text: &[u8]) -> (result: Result<Vec<u8>, HexError>)
    ensures
        match result {
            Ok(bytes) => text@.len() % 2 == 0 && hex_bytes(text@) == Some(bytes@),
            Err(HexError::OddLength) => text@.len() % 2 != 0,
            Err(HexError::InvalidDigit) => text@.len() % 2 == 0 && hex_bytes(text@) is None,
        },
{
    if text.len() % 2 != 0 {
        return Err(HexError::OddLength);
    }
    let mut bytes: Vec<u8> = Vec::new();
    let mut at: usize = 0;
    assert(hex_bytes(text@.take(0)) == Some(Seq::<u8>::empty()));
    while at < text.len()
        invariant
            at <= text@.len(),
            at % 2 == 0,
            text@.len() % 2 == 0,
            hex_bytes(text@.take(at as int)) == Some(bytes@),
        decreases text@.len() - at,
    {
        let ghost next = text@.take(at as int + 2);
        assert(next.take(next.len() - 2) =~= text@.take(at as int));
        let value: Option<u8> = match (hex_digit(text[at]), hex_digit(text[at + 1])) {
            (Some(high), Some(low)) => Some(16 * high + low),
            (None, Some(low)) => if text[at] == 0x2b {
                Some(low)
            } else {
                None
            },
            _ => None,
        };
        match value {
            Some(byte) => bytes.push(byte),
            None => {
                proof {
                    lemma_hex_bytes_fails(text@, at as int + 2);
                }
                return Err(HexError::InvalidDigit);
            },
        }
        at = at + 2;
    }
    assert(text@.take(text@.len() as int) =~= text@);
    Ok(bytes)
}

proof fn lemma_hex_bytes_fails(text: Seq<u8>, n: int)
    requires
        0 <= n <= text.len(),
        n % 2 == 0,
        text.len() % 2 == 0,
        hex_bytes(text.take(n)) is None,
    ensures
        hex_bytes(text) is None,
    decreases text.len(),
{
    if n < text.len() {
        let front = text.take(text.len() - 2);
        assert(front.take(n) =~= text.take(n));
        lemma_hex_bytes_fails(front, n);
    } else {
        assert(text.take(n) =~= text);
    }
}

/// What is written in hexadecimal reads back as the same bytes.
pub proof fn law_hex_round_trip(bytes: Seq<u8>)
    ensures
        hex_bytes(hex_text(bytes).map_values(|c: char| c as u8)) == Some(bytes),
    decreases bytes.len(),
{
    let ascii = |c: char| c as u8;
    let text = hex_text(bytes).map_values(ascii);
    if bytes.len() == 0 {
        assert(bytes =~= Seq::empty());
    } else {
        let front = bytes.drop_last();
        let last = bytes.last();
        law_hex_round_trip(front);
        lemma_hex_text_len(front);
        assert(text.take(text.len() - 2) =~= hex_text(front).map_values(ascii));
        assert(hex_digit_value(hex_char(last as nat / 16) as u8) == Some(last as nat / 16));
        assert(hex_digit_value(hex_char(last as nat % 16) as u8) == Some(last as nat % 16));
        assert(front.push(last) =~= bytes);
    }
}

proof fn lemma_hex_text_len(bytes: Seq<u8>)
    ensures
        hex_text(bytes).len() == 2 * bytes.len(),
    decreases bytes.len(),
{
    if bytes.len() > 0 {
        lemma_hex_text_len(bytes.drop_last());
    }
}

// ---------------------------------------------------------------- what fingerprints tell
/// Whether two operations say the same but for their identifiers.
pub open spec fn same_content(a: OperationView, b: OperationView) -> bool {
    &&& a.owner_id == b.owner_id
    &&& a.sku == b.sku
    &&& a.delta == b.delta
    &&& a.event_version == b.event_version
}

/// Whether the texts of an operation have lengths that can be said.
pub open spec fn lengths_fit(op: OperationView) -> bool {
    encode_utf8(op.owner_id).len() <= u64::MAX && encode_utf8(op.sku).len() <= u64::MAX
}

/// A field in front of something can be told from what follows it.
proof fn lemma_field_cut(a: Seq<u8>, x: Seq<u8>, b: Seq<u8>, y: Seq<u8>)
    requires
        a.len() <= u64::MAX,
        b.len() <= u64::MAX,
        hashed_field(a) + x == hashed_field(b) + y,
    ensures
        a == b,
        x == y,
{
    lemma_pow256_values();
    assert(hashed_field(a) + x =~= le_bytes(a.len(), 8) + (a + x));
    assert(hashed_field(b) + y =~= le_bytes(b.len(), 8) + (b + y));
    lemma_parse_uint_written(a.len(), 8, a + x);
    lemma_parse_uint_written(b.len(), 8, b + y);
    assert((a + x).take(a.len() as int) =~= a);
    assert((b + y).take(b.len() as int) =~= b);
    assert((a + x).skip(a.len() as int) =~= x);
    assert((b + y).skip(b.len() as int) =~= y);
}

/// What a fingerprint is the digest of says what the operation says.
pub proof fn law_fingerprint_input_holds_the_content(a: OperationView, b: OperationView)
    requires
        lengths_fit(a),
        lengths_fit(b),
    ensures
        fingerprint_input(a) == fingerprint_input(b) <==> same_content(a, b),
{
    if fingerprint_input(a) == fingerprint_input(b) {
        let (ao, bo) = (encode_utf8(a.owner_id), encode_utf8(b.owner_id));
        let (ak, bk) = (encode_utf8(a.sku), encode_utf8(b.sku));
        let (ad, bd) = (le_bytes(i64_bits(a.delta), 8), le_bytes(i64_bits(b.delta), 8));
        let (av, bv) = (le_bytes(a.event_version as nat, 8), le_bytes(b.event_version as nat, 8));
        let none = Seq::<u8>::empty();
        lemma_le_bytes_len(i64_bits(a.delta), 8);
        lemma_le_bytes_len(i64_bits(b.delta), 8);
        lemma_le_bytes_len(a.event_version as nat, 8);
        lemma_le_bytes_len(b.event_version as nat, 8);
        let a1 = hashed_field(ad) + (hashed_field(av) + none);
        let b1 = hashed_field(bd) + (hashed_field(bv) + none);
        assert(fingerprint_input(a) =~= hashed_field(ao) + (hashed_field(ak) + a1));
        assert(fingerprint_input(b) =~= hashed_field(bo) + (hashed_field(bk) + b1));
        lemma_field_cut(ao, hashed_field(ak) + a1, bo, hashed_field(bk) + b1);
        lemma_field_cut(ak, a1, bk, b1);
        lemma_field_cut(ad, hashed_field(av) + none, bd, hashed_field(bv) + none);
        lemma_field_cut(av, none, bv, none);
        lemma_pow256_values();
        lemma_i64_bits(a.delta);
        lemma_i64_bits(b.delta);
        lemma_le_value_of_bytes(i64_bits(a.delta), 8);
        lemma_le_value_of_bytes(i64_bits(b.delta), 8);
        lemma_le_value_of_bytes(a.event_version as nat, 8);
        lemma_le_value_of_bytes(b.event_version as nat, 8);
        encode_utf8_decode_utf8(a.owner_id);
        encode_utf8_decode_utf8(b.owner_id);
        encode_utf8_decode_utf8(a.sku);
        encode_utf8_decode_utf8(b.sku);
    }
}

/// Whether the digests of these operations tell them apart: no two identifiers and
/// no two contents have the same digest.
pub open spec fn told_apart(a: OperationView, b: OperationView) -> bool {
    &&& id_key(a.operation_id) == id_key(b.operation_id) ==> a.operation_id == b.operation_id
    &&& op_fingerprint(a) == op_fingerprint(b) ==> fingerprint_input(a) == fingerprint_input(b)
    &&& lengths_fit(a)
    &&& lengths_fit(b)
}

/// Operations that their digests tell apart have the same key exactly where they
/// have the same identifier, and the same fingerprint exactly where they say the
/// same.
pub proof fn law_digests_stand_for_operations(a: OperationView, b: OperationView)
    requires
        told_apart(a, b),
    ensures
        id_key(a.operation_id) == id_key(b.operation_id) <==> a.operation_id == b.operation_id,
        op_fingerprint(a) == op_fingerprint(b) <==> same_content(a, b),
{
    law_fingerprint_input_holds_the_content(a, b);
}

/// The key of an identifier is the digest of its bytes, and the fingerprint of an
/// operation that of its owner, its stock-keeping unit, its change and its version,
/// each behind its length in eight bytes; the identifier is not part of it.
pub proof fn law_what_is_digested(op: OperationView, other: Seq<char>)
    ensures
        id_key(op.operation_id) == sha256(encode_utf8(op.operation_id)),
        op_fingerprint(op) == sha256(
            le_bytes(encode_utf8(op.owner_id).len(), 8) + encode_utf8(op.owner_id) + (le_bytes(
                encode_utf8(op.sku).len(),
                8,
            ) + encode_utf8(op.sku)) + (le_bytes(8, 8) + le_bytes(i64_bits(op.delta), 8)) + (le_bytes(
                8,
                8,
            ) + le_bytes(op.event_version as nat, 8)),
        ),
        op_fingerprint(OperationView { operation_id: other, ..op }) == op_fingerprint(op),
{
    lemma_le_bytes_len(i64_bits(op.delta), 8);
    lemma_le_bytes_len(op.event_version as nat, 8);
}

/// Bytes are written in two lower-case digits each, the higher first.
pub proof fn law_hex_is_two_digits_a_byte(bytes: Seq<u8>, byte: u8)
    ensures
        hex_text(Seq::empty()).len() == 0,
        hex_text(bytes.push(byte)).len() == hex_text(bytes).len() + 2,
        hex_text(bytes.push(byte)).take(hex_text(bytes).len() as int) == hex_text(bytes),
        ({
            let written = hex_text(bytes.push(byte));
            let high = written[written.len() - 2];
            let low = written[written.len() - 1];
            let digit = |c: char, d: int|
                (d < 10 ==> c as int == 0x30 + d) && (d >= 10 ==> c as int == 0x61 + d - 10);
            digit(high, byte as int / 16) && digit(low, byte as int % 16)
        }),
{
    assert(bytes.push(byte).drop_last() =~= bytes);
    assert(hex_text(bytes.push(byte)).take(hex_text(bytes).len() as int) =~= hex_text(bytes));
}

/// A message is known by its kind and the digest of its payload.
pub proof fn law_message_is_known_by_its_digest(payload: Seq<u8>)
    ensures
        message_id(payload) == "operations-"@ + hex_text(sha256(payload)@),
{
}

/// A pair of characters is read as two digits of either case; a plus sign in front of a
/// digit counts for nothing, and anything else is no number.
pub proof fn law_hex_pairs(high: u8, low: u8)
    ensures
        ({
            let value = |b: u8|
                if 0x30 <= b <= 0x39 {
                    b - 0x30
                } else if 0x61 <= b <= 0x66 {
                    b - 0x61 + 10
                } else if 0x41 <= b <= 0x46 {
                    b - 0x41 + 10
                } else {
                    -1
                };
            &&& value(high) >= 0 && value(low) >= 0 ==> hex_pair_value(high, low) == Some(
                (16 * value(high) + value(low)) as nat,
            )
            &&& high == 0x2b && value(low) >= 0 ==> hex_pair_value(high, low) == Some(
                value(low) as nat,
            )
            &&& value(low) < 0 || value(high) < 0 && high != 0x2b ==> hex_pair_value(high, low) is None
        }),
{
}

/// A text of pairs is read pair by pair, and cannot be where one of them cannot.
pub proof fn law_hex_is_read_pair_by_pair(text: Seq<u8>, high: u8, low: u8)
    requires
        text.len() % 2 == 0,
    ensures
        hex_bytes(Seq::empty()) == Some(Seq::<u8>::empty()),
        match (hex_bytes(text), hex_pair_value(high, low)) {
            (Some(bytes), Some(value)) => hex_bytes(text.push(high).push(low)) == Some(
                bytes.push(value as u8),
            ),
            _ => hex_bytes(text.push(high).push(low)) is None,
        },
{
    let longer = text.push(high).push(low);
    assert(longer.take(longer.len() - 2) =~= text);
}

} // verus!
