//! Little-endian integers and length-prefixed strings, as every on-disk and
//! on-wire format of the warehouse writes them, and the reader that walks them.

use vstd::prelude::*;
use vstd::utf8::{decode_utf8, encode_utf8, valid_utf8};

verus! {

/// Why a byte string could not be written or read.
#[derive(Clone, Copy, Debug, PartialEq, Eq, Structural)]
pub enum CodecError {
    /// The leading magic bytes are not those of the expected record.
    WrongMagic,
    /// The input ends inside a field.
    Truncated,
    /// A string field does not hold UTF-8.
    InvalidUtf8,
    /// An item count is over the limit of the format.
    CountTooLarge,
    /// Input is left after the last field.
    TrailingBytes,
    /// The kind byte of a log record is unknown.
    UnknownKind,
    /// A string has more bytes than its length prefix can say.
    StringTooLong,
}

// ---------------------------------------------------------------- integers
/// `256` to the power of `width`: the number of values that `width` bytes hold.
pub open spec fn pow256(width: nat) -> nat
    decreases width,
{
    if width == 0 {
        1
    } else {
        256 * pow256((width - 1) as nat)
    }
}

/// The `width` lowest bytes of `value`, the lowest first.
pub open spec fn le_bytes(value: nat, width: nat) -> Seq<u8>
    decreases width,
{
    if width == 0 {
        Seq::empty()
    } else {
        seq![(value % 256) as u8] + le_bytes(value / 256, (width - 1) as nat)
    }
}

/// The number that `bytes` stand for, the lowest byte first.
pub open spec fn le_value(bytes: Seq<u8>) -> nat
    decreases bytes.len(),
{
    if bytes.len() == 0 {
        0
    } else {
        bytes[0] as nat + 256 * le_value(bytes.drop_first())
    }
}

/// The two's complement image of a signed 64-bit number.
pub open spec fn i64_bits(value: i64) -> nat {
    if value >= 0 {
        value as nat
    } else {
        (value + 0x1_0000_0000_0000_0000) as nat
    }
}

/// The signed number whose two's complement image is `bits`.
pub open spec fn i64_of_bits(bits: nat) -> i64 {
    if bits < 0x8000_0000_0000_0000 {
        bits as i64
    } else {
        (bits - 0x1_0000_0000_0000_0000) as i64
    }
}

pub proof fn lemma_pow256_values()
    ensures
        pow256(1) == 0x100,
        pow256(2) == 0x1_0000,
        pow256(4) == 0x1_0000_0000,
        pow256(8) == 0x1_0000_0000_0000_0000,
{
    reveal_with_fuel(pow256, 9);
}

pub proof fn lemma_le_bytes_len(value: nat, width: nat)
    ensures
        le_bytes(value, width).len() == width,
    decreases width,
{
    if width > 0 {
        lemma_le_bytes_len(value / 256, (width - 1) as nat);
    }
}

pub proof fn lemma_le_value_bound(bytes: Seq<u8>)
    ensures
        le_value(bytes) < pow256(bytes.len()),
    decreases bytes.len(),
{
    if bytes.len() > 0 {
        lemma_le_value_bound(bytes.drop_first());
    }
}

/// Reading back what was written gives the number again.
pub proof fn lemma_le_value_of_bytes(value: nat, width: nat)
    requires
        value < pow256(width),
    ensures
        le_value(le_bytes(value, width)) == value,
    decreases width,
{
    if width > 0 {
        let rest = le_bytes(value / 256, (width - 1) as nat);
        assert(value / 256 < pow256((width - 1) as nat));
        lemma_le_value_of_bytes(value / 256, (width - 1) as nat);
        assert(le_bytes(value, width).drop_first() =~= rest);
    }
}

/// Writing what was read gives the bytes again.
pub proof fn lemma_le_bytes_of_value(bytes: Seq<u8>)
    ensures
        le_bytes(le_value(bytes), bytes.len()) == bytes,
    decreases bytes.len(),
{
    if bytes.len() > 0 {
        let rest = bytes.drop_first();
        lemma_le_bytes_of_value(rest);
        let value = le_value(bytes);
        assert(value % 256 == bytes[0] as nat);
        assert(value / 256 == le_value(rest));
        assert(seq![bytes[0]] + rest =~= bytes);
    } else {
        assert(bytes =~= Seq::empty());
    }
}

pub proof fn lemma_i64_bits(value: i64)
    ensures
        i64_bits(value) < 0x1_0000_0000_0000_0000,
        i64_of_bits(i64_bits(value)) == value,
{
}

pub proof fn lemma_i64_of_bits(bits: nat)
    requires
        bits < 0x1_0000_0000_0000_0000,
    ensures
        i64_bits(i64_of_bits(bits)) == bits,
{
}

/// Appends the `width` lowest bytes of `value`, the lowest first.
pub fn put_uint(out: &mut Vec<u8>, value: u64, width: usize)
    ensures
        final(out)@ == old(out)@ + le_bytes(value as nat, width as nat),
{
    let mut rest: u64 = value;
    let mut written: usize = 0;
    assert(out@ + le_bytes(rest as nat, width as nat) =~= old(out)@ + le_bytes(value as nat, width as nat));
    while written < width
        invariant
            written <= width,
            out@ + le_bytes(rest as nat, (width - written) as nat) == old(out)@ + le_bytes(
                value as nat,
                width as nat,
            ),
        decreases width - written,
    {
        let ghost before = out@;
        let byte: u8 = (rest % 256) as u8;
        out.push(byte);
        proof {
            let tail = le_bytes((rest / 256) as nat, (width - written - 1) as nat);
            assert(before.push(byte) + tail =~= before + (seq![byte] + tail));
        }
        rest = rest / 256;
        written = written + 1;
    }
    assert(out@ + le_bytes(rest as nat, 0) =~= out@);
}

/// The number that `bytes` stand for, the lowest byte first.
pub fn get_uint(bytes: &[u8]) -> (value: u64)
    requires
        bytes@.len() <= 8,
    ensures
        value as nat == le_value(bytes@),
{
    let mut value: u64 = 0;
    let mut left: usize = bytes.len();
    assert(bytes@.skip(left as int) =~= Seq::empty());
    while left > 0
        invariant
            left <= bytes@.len() <= 8,
            value as nat == le_value(bytes@.skip(left as int)),
        decreases left,
    {
        left = left - 1;
        proof {
            let tail = bytes@.skip(left as int);
            assert(tail.drop_first() =~= bytes@.skip(left as int + 1));
            lemma_le_value_bound(tail);
            lemma_pow256_monotonic(tail.len(), 8);
            lemma_pow256_values();
        }
        value = value * 256 + bytes[left] as u64;
    }
    assert(bytes@.skip(0) =~= bytes@);
    value
}

proof fn lemma_pow256_monotonic(small: nat, large: nat)
    requires
        small <= large,
    ensures
        pow256(small) <= pow256(large),
    decreases large,
{
    if small < large {
        lemma_pow256_monotonic(small, (large - 1) as nat);
    }
}

/// The two's complement image of `value`.
pub fn i64_to_bits(value: i64) -> (bits: u64)
    ensures
        bits as nat == i64_bits(value),
{
    if value >= 0 {
        value as u64
    } else {
        // `value + 1` is at least `-i64::MAX`, so its negation is in range.
        let magnitude: u64 = (-(value + 1)) as u64;
        u64::MAX - magnitude
    }
}

/// The signed number whose two's complement image is `bits`.
pub fn i64_from_bits(bits: u64) -> (value: i64)
    ensures
        value == i64_of_bits(bits as nat),
{
    if bits < 0x8000_0000_0000_0000 {
        bits as i64
    } else {
        let magnitude: i64 = (u64::MAX - bits) as i64;
        -magnitude - 1
    }
}

// ---------------------------------------------------------------- strings
/// The bytes of a string field: a two-byte length, then the UTF-8 text.
pub open spec fn string_bytes(text: Seq<char>) -> Seq<u8> {
    le_bytes(encode_utf8(text).len(), 2) + encode_utf8(text)
}

/// Whether a string fits a string field.
pub open spec fn string_fits(text: Seq<char>) -> bool {
    encode_utf8(text).len() <= 0xffff
}

/// Appends `bytes` to `out`.
pub fn put_bytes(out: &mut Vec<u8>, bytes: &[u8])
    ensures
        final(out)@ == old(out)@ + bytes@,
{
    out.extend_from_slice(bytes);
    assert(out@ =~= old(out)@ + bytes@);
}

/// Appends a string field. A string of more than 65535 bytes is refused, and
/// nothing is appended.
pub fn put_string(out: &mut Vec<u8>, value: &str) -> (result: Result<(), CodecError>)
    ensures
        string_fits(value@) ==> result == Ok::<(), CodecError>(()) && final(out)@ == old(out)@
            + string_bytes(value@),
        !string_fits(value@) ==> result == Err::<(), CodecError>(CodecError::StringTooLong)
            && final(out)@ == old(out)@,
{
    let bytes: &[u8] = value.as_bytes();
    if bytes.len() > 0xffff {
        return Err(CodecError::StringTooLong);
    }
    put_uint(out, bytes.len() as u64, 2);
    put_bytes(out, bytes);
    assert(out@ =~= old(out)@ + string_bytes(value@));
    Ok(())
}

/// `std::str::from_utf8` followed by `str::to_owned`: the text whose UTF-8
/// encoding is `bytes`, or nothing where `bytes` is not valid UTF-8.
#[verifier::external_body]
pub(crate) fn utf8_text(bytes: &[u8]) -> (text: Option<String>)
    ensures
        match text {
            Some(s) => valid_utf8(bytes@) && encode_utf8(s@) == bytes@,
            None => !valid_utf8(bytes@),
        },
{
    match std::str::from_utf8(bytes) {
        Ok(s) => Some(s.to_owned()),
        Err(_) => None,
    }
}

// ---------------------------------------------------------------- parsing
/// The first `n` bytes of `s`, and what follows them.
pub open spec fn parse_take(s: Seq<u8>, n: nat) -> Result<(Seq<u8>, Seq<u8>), CodecError> {
    if n <= s.len() {
        Ok((s.take(n as int), s.skip(n as int)))
    } else {
        Err(CodecError::Truncated)
    }
}

/// The little-endian number in the first `width` bytes of `s`, and the rest.
pub open spec fn parse_uint(s: Seq<u8>, width: nat) -> Result<(nat, Seq<u8>), CodecError> {
    match parse_take(s, width) {
        Ok((bytes, rest)) => Ok((le_value(bytes), rest)),
        Err(e) => Err(e),
    }
}

/// The string field at the front of `s`, and the rest.
pub open spec fn parse_string(s: Seq<u8>) -> Result<(Seq<char>, Seq<u8>), CodecError> {
    match parse_uint(s, 2) {
        Err(e) => Err(e),
        Ok((n, after)) => match parse_take(after, n) {
            Err(e) => Err(e),
            Ok((bytes, rest)) => if valid_utf8(bytes) {
                Ok((decode_utf8(bytes), rest))
            } else {
                Err(CodecError::InvalidUtf8)
            },
        },
    }
}

pub proof fn lemma_concat_assoc(a: Seq<u8>, b: Seq<u8>, c: Seq<u8>)
    ensures
        (a + b) + c == a + (b + c),
{
    assert((a + b) + c =~= a + (b + c));
}

pub proof fn lemma_concat_empty(a: Seq<u8>)
    ensures
        a + Seq::<u8>::empty() == a,
{
    assert(a + Seq::<u8>::empty() =~= a);
}

pub proof fn lemma_cut(s: Seq<u8>, length: int)
    requires
        0 <= length <= s.len(),
    ensures
        s == s.take(length) + s.skip(length),
{
    assert(s =~= s.take(length) + s.skip(length));
}

/// A written number parses back, whatever follows it.
pub proof fn lemma_parse_uint_written(value: nat, width: nat, tail: Seq<u8>)
    requires
        value < pow256(width),
    ensures
        parse_uint(le_bytes(value, width) + tail, width) == Ok::<(nat, Seq<u8>), CodecError>(
            (value, tail),
        ),
{
    lemma_le_bytes_len(value, width);
    lemma_le_value_of_bytes(value, width);
    let s = le_bytes(value, width) + tail;
    assert(s.take(width as int) =~= le_bytes(value, width));
    assert(s.skip(width as int) =~= tail);
}

/// What parsed as a number was written as that number.
pub proof fn lemma_parse_uint_read(s: Seq<u8>, width: nat)
    requires
        parse_uint(s, width) is Ok,
    ensures
        s == le_bytes(parse_uint(s, width)->Ok_0.0, width) + parse_uint(s, width)->Ok_0.1,
        parse_uint(s, width)->Ok_0.0 < pow256(width),
{
    let bytes = s.take(width as int);
    lemma_le_bytes_of_value(bytes);
    lemma_le_value_bound(bytes);
    assert(s =~= bytes + s.skip(width as int));
}

/// A written string parses back, whatever follows it.
pub proof fn lemma_parse_string_written(text: Seq<char>, tail: Seq<u8>)
    requires
        string_fits(text),
    ensures
        parse_string(string_bytes(text) + tail) == Ok::<(Seq<char>, Seq<u8>), CodecError>(
            (text, tail),
        ),
{
    let bytes = encode_utf8(text);
    lemma_pow256_values();
    assert(string_bytes(text) + tail =~= le_bytes(bytes.len(), 2) + (bytes + tail));
    lemma_parse_uint_written(bytes.len(), 2, bytes + tail);
    assert((bytes + tail).take(bytes.len() as int) =~= bytes);
    assert((bytes + tail).skip(bytes.len() as int) =~= tail);
    vstd::utf8::encode_utf8_valid_utf8(text);
    vstd::utf8::encode_utf8_decode_utf8(text);
}

/// What parsed as a string was written as that string.
pub proof fn lemma_parse_string_read(s: Seq<u8>)
    requires
        parse_string(s) is Ok,
    ensures
        s == string_bytes(parse_string(s)->Ok_0.0) + parse_string(s)->Ok_0.1,
        string_fits(parse_string(s)->Ok_0.0),
{
    lemma_parse_uint_read(s, 2);
    lemma_pow256_values();
    let (n, after) = parse_uint(s, 2)->Ok_0;
    let bytes = after.take(n as int);
    let rest = after.skip(n as int);
    vstd::utf8::decode_utf8_encode_utf8(bytes);
    assert(encode_utf8(decode_utf8(bytes)) == bytes);
    assert(after =~= bytes + rest);
    assert(s =~= string_bytes(decode_utf8(bytes)) + rest);
}

/// A cursor over a byte string.
pub(crate) struct Reader<'a> {
    data: &'a [u8],
    cursor: usize,
}

impl<'a> Reader<'a> {
    pub closed spec fn wf(&self) -> bool {
        self.cursor <= self.data@.len()
    }

    /// The bytes that have not been read yet.
    pub closed spec fn rest(&self) -> Seq<u8> {
        self.data@.skip(self.cursor as int)
    }

    pub fn new(data: &'a [u8]) -> (reader: Self)
        ensures
            reader.wf(),
            reader.rest() == data@,
    {
        let reader = Reader { data, cursor: 0 };
        assert(reader.rest() =~= data@);
        reader
    }

    /// The next `n` bytes.
    pub fn take(&mut self, n: usize) -> (result: Result<&'a [u8], CodecError>)
        requires
            old(self).wf(),
        ensures
            final(self).wf(),
            match parse_take(old(self).rest(), n as nat) {
                Ok((bytes, rest)) => result matches Ok(slice) && slice@ == bytes && final(self).rest() == rest,
                Err(e) => result == Err::<&'a [u8], CodecError>(e),
            },
    {
        if n > self.data.len() - self.cursor {
            return Err(CodecError::Truncated);
        }
        let end: usize = self.cursor + n;
        let slice: &'a [u8] = vstd::slice::slice_subrange(self.data, self.cursor, end);
        proof {
            assert(slice@ =~= self.rest().take(n as int));
            assert(self.data@.skip(end as int) =~= self.rest().skip(n as int));
        }
        self.cursor = end;
        Ok(slice)
    }

    /// The next number of `width` bytes.
    pub fn uint(&mut self, width: usize) -> (result: Result<u64, CodecError>)
        requires
            old(self).wf(),
            width <= 8,
        ensures
            final(self).wf(),
            match parse_uint(old(self).rest(), width as nat) {
                Ok((value, rest)) => result matches Ok(v) && v as nat == value && final(self).rest()
                    == rest,
                Err(e) => result == Err::<u64, CodecError>(e),
            },
    {
        match self.take(width) {
            Ok(bytes) => Ok(get_uint(bytes)),
            Err(e) => Err(e),
        }
    }

    /// The next signed 64-bit number.
    pub fn i64(&mut self) -> (result: Result<i64, CodecError>)
        requires
            old(self).wf(),
        ensures
            final(self).wf(),
            match parse_uint(old(self).rest(), 8) {
                Ok((bits, rest)) => result == Ok::<i64, CodecError>(i64_of_bits(bits)) && final(self).rest() == rest,
                Err(e) => result == Err::<i64, CodecError>(e),
            },
    {
        match self.uint(8) {
            Ok(bits) => Ok(i64_from_bits(bits)),
            Err(e) => Err(e),
        }
    }

    /// The next string field.
    pub fn string(&mut self) -> (result: Result<String, CodecError>)
        requires
            old(self).wf(),
        ensures
            final(self).wf(),
            match parse_string(old(self).rest()) {
                Ok((text, rest)) => result matches Ok(s) && s@ == text && final(self).rest()
                    == rest,
                Err(e) => result == Err::<String, CodecError>(e),
            },
    {
        let length: u64 = match self.uint(2) {
            Ok(n) => n,
            Err(e) => return Err(e),
        };
        proof {
            lemma_parse_uint_read(old(self).rest(), 2);
            lemma_pow256_values();
        }
        let bytes: &'a [u8] = match self.take(length as usize) {
            Ok(b) => b,
            Err(e) => return Err(e),
        };
        match utf8_text(bytes) {
            Some(text) => {
                proof {
                    vstd::utf8::encode_utf8_decode_utf8(text@);
                }
                Ok(text)
            },
            None => Err(CodecError::InvalidUtf8),
        }
    }

    /// Succeeds where everything has been read.
    pub fn done(&self) -> (result: Result<(), CodecError>)
        requires
            self.wf(),
        ensures
            result == (if self.rest().len() == 0 {
                Ok::<(), CodecError>(())
            } else {
                Err::<(), CodecError>(CodecError::TrailingBytes)
            }),
    {
        if self.cursor == self.data.len() {
            Ok(())
        } else {
            Err(CodecError::TrailingBytes)
        }
    }
}

// ---------------------------------------------------------------- laws
/// A number is written with its lowest byte first and in as many bytes as are asked
/// for, and is read in the same way.
pub proof fn law_lowest_byte_comes_first(value: nat, width: nat, first: u8, rest: Seq<u8>)
    ensures
        le_bytes(value, width).len() == width,
        width > 0 ==> le_bytes(value, width)[0] == value % 256,
        width > 0 ==> le_bytes(value, width).skip(1) == le_bytes(value / 256, (width - 1) as nat),
        le_value(Seq::empty()) == 0,
        le_value(seq![first] + rest) == first + 256 * le_value(rest),
{
    lemma_le_bytes_len(value, width);
    assert((seq![first] + rest).drop_first() =~= rest);
    assert((seq![first] + rest)[0] == first);
    if width > 0 {
        assert(le_bytes(value, width).skip(1) =~= le_bytes(value / 256, (width - 1) as nat));
    }
}

/// Reading undoes writing, for numbers with and without a sign, and writing undoes
/// reading.
pub proof fn law_numbers_read_back(value: u64, signed: i64, bytes: Seq<u8>)
    ensures
        le_value(le_bytes(value as nat, 8)) == value,
        le_bytes(le_value(bytes), bytes.len()) == bytes,
        i64_of_bits(i64_bits(signed)) == signed,
        i64_bits(signed) == (signed as int) % 0x1_0000_0000_0000_0000,
{
    lemma_pow256_values();
    lemma_le_value_of_bytes(value as nat, 8);
    lemma_le_bytes_of_value(bytes);
    lemma_i64_bits(signed);
}

/// A text is written as its length in two bytes and its bytes, and can be where it has
/// no more than 65535 of them; it reads back as it was, whatever follows.
pub proof fn law_text_is_its_length_and_its_bytes(text: Seq<char>, tail: Seq<u8>)
    ensures
        string_fits(text) <==> encode_utf8(text).len() <= 65_535,
        string_bytes(text).take(2) == le_bytes(encode_utf8(text).len(), 2),
        string_bytes(text).skip(2) == encode_utf8(text),
        encode_utf8(text).len() <= 65_535 ==> parse_string(string_bytes(text) + tail) == Ok::<
            (Seq<char>, Seq<u8>),
            CodecError,
        >((text, tail)),
{
    lemma_le_bytes_len(encode_utf8(text).len(), 2);
    assert(string_bytes(text).take(2) =~= le_bytes(encode_utf8(text).len(), 2));
    assert(string_bytes(text).skip(2) =~= encode_utf8(text));
    if string_fits(text) {
        lemma_parse_string_written(text, tail);
    }
}

/// A field that the input is too short for is cut off, and any other is taken from its
/// front; a text that is there in full but is no text is told apart from that.
pub proof fn law_fields_are_taken_from_the_front(s: Seq<u8>, n: nat)
    ensures
        n > s.len() ==> parse_take(s, n) == Err::<(Seq<u8>, Seq<u8>), CodecError>(
            CodecError::Truncated,
        ) && parse_uint(s, n) == Err::<(nat, Seq<u8>), CodecError>(CodecError::Truncated),
        n <= s.len() ==> parse_take(s, n) == Ok::<(Seq<u8>, Seq<u8>), CodecError>(
            (s.subrange(0, n as int), s.subrange(n as int, s.len() as int)),
        ) && parse_uint(s, n) == Ok::<(nat, Seq<u8>), CodecError>(
            (le_value(s.subrange(0, n as int)), s.subrange(n as int, s.len() as int)),
        ),
        ({
            let length = le_value(s.subrange(0, 2));
            let bytes = s.subrange(2, 2 + length as int);
            &&& s.len() < 2 || s.len() < 2 + length <==> parse_string(s) == Err::<
                (Seq<char>, Seq<u8>),
                CodecError,
            >(CodecError::Truncated)
            &&& s.len() >= 2 && s.len() >= 2 + length && !valid_utf8(bytes) <==> parse_string(s)
                == Err::<(Seq<char>, Seq<u8>), CodecError>(CodecError::InvalidUtf8)
            &&& s.len() >= 2 && s.len() >= 2 + length && valid_utf8(bytes) ==> parse_string(s) == Ok::<
                (Seq<char>, Seq<u8>),
                CodecError,
            >((decode_utf8(bytes), s.subrange(2 + length as int, s.len() as int)))
        }),
{
    if n <= s.len() {
        assert(s.take(n as int) =~= s.subrange(0, n as int));
        assert(s.skip(n as int) =~= s.subrange(n as int, s.len() as int));
    }
    if s.len() >= 2 {
        assert(s.take(2) =~= s.subrange(0, 2));
        let length = le_value(s.subrange(0, 2)) as int;
        if s.len() >= 2 + length {
            assert(s.skip(2).take(length) =~= s.subrange(2, 2 + length));
            assert(s.skip(2).skip(length) =~= s.subrange(2 + length, s.len() as int));
        }
    }
}

} // verus!
