//! The Bloom filter that stands before the disk index: it tells most absent keys
//! without a read, and never calls a present key absent.

use vstd::prelude::*;

use crate::codec::{get_uint, le_value};
use crate::snapshot::to_array;

verus! {

/// The number of bits of a filter.
pub open spec fn bit_count(bloom: Seq<u8>) -> int {
    bloom.len() as int * 8
}

/// Whether a bit of the filter is set.
pub open spec fn bit_set(bloom: Seq<u8>, bit: int) -> bool {
    bloom[bit / 8] & (1u8 << ((bit % 8) as u8)) != 0
}

/// The number in eight bytes of a key, from `offset` on, in a machine word.
pub open spec fn chunk_value(key: [u8; 32], offset: int) -> usize {
    #[verifier::truncate]
    (le_value(key@.subrange(offset, offset + 8)) as u64 as usize)
}

/// The bit that the eight bytes of a key from `offset` on pick, out of `bits`.
pub open spec fn chunk_bit(key: [u8; 32], offset: int, bits: int) -> int {
    chunk_value(key, offset) as int % bits
}

/// The bits that a key picks.
pub open spec fn key_bits(key: [u8; 32], bits: int) -> Seq<int> {
    seq![
        chunk_bit(key, 0, bits),
        chunk_bit(key, 8, bits),
        chunk_bit(key, 16, bits),
        chunk_bit(key, 24, bits),
    ]
}

/// Whether a key may be present: all of its bits are set.
pub open spec fn may_hold(bloom: Seq<u8>, key: [u8; 32]) -> bool {
    forall|i: int| 0 <= i < 4 ==> bit_set(bloom, #[trigger] key_bits(key, bit_count(bloom))[i])
}

/// Whether `bits` are the bits of `before` and those that a key picks.
pub open spec fn key_added(before: Seq<u8>, after: Seq<u8>, key: [u8; 32]) -> bool {
    &&& after.len() == before.len()
    &&& forall|bit: int|
        0 <= bit < bit_count(before) ==> (#[trigger] bit_set(after, bit) <==> bit_set(before, bit)
            || key_bits(key, bit_count(before)).contains(bit))
}

/// Two filters at once.
pub open spec fn merged(a: Seq<u8>, b: Seq<u8>) -> Seq<u8> {
    Seq::new(
        a.len(),
        |i: int|
            if i < b.len() {
                a[i] | b[i]
            } else {
                a[i]
            },
    )
}

fn chunk(key: &[u8; 32], offset: usize, bits: usize) -> (bit: usize)
    requires
        offset <= 24,
        bits > 0,
    ensures
        bit == chunk_bit(*key, offset as int, bits as int),
        bit < bits,
{
    let bytes: &[u8] = vstd::slice::slice_subrange(key.as_slice(), offset, offset + 8);
    assert(bytes@ =~= key@.subrange(offset as int, offset + 8));
    let value: u64 = get_uint(bytes);
    let word: usize = #[verifier::truncate] (value as usize);
    word % bits
}

/// The bits that a key picks, out of `bits`.
pub fn bloom_positions(key: &[u8; 32], bits: usize) -> (positions: [usize; 4])
    requires
        bits > 0,
    ensures
        forall|i: int|
            0 <= i < 4 ==> (#[trigger] positions@[i]) < bits && positions@[i] == key_bits(
                *key,
                bits as int,
            )[i],
{
    [chunk(key, 0, bits), chunk(key, 8, bits), chunk(key, 16, bits), chunk(key, 24, bits)]
}

/// Whether a key may be present.
pub fn bloom_maybe(bloom: &[u8], key: &[u8; 32]) -> (result: bool)
    requires
        0 < bloom@.len(),
        bit_count(bloom@) <= usize::MAX,
    ensures
        result == may_hold(bloom@, *key),
{
    let positions: [usize; 4] = bloom_positions(key, bloom.len() * 8);
    let mut at: usize = 0;
    while at < 4
        invariant
            at <= 4,
            0 < bloom@.len(),
            bit_count(bloom@) <= usize::MAX,
            forall|i: int|
                0 <= i < 4 ==> (#[trigger] positions@[i]) < bit_count(bloom@) && positions@[i] == key_bits(
                    *key,
                    bit_count(bloom@),
                )[i],
            forall|i: int| 0 <= i < at ==> bit_set(bloom@, #[trigger] key_bits(*key, bit_count(bloom@))[i]),
        decreases 4 - at,
    {
        let bit: usize = positions[at];
        assert(bit == key_bits(*key, bit_count(bloom@))[at as int]);
        if bloom[bit / 8] & (1u8 << ((bit % 8) as u8)) == 0 {
            assert(!bit_set(bloom@, key_bits(*key, bit_count(bloom@))[at as int]));
            return false;
        }
        at = at + 1;
    }
    true
}

/// Sets one bit.
fn set_bit(bloom: &mut Vec<u8>, bit: usize)
    requires
        bit < bit_count(old(bloom)@),
    ensures
        final(bloom)@.len() == old(bloom)@.len(),
        forall|b: int|
            0 <= b < bit_count(old(bloom)@) ==> (#[trigger] bit_set(final(bloom)@, b) <==> bit_set(
                old(bloom)@,
                b,
            ) || b == bit),
{
    let ghost before = bloom@;
    let place: u8 = (bit % 8) as u8;
    let byte: u8 = bloom[bit / 8];
    bloom.set(bit / 8, byte | (1u8 << place));
    proof {
        assert forall|b: int| 0 <= b < bit_count(before) implies (#[trigger] bit_set(bloom@, b) <==> bit_set(
            before,
            b,
        ) || b == bit) by {
            let other: u8 = (b % 8) as u8;
            if b / 8 == bit / 8 {
                assert((byte | (1u8 << place)) & (1u8 << other) != 0 <==> byte & (1u8 << other) != 0
                    || other == place) by (bit_vector)
                    requires
                        place < 8,
                        other < 8,
                ;
                assert(other == place <==> b == bit);
            }
        }
    }
}

/// Notes that a key is present.
pub fn bloom_add(bloom: &mut Vec<u8>, key: &[u8; 32])
    requires
        0 < old(bloom)@.len(),
        bit_count(old(bloom)@) <= usize::MAX,
    ensures
        key_added(old(bloom)@, final(bloom)@, *key),
{
    let ghost before = bloom@;
    let ghost picked = key_bits(*key, bit_count(before));
    let positions: [usize; 4] = bloom_positions(key, bloom.len() * 8);
    let mut at: usize = 0;
    while at < 4
        invariant
            at <= 4,
            before.len() == bloom@.len(),
            picked == key_bits(*key, bit_count(before)),
            forall|i: int|
                0 <= i < 4 ==> (#[trigger] positions@[i]) < bit_count(before) && positions@[i]
                    == picked[i],
            forall|bit: int|
                0 <= bit < bit_count(before) ==> (#[trigger] bit_set(bloom@, bit) <==> bit_set(
                    before,
                    bit,
                ) || picked.take(at as int).contains(bit)),
        decreases 4 - at,
    {
        let ghost so_far = bloom@;
        set_bit(bloom, positions[at]);
        proof {
            let now = picked.take(at as int);
            let then = picked.take(at + 1);
            assert(positions@[at as int] == picked[at as int]);
            assert forall|bit: int| #[trigger] then.contains(bit) <==> now.contains(bit) || bit
                == picked[at as int] by {
                if now.contains(bit) {
                    let p = choose|p: int| 0 <= p < now.len() && now[p] == bit;
                    assert(then[p] == bit);
                }
                assert(then[at as int] == picked[at as int]);
            }
            assert forall|bit: int| 0 <= bit < bit_count(before) implies (#[trigger] bit_set(
                bloom@,
                bit,
            ) <==> bit_set(before, bit) || then.contains(bit)) by {
                assert(bit_set(so_far, bit) <==> bit_set(before, bit) || now.contains(bit));
            }
        }
        at = at + 1;
    }
    assert(picked.take(at as int) =~= picked);
}

/// A key of the disk index does not have the length of a digest.
#[derive(Clone, Copy, Debug, PartialEq, Eq, Structural)]
pub struct InvalidKeyLength;

/// Notes that a key read from the disk is present.
pub fn bloom_add_stored(bloom: &mut Vec<u8>, key: &[u8]) -> (result: Result<(), InvalidKeyLength>)
    requires
        0 < old(bloom)@.len(),
        bit_count(old(bloom)@) <= usize::MAX,
    ensures
        result is Ok <==> key@.len() == 32,
        result is Ok ==> key_added(old(bloom)@, final(bloom)@, crate::snapshot::array_of(key@)),
        result is Err ==> final(bloom)@ == old(bloom)@,
{
    if key.len() != 32 {
        return Err(InvalidKeyLength);
    }
    let array: [u8; 32] = to_array(key);
    bloom_add(bloom, &array);
    Ok(())
}

/// Takes over what another filter has noted.
pub fn bloom_merge(bloom: &mut Vec<u8>, other: &[u8])
    ensures
        final(bloom)@ == merged(old(bloom)@, other@),
{
    let ghost before = bloom@;
    let mut at: usize = 0;
    while at < bloom.len() && at < other.len()
        invariant
            at <= bloom@.len() == before.len(),
            at <= other@.len(),
            forall|i: int| 0 <= i < at ==> bloom@[i] == before[i] | other@[i],
            forall|i: int| at <= i < before.len() ==> bloom@[i] == before[i],
        decreases before.len() - at,
    {
        let byte: u8 = bloom[at] | other[at];
        bloom.set(at, byte);
        at = at + 1;
    }
    assert(bloom@ =~= merged(before, other@));
}

/// A filter in which no key is noted.
pub fn bloom_empty(bytes: usize) -> (bloom: Vec<u8>)
    ensures
        bloom@ == Seq::new(bytes as nat, |i: int| 0u8),
{
    let mut bloom: Vec<u8> = Vec::new();
    bloom.resize(bytes, 0);
    assert(bloom@ =~= Seq::new(bytes as nat, |i: int| 0u8));
    bloom
}

// ---------------------------------------------------------------- laws
proof fn lemma_key_bits(key: [u8; 32], bits: int)
    requires
        bits > 0,
    ensures
        forall|i: int| 0 <= i < 4 ==> 0 <= #[trigger] key_bits(key, bits)[i] < bits,
{
}

/// A key that was noted may be present, and so may every key that could be before:
/// a present key is never called absent.
pub proof fn law_noted_keys_are_never_absent(
    before: Seq<u8>,
    after: Seq<u8>,
    noted: [u8; 32],
    key: [u8; 32],
)
    requires
        before.len() > 0,
        key_added(before, after, noted),
        key == noted || may_hold(before, key),
    ensures
        may_hold(after, key),
{
    let bits = bit_count(before);
    lemma_key_bits(key, bits);
    assert forall|i: int| 0 <= i < 4 implies bit_set(after, #[trigger] key_bits(key, bits)[i]) by {
        let bit = key_bits(key, bits)[i];
        if key == noted {
            assert(key_bits(noted, bits).contains(bit));
        } else {
            assert(bit_set(before, bit));
        }
        assert(bit_set(after, bit) <==> bit_set(before, bit) || key_bits(noted, bits).contains(bit));
    }
}

/// Whether filters follow each other as keys are noted, one after another: each
/// filter is the one before it and the next key.
pub open spec fn notes(filters: Seq<Seq<u8>>, keys: Seq<[u8; 32]>) -> bool {
    &&& filters.len() == keys.len() + 1
    &&& filters[0].len() > 0
    &&& forall|i: int|
        0 <= i < keys.len() ==> key_added(filters[i], filters[i + 1], #[trigger] keys[i])
}

/// After a row of keys was noted, the filter may hold each of them, and every key
/// that it might hold before.
pub proof fn law_every_noted_key_may_be_present(
    filters: Seq<Seq<u8>>,
    keys: Seq<[u8; 32]>,
    key: [u8; 32],
)
    requires
        notes(filters, keys),
        keys.contains(key) || may_hold(filters[0], key),
    ensures
        filters.last().len() == filters[0].len(),
        may_hold(filters.last(), key),
    decreases keys.len(),
{
    if keys.len() > 0 {
        let n = keys.len() as int;
        let front = filters.drop_last();
        let fewer = keys.drop_last();
        assert forall|i: int| 0 <= i < fewer.len() implies key_added(
            front[i],
            front[i + 1],
            #[trigger] fewer[i],
        ) by {
            assert(key_added(filters[i], filters[i + 1], keys[i]));
        }
        assert(key_added(filters[n - 1], filters[n], keys[n - 1]));
        lemma_noted_len(front, fewer);
        if key != keys[n - 1] {
            if keys.contains(key) {
                let i = choose|i: int| 0 <= i < keys.len() && keys[i] == key;
                assert(fewer[i] == key);
            }
            law_every_noted_key_may_be_present(front, fewer, key);
        }
        law_noted_keys_are_never_absent(filters[n - 1], filters[n], keys[n - 1], key);
    }
}

proof fn lemma_noted_len(filters: Seq<Seq<u8>>, keys: Seq<[u8; 32]>)
    requires
        notes(filters, keys),
    ensures
        filters.last().len() == filters[0].len(),
    decreases keys.len(),
{
    if keys.len() > 0 {
        let n = keys.len() as int;
        let front = filters.drop_last();
        let fewer = keys.drop_last();
        assert forall|i: int| 0 <= i < fewer.len() implies key_added(
            front[i],
            front[i + 1],
            #[trigger] fewer[i],
        ) by {
            assert(key_added(filters[i], filters[i + 1], keys[i]));
        }
        assert(key_added(filters[n - 1], filters[n], keys[n - 1]));
        lemma_noted_len(front, fewer);
    }
}

/// Keys that either of two filters may hold, the merged filter may hold: a filter
/// that was rebuilt while others wrote loses nothing of either.
pub proof fn law_merged_filter_keeps_both(a: Seq<u8>, b: Seq<u8>, key: [u8; 32])
    requires
        a.len() > 0,
        b.len() == a.len(),
        may_hold(a, key) || may_hold(b, key),
    ensures
        may_hold(merged(a, b), key),
{
    let bits = bit_count(a);
    let both = merged(a, b);
    assert(bit_count(b) == bits);
    assert(bit_count(both) == bits);
    lemma_key_bits(key, bits);
    assert forall|i: int| 0 <= i < 4 implies bit_set(both, #[trigger] key_bits(key, bits)[i]) by {
        let bit = key_bits(key, bits)[i];
        let x: u8 = a[bit / 8];
        let y: u8 = b[bit / 8];
        let place: u8 = (bit % 8) as u8;
        assert((x | y) & (1u8 << place) != 0 <==> x & (1u8 << place) != 0 || y & (1u8 << place) != 0)
            by (bit_vector)
            requires
                place < 8,
        ;
        if may_hold(a, key) {
            assert(bit_set(a, key_bits(key, bits)[i]));
        } else {
            assert(bit_set(b, key_bits(key, bits)[i]));
        }
    }
}

// ---------------------------------------------------------------- which bits stand for a key
/// Four bits stand for a key: the little-endian numbers in its four parts of eight
/// bytes, each modulo the number of bits.
pub proof fn law_four_bits_stand_for_a_key(key: [u8; 32], bits: int, i: int)
    requires
        bits > 0,
        0 <= i < 4,
    ensures
        key_bits(key, bits).len() == 4,
        0 <= key_bits(key, bits)[i] < bits,
        le_value(key@.subrange(8 * i, 8 * i + 8)) <= usize::MAX && le_value(
            key@.subrange(8 * i, 8 * i + 8),
        ) <= u64::MAX ==> key_bits(key, bits)[i] == le_value(key@.subrange(8 * i, 8 * i + 8)) as int
            % bits,
{
    lemma_key_bits(key, bits);
    assert(i == 0 || i == 1 || i == 2 || i == 3);
}

/// A filter may hold a key exactly where all four of its bits are set, each in its byte.
pub proof fn law_key_may_be_held_where_its_bits_are_set(bloom: Seq<u8>, key: [u8; 32])
    ensures
        ({
            let bits = key_bits(key, 8 * bloom.len() as int);
            let set = |bit: int| bloom[bit / 8] & (1u8 << ((bit % 8) as u8)) != 0;
            may_hold(bloom, key) <==> set(bits[0]) && set(bits[1]) && set(bits[2]) && set(bits[3])
        }),
{
    let bits = key_bits(key, bit_count(bloom));
    assert(bit_count(bloom) == 8 * bloom.len() as int);
    if may_hold(bloom, key) {
        assert(bit_set(bloom, bits[0]));
        assert(bit_set(bloom, bits[1]));
        assert(bit_set(bloom, bits[2]));
        assert(bit_set(bloom, bits[3]));
    } else {
        let i = choose|i: int| 0 <= i < 4 && !bit_set(bloom, #[trigger] bits[i]);
        assert(i == 0 || i == 1 || i == 2 || i == 3);
    }
}

/// An empty filter holds no key.
pub proof fn law_empty_filter_holds_nothing(bytes: nat, key: [u8; 32])
    requires
        bytes > 0,
    ensures
        !may_hold(Seq::new(bytes, |i: int| 0u8), key),
{
    let bloom = Seq::new(bytes, |i: int| 0u8);
    lemma_key_bits(key, bit_count(bloom));
    let bit = key_bits(key, bit_count(bloom))[0];
    assert(bloom[bit / 8] == 0);
    let mask = 1u8 << ((bit % 8) as u8);
    assert(0u8 & mask == 0) by (bit_vector);
    assert(!bit_set(bloom, bit));
}

/// Noting a key sets its four bits and changes no other: where none of the bits of
/// another key is among them, the filter says of that key what it said before.
pub proof fn law_noting_a_key_sets_its_bits_alone(
    before: Seq<u8>,
    after: Seq<u8>,
    noted: [u8; 32],
    bit: int,
)
    requires
        before.len() > 0,
        key_added(before, after, noted),
        0 <= bit < 8 * before.len(),
    ensures
        after.len() == before.len(),
        ({
            let bits = key_bits(noted, 8 * before.len() as int);
            let own = bit == bits[0] || bit == bits[1] || bit == bits[2] || bit == bits[3];
            &&& own ==> bit_set(after, bit)
            &&& !own ==> bit_set(after, bit) == bit_set(before, bit)
        }),
{
    let bits = key_bits(noted, bit_count(before));
    assert(bit_count(before) == 8 * before.len() as int);
    assert(bits[0] == chunk_bit(noted, 0, bit_count(before)));
    assert(bits.contains(bits[0]) && bits.contains(bits[1]) && bits.contains(bits[2])
        && bits.contains(bits[3]));
    if bits.contains(bit) {
        let i = choose|i: int| 0 <= i < bits.len() && bits[i] == bit;
        assert(i == 0 || i == 1 || i == 2 || i == 3);
    }
    assert(bit_set(after, bit) <==> bit_set(before, bit) || bits.contains(bit));
}

/// A bit of a merged filter is set exactly where it is set in one of the two.
pub proof fn law_merged_bits(a: Seq<u8>, b: Seq<u8>, bit: int)
    requires
        a.len() == b.len(),
        0 <= bit < 8 * a.len(),
    ensures
        merged(a, b).len() == a.len(),
        bit_set(merged(a, b), bit) <==> bit_set(a, bit) || bit_set(b, bit),
{
    let (x, y) = (a[bit / 8], b[bit / 8]);
    let mask = 1u8 << ((bit % 8) as u8);
    assert((x | y) & mask != 0 <==> x & mask != 0 || y & mask != 0) by (bit_vector);
}

} // verus!
