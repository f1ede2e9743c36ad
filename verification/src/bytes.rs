//! Numbers and bits as bytes, the least significant ones first.
use vstd::arithmetic::div_mod::{lemma_mod_breakdown, lemma_small_mod};
use vstd::arithmetic::power2::{lemma2_to64, lemma_pow2_adds, lemma_pow2_pos, pow2};
use vstd::prelude::*;

use crate::bits::{bits_value, digit, digit_of, low_digits, BitStream, MAX_STREAM_BITS};
use crate::numbers::{bits_value_bound, bits_value_zeros, digits_of_value, fitted};

verus! {

/// The number that some bytes spell.
pub open spec fn le_value(bytes: Seq<u8>) -> nat
    decreases bytes.len(),
{
    if bytes.len() == 0 {
        0
    } else {
        bytes[0] as nat + 256 * le_value(bytes.drop_first())
    }
}

/// The lowest bytes of a number.
pub open spec fn le_bytes(value: nat, count: nat) -> Seq<u8>
    decreases count,
{
    if count == 0 {
        Seq::empty()
    } else {
        seq![(value % 256) as u8] + le_bytes(value / 256, (count - 1) as nat)
    }
}

/// There are as many bytes as asked for.
pub proof fn le_bytes_len(value: nat, count: nat)
    ensures
        le_bytes(value, count).len() == count,
    decreases count,
{
    if count > 0 {
        le_bytes_len(value / 256, (count - 1) as nat);
    }
}

/// The lowest bytes of a number spell it, less what they cannot hold.
pub proof fn le_value_of_bytes(value: nat, count: nat)
    ensures
        le_value(le_bytes(value, count)) == value % pow2(8 * count),
    decreases count,
{
    lemma2_to64();
    if count > 0 {
        let rest = (count - 1) as nat;
        let bytes = le_bytes(value, count);
        assert(bytes.drop_first() =~= le_bytes(value / 256, rest));
        le_value_of_bytes(value / 256, rest);
        lemma_pow2_adds(8, 8 * rest);
        lemma_pow2_pos(8 * rest);
        lemma_mod_breakdown(value as int, 256, pow2(8 * rest) as int);
    }
}

/// A number that needs no more bytes is spelled by them.
pub proof fn le_round_trip(value: nat, count: nat)
    requires
        value < pow2(8 * count),
    ensures
        le_value(le_bytes(value, count)) == value,
        le_bytes(value, count).len() == count,
{
    le_bytes_len(value, count);
    le_value_of_bytes(value, count);
    lemma_small_mod(value, pow2(8 * count));
}

/// What some bytes spell is less than what one byte more could.
pub proof fn le_value_bound(bytes: Seq<u8>)
    ensures
        le_value(bytes) < pow2(8 * bytes.len()),
    decreases bytes.len(),
{
    lemma2_to64();
    if bytes.len() > 0 {
        let rest = bytes.drop_first();
        le_value_bound(rest);
        lemma_pow2_adds(8, 8 * rest.len());
    }
}

/// The number of bytes that some bits take.
pub open spec fn byte_len(bit_len: nat) -> nat {
    (bit_len + 7) / 8
}

/// Bits as bytes, eight to a byte, with zeros at the end.
pub open spec fn packed(bits: Seq<bool>) -> Seq<u8> {
    Seq::new(
        byte_len(bits.len()),
        |i: int| bits_value(fitted(bits.skip(8 * i), 8)) as u8,
    )
}

/// The first bits of some bytes.
pub open spec fn unpacked(bytes: Seq<u8>, bit_len: nat) -> Seq<bool> {
    Seq::new(bit_len, |j: int| digit(bytes[j / 8] as nat, (j % 8) as nat))
}

/// Bits are found again from their bytes.
pub proof fn unpack_packed(bits: Seq<bool>)
    ensures
        unpacked(packed(bits), bits.len()) == bits,
{
    let bytes = packed(bits);
    assert forall|j: int| 0 <= j < bits.len() implies #[trigger] unpacked(bytes, bits.len())[j]
        == bits[j] by {
        let part = fitted(bits.skip(8 * (j / 8)), 8);
        lemma2_to64();
        bits_value_bound(part);
        digits_of_value(part);
        assert(low_digits(bits_value(part), 8)[j % 8] == part[j % 8]);
        assert(bits.skip(8 * (j / 8))[j % 8] == bits[j]);
    }
    assert(unpacked(bytes, bits.len()) =~= bits);
}

/// Bytes one behind the other.
pub open spec fn concat(parts: Seq<Seq<u8>>) -> Seq<u8>
    decreases parts.len(),
{
    if parts.len() == 0 {
        Seq::empty()
    } else {
        concat(parts.drop_last()) + parts.last()
    }
}

/// One more part adds its bytes at the end.
pub proof fn concat_push(parts: Seq<Seq<u8>>, part: Seq<u8>)
    ensures
        concat(parts.push(part)) == concat(parts) + part,
{
    assert(parts.push(part).drop_last() =~= parts);
}

/// Parts of one size can be read back from where they stand.
pub proof fn concat_uniform(parts: Seq<Seq<u8>>, size: nat)
    requires
        forall|i: int| 0 <= i < parts.len() ==> (#[trigger] parts[i]).len() == size,
    ensures
        concat(parts).len() == parts.len() * size,
        forall|k: int|
            0 <= k < parts.len() ==> #[trigger] parts[k] == concat(parts).subrange(
                k * size,
                k * size + size,
            ),
    decreases parts.len(),
{
    if parts.len() > 0 {
        let n = parts.len() as int;
        let before = parts.drop_last();
        concat_uniform(before, size);
        assert(n * size == (n - 1) * size + size) by (nonlinear_arith);
        assert forall|k: int| 0 <= k < n implies #[trigger] parts[k] == concat(parts).subrange(
            k * size,
            k * size + size,
        ) by {
            assert(0 <= k * size) by (nonlinear_arith)
                requires
                    0 <= k,
            ;
            if k < n - 1 {
                assert(k * size + size <= (n - 1) * size) by (nonlinear_arith)
                    requires
                        k < n - 1,
                ;
                assert(parts[k] == before[k]);
                assert(concat(parts).subrange(k * size, k * size + size) =~= concat(
                    before,
                ).subrange(k * size, k * size + size));
            } else {
                assert(concat(parts).subrange(k * size, k * size + size) =~= parts[k]);
            }
        }
    }
}

/// Appends the lowest bytes of a number.
pub fn append_le(out: &mut Vec<u8>, value: u64, count: usize)
    ensures
        final(out)@ == old(out)@ + le_bytes(value as nat, count as nat),
{
    let ghost start = out@;
    let mut rest: u64 = value;
    let mut left: usize = count;
    while left > 0
        invariant
            left <= count,
            start + le_bytes(value as nat, count as nat) == out@ + le_bytes(
                rest as nat,
                left as nat,
            ),
        decreases left,
    {
        let byte: u8 = (rest % 256) as u8;
        let ghost before = out@;
        out.push(byte);
        rest = rest / 256;
        left -= 1;
        assert(before + (seq![byte] + le_bytes(rest as nat, left as nat)) =~= out@ + le_bytes(
            rest as nat,
            left as nat,
        ));
    }
    assert(out@ + Seq::<u8>::empty() =~= out@);
}

/// The number that some bytes spell.
pub fn read_le(bytes: &Vec<u8>, start: usize, count: usize) -> (value: u64)
    requires
        count <= 8,
        start + count <= bytes@.len(),
    ensures
        value == le_value(bytes@.subrange(start as int, start + count)),
{
    let ghost part = bytes@.subrange(start as int, start + count);
    let total: usize = bytes.len();
    let mut value: u64 = 0;
    let mut left: usize = count;
    proof {
        assert(part.skip(count as int) =~= Seq::empty());
    }
    while left > 0
        invariant
            left <= count <= 8,
            start + count <= bytes@.len() == total,
            part == bytes@.subrange(start as int, start + count),
            value == le_value(part.skip(left as int)),
        decreases left,
    {
        left -= 1;
        proof {
            lemma2_to64();
            let rest = part.skip(left as int);
            assert(rest.drop_first() =~= part.skip(left as int + 1));
            le_value_bound(rest);
            if rest.len() < 8 {
                vstd::arithmetic::power2::lemma_pow2_strictly_increases(8 * rest.len(), 64);
            }
        }
        value = bytes[start + left] as u64 + 256 * value;
    }
    assert(part.skip(0) =~= part);
    value
}

/// Appends bytes.
pub fn append_bytes(out: &mut Vec<u8>, bytes: &Vec<u8>)
    ensures
        final(out)@ == old(out)@ + bytes@,
{
    let ghost start = out@;
    let mut i: usize = 0;
    while i < bytes.len()
        invariant
            i <= bytes@.len(),
            out@ == start + bytes@.take(i as int),
        decreases bytes@.len() - i,
    {
        out.push(bytes[i]);
        assert(bytes@.take(i as int + 1) =~= bytes@.take(i as int).push(bytes@[i as int]));
        i += 1;
    }
    assert(bytes@.take(i as int) =~= bytes@);
}

/// Appends the first bits of a stream as bytes. Bits that the stream lacks are zeros.
pub fn append_packed(out: &mut Vec<u8>, stream: &BitStream, bit_len: usize)
    requires
        bit_len <= MAX_STREAM_BITS,
    ensures
        final(out)@ == old(out)@ + packed(fitted(stream@, bit_len as nat)),
{
    let ghost start = out@;
    let ghost bits = fitted(stream@, bit_len as nat);
    let total: usize = stream.bit_len();
    let count: usize = (bit_len + 7) / 8;
    let mut i: usize = 0;
    while i < count
        invariant
            i <= count,
            count == (bit_len + 7) / 8,
            bit_len <= MAX_STREAM_BITS,
            total == stream@.len() <= MAX_STREAM_BITS,
            bits == fitted(stream@, bit_len as nat),
            out@ == start + packed(bits).take(i as int),
        decreases count - i,
    {
        let first: usize = 8 * i;
        let limit: usize = if bit_len < total {
            bit_len
        } else {
            total
        };
        let last: usize = if first + 8 < limit {
            first + 8
        } else {
            limit
        };
        let ghost part = fitted(bits.skip(8 * i), 8);
        let byte: u8 = if first < last {
            proof {
                let width = last - first;
                let found = stream@.subrange(first as int, last as int);
                assert(part.take(width) =~= found);
                bits_value_zeros(part, width);
                lemma2_to64();
                bits_value_bound(part);
            }
            stream.number_at(first, last) as u8
        } else {
            proof {
                bits_value_zeros(part, 0);
                assert(part.take(0) =~= Seq::empty());
            }
            0
        };
        assert(byte == packed(bits)[i as int]);
        out.push(byte);
        assert(packed(bits).take(i as int + 1) =~= packed(bits).take(i as int).push(byte));
        i += 1;
    }
    assert(packed(bits).take(i as int) =~= packed(bits));
}

/// Reads some bits from the bytes that they take.
pub fn read_packed(bytes: &Vec<u8>, start: usize, bit_len: usize) -> (stream: BitStream)
    requires
        start + byte_len(bit_len as nat) <= bytes@.len(),
        bit_len <= MAX_STREAM_BITS,
    ensures
        stream@ == unpacked(
            bytes@.subrange(start as int, start + byte_len(bit_len as nat)),
            bit_len as nat,
        ),
{
    let ghost part = bytes@.subrange(start as int, start + byte_len(bit_len as nat));
    let total: usize = bytes.len();
    let mut stream = BitStream::empty();
    let mut j: usize = 0;
    while j < bit_len
        invariant
            j <= bit_len <= MAX_STREAM_BITS,
            start + byte_len(bit_len as nat) <= bytes@.len() == total,
            part == bytes@.subrange(start as int, start + byte_len(bit_len as nat)),
            stream@ == unpacked(part, j as nat),
        decreases bit_len - j,
    {
        stream.append_bit(digit_of(bytes[start + j / 8] as u64, j % 8));
        assert(stream@ =~= unpacked(part, j as nat + 1));
        j += 1;
    }
    stream
}

/// A record of a list of records of one size that begins at a position.
pub open spec fn record(bytes: Seq<u8>, position: int, size: nat, i: int) -> Seq<u8> {
    bytes.subrange(position + i * size, position + i * size + size)
}

/// A record lies inside the bytes of its list.
pub proof fn record_in_bounds(count: int, size: nat, i: int)
    requires
        0 <= i < count,
    ensures
        0 <= i * size,
        i * size + size <= count * size,
{
    assert(0 <= i * size && i * size + size <= count * size) by (nonlinear_arith)
        requires
            0 <= i < count,
    ;
}

/// Parts of one size are found again as records, wherever they stand.
pub proof fn records_are_found(before: Seq<u8>, parts: Seq<Seq<u8>>, size: nat, after: Seq<u8>)
    requires
        forall|i: int| 0 <= i < parts.len() ==> (#[trigger] parts[i]).len() == size,
    ensures
        concat(parts).len() == parts.len() * size,
        forall|i: int|
            0 <= i < parts.len() ==> #[trigger] record(
                before + concat(parts) + after,
                before.len() as int,
                size,
                i,
            ) == parts[i],
{
    concat_uniform(parts, size);
    let all = before + concat(parts) + after;
    assert forall|i: int| 0 <= i < parts.len() implies #[trigger] record(
        all,
        before.len() as int,
        size,
        i,
    ) == parts[i] by {
        record_in_bounds(parts.len() as int, size, i);
        assert(record(all, before.len() as int, size, i) =~= concat(parts).subrange(
            i * size,
            i * size + size,
        ));
        assert(parts[i] == concat(parts).subrange(i * size, i * size + size));
    }
}

/// Numbers as records.
pub open spec fn number_parts(values: Seq<usize>, size: nat) -> Seq<Seq<u8>> {
    Seq::new(values.len(), |i: int| le_bytes(values[i] as nat, size))
}

/// The numbers of a list of records.
pub open spec fn numbers_at(bytes: Seq<u8>, position: int, count: nat, size: nat) -> Seq<nat> {
    Seq::new(count, |i: int| le_value(record(bytes, position, size, i)))
}

/// Appends numbers as records.
pub fn append_numbers(out: &mut Vec<u8>, values: &Vec<usize>, size: usize)
    ensures
        final(out)@ == old(out)@ + concat(number_parts(values@, size as nat)),
{
    let ghost start = out@;
    let ghost parts = number_parts(values@, size as nat);
    let mut i: usize = 0;
    proof {
        assert(parts.take(0) =~= Seq::empty());
    }
    while i < values.len()
        invariant
            i <= values@.len(),
            parts == number_parts(values@, size as nat),
            out@ == start + concat(parts.take(i as int)),
        decreases values@.len() - i,
    {
        append_le(out, values[i] as u64, size);
        proof {
            assert(parts.take(i as int + 1) =~= parts.take(i as int).push(parts[i as int]));
            concat_push(parts.take(i as int), parts[i as int]);
            assert(out@ =~= start + concat(parts.take(i as int + 1)));
        }
        i += 1;
    }
    assert(parts.take(i as int) =~= parts);
}

/// Reads the numbers of a list of records.
pub fn read_numbers(bytes: &Vec<u8>, position: usize, count: usize, size: usize) -> (values: Vec<u64>)
    requires
        size <= 8,
        position + count * size <= bytes@.len(),
    ensures
        values@.len() == count,
        forall|i: int|
            0 <= i < count ==> #[trigger] values@[i] == numbers_at(
                bytes@,
                position as int,
                count as nat,
                size as nat,
            )[i],
{
    let total: usize = bytes.len();
    let mut values: Vec<u64> = Vec::new();
    let mut at: usize = position;
    let mut i: usize = 0;
    while i < count
        invariant
            i <= count,
            size <= 8,
            position + count * size <= bytes@.len() == total,
            at == position + i * size,
            values@.len() == i,
            forall|k: int|
                0 <= k < i ==> #[trigger] values@[k] == numbers_at(
                    bytes@,
                    position as int,
                    count as nat,
                    size as nat,
                )[k],
        decreases count - i,
    {
        proof {
            record_in_bounds(count as int, size as nat, i as int);
            assert((i + 1) * size == i * size + size) by (nonlinear_arith);
        }
        values.push(read_le(bytes, at, size));
        at = at + size;
        i += 1;
    }
    values
}

/// The bytes that a list of records takes, where a list that big can be told.
pub fn list_len(count: usize, size: usize) -> (len: Option<usize>)
    ensures
        match len {
            Some(total) => total == count * size,
            None => count * size > usize::MAX,
        },
{
    count.checked_mul(size)
}

/// Numbers are found again from their records.
pub proof fn numbers_are_found(before: Seq<u8>, values: Seq<usize>, size: nat, after: Seq<u8>)
    requires
        forall|i: int| 0 <= i < values.len() ==> #[trigger] values[i] < pow2(8 * size),
    ensures
        concat(number_parts(values, size)).len() == values.len() * size,
        numbers_at(
            before + concat(number_parts(values, size)) + after,
            before.len() as int,
            values.len(),
            size,
        ) == Seq::new(values.len(), |i: int| values[i] as nat),
{
    let parts = number_parts(values, size);
    let all = before + concat(parts) + after;
    assert forall|i: int| 0 <= i < parts.len() implies (#[trigger] parts[i]).len() == size by {
        le_bytes_len(values[i] as nat, size);
    }
    records_are_found(before, parts, size, after);
    let found = numbers_at(all, before.len() as int, values.len(), size);
    assert forall|i: int| 0 <= i < values.len() implies #[trigger] found[i] == values[i] as nat by {
        le_round_trip(values[i] as nat, size);
        assert(record(all, before.len() as int, size, i) == parts[i]);
    }
    assert(found =~= Seq::new(values.len(), |i: int| values[i] as nat));
}

/// The lowest bytes of a number, the most significant one first.
pub open spec fn be_bytes(value: nat, count: nat) -> Seq<u8> {
    le_bytes(value, count).reverse()
}

/// The number that some bytes spell, the first one most significant.
pub open spec fn be_value(bytes: Seq<u8>) -> nat {
    le_value(bytes.reverse())
}

/// A number that needs no more bytes is spelled by them.
pub proof fn be_round_trip(value: nat, count: nat)
    requires
        value < pow2(8 * count),
    ensures
        be_value(be_bytes(value, count)) == value,
        be_bytes(value, count).len() == count,
{
    le_round_trip(value, count);
    assert(le_bytes(value, count).reverse().reverse() =~= le_bytes(value, count));
}

/// What some bytes spell is less than what one byte more could.
pub proof fn be_value_bound(bytes: Seq<u8>)
    ensures
        be_value(bytes) < pow2(8 * bytes.len()),
{
    le_value_bound(bytes.reverse());
}

/// Appends the lowest bytes of a number, the most significant one first.
pub fn append_be(out: &mut Vec<u8>, value: u64, count: usize)
    ensures
        final(out)@ == old(out)@ + be_bytes(value as nat, count as nat),
{
    let ghost start = out@;
    let mut low: Vec<u8> = Vec::new();
    append_le(&mut low, value, count);
    let ghost all = be_bytes(value as nat, count as nat);
    proof {
        le_bytes_len(value as nat, count as nat);
        assert(low@ =~= le_bytes(value as nat, count as nat));
    }
    let mut i: usize = 0;
    while i < count
        invariant
            i <= count == low@.len(),
            all == low@.reverse(),
            out@ == start + all.take(i as int),
        decreases count - i,
    {
        out.push(low[count - 1 - i]);
        assert(all.take(i as int + 1) =~= all.take(i as int).push(all[i as int]));
        i += 1;
    }
    assert(all.take(i as int) =~= all);
}

/// The number that some bytes spell, the first one most significant.
pub fn read_be(bytes: &Vec<u8>, start: usize, count: usize) -> (value: u64)
    requires
        count <= 8,
        start + count <= bytes@.len(),
    ensures
        value == be_value(bytes@.subrange(start as int, start + count)),
{
    let ghost part = bytes@.subrange(start as int, start + count);
    let total: usize = bytes.len();
    let mut value: u64 = 0;
    let mut i: usize = 0;
    proof {
        assert(part.take(0).reverse() =~= Seq::empty());
    }
    while i < count
        invariant
            i <= count <= 8,
            start + count <= bytes@.len() == total,
            part == bytes@.subrange(start as int, start + count),
            value == be_value(part.take(i as int)),
        decreases count - i,
    {
        proof {
            lemma2_to64();
            let more = part.take(i as int + 1);
            assert(more.reverse().drop_first() =~= part.take(i as int).reverse());
            be_value_bound(more);
            if more.len() < 8 {
                vstd::arithmetic::power2::lemma_pow2_strictly_increases(8 * more.len(), 64);
            }
        }
        value = bytes[start + i] as u64 + 256 * value;
        i += 1;
    }
    assert(part.take(i as int) =~= part);
    value
}

/// A copy of some bytes.
pub fn copy_bytes(bytes: &Vec<u8>, start: usize, end: usize) -> (part: Vec<u8>)
    requires
        start <= end <= bytes@.len(),
    ensures
        part@ == bytes@.subrange(start as int, end as int),
{
    let mut part: Vec<u8> = Vec::new();
    let mut i: usize = start;
    while i < end
        invariant
            start <= i <= end <= bytes@.len(),
            part@ == bytes@.subrange(start as int, i as int),
        decreases end - i,
    {
        part.push(bytes[i]);
        assert(part@ =~= bytes@.subrange(start as int, i + 1));
        i += 1;
    }
    part
}

} // verus!
