//! Bits written to and read from bytes, the least significant bit of a byte first.
use vstd::arithmetic::power2::{lemma2_to64, lemma2_to64_rest, lemma_pow2_strictly_increases, pow2};
use vstd::prelude::*;

use crate::bits::{bits_value, digit_of, low_digits, BitStream, MAX_STREAM_BITS};
use crate::bytes::{byte_len, packed, unpack_packed, unpacked};
use crate::error::{bad_metadata, EntroGdError};
use crate::numbers::{bits_value_bound, bits_value_push, bits_value_zeros, fitted, value_fits};

verus! {

/// Writes bits into bytes.
#[derive(Debug)]
pub struct BitWriter {
    pub bytes: Vec<u8>,
    pub bit_len: usize,
}

impl View for BitWriter {
    type V = Seq<bool>;

    open spec fn view(&self) -> Seq<bool> {
        unpacked(self.bytes@, self.bit_len as nat)
    }
}

/// Two to the power of a number below eight.
fn bit_weight(k: usize) -> (weight: u8)
    requires
        k < 8,
    ensures
        weight == pow2(k as nat),
{
    proof {
        lemma2_to64();
    }
    match k {
        0 => 1,
        1 => 2,
        2 => 4,
        3 => 8,
        4 => 16,
        5 => 32,
        6 => 64,
        _ => 128,
    }
}

/// What one bit more does to the bytes.
proof fn packed_push(bits: Seq<bool>, bit: bool)
    ensures
        ({
            let i = (bits.len() / 8) as int;
            let weight = if bit {
                pow2((bits.len() % 8) as nat)
            } else {
                0
            };
            let more = packed(bits.push(bit));
            if bits.len() % 8 == 0 {
                more == packed(bits).push(weight as u8)
            } else {
                &&& packed(bits)[i] + weight < 256
                &&& more == packed(bits).update(i, (packed(bits)[i] + weight) as u8)
            }
        }),
{
    let n = bits.len() as int;
    let i = n / 8;
    let k = n % 8;
    let all = bits.push(bit);
    let more = packed(all);
    lemma2_to64();
    assert forall|j: int| 0 <= j < i implies #[trigger] more[j] == packed(bits)[j] by {
        assert(fitted(all.skip(8 * j), 8) =~= fitted(bits.skip(8 * j), 8));
    }
    let tail = bits.skip(8 * i);
    let part = fitted(tail, 8);
    let part_more = fitted(all.skip(8 * i), 8);
    assert(part.take(k) =~= tail);
    bits_value_zeros(part, k);
    assert(part_more.take(k + 1) =~= tail.push(bit));
    bits_value_zeros(part_more, k + 1);
    bits_value_push(tail, bit);
    bits_value_bound(part_more);
    bits_value_bound(part);
    assert(more[i] == bits_value(part_more) as u8);
    if k == 0 {
        assert(tail =~= Seq::empty());
        assert(more =~= packed(bits).push(more[i]));
    } else {
        assert(packed(bits)[i] == bits_value(part) as u8);
        assert(more =~= packed(bits).update(i, more[i]));
    }
}

impl BitWriter {
    /// Whether the bytes are just those of the bits.
    pub open spec fn valid(self) -> bool {
        self.bytes@ == packed(self@)
    }

    /// A writer without bits.
    pub fn new() -> (writer: BitWriter)
        ensures
            writer.valid(),
            writer@ == Seq::<bool>::empty(),
    {
        let writer = BitWriter { bytes: Vec::new(), bit_len: 0 };
        proof {
            assert(writer@ =~= Seq::empty());
            assert(writer.bytes@ =~= packed(writer@));
        }
        writer
    }

    /// Writes a bit.
    pub fn write_bit(&mut self, bit: bool)
        requires
            old(self).valid(),
            old(self)@.len() < MAX_STREAM_BITS,
        ensures
            final(self).valid(),
            final(self)@ == old(self)@.push(bit),
    {
        let ghost bits = self@;
        let byte_index: usize = self.bit_len / 8;
        let bit_in_byte: usize = self.bit_len % 8;
        let weight: u8 = if bit {
            bit_weight(bit_in_byte)
        } else {
            0
        };
        proof {
            packed_push(bits, bit);
        }
        if bit_in_byte == 0 {
            self.bytes.push(weight);
        } else {
            let byte: u8 = self.bytes[byte_index];
            self.bytes.set(byte_index, byte + weight);
        }
        self.bit_len = self.bit_len + 1;
        proof {
            assert(self.bytes@ == packed(bits.push(bit)));
            unpack_packed(bits.push(bit));
        }
    }

    /// Writes all bits of a stream.
    pub fn write_bitslice(&mut self, bits: &BitStream)
        requires
            old(self).valid(),
            old(self)@.len() + bits@.len() <= MAX_STREAM_BITS,
        ensures
            final(self).valid(),
            final(self)@ == old(self)@ + bits@,
    {
        let ghost start = self@;
        let total: usize = bits.bit_len();
        let mut i: usize = 0;
        assert(start + bits@.take(0) =~= start);
        while i < total
            invariant
                self.valid(),
                i <= total == bits@.len(),
                start.len() + total <= MAX_STREAM_BITS,
                self@ == start + bits@.take(i as int),
            decreases total - i,
        {
            self.write_bit(bits.bit(i));
            assert(self@ =~= start + bits@.take(i as int + 1));
            i += 1;
        }
        assert(bits@.take(i as int) =~= bits@);
    }

    /// Writes the low bits of a number.
    pub fn write_u64_bits(&mut self, value: u64, width: usize)
        requires
            old(self).valid(),
            width <= 64,
            old(self)@.len() + width <= MAX_STREAM_BITS,
        ensures
            final(self).valid(),
            final(self)@ == old(self)@ + low_digits(value as nat, width as nat),
    {
        let ghost start = self@;
        let ghost digits = low_digits(value as nat, width as nat);
        let mut i: usize = 0;
        assert(start + digits.take(0) =~= start);
        while i < width
            invariant
                self.valid(),
                i <= width <= 64,
                digits == low_digits(value as nat, width as nat),
                start.len() + width <= MAX_STREAM_BITS,
                self@ == start + digits.take(i as int),
            decreases width - i,
        {
            self.write_bit(digit_of(value, i));
            assert(self@ =~= start + digits.take(i as int + 1));
            i += 1;
        }
        assert(digits.take(i as int) =~= digits);
    }

    /// Writes the low bits of a number.
    pub fn write_usize_bits(&mut self, value: usize, width: usize)
        requires
            old(self).valid(),
            width <= 64,
            old(self)@.len() + width <= MAX_STREAM_BITS,
        ensures
            final(self).valid(),
            final(self)@ == old(self)@ + low_digits(value as nat, width as nat),
    {
        self.write_u64_bits(value as u64, width);
    }

    /// Writes a number of eight bits.
    pub fn write_u8(&mut self, value: u8)
        requires
            old(self).valid(),
            old(self)@.len() + 8 <= MAX_STREAM_BITS,
        ensures
            final(self).valid(),
            final(self)@ == old(self)@ + low_digits(value as nat, 8),
    {
        self.write_u64_bits(value as u64, 8);
    }

    /// Writes a number of sixteen bits.
    pub fn write_u16(&mut self, value: u16)
        requires
            old(self).valid(),
            old(self)@.len() + 16 <= MAX_STREAM_BITS,
        ensures
            final(self).valid(),
            final(self)@ == old(self)@ + low_digits(value as nat, 16),
    {
        self.write_u64_bits(value as u64, 16);
    }

    /// Writes a number of 32 bits.
    pub fn write_u32(&mut self, value: u32)
        requires
            old(self).valid(),
            old(self)@.len() + 32 <= MAX_STREAM_BITS,
        ensures
            final(self).valid(),
            final(self)@ == old(self)@ + low_digits(value as nat, 32),
    {
        self.write_u64_bits(value as u64, 32);
    }

    /// Writes a number of 64 bits.
    pub fn write_u64(&mut self, value: u64)
        requires
            old(self).valid(),
            old(self)@.len() + 64 <= MAX_STREAM_BITS,
        ensures
            final(self).valid(),
            final(self)@ == old(self)@ + low_digits(value as nat, 64),
    {
        self.write_u64_bits(value, 64);
    }

    /// Writes zeros up to the end of the byte.
    pub fn align_to_byte(&mut self)
        requires
            old(self).valid(),
            old(self)@.len() + 8 <= MAX_STREAM_BITS,
        ensures
            final(self).valid(),
            final(self)@ == fitted(old(self)@, 8 * byte_len(old(self)@.len())),
    {
        let ghost start = self@;
        assert(self@ =~= fitted(start, start.len()));
        while self.bit_len % 8 != 0
            invariant
                self.valid(),
                start.len() + 8 <= MAX_STREAM_BITS,
                start.len() <= self.bit_len <= 8 * byte_len(start.len()),
                self@ == fitted(start, self.bit_len as nat),
            decreases 8 * byte_len(start.len()) - self.bit_len,
        {
            self.write_bit(false);
            assert(self@ =~= fitted(start, self.bit_len as nat));
        }
    }

    /// The bytes.
    pub fn into_bytes(self) -> (bytes: Vec<u8>)
        requires
            self.valid(),
        ensures
            bytes@ == packed(self@),
    {
        self.bytes
    }
}

/// Reads bits from bytes.
#[derive(Debug)]
pub struct BitReader<'a> {
    pub bytes: &'a Vec<u8>,
    pub bit_pos: usize,
}

impl<'a> BitReader<'a> {
    /// All bits, those that have been read as well.
    pub open spec fn bits(self) -> Seq<bool> {
        unpacked(self.bytes@, 8 * self.bytes@.len())
    }

    /// Whether all bits can be counted and the position is among them.
    pub open spec fn valid(self) -> bool {
        &&& 8 * self.bytes@.len() <= MAX_STREAM_BITS
        &&& self.bit_pos <= 8 * self.bytes@.len()
    }

    /// A reader at the first bit.
    pub fn new(bytes: &'a Vec<u8>) -> (reader: BitReader<'a>)
        requires
            8 * bytes@.len() <= MAX_STREAM_BITS,
        ensures
            reader.valid(),
            reader.bytes@ == bytes@,
            reader.bit_pos == 0,
    {
        BitReader { bytes, bit_pos: 0 }
    }

    /// Reads a bit.
    pub fn read_bit(&mut self) -> (result: Result<bool, EntroGdError>)
        requires
            old(self).valid(),
        ensures
            final(self).valid(),
            final(self).bytes@ == old(self).bytes@,
            result is Ok <==> old(self).bit_pos < old(self).bits().len(),
            result matches Ok(bit) ==> bit == old(self).bits()[old(self).bit_pos as int]
                && final(self).bit_pos == old(self).bit_pos + 1,
            result matches Err(error) ==> error is InvalidMetadata && final(self).bit_pos == old(
                self,
            ).bit_pos,
    {
        if self.bit_pos >= self.bytes.len() * 8 {
            return Err(bad_metadata("unexpected end of EGD bitstream"));
        }
        let byte: u8 = self.bytes[self.bit_pos / 8];
        let bit: bool = digit_of(byte as u64, self.bit_pos % 8);
        self.bit_pos = self.bit_pos + 1;
        Ok(bit)
    }

    /// Reads the low bits of a number. Where there are too few, all that are left are read.
    pub fn read_u64_bits(&mut self, width: usize) -> (result: Result<u64, EntroGdError>)
        requires
            old(self).valid(),
        ensures
            final(self).valid(),
            final(self).bytes@ == old(self).bytes@,
            result is Ok <==> width <= 64 && old(self).bit_pos + width <= old(self).bits().len(),
            result matches Ok(value) ==> value == bits_value(
                old(self).bits().subrange(old(self).bit_pos as int, old(self).bit_pos + width),
            ) && final(self).bit_pos == old(self).bit_pos + width,
            result matches Err(error) ==> error is InvalidMetadata && final(self).bit_pos == (
            if width > 64 {
                old(self).bit_pos as int
            } else {
                old(self).bits().len() as int
            }),
    {
        if width > 64 {
            return Err(bad_metadata("cannot read so many bits into u64"));
        }
        let ghost bits = self.bits();
        let ghost start = self.bit_pos as int;
        let mut value: u64 = 0;
        let mut weight: u64 = 1;
        let mut i: usize = 0;
        proof {
            lemma2_to64();
            assert(bits.subrange(start, start) =~= Seq::empty());
        }
        while i < width
            invariant
                self.valid(),
                self.bytes@ == old(self).bytes@,
                bits == old(self).bits(),
                start == old(self).bit_pos,
                i <= width <= 64,
                self.bit_pos == start + i,
                start + i <= bits.len(),
                value == bits_value(bits.subrange(start, start + i)),
                i < 64 ==> weight == pow2(i as nat),
            decreases width - i,
        {
            let bit: bool = match self.read_bit() {
                Ok(bit) => bit,
                Err(error) => {
                    return Err(error);
                },
            };
            proof {
                let before = bits.subrange(start, start + i);
                assert(bits.subrange(start, start + i + 1) =~= before.push(bit));
                bits_value_push(before, bit);
                bits_value_bound(before.push(bit));
                lemma2_to64_rest();
                if i + 1 < 64 {
                    lemma_pow2_strictly_increases(i as nat + 1, 64);
                }
                vstd::arithmetic::power2::lemma_pow2_unfold(i as nat + 1);
            }
            if bit {
                value = value + weight;
            }
            if i < 63 {
                weight = weight * 2;
            }
            i += 1;
        }
        Ok(value)
    }

    /// Reads the low bits of a machine word. Where there are too few, all that are left are read.
    pub fn read_usize_bits(&mut self, width: usize) -> (result: Result<usize, EntroGdError>)
        requires
            old(self).valid(),
        ensures
            final(self).valid(),
            final(self).bytes@ == old(self).bytes@,
            result is Ok <==> width <= usize::BITS && old(self).bit_pos + width <= old(
                self,
            ).bits().len(),
            result matches Ok(value) ==> value == bits_value(
                old(self).bits().subrange(old(self).bit_pos as int, old(self).bit_pos + width),
            ) && final(self).bit_pos == old(self).bit_pos + width,
            result matches Err(error) ==> error is InvalidMetadata && final(self).bit_pos == (
            if width > usize::BITS {
                old(self).bit_pos as int
            } else {
                old(self).bits().len() as int
            }),
    {
        if width > usize::BITS as usize {
            return Err(bad_metadata("cannot read so many bits into usize"));
        }
        let ghost part = self.bits().subrange(self.bit_pos as int, self.bit_pos + width);
        match self.read_u64_bits(width) {
            Ok(value) => {
                proof {
                    bits_value_bound(part);
                    lemma2_to64();
                    lemma2_to64_rest();
                    if width < usize::BITS {
                        lemma_pow2_strictly_increases(width as nat, usize::BITS as nat);
                    }
                    assert(pow2(usize::BITS as nat) == usize::MAX + 1);
                }
                Ok(value as usize)
            },
            Err(error) => Err(error),
        }
    }

    /// Reads a number of eight bits. Where there are fewer, all that are left are read.
    pub fn read_u8(&mut self) -> (result: Result<u8, EntroGdError>)
        requires
            old(self).valid(),
        ensures
            final(self).valid(),
            final(self).bytes@ == old(self).bytes@,
            result is Ok <==> old(self).bit_pos + 8 <= old(self).bits().len(),
            result matches Ok(value) ==> value == bits_value(
                old(self).bits().subrange(old(self).bit_pos as int, old(self).bit_pos + 8),
            ) && final(self).bit_pos == old(self).bit_pos + 8,
            result matches Err(error) ==> error is InvalidMetadata && final(self).bit_pos == old(
                self,
            ).bits().len(),
    {
        let ghost part = self.bits().subrange(self.bit_pos as int, self.bit_pos + 8);
        match self.read_u64_bits(8) {
            Ok(value) => {
                proof {
                    bits_value_bound(part);
                    lemma2_to64();
                }
                Ok(value as u8)
            },
            Err(error) => Err(error),
        }
    }

    /// Reads a number of sixteen bits. Where there are fewer, all that are left are read.
    pub fn read_u16(&mut self) -> (result: Result<u16, EntroGdError>)
        requires
            old(self).valid(),
        ensures
            final(self).valid(),
            final(self).bytes@ == old(self).bytes@,
            result is Ok <==> old(self).bit_pos + 16 <= old(self).bits().len(),
            result matches Ok(value) ==> value == bits_value(
                old(self).bits().subrange(old(self).bit_pos as int, old(self).bit_pos + 16),
            ) && final(self).bit_pos == old(self).bit_pos + 16,
            result matches Err(error) ==> error is InvalidMetadata && final(self).bit_pos == old(
                self,
            ).bits().len(),
    {
        let ghost part = self.bits().subrange(self.bit_pos as int, self.bit_pos + 16);
        match self.read_u64_bits(16) {
            Ok(value) => {
                proof {
                    bits_value_bound(part);
                    lemma2_to64();
                }
                Ok(value as u16)
            },
            Err(error) => Err(error),
        }
    }

    /// Reads a number of 32 bits. Where there are fewer, all that are left are read.
    pub fn read_u32(&mut self) -> (result: Result<u32, EntroGdError>)
        requires
            old(self).valid(),
        ensures
            final(self).valid(),
            final(self).bytes@ == old(self).bytes@,
            result is Ok <==> old(self).bit_pos + 32 <= old(self).bits().len(),
            result matches Ok(value) ==> value == bits_value(
                old(self).bits().subrange(old(self).bit_pos as int, old(self).bit_pos + 32),
            ) && final(self).bit_pos == old(self).bit_pos + 32,
            result matches Err(error) ==> error is InvalidMetadata && final(self).bit_pos == old(
                self,
            ).bits().len(),
    {
        let ghost part = self.bits().subrange(self.bit_pos as int, self.bit_pos + 32);
        match self.read_u64_bits(32) {
            Ok(value) => {
                proof {
                    bits_value_bound(part);
                    lemma2_to64();
                }
                Ok(value as u32)
            },
            Err(error) => Err(error),
        }
    }

    /// Reads a number of 64 bits. Where there are fewer, all that are left are read.
    pub fn read_u64(&mut self) -> (result: Result<u64, EntroGdError>)
        requires
            old(self).valid(),
        ensures
            final(self).valid(),
            final(self).bytes@ == old(self).bytes@,
            result is Ok <==> old(self).bit_pos + 64 <= old(self).bits().len(),
            result matches Ok(value) ==> value == bits_value(
                old(self).bits().subrange(old(self).bit_pos as int, old(self).bit_pos + 64),
            ) && final(self).bit_pos == old(self).bit_pos + 64,
            result matches Err(error) ==> error is InvalidMetadata && final(self).bit_pos == old(
                self,
            ).bits().len(),
    {
        self.read_u64_bits(64)
    }

    /// Goes on to the next byte, unless at the beginning of one.
    pub fn align_to_byte(&mut self)
        requires
            old(self).valid(),
        ensures
            final(self).valid(),
            final(self).bytes@ == old(self).bytes@,
            final(self).bit_pos == 8 * byte_len(old(self).bit_pos as nat),
    {
        while self.bit_pos % 8 != 0
            invariant
                self.valid(),
                self.bytes@ == old(self).bytes@,
                old(self).bit_pos <= self.bit_pos <= 8 * byte_len(old(self).bit_pos as nat),
                8 * byte_len(old(self).bit_pos as nat) <= 8 * self.bytes@.len(),
            decreases 8 * byte_len(old(self).bit_pos as nat) - self.bit_pos,
        {
            self.bit_pos = self.bit_pos + 1;
        }
    }

    /// The number of bits that are left.
    pub fn remaining_bits(&self) -> (count: usize)
        requires
            self.valid(),
        ensures
            count == self.bits().len() - self.bit_pos,
    {
        self.bytes.len() * 8 - self.bit_pos
    }

    /// Reads some bits.
    pub fn read_bits(&mut self, len: usize) -> (result: Result<BitStream, EntroGdError>)
        requires
            old(self).valid(),
        ensures
            final(self).valid(),
            final(self).bytes@ == old(self).bytes@,
            result is Ok <==> old(self).bit_pos + len <= old(self).bits().len(),
            result matches Ok(stream) ==> stream@ == old(self).bits().subrange(
                old(self).bit_pos as int,
                old(self).bit_pos + len,
            ) && final(self).bit_pos == old(self).bit_pos + len,
            result matches Err(error) ==> error is InvalidMetadata && final(self).bit_pos == old(
                self,
            ).bit_pos,
    {
        if len > self.remaining_bits() {
            return Err(bad_metadata("requested more bits than remain"));
        }
        let ghost bits = self.bits();
        let ghost start = self.bit_pos as int;
        let mut out = BitStream::empty();
        let mut i: usize = 0;
        assert(bits.subrange(start, start) =~= Seq::empty());
        while i < len
            invariant
                self.valid(),
                self.bytes@ == old(self).bytes@,
                bits == old(self).bits(),
                bits.len() <= MAX_STREAM_BITS,
                start == old(self).bit_pos,
                i <= len,
                start + len <= bits.len(),
                self.bit_pos == start + i,
                out@ == bits.subrange(start, start + i),
            decreases len - i,
        {
            if let Ok(bit) = self.read_bit() {
                out.append_bit(bit);
                assert(bits.subrange(start, start + i + 1) =~= bits.subrange(start, start + i).push(
                    bit,
                ));
            }
            i += 1;
        }
        Ok(out)
    }
}

/// The bits of a writer are the first bits of a reader of its bytes, and only zeros follow.
pub proof fn written_bits_are_read_back(bits: Seq<bool>)
    ensures
        unpacked(packed(bits), 8 * packed(bits).len()) == fitted(bits, 8 * packed(bits).len()),
        unpacked(packed(bits), 8 * packed(bits).len()).take(bits.len() as int) == bits,
{
    let full = fitted(bits, 8 * byte_len(bits.len()));
    assert forall|i: int| 0 <= i < packed(bits).len() implies #[trigger] packed(full)[i] == packed(
        bits,
    )[i] by {
        assert(fitted(full.skip(8 * i), 8) =~= fitted(bits.skip(8 * i), 8));
    }
    assert(packed(full) =~= packed(bits));
    unpack_packed(full);
    assert(full.take(bits.len() as int) =~= bits);
}

/// A number that is written with enough bits is read back.
pub proof fn written_number_is_read_back(value: nat, width: nat)
    requires
        value < pow2(width),
    ensures
        bits_value(low_digits(value, width)) == value,
{
    value_fits(value, width);
}

} // verus!
