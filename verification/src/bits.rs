//! Bit streams: what the library needs of `bitvec`, and numbers as bit sequences.
use bitvec::field::BitField;
use bitvec::order::Lsb0;
use bitvec::vec::BitVec;
use vstd::arithmetic::power2::pow2;
use vstd::bits::lemma_u64_shr_is_div;
use vstd::prelude::*;

verus! {

/// A growable sequence of bits, held in a `bitvec` vector whose index 0 is the least
/// significant bit of the first storage word.
#[verifier::external_body]
#[derive(Debug, PartialEq, Eq)]
pub struct BitStream {
    inner: BitVec<usize, Lsb0>,
}

/// The most bits that a stream can hold.
pub const MAX_STREAM_BITS: usize = usize::MAX / 8;

/// The bits that a stream holds, in index order.
pub uninterp spec fn bits_of(stream: BitStream) -> Seq<bool>;

impl View for BitStream {
    type V = Seq<bool>;

    open spec fn view(&self) -> Seq<bool> {
        bits_of(*self)
    }
}

impl Clone for BitStream {
    /// `BitVec::clone`: another stream with the same bits.
    #[verifier::external_body]
    fn clone(&self) -> (copy: BitStream)
        ensures
            bits_of(copy) == bits_of(*self),
    {
        BitStream { inner: self.inner.clone() }
    }
}

/// The number whose binary digits are `bits`, the first one least significant.
pub open spec fn bits_value(bits: Seq<bool>) -> nat
    decreases bits.len(),
{
    if bits.len() == 0 {
        0
    } else {
        (if bits[0] { 1nat } else { 0nat }) + 2 * bits_value(bits.drop_first())
    }
}

/// Whether binary digit `i` of `value` is one.
pub open spec fn digit(value: nat, i: nat) -> bool {
    (value / pow2(i)) % 2 == 1
}

/// The low `width` binary digits of `value`, the least significant one first.
pub open spec fn low_digits(value: nat, width: nat) -> Seq<bool> {
    Seq::new(width, |i: int| digit(value, i as nat))
}

/// The low `width` binary digits of `value`, the most significant one first.
pub open spec fn high_digits_first(value: nat, width: nat) -> Seq<bool> {
    Seq::new(width, |i: int| digit(value, (width - 1 - i) as nat))
}

/// Bit sequences one behind the other.
pub open spec fn join(parts: Seq<Seq<bool>>) -> Seq<bool>
    decreases parts.len(),
{
    if parts.len() == 0 {
        Seq::empty()
    } else {
        join(parts.drop_last()) + parts.last()
    }
}

/// One more part adds its bits at the end.
pub proof fn join_push(parts: Seq<Seq<bool>>, part: Seq<bool>)
    ensures
        join(parts.push(part)) == join(parts) + part,
{
    assert(parts.push(part).drop_last() =~= parts);
}

/// The parts of two lists one behind the other.
pub proof fn join_concat(first: Seq<Seq<bool>>, second: Seq<Seq<bool>>)
    ensures
        join(first + second) == join(first) + join(second),
    decreases second.len(),
{
    if second.len() == 0 {
        assert(first + second =~= first);
        assert(join(first) + join(second) =~= join(first));
    } else {
        join_concat(first, second.drop_last());
        assert((first + second).drop_last() =~= first + second.drop_last());
        assert(join(first + second) =~= join(first) + join(second));
    }
}

/// Parts of one width can be read back from where they stand.
pub proof fn join_uniform(parts: Seq<Seq<bool>>, width: nat)
    requires
        forall|i: int| 0 <= i < parts.len() ==> (#[trigger] parts[i]).len() == width,
    ensures
        join(parts).len() == parts.len() * width,
        forall|k: int|
            0 <= k < parts.len() ==> #[trigger] parts[k] == join(parts).subrange(
                k * width,
                k * width + width,
            ),
    decreases parts.len(),
{
    if parts.len() > 0 {
        let n = parts.len() as int;
        let before = parts.drop_last();
        join_uniform(before, width);
        assert(n * width == (n - 1) * width + width) by (nonlinear_arith);
        assert forall|k: int| 0 <= k < n implies #[trigger] parts[k] == join(parts).subrange(
            k * width,
            k * width + width,
        ) by {
            assert(0 <= k * width) by (nonlinear_arith)
                requires
                    0 <= k,
            ;
            if k < n - 1 {
                assert(k * width + width <= (n - 1) * width) by (nonlinear_arith)
                    requires
                        k < n - 1,
                ;
                assert(parts[k] == before[k]);
                assert(join(parts).subrange(k * width, k * width + width) =~= join(
                    before,
                ).subrange(k * width, k * width + width));
            } else {
                assert(join(parts).subrange(k * width, k * width + width) =~= parts[k]);
            }
        }
    }
}

/// Binary digit `i` of a number.
pub fn digit_of(value: u64, i: usize) -> (one: bool)
    requires
        i < 64,
    ensures
        one == digit(value as nat, i as nat),
{
    let shifted: u64 = value >> (i as u64);
    proof {
        lemma_u64_shr_is_div(value, i as u64);
        assert(shifted & 1 == shifted % 2) by (bit_vector);
    }
    shifted & 1 == 1
}

impl BitStream {
    /// `BitVec::new`: a stream without bits.
    #[verifier::external_body]
    pub(crate) fn empty() -> (stream: BitStream)
        ensures
            bits_of(stream) == Seq::<bool>::empty(),
    {
        BitStream { inner: BitVec::new() }
    }

    /// `BitVec::repeat`: `len` copies of one bit.
    #[verifier::external_body]
    pub(crate) fn filled(bit: bool, len: usize) -> (stream: BitStream)
        requires
            len <= MAX_STREAM_BITS,
        ensures
            bits_of(stream) == Seq::new(len as nat, |i: int| bit),
    {
        BitStream { inner: BitVec::repeat(bit, len) }
    }

    /// `BitVec::len`: the number of bits held, which never exceeds what the crate can address.
    #[verifier::external_body]
    pub(crate) fn bit_len(&self) -> (len: usize)
        ensures
            len == bits_of(*self).len(),
            len <= MAX_STREAM_BITS,
    {
        self.inner.len()
    }

    /// `BitSlice::index`: the bit at a position inside the stream.
    #[verifier::external_body]
    pub(crate) fn bit(&self, position: usize) -> (bit: bool)
        requires
            position < self@.len(),
        ensures
            bit == self@[position as int],
    {
        self.inner[position]
    }

    /// `BitVec::push`: one bit more at the end. The crate panics at its own length limit.
    #[verifier::external_body]
    pub(crate) fn append_bit(&mut self, bit: bool)
        requires
            old(self)@.len() < MAX_STREAM_BITS,
        ensures
            final(self)@ == old(self)@.push(bit),
    {
        self.inner.push(bit)
    }

    /// `BitSlice::set`: one bit inside the stream overwritten.
    #[verifier::external_body]
    pub(crate) fn put_bit(&mut self, position: usize, bit: bool)
        requires
            position < old(self)@.len(),
        ensures
            final(self)@ == old(self)@.update(position as int, bit),
    {
        self.inner.set(position, bit)
    }

    /// `BitVec::extend_from_bitslice`, given the part `start..end` of another stream.
    #[verifier::external_body]
    pub(crate) fn append_range(&mut self, source: &BitStream, start: usize, end: usize)
        requires
            start <= end <= source@.len(),
            old(self)@.len() + (end - start) <= MAX_STREAM_BITS,
        ensures
            final(self)@ == old(self)@ + source@.subrange(start as int, end as int),
    {
        self.inner.extend_from_bitslice(&source.inner[start..end])
    }

    /// `BitSlice::to_bitvec` on the part `start..end`: a copy of those bits.
    #[verifier::external_body]
    pub(crate) fn copy_range(&self, start: usize, end: usize) -> (part: BitStream)
        requires
            start <= end <= self@.len(),
        ensures
            part@ == self@.subrange(start as int, end as int),
    {
        BitStream { inner: self.inner[start..end].to_bitvec() }
    }

    /// `BitSlice::eq` on two parts of the stream: whether they hold the same bits.
    #[verifier::external_body]
    pub(crate) fn ranges_match(&self, first: usize, second: usize, width: usize) -> (same: bool)
        requires
            first + width <= self@.len(),
            second + width <= self@.len(),
        ensures
            same == (self@.subrange(first as int, first + width) == self@.subrange(
                second as int,
                second + width,
            )),
    {
        self.inner[first..first + width] == self.inner[second..second + width]
    }

    /// `BitField::load_le` on the part `start..end`: the number those bits spell. The crate
    /// panics on an empty part and on one wider than the number type.
    #[verifier::external_body]
    pub(crate) fn number_at(&self, start: usize, end: usize) -> (value: u64)
        requires
            start < end <= self@.len(),
            end - start <= 64,
        ensures
            value == bits_value(self@.subrange(start as int, end as int)),
    {
        self.inner[start..end].load_le::<u64>()
    }

    /// `BitField::store_le` on the part `start..end`: the low digits of `value` written there.
    /// The crate panics on an empty part and on one wider than the number type.
    #[verifier::external_body]
    pub(crate) fn put_number(&mut self, start: usize, end: usize, value: u64)
        requires
            start < end <= old(self)@.len(),
            end - start <= 64,
        ensures
            final(self)@ == old(self)@.subrange(0, start as int) + low_digits(
                value as nat,
                (end - start) as nat,
            ) + old(self)@.subrange(end as int, old(self)@.len() as int),
    {
        self.inner[start..end].store_le::<u64>(value)
    }

    /// Appends the low `width` digits of `value`, the most significant one first.
    pub(crate) fn append_high_first(&mut self, value: u64, width: usize)
        requires
            width <= 64,
            old(self)@.len() + width <= MAX_STREAM_BITS,
        ensures
            final(self)@ == old(self)@ + high_digits_first(value as nat, width as nat),
    {
        let ghost digits = high_digits_first(value as nat, width as nat);
        let mut left: usize = width;
        while left > 0
            invariant
                left <= width <= 64,
                old(self)@.len() + width <= MAX_STREAM_BITS,
                digits == high_digits_first(value as nat, width as nat),
                self@ == old(self)@ + digits.take(width - left),
            decreases left,
        {
            left -= 1;
            self.append_bit(digit_of(value, left));
            assert(digits.take(width - left) =~= digits.take(width - left - 1).push(
                digits[width - left - 1],
            ));
        }
        assert(digits.take(width as int) =~= digits);
    }

    /// Appends the low `width` digits of `value`, the least significant one first.
    pub(crate) fn append_low_first(&mut self, value: u64, width: usize)
        requires
            width <= 64,
            old(self)@.len() + width <= MAX_STREAM_BITS,
        ensures
            final(self)@ == old(self)@ + low_digits(value as nat, width as nat),
    {
        let ghost digits = low_digits(value as nat, width as nat);
        let mut i: usize = 0;
        while i < width
            invariant
                i <= width <= 64,
                old(self)@.len() + width <= MAX_STREAM_BITS,
                digits == low_digits(value as nat, width as nat),
                self@ == old(self)@ + digits.take(i as int),
            decreases width - i,
        {
            self.append_bit(digit_of(value, i));
            assert(digits.take(i as int + 1) =~= digits.take(i as int).push(digits[i as int]));
            i += 1;
        }
        assert(digits.take(width as int) =~= digits);
    }

    /// The stream that holds the given bits.
    pub fn from_bools(bits: &Vec<bool>) -> (stream: BitStream)
        requires
            bits@.len() <= MAX_STREAM_BITS,
        ensures
            stream@ == bits@,
    {
        let mut stream = BitStream::empty();
        let mut i: usize = 0;
        while i < bits.len()
            invariant
                i <= bits@.len() <= MAX_STREAM_BITS,
                stream@ == bits@.take(i as int),
            decreases bits@.len() - i,
        {
            stream.append_bit(bits[i]);
            assert(bits@.take(i as int + 1) =~= bits@.take(i as int).push(bits@[i as int]));
            i += 1;
        }
        assert(bits@.take(i as int) =~= bits@);
        stream
    }

    /// The bits of the stream.
    pub fn to_bools(&self) -> (bits: Vec<bool>)
        ensures
            bits@ == self@,
    {
        let mut bits: Vec<bool> = Vec::new();
        let len: usize = self.bit_len();
        let mut i: usize = 0;
        while i < len
            invariant
                i <= len == bits_of(*self).len(),
                bits@ == self@.take(i as int),
            decreases len - i,
        {
            bits.push(self.bit(i));
            assert(self@.take(i as int + 1) =~= self@.take(i as int).push(self@[i as int]));
            i += 1;
        }
        assert(self@.take(i as int) =~= self@);
        bits
    }
}

} // verus!
