//! How features and the roles of their bits are written.
use vstd::arithmetic::power2::lemma2_to64;
use vstd::prelude::*;

use crate::base_table::BaseBitLayoutState;
use crate::bits::{digit, BitStream, MAX_STREAM_BITS};
use crate::bytes::{
    append_le, append_packed, byte_len, le_bytes, le_round_trip, le_value, le_value_bound, packed,
    read_le, read_packed, unpack_packed, unpacked,
};
use crate::data::{
    features_width, features_width_monotonic, features_width_step, FeatureSpec, FeatureTransform,
};
use crate::error::{bad_metadata, EntroGdError};
use crate::file_format::tags::{type_tag, typed};
use crate::numbers::fitted;
use crate::text::numbered;
use crate::utils::{signed_as_word, word_as_signed, word_of};

verus! {

/// The number of a role.
pub open spec fn state_code(state: BaseBitLayoutState) -> nat {
    match state {
        BaseBitLayoutState::Deviation => 0,
        BaseBitLayoutState::Variable => 1,
        BaseBitLayoutState::ConstantZero => 2,
        BaseBitLayoutState::ConstantOne => 3,
    }
}

/// The role with given low and high digit.
pub open spec fn state_of(low: bool, high: bool) -> BaseBitLayoutState {
    if high {
        if low {
            BaseBitLayoutState::ConstantOne
        } else {
            BaseBitLayoutState::ConstantZero
        }
    } else if low {
        BaseBitLayoutState::Variable
    } else {
        BaseBitLayoutState::Deviation
    }
}

/// Roles as two bits each, the low one first.
pub open spec fn state_bits(states: Seq<BaseBitLayoutState>) -> Seq<bool> {
    Seq::new(2 * states.len(), |i: int| digit(state_code(states[i / 2]), (i % 2) as nat))
}

/// Roles from two bits each.
pub open spec fn bits_states(bits: Seq<bool>, count: nat) -> Seq<BaseBitLayoutState> {
    Seq::new(count, |i: int| state_of(bits[2 * i], bits[2 * i + 1]))
}

/// The two digits of a role.
proof fn state_digits(state: BaseBitLayoutState)
    ensures
        state_of(digit(state_code(state), 0), digit(state_code(state), 1)) == state,
        digit(state_code(state), 0) == (state == BaseBitLayoutState::Variable || state
            == BaseBitLayoutState::ConstantOne),
        digit(state_code(state), 1) == (state == BaseBitLayoutState::ConstantZero || state
            == BaseBitLayoutState::ConstantOne),
{
    lemma2_to64();
}

/// Roles are found again from their bits.
proof fn states_are_found_again(states: Seq<BaseBitLayoutState>)
    ensures
        bits_states(state_bits(states), states.len()) == states,
{
    let bits = state_bits(states);
    assert forall|i: int| 0 <= i < states.len() implies #[trigger] bits_states(
        bits,
        states.len(),
    )[i] == states[i] by {
        state_digits(states[i]);
        assert(bits[2 * i] == digit(state_code(states[i]), 0));
        assert(bits[2 * i + 1] == digit(state_code(states[i]), 1));
    }
    assert(bits_states(bits, states.len()) =~= states);
}

/// A transform as bytes.
pub open spec fn transform_bytes(transform: FeatureTransform) -> Seq<u8> {
    match transform {
        FeatureTransform::Verbatim => seq![0u8],
        FeatureTransform::ScaledSignedInt { decimal_scale } => seq![1u8, decimal_scale],
        FeatureTransform::OffsetSignedInt { min_value } => seq![2u8] + le_bytes(
            word_of(min_value),
            8,
        ),
        FeatureTransform::OffsetUnsignedInt { min_value } => seq![3u8] + le_bytes(
            min_value as nat,
            8,
        ),
        FeatureTransform::ScaledOffsetSignedInt { decimal_scale, min_value } => seq![
            4u8,
            decimal_scale,
        ] + le_bytes(word_of(min_value), 8),
    }
}

/// The signed number that eight bytes spell.
pub open spec fn signed_at(bytes: Seq<u8>, position: int) -> i64 {
    signed_of(le_value(bytes.subrange(position, position + 8)))
}

/// The signed number that a 64-bit word stands for.
pub open spec fn signed_of(word: nat) -> i64 {
    if word <= i64::MAX {
        word as i64
    } else {
        (word - 0x1_0000_0000_0000_0000) as i64
    }
}

/// The transform at a position, and where it ends.
pub open spec fn read_transform(bytes: Seq<u8>, position: int) -> Option<(FeatureTransform, int)> {
    if position >= bytes.len() {
        None
    } else if bytes[position] == 0 {
        Some((FeatureTransform::Verbatim, position + 1))
    } else if bytes[position] == 1 && position + 2 <= bytes.len() {
        Some(
            (
                FeatureTransform::ScaledSignedInt { decimal_scale: bytes[position + 1] },
                position + 2,
            ),
        )
    } else if bytes[position] == 2 && position + 9 <= bytes.len() {
        Some(
            (
                FeatureTransform::OffsetSignedInt { min_value: signed_at(bytes, position + 1) },
                position + 9,
            ),
        )
    } else if bytes[position] == 3 && position + 9 <= bytes.len() {
        Some(
            (
                FeatureTransform::OffsetUnsignedInt {
                    min_value: le_value(bytes.subrange(position + 1, position + 9)) as u64,
                },
                position + 9,
            ),
        )
    } else if bytes[position] == 4 && position + 10 <= bytes.len() {
        Some(
            (
                FeatureTransform::ScaledOffsetSignedInt {
                    decimal_scale: bytes[position + 1],
                    min_value: signed_at(bytes, position + 2),
                },
                position + 10,
            ),
        )
    } else {
        None
    }
}

/// A feature and the roles of its bits as bytes.
#[verifier::opaque]
pub open spec fn feature_bytes(spec: FeatureSpec, states: Seq<BaseBitLayoutState>) -> Seq<u8> {
    seq![1u8, type_tag(spec.data_type)] + transform_bytes(spec.transform) + le_bytes(
        spec.data_type.width(),
        2,
    ) + packed(state_bits(states))
}

/// The feature at a position with the roles of its bits, and where it ends.
#[verifier::opaque]
pub open spec fn read_feature(bytes: Seq<u8>, position: int) -> Option<
    ((FeatureSpec, Seq<BaseBitLayoutState>), int),
> {
    if position + 2 > bytes.len() || bytes[position] != 1 {
        None
    } else {
        match read_transform(bytes, position + 2) {
            Some((transform, at)) => if at + 2 > bytes.len() {
                None
            } else {
                let bits = le_value(bytes.subrange(at, at + 2));
                let end = at + 2 + byte_len(2 * bits);
                match typed(bytes[position + 1], bits) {
                    Some(data_type) => if bits == 0 || end > bytes.len() {
                        None
                    } else {
                        Some(
                            (
                                (
                                    FeatureSpec { data_type, transform },
                                    bits_states(unpacked(bytes.subrange(at + 2, end), 2 * bits), bits),
                                ),
                                end,
                            ),
                        )
                    },
                    None => None,
                }
            },
            None => None,
        }
    }
}

/// Features with the roles of their bits as bytes, one behind the other.
pub open spec fn features_bytes(
    features: Seq<FeatureSpec>,
    states: Seq<BaseBitLayoutState>,
) -> Seq<u8>
    decreases features.len(),
{
    if features.len() == 0 {
        Seq::empty()
    } else {
        let before = features.drop_last();
        let split = features_width(before) as int;
        features_bytes(before, states.take(split)) + feature_bytes(
            features.last(),
            states.skip(split),
        )
    }
}

/// A number of features from a position on with the roles of their bits, and where they end.
pub open spec fn read_features(bytes: Seq<u8>, position: int, count: nat) -> Option<
    ((Seq<FeatureSpec>, Seq<BaseBitLayoutState>), int),
>
    decreases count,
{
    if count == 0 {
        Some(((Seq::empty(), Seq::empty()), position))
    } else {
        match read_features(bytes, position, (count - 1) as nat) {
            Some(((features, states), at)) => match read_feature(bytes, at) {
                Some(((feature, more), end)) => Some(
                    ((features.push(feature), states + more), end),
                ),
                None => None,
            },
            None => None,
        }
    }
}

/// A transform is found again from its bytes.
proof fn transform_is_found_again(before: Seq<u8>, transform: FeatureTransform, after: Seq<u8>)
    ensures
        read_transform(before + transform_bytes(transform) + after, before.len() as int) == Some(
            (transform, (before.len() + transform_bytes(transform).len()) as int),
        ),
{
    let bytes = before + transform_bytes(transform) + after;
    let at = before.len() as int;
    lemma2_to64();
    match transform {
        FeatureTransform::Verbatim => {},
        FeatureTransform::ScaledSignedInt { decimal_scale } => {},
        FeatureTransform::OffsetSignedInt { min_value } => {
            le_round_trip(word_of(min_value), 8);
            assert(bytes.subrange(at + 1, at + 9) =~= le_bytes(word_of(min_value), 8));
        },
        FeatureTransform::OffsetUnsignedInt { min_value } => {
            le_round_trip(min_value as nat, 8);
            assert(bytes.subrange(at + 1, at + 9) =~= le_bytes(min_value as nat, 8));
        },
        FeatureTransform::ScaledOffsetSignedInt { decimal_scale, min_value } => {
            le_round_trip(word_of(min_value), 8);
            assert(bytes.subrange(at + 2, at + 10) =~= le_bytes(word_of(min_value), 8));
        },
    }
}

/// A feature is found again from its bytes.
proof fn feature_is_found_again(
    before: Seq<u8>,
    spec: FeatureSpec,
    states: Seq<BaseBitLayoutState>,
    after: Seq<u8>,
)
    requires
        states.len() == spec.data_type.width(),
        spec.data_type.width() > 0,
    ensures
        read_feature(before + feature_bytes(spec, states) + after, before.len() as int) == Some(
            ((spec, states), (before.len() + feature_bytes(spec, states).len()) as int),
        ),
{
    reveal(feature_bytes);
    reveal(read_feature);
    let bytes = before + feature_bytes(spec, states) + after;
    let at = before.len() as int;
    let head = seq![1u8, type_tag(spec.data_type)];
    let transform = transform_bytes(spec.transform);
    let width = le_bytes(spec.data_type.width(), 2);
    let body = packed(state_bits(states));
    assert(bytes =~= (before + head) + transform + (width + body + after));
    transform_is_found_again(before + head, spec.transform, width + body + after);
    let next = at + 2 + transform.len();
    lemma2_to64();
    le_round_trip(spec.data_type.width(), 2);
    assert(bytes.subrange(next, next + 2) =~= width);
    let bits = state_bits(states);
    assert(bytes.subrange(next + 2, next + 2 + byte_len(bits.len())) =~= body);
    unpack_packed(bits);
    states_are_found_again(states);
}

/// Features are found again from their bytes.
pub proof fn features_are_found_again(
    before: Seq<u8>,
    features: Seq<FeatureSpec>,
    states: Seq<BaseBitLayoutState>,
    after: Seq<u8>,
)
    requires
        states.len() == features_width(features),
        forall|i: int|
            0 <= i < features.len() ==> (#[trigger] features[i]).data_type.width() > 0,
    ensures
        read_features(
            before + features_bytes(features, states) + after,
            before.len() as int,
            features.len(),
        ) == Some(
            (
                (features, states),
                (before.len() + features_bytes(features, states).len()) as int,
            ),
        ),
    decreases features.len(),
{
    if features.len() == 0 {
        assert(features =~= Seq::empty());
        assert(states =~= Seq::empty());
    } else {
        let fewer = features.drop_last();
        let n = features.len() as int;
        assert(features.take(n - 1) =~= fewer);
        assert(features.take(n) =~= features);
        features_width_step(features, n - 1);
        let split = features_width(fewer) as int;
        let first = features_bytes(fewer, states.take(split));
        let last = feature_bytes(features.last(), states.skip(split));
        assert forall|i: int| 0 <= i < fewer.len() implies (#[trigger] fewer[i]).data_type.width()
            > 0 by {
            assert(features[i].data_type.width() > 0);
        }
        assert(features[n - 1].data_type.width() > 0);
        features_are_found_again(before, fewer, states.take(split), last + after);
        feature_is_found_again(before + first, features.last(), states.skip(split), after);
        one_more_feature(
            before,
            first,
            last,
            after,
            fewer,
            states.take(split),
            features.last(),
            states.skip(split),
        );
        assert(fewer.push(features.last()) =~= features);
        assert(states.take(split) + states.skip(split) =~= states);
    }
}

/// One more feature behind others.
proof fn one_more_feature(
    before: Seq<u8>,
    first: Seq<u8>,
    last: Seq<u8>,
    after: Seq<u8>,
    features: Seq<FeatureSpec>,
    states: Seq<BaseBitLayoutState>,
    feature: FeatureSpec,
    more: Seq<BaseBitLayoutState>,
)
    requires
        read_features(before + first + (last + after), before.len() as int, features.len()) == Some(
            ((features, states), (before.len() + first.len()) as int),
        ),
        read_feature((before + first) + last + after, (before + first).len() as int) == Some(
            ((feature, more), ((before + first).len() + last.len()) as int),
        ),
    ensures
        read_features(
            before + (first + last) + after,
            before.len() as int,
            features.len() + 1,
        ) == Some(
            (
                (features.push(feature), states + more),
                (before.len() + (first + last).len()) as int,
            ),
        ),
{
    let bytes = before + (first + last) + after;
    assert(bytes =~= before + first + (last + after));
    assert(bytes =~= (before + first) + last + after);
}

/// Appends a transform.
fn append_transform(out: &mut Vec<u8>, transform: FeatureTransform)
    ensures
        final(out)@ == old(out)@ + transform_bytes(transform),
{
    match transform {
        FeatureTransform::Verbatim => {
            out.push(0);
        },
        FeatureTransform::ScaledSignedInt { decimal_scale } => {
            out.push(1);
            out.push(decimal_scale);
        },
        FeatureTransform::OffsetSignedInt { min_value } => {
            out.push(2);
            append_le(out, signed_as_word(min_value), 8);
        },
        FeatureTransform::OffsetUnsignedInt { min_value } => {
            out.push(3);
            append_le(out, min_value, 8);
        },
        FeatureTransform::ScaledOffsetSignedInt { decimal_scale, min_value } => {
            out.push(4);
            out.push(decimal_scale);
            append_le(out, signed_as_word(min_value), 8);
        },
    }
    assert(out@ =~= old(out)@ + transform_bytes(transform));
}

/// The roles of some bits, two bits each.
fn pack_states(states: &Vec<BaseBitLayoutState>, start: usize, count: usize) -> (bits: BitStream)
    requires
        start + count <= states@.len(),
        2 * count <= MAX_STREAM_BITS,
    ensures
        bits@ == state_bits(states@.subrange(start as int, start + count)),
{
    let ghost part = states@.subrange(start as int, start + count);
    let total: usize = states.len();
    let mut bits = BitStream::empty();
    let mut i: usize = 0;
    while i < count
        invariant
            i <= count,
            start + count <= states@.len() == total,
            2 * count <= MAX_STREAM_BITS,
            part == states@.subrange(start as int, start + count),
            bits@ == state_bits(part.take(i as int)),
        decreases count - i,
    {
        let state = states[start + i];
        let low: bool = match state {
            BaseBitLayoutState::Variable => true,
            BaseBitLayoutState::ConstantOne => true,
            _ => false,
        };
        let high: bool = match state {
            BaseBitLayoutState::ConstantZero => true,
            BaseBitLayoutState::ConstantOne => true,
            _ => false,
        };
        let ghost before = bits@;
        bits.append_bit(low);
        bits.append_bit(high);
        proof {
            state_digits(state);
            let more = part.take(i as int + 1);
            assert forall|j: int| 0 <= j < 2 * (i + 1) implies #[trigger] bits@[j] == state_bits(
                more,
            )[j] by {
                if j < 2 * i {
                    assert(more[j / 2] == part.take(i as int)[j / 2]);
                } else {
                    assert(j / 2 == i && more[j / 2] == state);
                }
            }
            assert(bits@ =~= state_bits(more));
        }
        i += 1;
    }
    assert(part.take(i as int) =~= part);
    bits
}

/// Appends a feature and the roles of its bits.
fn append_feature(
    out: &mut Vec<u8>,
    spec: FeatureSpec,
    states: &Vec<BaseBitLayoutState>,
    start: usize,
)
    requires
        start + spec.data_type.width() <= states@.len(),
        2 * spec.data_type.width() <= MAX_STREAM_BITS,
    ensures
        final(out)@ == old(out)@ + feature_bytes(
            spec,
            states@.subrange(start as int, start + spec.data_type.width()),
        ),
{
    let ghost before = out@;
    let width: usize = spec.data_type.bits();
    let bits = pack_states(states, start, width);
    out.push(1);
    out.push(crate::file_format::tags::encode_data_type(spec.data_type));
    append_transform(out, spec.transform);
    append_le(out, width as u64, 2);
    append_packed(out, &bits, 2 * width);
    proof {
        reveal(feature_bytes);
        assert(fitted(bits@, 2 * width as nat) =~= bits@);
        assert(out@ =~= before + feature_bytes(
            spec,
            states@.subrange(start as int, start + width),
        ));
    }
}

/// Appends features with the roles of their bits.
pub fn append_features(
    out: &mut Vec<u8>,
    features: &Vec<FeatureSpec>,
    states: &Vec<BaseBitLayoutState>,
)
    requires
        states@.len() == features_width(features@),
        2 * states@.len() <= MAX_STREAM_BITS,
    ensures
        final(out)@ == old(out)@ + features_bytes(features@, states@),
{
    let ghost before = out@;
    let total: usize = states.len();
    let mut offset: usize = 0;
    let mut i: usize = 0;
    proof {
        assert(features@.take(0) =~= Seq::empty());
    }
    while i < features.len()
        invariant
            i <= features@.len(),
            states@.len() == features_width(features@) == total,
            2 * states@.len() <= MAX_STREAM_BITS,
            offset == features_width(features@.take(i as int)),
            offset <= total,
            out@ == before + features_bytes(
                features@.take(i as int),
                states@.take(offset as int),
            ),
        decreases features@.len() - i,
    {
        let spec = features[i];
        proof {
            features_width_step(features@, i as int);
            features_width_monotonic(features@, i as int + 1, features@.len() as int);
            assert(features@.take(features@.len() as int) =~= features@);
        }
        append_feature(out, spec, states, offset);
        let next: usize = offset + spec.data_type.bits();
        proof {
            let more = features@.take(i as int + 1);
            let shown = states@.take(next as int);
            assert(more.drop_last() =~= features@.take(i as int));
            assert(shown.take(offset as int) =~= states@.take(offset as int));
            assert(shown.skip(offset as int) =~= states@.subrange(offset as int, next as int));
            assert(out@ =~= before + features_bytes(more, shown));
        }
        offset = next;
        i += 1;
    }
    assert(features@.take(i as int) =~= features@);
    assert(states@.take(offset as int) =~= states@);
}

/// Reads the transform at a position.
fn read_transform_at(bytes: &Vec<u8>, position: usize) -> (result: Result<
    (FeatureTransform, usize),
    EntroGdError,
>)
    ensures
        match read_transform(bytes@, position as int) {
            Some((transform, end)) => result is Ok && (result->Ok_0).0 == transform && (
            result->Ok_0).1 == end && position <= end <= bytes@.len(),
            None => result matches Err(error) && error is InvalidMetadata,
        },
{
    let total: usize = bytes.len();
    if position >= total {
        return Err(bad_metadata("unexpected end of EGD while reading a transform"));
    }
    let left: usize = total - position;
    let tag: u8 = bytes[position];
    proof {
        lemma2_to64();
        if left >= 9 {
            le_value_bound(bytes@.subrange(position + 1, position + 9));
        }
        if left >= 10 {
            le_value_bound(bytes@.subrange(position + 2, position + 10));
        }
    }
    if tag == 0 {
        Ok((FeatureTransform::Verbatim, position + 1))
    } else if tag == 1 && left >= 2 {
        Ok(
            (
                FeatureTransform::ScaledSignedInt { decimal_scale: bytes[position + 1] },
                position + 2,
            ),
        )
    } else if tag == 2 && left >= 9 {
        let min_value: i64 = word_as_signed(read_le(bytes, position + 1, 8));
        Ok((FeatureTransform::OffsetSignedInt { min_value }, position + 9))
    } else if tag == 3 && left >= 9 {
        let min_value: u64 = read_le(bytes, position + 1, 8);
        Ok((FeatureTransform::OffsetUnsignedInt { min_value }, position + 9))
    } else if tag == 4 && left >= 10 {
        let min_value: i64 = word_as_signed(read_le(bytes, position + 2, 8));
        Ok(
            (
                FeatureTransform::ScaledOffsetSignedInt {
                    decimal_scale: bytes[position + 1],
                    min_value,
                },
                position + 10,
            ),
        )
    } else {
        Err(
            EntroGdError::InvalidMetadata {
                message: numbered("unsupported or truncated transform with tag ", tag as usize),
            },
        )
    }
}

/// Reads the feature at a position with the roles of its bits, which are appended to others.
fn read_feature_at(
    bytes: &Vec<u8>,
    position: usize,
    states: &mut Vec<BaseBitLayoutState>,
) -> (result: Result<(FeatureSpec, usize), EntroGdError>)
    requires
        8 * bytes@.len() <= MAX_STREAM_BITS,
    ensures
        match read_feature(bytes@, position as int) {
            Some(((spec, more), end)) => result is Ok && (result->Ok_0).0 == spec && (
            result->Ok_0).1 == end && position <= end <= bytes@.len() && final(states)@ == old(
                states,
            )@ + more && more.len() == spec.data_type.width() && more.len() > 0,
            None => result matches Err(error) && error is InvalidMetadata,
        },
{
    reveal(read_feature);
    let total: usize = bytes.len();
    if position > total || total - position < 2 {
        return Err(bad_metadata("unexpected end of EGD while reading feature metadata"));
    }
    if bytes[position] != 1 {
        return Err(
            EntroGdError::InvalidMetadata {
                message: numbered(
                    "unsupported feature metadata tag ",
                    bytes[position] as usize,
                ),
            },
        );
    }
    let (transform, at) = match read_transform_at(bytes, position + 2) {
        Ok(found) => found,
        Err(error) => {
            return Err(error);
        },
    };
    if total - at < 2 {
        return Err(bad_metadata("unexpected end of EGD while reading a feature width"));
    }
    proof {
        lemma2_to64();
        le_value_bound(bytes@.subrange(at as int, at + 2));
    }
    let bits: u16 = read_le(bytes, at, 2) as u16;
    let data_type = match crate::file_format::tags::decode_data_type(bytes[position + 1], bits) {
        Ok(data_type) => data_type,
        Err(error) => {
            return Err(error);
        },
    };
    if bits == 0 {
        return Err(bad_metadata("feature has 0 bits"));
    }
    let count: usize = bits as usize;
    let size: usize = (2 * count + 7) / 8;
    if total - at - 2 < size {
        return Err(bad_metadata("unexpected end of EGD while reading bit states"));
    }
    let stream = read_packed(bytes, at + 2, 2 * count);
    let ghost shown = unpacked(bytes@.subrange(at + 2, at + 2 + size), 2 * count as nat);
    let ghost more = bits_states(shown, count as nat);
    let ghost before = states@;
    let mut i: usize = 0;
    while i < count
        invariant
            i <= count <= u16::MAX,
            stream@ == shown,
            shown.len() == 2 * count,
            more == bits_states(shown, count as nat),
            states@ == before + more.take(i as int),
        decreases count - i,
    {
        let low: bool = stream.bit(2 * i);
        let high: bool = stream.bit(2 * i + 1);
        let state = if high {
            if low {
                BaseBitLayoutState::ConstantOne
            } else {
                BaseBitLayoutState::ConstantZero
            }
        } else if low {
            BaseBitLayoutState::Variable
        } else {
            BaseBitLayoutState::Deviation
        };
        states.push(state);
        assert(more.take(i as int + 1) =~= more.take(i as int).push(more[i as int]));
        i += 1;
    }
    assert(more.take(i as int) =~= more);
    Ok((FeatureSpec { data_type, transform }, at + 2 + size))
}

/// What cannot be read stays so with more features.
proof fn unreadable_features(bytes: Seq<u8>, position: int, few: nat, many: nat)
    requires
        few <= many,
        read_features(bytes, position, few) is None,
    ensures
        read_features(bytes, position, many) is None,
    decreases many - few,
{
    if few < many {
        unreadable_features(bytes, position, few, (many - 1) as nat);
    }
}

/// Reads a number of features from a position on with the roles of their bits.
pub fn read_features_at(bytes: &Vec<u8>, position: usize, count: usize) -> (result: Result<
    (Vec<FeatureSpec>, Vec<BaseBitLayoutState>, usize),
    EntroGdError,
>)
    requires
        position <= bytes@.len(),
        8 * bytes@.len() <= MAX_STREAM_BITS,
    ensures
        match read_features(bytes@, position as int, count as nat) {
            Some(((features, states), end)) => result matches Ok(found) && found.0@ == features
                && found.1@ == states && found.2 == end && position <= end <= bytes@.len()
                && features.len() == count && states.len() == features_width(features)
                && states.len() >= count && (forall|i: int|
                0 <= i < features.len() ==> (#[trigger] features[i]).data_type.width() > 0)
                && states.len() <= 4 * (end - position),
            None => result matches Err(error) && error is InvalidMetadata,
        },
{
    let mut features: Vec<FeatureSpec> = Vec::new();
    let mut states: Vec<BaseBitLayoutState> = Vec::new();
    let mut at: usize = position;
    let mut i: usize = 0;
    while i < count
        invariant
            i <= count,
            8 * bytes@.len() <= MAX_STREAM_BITS,
            position <= at <= bytes@.len(),
            features@.len() == i,
            states@.len() == features_width(features@),
            states@.len() >= i,
            states@.len() <= 4 * (at - position),
            forall|k: int|
                0 <= k < features@.len() ==> (#[trigger] features@[k]).data_type.width() > 0,
            read_features(bytes@, position as int, i as nat) == Some(
                ((features@, states@), at as int),
            ),
        decreases count - i,
    {
        let ghost before = features@;
        match read_feature_at(bytes, at, &mut states) {
            Ok((spec, end)) => {
                features.push(spec);
                proof {
                    assert(features@.take(i as int) =~= before);
                    assert(features@.take(i as int + 1) =~= features@);
                    features_width_step(features@, i as int);
                    feature_takes_room(bytes@, at as int);
                }
                at = end;
            },
            Err(error) => {
                proof {
                    unreadable_features(bytes@, position as int, i as nat + 1, count as nat);
                }
                return Err(error);
            },
        }
        i += 1;
    }
    Ok((features, states, at))
}

/// A feature takes at least as many bytes as four roles share.
proof fn feature_takes_room(bytes: Seq<u8>, position: int)
    ensures
        read_feature(bytes, position) matches Some(((spec, states), end)) ==> states.len() <= 4 * (
        end - position),
{
    reveal(read_feature);
}

} // verus!
