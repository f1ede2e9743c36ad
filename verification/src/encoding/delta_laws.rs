//! In what order base rows are written as differences, and what the codes of the steps take.
use vstd::arithmetic::power2::pow2;
use vstd::prelude::*;

use crate::bits::{bits_value, join, join_push};
use crate::data::significant_bits_bound;
use crate::encoding::delta::{payload_width, tier_fits, tier_from, tiers};
use crate::encoding::delta_table::{orders_all, sort_key, step_codes, step_down, written_bits};
use crate::numbers::{bits_value_bound, bits_value_concat, bits_value_push};

verus! {

/// Of two numbers of as many digits that agree above one digit, the one that has it is greater.
proof fn first_difference_decides(greater: Seq<bool>, less: Seq<bool>, j: int)
    requires
        greater.len() == less.len(),
        0 <= j < greater.len(),
        greater[j],
        !less[j],
        forall|k: int| j < k < greater.len() ==> #[trigger] greater[k] == less[k],
    ensures
        bits_value(greater) > bits_value(less),
{
    let high = greater.skip(j + 1);
    assert(less.skip(j + 1) =~= high);
    let low = greater.take(j);
    let other = less.take(j);
    assert(greater =~= low.push(true) + high);
    assert(less =~= other.push(false) + high);
    bits_value_concat(low.push(true), high);
    bits_value_concat(other.push(false), high);
    bits_value_push(low, true);
    bits_value_push(other, false);
    bits_value_bound(other);
}

/// The first column of an order decides which of two rows has the greater key, the next one where both
/// rows agree there, and so on.
pub proof fn first_column_decides(
    greater: Seq<bool>,
    less: Seq<bool>,
    order: Seq<usize>,
    rank: int,
)
    requires
        greater.len() == less.len(),
        orders_all(order, greater.len()),
        0 <= rank < order.len(),
        forall|earlier: int|
            0 <= earlier < rank ==> greater[#[trigger] order[earlier] as int] == less[order[earlier] as int],
        greater[order[rank] as int],
        !less[order[rank] as int],
    ensures
        bits_value(sort_key(greater, order)) > bits_value(sort_key(less, order)),
{
    let j = greater.len() - 1 - rank;
    let a = sort_key(greater, order);
    let b = sort_key(less, order);
    assert(a[j] && !b[j]);
    assert forall|k: int| j < k < a.len() implies #[trigger] a[k] == b[k] by {
        let earlier = greater.len() - 1 - k;
        assert(greater[order[earlier] as int] == less[order[earlier] as int]);
    }
    first_difference_decides(a, b, j);
}

/// The counted prefix and payload bits are those of the stream of codes, and the payload is enough for
/// the digits of the steps.
pub proof fn counted_bits_are_in_stream(codec_id: u8, keys: Seq<nat>, key_width: nat, n: int)
    requires
        0 <= n < keys.len(),
        forall|i: int| 0 <= i < n ==> #[trigger] step_down(keys, i) < pow2(key_width),
    ensures
        ({
            let written = written_bits(codec_id, keys, key_width, n);
            &&& written.0 + written.1 == join(step_codes(codec_id, keys, key_width).take(n)).len()
            &&& written.2 <= written.1
        }),
    decreases n,
{
    let codes = step_codes(codec_id, keys, key_width);
    if n > 0 {
        counted_bits_are_in_stream(codec_id, keys, key_width, n - 1);
        let value = step_down(keys, n - 1);
        let tier = tier_from(tiers(codec_id), value, 0);
        tier_fits(tiers(codec_id), value, 0);
        assert(value < pow2(key_width));
        significant_bits_bound(value, payload_width(codec_id, tier, key_width));
        assert(codes.take(n) =~= codes.take(n - 1).push(codes[n - 1]));
        join_push(codes.take(n - 1), codes[n - 1]);
    } else {
        assert(codes.take(0) =~= Seq::empty());
    }
}

} // verus!
