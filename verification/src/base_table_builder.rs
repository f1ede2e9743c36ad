//! From the choice of base bits to rows that can be encoded.
use vstd::prelude::*;

use crate::base_bits::{distinct, distinct_are_entries, pattern, patterns, BaseBitGroups};
use crate::base_table::{
    belongs, positions, positions_bounded, BaseBitLayoutState, BaseLayoutInfo, PositionKind,
    PreEncodeContext,
};
use crate::bits::{BitStream, MAX_STREAM_BITS};
use crate::data::copy_sizes;
use crate::dataset::{row_in_bounds, BitData, BitDataSet};
use crate::decompression_laws::{leading_bases_match, row_matches, with_constants};

verus! {

/// The role of a bit: the base bits that tell groups apart are looked up in the base table, the
/// constant ones have the value of the first row, and all others are stored per row.
pub open spec fn role(data: BitData, groups: BaseBitGroups, bit: int) -> BaseBitLayoutState {
    if groups.variable_bits@.contains(bit as usize) {
        BaseBitLayoutState::Variable
    } else if groups.constant_bits@.contains(bit as usize) {
        if data.num_rows > 0 && data.row(0)[bit] {
            BaseBitLayoutState::ConstantOne
        } else {
            BaseBitLayoutState::ConstantZero
        }
    } else {
        BaseBitLayoutState::Deviation
    }
}

/// The roles of all bits of a row.
pub open spec fn roles(data: BitData, groups: BaseBitGroups) -> Seq<BaseBitLayoutState> {
    Seq::new(data.chunk_size as nat, |bit: int| role(data, groups, bit))
}

/// Whether the constant bits are in a row as they are in the first one.
pub open spec fn has_constants(data: BitData, groups: BaseBitGroups, row: int) -> bool {
    forall|k: int|
        0 <= k < groups.constant_bits@.len() ==> data.row(
            row,
        )[#[trigger] groups.constant_bits@[k] as int] == data.row(0)[groups.constant_bits@[k] as int]
}

/// Whether the constant bits are in each of the first `n` rows as they are in the first one.
pub open spec fn constants_hold(data: BitData, groups: BaseBitGroups, n: int) -> bool {
    forall|row: int| 0 <= row < n ==> #[trigger] has_constants(data, groups, row)
}

/// How many of the first `n` rows are in a group.
pub open spec fn rows_in_group(ids: Seq<usize>, group: int, n: int) -> nat
    decreases n,
{
    if n <= 0 {
        0
    } else {
        rows_in_group(ids, group, n - 1) + (if ids[n - 1] == group {
            1nat
        } else {
            0
        })
    }
}

/// Whether one of the first `n` rows is in a group.
spec fn is_used(ids: Seq<usize>, group: int, n: int) -> bool {
    exists|k: int| 0 <= k < n && #[trigger] ids[k] == group
}

/// Whether a context is made of rows, the choice of base bits and an order: every base is the part
/// of the rows of its group that is looked up, with the number of these rows.
pub open spec fn built(
    context: PreEncodeContext,
    bit_data: BitDataSet,
    groups: BaseBitGroups,
    order: Option<Vec<usize>>,
) -> bool {
    let table = context.variable_base_table@;
    &&& context.bit_data == bit_data
    &&& context.layout@ == roles(bit_data.data, groups)
    &&& context.row_to_base_id@ == groups.row_to_id@
    &&& context.entropy_sorted_column_order == order
    &&& table.len() == groups.num_bases
    &&& forall|row: int|
        0 <= row < bit_data.data.num_rows ==> (table[(#[trigger] groups.row_to_id@[row]) as int]).0@
            == pattern(bit_data.data.row(row), positions(context.layout@, PositionKind::Variable))
    &&& forall|id: int|
        0 <= id < table.len() ==> (#[trigger] table[id]).1 == rows_in_group(
            groups.row_to_id@,
            id,
            bit_data.data.num_rows as int,
        )
}

/// The different entries of a prefix of a list come first among those of the list.
proof fn distinct_prefix(list: Seq<Seq<bool>>, n: int)
    requires
        0 <= n <= list.len(),
    ensures
        distinct(list.take(n)).len() <= distinct(list).len(),
        forall|k: int|
            0 <= k < distinct(list.take(n)).len() ==> #[trigger] distinct(list.take(n))[k]
                == distinct(list)[k],
    decreases list.len() - n,
{
    if n < list.len() {
        distinct_prefix(list, n + 1);
        let more = list.take(n + 1);
        assert(more.drop_last() =~= list.take(n));
        assert forall|k: int| 0 <= k < distinct(list.take(n)).len() implies #[trigger] distinct(
            list.take(n),
        )[k] == distinct(list)[k] by {
            assert(distinct(more)[k] == distinct(list.take(n))[k]);
        }
    } else {
        assert(list.take(n) =~= list);
    }
}

/// Rows that agree at some bits agree at those of them that a layout looks up.
proof fn same_pattern(
    data: BitData,
    groups: BaseBitGroups,
    first: int,
    second: int,
)
    requires
        groups.groups(data),
        data.chunk_size <= usize::MAX,
        pattern(data.row(first), groups.variable_bits@) == pattern(
            data.row(second),
            groups.variable_bits@,
        ),
    ensures
        pattern(data.row(first), positions(roles(data, groups), PositionKind::Variable)) == pattern(
            data.row(second),
            positions(roles(data, groups), PositionKind::Variable),
        ),
{
    let states = roles(data, groups);
    let wanted = positions(states, PositionKind::Variable);
    let bits = groups.variable_bits@;
    positions_bounded(states, PositionKind::Variable);
    let a = pattern(data.row(first), wanted);
    let b = pattern(data.row(second), wanted);
    assert forall|k: int| 0 <= k < wanted.len() implies a[k] == b[k] by {
        let p = wanted[k];
        assert(belongs(PositionKind::Variable, states[p as int]));
        assert(bits.contains(p));
        let j = choose|j: int| 0 <= j < bits.len() && bits[j] == p;
        assert(pattern(data.row(first), bits)[j] == pattern(data.row(second), bits)[j]);
    }
    assert(a =~= b);
}

/// Where a position stands among the positions of its kind.
proof fn place_of_position(states: Seq<BaseBitLayoutState>, p: int)
    requires
        0 <= p < states.len() <= usize::MAX,
        states[p] == BaseBitLayoutState::Variable,
    ensures
        positions(states.take(p), PositionKind::Variable).len() < positions(
            states,
            PositionKind::Variable,
        ).len(),
        positions(states, PositionKind::Variable)[positions(
            states.take(p),
            PositionKind::Variable,
        ).len() as int] == p,
    decreases states.len(),
{
    let before = states.drop_last();
    if p < states.len() - 1 {
        place_of_position(before, p);
        assert(before.take(p) =~= states.take(p));
    } else {
        assert(states.take(p) =~= before);
    }
}

/// A row matches the base that is made of its own bits, where it has the constant bits.
pub proof fn row_matches_own_base(data: BitData, groups: BaseBitGroups, row: int)
    requires
        groups.groups(data),
        has_constants(data, groups, row),
        data.chunk_size <= usize::MAX,
        0 <= row < data.num_rows,
    ensures
        row_matches(
            roles(data, groups),
            data.row(row),
            pattern(data.row(row), positions(roles(data, groups), PositionKind::Variable)),
        ),
{
    let states = roles(data, groups);
    assert forall|p: int| 0 <= p < states.len() implies match #[trigger] states[p] {
        BaseBitLayoutState::Deviation => true,
        BaseBitLayoutState::Variable => data.row(row)[p] == pattern(
            data.row(row),
            positions(states, PositionKind::Variable),
        )[positions(states.take(p), PositionKind::Variable).len() as int],
        BaseBitLayoutState::ConstantZero => !data.row(row)[p],
        BaseBitLayoutState::ConstantOne => data.row(row)[p],
    } by {
        if states[p] == BaseBitLayoutState::Variable {
            place_of_position(states, p);
        } else if states[p] != BaseBitLayoutState::Deviation {
            let k = choose|k: int|
                0 <= k < groups.constant_bits@.len() && groups.constant_bits@[k] == p as usize;
            assert(data.row(row)[groups.constant_bits@[k] as int] == data.row(
                0,
            )[groups.constant_bits@[k] as int]);
        }
    }
}

/// Every row with the constants at their positions matches the part of it that is looked up.
pub proof fn row_fits_own_base(data: BitData, groups: BaseBitGroups, row: int)
    requires
        data.valid(),
        0 <= row < data.num_rows,
    ensures
        row_matches(
            roles(data, groups),
            with_constants(roles(data, groups), data.row(row)),
            pattern(data.row(row), positions(roles(data, groups), PositionKind::Variable)),
        ),
{
    let states = roles(data, groups);
    let bits = data.row(row);
    row_in_bounds(
        row,
        data.num_rows as int,
        data.stride as int,
        data.chunk_size as int,
    );
    assert forall|p: int| 0 <= p < states.len() implies match #[trigger] states[p] {
        BaseBitLayoutState::Deviation => true,
        BaseBitLayoutState::Variable => with_constants(states, bits)[p] == pattern(
            bits,
            positions(states, PositionKind::Variable),
        )[positions(states.take(p), PositionKind::Variable).len() as int],
        BaseBitLayoutState::ConstantZero => !with_constants(states, bits)[p],
        BaseBitLayoutState::ConstantOne => with_constants(states, bits)[p],
    } by {
        if states[p] == BaseBitLayoutState::Variable {
            place_of_position(states, p);
        }
    }
}

/// Whether a bit is in a list.
pub(crate) fn lists(bits: &Vec<usize>, bit: usize) -> (found: bool)
    ensures
        found == bits@.contains(bit),
{
    let mut k: usize = 0;
    while k < bits.len()
        invariant
            k <= bits@.len(),
            forall|j: int| 0 <= j < k ==> bits@[j] != bit,
        decreases bits@.len() - k,
    {
        if bits[k] == bit {
            assert(bits@[k as int] == bit);
            return true;
        }
        k += 1;
    }
    false
}

/// The roles of all bits of a row.
pub fn build_base_layout(bit_data: &BitDataSet, groups: &BaseBitGroups) -> (layout: BaseLayoutInfo)
    requires
        bit_data.data.valid(),
    ensures
        layout@ == roles(bit_data.data, *groups),
{
    let mut states: Vec<BaseBitLayoutState> = Vec::new();
    let mut bit: usize = 0;
    while bit < bit_data.chunk_size()
        invariant
            bit_data.data.valid(),
            bit <= bit_data.data.chunk_size,
            states@ == roles(bit_data.data, *groups).take(bit as int),
        decreases bit_data.data.chunk_size - bit,
    {
        let state = if lists(&groups.variable_bits, bit) {
            BaseBitLayoutState::Variable
        } else if lists(&groups.constant_bits, bit) {
            if bit_data.num_rows() > 0 && bit_data.data.get_bit(0, bit) {
                BaseBitLayoutState::ConstantOne
            } else {
                BaseBitLayoutState::ConstantZero
            }
        } else {
            BaseBitLayoutState::Deviation
        };
        states.push(state);
        assert(states@ =~= roles(bit_data.data, *groups).take(bit as int + 1));
        bit += 1;
    }
    assert(states@ =~= roles(bit_data.data, *groups));
    BaseLayoutInfo::from_bit_states(states)
}

/// The values of a row at some bits.
fn pattern_of(bit_data: &BitDataSet, row: usize, bits: &Vec<usize>) -> (found: BitStream)
    requires
        bit_data.data.valid(),
        row < bit_data.data.num_rows,
        bits@.len() <= MAX_STREAM_BITS,
        forall|k: int| 0 <= k < bits@.len() ==> #[trigger] bits@[k] < bit_data.data.chunk_size,
    ensures
        found@ == pattern(bit_data.data.row(row as int), bits@),
{
    let ghost wanted = pattern(bit_data.data.row(row as int), bits@);
    let mut found = BitStream::empty();
    let mut k: usize = 0;
    while k < bits.len()
        invariant
            bit_data.data.valid(),
            row < bit_data.data.num_rows,
            k <= bits@.len() <= MAX_STREAM_BITS,
            forall|j: int| 0 <= j < bits@.len() ==> #[trigger] bits@[j] < bit_data.data.chunk_size,
            wanted == pattern(bit_data.data.row(row as int), bits@),
            found@ == wanted.take(k as int),
        decreases bits@.len() - k,
    {
        found.append_bit(bit_data.data.get_bit(row, bits[k]));
        assert(wanted.take(k as int + 1) =~= wanted.take(k as int).push(wanted[k as int]));
        k += 1;
    }
    assert(wanted.take(k as int) =~= wanted);
    found
}

/// Makes rows ready to be encoded: gives each bit its role, and each group its base.
pub fn build_base_table(
    bit_data: BitDataSet,
    groups: &BaseBitGroups,
    entropy_sorted_column_order: Option<Vec<usize>>,
) -> (context: PreEncodeContext)
    requires
        bit_data.valid(),
        groups.groups(bit_data.data),
        bit_data.data.chunk_size <= MAX_STREAM_BITS,
    ensures
        context.valid(),
        built(context, bit_data, *groups, entropy_sorted_column_order),
        forall|n: int|
            0 <= n <= bit_data.data.num_rows && #[trigger] constants_hold(bit_data.data, *groups, n)
                ==> leading_bases_match(context, n),
{
    let ghost data = bit_data.data;
    let layout = build_base_layout(&bit_data, groups);
    let variable = layout.variable_base_bit_positions();
    let num_rows: usize = bit_data.num_rows();
    let ghost all = patterns(data, groups.variable_bits@);
    let ghost ids = groups.row_to_id@;
    let mut table: Vec<(BitStream, usize)> = Vec::new();
    let mut row: usize = 0;
    proof {
        positions_bounded(layout@, PositionKind::Variable);
        distinct_are_entries(all);
        assert(all.take(0) =~= Seq::empty());
    }
    while row < num_rows
        invariant
            data == bit_data.data,
            data.valid(),
            groups.groups(data),
            num_rows == data.num_rows,
            row <= num_rows,
            data.chunk_size <= MAX_STREAM_BITS,
            variable@ == positions(roles(data, *groups), PositionKind::Variable),
            variable@.len() <= MAX_STREAM_BITS,
            forall|k: int| 0 <= k < variable@.len() ==> #[trigger] variable@[k] < data.chunk_size,
            all == patterns(data, groups.variable_bits@),
            ids == groups.row_to_id@,
            forall|j: int, k: int|
                0 <= j < k < distinct(all).len() ==> #[trigger] distinct(all)[j]
                    != #[trigger] distinct(all)[k],
            table@.len() == distinct(all.take(row as int)).len(),
            table@.len() <= distinct(all).len(),
            forall|k: int|
                0 <= k < row ==> (#[trigger] ids[k]) < table@.len() && table@[ids[k] as int].0@
                    == pattern(data.row(k), variable@),
            forall|id: int|
                0 <= id < table@.len() ==> (#[trigger] table@[id]).1 == rows_in_group(
                    ids,
                    id,
                    row as int,
                ) && table@[id].1 <= row && table@[id].0@.len() == variable@.len(),
            forall|id: int|
                table@.len() <= id ==> #[trigger] rows_in_group(ids, id, row as int) == 0,
            forall|id: int|
                0 <= id < table@.len() ==> #[trigger] is_used(ids, id, row as int),
        decreases num_rows - row,
    {
        let id: usize = groups.row_to_id[row];
        let ghost before = table@;
        let ghost so_far = distinct(all.take(row as int));
        let ghost more = all.take(row as int + 1);
        proof {
            assert(more.drop_last() =~= all.take(row as int));
            assert(more.last() == all[row as int]);
            distinct_prefix(all, row as int);
            distinct_prefix(all, row as int + 1);
            assert(distinct(all)[id as int] == all[row as int]);
            if so_far.contains(all[row as int]) {
                let k = choose|k: int| 0 <= k < so_far.len() && so_far[k] == all[row as int];
                assert(distinct(all)[k] == all[row as int]);
                assert(k == id);
            } else {
                let k = so_far.len() as int;
                assert(distinct(more)[k] == all[row as int]);
                assert(distinct(all)[k] == all[row as int]);
                assert(k == id);
            }
        }
        if id < table.len() {
            let (bits, count) = table.remove(id);
            table.insert(id, (bits, count + 1));
            proof {
                assert(table@ =~= before.update(id as int, (before[id as int].0, (count + 1) as usize)));
                assert(is_used(ids, id as int, row as int));
                let k = choose|k: int| 0 <= k < row && #[trigger] ids[k] == id;
                assert(distinct(all)[ids[k] as int] == all[k]);
                same_pattern(data, *groups, k, row as int);
            }
        } else {
            table.push((pattern_of(&bit_data, row, &variable), 1));
        }
        proof {
            assert forall|k: int| 0 <= k < row + 1 implies (#[trigger] ids[k]) < table@.len()
                && table@[ids[k] as int].0@ == pattern(data.row(k), variable@) by {
                if k < row {
                    assert(ids[k] < before.len());
                    assert(before[ids[k] as int].0@ == pattern(data.row(k), variable@));
                }
            }
            assert forall|other: int| 0 <= other < table@.len() implies (
            #[trigger] table@[other]).1 == rows_in_group(ids, other, row + 1) && table@[other].1
                <= row + 1 && table@[other].0@.len() == variable@.len() by {
                if other < before.len() {
                    assert(before[other].1 == rows_in_group(ids, other, row as int));
                } else {
                    assert(rows_in_group(ids, other, row as int) == 0);
                }
            }
            assert forall|other: int| table@.len() <= other implies #[trigger] rows_in_group(
                ids,
                other,
                row + 1,
            ) == 0 by {
                assert(rows_in_group(ids, other, row as int) == 0);
            }
            assert forall|other: int| 0 <= other < table@.len() implies #[trigger] is_used(
                ids,
                other,
                row + 1,
            ) by {
                if other < before.len() {
                    assert(is_used(ids, other, row as int));
                    let k = choose|k: int| 0 <= k < row && #[trigger] ids[k] == other;
                    assert(ids[k] == other);
                } else {
                    assert(ids[row as int] == other);
                }
            }
        }
        row += 1;
    }
    proof {
        assert(all.take(num_rows as int) =~= all);
        assert forall|n: int, s: int|
            0 <= s < n <= num_rows && #[trigger] constants_hold(
                data,
                *groups,
                n,
            ) implies row_matches(layout@, data.row(s), table@[(#[trigger] ids[s]) as int].0@) by {
            assert(has_constants(data, *groups, s));
            row_matches_own_base(data, *groups, s);
        }
    }
    PreEncodeContext {
        bit_data,
        layout,
        variable_base_table: table,
        row_to_base_id: copy_sizes(&groups.row_to_id),
        entropy_sorted_column_order,
    }
}

} // verus!
