//! Which bits of a row are base bits, and the table of distinct bases.
use vstd::prelude::*;

use crate::bits::BitStream;
use crate::dataset::BitDataSet;

verus! {

/// The role of one bit position of a row.
#[derive(Debug, Clone, Copy, PartialEq, Eq, Structural)]
pub enum BaseBitLayoutState {
    /// Stored per row.
    Deviation,
    /// Part of the base, looked up in the base table.
    Variable,
    /// Clear in every row.
    ConstantZero,
    /// Set in every row.
    ConstantOne,
}

/// A choice among the bit positions of a row.
#[derive(Debug, Clone, Copy, PartialEq, Eq, Structural)]
pub enum PositionKind {
    /// Every position that is not stored per row.
    Selected,
    Variable,
    ConstantZero,
    ConstantOne,
}

/// Whether a position with this role belongs to the choice.
pub open spec fn belongs(kind: PositionKind, state: BaseBitLayoutState) -> bool {
    match kind {
        PositionKind::Selected => state != BaseBitLayoutState::Deviation,
        PositionKind::Variable => state == BaseBitLayoutState::Variable,
        PositionKind::ConstantZero => state == BaseBitLayoutState::ConstantZero,
        PositionKind::ConstantOne => state == BaseBitLayoutState::ConstantOne,
    }
}

/// The positions of one kind, in ascending order.
pub open spec fn positions(states: Seq<BaseBitLayoutState>, kind: PositionKind) -> Seq<usize>
    decreases states.len(),
{
    if states.len() == 0 {
        Seq::empty()
    } else {
        let before = positions(states.drop_last(), kind);
        if belongs(kind, states.last()) {
            before.push((states.len() - 1) as usize)
        } else {
            before
        }
    }
}

/// There are no more chosen positions than positions, each below the number of positions.
pub proof fn positions_bounded(states: Seq<BaseBitLayoutState>, kind: PositionKind)
    requires
        states.len() <= usize::MAX,
    ensures
        positions(states, kind).len() <= states.len(),
        forall|k: int|
            0 <= k < positions(states, kind).len() ==> #[trigger] positions(states, kind)[k]
                < states.len() && belongs(kind, states[positions(states, kind)[k] as int]),
        forall|i: int, j: int|
            0 <= i < j < positions(states, kind).len() ==> #[trigger] positions(states, kind)[i]
                < #[trigger] positions(states, kind)[j],
    decreases states.len(),
{
    if states.len() > 0 {
        positions_bounded(states.drop_last(), kind);
        let before = positions(states.drop_last(), kind);
        assert(forall|k: int| 0 <= k < before.len() ==> states.drop_last()[before[k] as int]
            == states[#[trigger] before[k] as int]);
    }
}

/// The roles of all bit positions of a row.
#[derive(Debug, PartialEq, Eq)]
pub struct BaseLayoutInfo {
    pub bit_states: Vec<BaseBitLayoutState>,
}

impl View for BaseLayoutInfo {
    type V = Seq<BaseBitLayoutState>;

    open spec fn view(&self) -> Seq<BaseBitLayoutState> {
        self.bit_states@
    }
}

impl Clone for BaseLayoutInfo {
    fn clone(&self) -> (copy: BaseLayoutInfo)
        ensures
            copy@ == self@,
    {
        let mut bit_states: Vec<BaseBitLayoutState> = Vec::new();
        let mut i: usize = 0;
        while i < self.bit_states.len()
            invariant
                i <= self@.len(),
                bit_states@ == self@.take(i as int),
            decreases self@.len() - i,
        {
            bit_states.push(self.bit_states[i]);
            assert(self@.take(i as int + 1) =~= self@.take(i as int).push(self@[i as int]));
            i += 1;
        }
        assert(self@.take(i as int) =~= self@);
        BaseLayoutInfo { bit_states }
    }
}

impl BaseLayoutInfo {
    /// A layout from the roles of the bit positions.
    pub fn from_bit_states(bit_states: Vec<BaseBitLayoutState>) -> (layout: BaseLayoutInfo)
        ensures
            layout@ == bit_states@,
    {
        BaseLayoutInfo { bit_states }
    }

    /// The role of one bit position.
    pub fn state_at(&self, position: usize) -> (state: BaseBitLayoutState)
        requires
            position < self@.len(),
        ensures
            state == self@[position as int],
    {
        self.bit_states[position]
    }

    fn positions_of(&self, kind: PositionKind) -> (found: Vec<usize>)
        ensures
            found@ == positions(self@, kind),
    {
        let mut found: Vec<usize> = Vec::new();
        let mut i: usize = 0;
        while i < self.bit_states.len()
            invariant
                i <= self@.len(),
                found@ == positions(self@.take(i as int), kind),
            decreases self@.len() - i,
        {
            let state = self.bit_states[i];
            let chosen: bool = match kind {
                PositionKind::Selected => state != BaseBitLayoutState::Deviation,
                PositionKind::Variable => state == BaseBitLayoutState::Variable,
                PositionKind::ConstantZero => state == BaseBitLayoutState::ConstantZero,
                PositionKind::ConstantOne => state == BaseBitLayoutState::ConstantOne,
            };
            assert(self@.take(i as int + 1).drop_last() =~= self@.take(i as int));
            if chosen {
                found.push(i);
            }
            i += 1;
        }
        assert(self@.take(i as int) =~= self@);
        found
    }

    /// The positions that are not stored per row.
    pub fn selected_base_bit_positions(&self) -> (found: Vec<usize>)
        ensures
            found@ == positions(self@, PositionKind::Selected),
    {
        self.positions_of(PositionKind::Selected)
    }

    /// The positions that are looked up in the base table.
    pub fn variable_base_bit_positions(&self) -> (found: Vec<usize>)
        ensures
            found@ == positions(self@, PositionKind::Variable),
    {
        self.positions_of(PositionKind::Variable)
    }

    /// The positions that are clear in every row.
    pub fn constant_zero_bit_positions(&self) -> (found: Vec<usize>)
        ensures
            found@ == positions(self@, PositionKind::ConstantZero),
    {
        self.positions_of(PositionKind::ConstantZero)
    }

    /// The positions that are set in every row.
    pub fn constant_one_bit_positions(&self) -> (found: Vec<usize>)
        ensures
            found@ == positions(self@, PositionKind::ConstantOne),
    {
        self.positions_of(PositionKind::ConstantOne)
    }
}

/// The bit patterns and counts of a base table.
pub open spec fn table_view(rows: Seq<(BitStream, usize)>) -> Seq<(Seq<bool>, usize)> {
    Seq::new(rows.len(), |i: int| (rows[i].0@, rows[i].1))
}

/// A copy of base table rows.
pub(crate) fn copy_rows(rows: &Vec<(BitStream, usize)>) -> (copy: Vec<(BitStream, usize)>)
    ensures
        table_view(copy@) == table_view(rows@),
{
    let mut copy: Vec<(BitStream, usize)> = Vec::new();
    let mut i: usize = 0;
    while i < rows.len()
        invariant
            i <= rows@.len(),
            table_view(copy@) == table_view(rows@.take(i as int)),
        decreases rows@.len() - i,
    {
        let ghost before = copy@;
        copy.push((rows[i].0.clone(), rows[i].1));
        proof {
            assert(table_view(before).len() == i);
            assert(table_view(copy@) =~= table_view(before).push(
                (rows@[i as int].0@, rows@[i as int].1),
            ));
            assert(table_view(rows@.take(i as int + 1)) =~= table_view(rows@.take(i as int)).push(
                (rows@[i as int].0@, rows@[i as int].1),
            ));
        }
        i += 1;
    }
    assert(rows@.take(i as int) =~= rows@);
    copy
}

/// Everything that the encoders need: the rows, their layout, the base table and the base
/// of each row.
#[derive(Debug)]
pub struct PreEncodeContext {
    pub bit_data: BitDataSet,
    pub layout: BaseLayoutInfo,
    pub variable_base_table: Vec<(BitStream, usize)>,
    pub row_to_base_id: Vec<usize>,
    pub entropy_sorted_column_order: Option<Vec<usize>>,
}

impl PreEncodeContext {
    /// Whether the layout covers a row and every row has a base in the table.
    pub open spec fn valid(self) -> bool {
        &&& self.bit_data.valid()
        &&& self.layout@.len() == self.bit_data.data.chunk_size
        &&& self.row_to_base_id@.len() >= self.bit_data.data.num_rows
        &&& forall|row: int|
            0 <= row < self.bit_data.data.num_rows ==> #[trigger] self.row_to_base_id@[row]
                < self.variable_base_table@.len()
    }
}

} // verus!
