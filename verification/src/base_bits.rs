//! Rows in groups by the values of their base bits.
use vstd::prelude::*;

use crate::data::copy_sizes;
use crate::dataset::{BitData, BitDataSet};

verus! {

/// The values of a row at some bits.
pub open spec fn pattern(row: Seq<bool>, bits: Seq<usize>) -> Seq<bool> {
    Seq::new(bits.len(), |k: int| row[bits[k] as int])
}

/// The values of all rows at some bits.
pub open spec fn patterns(data: BitData, bits: Seq<usize>) -> Seq<Seq<bool>> {
    Seq::new(data.num_rows as nat, |row: int| pattern(data.row(row), bits))
}

/// The different entries of a list, in the order in which they appear first.
pub open spec fn distinct(list: Seq<Seq<bool>>) -> Seq<Seq<bool>>
    decreases list.len(),
{
    if list.len() == 0 {
        Seq::empty()
    } else {
        let before = distinct(list.drop_last());
        if before.contains(list.last()) {
            before
        } else {
            before.push(list.last())
        }
    }
}

/// The different entries of a list are all of its entries, and no two of them are the same.
pub proof fn distinct_are_entries(list: Seq<Seq<bool>>)
    ensures
        distinct(list).len() <= list.len(),
        list.len() > 0 ==> distinct(list).len() > 0,
        forall|i: int| 0 <= i < list.len() ==> distinct(list).contains(#[trigger] list[i]),
        forall|k: int| 0 <= k < distinct(list).len() ==> list.contains(#[trigger] distinct(list)[k]),
        forall|j: int, k: int|
            0 <= j < k < distinct(list).len() ==> #[trigger] distinct(list)[j]
                != #[trigger] distinct(list)[k],
    decreases list.len(),
{
    if list.len() > 0 {
        let shorter = list.drop_last();
        let before = distinct(shorter);
        let all = distinct(list);
        distinct_are_entries(shorter);
        assert forall|i: int| 0 <= i < list.len() implies all.contains(#[trigger] list[i]) by {
            if i < shorter.len() {
                assert(shorter[i] == list[i]);
                let k = choose|k: int| 0 <= k < before.len() && before[k] == list[i];
                assert(all[k] == list[i]);
            } else if !before.contains(list.last()) {
                assert(all[before.len() as int] == list[i]);
            }
        }
        assert forall|k: int| 0 <= k < all.len() implies list.contains(#[trigger] all[k]) by {
            if k < before.len() {
                assert(shorter.contains(before[k]));
                let i = choose|i: int| 0 <= i < shorter.len() && shorter[i] == before[k];
                assert(list[i] == all[k]);
            } else {
                assert(list[list.len() - 1] == all[k]);
            }
        }
        assert forall|j: int, k: int| 0 <= j < k < all.len() implies #[trigger] all[j]
            != #[trigger] all[k] by {
            if k == before.len() {
                assert(before[j] == all[j]);
            }
        }
    }
}

/// Rows in groups: two rows are in the same group just where they agree at all variable bits.
#[derive(Debug, PartialEq, Eq)]
pub struct BaseBitGroups {
    /// The bits that tell the groups apart, in the order in which they were added.
    pub variable_bits: Vec<usize>,
    /// The base bits that are the same in all rows.
    pub constant_bits: Vec<usize>,
    /// The number of the group of each row; groups are numbered as they appear.
    pub row_to_id: Vec<usize>,
    pub num_bases: usize,
}

impl Clone for BaseBitGroups {
    fn clone(&self) -> (copy: BaseBitGroups)
        ensures
            copy.variable_bits@ == self.variable_bits@,
            copy.constant_bits@ == self.constant_bits@,
            copy.row_to_id@ == self.row_to_id@,
            copy.num_bases == self.num_bases,
    {
        BaseBitGroups {
            variable_bits: copy_sizes(&self.variable_bits),
            constant_bits: copy_sizes(&self.constant_bits),
            row_to_id: copy_sizes(&self.row_to_id),
            num_bases: self.num_bases,
        }
    }
}

impl BaseBitGroups {
    /// Whether the groups are those of some rows.
    pub open spec fn groups(self, data: BitData) -> bool {
        let all = patterns(data, self.variable_bits@);
        &&& self.num_bases == distinct(all).len()
        &&& self.row_to_id@.len() == data.num_rows
        &&& forall|row: int|
            0 <= row < data.num_rows ==> (#[trigger] self.row_to_id@[row]) < self.num_bases
                && distinct(all)[self.row_to_id@[row] as int] == all[row]
        &&& forall|k: int|
            0 <= k < self.variable_bits@.len() ==> #[trigger] self.variable_bits@[k] < data.chunk_size
        &&& forall|k: int|
            0 <= k < self.constant_bits@.len() ==> #[trigger] self.constant_bits@[k] < data.chunk_size
    }

    /// All rows in one group.
    pub fn new(bit_data: &BitDataSet) -> (groups: BaseBitGroups)
        ensures
            groups.groups(bit_data.data),
            groups.variable_bits@ == Seq::<usize>::empty(),
            groups.constant_bits@ == Seq::<usize>::empty(),
    {
        let num_rows: usize = bit_data.num_rows();
        let ghost all = patterns(bit_data.data, Seq::empty());
        let mut row_to_id: Vec<usize> = Vec::new();
        let mut row: usize = 0;
        while row < num_rows
            invariant
                row <= num_rows == bit_data.data.num_rows,
                all == patterns(bit_data.data, Seq::empty()),
                row_to_id@.len() == row,
                forall|k: int| 0 <= k < row ==> #[trigger] row_to_id@[k] == 0,
                distinct(all.take(row as int)) == (if row == 0 {
                    Seq::<Seq<bool>>::empty()
                } else {
                    seq![Seq::<bool>::empty()]
                }),
            decreases num_rows - row,
        {
            row_to_id.push(0);
            proof {
                let longer = all.take(row as int + 1);
                assert(longer.drop_last() =~= all.take(row as int));
                assert(longer.last() =~= Seq::<bool>::empty());
                if row > 0 {
                    assert(seq![Seq::<bool>::empty()][0] == Seq::<bool>::empty());
                    assert(distinct(longer.drop_last()).contains(longer.last()));
                } else {
                    assert(distinct(longer) =~= seq![Seq::<bool>::empty()]);
                }
            }
            row += 1;
        }
        proof {
            assert(all.take(num_rows as int) =~= all);
            assert forall|r: int| 0 <= r < num_rows implies all[r] == Seq::<bool>::empty() by {
                assert(all[r] =~= Seq::<bool>::empty());
            }
        }
        BaseBitGroups {
            variable_bits: Vec::new(),
            constant_bits: Vec::new(),
            row_to_id,
            num_bases: if num_rows == 0 {
                0
            } else {
                1
            },
        }
    }

    /// Adds a base bit that is the same in all rows.
    pub fn add_constant_bit_position(&mut self, bit_data: &BitDataSet, bit: usize)
        requires
            old(self).groups(bit_data.data),
            bit < bit_data.data.chunk_size,
        ensures
            final(self).groups(bit_data.data),
            final(self).variable_bits@ == old(self).variable_bits@,
            final(self).constant_bits@ == old(self).constant_bits@.push(bit),
    {
        self.constant_bits.push(bit);
    }

    /// Adds a base bit and splits the groups in which rows differ at it.
    pub fn add_bit_position(&mut self, bit_data: &BitDataSet, bit: usize)
        requires
            old(self).groups(bit_data.data),
            bit_data.data.valid(),
            bit < bit_data.data.chunk_size,
            2 * bit_data.data.num_rows <= usize::MAX,
        ensures
            final(self).groups(bit_data.data),
            final(self).variable_bits@ == old(self).variable_bits@.push(bit),
            final(self).constant_bits@ == old(self).constant_bits@,
    {
        let num_rows: usize = bit_data.num_rows();
        let ghost data = bit_data.data;
        let ghost old_bits = self.variable_bits@;
        let ghost new_bits = old_bits.push(bit);
        let ghost before = patterns(data, old_bits);
        let ghost after = patterns(data, new_bits);
        let ghost groups = distinct(before);
        proof {
            distinct_are_entries(before);
            assert forall|row: int| 0 <= row < num_rows implies #[trigger] after[row]
                == before[row].push(data.row(row)[bit as int]) by {
                assert(after[row] =~= before[row].push(data.row(row)[bit as int]));
            }
        }
        let old_count: usize = self.num_bases;
        let slots: usize = 2 * old_count;
        let mut ids: Vec<Option<usize>> = Vec::new();
        let mut slot: usize = 0;
        while slot < slots
            invariant
                slot <= slots,
                ids@.len() == slot,
                forall|k: int| 0 <= k < slot ==> #[trigger] ids@[k] is None,
            decreases slots - slot,
        {
            ids.push(None);
            slot += 1;
        }
        let mut row_to_id: Vec<usize> = Vec::new();
        let mut count: usize = 0;
        let mut row: usize = 0;
        assert(after.take(0) =~= Seq::empty());
        while row < num_rows
            invariant
                row <= num_rows == data.num_rows,
                data == bit_data.data,
                data.valid(),
                bit < data.chunk_size,
                self.groups(data),
                self.variable_bits@ == old_bits,
                before == patterns(data, old_bits),
                after == patterns(data, new_bits),
                groups == distinct(before),
                old_count == groups.len() == self.num_bases,
                2 * old_count == slots == ids@.len(),
                forall|r: int|
                    0 <= r < num_rows ==> #[trigger] after[r] == before[r].push(
                        data.row(r)[bit as int],
                    ),
                forall|j: int, k: int|
                    0 <= j < k < groups.len() ==> #[trigger] groups[j] != #[trigger] groups[k],
                count == distinct(after.take(row as int)).len(),
                count <= row,
                row_to_id@.len() == row,
                forall|r: int|
                    0 <= r < row ==> (#[trigger] row_to_id@[r]) < count && distinct(
                        after.take(row as int),
                    )[row_to_id@[r] as int] == after[r],
                forall|g: int, one: bool|
                    0 <= g < old_count ==> slot_holds(
                        ids@,
                        distinct(after.take(row as int)),
                        #[trigger] groups[g].push(one),
                        g,
                        one,
                    ),
            decreases num_rows - row,
        {
            let one: bool = bit_data.data.get_bit(row, bit);
            let group: usize = self.row_to_id[row];
            let slot: usize = 2 * group + (if one {
                1
            } else {
                0
            });
            let ghost so_far = distinct(after.take(row as int));
            let ghost longer = after.take(row as int + 1);
            let ghost entry = groups[group as int].push(one);
            let ghost old_ids = ids@;
            proof {
                assert(longer.drop_last() =~= after.take(row as int));
                assert(longer.last() == after[row as int]);
                assert(after[row as int] == entry);
                assert(slot_holds(old_ids, so_far, entry, group as int, one));
            }
            let id: usize = match ids[slot] {
                Some(id) => id,
                None => {
                    ids.set(slot, Some(count));
                    count += 1;
                    count - 1
                },
            };
            row_to_id.push(id);
            proof {
                let now = distinct(longer);
                assert forall|k: int| 0 <= k < so_far.len() implies now[k] == so_far[k] by {}
                assert(now[id as int] == entry) by {
                    if so_far.contains(entry) {
                        assert(old_ids[slot as int] is Some);
                    }
                }
                assert forall|g: int, other: bool| 0 <= g < old_count implies slot_holds(
                    ids@,
                    now,
                    #[trigger] groups[g].push(other),
                    g,
                    other,
                ) by {
                    let thing = groups[g].push(other);
                    assert(slot_holds(old_ids, so_far, thing, g, other));
                    if g == group && other == one {
                        assert(now.contains(thing));
                    } else {
                        if thing == entry {
                            assert(thing.drop_last() =~= groups[g]);
                            assert(entry.drop_last() =~= groups[group as int]);
                            assert(thing.last() == entry.last());
                            assert(groups[g] == groups[group as int]);
                        }
                        assert(slot_of(g, other) != slot);
                        if now.contains(thing) {
                            let k = choose|k: int| 0 <= k < now.len() && now[k] == thing;
                            if k < so_far.len() {
                                assert(so_far[k] == thing);
                            }
                        }
                        if so_far.contains(thing) {
                            let k = choose|k: int| 0 <= k < so_far.len() && so_far[k] == thing;
                            assert(now[k] == thing);
                        }
                    }
                }
            }
            row += 1;
        }
        assert(after.take(num_rows as int) =~= after);
        self.variable_bits.push(bit);
        self.row_to_id = row_to_id;
        self.num_bases = count;
    }

    /// The number of groups.
    pub fn get_num_bases(&self) -> (count: usize)
        ensures
            count == self.num_bases,
    {
        self.num_bases
    }

    /// The number of base bits.
    pub fn get_num_bits_per_base(&self) -> (count: usize)
        requires
            self.variable_bits@.len() + self.constant_bits@.len() <= usize::MAX,
        ensures
            count == self.variable_bits@.len() + self.constant_bits@.len(),
    {
        self.variable_bits.len() + self.constant_bits.len()
    }
}

/// The slot of a group that is split by a bit.
spec fn slot_of(group: int, one: bool) -> int {
    2 * group + if one {
        1int
    } else {
        0
    }
}

/// Whether a slot has the place of an entry, just where the entry has one.
spec fn slot_holds(
    ids: Seq<Option<usize>>,
    list: Seq<Seq<bool>>,
    entry: Seq<bool>,
    group: int,
    one: bool,
) -> bool {
    match ids[slot_of(group, one)] {
        Some(id) => id < list.len() && list[id as int] == entry,
        None => !list.contains(entry),
    }
}

} // verus!
