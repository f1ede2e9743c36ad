//! Lists of numbers to try, written out or as a range.
use vstd::prelude::*;

use crate::error::{bad_metadata, EntroGdError};

verus! {

/// The numbers from `start` to `end` in steps, where `limit`, the greatest number of the type, is
/// only reached as the first one.
pub open spec fn range_values(start: int, end: int, step: int, limit: int) -> Seq<int> {
    let last = if end < limit {
        end
    } else {
        limit - 1
    };
    let count = if start > last {
        1
    } else {
        (last - start) / step + 1
    };
    Seq::new(count as nat, |k: int| start + k * step)
}

/// The numbers to try: those that are written out, those of the range, or the default where
/// neither is given; `None` for both, for an empty list and for a range without numbers.
pub open spec fn sweep_values(
    values: Option<Seq<int>>,
    range: Option<(int, int, int)>,
    default_value: int,
    limit: int,
) -> Option<Seq<int>> {
    match (values, range) {
        (Some(values), None) => if values.len() == 0 {
            None
        } else {
            Some(values)
        },
        (None, Some((start, end, step))) => if step <= 0 || end < start {
            None
        } else {
            Some(range_values(start, end, step, limit))
        },
        (Some(values), Some(range)) => None,
        (None, None) => Some(seq![default_value]),
    }
}

/// How many numbers a range has.
proof fn range_count(start: int, last: int, step: int, k: int)
    requires
        start <= last,
        0 < step,
        0 <= k,
    ensures
        start + k * step <= last <==> k < (last - start) / step + 1,
{
    let q = (last - start) / step;
    assert(start + k * step <= last <==> k <= q) by (nonlinear_arith)
        requires
            0 < step,
            q == (last - start) / step,
            0 <= k,
            start <= last,
    ;
}

/// A range has just the numbers from its start to its end that are whole steps away from the start, in
/// ascending order. The greatest number of the type is only there as the start.
pub proof fn range_has_every_step(start: int, end: int, step: int, limit: int, value: int)
    requires
        0 < step,
        start <= end <= limit,
    ensures
        range_values(start, end, step, limit).contains(value) <==> start <= value <= end && (value
            - start) % step == 0 && (value < limit || value == start),
        range_values(start, end, step, limit)[0] == start,
        forall|i: int|
            0 < i < range_values(start, end, step, limit).len() ==> #[trigger] range_values(
                start,
                end,
                step,
                limit,
            )[i] == range_values(start, end, step, limit)[i - 1] + step,
{
    let values = range_values(start, end, step, limit);
    let last = if end < limit {
        end
    } else {
        limit - 1
    };
    range_is_not_empty(start, end, step, limit);
    assert(0 * step == 0);
    assert forall|i: int| 0 < i < values.len() implies #[trigger] values[i] == values[i - 1] + step by {
        assert(i * step == (i - 1) * step + step) by (nonlinear_arith);
    }
    if values.contains(value) {
        let k = choose|k: int| 0 <= k < values.len() && values[k] == value;
        assert(k * step >= 0 && (k * step) % step == 0) by (nonlinear_arith)
            requires
                0 <= k,
                0 < step,
        ;
        if start <= last {
            range_count(start, last, step, k);
        }
    }
    if start <= value <= end && (value - start) % step == 0 && (value < limit || value == start) {
        let k = (value - start) / step;
        assert(value - start == k * step && 0 <= k) by (nonlinear_arith)
            requires
                0 < step,
                k == (value - start) / step,
                (value - start) % step == 0,
                start <= value,
        ;
        if start <= last {
            range_count(start, last, step, k);
            assert(values[k] == value);
        } else {
            assert(values[0] == value);
        }
    }
}

/// A range has at least its first number.
proof fn range_is_not_empty(start: int, end: int, step: int, limit: int)
    ensures
        start <= end && step > 0 ==> range_values(start, end, step, limit).len() > 0,
{
    if start <= end && step > 0 {
        let last = if end < limit {
            end
        } else {
            limit - 1
        };
        if start <= last {
            range_count(start, last, step, 0);
            assert(0 * step == 0);
        }
    }
}

/// A range of numbers.
#[derive(Debug, Clone, Copy, PartialEq, Eq, Structural)]
pub struct IntegerRangeUsize {
    pub start: usize,
    pub end: usize,
    pub step: usize,
}

/// Numbers to try.
#[derive(Debug, PartialEq, Eq)]
pub struct IntegerSweepUsize {
    pub values: Option<Vec<usize>>,
    pub range: Option<IntegerRangeUsize>,
}

/// Numbers of the type as integers.
pub open spec fn usize_numbers(values: Seq<usize>) -> Seq<int> {
    Seq::new(values.len(), |k: int| values[k] as int)
}

impl IntegerSweepUsize {
    /// The numbers to try.
    pub open spec fn expanded(self, default_value: usize) -> Option<Seq<int>> {
        sweep_values(
            match self.values {
                Some(values) => Some(usize_numbers(values@)),
                None => None,
            },
            match self.range {
                Some(range) => Some((range.start as int, range.end as int, range.step as int)),
                None => None,
            },
            default_value as int,
            usize::MAX as int,
        )
    }
}

/// The numbers to try, where a sweep may be left out.
pub open spec fn usize_sweep(sweep: Option<IntegerSweepUsize>, default_value: usize) -> Option<Seq<int>> {
    match sweep {
        Some(sweep) => sweep.expanded(default_value),
        None => Some(seq![default_value as int]),
    }
}

/// The numbers of a range.
pub fn expand_usize_range(range: &IntegerRangeUsize) -> (result: Result<Vec<usize>, EntroGdError>)
    ensures
        result is Ok <==> range.step > 0 && range.start <= range.end,
        result matches Ok(values) ==> usize_numbers(values@) == range_values(
            range.start as int,
            range.end as int,
            range.step as int,
            usize::MAX as int,
        ),
        result matches Err(error) ==> error is InvalidMetadata,
{
    if range.step == 0 {
        return Err(bad_metadata("integer range step must be > 0"));
    }
    if range.end < range.start {
        return Err(bad_metadata("integer range end must be >= start"));
    }
    let ghost start = range.start as int;
    let ghost step = range.step as int;
    let ghost last = if range.end < usize::MAX {
        range.end as int
    } else {
        usize::MAX - 1
    };
    let ghost goal = range_values(start, range.end as int, step, usize::MAX as int);
    let mut values: Vec<usize> = Vec::new();
    values.push(range.start);
    let mut current: usize = range.start;
    let mut done: bool = false;
    proof {
        assert(0 * step == 0);
        if start <= last {
            range_count(start, last, step, 0);
        }
    }
    while !done
        invariant
            values@.len() > 0,
            start == range.start,
            step == range.step,
            step > 0,
            start <= range.end,
            last == (if range.end < usize::MAX {
                range.end as int
            } else {
                usize::MAX - 1
            }),
            goal == range_values(start, range.end as int, step, usize::MAX as int),
            values@.len() <= goal.len(),
            current == start + (values@.len() - 1) * step,
            done ==> values@.len() == goal.len(),
            forall|k: int| 0 <= k < values@.len() ==> #[trigger] values@[k] == start + k * step,
        decreases goal.len() - values@.len() + (if done { 0int } else { 1 }),
    {
        let ghost n = values@.len() as int;
        proof {
            assert((n - 1) * step + step == n * step) by (nonlinear_arith);
            if start <= last {
                range_count(start, last, step, n);
            } else {
                assert(n * step >= 1) by (nonlinear_arith)
                    requires
                        n >= 1,
                        step >= 1,
                ;
            }
        }
        let next: usize = current.saturating_add(range.step);
        if next == usize::MAX || next > range.end {
            done = true;
        } else {
            values.push(next);
            current = next;
        }
    }
    assert(usize_numbers(values@) =~= goal);
    Ok(values)
}

/// A copy of some numbers.
fn copy_usize_values(values: &Vec<usize>) -> (copy: Vec<usize>)
    ensures
        copy@ == values@,
{
    let mut copy: Vec<usize> = Vec::new();
    let mut i: usize = 0;
    while i < values.len()
        invariant
            i <= values@.len(),
            copy@ == values@.take(i as int),
        decreases values@.len() - i,
    {
        copy.push(values[i]);
        assert(values@.take(i as int + 1) =~= values@.take(i as int).push(values@[i as int]));
        i += 1;
    }
    assert(values@.take(i as int) =~= values@);
    copy
}

/// The default as the only number to try.
fn only_usize(default_value: usize) -> (values: Vec<usize>)
    ensures
        usize_numbers(values@) == seq![default_value as int],
        values@.len() == 1,
{
    let mut values: Vec<usize> = Vec::new();
    values.push(default_value);
    assert(usize_numbers(values@) =~= seq![default_value as int]);
    values
}

/// The numbers to try.
pub fn expand_usize_sweep(sweep: &Option<IntegerSweepUsize>, default_value: usize) -> (result: Result<
    Vec<usize>,
    EntroGdError,
>)
    ensures
        match usize_sweep(*sweep, default_value) {
            Some(numbers) => result matches Ok(values) && usize_numbers(values@) == numbers
                && values@.len() > 0,
            None => result matches Err(error) && error is InvalidMetadata,
        },
{
    match sweep {
        None => Ok(only_usize(default_value)),
        Some(sweep) => match (&sweep.values, &sweep.range) {
            (Some(values), None) => {
                if values.len() == 0 {
                    Err(bad_metadata("empty integer values list is not allowed"))
                } else {
                    Ok(copy_usize_values(values))
                }
            },
            (None, Some(range)) => {
                let result = expand_usize_range(range);
                proof {
                    range_is_not_empty(
                        range.start as int,
                        range.end as int,
                        range.step as int,
                        usize::MAX as int,
                    );
                }
                result
            },
            (Some(_), Some(_)) => Err(
                bad_metadata("integer sweep cannot contain both 'values' and 'range'"),
            ),
            (None, None) => Ok(only_usize(default_value)),
        },
    }
}

/// A range of numbers.
#[derive(Debug, Clone, Copy, PartialEq, Eq, Structural)]
pub struct IntegerRangeU32 {
    pub start: u32,
    pub end: u32,
    pub step: u32,
}

/// Numbers to try.
#[derive(Debug, PartialEq, Eq)]
pub struct IntegerSweepU32 {
    pub values: Option<Vec<u32>>,
    pub range: Option<IntegerRangeU32>,
}

/// Numbers of the type as integers.
pub open spec fn u32_numbers(values: Seq<u32>) -> Seq<int> {
    Seq::new(values.len(), |k: int| values[k] as int)
}

impl IntegerSweepU32 {
    /// The numbers to try.
    pub open spec fn expanded(self, default_value: u32) -> Option<Seq<int>> {
        sweep_values(
            match self.values {
                Some(values) => Some(u32_numbers(values@)),
                None => None,
            },
            match self.range {
                Some(range) => Some((range.start as int, range.end as int, range.step as int)),
                None => None,
            },
            default_value as int,
            u32::MAX as int,
        )
    }
}

/// The numbers to try, where a sweep may be left out.
pub open spec fn u32_sweep(sweep: Option<IntegerSweepU32>, default_value: u32) -> Option<Seq<int>> {
    match sweep {
        Some(sweep) => sweep.expanded(default_value),
        None => Some(seq![default_value as int]),
    }
}

/// The numbers of a range.
pub fn expand_u32_range(range: &IntegerRangeU32) -> (result: Result<Vec<u32>, EntroGdError>)
    ensures
        result is Ok <==> range.step > 0 && range.start <= range.end,
        result matches Ok(values) ==> u32_numbers(values@) == range_values(
            range.start as int,
            range.end as int,
            range.step as int,
            u32::MAX as int,
        ),
        result matches Err(error) ==> error is InvalidMetadata,
{
    if range.step == 0 {
        return Err(bad_metadata("integer range step must be > 0"));
    }
    if range.end < range.start {
        return Err(bad_metadata("integer range end must be >= start"));
    }
    let ghost start = range.start as int;
    let ghost step = range.step as int;
    let ghost last = if range.end < u32::MAX {
        range.end as int
    } else {
        u32::MAX - 1
    };
    let ghost goal = range_values(start, range.end as int, step, u32::MAX as int);
    let mut values: Vec<u32> = Vec::new();
    values.push(range.start);
    let mut current: u32 = range.start;
    let mut done: bool = false;
    proof {
        assert(0 * step == 0);
        if start <= last {
            range_count(start, last, step, 0);
        }
    }
    while !done
        invariant
            values@.len() > 0,
            start == range.start,
            step == range.step,
            step > 0,
            start <= range.end,
            last == (if range.end < u32::MAX {
                range.end as int
            } else {
                u32::MAX - 1
            }),
            goal == range_values(start, range.end as int, step, u32::MAX as int),
            values@.len() <= goal.len(),
            current == start + (values@.len() - 1) * step,
            done ==> values@.len() == goal.len(),
            forall|k: int| 0 <= k < values@.len() ==> #[trigger] values@[k] == start + k * step,
        decreases goal.len() - values@.len() + (if done { 0int } else { 1 }),
    {
        let ghost n = values@.len() as int;
        proof {
            assert((n - 1) * step + step == n * step) by (nonlinear_arith);
            if start <= last {
                range_count(start, last, step, n);
            } else {
                assert(n * step >= 1) by (nonlinear_arith)
                    requires
                        n >= 1,
                        step >= 1,
                ;
            }
        }
        let next: u32 = current.saturating_add(range.step);
        if next == u32::MAX || next > range.end {
            done = true;
        } else {
            values.push(next);
            current = next;
        }
    }
    assert(u32_numbers(values@) =~= goal);
    Ok(values)
}

/// A copy of some numbers.
fn copy_u32_values(values: &Vec<u32>) -> (copy: Vec<u32>)
    ensures
        copy@ == values@,
{
    let mut copy: Vec<u32> = Vec::new();
    let mut i: usize = 0;
    while i < values.len()
        invariant
            i <= values@.len(),
            copy@ == values@.take(i as int),
        decreases values@.len() - i,
    {
        copy.push(values[i]);
        assert(values@.take(i as int + 1) =~= values@.take(i as int).push(values@[i as int]));
        i += 1;
    }
    assert(values@.take(i as int) =~= values@);
    copy
}

/// The default as the only number to try.
fn only_u32(default_value: u32) -> (values: Vec<u32>)
    ensures
        u32_numbers(values@) == seq![default_value as int],
        values@.len() == 1,
{
    let mut values: Vec<u32> = Vec::new();
    values.push(default_value);
    assert(u32_numbers(values@) =~= seq![default_value as int]);
    values
}

/// The numbers to try.
pub fn expand_u32_sweep(sweep: &Option<IntegerSweepU32>, default_value: u32) -> (result: Result<
    Vec<u32>,
    EntroGdError,
>)
    ensures
        match u32_sweep(*sweep, default_value) {
            Some(numbers) => result matches Ok(values) && u32_numbers(values@) == numbers
                && values@.len() > 0,
            None => result matches Err(error) && error is InvalidMetadata,
        },
{
    match sweep {
        None => Ok(only_u32(default_value)),
        Some(sweep) => match (&sweep.values, &sweep.range) {
            (Some(values), None) => {
                if values.len() == 0 {
                    Err(bad_metadata("empty integer values list is not allowed"))
                } else {
                    Ok(copy_u32_values(values))
                }
            },
            (None, Some(range)) => {
                let result = expand_u32_range(range);
                proof {
                    range_is_not_empty(
                        range.start as int,
                        range.end as int,
                        range.step as int,
                        u32::MAX as int,
                    );
                }
                result
            },
            (Some(_), Some(_)) => Err(
                bad_metadata("integer sweep cannot contain both 'values' and 'range'"),
            ),
            (None, None) => Ok(only_u32(default_value)),
        },
    }
}

/// A range of numbers.
#[derive(Debug, Clone, Copy, PartialEq, Eq, Structural)]
pub struct IntegerRangeU8 {
    pub start: u8,
    pub end: u8,
    pub step: u8,
}

/// Numbers to try.
#[derive(Debug, PartialEq, Eq)]
pub struct IntegerSweepU8 {
    pub values: Option<Vec<u8>>,
    pub range: Option<IntegerRangeU8>,
}

/// Numbers of the type as integers.
pub open spec fn u8_numbers(values: Seq<u8>) -> Seq<int> {
    Seq::new(values.len(), |k: int| values[k] as int)
}

impl IntegerSweepU8 {
    /// The numbers to try.
    pub open spec fn expanded(self, default_value: u8) -> Option<Seq<int>> {
        sweep_values(
            match self.values {
                Some(values) => Some(u8_numbers(values@)),
                None => None,
            },
            match self.range {
                Some(range) => Some((range.start as int, range.end as int, range.step as int)),
                None => None,
            },
            default_value as int,
            u8::MAX as int,
        )
    }
}

/// The numbers to try, where a sweep may be left out.
pub open spec fn u8_sweep(sweep: Option<IntegerSweepU8>, default_value: u8) -> Option<Seq<int>> {
    match sweep {
        Some(sweep) => sweep.expanded(default_value),
        None => Some(seq![default_value as int]),
    }
}

/// The numbers of a range.
pub fn expand_u8_range(range: &IntegerRangeU8) -> (result: Result<Vec<u8>, EntroGdError>)
    ensures
        result is Ok <==> range.step > 0 && range.start <= range.end,
        result matches Ok(values) ==> u8_numbers(values@) == range_values(
            range.start as int,
            range.end as int,
            range.step as int,
            u8::MAX as int,
        ),
        result matches Err(error) ==> error is InvalidMetadata,
{
    if range.step == 0 {
        return Err(bad_metadata("integer range step must be > 0"));
    }
    if range.end < range.start {
        return Err(bad_metadata("integer range end must be >= start"));
    }
    let ghost start = range.start as int;
    let ghost step = range.step as int;
    let ghost last = if range.end < u8::MAX {
        range.end as int
    } else {
        u8::MAX - 1
    };
    let ghost goal = range_values(start, range.end as int, step, u8::MAX as int);
    let mut values: Vec<u8> = Vec::new();
    values.push(range.start);
    let mut current: u8 = range.start;
    let mut done: bool = false;
    proof {
        assert(0 * step == 0);
        if start <= last {
            range_count(start, last, step, 0);
        }
    }
    while !done
        invariant
            values@.len() > 0,
            start == range.start,
            step == range.step,
            step > 0,
            start <= range.end,
            last == (if range.end < u8::MAX {
                range.end as int
            } else {
                u8::MAX - 1
            }),
            goal == range_values(start, range.end as int, step, u8::MAX as int),
            values@.len() <= goal.len(),
            current == start + (values@.len() - 1) * step,
            done ==> values@.len() == goal.len(),
            forall|k: int| 0 <= k < values@.len() ==> #[trigger] values@[k] == start + k * step,
        decreases goal.len() - values@.len() + (if done { 0int } else { 1 }),
    {
        let ghost n = values@.len() as int;
        proof {
            assert((n - 1) * step + step == n * step) by (nonlinear_arith);
            if start <= last {
                range_count(start, last, step, n);
            } else {
                assert(n * step >= 1) by (nonlinear_arith)
                    requires
                        n >= 1,
                        step >= 1,
                ;
            }
        }
        let next: u8 = current.saturating_add(range.step);
        if next == u8::MAX || next > range.end {
            done = true;
        } else {
            values.push(next);
            current = next;
        }
    }
    assert(u8_numbers(values@) =~= goal);
    Ok(values)
}

/// A copy of some numbers.
fn copy_u8_values(values: &Vec<u8>) -> (copy: Vec<u8>)
    ensures
        copy@ == values@,
{
    let mut copy: Vec<u8> = Vec::new();
    let mut i: usize = 0;
    while i < values.len()
        invariant
            i <= values@.len(),
            copy@ == values@.take(i as int),
        decreases values@.len() - i,
    {
        copy.push(values[i]);
        assert(values@.take(i as int + 1) =~= values@.take(i as int).push(values@[i as int]));
        i += 1;
    }
    assert(values@.take(i as int) =~= values@);
    copy
}

/// The default as the only number to try.
fn only_u8(default_value: u8) -> (values: Vec<u8>)
    ensures
        u8_numbers(values@) == seq![default_value as int],
        values@.len() == 1,
{
    let mut values: Vec<u8> = Vec::new();
    values.push(default_value);
    assert(u8_numbers(values@) =~= seq![default_value as int]);
    values
}

/// The numbers to try.
pub fn expand_u8_sweep(sweep: &Option<IntegerSweepU8>, default_value: u8) -> (result: Result<
    Vec<u8>,
    EntroGdError,
>)
    ensures
        match u8_sweep(*sweep, default_value) {
            Some(numbers) => result matches Ok(values) && u8_numbers(values@) == numbers
                && values@.len() > 0,
            None => result matches Err(error) && error is InvalidMetadata,
        },
{
    match sweep {
        None => Ok(only_u8(default_value)),
        Some(sweep) => match (&sweep.values, &sweep.range) {
            (Some(values), None) => {
                if values.len() == 0 {
                    Err(bad_metadata("empty integer values list is not allowed"))
                } else {
                    Ok(copy_u8_values(values))
                }
            },
            (None, Some(range)) => {
                let result = expand_u8_range(range);
                proof {
                    range_is_not_empty(
                        range.start as int,
                        range.end as int,
                        range.step as int,
                        u8::MAX as int,
                    );
                }
                result
            },
            (Some(_), Some(_)) => Err(
                bad_metadata("integer sweep cannot contain both 'values' and 'range'"),
            ),
            (None, None) => Ok(only_u8(default_value)),
        },
    }
}

} // verus!
