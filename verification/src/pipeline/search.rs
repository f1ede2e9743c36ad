//! The search for the bits that go into the base table.
use vstd::prelude::*;

use crate::entropy::EntropyBitScore;
use crate::pipeline::ordering::{ascending, by_score, by_score_orders, leading_up_to};
use crate::utils::{bits_needed, min_position_bits};

verus! {

/// The size of rows with a base table: the bases, and for each row its own bits and the number of
/// its base. One base needs no number.
pub open spec fn size_with_bases(bases: nat, base_bits: nat, rows: nat, row_bits: nat) -> nat {
    let table_bits = if base_bits <= row_bits {
        base_bits
    } else {
        row_bits
    };
    let id_bits = if bases <= 1 {
        0
    } else {
        bits_needed(bases)
    };
    bases * table_bits + rows * ((row_bits - table_bits) as nat + id_bits)
}

/// The size of `num_rows` rows of `chunk_size` bits with a base table of `num_bases` bases of
/// `num_bits_per_base` bits.
pub fn calculate_compressed_size(
    num_bases: usize,
    num_bits_per_base: usize,
    num_rows: usize,
    chunk_size: usize,
) -> (bits: usize)
    requires
        size_with_bases(
            num_bases as nat,
            num_bits_per_base as nat,
            num_rows as nat,
            chunk_size as nat,
        ) <= usize::MAX,
        chunk_size + 64 <= usize::MAX,
    ensures
        bits == size_with_bases(
            num_bases as nat,
            num_bits_per_base as nat,
            num_rows as nat,
            chunk_size as nat,
        ),
{
    let table_bits: usize = if num_bits_per_base <= chunk_size {
        num_bits_per_base
    } else {
        chunk_size
    };
    let deviation_bits: usize = chunk_size - table_bits;
    let id_bits: usize = min_position_bits(num_bases);
    proof {
        let n = num_bases as int;
        let t = table_bits as int;
        let r = num_rows as int;
        let w = (deviation_bits + id_bits) as int;
        assert(0 <= n * t) by (nonlinear_arith)
            requires
                0 <= n,
                0 <= t,
        ;
        assert(0 <= r * w) by (nonlinear_arith)
            requires
                0 <= r,
                0 <= w,
        ;
    }
    num_bases * table_bits + num_rows * (deviation_bits + id_bits)
}

/// Where the least number of a list stands first.
pub open spec fn first_least(sizes: Seq<usize>) -> int
    decreases sizes.len(),
{
    if sizes.len() <= 1 {
        0
    } else {
        let before = first_least(sizes.drop_last());
        if sizes.last() < sizes[before] {
            sizes.len() - 1
        } else {
            before
        }
    }
}

/// The first least number of a list is none greater than any of them, and smaller than those
/// before it.
pub proof fn first_least_is_least(sizes: Seq<usize>)
    requires
        sizes.len() > 0,
    ensures
        0 <= first_least(sizes) < sizes.len(),
        forall|i: int| 0 <= i < sizes.len() ==> sizes[first_least(sizes)] <= #[trigger] sizes[i],
        forall|i: int| 0 <= i < first_least(sizes) ==> sizes[first_least(sizes)] < #[trigger] sizes[i],
    decreases sizes.len(),
{
    if sizes.len() > 1 {
        let shorter = sizes.drop_last();
        first_least_is_least(shorter);
        assert forall|i: int| 0 <= i < shorter.len() implies shorter[i] == #[trigger] sizes[i] by {
        }
    }
}

/// Whether a search ends once it has seen the given sizes: the last `tau` of them brought nothing.
/// At least one bit is tried.
pub open spec fn gives_up(sizes: Seq<usize>, tau: nat) -> bool {
    sizes.len() > 1 && sizes.len() - 1 - first_least(sizes) >= tau
}

/// How many of the given sizes a search sees, the first one being that before any bit is tried.
pub open spec fn seen(sizes: Seq<usize>, tau: nat, n: int) -> int
    decreases sizes.len() - n,
{
    if n >= sizes.len() || gives_up(sizes.take(n), tau) {
        n
    } else {
        seen(sizes, tau, n + 1)
    }
}

/// How many bits a search takes, where the given sizes are those with no bit, one bit, and so on.
pub open spec fn bits_taken(sizes: Seq<usize>, tau: nat) -> int {
    first_least(sizes.take(seen(sizes, tau, 1)))
}

/// A search for the number of bits with the least size.
#[derive(Debug, Clone, Copy, PartialEq, Eq, Structural)]
pub struct BaseSearch {
    /// How many bits in a row may bring nothing.
    pub tau: usize,
    /// How many bits have been tried.
    pub tried: usize,
    /// The number of bits with the least size.
    pub best: usize,
    pub best_size: usize,
}

impl BaseSearch {
    /// Whether a search has seen the given sizes.
    pub open spec fn has_seen(self, sizes: Seq<usize>) -> bool {
        &&& sizes.len() > 0
        &&& self.tried == sizes.len() - 1
        &&& self.best == first_least(sizes)
        &&& self.best_size == sizes[first_least(sizes)]
    }

    /// A search that knows the size before any bit is tried.
    pub fn new(tau: usize, first_size: usize) -> (search: BaseSearch)
        ensures
            search.tau == tau,
            search.has_seen(seq![first_size]),
    {
        BaseSearch { tau, tried: 0, best: 0, best_size: first_size }
    }

    /// Tells the search the size with one more bit. The result says whether to go on.
    pub fn try_size(&mut self, size: usize) -> (go_on: bool)
        requires
            old(self).best <= old(self).tried < usize::MAX,
        ensures
            final(self).tau == old(self).tau,
            forall|sizes: Seq<usize>| #[trigger]
                old(self).has_seen(sizes) ==> final(self).has_seen(sizes.push(size)) && go_on
                    == !gives_up(sizes.push(size), old(self).tau as nat),
            final(self).tried == old(self).tried + 1,
            final(self).best <= final(self).tried,
    {
        self.tried = self.tried + 1;
        if size < self.best_size {
            self.best_size = size;
            self.best = self.tried;
        }
        proof {
            assert forall|sizes: Seq<usize>| #[trigger] old(self).has_seen(sizes) implies self.has_seen(
                sizes.push(size),
            ) && (self.tried - self.best < self.tau) == !gives_up(
                sizes.push(size),
                old(self).tau as nat,
            ) by {
                first_least_is_least(sizes);
                assert(sizes.push(size).drop_last() =~= sizes);
            }
        }
        self.tried - self.best < self.tau
    }
}

/// Entries by their entropy, the lowest first; equal ones keep their order.
pub fn sort_by_score(entries: &Vec<EntropyBitScore>) -> (sorted: Vec<EntropyBitScore>)
    ensures
        sorted@ == by_score(entries@),
        ascending(sorted@),
{
    let mut sorted: Vec<EntropyBitScore> = Vec::new();
    let mut i: usize = 0;
    while i < entries.len()
        invariant
            i <= entries@.len(),
            sorted@ == by_score(entries@.take(i as int)),
        decreases entries@.len() - i,
    {
        assert(entries@.take(i as int + 1).drop_last() =~= entries@.take(i as int));
        crate::pipeline::ordering::insert_by_score(&mut sorted, entries[i]);
        i += 1;
    }
    assert(entries@.take(i as int) =~= entries@);
    proof {
        by_score_orders(entries@);
    }
    sorted
}

/// How many of the leading entries have no entropy.
pub fn count_flat(sorted: &Vec<EntropyBitScore>) -> (count: usize)
    requires
        ascending(sorted@),
    ensures
        count == leading_up_to(sorted@, 0),
{
    let mut at: usize = sorted.len();
    assert(sorted@.take(at as int) =~= sorted@);
    while at > 0 && sorted[at - 1].1 > 0
        invariant
            at <= sorted@.len(),
            leading_up_to(sorted@.take(at as int), 0) == leading_up_to(sorted@, 0),
        decreases at,
    {
        assert(sorted@.take(at as int).drop_last() =~= sorted@.take(at - 1));
        at -= 1;
    }
    assert(leading_up_to(sorted@.take(at as int), 0) == at);
    at
}

/// A search does not give up on what it has seen before the end.
proof fn goes_on(sizes: Seq<usize>, tau: nat, n: int, m: int)
    requires
        1 <= n <= m < seen(sizes, tau, n),
        n <= sizes.len(),
    ensures
        m < sizes.len(),
        !gives_up(sizes.take(m), tau),
    decreases m - n,
{
    if n < m {
        goes_on(sizes, tau, n + 1, m);
    }
}

/// A search ends within the sizes, and not before it has reason to.
proof fn ends(sizes: Seq<usize>, tau: nat, n: int)
    requires
        1 <= n <= sizes.len(),
    ensures
        n <= seen(sizes, tau, n) <= sizes.len(),
        seen(sizes, tau, n) == sizes.len() || gives_up(sizes.take(seen(sizes, tau, n)), tau),
    decreases sizes.len() - n,
{
    if n < sizes.len() && !gives_up(sizes.take(n), tau) {
        ends(sizes, tau, n + 1);
    }
}

/// A search takes so many bits that no choice it could see has a smaller size: no smaller number of
/// bits has as small a size, and none of the next `tau` numbers has a smaller one. A search goes on
/// to where it ends up: from every number of bits before, one of the next `tau`, or the next one, has
/// a smaller size than all up to there.
pub proof fn taken_bits_are_best(sizes: Seq<usize>, tau: nat, k: int)
    requires
        sizes.len() > 0,
        0 <= k < sizes.len(),
    ensures
        0 <= bits_taken(sizes, tau) < sizes.len(),
        k < bits_taken(sizes, tau) ==> sizes[bits_taken(sizes, tau)] < sizes[k],
        k <= 1 || k <= bits_taken(sizes, tau) + tau ==> sizes[bits_taken(sizes, tau)] <= sizes[k],
        k < bits_taken(sizes, tau) ==> exists|next: int|
            k < next < sizes.len() && (next <= k + tau || next == k + 1) && (forall|before: int|
                0 <= before <= k ==> #[trigger] sizes[next] < #[trigger] sizes[before]),
{
    let n = seen(sizes, tau, 1);
    let t = bits_taken(sizes, tau);
    let all = sizes.take(n);
    ends(sizes, tau, 1);
    first_least_is_least(all);
    assert(all[t] == sizes[t]);
    if sizes.len() > 1 {
        assert(n > 1);
    }
    if k < n {
        assert(all[k] == sizes[k]);
    }
    if k < t {
        let reach = if tau == 0 {
            1
        } else {
            tau as int
        };
        if t <= k + reach {
            assert forall|before: int| 0 <= before <= k implies #[trigger] sizes[t]
                < #[trigger] sizes[before] by {
                assert(all[before] == sizes[before]);
            }
        } else {
            let m = k + reach + 1;
            let part = sizes.take(m);
            goes_on(sizes, tau, 1, m);
            first_least_is_least(part);
            let next = first_least(part);
            assert(next > k);
            assert forall|before: int| 0 <= before <= k implies #[trigger] sizes[next]
                < #[trigger] sizes[before] by {
                assert(part[before] == sizes[before]);
                assert(part[next] == sizes[next]);
            }
        }
    }
}

} // verus!
