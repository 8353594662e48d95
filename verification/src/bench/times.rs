//! What is told of the times that chunks took.
use crate::double::{
    is_finite, lemma_part_ends, lemma_part_monotone, part_of, representable, scaled_value,
    take_part, EXACT_LIMIT, ONE_BITS,
};
use vstd::prelude::*;

verus! {

/// The pattern of `0.95`.
pub const P95_BITS: u64 = 0x3FEE_6666_6666_6666;

/// Where the bit pattern of a double-precision number stands in the total
/// order of such numbers, negative patterns reversed below positive ones.
pub open spec fn total_order(bits: u64) -> int {
    if bits < 0x8000_0000_0000_0000 {
        bits as int
    } else {
        0x7FFF_FFFF_FFFF_FFFF - bits
    }
}

/// Whether patterns stand in the total order of their numbers.
pub open spec fn is_sorted(values: Seq<u64>) -> bool {
    forall|i: int, j: int|
        0 <= i < j < values.len() ==> total_order(#[trigger] values[i]) <= total_order(
            #[trigger] values[j],
        )
}

/// Where a pattern stands in the total order.
pub fn order_key(bits: u64) -> (key: i64)
    ensures
        key == total_order(bits),
{
    if bits < 0x8000_0000_0000_0000 {
        bits as i64
    } else {
        -1 - (bits - 0x8000_0000_0000_0000) as i64
    }
}

/// Calls `slice::sort_by_key` of the standard library, which puts the elements
/// in the order of their keys and keeps each of them.
#[verifier::external_body]
fn sort_by_order(values: &mut Vec<u64>)
    ensures
        is_sorted(final(values)@),
        final(values)@.to_multiset() == old(values)@.to_multiset(),
{
    values.sort_by_key(|bits| order_key(*bits));
}

/// A percentile of sorted values, that is the value at a fraction of the last
/// position; zero where there are none. The fraction is the bit pattern of a
/// double-precision number.
pub open spec fn percentile_spec(values: Seq<u64>, fraction: u64) -> u64 {
    if values.len() == 0 {
        0
    } else {
        values[part_of((values.len() - 1) as nat, fraction) as int]
    }
}

/// Picks a percentile of sorted values; zero where there are none.
pub fn percentile(values: &[u64], fraction: u64) -> (value: u64)
    ensures
        value == percentile_spec(values@, fraction),
{
    if values.is_empty() {
        return 0;
    }
    let last: usize = values.len() - 1;
    values[take_part(last as u64, fraction) as usize]
}

/// What is told of chunk times: all of them in order, the ninety-fifth
/// percentile and the longest. Times are bit patterns of double-precision
/// numbers.
#[derive(Debug, PartialEq)]
pub struct ChunkTimes {
    pub sorted: Vec<u64>,
    pub p95: u64,
    pub max: u64,
}

/// Sorts chunk times and picks what is told of them.
pub fn summarize(times: Vec<u64>) -> (summary: ChunkTimes)
    ensures
        is_summary(times@, summary),
{
    let mut sorted: Vec<u64> = times;
    sort_by_order(&mut sorted);
    proof {
        broadcast use vstd::seq_lib::group_to_multiset_ensures;

        assert(sorted@.len() == sorted@.to_multiset().len());
        assert(times@.len() == times@.to_multiset().len());
    }
    let p95: u64 = percentile(sorted.as_slice(), P95_BITS);
    let max: u64 = if sorted.len() == 0 {
        0
    } else {
        sorted[sorted.len() - 1]
    };
    ChunkTimes { sorted, p95, max }
}

/// A larger finite fraction of sorted values is no smaller value.
pub proof fn lemma_percentiles_ordered(values: Seq<u64>, low: u64, high: u64)
    requires
        is_sorted(values),
        is_finite(low),
        is_finite(high),
        scaled_value(low) <= scaled_value(high),
    ensures
        total_order(percentile_spec(values, low)) <= total_order(percentile_spec(values, high)),
{
    if values.len() > 0 {
        let last = (values.len() - 1) as nat;
        lemma_part_monotone(last, low, high);
        let (a, b) = (part_of(last, low) as int, part_of(last, high) as int);
        if a < b {
            assert(total_order(values[a]) <= total_order(values[b]));
        }
    }
}

/// Every percentile of sorted values lies between the first and the last. The
/// fraction zero picks the first; the fraction one picks the last, where the
/// last position is not rounded down to a double-precision number, as it is not
/// up to 2^53.
pub proof fn lemma_percentiles_within(values: Seq<u64>, fraction: u64)
    requires
        is_sorted(values),
        values.len() > 0,
    ensures
        total_order(values[0]) <= total_order(percentile_spec(values, fraction)),
        total_order(percentile_spec(values, fraction)) <= total_order(values.last()),
        percentile_spec(values, 0) == values[0],
        representable((values.len() - 1) as nat) >= values.len() - 1 ==> percentile_spec(
            values,
            ONE_BITS,
        ) == values.last(),
        values.len() - 1 <= EXACT_LIMIT ==> percentile_spec(values, ONE_BITS) == values.last(),
{
    let last = (values.len() - 1) as nat;
    lemma_part_ends(last);
    let at = part_of(last, fraction) as int;
    if 0 < at {
        assert(total_order(values[0]) <= total_order(values[at]));
    }
    if at < last {
        assert(total_order(values[at]) <= total_order(values[last as int]));
    }
}

/// Whether a summary is one of these times.
pub open spec fn is_summary(times: Seq<u64>, summary: ChunkTimes) -> bool {
    &&& is_sorted(summary.sorted@)
    &&& summary.sorted@.to_multiset() == times.to_multiset()
    &&& summary.p95 == percentile_spec(summary.sorted@, P95_BITS)
    &&& summary.max == if times.len() == 0 {
        0
    } else {
        summary.sorted@.last()
    }
}

} // verus!
