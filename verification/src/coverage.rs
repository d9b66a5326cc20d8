use crate::jenks::{break_count, is_break_values, lemma_break_values};
use crate::utilities::{
    ascending, bin_bounds, bins_of, count_in_bin, highest, in_bin, lemma_count_in_bin_bound,
    lemma_highest, lemma_lowest, lowest, Bin,
};
use vstd::prelude::*;

verus! {

/// The sum of the counts of `bins`.
pub open spec fn total_count(bins: Seq<Bin>) -> nat
    decreases bins.len(),
{
    if bins.len() == 0 {
        0
    } else {
        total_count(bins.drop_last()) + bins.last().count as nat
    }
}

/// Every value of `data` lies between `low` and `high`.
pub open spec fn within(data: Seq<i64>, low: i64, high: i64) -> bool {
    forall|j: int| 0 <= j < data.len() ==> low <= #[trigger] data[j] <= high
}

/// How many of the first `m` bins between `bounds` hold `x`. The bin before
/// the last bound is the closing one.
spec fn holders(bounds: Seq<i64>, x: i64, m: nat) -> nat
    decreases m,
{
    if m == 0 {
        0
    } else {
        holders(bounds, x, (m - 1) as nat) + if in_bin(
            x,
            bounds[m - 1],
            bounds[m as int],
            m == bounds.len() - 1,
        ) {
            1nat
        } else {
            0nat
        }
    }
}

/// The sum of the numbers of values of `data` in the first `m` bins between
/// `bounds`.
spec fn counted(bounds: Seq<i64>, data: Seq<i64>, m: nat) -> nat
    decreases m,
{
    if m == 0 {
        0
    } else {
        counted(bounds, data, (m - 1) as nat) + count_in_bin(
            data,
            bounds[m - 1],
            bounds[m as int],
            m == bounds.len() - 1,
        )
    }
}

/// The bounds after the first and before the last never decrease.
spec fn inner_ascending(bounds: Seq<i64>) -> bool {
    forall|i: int, j: int| 1 <= i <= j < bounds.len() - 1 ==> bounds[i] <= bounds[j]
}

/// Among the bins before bin `m`, one holds `x` if `x` is below the lower
/// bound of bin `m`, and none does otherwise.
proof fn lemma_holders_before(bounds: Seq<i64>, x: i64, m: nat)
    requires
        bounds.len() >= 2,
        inner_ascending(bounds),
        bounds[0] <= x,
        1 <= m <= bounds.len() - 2,
    ensures
        holders(bounds, x, m) == if x < bounds[m as int] {
            1nat
        } else {
            0nat
        },
    decreases m,
{
    if m == 1 {
        assert(holders(bounds, x, 0) == 0);
    } else {
        lemma_holders_before(bounds, x, (m - 1) as nat);
        assert(bounds[m - 1] <= bounds[m as int]);
    }
}

/// Exactly one bin holds a value that lies between the first and the last
/// bound.
proof fn lemma_one_holder(bounds: Seq<i64>, x: i64)
    requires
        bounds.len() >= 2,
        inner_ascending(bounds),
        bounds[0] <= x <= bounds.last(),
    ensures
        holders(bounds, x, (bounds.len() - 1) as nat) == 1,
{
    let k = (bounds.len() - 2) as nat;
    if k == 0 {
        assert(holders(bounds, x, 0) == 0);
    } else {
        lemma_holders_before(bounds, x, k);
    }
}

/// What one more value adds to the counts of the first `m` bins is the
/// number of those bins that hold it.
proof fn lemma_counted_step(bounds: Seq<i64>, data: Seq<i64>, m: nat)
    requires
        data.len() > 0,
    ensures
        counted(bounds, data, m) == counted(bounds, data.drop_last(), m) + holders(
            bounds,
            data.last(),
            m,
        ),
    decreases m,
{
    if m > 0 {
        lemma_counted_step(bounds, data, (m - 1) as nat);
    }
}

/// The bins between `bounds` hold together as many values as the data has.
proof fn lemma_counted_all(bounds: Seq<i64>, data: Seq<i64>)
    requires
        bounds.len() >= 2,
        inner_ascending(bounds),
        within(data, bounds[0], bounds.last()),
    ensures
        counted(bounds, data, (bounds.len() - 1) as nat) == data.len(),
    decreases data.len(),
{
    let m = (bounds.len() - 1) as nat;
    if data.len() == 0 {
        assert(data =~= Seq::<i64>::empty());
        lemma_counted_none(bounds, m);
    } else {
        let rest = data.drop_last();
        assert(within(rest, bounds[0], bounds.last())) by {
            assert forall|j: int| 0 <= j < rest.len() implies bounds[0] <= #[trigger] rest[j]
                <= bounds.last() by {
                assert(rest[j] == data[j]);
            }
        }
        lemma_counted_all(bounds, rest);
        lemma_counted_step(bounds, data, m);
        assert(data.last() == data[data.len() - 1]);
        lemma_one_holder(bounds, data.last());
    }
}

/// No bin holds a value of data that has none.
proof fn lemma_counted_none(bounds: Seq<i64>, m: nat)
    ensures
        counted(bounds, Seq::<i64>::empty(), m) == 0,
    decreases m,
{
    if m > 0 {
        lemma_counted_none(bounds, (m - 1) as nat);
    }
}

/// The counts of the first `m` bins of a classification add up to the number
/// of values in them.
proof fn lemma_total_count(breaks: Seq<i64>, data: Seq<i64>, m: nat)
    requires
        data.len() <= u64::MAX,
        m <= breaks.len() + 1,
    ensures
        total_count(bins_of(breaks, data).take(m as int)) == counted(
            bin_bounds(breaks, data),
            data,
            m,
        ),
    decreases m,
{
    let bins = bins_of(breaks, data);
    let bounds = bin_bounds(breaks, data);
    if m > 0 {
        lemma_total_count(breaks, data, (m - 1) as nat);
        assert(bins.take(m as int).drop_last() == bins.take(m - 1));
        assert(bins.take(m as int).last() == bins[m - 1]);
        lemma_count_in_bin_bound(
            data,
            bounds[m - 1],
            bounds[m as int],
            m - 1 == breaks.len(),
        );
    }
}

/// Every data point is counted in exactly one bin. Where the breaks never
/// decrease, the bins between them lie end to end from the lowest to the
/// highest value of the data, and their counts add up to the number of data
/// points.
pub proof fn lemma_bins_cover_data(breaks: Seq<i64>, data: Seq<i64>)
    requires
        0 < data.len() <= u64::MAX,
        ascending(breaks),
    ensures
        bins_of(breaks, data).len() == breaks.len() + 1,
        bins_of(breaks, data)[0].bin_start == lowest(data),
        bins_of(breaks, data).last().bin_end == highest(data),
        forall|i: int|
            0 <= i < breaks.len() ==> (#[trigger] bins_of(breaks, data)[i]).bin_end == bins_of(
                breaks,
                data,
            )[i + 1].bin_start,
        total_count(bins_of(breaks, data)) == data.len(),
{
    let bins = bins_of(breaks, data);
    let bounds = bin_bounds(breaks, data);
    lemma_lowest(data);
    lemma_highest(data);
    assert(inner_ascending(bounds)) by {
        assert forall|i: int, j: int| 1 <= i <= j < bounds.len() - 1 implies bounds[i]
            <= bounds[j] by {
            assert(bounds[i] == breaks[i - 1]);
            assert(bounds[j] == breaks[j - 1]);
        }
    }
    assert(bounds[0] == lowest(data));
    assert(bounds.last() == highest(data));
    lemma_counted_all(bounds, data);
    lemma_total_count(breaks, data, (breaks.len() + 1) as nat);
    assert(bins.take((breaks.len() + 1) as int) == bins);
}

/// The bins between the break values of a search lie end to end from the
/// lowest to the highest value of the data, there is one more of them than
/// there are breaks, and their counts add up to the number of data points.
pub proof fn lemma_search_bins_cover_data(values: Seq<i64>, num_breaks: nat, data: Seq<i64>)
    requires
        0 < data.len() <= u64::MAX,
        is_break_values(values, num_breaks, data),
    ensures
        bins_of(values, data).len() == num_breaks + 1,
        bins_of(values, data)[0].bin_start == lowest(data),
        bins_of(values, data).last().bin_end == highest(data),
        forall|i: int|
            0 <= i < num_breaks ==> (#[trigger] bins_of(values, data)[i]).bin_end == bins_of(
                values,
                data,
            )[i + 1].bin_start,
        total_count(bins_of(values, data)) == data.len(),
{
    lemma_break_values(values, num_breaks, data);
    lemma_bins_cover_data(values, data);
}

/// All values of `data` are the same.
pub open spec fn constant(data: Seq<i64>) -> bool {
    forall|i: int, j: int| 0 <= i < data.len() && 0 <= j < data.len() ==> data[i] == data[j]
}

/// Data of one repeated value has no break, whatever number of bins is asked
/// for, and a single bin that holds every data point.
pub proof fn lemma_constant_data(num_bins: nat, data: Seq<i64>)
    requires
        0 < data.len() <= u64::MAX,
        constant(data),
    ensures
        break_count(num_bins, data) == 0,
        bins_of(Seq::<i64>::empty(), data) == seq![
            (Bin { bin_start: data[0], bin_end: data[0], count: data.len() as u64 }),
        ],
{
    assert(data.to_set() =~= set![data[0]]) by {
        assert forall|x: i64| data.to_set().contains(x) <==> set![data[0]].contains(x) by {
            if data.contains(x) {
                let j = choose|j: int| 0 <= j < data.len() && data[j] == x;
                assert(data[j] == data[0]);
            }
            if x == data[0] {
                assert(data.contains(data[0]));
            }
        }
    }
    lemma_lowest(data);
    lemma_highest(data);
    let low = choose|k: int| 0 <= k < data.len() && data[k] == lowest(data);
    let high = choose|k: int| 0 <= k < data.len() && data[k] == highest(data);
    assert(data[low] == data[0] && data[high] == data[0]);
    lemma_count_constant(data, data[0], data.len() as int);
    assert(data.take(data.len() as int) == data);
    let breaks = Seq::<i64>::empty();
    let bounds = bin_bounds(breaks, data);
    assert(bounds[0] == data[0] && bounds[1] == data[0]);
    assert(bins_of(breaks, data) =~= seq![
        (Bin { bin_start: data[0], bin_end: data[0], count: data.len() as u64 }),
    ]);
}

/// The closing bin from `v` to `v` holds every value of data that is `v`
/// throughout.
proof fn lemma_count_constant(data: Seq<i64>, v: i64, n: int)
    requires
        0 <= n <= data.len(),
        forall|i: int| 0 <= i < data.len() ==> data[i] == v,
    ensures
        count_in_bin(data.take(n), v, v, true) == n,
    decreases n,
{
    if n > 0 {
        lemma_count_constant(data, v, n - 1);
        assert(data.take(n).drop_last() == data.take(n - 1));
        assert(data.take(n).last() == data[n - 1]);
    }
}

} // verus!
