use crate::error::ClassifyError;
use crate::sampler::is_break_set;
use vstd::prelude::*;

verus! {

/// One run of equal values in a sorted sample: the value, and the positions of
/// its first and last occurrence.
#[derive(Clone, Copy, Debug, PartialEq, Eq, Structural)]
pub struct UniqueVal {
    pub val: i64,
    pub first: usize,
    pub last: usize,
}

/// `s` never decreases from one position to the next.
pub open spec fn ascending(s: Seq<i64>) -> bool {
    forall|i: int, j: int| 0 <= i <= j < s.len() ==> s[i] <= s[j]
}

/// `runs` cuts `vals` into its maximal runs of equal values: the runs follow
/// one another without gap from position 0 to the last position, every value
/// inside a run equals the run's `val`, and neighbouring runs differ in `val`.
pub open spec fn is_run_index(runs: Seq<UniqueVal>, vals: Seq<i64>) -> bool {
    &&& vals.len() == 0 ==> runs.len() == 0
    &&& vals.len() > 0 ==> runs.len() > 0 && runs[0].first == 0 && runs.last().last == vals.len()
        - 1
    &&& forall|r: int|
        0 <= r < runs.len() ==> (#[trigger] runs[r]).first <= runs[r].last < vals.len()
    &&& forall|r: int|
        0 <= r < runs.len() - 1 ==> (#[trigger] runs[r]).last + 1 == runs[r + 1].first
            && runs[r].val != runs[r + 1].val
    &&& forall|r: int, j: int|
        0 <= r < runs.len() && runs[r].first <= j <= runs[r].last ==> #[trigger] vals[j]
            == (#[trigger] runs[r]).val
}

/// Replaces the contents of `unique_val_map` by the runs of equal values of
/// `vals`, in the order in which they occur.
pub fn create_unique_val_mapping(unique_val_map: &mut Vec<UniqueVal>, vals: &Vec<i64>)
    ensures
        is_run_index(final(unique_val_map)@, vals@),
{
    unique_val_map.clear();
    let n: usize = vals.len();
    if n == 0 {
        return ;
    }
    let mut first: usize = 0;
    let mut i: usize = 1;
    while i < n
        invariant
            n == vals.len(),
            0 <= first < i <= n,
            forall|j: int| first <= j < i ==> vals[j] == vals[first as int],
            unique_val_map.len() == 0 ==> first == 0,
            unique_val_map.len() > 0 ==> unique_val_map[0].first == 0
                && unique_val_map@.last().last + 1 == first
                && unique_val_map@.last().val != vals[first as int],
            forall|r: int|
                0 <= r < unique_val_map.len() ==> (#[trigger] unique_val_map[r]).first
                    <= unique_val_map[r].last < first,
            forall|r: int|
                0 <= r < unique_val_map.len() - 1 ==> (#[trigger] unique_val_map[r]).last + 1
                    == unique_val_map[r + 1].first && unique_val_map[r].val != unique_val_map[r
                    + 1].val,
            forall|r: int, j: int|
                0 <= r < unique_val_map.len() && unique_val_map[r].first <= j
                    <= unique_val_map[r].last ==> #[trigger] vals[j]
                    == (#[trigger] unique_val_map[r]).val,
        decreases n - i,
    {
        if vals[i] != vals[first] {
            unique_val_map.push(UniqueVal { val: vals[first], first: first, last: i - 1 });
            first = i;
        }
        i += 1;
    }
    unique_val_map.push(UniqueVal { val: vals[first], first: first, last: n - 1 });
}

/// One bin: its lower bound, its upper bound and the number of data points in
/// it. The lower bound belongs to the bin; the upper bound belongs to it only
/// in the last bin of a classification.
#[derive(Clone, Copy, Debug, PartialEq, Eq, Structural)]
pub struct Bin {
    pub bin_start: i64,
    pub bin_end: i64,
    pub count: u64,
}

/// The bins of a dataset, from the lowest to the highest.
#[derive(Clone, Debug)]
pub struct Classification {
    pub bins: Vec<Bin>,
}

impl View for Classification {
    type V = Seq<Bin>;

    open spec fn view(&self) -> Seq<Bin> {
        self.bins@
    }
}

impl PartialEq for Classification {
    /// Two classifications are equal where they have the same bins in the
    /// same order.
    fn eq(&self, other: &Classification) -> (same: bool) {
        if self.bins.len() != other.bins.len() {
            return false;
        }
        let mut i: usize = 0;
        while i < self.bins.len()
            invariant
                self.bins.len() == other.bins.len(),
                i <= self.bins.len(),
                forall|k: int| 0 <= k < i ==> self.bins[k] == other.bins[k],
            decreases self.bins.len() - i,
        {
            if self.bins[i] != other.bins[i] {
                return false;
            }
            i += 1;
        }
        assert(self.bins@ =~= other.bins@);
        true
    }
}

impl vstd::std_specs::cmp::PartialEqSpecImpl for Classification {
    open spec fn obeys_eq_spec() -> bool {
        true
    }

    open spec fn eq_spec(&self, other: &Classification) -> bool {
        self@ == other@
    }
}

/// The smallest value of a sequence that is not empty.
pub open spec fn lowest(s: Seq<i64>) -> i64
    decreases s.len(),
{
    if s.len() <= 1 {
        s[0]
    } else if s.last() < lowest(s.drop_last()) {
        s.last()
    } else {
        lowest(s.drop_last())
    }
}

/// The largest value of a sequence that is not empty.
pub open spec fn highest(s: Seq<i64>) -> i64
    decreases s.len(),
{
    if s.len() <= 1 {
        s[0]
    } else if s.last() > highest(s.drop_last()) {
        s.last()
    } else {
        highest(s.drop_last())
    }
}

/// Whether `x` lies in the bin from `start` to `end`. The upper bound counts
/// only for the closing bin.
pub open spec fn in_bin(x: i64, start: i64, end: i64, closing: bool) -> bool {
    start <= x && (x < end || (closing && x == end))
}

/// How many values of `data` lie in the bin from `start` to `end`.
pub open spec fn count_in_bin(data: Seq<i64>, start: i64, end: i64, closing: bool) -> nat
    decreases data.len(),
{
    if data.len() == 0 {
        0
    } else {
        count_in_bin(data.drop_last(), start, end, closing) + if in_bin(
            data.last(),
            start,
            end,
            closing,
        ) {
            1nat
        } else {
            0nat
        }
    }
}

/// The bounds of the bins: the lowest value, the breaks in their order, the
/// highest value.
pub open spec fn bin_bounds(breaks: Seq<i64>, data: Seq<i64>) -> Seq<i64> {
    seq![lowest(data)] + breaks + seq![highest(data)]
}

/// The bins that `breaks` cut `data` into: one more than there are breaks,
/// each from one bound to the next, the last one closed at its upper bound.
pub open spec fn bins_of(breaks: Seq<i64>, data: Seq<i64>) -> Seq<Bin> {
    Seq::new(
        breaks.len() + 1,
        |i: int|
            Bin {
                bin_start: bin_bounds(breaks, data)[i],
                bin_end: bin_bounds(breaks, data)[i + 1],
                count: count_in_bin(
                    data,
                    bin_bounds(breaks, data)[i],
                    bin_bounds(breaks, data)[i + 1],
                    i == breaks.len(),
                ) as u64,
            },
    )
}

/// `lowest(s)` occurs in `s` and no value of `s` is below it.
pub proof fn lemma_lowest(s: Seq<i64>)
    requires
        s.len() > 0,
    ensures
        s.contains(lowest(s)),
        forall|i: int| 0 <= i < s.len() ==> lowest(s) <= s[i],
    decreases s.len(),
{
    if s.len() > 1 {
        let t = s.drop_last();
        lemma_lowest(t);
        let k = choose|k: int| 0 <= k < t.len() && t[k] == lowest(t);
        assert(s[k] == t[k]);
        assert forall|i: int| 0 <= i < s.len() implies lowest(s) <= s[i] by {
            if i < t.len() {
                assert(t[i] == s[i]);
            }
        }
        assert(s[s.len() - 1] == s.last());
    } else {
        assert(s[0] == lowest(s));
    }
}

/// `highest(s)` occurs in `s` and no value of `s` is above it.
pub proof fn lemma_highest(s: Seq<i64>)
    requires
        s.len() > 0,
    ensures
        s.contains(highest(s)),
        forall|i: int| 0 <= i < s.len() ==> highest(s) >= s[i],
    decreases s.len(),
{
    if s.len() > 1 {
        let t = s.drop_last();
        lemma_highest(t);
        let k = choose|k: int| 0 <= k < t.len() && t[k] == highest(t);
        assert(s[k] == t[k]);
        assert forall|i: int| 0 <= i < s.len() implies highest(s) >= s[i] by {
            if i < t.len() {
                assert(t[i] == s[i]);
            }
        }
        assert(s[s.len() - 1] == s.last());
    } else {
        assert(s[0] == highest(s));
    }
}

/// No bin holds more values than the dataset has.
pub proof fn lemma_count_in_bin_bound(data: Seq<i64>, start: i64, end: i64, closing: bool)
    ensures
        count_in_bin(data, start, end, closing) <= data.len(),
    decreases data.len(),
{
    if data.len() > 0 {
        lemma_count_in_bin_bound(data.drop_last(), start, end, closing);
    }
}

/// The lowest and the highest value of a dataset that is not empty.
fn value_range(data: &Vec<i64>) -> (range: (i64, i64))
    requires
        data.len() > 0,
    ensures
        range.0 == lowest(data@),
        range.1 == highest(data@),
{
    let mut min_value: i64 = data[0];
    let mut max_value: i64 = data[0];
    assert(data@.take(1).len() == 1);
    let mut i: usize = 1;
    while i < data.len()
        invariant
            1 <= i <= data.len(),
            min_value == lowest(data@.take(i as int)),
            max_value == highest(data@.take(i as int)),
        decreases data.len() - i,
    {
        assert(data@.take(i + 1).drop_last() == data@.take(i as int));
        if data[i] < min_value {
            min_value = data[i];
        }
        if data[i] > max_value {
            max_value = data[i];
        }
        i += 1;
    }
    assert(data@.take(i as int) == data@);
    (min_value, max_value)
}

/// How many values of `data` lie in the bin from `start` to `end`.
fn count_bin(data: &Vec<i64>, start: i64, end: i64, closing: bool) -> (count: u64)
    ensures
        count == count_in_bin(data@, start, end, closing),
{
    let mut count: u64 = 0;
    let mut j: usize = 0;
    while j < data.len()
        invariant
            j <= data.len(),
            count <= j,
            count == count_in_bin(data@.take(j as int), start, end, closing),
        decreases data.len() - j,
    {
        assert(data@.take(j + 1).drop_last() == data@.take(j as int));
        let n: i64 = data[j];
        if start <= n && (n < end || (closing && n == end)) {
            count += 1;
        }
        j += 1;
    }
    assert(data@.take(j as int) == data@);
    count
}

/// Cuts the range of `data` at `breaks` and counts the data points of each
/// bin. A dataset without values has no range and is turned down.
pub fn breaks_to_classification(breaks: &Vec<i64>, data: &Vec<i64>) -> (result: Result<
    Classification,
    ClassifyError,
>)
    ensures
        data.len() == 0 <==> result is Err,
        result matches Err(e) ==> e == ClassifyError::EmptyDataset,
        result matches Ok(c) ==> c@ == bins_of(breaks@, data@),
{
    if data.len() == 0 {
        return Err(ClassifyError::EmptyDataset);
    }
    let (min_value, max_value) = value_range(data);
    let ghost bounds = bin_bounds(breaks@, data@);
    let mut results: Vec<Bin> = Vec::new();
    let mut start: i64 = min_value;
    let mut i: usize = 0;
    while i < breaks.len()
        invariant
            i <= breaks.len(),
            bounds == bin_bounds(breaks@, data@),
            start == bounds[i as int],
            results.len() == i,
            forall|k: int| 0 <= k < i ==> #[trigger] results[k] == bins_of(breaks@, data@)[k],
        decreases breaks.len() - i,
    {
        let end: i64 = breaks[i];
        assert(bounds[i + 1] == breaks[i as int]);
        let count: u64 = count_bin(data, start, end, false);
        results.push(Bin { bin_start: start, bin_end: end, count });
        start = end;
        i += 1;
    }
    assert(bounds[i + 1] == max_value);
    let count: u64 = count_bin(data, start, max_value, true);
    results.push(Bin { bin_start: start, bin_end: max_value, count });
    assert(results@ =~= bins_of(breaks@, data@));
    Ok(Classification { bins: results })
}

/// The positions in the sample at which the runs chosen by `u_val_breaks`
/// begin.
pub open spec fn normal_breaks_of(u_val_breaks: Seq<usize>, u_val_map: Seq<UniqueVal>) -> Seq<
    usize,
> {
    Seq::new(u_val_breaks.len(), |i: int| u_val_map[u_val_breaks[i] as int].first)
}

/// Turns breaks that number the runs of a sample into breaks that number its
/// positions: each break moves to the first occurrence of its run's value, so
/// that equal values never fall on both sides of a cut.
pub fn unique_to_normal_breaks(
    u_val_breaks: &Vec<usize>,
    u_val_map: &Vec<UniqueVal>,
    normal_breaks: &mut Vec<usize>,
)
    requires
        forall|i: int| 0 <= i < u_val_breaks.len() ==> u_val_breaks[i] < u_val_map.len(),
    ensures
        final(normal_breaks)@ == normal_breaks_of(u_val_breaks@, u_val_map@),
{
    normal_breaks.clear();
    let mut i: usize = 0;
    while i < u_val_breaks.len()
        invariant
            i <= u_val_breaks.len(),
            normal_breaks.len() == i,
            forall|k: int| 0 <= k < u_val_breaks.len() ==> u_val_breaks[k] < u_val_map.len(),
            forall|k: int|
                0 <= k < i ==> normal_breaks[k] == u_val_map[u_val_breaks[k] as int].first,
        decreases u_val_breaks.len() - i,
    {
        normal_breaks.push(u_val_map[u_val_breaks[i]].first);
        i += 1;
    }
    assert(normal_breaks@ =~= normal_breaks_of(u_val_breaks@, u_val_map@));
}

/// Whether `val` lies in bin `i` of `bins`; only the last bin is closed at its
/// upper bound.
pub open spec fn bin_holds(bins: Seq<Bin>, i: int, val: i64) -> bool {
    0 <= i < bins.len() && in_bin(val, bins[i].bin_start, bins[i].bin_end, i == bins.len() - 1)
}

/// The number of the first bin that `val` lies in, if there is one.
pub fn classify_val(val: i64, class: &Classification) -> (bin: Option<usize>)
    ensures
        bin matches Some(i) ==> bin_holds(class@, i as int, val) && forall|k: int|
            0 <= k < i ==> !bin_holds(class@, k, val),
        bin is None ==> forall|k: int| 0 <= k < class@.len() ==> !bin_holds(class@, k, val),
{
    let n: usize = class.bins.len();
    let mut i: usize = 0;
    while i < n
        invariant
            n == class.bins.len(),
            i <= n,
            forall|k: int| 0 <= k < i ==> !bin_holds(class@, k, val),
        decreases n - i,
    {
        let bin: &Bin = &class.bins[i];
        if bin.bin_start <= val && (val < bin.bin_end || (i == n - 1 && val == bin.bin_end)) {
            return Some(i);
        }
        i += 1;
    }
    None
}

/// `at` parts the sample at `target`: every value before position `at` is
/// below `target`, and every value from `at` on is `target` or above it.
pub open spec fn parts_at(sample: Seq<i64>, target: i64, at: int) -> bool {
    &&& 0 <= at <= sample.len()
    &&& forall|i: int| 0 <= i < at ==> sample[i] < target
    &&& forall|i: int| at <= i < sample.len() ==> sample[i] >= target
}

/// The first position of an ascending sample whose value is `target` or
/// above it; the length of the sample where every value is below `target`.
pub fn first_at_or_above(sorted: &Vec<i64>, target: i64) -> (at: usize)
    ensures
        at <= sorted.len(),
        ascending(sorted@) ==> parts_at(sorted@, target, at as int),
{
    let mut low: usize = 0;
    let mut high: usize = sorted.len();
    while low < high
        invariant
            low <= high <= sorted.len(),
            ascending(sorted@) ==> forall|i: int| 0 <= i < low ==> sorted[i] < target,
            ascending(sorted@) ==> forall|i: int| high <= i < sorted.len() ==> sorted[i] >= target,
        decreases high - low,
    {
        let mid: usize = low + (high - low) / 2;
        if sorted[mid] < target {
            low = mid + 1;
        } else {
            high = mid;
        }
    }
    low
}

/// A later run begins after an earlier run has ended.
pub proof fn lemma_runs_in_order(runs: Seq<UniqueVal>, vals: Seq<i64>, a: int, b: int)
    requires
        is_run_index(runs, vals),
        0 <= a < b < runs.len(),
    ensures
        runs[a].last < runs[b].first,
    decreases b - a,
{
    if a + 1 < b {
        lemma_runs_in_order(runs, vals, a, b - 1);
        assert(runs[b - 1].last + 1 == runs[b].first);
        assert(runs[b - 1].first <= runs[b - 1].last);
    } else {
        assert(runs[a].last + 1 == runs[a + 1].first);
    }
}

/// In the run index of an ascending sample a later run has a greater value.
pub proof fn lemma_run_values_ascend(runs: Seq<UniqueVal>, vals: Seq<i64>, a: int, b: int)
    requires
        is_run_index(runs, vals),
        ascending(vals),
        0 <= a < b < runs.len(),
    ensures
        runs[a].val < runs[b].val,
{
    lemma_runs_in_order(runs, vals, a, b);
    assert(runs[a].last + 1 == runs[a + 1].first);
    let p = runs[a].last as int;
    let q = runs[a + 1].first as int;
    let r = runs[b].first as int;
    assert(vals[p] == runs[a].val);
    assert(vals[q] == runs[a + 1].val);
    assert(vals[r] == runs[b].val);
    if a + 1 < b {
        lemma_runs_in_order(runs, vals, a + 1, b);
    }
    assert(vals[p] <= vals[q] <= vals[r]);
}

/// Every position of the sample lies in one of its runs.
pub proof fn lemma_position_in_run(runs: Seq<UniqueVal>, vals: Seq<i64>, j: int) -> (r: int)
    requires
        is_run_index(runs, vals),
        0 <= j < vals.len(),
    ensures
        0 <= r < runs.len(),
        runs[r].first <= j <= runs[r].last,
{
    lemma_position_from(runs, vals, j, 0)
}

proof fn lemma_position_from(runs: Seq<UniqueVal>, vals: Seq<i64>, j: int, from: int) -> (r: int)
    requires
        is_run_index(runs, vals),
        0 <= j < vals.len(),
        0 <= from < runs.len(),
        runs[from].first <= j,
    ensures
        0 <= r < runs.len(),
        runs[r].first <= j <= runs[r].last,
    decreases runs.len() - from,
{
    if j <= runs[from].last {
        from
    } else {
        if from == runs.len() - 1 {
            assert(runs[from] == runs.last());
        }
        assert(runs[from].last + 1 == runs[from + 1].first);
        lemma_position_from(runs, vals, j, from + 1)
    }
}

/// The values of the runs, in the order of the runs.
pub open spec fn run_values(runs: Seq<UniqueVal>) -> Seq<i64> {
    Seq::new(runs.len(), |r: int| runs[r].val)
}

/// An ascending sample has as many runs as it has different values.
pub proof fn lemma_run_count(runs: Seq<UniqueVal>, vals: Seq<i64>)
    requires
        is_run_index(runs, vals),
        ascending(vals),
    ensures
        runs.len() == vals.to_set().len(),
{
    let rv = run_values(runs);
    assert(rv.no_duplicates()) by {
        assert forall|a: int, b: int| 0 <= a < rv.len() && 0 <= b < rv.len() && a != b implies rv[a]
            != rv[b] by {
            if a < b {
                lemma_run_values_ascend(runs, vals, a, b);
            } else {
                lemma_run_values_ascend(runs, vals, b, a);
            }
        }
    }
    rv.unique_seq_to_set();
    assert(rv.to_set() =~= vals.to_set()) by {
        assert forall|x: i64| rv.to_set().contains(x) <==> vals.to_set().contains(x) by {
            if rv.contains(x) {
                let r = choose|r: int| 0 <= r < rv.len() && rv[r] == x;
                let j = runs[r].first as int;
                assert(vals[j] == runs[r].val);
                assert(vals.contains(x));
            }
            if vals.contains(x) {
                let j = choose|j: int| 0 <= j < vals.len() && vals[j] == x;
                let r = lemma_position_in_run(runs, vals, j);
                assert(vals[j] == runs[r].val);
                assert(rv[r] == x);
                assert(rv.contains(x));
            }
        }
    }
}

/// Each value is below the next.
pub open spec fn strictly_increasing(s: Seq<i64>) -> bool {
    forall|i: int, j: int| 0 <= i < j < s.len() ==> s[i] < s[j]
}

/// Every position of `positions` is a cut between two different values of the
/// sample: the value before the position is below the value at it.
pub open spec fn cuts_between_values(positions: Seq<usize>, sample: Seq<i64>) -> bool {
    forall|i: int|
        0 <= i < positions.len() ==> 1 <= #[trigger] positions[i] < sample.len() && sample[positions[i]
            - 1] < sample[positions[i] as int]
}

/// Breaks that number the runs of a sample become, moved to the first
/// positions of their runs, breaks that number the positions of the sample:
/// as many, still different and in ascending order, none at position 0.
pub proof fn lemma_normal_breaks(u_val_breaks: Seq<usize>, runs: Seq<UniqueVal>, vals: Seq<i64>)
    requires
        is_run_index(runs, vals),
        is_break_set(u_val_breaks, u_val_breaks.len(), runs.len()),
    ensures
        is_break_set(
            normal_breaks_of(u_val_breaks, runs),
            u_val_breaks.len(),
            vals.len(),
        ),
{
    let nb = normal_breaks_of(u_val_breaks, runs);
    assert forall|i: int, j: int| 0 <= i < j < nb.len() implies nb[i] < nb[j] by {
        assert(u_val_breaks[i] < u_val_breaks[j]);
        lemma_runs_in_order(runs, vals, u_val_breaks[i] as int, u_val_breaks[j] as int);
        let a = u_val_breaks[i] as int;
        assert(runs[a].first <= runs[a].last);
    }
    assert forall|i: int| 0 <= i < nb.len() implies 1 <= #[trigger] nb[i] < vals.len() by {
        let b = u_val_breaks[i] as int;
        assert(1 <= u_val_breaks[i] < runs.len());
        lemma_runs_in_order(runs, vals, 0, b);
        assert(runs[0].first <= runs[0].last);
        assert(runs[b].first <= runs[b].last < vals.len());
    }
}

/// In an ascending sample, breaks moved to the first positions of their runs
/// cut between two different values: no value lies on both sides of a cut.
pub proof fn lemma_normal_breaks_cut_between_values(
    u_val_breaks: Seq<usize>,
    runs: Seq<UniqueVal>,
    vals: Seq<i64>,
)
    requires
        is_run_index(runs, vals),
        ascending(vals),
        is_break_set(u_val_breaks, u_val_breaks.len(), runs.len()),
    ensures
        cuts_between_values(normal_breaks_of(u_val_breaks, runs), vals),
{
    let nb = normal_breaks_of(u_val_breaks, runs);
    lemma_normal_breaks(u_val_breaks, runs, vals);
    assert forall|i: int| 0 <= i < nb.len() implies 1 <= #[trigger] nb[i] < vals.len() && vals[nb[i]
        - 1] < vals[nb[i] as int] by {
        let b = u_val_breaks[i] as int;
        assert(1 <= u_val_breaks[i] < runs.len());
        assert(1 <= nb[i] < vals.len());
        lemma_run_values_ascend(runs, vals, b - 1, b);
        assert(runs[b - 1].last + 1 == runs[b].first);
        let p = runs[b - 1].last as int;
        let q = runs[b].first as int;
        assert(runs[b - 1].first <= runs[b - 1].last);
        assert(runs[b].first <= runs[b].last);
        assert(vals[p] == runs[b - 1].val);
        assert(vals[q] == runs[b].val);
    }
}

} // verus!
