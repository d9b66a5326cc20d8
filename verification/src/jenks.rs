use crate::error::ClassifyError;
use crate::sampler::{is_break_set, pick_rand_breaks, seeded_generator};
use crate::utilities::{
    ascending, bins_of, breaks_to_classification, create_unique_val_mapping, cuts_between_values,
    is_run_index, lemma_normal_breaks, lemma_normal_breaks_cut_between_values, lemma_run_count,
    strictly_increasing, unique_to_normal_breaks, Classification, UniqueVal,
};
use rand::rngs::StdRng;
use vstd::prelude::*;

verus! {

/// The effort of a search: about this many sample values are looked at over
/// all its trials.
pub const SEARCH_EFFORT: usize = 44_000_000;

/// The fewest trials a search makes.
pub const MIN_TRIALS: usize = 10;

/// The most trials a search makes.
pub const MAX_TRIALS: usize = 10_000;

/// The seed of the generator that a search takes unless it is given another.
pub const REFERENCE_SEED: u64 = 123_456_789;

/// Calls `sort` of std's slices on the vector. std documents that it sorts
/// the slice in ascending order; that the sorted slice holds the values it
/// held before, each as often, is what sorting means.
#[verifier::external_body]
fn sort_keys(keys: &mut Vec<i64>)
    ensures
        ascending(final(keys)@),
        final(keys)@.to_multiset() == old(keys)@.to_multiset(),
{
    keys.sort();
}

/// The number of trials for a sample of `num_samples` values: the search
/// effort divided by the sample's size, but never under `MIN_TRIALS` nor over
/// `MAX_TRIALS`.
pub open spec fn trials_for(num_samples: nat) -> nat {
    let share = SEARCH_EFFORT as nat / num_samples;
    if share < MIN_TRIALS {
        MIN_TRIALS as nat
    } else if share > MAX_TRIALS {
        MAX_TRIALS as nat
    } else {
        share
    }
}

/// The number of trials that a search makes on a sample of `num_samples`
/// values.
pub fn trial_count(num_samples: usize) -> (trials: usize)
    requires
        num_samples > 0,
    ensures
        trials == trials_for(num_samples as nat),
        MIN_TRIALS <= trials <= MAX_TRIALS,
{
    let share: usize = SEARCH_EFFORT / num_samples;
    if share < MIN_TRIALS {
        MIN_TRIALS
    } else if share > MAX_TRIALS {
        MAX_TRIALS
    } else {
        share
    }
}

/// The segments that `breaks` cut the positions `0..num_vals` into, each as
/// its first position and the position after its last: one more than there
/// are breaks, the first from 0, the last up to `num_vals`, each other bound a
/// break.
pub open spec fn segments_of(breaks: Seq<usize>, num_vals: usize) -> Seq<(usize, usize)> {
    Seq::new(
        breaks.len() + 1,
        |i: int|
            (
                if i == 0 {
                    0usize
                } else {
                    breaks[i - 1]
                },
                if i == breaks.len() {
                    num_vals
                } else {
                    breaks[i]
                },
            ),
    )
}

/// The segments that `breaks` cut a sample of `num_vals` values into.
pub fn break_segments(breaks: &Vec<usize>, num_vals: usize) -> (segments: Vec<(usize, usize)>)
    ensures
        segments@ == segments_of(breaks@, num_vals),
{
    let mut segments: Vec<(usize, usize)> = Vec::new();
    let mut lower: usize = 0;
    let mut i: usize = 0;
    while i < breaks.len()
        invariant
            i <= breaks.len(),
            segments.len() == i,
            lower == if i == 0 {
                0usize
            } else {
                breaks[i - 1]
            },
            forall|k: int| 0 <= k < i ==> segments[k] == segments_of(breaks@, num_vals)[k],
        decreases breaks.len() - i,
    {
        segments.push((lower, breaks[i]));
        lower = breaks[i];
        i += 1;
    }
    segments.push((lower, num_vals));
    assert(segments@ =~= segments_of(breaks@, num_vals));
    segments
}

/// The segments of a break set over a sample that is not empty lie end to
/// end from position 0 to the end of the sample, and none of them is empty.
pub proof fn lemma_segments_partition(breaks: Seq<usize>, num_vals: usize)
    requires
        num_vals > 0,
        is_break_set(breaks, breaks.len(), num_vals as nat),
    ensures
        segments_of(breaks, num_vals).len() == breaks.len() + 1,
        segments_of(breaks, num_vals)[0].0 == 0,
        segments_of(breaks, num_vals).last().1 == num_vals,
        forall|i: int|
            0 <= i < breaks.len() ==> (#[trigger] segments_of(breaks, num_vals)[i]).1
                == segments_of(breaks, num_vals)[i + 1].0,
        forall|i: int|
            0 <= i <= breaks.len() ==> (#[trigger] segments_of(breaks, num_vals)[i]).0
                < segments_of(breaks, num_vals)[i].1,
{
    let segs = segments_of(breaks, num_vals);
    assert forall|i: int| 0 <= i <= breaks.len() implies (#[trigger] segs[i]).0 < segs[i].1 by {
        if 0 < i < breaks.len() {
            assert(breaks[i - 1] < breaks[i]);
        } else if i == 0 && i < breaks.len() {
            assert(1 <= breaks[0]);
        } else if i == breaks.len() && i > 0 {
            assert(breaks[i - 1] < num_vals);
        }
    }
}

/// The number of breaks that a search for `num_bins` bins finds in `data`:
/// one less than the number of bins, which is never above the number of
/// different values; none where that leaves a single bin or no bin at all.
pub open spec fn break_count(num_bins: nat, data: Seq<i64>) -> nat {
    let distinct = data.to_set().len();
    let bins = if num_bins <= distinct {
        num_bins
    } else {
        distinct
    };
    if bins >= 1 {
        (bins - 1) as nat
    } else {
        0
    }
}

/// The number of trials of a search for `num_breaks` breaks on `num_samples`
/// values: none where there is nothing to search for.
pub open spec fn search_trials(num_breaks: nat, num_samples: nat) -> nat {
    if num_breaks == 0 {
        0
    } else {
        trials_for(num_samples)
    }
}

/// The best of the scored candidates: the one with the greatest score, and
/// of several with that score the one that was scored first.
pub open spec fn first_best(history: Seq<(Seq<usize>, i64)>) -> Option<(Seq<usize>, i64)>
    decreases history.len(),
{
    if history.len() == 0 {
        None
    } else {
        match first_best(history.drop_last()) {
            Some(best) => if history.last().1 > best.1 {
                Some(history.last())
            } else {
                Some(best)
            },
            None => Some(history.last()),
        }
    }
}

/// The values of the sample at the positions `breaks`.
pub open spec fn break_values_of(breaks: Seq<usize>, sample: Seq<i64>) -> Seq<i64> {
    Seq::new(breaks.len(), |i: int| sample[breaks[i] as int])
}

/// `positions` is a candidate of a search for `num_breaks` breaks in
/// `sample`: a break set over the positions of the sample, each break a cut
/// between two different values.
pub open spec fn is_candidate(positions: Seq<usize>, num_breaks: nat, sample: Seq<i64>) -> bool {
    is_break_set(positions, num_breaks, sample.len()) && cuts_between_values(positions, sample)
}

/// `values` are the break values of some candidate of a search for
/// `num_breaks` breaks in `data`: the values that the data, put in ascending
/// order, holds at the breaks of the candidate.
pub open spec fn is_break_values(values: Seq<i64>, num_breaks: nat, data: Seq<i64>) -> bool {
    exists|positions: Seq<usize>, sample: Seq<i64>|
        ascending(sample) && sample.to_multiset() == data.to_multiset() && #[trigger] is_candidate(
            positions,
            num_breaks,
            sample,
        ) && values == break_values_of(positions, sample)
}

/// `fit` may give `score` to the candidate `positions` of `sample`.
pub open spec fn scored_by<F: Fn(&Vec<usize>, &Vec<i64>) -> i64>(
    fit: F,
    positions: Seq<usize>,
    sample: Seq<i64>,
    score: i64,
) -> bool {
    exists|candidate: &Vec<usize>, sorted: &Vec<i64>|
        candidate@ == positions && sorted@ == sample && #[trigger] fit.ensures(
            (candidate, sorted),
            score,
        )
}

/// `history` is what a whole search for `num_breaks` breaks in `sample`
/// leaves behind: one entry for each of its trials, each a candidate with a
/// score that `fit` gave it.
pub open spec fn is_search_record<F: Fn(&Vec<usize>, &Vec<i64>) -> i64>(
    fit: F,
    history: Seq<(Seq<usize>, i64)>,
    num_breaks: nat,
    sample: Seq<i64>,
) -> bool {
    &&& history.len() == search_trials(num_breaks, sample.len())
    &&& forall|i: int|
        0 <= i < history.len() ==> is_candidate((#[trigger] history[i]).0, num_breaks, sample)
            && scored_by(fit, history[i].0, sample, history[i].1)
}

/// The breaks of the best of the scored candidates; none where nothing was
/// scored.
pub open spec fn kept_breaks(history: Seq<(Seq<usize>, i64)>) -> Seq<usize> {
    match first_best(history) {
        Some(best) => best.0,
        None => Seq::empty(),
    }
}

/// `breaks` are what a search for `num_bins` bins in `data` with the scores
/// of `fit` may return: the values, in the data put in ascending order, at the
/// breaks of the best candidate of some whole search.
pub open spec fn is_search_result<F: Fn(&Vec<usize>, &Vec<i64>) -> i64>(
    fit: F,
    breaks: Seq<i64>,
    num_bins: nat,
    data: Seq<i64>,
) -> bool {
    exists|history: Seq<(Seq<usize>, i64)>, sample: Seq<i64>|
        ascending(sample) && sample.to_multiset() == data.to_multiset() && #[trigger] is_search_record(
            fit,
            history,
            break_count(num_bins, data),
            sample,
        ) && breaks == break_values_of(kept_breaks(history), sample)
}

/// A search for natural breaks. It hands out one candidate break set per
/// trial, takes the score that the caller gives the candidate, and keeps the
/// best-scoring candidate.
pub struct JenksSearch {
    sorted: Vec<i64>,
    unique_val_map: Vec<UniqueVal>,
    num_breaks: usize,
    trials_left: usize,
    rng: StdRng,
    pending: Option<Vec<usize>>,
    has_best: bool,
    best_breaks: Vec<usize>,
    best_score: i64,
    history: Ghost<Seq<(Seq<usize>, i64)>>,
}

/// A copy of `breaks`.
fn copy_breaks(breaks: &Vec<usize>) -> (copy: Vec<usize>)
    ensures
        copy@ == breaks@,
{
    let mut copy: Vec<usize> = Vec::new();
    let mut i: usize = 0;
    while i < breaks.len()
        invariant
            i <= breaks.len(),
            copy@ == breaks@.take(i as int),
        decreases breaks.len() - i,
    {
        copy.push(breaks[i]);
        assert(breaks@.take(i + 1) == breaks@.take(i as int).push(breaks[i as int]));
        i += 1;
    }
    assert(breaks@.take(i as int) == breaks@);
    copy
}

impl JenksSearch {
    /// The sample that is searched: the data in ascending order.
    pub closed spec fn sample(&self) -> Seq<i64> {
        self.sorted@
    }

    /// The number of breaks in every candidate.
    pub closed spec fn num_breaks(&self) -> nat {
        self.num_breaks as nat
    }

    /// The number of trials that have not been scored yet.
    pub closed spec fn trials_left(&self) -> nat {
        self.trials_left as nat
    }

    /// The candidate that was handed out and awaits its score.
    pub closed spec fn pending(&self) -> Option<Seq<usize>> {
        match self.pending {
            Some(candidate) => Some(candidate@),
            None => None,
        }
    }

    /// The candidates scored so far, each with its score, in the order in
    /// which they were scored.
    pub closed spec fn history(&self) -> Seq<(Seq<usize>, i64)> {
        self.history@
    }

    /// The candidate that is kept, with its score.
    pub closed spec fn best(&self) -> Option<(Seq<usize>, i64)> {
        if self.has_best {
            Some((self.best_breaks@, self.best_score))
        } else {
            None
        }
    }

    /// The breaks of the candidate that is kept; none before the first score.
    pub open spec fn best_breaks(&self) -> Seq<usize> {
        match self.best() {
            Some(best) => best.0,
            None => Seq::empty(),
        }
    }

    /// What holds of every search between two calls.
    pub closed spec fn wf(&self) -> bool {
        &&& ascending(self.sorted@)
        &&& is_run_index(self.unique_val_map@, self.sorted@)
        &&& self.num_breaks == 0 || self.num_breaks < self.unique_val_map.len()
        &&& self.history@.len() + self.trials_left == search_trials(
            self.num_breaks as nat,
            self.sorted@.len(),
        )
        &&& self.pending matches Some(candidate) ==> self.trials_left > 0 && is_candidate(
            candidate@,
            self.num_breaks as nat,
            self.sorted@,
        )
        &&& self.has_best <==> self.history@.len() > 0
        &&& self.has_best ==> is_candidate(
            self.best_breaks@,
            self.num_breaks as nat,
            self.sorted@,
        )
        &&& !self.has_best ==> self.best_breaks@.len() == 0
        &&& self.best() == first_best(self.history@)
    }

    /// Prepares a search for `num_bins` bins in `data`, with a generator
    /// seeded by `seed`. The search looks for one break less than there are
    /// bins, and for no more bins than `data` has different values.
    pub fn new(num_bins: usize, data: &Vec<i64>, seed: u64) -> (search: JenksSearch)
        ensures
            search.wf(),
            ascending(search.sample()),
            search.sample().to_multiset() == data@.to_multiset(),
            search.num_breaks() == break_count(num_bins as nat, data@),
            search.trials_left() == search_trials(search.num_breaks(), data@.len()),
            search.sample().len() == data@.len(),
            search.pending() is None,
            search.history() == Seq::<(Seq<usize>, i64)>::empty(),
            search.best() is None,
    {
        let mut sorted: Vec<i64> = Vec::new();
        let mut i: usize = 0;
        while i < data.len()
            invariant
                i <= data.len(),
                sorted@ == data@.take(i as int),
            decreases data.len() - i,
        {
            sorted.push(data[i]);
            assert(data@.take(i + 1) == data@.take(i as int).push(data[i as int]));
            i += 1;
        }
        assert(data@.take(i as int) == data@);
        sort_keys(&mut sorted);
        let mut unique_val_map: Vec<UniqueVal> = Vec::new();
        create_unique_val_mapping(&mut unique_val_map, &sorted);
        let num_unique_vals: usize = unique_val_map.len();
        proof {
            lemma_run_count(unique_val_map@, sorted@);
            lemma_same_values(sorted@, data@);
            sorted@.to_multiset_ensures();
            data@.to_multiset_ensures();
        }
        let true_num_bins: usize = if num_unique_vals <= num_bins {
            num_unique_vals
        } else {
            num_bins
        };
        let num_breaks: usize = if true_num_bins >= 1 {
            true_num_bins - 1
        } else {
            0
        };
        let trials: usize = if num_breaks == 0 {
            0
        } else {
            trial_count(sorted.len())
        };
        JenksSearch {
            sorted,
            unique_val_map,
            num_breaks,
            trials_left: trials,
            rng: seeded_generator(seed),
            pending: None,
            has_best: false,
            best_breaks: Vec::new(),
            best_score: 0,
            history: Ghost(Seq::empty()),
        }
    }
}

impl JenksSearch {
    /// The sample that is searched, in ascending order.
    pub fn sorted_data(&self) -> (sorted: &Vec<i64>)
        ensures
            sorted@ == self.sample(),
    {
        &self.sorted
    }

    /// Whether every trial has been scored.
    pub fn is_finished(&self) -> (finished: bool)
        ensures
            finished == (self.trials_left() == 0),
    {
        self.trials_left == 0
    }

    /// The candidate of the next trial: a break set over the positions of the
    /// sample, each break at the first occurrence of a value. A candidate that
    /// still awaits its score is handed out again. There is no candidate once
    /// every trial has been scored.
    pub fn next_candidate(&mut self) -> (candidate: Option<Vec<usize>>)
        requires
            old(self).wf(),
        ensures
            final(self).wf(),
            final(self).sample() == old(self).sample(),
            final(self).num_breaks() == old(self).num_breaks(),
            final(self).trials_left() == old(self).trials_left(),
            final(self).history() == old(self).history(),
            final(self).best() == old(self).best(),
            candidate is None <==> old(self).trials_left() == 0,
            candidate is None ==> final(self).pending() == old(self).pending(),
            candidate matches Some(breaks) ==> final(self).pending() == Some(breaks@)
                && is_candidate(breaks@, old(self).num_breaks(), old(self).sample()),
            old(self).pending() is Some && old(self).trials_left() > 0 ==> final(self).pending()
                == old(self).pending(),
    {
        if self.trials_left == 0 {
            return None;
        }
        if self.pending.is_none() {
            let mut unique_rand_breaks: Vec<usize> = Vec::new();
            let mut i: usize = 0;
            while i < self.num_breaks
                invariant
                    i <= self.num_breaks,
                    unique_rand_breaks.len() == i,
                decreases self.num_breaks - i,
            {
                unique_rand_breaks.push(0);
                i += 1;
            }
            let num_unique_vals: usize = self.unique_val_map.len();
            let picked = pick_rand_breaks(
                &mut unique_rand_breaks,
                &num_unique_vals,
                &mut self.rng,
            );
            assert(picked is Ok);
            let mut rand_breaks: Vec<usize> = Vec::new();
            unique_to_normal_breaks(&unique_rand_breaks, &self.unique_val_map, &mut rand_breaks);
            proof {
                lemma_normal_breaks(unique_rand_breaks@, self.unique_val_map@, self.sorted@);
                lemma_normal_breaks_cut_between_values(
                    unique_rand_breaks@,
                    self.unique_val_map@,
                    self.sorted@,
                );
            }
            self.pending = Some(rand_breaks);
        }
        match &self.pending {
            Some(breaks) => Some(copy_breaks(breaks)),
            None => None,
        }
    }

    /// Takes the score of the candidate that was handed out last: the
    /// candidate is kept if it is the first to be scored or if its score is
    /// above the score of the candidate kept so far, and the trial is over.
    /// Without a candidate that awaits its score nothing changes. Says
    /// whether the candidate was kept.
    pub fn record(&mut self, score: i64) -> (kept: bool)
        requires
            old(self).wf(),
        ensures
            final(self).wf(),
            final(self).sample() == old(self).sample(),
            final(self).num_breaks() == old(self).num_breaks(),
            final(self).pending() is None,
            final(self).best() == first_best(final(self).history()),
            old(self).pending() matches Some(candidate) ==> {
                &&& final(self).history() == old(self).history().push((candidate, score))
                &&& final(self).trials_left() == old(self).trials_left() - 1
                &&& kept == match old(self).best() {
                    Some(best) => score > best.1,
                    None => true,
                }
            },
            old(self).pending() is None ==> {
                &&& final(self).history() == old(self).history()
                &&& final(self).trials_left() == old(self).trials_left()
                &&& !kept
            },
    {
        match self.pending.take() {
            Some(candidate) => {
                proof {
                    let ghost next = self.history@.push((candidate@, score));
                    assert(next.drop_last() =~= self.history@);
                    self.history@ = next;
                }
                self.trials_left = self.trials_left - 1;
                if !self.has_best || score > self.best_score {
                    self.has_best = true;
                    self.best_breaks = candidate;
                    self.best_score = score;
                    true
                } else {
                    false
                }
            },
            None => false,
        }
    }

    /// The values of the sample at the breaks of the candidate that is kept.
    /// Once every trial has been scored there are as many as the search was
    /// made for.
    pub fn break_values(&self) -> (values: Vec<i64>)
        requires
            self.wf(),
        ensures
            values@ == break_values_of(self.best_breaks(), self.sample()),
            self.trials_left() == 0 ==> values@.len() == self.num_breaks() && is_candidate(
                self.best_breaks(),
                self.num_breaks(),
                self.sample(),
            ),
    {
        let mut values: Vec<i64> = Vec::new();
        let mut i: usize = 0;
        while i < self.best_breaks.len()
            invariant
                self.wf(),
                i <= self.best_breaks.len(),
                values.len() == i,
                forall|k: int|
                    0 <= k < i ==> values[k] == self.sorted[self.best_breaks[k] as int],
            decreases self.best_breaks.len() - i,
        {
            assert(self.has_best);
            assert(1 <= self.best_breaks@[i as int] < self.sorted@.len());
            values.push(self.sorted[self.best_breaks[i]]);
            i += 1;
        }
        assert(values@ =~= break_values_of(self.best_breaks(), self.sample()));
        values
    }
}

/// The candidate that a search keeps is one of the scored candidates, none
/// of them has a greater score, and every one scored before it has a smaller
/// score: of several candidates with the greatest score the first is kept.
pub proof fn lemma_first_best(history: Seq<(Seq<usize>, i64)>) -> (at: int)
    requires
        history.len() > 0,
    ensures
        0 <= at < history.len(),
        first_best(history) == Some(history[at]),
        forall|j: int| 0 <= j < history.len() ==> history[j].1 <= history[at].1,
        forall|j: int| 0 <= j < at ==> history[j].1 < history[at].1,
    decreases history.len(),
{
    let earlier = history.drop_last();
    if earlier.len() == 0 {
        0
    } else {
        let before = lemma_first_best(earlier);
        assert(earlier[before] == history[before]);
        assert forall|j: int| 0 <= j < earlier.len() implies history[j].1
            <= history[before].1 by {
            assert(earlier[j] == history[j]);
        }
        assert forall|j: int| 0 <= j < before implies history[j].1 < history[before].1 by {
            assert(earlier[j] == history[j]);
        }
        if history.last().1 > history[before].1 {
            history.len() - 1
        } else {
            before
        }
    }
}

/// Break values are as many as the search was made for, each is above the one
/// before it, and each is a value of the data.
pub proof fn lemma_break_values(values: Seq<i64>, num_breaks: nat, data: Seq<i64>)
    requires
        is_break_values(values, num_breaks, data),
    ensures
        values.len() == num_breaks,
        strictly_increasing(values),
        forall|i: int| 0 <= i < values.len() ==> data.contains(#[trigger] values[i]),
{
    let (positions, sample) = choose|positions: Seq<usize>, sample: Seq<i64>|
        ascending(sample) && sample.to_multiset() == data.to_multiset() && #[trigger] is_candidate(
            positions,
            num_breaks,
            sample,
        ) && values == break_values_of(positions, sample);
    assert forall|i: int, j: int| 0 <= i < j < values.len() implies values[i] < values[j] by {
        assert(positions[i] < positions[j]);
        assert(1 <= positions[j] < sample.len());
        assert(sample[positions[i] as int] <= sample[positions[j] - 1]);
    }
    sample.to_multiset_ensures();
    data.to_multiset_ensures();
    assert forall|i: int| 0 <= i < values.len() implies data.contains(#[trigger] values[i]) by {
        assert(1 <= positions[i] < sample.len());
        assert(sample.contains(sample[positions[i] as int]));
        assert(sample.to_multiset().count(values[i]) > 0);
    }
}

/// Searches `data` for the breaks of `num_bins` natural bins, with a
/// generator seeded by `seed`. Every trial draws a candidate, and `fit` gives
/// it a score from the candidate's breaks and the sample in ascending order;
/// the breaks of the best-scoring candidate are returned as values of the
/// data. Data with fewer than two different values, and a search for fewer
/// than two bins, give no break.
pub fn get_jenks_breaks_seeded<F: Fn(&Vec<usize>, &Vec<i64>) -> i64>(
    num_bins: &usize,
    data: &Vec<i64>,
    seed: u64,
    fit: F,
) -> (breaks: Vec<i64>)
    requires
        forall|candidate: &Vec<usize>, sample: &Vec<i64>|
            ascending(sample@) && sample@.to_multiset() == data@.to_multiset() && is_candidate(
                candidate@,
                break_count(*num_bins as nat, data@),
                sample@,
            ) ==> #[trigger] fit.requires((candidate, sample)),
    ensures
        breaks@.len() == break_count(*num_bins as nat, data@),
        is_break_values(breaks@, break_count(*num_bins as nat, data@), data@),
        is_search_result(fit, breaks@, *num_bins as nat, data@),
{
    let mut search = JenksSearch::new(*num_bins, data, seed);
    proof {
        lemma_same_values(search.sample(), data@);
    }
    while !search.is_finished()
        invariant
            search.wf(),
            ascending(search.sample()),
            search.sample().to_multiset() == data@.to_multiset(),
            search.num_breaks() == break_count(*num_bins as nat, data@),
            search.best() == first_best(search.history()),
            search.history().len() + search.trials_left() == search_trials(
                search.num_breaks(),
                search.sample().len(),
            ),
            forall|i: int|
                0 <= i < search.history().len() ==> is_candidate(
                    (#[trigger] search.history()[i]).0,
                    search.num_breaks(),
                    search.sample(),
                ) && scored_by(fit, search.history()[i].0, search.sample(), search.history()[i].1),
            forall|candidate: &Vec<usize>, sample: &Vec<i64>|
                ascending(sample@) && sample@.to_multiset() == data@.to_multiset() && is_candidate(
                    candidate@,
                    break_count(*num_bins as nat, data@),
                    sample@,
                ) ==> #[trigger] fit.requires((candidate, sample)),
        decreases search.trials_left(),
    {
        let ghost scored = search.history();
        match search.next_candidate() {
            Some(candidate) => {
                let score: i64 = fit(&candidate, search.sorted_data());
                search.record(score);
                assert forall|i: int| 0 <= i < search.history().len() implies is_candidate(
                    (#[trigger] search.history()[i]).0,
                    search.num_breaks(),
                    search.sample(),
                ) && scored_by(
                    fit,
                    search.history()[i].0,
                    search.sample(),
                    search.history()[i].1,
                ) by {
                    if i < scored.len() {
                        assert(search.history()[i] == scored[i]);
                    } else {
                        assert(search.history()[i] == (candidate@, score));
                    }
                }
            },
            None => {},
        }
    }
    let breaks = search.break_values();
    assert(is_candidate(search.best_breaks(), search.num_breaks(), search.sample()));
    assert(search.best_breaks() == kept_breaks(search.history()));
    assert(is_search_record(
        fit,
        search.history(),
        break_count(*num_bins as nat, data@),
        search.sample(),
    ));
    breaks
}

/// Searches `data` for the breaks of `num_bins` natural bins as
/// `get_jenks_breaks_seeded` does, with the generator seeded by
/// `REFERENCE_SEED`.
pub fn get_jenks_breaks<F: Fn(&Vec<usize>, &Vec<i64>) -> i64>(
    num_bins: &usize,
    data: &Vec<i64>,
    fit: F,
) -> (breaks: Vec<i64>)
    requires
        forall|candidate: &Vec<usize>, sample: &Vec<i64>|
            ascending(sample@) && sample@.to_multiset() == data@.to_multiset() && is_candidate(
                candidate@,
                break_count(*num_bins as nat, data@),
                sample@,
            ) ==> #[trigger] fit.requires((candidate, sample)),
    ensures
        breaks@.len() == break_count(*num_bins as nat, data@),
        is_break_values(breaks@, break_count(*num_bins as nat, data@), data@),
        is_search_result(fit, breaks@, *num_bins as nat, data@),
{
    get_jenks_breaks_seeded(num_bins, data, REFERENCE_SEED, fit)
}

/// Searches `data` for the breaks of `num_bins` natural bins and cuts the
/// data into the bins between them. Data without values is turned down.
pub fn get_jenks_classification<F: Fn(&Vec<usize>, &Vec<i64>) -> i64>(
    num_bins: &usize,
    data: &Vec<i64>,
    fit: F,
) -> (result: Result<Classification, ClassifyError>)
    requires
        forall|candidate: &Vec<usize>, sample: &Vec<i64>|
            ascending(sample@) && sample@.to_multiset() == data@.to_multiset() && is_candidate(
                candidate@,
                break_count(*num_bins as nat, data@),
                sample@,
            ) ==> #[trigger] fit.requires((candidate, sample)),
    ensures
        data.len() == 0 <==> result is Err,
        result matches Err(e) ==> e == ClassifyError::EmptyDataset,
        result matches Ok(c) ==> exists|breaks: Seq<i64>| #[trigger]
            is_search_result(fit, breaks, *num_bins as nat, data@) && is_break_values(
                breaks,
                break_count(*num_bins as nat, data@),
                data@,
            ) && c@ == bins_of(breaks, data@),
{
    let breaks: Vec<i64> = get_jenks_breaks(num_bins, data, fit);
    breaks_to_classification(&breaks, data)
}

/// Two sequences that hold the same values as often hold the same set of
/// values.
proof fn lemma_same_values(a: Seq<i64>, b: Seq<i64>)
    requires
        a.to_multiset() == b.to_multiset(),
    ensures
        a.to_set() == b.to_set(),
        a.len() == b.len(),
{
    a.to_multiset_ensures();
    b.to_multiset_ensures();
    assert forall|x: i64| a.contains(x) <==> b.contains(x) by {
        assert(a.contains(x) <==> a.to_multiset().count(x) > 0);
        assert(b.contains(x) <==> b.to_multiset().count(x) > 0);
    }
    assert(a.to_set() =~= b.to_set());
}

} // verus!
