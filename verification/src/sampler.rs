use crate::error::ClassifyError;
use rand::rngs::StdRng;
use rand::{Rng, SeedableRng};
use vstd::prelude::*;

verus! {

/// The seeded generator of the `rand` crate. Nothing is known of what it
/// holds.
#[verifier::external_type_specification]
#[verifier::external_body]
pub struct ExStdRng(rand::rngs::StdRng);

/// The most draws that one break set may take.
pub const DRAW_LIMIT: u64 = 0xffff_ffff_ffff_ffff;

/// Calls `Rng::gen_range` of the `rand` crate on the range `1..num_vals`.
/// The call panics on an empty range, so `num_vals` is above 1. All that is
/// claimed of the result is that it lies in the range; which position comes
/// out depends on the generator's state.
#[verifier::external_body]
fn draw_position(rng: &mut StdRng, num_vals: usize) -> (position: usize)
    requires
        num_vals > 1,
    ensures
        1 <= position < num_vals,
{
    rng.gen_range(1..num_vals)
}

/// Calls `SeedableRng::seed_from_u64` of the `rand` crate for its `StdRng`.
/// Nothing is claimed of the generator that comes back.
#[verifier::external_body]
pub(crate) fn seeded_generator(seed: u64) -> (rng: StdRng) {
    StdRng::seed_from_u64(seed)
}

/// Each element is below the next.
pub open spec fn strictly_ascending(s: Seq<usize>) -> bool {
    forall|i: int, j: int| 0 <= i < j < s.len() ==> s[i] < s[j]
}

/// `s` is a set of `k` breaks over `n` positions: `k` different positions
/// from 1 to `n - 1`, in ascending order.
pub open spec fn is_break_set(s: Seq<usize>, k: nat, n: nat) -> bool {
    &&& s.len() == k
    &&& strictly_ascending(s)
    &&& forall|i: int| 0 <= i < s.len() ==> 1 <= #[trigger] s[i] < n
}

/// The ascending sequence `s` with `position` put in its place, or `s` itself
/// where it holds `position` already.
pub open spec fn with_break(s: Seq<usize>, position: usize) -> Seq<usize>
    decreases s.len(),
{
    if s.len() == 0 {
        seq![position]
    } else if s.last() < position {
        s.push(position)
    } else if s.last() == position {
        s
    } else {
        with_break(s.drop_last(), position).push(s.last())
    }
}

/// Putting a position into an ascending sequence keeps it ascending, adds
/// the position to what it holds and nothing else, and lengthens it by one
/// exactly when the position is new.
pub proof fn lemma_with_break(s: Seq<usize>, position: usize)
    requires
        strictly_ascending(s),
    ensures
        strictly_ascending(with_break(s, position)),
        forall|x: usize| with_break(s, position).contains(x) <==> s.contains(x) || x == position,
        with_break(s, position).len() == s.len() + if s.contains(position) {
            0int
        } else {
            1int
        },
        s.contains(position) ==> with_break(s, position) == s,
    decreases s.len(),
{
    let r = with_break(s, position);
    if s.len() == 0 {
        assert(r[0] == position);
    } else if s.last() < position {
        assert(r.last() == position);
        assert forall|x: usize| r.contains(x) <==> s.contains(x) || x == position by {
            if s.contains(x) {
                let k = choose|k: int| 0 <= k < s.len() && s[k] == x;
                assert(r[k] == x);
            }
        }
        if s.contains(position) {
            let k = choose|k: int| 0 <= k < s.len() && s[k] == position;
            assert(s[k] <= s[s.len() - 1]);
        }
    } else if s.last() == position {
        assert(s[s.len() - 1] == position);
    } else {
        let t = s.drop_last();
        assert(strictly_ascending(t)) by {
            assert forall|i: int, j: int| 0 <= i < j < t.len() implies t[i] < t[j] by {
                assert(t[i] == s[i] && t[j] == s[j]);
            }
        }
        lemma_with_break(t, position);
        let u = with_break(t, position);
        assert(r == u.push(s.last()));
        assert forall|x: usize| u.contains(x) implies x < s.last() by {
            if t.contains(x) {
                let k = choose|k: int| 0 <= k < t.len() && t[k] == x;
                assert(t[k] == s[k]);
            }
        }
        assert(strictly_ascending(r)) by {
            assert forall|i: int, j: int| 0 <= i < j < r.len() implies r[i] < r[j] by {
                if j < u.len() {
                    assert(r[i] == u[i] && r[j] == u[j]);
                } else {
                    assert(r[i] == u[i]);
                    assert(u.contains(u[i]));
                }
            }
        }
        assert forall|x: usize| r.contains(x) <==> s.contains(x) || x == position by {
            if r.contains(x) {
                let k = choose|k: int| 0 <= k < r.len() && r[k] == x;
                if k < u.len() {
                    assert(u[k] == x);
                    assert(u.contains(x));
                    if t.contains(x) {
                        let m = choose|m: int| 0 <= m < t.len() && t[m] == x;
                        assert(s[m] == x);
                    }
                } else {
                    assert(s[s.len() - 1] == x);
                }
            }
            if s.contains(x) {
                let k = choose|k: int| 0 <= k < s.len() && s[k] == x;
                if k < t.len() {
                    assert(t[k] == x);
                    assert(t.contains(x));
                    assert(u.contains(x));
                    let m = choose|m: int| 0 <= m < u.len() && u[m] == x;
                    assert(r[m] == x);
                } else {
                    assert(r[r.len() - 1] == x);
                }
            }
            if x == position {
                assert(u.contains(x));
                let m = choose|m: int| 0 <= m < u.len() && u[m] == x;
                assert(r[m] == x);
            }
        }
        if s.contains(position) {
            let k = choose|k: int| 0 <= k < s.len() && s[k] == position;
            assert(t[k] == position);
            assert(t.contains(position));
            assert(u == t);
            assert(r =~= s);
        } else {
            if t.contains(position) {
                let k = choose|k: int| 0 <= k < t.len() && t[k] == position;
                assert(s[k] == position);
            }
        }
    }
}

/// Puts `position` into the ascending `breaks` unless it is there already,
/// and says whether it was new.
pub fn insert_break(breaks: &mut Vec<usize>, position: usize) -> (added: bool)
    requires
        strictly_ascending(old(breaks)@),
    ensures
        final(breaks)@ == with_break(old(breaks)@, position),
        added == !old(breaks)@.contains(position),
{
    let n: usize = breaks.len();
    let mut at: usize = n;
    while at > 0 && breaks[at - 1] > position
        invariant
            at <= n,
            n == breaks.len(),
            breaks@ == old(breaks)@,
            forall|k: int| at <= k < n ==> breaks[k] > position,
        decreases at,
    {
        at -= 1;
    }
    proof {
        lemma_insert_at(breaks@, position, at as int);
    }
    if at > 0 && breaks[at - 1] == position {
        false
    } else {
        breaks.insert(at, position);
        true
    }
}

/// Where every element from `at` on is above `position` and the one before
/// `at`, if any, is not, `with_break` puts `position` at `at`, or leaves the
/// sequence alone when the element before `at` is `position`.
proof fn lemma_insert_at(s: Seq<usize>, position: usize, at: int)
    requires
        strictly_ascending(s),
        0 <= at <= s.len(),
        forall|k: int| at <= k < s.len() ==> s[k] > position,
        at > 0 ==> s[at - 1] <= position,
    ensures
        at > 0 && s[at - 1] == position ==> with_break(s, position) == s && s.contains(position),
        !(at > 0 && s[at - 1] == position) ==> with_break(s, position) == s.insert(at, position)
            && !s.contains(position),
    decreases s.len(),
{
    if s.len() == 0 {
        assert(seq![position] =~= s.insert(0, position));
    } else if at == s.len() {
        if s.last() < position {
            assert(s.push(position) =~= s.insert(at, position));
            assert forall|k: int| 0 <= k < s.len() implies s[k] != position by {
                assert(s[k] <= s[s.len() - 1]);
            }
        } else {
            assert(s[at - 1] == position);
        }
    } else {
        let t = s.drop_last();
        assert(strictly_ascending(t)) by {
            assert forall|i: int, j: int| 0 <= i < j < t.len() implies t[i] < t[j] by {
                assert(t[i] == s[i] && t[j] == s[j]);
            }
        }
        assert(s.last() > position);
        lemma_insert_at(t, position, at);
        if at > 0 && s[at - 1] == position {
            assert(t[at - 1] == position);
            assert(t.push(s.last()) =~= s);
        } else {
            assert(t.insert(at, position).push(s.last()) =~= s.insert(at, position));
            assert forall|k: int| 0 <= k < s.len() implies s[k] != position by {
                if k < t.len() {
                    assert(t[k] == s[k]);
                    assert(t.contains(t[k]));
                }
            }
        }
    }
}

/// The positions 1, 2, ..., `k`.
pub open spec fn first_positions(k: nat) -> Seq<usize> {
    Seq::new(k, |i: int| (i + 1) as usize)
}

/// Fills `breaks`, whose length says how many breaks are wanted, with that
/// many different positions from 1 to `num_vals - 1`, in ascending order.
///
/// Positions are drawn from `rng` one at a time and put into the set until it
/// is full; a position drawn twice counts once. After `max_draws` draws a set
/// that is still short is given up and the first positions are taken instead.
/// Where more breaks are wanted than there are positions, nothing is drawn,
/// `breaks` stays as it is and the call fails.
pub fn pick_rand_breaks_within(
    breaks: &mut Vec<usize>,
    num_vals: &usize,
    rng: &mut StdRng,
    max_draws: u64,
) -> (result: Result<(), ClassifyError>)
    ensures
        old(breaks)@.len() + 1 > *num_vals <==> result is Err,
        result matches Err(e) ==> e == ClassifyError::InvalidBinCount && final(breaks)@ == old(
            breaks,
        )@,
        result is Ok ==> is_break_set(
            final(breaks)@,
            old(breaks)@.len(),
            *num_vals as nat,
        ),
        result is Ok && max_draws < old(breaks)@.len() ==> final(breaks)@ == first_positions(
            old(breaks)@.len(),
        ),
{
    let k: usize = breaks.len();
    let n: usize = *num_vals;
    if n == 0 || k > n - 1 {
        return Err(ClassifyError::InvalidBinCount);
    }
    let mut chosen: Vec<usize> = Vec::new();
    let mut draws: u64 = 0;
    while chosen.len() < k && draws < max_draws
        invariant
            k < n,
            chosen.len() <= k,
            chosen.len() <= draws <= max_draws,
            strictly_ascending(chosen@),
            forall|i: int| 0 <= i < chosen.len() ==> 1 <= #[trigger] chosen[i] < n,
        decreases max_draws - draws,
    {
        let position: usize = draw_position(rng, n);
        let ghost before = chosen@;
        proof {
            lemma_with_break(before, position);
        }
        insert_break(&mut chosen, position);
        assert forall|i: int| 0 <= i < chosen.len() implies 1 <= #[trigger] chosen[i] < n by {
            assert(chosen@.contains(chosen[i]));
            if before.contains(chosen[i]) {
                let m = choose|m: int| 0 <= m < before.len() && before[m] == chosen[i];
                assert(1 <= before[m] < n);
            }
        }
        draws += 1;
    }
    if chosen.len() < k {
        chosen.clear();
        let mut i: usize = 0;
        while i < k
            invariant
                k < n,
                i <= k,
                chosen.len() == i,
                forall|j: int| 0 <= j < i ==> chosen[j] == j + 1,
            decreases k - i,
        {
            chosen.push(i + 1);
            i += 1;
        }
        assert(chosen@ =~= first_positions(k as nat));
    }
    *breaks = chosen;
    Ok(())
}

/// Fills `breaks`, whose length says how many breaks are wanted, with that
/// many different positions from 1 to `num_vals - 1`, drawn from `rng` and
/// put in ascending order. It takes at most `DRAW_LIMIT` draws, as
/// `pick_rand_breaks_within` says. Where more breaks are wanted than there
/// are positions, `breaks` stays as it is and the call fails.
pub fn pick_rand_breaks(breaks: &mut Vec<usize>, num_vals: &usize, rng: &mut StdRng) -> (result:
    Result<(), ClassifyError>)
    ensures
        old(breaks)@.len() + 1 > *num_vals <==> result is Err,
        result matches Err(e) ==> e == ClassifyError::InvalidBinCount && final(breaks)@ == old(
            breaks,
        )@,
        result is Ok ==> is_break_set(
            final(breaks)@,
            old(breaks)@.len(),
            *num_vals as nat,
        ),
{
    pick_rand_breaks_within(breaks, num_vals, rng, DRAW_LIMIT)
}

} // verus!
