//! The choice of the variable to branch on. Every choice is drawn from a
//! stream of pseudo-random values that is fixed by a seed, so that a search
//! can be repeated.

use crate::expression::expression::{Assignment, VariableId};
use crate::solver::model::{DecisionStream, SearchSettings};
use rand::rngs::StdRng;
use rand::{Rng, SeedableRng};
use vstd::prelude::*;

verus! {

broadcast use vstd::std_specs::hash::group_hash_axioms;

/// How often a variable is drawn at random before the open variables are
/// listed.
pub const SAMPLE_TRIES: u32 = 32;

/// The value that `rand`'s standard generator yields first for the range
/// from `0` to `bound`, once it has been seeded with `key`.
pub uninterp spec fn drawn_value(key: u64, bound: u16) -> u16;

/// Calls `StdRng::seed_from_u64(key)` of `rand` and, on the generator that
/// it returns, `Rng::gen_range(0..=bound)`. The contract claims two things.
/// The value is a function of `key` and `bound` alone: the seed is spread
/// by a fixed recurrence, the generator is a ChaCha cipher keyed by it, and
/// the range is sampled from the cipher's output by integer arithmetic of
/// fixed width. And the value lies in the range, which `gen_range` promises
/// of every range that is not empty, as this one never is.
#[verifier::external_body]
fn seeded_draw(key: u64, bound: u16) -> (value: u16)
    ensures
        value == drawn_value(key, bound),
        value <= bound,
{
    StdRng::seed_from_u64(key).gen_range(0..=bound)
}

/// Calls `rand::thread_rng()`, the generator of the current thread that the
/// system seeds, and `Rng::gen` on it. The contract claims nothing of the
/// value.
#[verifier::external_body]
fn entropy_seed() -> u64 {
    rand::thread_rng().gen::<u64>()
}

/// The drawn value, kept within its bound.
pub open spec fn bounded_draw(key: u64, bound: u16) -> u16 {
    if drawn_value(key, bound) <= bound {
        drawn_value(key, bound)
    } else {
        bound
    }
}

/// The key of the draw that follows `draws` earlier ones.
pub open spec fn stream_key(seed: u64, draws: u64) -> u64 {
    seed.wrapping_add(draws)
}

/// The variable identifiers below `n` that `m` leaves open, in rising order.
pub open spec fn open_ids(m: Map<VariableId, bool>, n: int) -> Seq<VariableId>
    decreases n,
{
    if n <= 0 {
        Seq::empty()
    } else if m.contains_key((n - 1) as VariableId) {
        open_ids(m, n - 1)
    } else {
        open_ids(m, n - 1).push((n - 1) as VariableId)
    }
}

/// Up to `tries` draws of a variable, until one is open: the variable, if
/// one was found, and the number of draws made by then.
pub open spec fn sample_open(
    m: Map<VariableId, bool>,
    settings: SearchSettings,
    draws: u64,
    tries: nat,
) -> (Option<VariableId>, u64)
    decreases tries,
{
    if tries == 0 {
        (None, draws)
    } else {
        let v = bounded_draw(stream_key(settings.seed, draws), settings.max_id);
        if !m.contains_key(v) {
            (Some(v), draws.wrapping_add(1))
        } else {
            sample_open(m, settings, draws.wrapping_add(1), (tries - 1) as nat)
        }
    }
}

/// One draw among the open variables up to the largest identifier, if
/// there are any.
pub open spec fn pick_open(m: Map<VariableId, bool>, settings: SearchSettings, draws: u64) -> (
    Option<VariableId>,
    u64,
) {
    let ids = open_ids(m, settings.max_id + 1);
    if ids.len() == 0 {
        (None, draws)
    } else {
        let at = bounded_draw(stream_key(settings.seed, draws), (ids.len() - 1) as u16);
        (Some(ids[at as int]), draws.wrapping_add(1))
    }
}

/// The variable to branch on, and the number of draws made by then. While
/// fewer than half of the variables are assigned, a variable is drawn until
/// an open one comes; else, and after [`SAMPLE_TRIES`] draws in vain, one of
/// the open variables is drawn.
pub open spec fn decide(m: Map<VariableId, bool>, settings: SearchSettings, draws: u64) -> (
    Option<VariableId>,
    u64,
) {
    if m.len() < settings.max_id / 2 {
        let sampled = sample_open(m, settings, draws, SAMPLE_TRIES as nat);
        if sampled.0 is Some {
            sampled
        } else {
            pick_open(m, settings, sampled.1)
        }
    } else {
        pick_open(m, settings, draws)
    }
}

/// The open identifiers below `n` are exactly those below `n` that `m` does
/// not hold.
pub proof fn lemma_open_ids(m: Map<VariableId, bool>, n: int)
    requires
        0 <= n <= 65536,
    ensures
        open_ids(m, n).len() <= n,
        forall|i: int|
            0 <= i < open_ids(m, n).len() ==> (#[trigger] open_ids(m, n)[i]) < n
                && !m.contains_key(open_ids(m, n)[i]),
        forall|v: VariableId| v < n && !m.contains_key(v) ==> open_ids(m, n).contains(v),
    decreases n,
{
    if n > 0 {
        lemma_open_ids(m, n - 1);
        let shorter = open_ids(m, n - 1);
        let last = (n - 1) as VariableId;
        assert forall|v: VariableId| v < n && !m.contains_key(v) implies open_ids(
            m,
            n,
        ).contains(v) by {
            if v == last {
                assert(open_ids(m, n)[shorter.len() as int] == v);
            } else {
                let i = choose|i: int| 0 <= i < shorter.len() && shorter[i] == v;
                assert(open_ids(m, n)[i] == v);
            }
        }
    }
}

/// A sampled variable is open and no larger than the largest identifier.
pub proof fn lemma_sample_open(
    m: Map<VariableId, bool>,
    settings: SearchSettings,
    draws: u64,
    tries: nat,
)
    ensures
        sample_open(m, settings, draws, tries).0 matches Some(v) ==> !m.contains_key(v) && v
            <= settings.max_id,
    decreases tries,
{
    if tries > 0 {
        lemma_sample_open(m, settings, draws.wrapping_add(1), (tries - 1) as nat);
    }
}

/// A decision picks an open variable no larger than the largest identifier,
/// and it picks one whenever there is one.
pub proof fn lemma_decide(m: Map<VariableId, bool>, settings: SearchSettings, draws: u64)
    ensures
        decide(m, settings, draws).0 matches Some(v) ==> !m.contains_key(v) && v
            <= settings.max_id,
        decide(m, settings, draws).0 is None ==> forall|v: VariableId|
            v <= settings.max_id ==> m.contains_key(v),
{
    lemma_open_ids(m, settings.max_id + 1);
    lemma_sample_open(m, settings, draws, SAMPLE_TRIES as nat);
    let sampled = sample_open(m, settings, draws, SAMPLE_TRIES as nat);
    let ids = open_ids(m, settings.max_id + 1);
    if decide(m, settings, draws).0 is None {
        assert forall|v: VariableId| v <= settings.max_id implies m.contains_key(v) by {
            if !m.contains_key(v) {
                assert(ids.contains(v));
            }
        }
    }
}

impl DecisionStream {
    /// The start of a stream, with the given number of decisions to spend.
    pub fn new(budget: Option<u64>) -> (result: Self)
        ensures
            result.draws == 0,
            result.budget == budget,
    {
        DecisionStream { draws: 0, budget }
    }

    /// The next value of the stream, from `0` to `bound`.
    pub fn draw(&mut self, settings: &SearchSettings, bound: u16) -> (value: u16)
        ensures
            value == bounded_draw(stream_key(settings.seed, old(self).draws), bound),
            value <= bound,
            final(self).draws == old(self).draws.wrapping_add(1),
            final(self).budget == old(self).budget,
    {
        let value = seeded_draw(settings.seed.wrapping_add(self.draws), bound);
        self.draws = self.draws.wrapping_add(1);
        value
    }
}

/// A seed for a search that need not be repeatable.
pub fn fresh_seed() -> u64 {
    entropy_seed()
}

/// The variable identifiers up to `max_id` that the assignment leaves open.
pub fn open_variables(max_id: VariableId, assignment: &Assignment) -> (result: Vec<VariableId>)
    ensures
        result@ == open_ids(assignment@, max_id + 1),
{
    let mut result: Vec<VariableId> = Vec::new();
    let mut id: u32 = 0;
    while id <= max_id as u32
        invariant
            id <= max_id + 1,
            result@ == open_ids(assignment@, id as int),
        decreases max_id + 1 - id,
    {
        let variable = id as VariableId;
        if !assignment.values.contains_key(&variable) {
            result.push(variable);
        }
        id += 1;
    }
    result
}

/// Picks the variable to branch on: one that the assignment leaves open, if
/// there is one up to the largest identifier.
pub fn choose_variable(
    settings: &SearchSettings,
    assignment: &Assignment,
    stream: &mut DecisionStream,
) -> (result: Option<VariableId>)
    ensures
        result == decide(assignment@, *settings, old(stream).draws).0,
        final(stream).draws == decide(assignment@, *settings, old(stream).draws).1,
        final(stream).budget == old(stream).budget,
        result matches Some(v) ==> !assignment@.contains_key(v) && v <= settings.max_id,
        result is None ==> forall|v: VariableId|
            v <= settings.max_id ==> assignment@.contains_key(v),
{
    proof {
        lemma_decide(assignment@, *settings, stream.draws);
    }
    if assignment.values.len() < (settings.max_id as usize) / 2 {
        let mut tries: u32 = SAMPLE_TRIES;
        while tries > 0
            invariant
                assignment@.len() < settings.max_id / 2,
                stream.budget == old(stream).budget,
                sample_open(assignment@, *settings, old(stream).draws, SAMPLE_TRIES as nat)
                    == sample_open(assignment@, *settings, stream.draws, tries as nat),
            decreases tries,
        {
            let variable = stream.draw(settings, settings.max_id);
            if !assignment.values.contains_key(&variable) {
                return Some(variable);
            }
            tries -= 1;
        }
    }
    let available = open_variables(settings.max_id, assignment);
    proof {
        lemma_open_ids(assignment@, settings.max_id + 1);
    }
    if available.len() == 0 {
        None
    } else {
        let at = stream.draw(settings, (available.len() - 1) as u16);
        Some(available[at as usize])
    }
}

} // verus!
