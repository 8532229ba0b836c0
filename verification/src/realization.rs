//! Realizations: the trajectories that a process can record, and what holds of
//! every one of them.

use crate::pairs::pair_count;
use crate::partition::{
    is_partition, lemma_merge_at_partition, lemma_one_block_is_whole, lemma_singletons_partition,
    merge_at, singletons, whole,
};
use vstd::prelude::*;

verus! {

/// The law of the time that passes before an event. The library says which
/// law it is; to draw a time from it is left to the caller.
#[derive(Clone, Copy, Debug, PartialEq, Eq, Structural)]
pub enum Waiting {
    /// No time passes: the event is the start of a trajectory.
    Immediate,
    /// The time is exponential with this rate.
    Exponential { rate: usize },
}

/// `event` can follow the partition `before`: its partition is `before` with
/// one pair of blocks merged, and its waiting time is exponential with the
/// number of blocks of `before` as rate.
pub open spec fn is_event_after(before: Seq<Set<nat>>, event: (Waiting, Seq<Set<nat>>)) -> bool {
    &&& event.0 matches Waiting::Exponential { rate }
    &&& rate == before.len()
    &&& exists|position: nat|
        position < pair_count(before.len()) && event.1 == #[trigger] merge_at(before, position)
}

/// `events` is a realization from `start`: it opens with `start` at time zero,
/// every later event follows the partition of the event before it, and the
/// last partition has one block.
pub open spec fn is_realization(events: Seq<(Waiting, Seq<Set<nat>>)>, start: Seq<Set<nat>>) -> bool {
    &&& events.len() >= 1
    &&& events[0] == (Waiting::Immediate, start)
    &&& forall|t: int| 1 <= t < events.len() ==> is_event_after(events[t - 1].1, #[trigger] events[t])
    &&& events.last().1.len() == 1
}

/// An event that follows a partition holds a partition of the same set with
/// one block less, and at least two blocks went into it.
pub proof fn lemma_event_after_partition(
    before: Seq<Set<nat>>,
    n: nat,
    event: (Waiting, Seq<Set<nat>>),
)
    requires
        is_partition(before, n),
        is_event_after(before, event),
    ensures
        is_partition(event.1, n),
        event.1.len() == before.len() - 1,
        before.len() >= 2,
{
    let position = choose|position: nat|
        position < pair_count(before.len()) && event.1 == #[trigger] merge_at(before, position);
    lemma_merge_at_partition(before, n, position);
}

/// Event `t` of a realization holds a partition of the set that the start
/// partitions, with `t` blocks less than the start.
pub proof fn lemma_realization_event(
    events: Seq<(Waiting, Seq<Set<nat>>)>,
    start: Seq<Set<nat>>,
    n: nat,
    t: int,
)
    requires
        is_partition(start, n),
        is_realization(events, start),
        0 <= t < events.len(),
    ensures
        is_partition(events[t].1, n),
        events[t].1.len() == start.len() - t,
    decreases t,
{
    if t > 0 {
        lemma_realization_event(events, start, n, t - 1);
        lemma_event_after_partition(events[t - 1].1, n, events[t]);
    }
}

/// The shape of every realization. It has as many events as the start has
/// blocks; the number of blocks goes down by one from each event to the next;
/// every event holds a partition of the same set; all waiting times but the
/// first are exponential, with the number of blocks before the merge as rate,
/// which is two at least; and the last partition is the one block that holds
/// everything.
pub proof fn lemma_realization_shape(
    events: Seq<(Waiting, Seq<Set<nat>>)>,
    start: Seq<Set<nat>>,
    n: nat,
)
    requires
        is_partition(start, n),
        is_realization(events, start),
    ensures
        events.len() == start.len(),
        forall|t: int|
            0 <= t < events.len() ==> (#[trigger] events[t]).1.len() == start.len() - t
                && is_partition(events[t].1, n),
        forall|t: int|
            1 <= t < events.len() ==> {
                &&& (#[trigger] events[t]).0 matches Waiting::Exponential { rate }
                &&& rate == start.len() - t + 1
                &&& rate >= 2
            },
        events.last().1 == seq![whole(n)],
{
    assert forall|t: int| 0 <= t < events.len() implies (#[trigger] events[t]).1.len()
        == start.len() - t && is_partition(events[t].1, n) by {
        lemma_realization_event(events, start, n, t);
    }
    assert(events[events.len() - 1].1.len() == start.len() - (events.len() - 1));
    assert forall|t: int| 1 <= t < events.len() implies {
        &&& (#[trigger] events[t]).0 matches Waiting::Exponential { rate }
        &&& rate == start.len() - t + 1
        &&& rate >= 2
    } by {
        assert(events[t - 1].1.len() == start.len() - (t - 1));
        assert(is_event_after(events[t - 1].1, events[t]));
    }
    lemma_one_block_is_whole(events.last().1, n);
}

/// A realization of a process that was just made on `n` elements has `n`
/// events. The first holds the `n` singletons at time zero, event `t` holds
/// `n - t` blocks, and the last holds the one block of all `n` elements.
pub proof fn lemma_realization_from_singletons(events: Seq<(Waiting, Seq<Set<nat>>)>, n: nat)
    requires
        is_realization(events, singletons(n)),
    ensures
        events.len() == n,
        events[0] == (Waiting::Immediate, singletons(n)),
        forall|t: int| 0 <= t < n ==> (#[trigger] events[t]).1.len() == n - t,
        events.last().1 == seq![whole(n)],
{
    lemma_singletons_partition(n);
    lemma_realization_shape(events, singletons(n), n);
}

/// Two realizations from one start may merge different blocks, and what time
/// the merges took is drawn anew, but they agree in all else: in their
/// length, in their first event, and at every event in the law of the waiting
/// time and in the number of blocks.
pub proof fn lemma_realizations_agree(
    first: Seq<(Waiting, Seq<Set<nat>>)>,
    second: Seq<(Waiting, Seq<Set<nat>>)>,
    start: Seq<Set<nat>>,
    n: nat,
)
    requires
        is_partition(start, n),
        is_realization(first, start),
        is_realization(second, start),
    ensures
        first.len() == second.len(),
        first[0] == second[0],
        forall|t: int|
            0 <= t < first.len() ==> (#[trigger] first[t]).0 == second[t].0 && first[t].1.len()
                == second[t].1.len(),
        first.last().1 == second.last().1,
{
    lemma_realization_shape(first, start, n);
    lemma_realization_shape(second, start, n);
    assert forall|t: int| 0 <= t < first.len() implies (#[trigger] first[t]).0 == second[t].0
        && first[t].1.len() == second[t].1.len() by {
        assert(second[t].1.len() == start.len() - t);
    }
}

} // verus!
