//! The coalescent process: a partition that loses one block at each step.

use crate::pairs::{
    checked_pair_count, lemma_nth_pair_valid, lemma_pair_count_monotonic, pair_at, pair_count,
};
use crate::partition::{
    is_partition, lemma_block_index, lemma_merge_at_partition, lemma_singletons_partition,
    merge_at, singletons,
};
use crate::realization::{is_event_after, is_realization, lemma_realization_shape, Waiting};
use crate::rng::{clone_rng, draw_below};
use crate::store::{
    amount_of_sets, blocks_of, clone_partition, first_in_set, from_units, len_of, union,
};
use partitions::PartitionVec;
use rand::rngs::StdRng;
use vstd::prelude::*;

verus! {

/// `blocks` is a state of a process on `{0, .., n-1}`: a partition of that set
/// with at least one block, whose number of pairs of blocks fits the machine
/// word.
pub open spec fn is_state(blocks: Seq<Set<nat>>, n: nat) -> bool {
    &&& is_partition(blocks, n)
    &&& blocks.len() >= 1
    &&& pair_count(blocks.len()) <= usize::MAX
}

/// What a list of events says in terms of partitions: each copy of the state
/// is replaced by the blocks that it holds.
pub open spec fn recorded(events: Seq<(Waiting, PartitionVec<()>)>) -> Seq<(Waiting, Seq<Set<nat>>)> {
    events.map_values(|event: (Waiting, PartitionVec<()>)| (event.0, blocks_of(event.1)))
}

/// A merge keeps a state a state.
pub proof fn lemma_merge_at_state(blocks: Seq<Set<nat>>, n: nat, position: nat)
    requires
        is_state(blocks, n),
        position < pair_count(blocks.len()),
    ensures
        is_state(merge_at(blocks, position), n),
        merge_at(blocks, position).len() == blocks.len() - 1,
        blocks.len() >= 2,
{
    lemma_merge_at_partition(blocks, n, position);
    lemma_pair_count_monotonic((blocks.len() - 1) as nat, blocks.len());
}

/// The n-coalescent: a process on the partitions of `{0, .., n-1}` that starts
/// from the singletons and merges two blocks at a time until one block is left.
/// It draws from the standard generator of the `rand` crate.
#[derive(Debug)]
pub struct Coalescent {
    state: PartitionVec<()>,
    rng: StdRng,
}

impl Coalescent {
    /// The current partition: its blocks in the order of their least members.
    pub closed spec fn partition(&self) -> Seq<Set<nat>> {
        blocks_of(self.state)
    }

    /// The number of elements that the process partitions.
    pub closed spec fn group_size(&self) -> nat {
        len_of(self.state)
    }

    /// The generator that the process draws from.
    pub closed spec fn generator(&self) -> StdRng {
        self.rng
    }

    /// The process holds a state.
    pub open spec fn wf(&self) -> bool {
        is_state(self.partition(), self.group_size())
    }

    /// A process on `group_size` elements, each in a block of its own. There
    /// has to be an element, and the number of pairs of elements has to fit the
    /// machine word, which `checked_pair_count` tells.
    pub fn new(group_size: usize, rng: StdRng) -> (process: Self)
        requires
            group_size >= 1,
            pair_count(group_size as nat) <= usize::MAX,
        ensures
            process.wf(),
            process.group_size() == group_size,
            process.partition() == singletons(group_size as nat),
            process.generator() == rng,
    {
        let mut units: Vec<()> = Vec::new();
        let mut made: usize = 0;
        while made < group_size
            invariant
                made <= group_size,
                units@.len() == made,
            decreases group_size - made,
        {
            units.push(());
            made = made + 1;
        }
        proof {
            lemma_singletons_partition(group_size as nat);
        }
        Coalescent { state: from_units(units), rng }
    }

    /// The generator, to draw from it or to change it. The partition stays
    /// as it is, whatever is done to the generator.
    pub fn rng(&mut self) -> (rng: &mut StdRng)
        ensures
            *rng == old(self).generator(),
            final(self).generator() == *final(rng),
            final(self).partition() == old(self).partition(),
            final(self).group_size() == old(self).group_size(),
    {
        &mut self.rng
    }

    /// Puts `other_rng` in the place of the generator and hands the process
    /// back.
    pub fn set_rng(&mut self, other_rng: StdRng) -> (process: &mut Self)
        ensures
            process.generator() == other_rng,
            process.partition() == old(self).partition(),
            process.group_size() == old(self).group_size(),
            *final(self) == *final(process),
    {
        self.rng = other_rng;
        self
    }

    /// The current state.
    pub fn state(&self) -> (state: &PartitionVec<()>)
        ensures
            blocks_of(*state) == self.partition(),
            len_of(*state) == self.group_size(),
    {
        &self.state
    }

    /// Puts `state` in the place of the current state and hands the process
    /// back. The process owns `state` from then on: no other holder of the
    /// partition is left.
    pub fn set_state(&mut self, state: PartitionVec<()>) -> (process: &mut Self)
        requires
            is_state(blocks_of(state), len_of(state)),
        ensures
            process.wf(),
            process.partition() == blocks_of(state),
            process.group_size() == len_of(state),
            process.generator() == old(self).generator(),
            *final(self) == *final(process),
    {
        self.state = state;
        self
    }

    /// The number of blocks of the current partition.
    pub fn block_count(&self) -> (count: usize)
        ensures
            count == self.partition().len(),
    {
        amount_of_sets(&self.state)
    }

    /// Merges the pair of blocks at `position` of the lexicographic list of the
    /// pairs of blocks, and returns the event: the law of the time that the
    /// merge took, which is exponential with the number of blocks before it as
    /// rate, and a copy of the partition after it.
    pub fn merge_pair(&mut self, position: usize) -> (event: (Waiting, PartitionVec<()>))
        requires
            old(self).wf(),
            position < pair_count(old(self).partition().len()),
        ensures
            final(self).wf(),
            final(self).group_size() == old(self).group_size(),
            final(self).generator() == old(self).generator(),
            final(self).partition() == merge_at(old(self).partition(), position as nat),
            final(self).partition().len() == old(self).partition().len() - 1,
            event.0 matches Waiting::Exponential { rate } && rate == old(self).partition().len(),
            blocks_of(event.1) == final(self).partition(),
            len_of(event.1) == final(self).group_size(),
    {
        let count = amount_of_sets(&self.state);
        self.merge_pair_of(count, position)
    }

    /// `merge_pair` for a caller that has counted the blocks already.
    fn merge_pair_of(&mut self, count: usize, position: usize) -> (event: (
        Waiting,
        PartitionVec<()>,
    ))
        requires
            old(self).wf(),
            count == old(self).partition().len(),
            position < pair_count(count as nat),
        ensures
            final(self).wf(),
            final(self).group_size() == old(self).group_size(),
            final(self).generator() == old(self).generator(),
            final(self).partition() == merge_at(old(self).partition(), position as nat),
            final(self).partition().len() == count - 1,
            event.0 == (Waiting::Exponential { rate: count }),
            blocks_of(event.1) == final(self).partition(),
            len_of(event.1) == final(self).group_size(),
    {
        let (first, second) = pair_at(count, position);
        proof {
            lemma_nth_pair_valid(count as nat, position as nat);
            lemma_merge_at_state(self.partition(), self.group_size(), position as nat);
        }
        let a = first_in_set(&self.state, first);
        let b = first_in_set(&self.state, second);
        proof {
            lemma_block_index(self.partition(), self.group_size(), first as int, a as nat);
            lemma_block_index(self.partition(), self.group_size(), second as int, b as nat);
        }
        union(&mut self.state, a, b);
        (Waiting::Exponential { rate: count }, clone_partition(&self.state))
    }

    /// One transition. With one block left nothing happens and nothing is
    /// returned. Otherwise a position is drawn among the pairs of blocks, the
    /// pair there is merged, and the event is returned.
    pub fn step(&mut self) -> (event: Option<(Waiting, PartitionVec<()>)>)
        requires
            old(self).wf(),
        ensures
            final(self).wf(),
            final(self).group_size() == old(self).group_size(),
            match event {
                None => {
                    &&& old(self).partition().len() == 1
                    &&& final(self).partition() == old(self).partition()
                    &&& final(self).generator() == old(self).generator()
                },
                Some(e) => {
                    &&& old(self).partition().len() >= 2
                    &&& final(self).partition().len() == old(self).partition().len() - 1
                    &&& is_event_after(old(self).partition(), (e.0, final(self).partition()))
                    &&& blocks_of(e.1) == final(self).partition()
                    &&& len_of(e.1) == final(self).group_size()
                },
            },
    {
        let count = amount_of_sets(&self.state);
        if count == 1 {
            None
        } else {
            proof {
                lemma_pair_count_monotonic(2, count as nat);
            }
            let pairs = checked_pair_count(count).unwrap();
            let position = draw_below(&mut self.rng, pairs);
            Some(self.merge_pair_of(count, position))
        }
    }

    /// Records a trajectory from the current state until one block is left:
    /// the current state at time zero, then the event of every step. The
    /// state is put back afterwards, so the process can go on from where it
    /// was; the generator has moved on.
    pub fn generate_realization(&mut self) -> (events: Vec<(Waiting, PartitionVec<()>)>)
        requires
            old(self).wf(),
        ensures
            final(self).wf(),
            final(self).partition() == old(self).partition(),
            final(self).group_size() == old(self).group_size(),
            is_realization(recorded(events@), old(self).partition()),
            events@.len() == old(self).partition().len(),
            forall|t: int|
                0 <= t < events@.len() ==> len_of((#[trigger] events@[t]).1) == old(
                    self,
                ).group_size(),
    {
        let ghost start = self.partition();
        let ghost n = self.group_size();
        let initial_state = clone_partition(&self.state);
        let mut events: Vec<(Waiting, PartitionVec<()>)> = Vec::new();
        events.push((Waiting::Immediate, clone_partition(&initial_state)));
        loop
            invariant
                self.wf(),
                self.group_size() == n,
                is_state(start, n),
                blocks_of(initial_state) == start,
                len_of(initial_state) == n,
                events@.len() >= 1,
                events@[0].0 == Waiting::Immediate,
                blocks_of(events@[0].1) == start,
                forall|t: int|
                    1 <= t < events@.len() ==> is_event_after(
                        blocks_of(events@[t - 1].1),
                        ((#[trigger] events@[t]).0, blocks_of(events@[t].1)),
                    ),
                forall|t: int| 0 <= t < events@.len() ==> len_of((#[trigger] events@[t]).1) == n,
                blocks_of(events@.last().1) == self.partition(),
            ensures
                self.partition().len() == 1,
            decreases self.partition().len(),
        {
            match self.step() {
                Some(event) => {
                    events.push(event);
                },
                None => {
                    break ;
                },
            }
        }
        self.set_state(initial_state);
        proof {
            let told = recorded(events@);
            assert forall|t: int| 1 <= t < told.len() implies is_event_after(
                told[t - 1].1,
                #[trigger] told[t],
            ) by {
                assert(is_event_after(
                    blocks_of(events@[t - 1].1),
                    (events@[t].0, blocks_of(events@[t].1)),
                ));
            }
            lemma_realization_shape(told, start, n);
        }
        events
    }
}

impl Clone for Coalescent {
    /// A process in the same state, with a copy of the generator.
    fn clone(&self) -> (copy: Self)
        ensures
            copy.partition() == self.partition(),
            copy.group_size() == self.group_size(),
            copy.generator() == self.generator(),
            self.wf() ==> copy.wf(),
    {
        Coalescent { state: clone_partition(&self.state), rng: clone_rng(&self.rng) }
    }
}

} // verus!
