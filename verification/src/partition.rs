//! Partitions of `{0, .., n-1}` as lists of blocks.
//!
//! A partition is written as the list of its blocks in the order of their least
//! members. In that form every partition has exactly one list
//! (`lemma_partition_is_canonical`), so two partitions are the same when their
//! lists are equal.

use crate::pairs::{lemma_nth_pair_valid, nth_pair, pair_count};
use vstd::prelude::*;

verus! {

/// The partition of `{0, .., n-1}` into `n` singletons: block `i` is `{i}`.
pub open spec fn singletons(n: nat) -> Seq<Set<nat>> {
    Seq::new(n, |i: int| set![i as nat])
}

/// All of `{0, .., n-1}`: the block of the partition that has one block only.
pub open spec fn whole(n: nat) -> Set<nat> {
    Set::new(|x: nat| x < n)
}

/// `blocks` after block `j` went into block `i`, for `i < j`: the rest keep
/// their order, and those behind `j` move up by one.
pub open spec fn merge_blocks(blocks: Seq<Set<nat>>, i: int, j: int) -> Seq<Set<nat>> {
    blocks.update(i, blocks[i].union(blocks[j])).remove(j)
}

/// `blocks` after the pair of blocks at `position` of the lexicographic list
/// of the pairs of blocks became one block.
pub open spec fn merge_at(blocks: Seq<Set<nat>>, position: nat) -> Seq<Set<nat>> {
    let pair = nth_pair(blocks.len(), position);
    merge_blocks(blocks, pair.0 as int, pair.1 as int)
}

/// Some block of `blocks` holds `x`.
pub open spec fn in_some_block(blocks: Seq<Set<nat>>, x: nat) -> bool {
    exists|i: int| 0 <= i < blocks.len() && #[trigger] blocks[i].contains(x)
}

/// `block` has a member.
pub open spec fn has_member(block: Set<nat>) -> bool {
    exists|x: nat| #[trigger] block.contains(x)
}

/// `block` has a member that is at most `y`.
pub open spec fn reaches_down_to(block: Set<nat>, y: nat) -> bool {
    exists|x: nat| x <= y && #[trigger] block.contains(x)
}

/// `blocks` lists a partition of `{0, .., n-1}`: every block lies in that set,
/// every member of the set is in some block, no two blocks share a member, no
/// block is empty, and below each member of a block every earlier block has a
/// member too, so that the blocks stand in the order of their least members.
pub open spec fn is_partition(blocks: Seq<Set<nat>>, n: nat) -> bool {
    &&& forall|i: int, x: nat| 0 <= i < blocks.len() && #[trigger] blocks[i].contains(x) ==> x < n
    &&& forall|x: nat| x < n ==> #[trigger] in_some_block(blocks, x)
    &&& forall|i: int, j: int, x: nat|
        0 <= i < blocks.len() && 0 <= j < blocks.len() && #[trigger] blocks[i].contains(x)
            && #[trigger] blocks[j].contains(x) ==> i == j
    &&& forall|i: int| 0 <= i < blocks.len() ==> has_member(#[trigger] blocks[i])
    &&& forall|i: int, j: int, y: nat|
        0 <= i <= j < blocks.len() && #[trigger] blocks[j].contains(y) ==> #[trigger] reaches_down_to(
            blocks[i],
            y,
        )
}

/// Some block of `blocks` holds both `x` and `y`.
pub open spec fn same_block(blocks: Seq<Set<nat>>, x: nat, y: nat) -> bool {
    exists|i: int| 0 <= i < blocks.len() && #[trigger] blocks[i].contains(x) && blocks[i].contains(y)
}

/// `a` and `b` put the same members of `{0, .., n-1}` together.
pub open spec fn same_classes(a: Seq<Set<nat>>, b: Seq<Set<nat>>, n: nat) -> bool {
    forall|x: nat, y: nat|
        #![trigger same_block(a, x, y)]
        #![trigger same_block(b, x, y)]
        x < n && y < n ==> (same_block(a, x, y) <==> same_block(b, x, y))
}

/// The block of `blocks` that holds `x`, by its place in the list.
pub open spec fn block_index(blocks: Seq<Set<nat>>, x: nat) -> int {
    choose|i: int| 0 <= i < blocks.len() && #[trigger] blocks[i].contains(x)
}

/// `blocks` after the blocks of `a` and of `b` were made one. Nothing changes
/// where `a` and `b` share a block already.
pub open spec fn join(blocks: Seq<Set<nat>>, a: nat, b: nat) -> Seq<Set<nat>> {
    let i = block_index(blocks, a);
    let j = block_index(blocks, b);
    if i < j {
        merge_blocks(blocks, i, j)
    } else if j < i {
        merge_blocks(blocks, j, i)
    } else {
        blocks
    }
}

/// What stands at each place of a merged list.
pub proof fn lemma_merge_blocks_places(blocks: Seq<Set<nat>>, i: int, j: int)
    requires
        0 <= i < j < blocks.len(),
    ensures
        merge_blocks(blocks, i, j).len() == blocks.len() - 1,
        merge_blocks(blocks, i, j)[i] == blocks[i].union(blocks[j]),
        forall|a: int|
            0 <= a < j && a != i ==> #[trigger] merge_blocks(blocks, i, j)[a] == blocks[a],
        forall|a: int|
            j <= a < blocks.len() - 1 ==> #[trigger] merge_blocks(blocks, i, j)[a] == blocks[a + 1],
{
    blocks.update(i, blocks[i].union(blocks[j])).remove_ensures(j);
}

/// The singletons are a partition.
pub proof fn lemma_singletons_partition(n: nat)
    ensures
        is_partition(singletons(n), n),
        singletons(n).len() == n,
{
    let s = singletons(n);
    assert forall|x: nat| x < n implies #[trigger] in_some_block(s, x) by {
        assert(s[x as int].contains(x));
    }
    assert forall|i: int, j: int, y: nat|
        0 <= i <= j < s.len() && #[trigger] s[j].contains(y) implies #[trigger] reaches_down_to(
        s[i],
        y,
    ) by {
        assert(s[i].contains(i as nat));
    }
    assert forall|i: int| 0 <= i < s.len() implies has_member(#[trigger] s[i]) by {
        assert(s[i].contains(i as nat));
    }
}

/// In a partition a member's block is the one that holds it.
pub proof fn lemma_block_index(blocks: Seq<Set<nat>>, n: nat, i: int, x: nat)
    requires
        is_partition(blocks, n),
        0 <= i < blocks.len(),
        blocks[i].contains(x),
    ensures
        block_index(blocks, x) == i,
{
}

/// Merging two blocks of a partition gives a partition of the same set with
/// one block less.
pub proof fn lemma_merge_blocks_partition(blocks: Seq<Set<nat>>, n: nat, i: int, j: int)
    requires
        is_partition(blocks, n),
        0 <= i < j < blocks.len(),
    ensures
        is_partition(merge_blocks(blocks, i, j), n),
        merge_blocks(blocks, i, j).len() == blocks.len() - 1,
{
    let m = merge_blocks(blocks, i, j);
    lemma_merge_blocks_places(blocks, i, j);
    // Where block `a` of the merged list came from.
    let from = |a: int| if a < j { a } else { a + 1 };
    assert forall|a: int, x: nat| 0 <= a < m.len() && #[trigger] m[a].contains(x) implies x < n by {
        if a == i {
            assert(blocks[i].contains(x) || blocks[j].contains(x));
        } else {
            assert(blocks[from(a)].contains(x));
        }
    }
    assert forall|x: nat| x < n implies #[trigger] in_some_block(m, x) by {
        assert(in_some_block(blocks, x));
        let b = block_index(blocks, x);
        if b == j {
            assert(m[i].contains(x));
        } else if b < j {
            assert(m[b].contains(x));
        } else {
            assert(m[b - 1].contains(x));
        }
    }
    assert forall|a: int, b: int, x: nat|
        0 <= a < m.len() && 0 <= b < m.len() && #[trigger] m[a].contains(x) && #[trigger] m[b].contains(
            x,
        ) implies a == b by {
        let a0 = if a == i && blocks[j].contains(x) {
            j
        } else {
            from(a)
        };
        let b0 = if b == i && blocks[j].contains(x) {
            j
        } else {
            from(b)
        };
        assert(blocks[a0].contains(x));
        assert(blocks[b0].contains(x));
    }
    assert forall|a: int, b: int, y: nat|
        0 <= a <= b < m.len() && #[trigger] m[b].contains(y) implies #[trigger] reaches_down_to(
        m[a],
        y,
    ) by {
        let b0 = if b == i && blocks[j].contains(y) {
            j
        } else {
            from(b)
        };
        assert(blocks[b0].contains(y));
        assert(reaches_down_to(blocks[from(a)], y));
        let x = choose|x: nat| x <= y && #[trigger] blocks[from(a)].contains(x);
        assert(m[a].contains(x));
    }
    assert forall|a: int| 0 <= a < m.len() implies has_member(#[trigger] m[a]) by {
        assert(has_member(blocks[from(a)]));
        let x = choose|x: nat| #[trigger] blocks[from(a)].contains(x);
        assert(m[a].contains(x));
    }
}

/// Merging the pair of blocks at a position below the number of pairs gives a
/// partition of the same set with one block less; at least two blocks went
/// into it.
pub proof fn lemma_merge_at_partition(blocks: Seq<Set<nat>>, n: nat, position: nat)
    requires
        is_partition(blocks, n),
        position < pair_count(blocks.len()),
    ensures
        is_partition(merge_at(blocks, position), n),
        merge_at(blocks, position).len() == blocks.len() - 1,
        blocks.len() >= 2,
{
    lemma_nth_pair_valid(blocks.len(), position);
    let pair = nth_pair(blocks.len(), position);
    lemma_merge_blocks_partition(blocks, n, pair.0 as int, pair.1 as int);
}

/// A partition of `{0, .., n-1}` with one block is that set's only such
/// partition: the block is all of it.
pub proof fn lemma_one_block_is_whole(blocks: Seq<Set<nat>>, n: nat)
    requires
        is_partition(blocks, n),
        blocks.len() == 1,
    ensures
        blocks == seq![whole(n)],
{
    assert forall|x: nat| whole(n).contains(x) implies blocks[0].contains(x) by {
        assert(in_some_block(blocks, x));
    }
    assert(blocks[0] =~= whole(n));
    assert(blocks =~= seq![whole(n)]);
}

/// Where two partitions put the same members together and agree on their
/// first `i` blocks, a member of block `i` of the one is in none of the later
/// blocks of the other.
proof fn lemma_block_not_later(a: Seq<Set<nat>>, b: Seq<Set<nat>>, n: nat, i: int, x: nat)
    requires
        is_partition(a, n),
        is_partition(b, n),
        same_classes(a, b, n),
        0 <= i < a.len(),
        i <= b.len(),
        forall|j: int| 0 <= j < i ==> #[trigger] a[j] == b[j],
        a[i].contains(x),
    ensures
        0 <= block_index(b, x) <= i,
        block_index(b, x) < b.len(),
        b[block_index(b, x)].contains(x),
    decreases x,
{
    assert(in_some_block(b, x));
    let j = block_index(b, x);
    if j > i {
        assert(reaches_down_to(b[i], x));
        let w = choose|w: nat| w <= x && #[trigger] b[i].contains(w);
        assert(in_some_block(a, w));
        let k = block_index(a, w);
        if k < i {
            assert(a[k] == b[k]);
            assert(b[k].contains(w));
        } else if k == i {
            assert(same_block(a, w, x));
            assert(same_block(b, w, x));
        } else {
            assert(reaches_down_to(a[i], w));
            let v = choose|v: nat| v <= w && #[trigger] a[i].contains(v);
            lemma_block_not_later(a, b, n, i, v);
            assert(same_block(a, v, x));
            assert(same_block(b, v, x));
        }
    }
}

/// Where two partitions put the same members together and agree on their
/// first `i` blocks, block `i` of the one lies in block `i` of the other.
proof fn lemma_block_within(a: Seq<Set<nat>>, b: Seq<Set<nat>>, n: nat, i: int)
    requires
        is_partition(a, n),
        is_partition(b, n),
        same_classes(a, b, n),
        0 <= i < a.len(),
        i <= b.len(),
        forall|j: int| 0 <= j < i ==> #[trigger] a[j] == b[j],
    ensures
        i < b.len(),
        forall|x: nat| a[i].contains(x) ==> b[i].contains(x),
{
    assert forall|x: nat| a[i].contains(x) implies i < b.len() && b[i].contains(x) by {
        lemma_block_not_later(a, b, n, i, x);
        let j = block_index(b, x);
        if j < i {
            assert(a[j] == b[j]);
            assert(a[j].contains(x));
        }
    }
    assert(has_member(a[i]));
}

/// Two partitions that put the same members together have the same first `i`
/// blocks, up to the length of the first.
proof fn lemma_same_blocks_up_to(a: Seq<Set<nat>>, b: Seq<Set<nat>>, n: nat, i: int)
    requires
        is_partition(a, n),
        is_partition(b, n),
        same_classes(a, b, n),
        0 <= i <= a.len(),
    ensures
        i <= b.len(),
        forall|j: int| 0 <= j < i ==> #[trigger] a[j] == b[j],
    decreases i,
{
    if i > 0 {
        lemma_same_blocks_up_to(a, b, n, i - 1);
        lemma_block_within(a, b, n, i - 1);
        lemma_block_within(b, a, n, i - 1);
        assert(a[i - 1] =~= b[i - 1]);
    }
}

/// The list of blocks is a canonical form: two partitions of `{0, .., n-1}`
/// that put the same members together are the same list. So partitions can be
/// compared by `==`.
pub proof fn lemma_partition_is_canonical(a: Seq<Set<nat>>, b: Seq<Set<nat>>, n: nat)
    requires
        is_partition(a, n),
        is_partition(b, n),
        same_classes(a, b, n),
    ensures
        a == b,
{
    lemma_same_blocks_up_to(a, b, n, a.len() as int);
    lemma_same_blocks_up_to(b, a, n, b.len() as int);
    assert(a =~= b);
}

} // verus!
