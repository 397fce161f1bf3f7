//! The ranking of the roots by power level: where a level has its place,
//! how the ranking gains and loses a root, and how a change of power level
//! moves one.

use crate::world::links::{drop_ids, lemma_drop_ids_members, lemma_drop_ids_one};
use crate::world::power::{is_finite, is_number, level_is_finite, level_rank, rank};
use crate::world::{is_forest, is_layering, Id, PersonView, World, WorldError, WorldView};
use vstd::prelude::*;

verus! {

broadcast use vstd::std_specs::hash::group_hash_axioms;

impl WorldView {
    /// Everybody in the ranking exists, and the ranking is in ascending
    /// order of power level.
    pub open spec fn ranking_in_order(self) -> bool {
        &&& forall|i: int|
            0 <= i < self.ranking.len() ==> self.people.contains_key(#[trigger] self.ranking[i])
        &&& forall|i: int, j: int|
            0 <= i < j < self.ranking.len() ==> #[trigger] self.rank_at(i) <= #[trigger]
            self.rank_at(j)
    }

    /// The ranking is as it should be but for `id`, which it may lack: it
    /// lists every other root once and nobody else, in ascending order of
    /// power level.
    pub open spec fn ranking_wf_without(self, id: Id) -> bool {
        &&& self.ranking.no_duplicates()
        &&& forall|i: int| 0 <= i < self.ranking.len() ==> self.is_root(#[trigger] self.ranking[i])
        &&& forall|other: Id|
            other != id && #[trigger] self.is_root(other) ==> self.ranking.contains(other)
        &&& forall|i: int, j: int|
            0 <= i < j < self.ranking.len() ==> #[trigger] self.rank_at(i) <= #[trigger]
            self.rank_at(j)
    }

    /// Whether `position` is where the ranking passes from levels below
    /// `level_rank` to levels at or above it.
    pub open spec fn is_lower_position(self, level_rank: int, position: int) -> bool {
        &&& 0 <= position <= self.ranking.len()
        &&& forall|i: int| 0 <= i < position ==> #[trigger] self.rank_at(i) < level_rank
        &&& forall|i: int|
            position <= i < self.ranking.len() ==> #[trigger] self.rank_at(i) >= level_rank
    }

    /// Whether `position` is where the ranking passes from levels at or below
    /// `level_rank` to levels above it.
    pub open spec fn is_upper_position(self, level_rank: int, position: int) -> bool {
        &&& 0 <= position <= self.ranking.len()
        &&& forall|i: int| 0 <= i < position ==> #[trigger] self.rank_at(i) <= level_rank
        &&& forall|i: int|
            position <= i < self.ranking.len() ==> #[trigger] self.rank_at(i) > level_rank
    }

    /// The number of roots whose level is below `level_rank`.
    pub open spec fn lower_position(self, level_rank: int) -> int {
        choose|position: int| self.is_lower_position(level_rank, position)
    }

    /// The number of roots whose level is at or below `level_rank`.
    pub open spec fn upper_position(self, level_rank: int) -> int {
        choose|position: int| self.is_upper_position(level_rank, position)
    }

    /// The stretch of the ranking between the places of two levels, each
    /// place taken no further than the last entry: the roots from the first
    /// that is not below `from_rank` to the last that is below `to_rank`,
    /// the strongest root left out. Empty where the places meet or cross.
    pub open spec fn span(self, from_rank: int, to_rank: int) -> Seq<Id> {
        if self.ranking.len() == 0 {
            Seq::empty()
        } else {
            let last = self.ranking.len() - 1;
            let low = if self.lower_position(from_rank) < last {
                self.lower_position(from_rank)
            } else {
                last
            };
            let high = if self.lower_position(to_rank) < last {
                self.lower_position(to_rank)
            } else {
                last
            };
            if low < high {
                self.ranking.subrange(low, high)
            } else {
                Seq::empty()
            }
        }
    }
}

/// In a ranking in ascending order, at most one position separates the
/// levels below a given level from the others.
pub proof fn lemma_lower_position_unique(world: WorldView, level_rank: int, p: int, q: int)
    requires
        world.is_lower_position(level_rank, p),
        world.is_lower_position(level_rank, q),
    ensures
        p == q,
        world.lower_position(level_rank) == p,
{
    if p < q {
        assert(world.rank_at(p) < level_rank);
    } else if q < p {
        assert(world.rank_at(q) < level_rank);
    }
    let c = world.lower_position(level_rank);
    if c < p {
        assert(world.rank_at(c) < level_rank);
    } else if p < c {
        assert(world.rank_at(p) < level_rank);
    }
}

/// In a ranking in ascending order, at most one position separates the
/// levels up to a given level from the others.
pub proof fn lemma_upper_position_unique(world: WorldView, level_rank: int, p: int, q: int)
    requires
        world.is_upper_position(level_rank, p),
        world.is_upper_position(level_rank, q),
    ensures
        p == q,
        world.upper_position(level_rank) == p,
{
    if p < q {
        assert(world.rank_at(p) <= level_rank);
    } else if q < p {
        assert(world.rank_at(q) <= level_rank);
    }
    let c = world.upper_position(level_rank);
    if c < p {
        assert(world.rank_at(c) <= level_rank);
    } else if p < c {
        assert(world.rank_at(p) <= level_rank);
    }
}

/// A ranking that is as it should be holds the roots and only them, each
/// once: it is as long as there are roots.
pub proof fn lemma_ranking_counts_roots(world: WorldView)
    requires
        world.ranking_wf(),
    ensures
        world.ranking.to_set() == world.roots(),
        world.roots().finite(),
        world.ranking.len() == world.roots().len(),
{
    assert forall|id: Id| world.ranking.to_set().contains(id) <==> world.roots().contains(id) by {
        if world.ranking.contains(id) {
            let i = choose|i: int| 0 <= i < world.ranking.len() && world.ranking[i] == id;
            assert(world.is_root(world.ranking[i]));
        }
    }
    assert(world.ranking.to_set() =~= world.roots());
    world.ranking.unique_seq_to_set();
    vstd::seq_lib::seq_to_set_is_finite(world.ranking);
}

/// In a ranking in ascending order, the first `n` entries split into those
/// below a given level and those at or above it. Returns where.
pub proof fn lemma_lower_split(world: WorldView, level_rank: int, n: int) -> (position: int)
    requires
        world.ranking_in_order(),
        0 <= n <= world.ranking.len(),
    ensures
        0 <= position <= n,
        forall|i: int| 0 <= i < position ==> #[trigger] world.rank_at(i) < level_rank,
        forall|i: int| position <= i < n ==> #[trigger] world.rank_at(i) >= level_rank,
    decreases n,
{
    if n == 0 {
        0
    } else {
        let before = lemma_lower_split(world, level_rank, n - 1);
        if world.rank_at(n - 1) >= level_rank {
            before
        } else {
            assert forall|i: int| 0 <= i < n implies #[trigger] world.rank_at(i) < level_rank by {
                if i < n - 1 {
                    assert(world.rank_at(i) <= world.rank_at(n - 1));
                }
            }
            n
        }
    }
}

/// In a ranking in ascending order, the first `n` entries split into those
/// at or below a given level and those above it. Returns where.
pub proof fn lemma_upper_split(world: WorldView, level_rank: int, n: int) -> (position: int)
    requires
        world.ranking_in_order(),
        0 <= n <= world.ranking.len(),
    ensures
        0 <= position <= n,
        forall|i: int| 0 <= i < position ==> #[trigger] world.rank_at(i) <= level_rank,
        forall|i: int| position <= i < n ==> #[trigger] world.rank_at(i) > level_rank,
    decreases n,
{
    if n == 0 {
        0
    } else {
        let before = lemma_upper_split(world, level_rank, n - 1);
        if world.rank_at(n - 1) > level_rank {
            before
        } else {
            assert forall|i: int| 0 <= i < n implies #[trigger] world.rank_at(i) <= level_rank by {
                if i < n - 1 {
                    assert(world.rank_at(i) <= world.rank_at(n - 1));
                }
            }
            n
        }
    }
}

/// In a ranking in ascending order, every level has its two places: the
/// positions that `lower_position` and `upper_position` name do separate
/// the levels as their names say.
pub proof fn lemma_positions(world: WorldView, level_rank: int)
    requires
        world.ranking_in_order(),
    ensures
        world.is_lower_position(level_rank, world.lower_position(level_rank)),
        world.is_upper_position(level_rank, world.upper_position(level_rank)),
        world.lower_position(level_rank) <= world.upper_position(level_rank),
{
    let low = lemma_lower_split(world, level_rank, world.ranking.len() as int);
    let high = lemma_upper_split(world, level_rank, world.ranking.len() as int);
    lemma_lower_position_unique(world, level_rank, low, low);
    lemma_upper_position_unique(world, level_rank, high, high);
    if high < low {
        assert(world.rank_at(high) < level_rank);
    }
}

/// What a span holds: every root in it is at or above the lower level and
/// below the upper one, and every root between the two levels is in it,
/// unless it is the last of the ranking.
pub proof fn lemma_span_holds(world: WorldView, from_rank: int, to_rank: int)
    requires
        world.ranking_in_order(),
    ensures
        forall|k: int|
            0 <= k < world.span(from_rank, to_rank).len() ==> from_rank <= rank(
                world.people[#[trigger] world.span(from_rank, to_rank)[k]].power_level,
            ) < to_rank,
        forall|i: int|
            0 <= i < world.ranking.len() - 1 && from_rank <= #[trigger] world.rank_at(i) < to_rank
                ==> world.span(from_rank, to_rank).contains(world.ranking[i]),
{
    lemma_positions(world, from_rank);
    lemma_positions(world, to_rank);
    let span = world.span(from_rank, to_rank);
    let low = world.lower_position(from_rank);
    let high = world.lower_position(to_rank);
    assert forall|k: int| 0 <= k < span.len() implies from_rank <= rank(
        world.people[#[trigger] span[k]].power_level,
    ) < to_rank by {
        assert(span[k] == world.ranking[low + k]);
        assert(from_rank <= world.rank_at(low + k) < to_rank);
    }
    assert forall|i: int|
        0 <= i < world.ranking.len() - 1 && from_rank <= #[trigger] world.rank_at(i)
            < to_rank implies span.contains(world.ranking[i]) by {
        assert(low <= i < high);
        assert(span[i - low] == world.ranking[i]);
    }
}

/// Whether `position` is a place at which a root of rank `level_rank` fits
/// into the ranking: nobody before it is stronger, nobody from it on is
/// weaker.
pub open spec fn fits_at(world: WorldView, level_rank: int, position: int) -> bool {
    &&& 0 <= position <= world.ranking.len()
    &&& forall|i: int| 0 <= i < position ==> #[trigger] world.rank_at(i) <= level_rank
    &&& forall|i: int|
        position <= i < world.ranking.len() ==> #[trigger] world.rank_at(i) >= level_rank
}

/// The levels along a ranking that a root has entered: before its place as
/// they were, at its place its own, and behind it those that were one place
/// further to the front.
pub proof fn lemma_ranks_after_entry(before: WorldView, after: WorldView, id: Id, position: int)
    requires
        0 <= position <= before.ranking.len(),
        after.ranking == before.ranking.insert(position, id),
        forall|i: int|
            0 <= i < before.ranking.len() ==> after.people[#[trigger] before.ranking[i]].power_level
                == before.people[before.ranking[i]].power_level,
    ensures
        forall|i: int|
            0 <= i < after.ranking.len() ==> #[trigger] after.rank_at(i) == (if i < position {
                before.rank_at(i)
            } else if i == position {
                rank(after.people[id].power_level)
            } else {
                before.rank_at(i - 1)
            }),
{
    assert forall|i: int| 0 <= i < after.ranking.len() implies #[trigger] after.rank_at(i) == (if i
        < position {
        before.rank_at(i)
    } else if i == position {
        rank(after.people[id].power_level)
    } else {
        before.rank_at(i - 1)
    }) by {
        if i < position {
            assert(after.ranking[i] == before.ranking[i]);
        } else if i > position {
            assert(after.ranking[i] == before.ranking[i - 1]);
        }
    }
}

/// A ranking that lacks nothing but the root `id` is complete once `id`
/// enters at a place where it fits, provided the people it already lists
/// are as they were.
pub proof fn lemma_ranking_gains(before: WorldView, after: WorldView, id: Id, position: int)
    requires
        before.ranking_wf_without(id),
        !before.ranking.contains(id),
        after.is_root(id),
        fits_at(before, rank(after.people[id].power_level), position),
        after.ranking == before.ranking.insert(position, id),
        forall|other: Id|
            other != id ==> (#[trigger] after.is_root(other) <==> before.is_root(other)),
        forall|i: int|
            0 <= i < before.ranking.len() ==> after.people[#[trigger] before.ranking[i]].power_level
                == before.people[before.ranking[i]].power_level,
    ensures
        after.ranking_wf(),
{
    let level_rank = rank(after.people[id].power_level);
    lemma_ranks_after_entry(before, after, id, position);
    assert(after.ranking.no_duplicates()) by {
        assert forall|i: int, j: int|
            0 <= i < after.ranking.len() && 0 <= j < after.ranking.len() && i != j implies after.ranking[i]
            != after.ranking[j] by {
            let a = if i < position { i } else { i - 1 };
            let b = if j < position { j } else { j - 1 };
            if i != position && j != position {
                assert(before.ranking[a] != before.ranking[b]);
            } else if i != position {
                assert(before.ranking.contains(before.ranking[a]));
            } else {
                assert(before.ranking.contains(before.ranking[b]));
            }
        }
    }
    assert forall|i: int| 0 <= i < after.ranking.len() implies after.is_root(
        #[trigger] after.ranking[i],
    ) by {
        if i != position {
            let a = if i < position { i } else { i - 1 };
            assert(before.is_root(before.ranking[a]));
            assert(before.ranking.contains(before.ranking[a]));
        }
    }
    assert forall|other: Id| #[trigger] after.is_root(other) implies after.ranking.contains(
        other,
    ) by {
        if other == id {
            assert(after.ranking[position] == id);
        } else {
            assert(before.is_root(other));
            let a = choose|a: int| 0 <= a < before.ranking.len() && before.ranking[a] == other;
            let i = if a < position { a } else { a + 1 };
            assert(after.ranking[i] == other);
        }
    }
    assert forall|i: int, j: int| 0 <= i < j < after.ranking.len() implies #[trigger] after.rank_at(
        i,
    ) <= #[trigger] after.rank_at(j) by {
        let a = if i < position { i } else { i - 1 };
        let b = if j < position { j } else { j - 1 };
        if i != position && j != position {
            assert(before.rank_at(a) <= before.rank_at(b));
        } else if i != position {
            assert(before.rank_at(a) <= level_rank);
        } else {
            assert(before.rank_at(b) >= level_rank);
        }
    }
}

/// When the root `id` leaves the ranking and the others are as they were,
/// the ranking is as it should be but for `id`; if `id` is no root any more,
/// the ranking is as it should be.
pub proof fn lemma_ranking_loses(before: WorldView, after: WorldView, id: Id)
    requires
        before.ranking_wf(),
        before.is_root(id),
        after.ranking == drop_ids(before.ranking, set![id]),
        forall|other: Id|
            other != id ==> (#[trigger] after.is_root(other) <==> before.is_root(other)),
        forall|i: int|
            0 <= i < before.ranking.len() && before.ranking[i] != id
                ==> after.people[#[trigger] before.ranking[i]].power_level
                == before.people[before.ranking[i]].power_level,
    ensures
        after.ranking_wf_without(id),
        !after.ranking.contains(id),
        !after.is_root(id) ==> after.ranking_wf(),
{
    assert(before.ranking.contains(id));
    let position = choose|i: int| 0 <= i < before.ranking.len() && before.ranking[i] == id;
    lemma_drop_ids_one(before.ranking, position);
    lemma_drop_ids_members(before.ranking, set![id]);
    assert forall|i: int| 0 <= i < after.ranking.len() implies #[trigger] after.rank_at(i) == (if i
        < position {
        before.rank_at(i)
    } else {
        before.rank_at(i + 1)
    }) by {
        if i < position {
            assert(after.ranking[i] == before.ranking[i]);
        } else {
            assert(after.ranking[i] == before.ranking[i + 1]);
        }
    }
    assert forall|i: int| 0 <= i < after.ranking.len() implies after.is_root(
        #[trigger] after.ranking[i],
    ) by {
        assert(after.ranking.contains(after.ranking[i]));
        let a = if i < position { i } else { i + 1 };
        assert(before.is_root(before.ranking[a]));
    }
    assert forall|other: Id| other != id && #[trigger] after.is_root(
        other,
    ) implies after.ranking.contains(other) by {
        assert(before.is_root(other));
        assert(before.ranking.contains(other));
    }
    assert forall|i: int, j: int| 0 <= i < j < after.ranking.len() implies #[trigger] after.rank_at(
        i,
    ) <= #[trigger] after.rank_at(j) by {
        let a = if i < position { i } else { i + 1 };
        let b = if j < position { j } else { j + 1 };
        assert(before.rank_at(a) <= before.rank_at(b));
    }
}

impl World {
    /// The rank of the level of the root at position `i`.
    fn rank_at(&self, i: usize) -> (r: i64)
        requires
            self@.ranking_in_order(),
            i < self@.ranking.len(),
        ensures
            r as int == self@.rank_at(i as int),
    {
        let id: Id = self.people_by_power_level[i];
        assert(self@.people.contains_key(self@.ranking[i as int]));
        let person = self.people.get(&id);
        match person {
            Some(person) => level_rank(person.power_level),
            None => vstd::pervasive::unreached(),
        }
    }

    /// The position in the ranking at which the levels stop being below
    /// `power_level`: the number of roots that are weaker.
    pub fn get_power_level_index(&self, power_level: u64) -> (position: usize)
        requires
            self.wf(),
            is_number(power_level),
        ensures
            self@.is_lower_position(rank(power_level), position as int),
            position as int == self@.lower_position(rank(power_level)),
    {
        assert(self@.ranking_in_order()) by {
            assert forall|i: int| 0 <= i < self@.ranking.len() implies self@.people.contains_key(
                #[trigger] self@.ranking[i],
            ) by {
                assert(self@.is_root(self@.ranking[i]));
            }
        }
        self.position_below(power_level)
    }

    /// The number of entries of the ranking that are below `power_level`,
    /// found by binary search.
    pub(crate) fn position_below(&self, power_level: u64) -> (position: usize)
        requires
            self@.ranking_in_order(),
        ensures
            self@.is_lower_position(rank(power_level), position as int),
            position as int == self@.lower_position(rank(power_level)),
    {
        let target: i64 = level_rank(power_level);
        let mut low: usize = 0;
        let mut high: usize = self.people_by_power_level.len();
        while low < high
            invariant
                self@.ranking_in_order(),
                target as int == rank(power_level),
                0 <= low <= high <= self@.ranking.len(),
                forall|i: int| 0 <= i < low ==> #[trigger] self@.rank_at(i) < target,
                forall|i: int| high <= i < self@.ranking.len() ==> #[trigger] self@.rank_at(i) >= target,
            decreases high - low,
        {
            let mid: usize = low + (high - low) / 2;
            let here: i64 = self.rank_at(mid);
            if here < target {
                assert forall|i: int| 0 <= i < mid + 1 implies #[trigger] self@.rank_at(i)
                    < target by {
                    if i < mid {
                        assert(self@.rank_at(i) <= self@.rank_at(mid as int));
                    }
                }
                low = mid + 1;
            } else {
                assert forall|i: int| mid <= i < self@.ranking.len() implies #[trigger] self@.rank_at(
                    i,
                ) >= target by {
                    if mid < i {
                        assert(self@.rank_at(mid as int) <= self@.rank_at(i));
                    }
                }
                high = mid;
            }
        }
        proof {
            lemma_lower_position_unique(self@, rank(power_level), low as int, low as int);
        }
        low
    }

    /// The position in the ranking at which the levels start being above
    /// `power_level`: the number of roots that are not stronger.
    pub fn get_power_level_index_after(&self, power_level: u64) -> (position: usize)
        requires
            self.wf(),
            is_number(power_level),
        ensures
            self@.is_upper_position(rank(power_level), position as int),
            position as int == self@.upper_position(rank(power_level)),
    {
        assert(self@.ranking_in_order()) by {
            assert forall|i: int| 0 <= i < self@.ranking.len() implies self@.people.contains_key(
                #[trigger] self@.ranking[i],
            ) by {
                assert(self@.is_root(self@.ranking[i]));
            }
        }
        self.position_up_to(power_level)
    }

    /// The number of entries of the ranking that are at or below
    /// `power_level`, found by binary search.
    pub(crate) fn position_up_to(&self, power_level: u64) -> (position: usize)
        requires
            self@.ranking_in_order(),
        ensures
            self@.is_upper_position(rank(power_level), position as int),
            position as int == self@.upper_position(rank(power_level)),
    {
        let target: i64 = level_rank(power_level);
        let mut low: usize = 0;
        let mut high: usize = self.people_by_power_level.len();
        while low < high
            invariant
                self@.ranking_in_order(),
                target as int == rank(power_level),
                0 <= low <= high <= self@.ranking.len(),
                forall|i: int| 0 <= i < low ==> #[trigger] self@.rank_at(i) <= target,
                forall|i: int| high <= i < self@.ranking.len() ==> #[trigger] self@.rank_at(i) > target,
            decreases high - low,
        {
            let mid: usize = low + (high - low) / 2;
            let here: i64 = self.rank_at(mid);
            if here <= target {
                assert forall|i: int| 0 <= i < mid + 1 implies #[trigger] self@.rank_at(i)
                    <= target by {
                    if i < mid {
                        assert(self@.rank_at(i) <= self@.rank_at(mid as int));
                    }
                }
                low = mid + 1;
            } else {
                assert forall|i: int| mid <= i < self@.ranking.len() implies #[trigger] self@.rank_at(
                    i,
                ) > target by {
                    if mid < i {
                        assert(self@.rank_at(mid as int) <= self@.rank_at(i));
                    }
                }
                high = mid;
            }
        }
        proof {
            lemma_upper_position_unique(self@, rank(power_level), low as int, low as int);
        }
        low
    }

    /// The roots whose power level lies between `from` and `to`, weakest
    /// first.
    ///
    /// The two places in the ranking are found by binary search and then
    /// taken no further than the last entry, so the strongest root is never
    /// part of the answer. Bounds that meet or cross give an empty answer,
    /// and so does an empty ranking.
    pub fn get_power_level_range(&self, from: u64, to: u64) -> (ids: &[Id])
        requires
            self.wf(),
            is_number(from),
            is_number(to),
        ensures
            ids@ == self@.span(rank(from), rank(to)),
    {
        let len: usize = self.people_by_power_level.len();
        if len == 0 {
            return vstd::slice::slice_subrange(self.people_by_power_level.as_slice(), 0, 0);
        }
        let index_from: usize = self.get_power_level_index(from);
        let index_to: usize = self.get_power_level_index(to);
        let index_from: usize = if index_from >= len {
            len - 1
        } else {
            index_from
        };
        let index_to: usize = if index_to >= len {
            len - 1
        } else {
            index_to
        };
        if index_from >= index_to {
            return vstd::slice::slice_subrange(self.people_by_power_level.as_slice(), 0, 0);
        }
        vstd::slice::slice_subrange(self.people_by_power_level.as_slice(), index_from, index_to)
    }

    /// The position of the root `id` in the ranking.
    pub(crate) fn find_in_ranking(&self, id: Id) -> (position: usize)
        requires
            self.wf(),
            self@.is_root(id),
        ensures
            position < self@.ranking.len(),
            self@.ranking[position as int] == id,
    {
        let power_level: u64 = match self.people.get(&id) {
            Some(person) => person.power_level,
            None => vstd::pervasive::unreached(),
        };
        let start: usize = self.get_power_level_index(power_level);
        let mut i: usize = start;
        assert(self@.ranking.contains(id));
        let ghost place = choose|i: int| 0 <= i < self@.ranking.len() && self@.ranking[i] == id;
        assert(self@.rank_at(place) == rank(power_level));
        while self.people_by_power_level[i] != id
            invariant
                self.wf(),
                0 <= place < self@.ranking.len(),
                self@.ranking[place] == id,
                start <= i <= place,
            decreases place - i,
        {
            assert(self@.ranking[i as int] != id);
            assert(i < place < self.people_by_power_level.len());
            i = i + 1;
        }
        i
    }
}

impl WorldView {
    /// The registry after the power level of `id` has become `power_level`.
    /// A root moves within the ranking: it leaves its place and enters again
    /// behind every root that is not stronger than it now is.
    pub open spec fn with_power_level(self, id: Id, power_level: u64) -> WorldView {
        let people = self.people.insert(id, (PersonView { power_level, ..self.people[id] }));
        if self.is_root(id) {
            let lifted = WorldView { people, ranking: drop_ids(self.ranking, set![id]), ..self };
            WorldView {
                ranking: lifted.ranking.insert(lifted.upper_position(rank(power_level)), id),
                ..lifted
            }
        } else {
            WorldView { people, ..self }
        }
    }
}

/// A registry keeps its links and stays a forest when the record of one
/// person is replaced by one with the same id and the same links, and with a
/// finite power level.
pub proof fn lemma_record_keeps_links(world: WorldView, after: WorldView, id: Id, record: PersonView)
    requires
        world.links_wf(),
        is_forest(world.people),
        world.people.contains_key(id),
        record.id == id,
        record.leader == world.people[id].leader,
        record.subordinates == world.people[id].subordinates,
        is_finite(record.power_level),
        after.people == world.people.insert(id, record),
        after.next_id == world.next_id,
    ensures
        after.links_wf(),
        is_forest(after.people),
        forall|other: Id| #[trigger] after.is_root(other) <==> world.is_root(other),
{
    assert(after.people.dom() =~= world.people.dom());
    assert forall|other: Id, k: int|
        after.people.contains_key(other) && 0 <= k < after.people[other].subordinates.len() implies {
        let sub = #[trigger] after.people[other].subordinates[k];
        after.people.contains_key(sub) && after.people[sub].leader == Some(other)
    } by {
        assert(world.people.contains_key(other));
        let sub = world.people[other].subordinates[k];
        assert(world.people.contains_key(sub));
    }
    let (depth, height) = choose|depth: spec_fn(Id) -> nat, height: spec_fn(Id) -> nat|
        is_layering(world.people, depth, height);
    assert forall|other: Id| #[trigger] after.people.contains_key(other) implies (
    after.people[other].leader matches Some(above) ==> depth(above) < depth(other) && height(other)
        < height(above)) by {
        assert(world.people.contains_key(other));
    }
    assert(is_layering(after.people, depth, height));
}

impl World {
    /// Gives `id` a new power level. A root is moved to its new place in the
    /// ranking at once, behind every root that is not stronger than it now
    /// is; the ranking is in order after every change.
    ///
    /// A power level that is not finite is refused, whoever is named; an id
    /// that names nobody is refused. Nothing changes then.
    pub fn update_power_level(&mut self, id: Id, new_power_level: u64) -> (done: Result<
        (),
        WorldError,
    >)
        requires
            old(self).wf(),
        ensures
            final(self).wf(),
            done is Ok <==> is_finite(new_power_level) && old(self)@.people.contains_key(id),
            done is Ok ==> final(self)@ == old(self)@.with_power_level(id, new_power_level),
            done matches Err(fault) ==> final(self)@ == old(self)@ && fault == (if !is_finite(
                new_power_level,
            ) {
                WorldError::InvalidPowerLevel
            } else {
                WorldError::NotFound
            }),
    {
        let ghost before = self@;
        if !level_is_finite(new_power_level) {
            return Err(WorldError::InvalidPowerLevel);
        }
        let leader = match self.people.get(&id) {
            Some(person) => person.leader,
            None => {
                return Err(WorldError::NotFound);
            },
        };
        match leader {
            Some(_) => {
                let mut person = self.take_person(id);
                person.power_level = new_power_level;
                self.put_person(id, person);
                proof {
                    assert(self@.people =~= before.people.insert(
                        id,
                        (PersonView { power_level: new_power_level, ..before.people[id] }),
                    ));
                    assert(self@ == before.with_power_level(id, new_power_level));
                    lemma_record_keeps_links(before, self@, id, self@.people[id]);
                    assert(self@.ranking_wf()) by {
                        assert forall|i: int| 0 <= i < self@.ranking.len() implies #[trigger] self@.rank_at(
                            i,
                        ) == before.rank_at(i) by {
                            assert(before.is_root(before.ranking[i]));
                        }
                    }
                }
            },
            None => {
                let place: usize = self.find_in_ranking(id);
                self.people_by_power_level.remove(place);
                let mut person = self.take_person(id);
                person.power_level = new_power_level;
                self.put_person(id, person);
                let ghost lifted = self@;
                proof {
                    lemma_drop_ids_one(before.ranking, place as int);
                    assert(lifted.people =~= before.people.insert(
                        id,
                        (PersonView { power_level: new_power_level, ..before.people[id] }),
                    ));
                    lemma_record_keeps_links(before, lifted, id, lifted.people[id]);
                    lemma_ranking_loses(before, lifted, id);
                    assert(lifted.ranking_in_order()) by {
                        assert forall|i: int| 0 <= i < lifted.ranking.len() implies lifted.people.contains_key(
                            #[trigger] lifted.ranking[i],
                        ) by {
                            assert(lifted.is_root(lifted.ranking[i]));
                        }
                    }
                }
                let position: usize = self.position_up_to(new_power_level);
                self.people_by_power_level.insert(position, id);
                proof {
                    let after = self@;
                    assert(after == before.with_power_level(id, new_power_level));
                    assert(fits_at(lifted, rank(new_power_level), position as int));
                    lemma_ranking_gains(lifted, after, id, position as int);
                }
            },
        }
        Ok(())
    }
}

} // verus!
