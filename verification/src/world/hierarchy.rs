//! Leaders and those they lead.
//!
//! The leader links turn the people into a forest. This module says what it
//! means to stand under somebody, lists the people under a leader in
//! depth-first order, and changes who leads whom without ever closing a
//! cycle.

use crate::world::links::{drop_ids, lemma_drop_ids_members, lemma_drop_ids_one};
use crate::world::power::rank;
use crate::world::ranking::{
    fits_at, lemma_positions, lemma_ranking_gains, lemma_ranking_loses,
    lemma_upper_position_unique,
};
use crate::world::{is_forest, is_layering, Id, PersonView, World, WorldError, WorldView};
use vstd::prelude::*;

verus! {

broadcast use vstd::std_specs::hash::group_hash_axioms;

/// The person reached from `id` by following leaders `steps` times, if the
/// chain of leaders is that long.
pub open spec fn ancestor_at(people: Map<Id, PersonView>, id: Id, steps: nat) -> Option<Id>
    decreases steps,
{
    if !people.contains_key(id) {
        None
    } else if steps == 0 {
        Some(id)
    } else {
        match people[id].leader {
            Some(leader) => ancestor_at(people, leader, (steps - 1) as nat),
            None => None,
        }
    }
}

/// Whether `below` is `above` itself or is led by it, directly or through
/// others.
pub open spec fn is_under(people: Map<Id, PersonView>, below: Id, above: Id) -> bool {
    exists|steps: nat| ancestor_at(people, below, steps) == Some(above)
}

/// Whether everybody listed as a subordinate exists and names the one who
/// lists it as its leader.
pub open spec fn subordinates_linked(people: Map<Id, PersonView>) -> bool {
    forall|id: Id, k: int|
        people.contains_key(id) && 0 <= k < people[id].subordinates.len() ==> {
            let sub = #[trigger] people[id].subordinates[k];
            people.contains_key(sub) && people[sub].leader == Some(id)
        }
}

/// How high a person stands in some fixed layering of the forest: higher
/// than everybody it leads.
pub open spec fn height_of(people: Map<Id, PersonView>, id: Id) -> nat {
    let (depth, height) = choose|depth: spec_fn(Id) -> nat, height: spec_fn(Id) -> nat|
        is_layering(people, depth, height);
    height(id)
}

/// The person `id` followed by everybody under it, depth first: each
/// subordinate, in the order in which it is listed, with all of its own
/// before the next.
pub open spec fn subtree(people: Map<Id, PersonView>, id: Id) -> Seq<Id>
    decreases height_of(people, id), 1nat, 0nat,
{
    if is_forest(people) && subordinates_linked(people) && people.contains_key(id) {
        seq![id] + subtrees_from(people, id, 0)
    } else {
        Seq::empty()
    }
}

/// Everybody under the subordinates of `id` from the one listed at position
/// `k` on, those subordinates included, depth first.
pub open spec fn subtrees_from(people: Map<Id, PersonView>, id: Id, k: nat) -> Seq<Id>
    decreases height_of(people, id), 0nat, people[id].subordinates.len() - k,
{
    if is_forest(people) && subordinates_linked(people) && people.contains_key(id) && k
        < people[id].subordinates.len() {
        subtree(people, people[id].subordinates[k as int]) + subtrees_from(people, id, k + 1)
    } else {
        Seq::empty()
    }
}

/// The power levels of the listed people, in the same order.
pub open spec fn levels_of(people: Map<Id, PersonView>, ids: Seq<Id>) -> Seq<u64> {
    ids.map_values(|id: Id| people[id].power_level)
}

/// Who is listed from the subordinate at position `k` on: those listed
/// under one of these subordinates.
pub proof fn lemma_subtrees_from_members(people: Map<Id, PersonView>, id: Id, k: nat, x: Id)
    requires
        is_forest(people),
        subordinates_linked(people),
        people.contains_key(id),
    ensures
        subtrees_from(people, id, k).contains(x) <==> exists|j: int|
            k <= j < people[id].subordinates.len() && #[trigger] subtree(
                people,
                people[id].subordinates[j],
            ).contains(x),
    decreases people[id].subordinates.len() - k,
{
    let listed = people[id].subordinates;
    if k < listed.len() {
        let here = subtree(people, listed[k as int]);
        let rest = subtrees_from(people, id, k + 1);
        lemma_subtrees_from_members(people, id, k + 1, x);
        assert(subtrees_from(people, id, k) == here + rest);
        if here.contains(x) {
            let m = choose|m: int| 0 <= m < here.len() && here[m] == x;
            assert((here + rest)[m] == x);
        }
        if rest.contains(x) {
            let m = choose|m: int| 0 <= m < rest.len() && rest[m] == x;
            assert((here + rest)[here.len() + m] == x);
            let j = choose|j: int|
                k + 1 <= j < listed.len() && #[trigger] subtree(people, listed[j]).contains(x);
            assert(k <= j < listed.len() && subtree(people, listed[j]).contains(x));
        }
        if (here + rest).contains(x) {
            let m = choose|m: int| 0 <= m < (here + rest).len() && (here + rest)[m] == x;
            if m < here.len() {
                assert(here[m] == x);
                assert(subtree(people, listed[k as int]).contains(x));
            } else {
                assert(rest[m - here.len()] == x);
            }
        }
        if exists|j: int|
            k <= j < listed.len() && #[trigger] subtree(people, listed[j]).contains(x) {
            let j = choose|j: int|
                k <= j < listed.len() && #[trigger] subtree(people, listed[j]).contains(x);
            if j > k {
                assert(k + 1 <= j < listed.len() && subtree(people, listed[j]).contains(x));
            }
        }
    }
}

/// Whoever is listed under `id` stands under it.
pub proof fn lemma_listed_is_under(world: WorldView, id: Id, x: Id)
    requires
        world.links_wf(),
        is_forest(world.people),
        world.people.contains_key(id),
        subtree(world.people, id).contains(x),
    ensures
        is_under(world.people, x, id),
    decreases height_of(world.people, id),
{
    let people = world.people;
    let listed = people[id].subordinates;
    assert(subordinates_linked(people));
    assert(leaders_exist(people));
    let all = subtree(people, id);
    let below = subtrees_from(people, id, 0);
    assert(all == seq![id] + below);
    let m = choose|m: int| 0 <= m < all.len() && all[m] == x;
    if m == 0 {
        assert(ancestor_at(people, id, 0) == Some(id));
    } else {
        assert(below[m - 1] == x);
        assert(below.contains(x));
        lemma_subtrees_from_members(people, id, 0, x);
        let j = choose|j: int|
            0 <= j < listed.len() && #[trigger] subtree(people, listed[j]).contains(x);
        let sub = people[id].subordinates[j];
        assert(people.contains_key(sub) && people[sub].leader == Some(id));
        let (depth, height) = choose|depth: spec_fn(Id) -> nat, height: spec_fn(Id) -> nat|
            is_layering(people, depth, height);
        assert(height(sub) < height(id));
        lemma_listed_is_under(world, sub, x);
        let steps = choose|steps: nat| ancestor_at(people, x, steps) == Some(sub);
        lemma_ancestor_step(people, x, steps);
        assert(ancestor_at(people, x, steps + 1) == Some(id));
    }
}

/// Whoever is led by somebody listed under `id` is listed under `id` too.
pub proof fn lemma_led_is_listed(world: WorldView, id: Id, leader: Id, x: Id)
    requires
        world.links_wf(),
        is_forest(world.people),
        world.people.contains_key(id),
        subtree(world.people, id).contains(leader),
        world.people.contains_key(x),
        world.people[x].leader == Some(leader),
    ensures
        subtree(world.people, id).contains(x),
    decreases height_of(world.people, id),
{
    let people = world.people;
    let listed = people[id].subordinates;
    assert(subordinates_linked(people));
    let all = subtree(people, id);
    let below = subtrees_from(people, id, 0);
    assert(all == seq![id] + below);
    let m = choose|m: int| 0 <= m < all.len() && all[m] == leader;
    let (depth, height) = choose|depth: spec_fn(Id) -> nat, height: spec_fn(Id) -> nat|
        is_layering(people, depth, height);
    let via: int;
    if m == 0 {
        assert(leader == id);
        assert(listed.contains(x));
        via = choose|j: int| 0 <= j < listed.len() && listed[j] == x;
        let sub = people[id].subordinates[via];
        assert(subtree(people, sub)[0] == x);
    } else {
        assert(below[m - 1] == leader);
        assert(below.contains(leader));
        lemma_subtrees_from_members(people, id, 0, leader);
        via = choose|j: int|
            0 <= j < listed.len() && #[trigger] subtree(people, listed[j]).contains(leader);
        let sub = people[id].subordinates[via];
        assert(people.contains_key(sub) && people[sub].leader == Some(id));
        assert(height(sub) < height(id));
        lemma_led_is_listed(world, sub, leader, x);
    }
    assert(subtree(people, listed[via]).contains(x));
    lemma_subtrees_from_members(people, id, 0, x);
    assert(below.contains(x));
    let n = choose|n: int| 0 <= n < below.len() && below[n] == x;
    assert(all[n + 1] == x);
}

/// The people listed under `id` are those who stand under it: `id` itself
/// and everybody it leads, directly or through others.
pub proof fn lemma_subtree_members(world: WorldView, id: Id, x: Id)
    requires
        world.links_wf(),
        is_forest(world.people),
        world.people.contains_key(id),
    ensures
        subtree(world.people, id).contains(x) <==> is_under(world.people, x, id),
{
    if subtree(world.people, id).contains(x) {
        lemma_listed_is_under(world, id, x);
    }
    if is_under(world.people, x, id) {
        let steps = choose|steps: nat| ancestor_at(world.people, x, steps) == Some(id);
        lemma_under_is_listed(world, id, x, steps);
    }
}

/// Whoever reaches `id` by following leaders is listed under it.
proof fn lemma_under_is_listed(world: WorldView, id: Id, x: Id, steps: nat)
    requires
        world.links_wf(),
        is_forest(world.people),
        world.people.contains_key(id),
        ancestor_at(world.people, x, steps) == Some(id),
    ensures
        subtree(world.people, id).contains(x),
    decreases steps,
{
    let people = world.people;
    assert(subordinates_linked(people));
    if steps == 0 {
        assert(subtree(people, id)[0] == id);
    } else {
        let leader = people[x].leader.unwrap();
        lemma_under_is_listed(world, id, leader, (steps - 1) as nat);
        lemma_led_is_listed(world, id, leader, x);
    }
}

impl WorldView {
    /// The registry after `id` has lost its leader: the leader no longer
    /// lists it, and it enters the ranking behind every root that is not
    /// stronger. A root is left as it is.
    pub open spec fn orphaned(self, id: Id) -> WorldView {
        match self.people[id].leader {
            None => self,
            Some(leader) => WorldView {
                people: self.people.insert(
                    leader,
                    (PersonView {
                        subordinates: drop_ids(self.people[leader].subordinates, set![id]),
                        ..self.people[leader]
                    }),
                ).insert(id, (PersonView { leader: None, ..self.people[id] })),
                ranking: self.ranking.insert(
                    self.upper_position(rank(self.people[id].power_level)),
                    id,
                ),
                ..self
            },
        }
    }
}

/// Nobody leads itself, and no two people lead each other.
pub proof fn lemma_no_short_cycles(world: WorldView, id: Id)
    requires
        is_forest(world.people),
        world.links_wf(),
        world.people.contains_key(id),
    ensures
        world.people[id].leader != Some(id),
        world.people[id].leader matches Some(leader) ==> world.people[leader].leader != Some(id),
{
    let (depth, height) = choose|depth: spec_fn(Id) -> nat, height: spec_fn(Id) -> nat|
        is_layering(world.people, depth, height);
    if let Some(leader) = world.people[id].leader {
        assert(world.people.contains_key(leader));
        assert(depth(leader) < depth(id));
    }
}

/// A consistent registry stays consistent when a person loses its leader.
pub proof fn lemma_orphaned_wf(world: WorldView, id: Id, position: int)
    requires
        world.wf(),
        world.people.contains_key(id),
        world.is_upper_position(rank(world.people[id].power_level), position),
    ensures
        world.orphaned(id).wf(),
{
    let after = world.orphaned(id);
    if let Some(leader) = world.people[id].leader {
        lemma_no_short_cycles(world, id);
        lemma_upper_position_unique(world, rank(world.people[id].power_level), position, position);
        let listed = world.people[leader].subordinates;
        lemma_drop_ids_members(listed, set![id]);
        assert(world.people.contains_key(leader));
        assert(leader != id);
        assert(after.people.dom() =~= world.people.dom());
        assert forall|other: Id| #[trigger] after.people.contains_key(other) implies {
            &&& after.people[other].id == other
            &&& other < after.next_id
            &&& crate::world::power::is_finite(after.people[other].power_level)
            &&& after.people[other].subordinates.no_duplicates()
            &&& (after.people[other].leader matches Some(above) ==> after.people.contains_key(
                above,
            ) && after.people[above].subordinates.contains(other))
        } by {
            assert(world.people.contains_key(other));
            if let Some(above) = after.people[other].leader {
                assert(other != id);
                assert(world.people[other].leader == Some(above));
                assert(world.people[above].subordinates.contains(other));
                if above == leader {
                    assert(drop_ids(listed, set![id]).contains(other));
                }
            }
        }
        assert forall|other: Id, k: int|
            after.people.contains_key(other) && 0 <= k < after.people[other].subordinates.len() implies {
            let sub = #[trigger] after.people[other].subordinates[k];
            after.people.contains_key(sub) && after.people[sub].leader == Some(other)
        } by {
            let sub = after.people[other].subordinates[k];
            assert(world.people.contains_key(other));
            if other == leader {
                assert(drop_ids(listed, set![id]).contains(sub));
                assert(listed.contains(sub) && sub != id);
                let j = choose|j: int| 0 <= j < listed.len() && listed[j] == sub;
                assert(world.people[leader].subordinates[j] == sub);
            } else {
                assert(world.people[other].subordinates[k] == sub);
                assert(world.people[sub].leader == Some(other));
                assert(sub != id);
            }
        }
        assert(after.links_wf());
        assert(is_forest(after.people)) by {
            let (depth, height) = choose|depth: spec_fn(Id) -> nat, height: spec_fn(Id) -> nat|
                is_layering(world.people, depth, height);
            assert forall|other: Id| #[trigger] after.people.contains_key(other) implies (
            after.people[other].leader matches Some(above) ==> depth(above) < depth(other)
                && height(other) < height(above)) by {
                assert(world.people.contains_key(other));
            }
            assert(is_layering(after.people, depth, height));
        }
        assert(!world.ranking.contains(id)) by {
            if world.ranking.contains(id) {
                let i = choose|i: int| 0 <= i < world.ranking.len() && world.ranking[i] == id;
                assert(world.is_root(world.ranking[i]));
            }
        }
        assert forall|i: int| 0 <= i < world.ranking.len() implies after.people[#[trigger] world.ranking[i]].power_level
            == world.people[world.ranking[i]].power_level by {
            assert(world.is_root(world.ranking[i]));
        }
        assert(fits_at(world, rank(after.people[id].power_level), position));
        lemma_ranking_gains(world, after, id, position);
    }
}

/// How deep a person lies in some fixed layering of the forest: deeper than
/// its leader.
pub open spec fn depth_of(people: Map<Id, PersonView>, id: Id) -> nat {
    let (depth, height) = choose|depth: spec_fn(Id) -> nat, height: spec_fn(Id) -> nat|
        is_layering(people, depth, height);
    depth(id)
}

/// Whether every leader that is named exists.
pub open spec fn leaders_exist(people: Map<Id, PersonView>) -> bool {
    forall|id: Id| #[trigger]
        people.contains_key(id) ==> (people[id].leader matches Some(leader)
            ==> people.contains_key(leader))
}

/// Whoever is reached by following leaders exists, and one step further
/// leads to its own leader.
pub proof fn lemma_ancestor_step(people: Map<Id, PersonView>, id: Id, steps: nat)
    requires
        leaders_exist(people),
        ancestor_at(people, id, steps) is Some,
    ensures
        people.contains_key(ancestor_at(people, id, steps).unwrap()),
        ancestor_at(people, id, steps + 1) == people[ancestor_at(
            people,
            id,
            steps,
        ).unwrap()].leader,
    decreases steps,
{
    if steps > 0 {
        let leader = people[id].leader.unwrap();
        lemma_ancestor_step(people, leader, (steps - 1) as nat);
        assert(ancestor_at(people, id, steps + 1) == ancestor_at(people, leader, steps));
    } else {
        if let Some(leader) = people[id].leader {
            assert(ancestor_at(people, leader, 0) == Some(leader));
            assert(ancestor_at(people, id, 1) == ancestor_at(people, leader, 0));
        }
    }
}

/// Beyond somebody without a leader, following leaders reaches nobody.
pub proof fn lemma_chain_ends(people: Map<Id, PersonView>, id: Id, steps: nat, further: nat)
    requires
        ancestor_at(people, id, steps) matches Some(top) && people[top].leader is None,
        further > steps,
    ensures
        ancestor_at(people, id, further) is None,
    decreases steps,
{
    if steps > 0 {
        let leader = people[id].leader.unwrap();
        lemma_chain_ends(people, leader, (steps - 1) as nat, (further - 1) as nat);
    }
}

/// Following leaders from `id` reaches the same people in two registries
/// that agree on who exists and on every leader but that of `changed`, as
/// long as `changed` is not among those reached.
pub proof fn lemma_chain_unchanged(
    people: Map<Id, PersonView>,
    other: Map<Id, PersonView>,
    changed: Id,
    id: Id,
    steps: nat,
)
    requires
        people.dom() == other.dom(),
        forall|x: Id|
            x != changed && #[trigger] people.contains_key(x) ==> other[x].leader
                == people[x].leader,
        !is_under(people, id, changed),
    ensures
        ancestor_at(other, id, steps) == ancestor_at(people, id, steps),
    decreases steps,
{
    assert(people.contains_key(id) <==> other.contains_key(id));
    if people.contains_key(id) && steps > 0 {
        assert(ancestor_at(people, id, 0) != Some(changed));
        if let Some(leader) = people[id].leader {
            assert(!is_under(people, leader, changed)) by {
                if is_under(people, leader, changed) {
                    let k = choose|k: nat| ancestor_at(people, leader, k) == Some(changed);
                    assert(ancestor_at(people, id, k + 1) == Some(changed));
                }
            }
            lemma_chain_unchanged(people, other, changed, leader, (steps - 1) as nat);
        }
    }
}

impl WorldView {
    /// The registry after the root `id` has been put under `leader`: the
    /// leader lists it last, and it leaves the ranking.
    pub open spec fn adopted(self, id: Id, leader: Id) -> WorldView {
        WorldView {
            people: self.people.insert(
                leader,
                (PersonView {
                    subordinates: self.people[leader].subordinates.push(id),
                    ..self.people[leader]
                }),
            ).insert(id, (PersonView { leader: Some(leader), ..self.people[id] })),
            ranking: drop_ids(self.ranking, set![id]),
            ..self
        }
    }

    /// The registry after `id` has been put under `leader`, whoever led it
    /// before.
    pub open spec fn with_leader(self, id: Id, leader: Id) -> WorldView {
        self.orphaned(id).adopted(id, leader)
    }
}

/// A consistent registry stays consistent when a root is put under a leader
/// that does not stand under it.
pub proof fn lemma_adopted_wf(world: WorldView, id: Id, leader: Id)
    requires
        world.wf(),
        world.is_root(id),
        world.people.contains_key(leader),
        !is_under(world.people, leader, id),
    ensures
        world.adopted(id, leader).wf(),
{
    let after = world.adopted(id, leader);
    let people = world.people;
    let listed = people[leader].subordinates;
    assert(leader != id) by {
        assert(ancestor_at(people, leader, 0) == Some(leader));
    }
    assert(people[leader].leader != Some(id)) by {
        if people[leader].leader == Some(id) {
            assert(ancestor_at(people, id, 0) == Some(id));
            assert(ancestor_at(people, leader, 1) == Some(id));
        }
    }
    assert(!listed.contains(id)) by {
        if listed.contains(id) {
            let j = choose|j: int| 0 <= j < listed.len() && listed[j] == id;
            assert(people[leader].subordinates[j] == id);
        }
    }
    assert(after.people.dom() =~= people.dom());
    assert forall|other: Id| #[trigger] after.people.contains_key(other) implies {
        &&& after.people[other].id == other
        &&& other < after.next_id
        &&& crate::world::power::is_finite(after.people[other].power_level)
        &&& after.people[other].subordinates.no_duplicates()
        &&& (after.people[other].leader matches Some(above) ==> after.people.contains_key(above)
            && after.people[above].subordinates.contains(other))
    } by {
        assert(people.contains_key(other));
        if other == leader {
            assert(listed.push(id).no_duplicates()) by {
                assert forall|i: int, j: int|
                    0 <= i < listed.len() + 1 && 0 <= j < listed.len() + 1 && i != j implies listed.push(
                    id,
                )[i] != listed.push(id)[j] by {
                    if i < listed.len() {
                        assert(listed.contains(listed[i]));
                    }
                    if j < listed.len() {
                        assert(listed.contains(listed[j]));
                    }
                }
            }
        }
        if let Some(above) = after.people[other].leader {
            if other == id {
                assert(listed.push(id)[listed.len() as int] == id);
            } else {
                assert(people[other].leader == Some(above));
                assert(people[above].subordinates.contains(other));
                if above == leader {
                    let j = choose|j: int| 0 <= j < listed.len() && listed[j] == other;
                    assert(listed.push(id)[j] == other);
                }
            }
        }
    }
    assert forall|other: Id, k: int|
        after.people.contains_key(other) && 0 <= k < after.people[other].subordinates.len() implies {
        let sub = #[trigger] after.people[other].subordinates[k];
        after.people.contains_key(sub) && after.people[sub].leader == Some(other)
    } by {
        let sub = after.people[other].subordinates[k];
        assert(people.contains_key(other));
        if other == leader && k == listed.len() {
        } else {
            assert(people[other].subordinates[k] == sub);
            assert(people.contains_key(sub) && people[sub].leader == Some(other));
        }
    }
    assert(after.links_wf());
    assert(is_forest(after.people)) by {
        let (depth, height) = choose|depth: spec_fn(Id) -> nat, height: spec_fn(Id) -> nat|
            is_layering(people, depth, height);
        let deeper = |x: Id|
            if is_under(people, x, id) {
                depth(x) + depth(leader) + 1
            } else {
                depth(x)
            };
        let higher = |x: Id|
            if is_under(people, leader, x) {
                height(x) + height(id) + 1
            } else {
                height(x)
            };
        assert(ancestor_at(people, id, 0) == Some(id));
        assert(ancestor_at(people, leader, 0) == Some(leader));
        assert(is_under(people, id, id));
        assert(is_under(people, leader, leader));
        assert forall|other: Id| #[trigger] after.people.contains_key(other) implies (
        after.people[other].leader matches Some(above) ==> deeper(above) < deeper(other)
            && higher(other) < higher(above)) by {
            assert(people.contains_key(other));
            if let Some(above) = after.people[other].leader {
                if other != id {
                    assert(people[other].leader == Some(above));
                    assert(depth(above) < depth(other) && height(other) < height(above));
                    if is_under(people, other, id) {
                        let k = choose|k: nat| ancestor_at(people, other, k) == Some(id);
                        assert(k > 0);
                        assert(ancestor_at(people, above, (k - 1) as nat) == Some(id));
                        assert(is_under(people, above, id));
                    }
                    if is_under(people, above, id) {
                        let k = choose|k: nat| ancestor_at(people, above, k) == Some(id);
                        assert(ancestor_at(people, other, k + 1) == Some(id));
                        assert(is_under(people, other, id));
                    }
                    if is_under(people, leader, other) {
                        let k = choose|k: nat| ancestor_at(people, leader, k) == Some(other);
                        lemma_ancestor_step(people, leader, k);
                        assert(ancestor_at(people, leader, k + 1) == Some(above));
                        assert(is_under(people, leader, above));
                    }
                }
            }
        }
        assert(is_layering(after.people, deeper, higher));
    }
    lemma_ranking_loses(world, after, id);
}

impl World {
    /// Whether `below` is `above` itself or is led by it, directly or
    /// through others. The search climbs from `below` leader by leader.
    pub fn stands_under(&self, below: Id, above: Id) -> (yes: bool)
        requires
            self.wf(),
            self@.people.contains_key(below),
        ensures
            yes == is_under(self@.people, below, above),
    {
        let ghost people = self@.people;
        let mut current: Id = below;
        let ghost mut steps: nat = 0;
        assert(leaders_exist(people));
        loop
            invariant
                self.wf(),
                people == self@.people,
                leaders_exist(people),
                people.contains_key(current),
                ancestor_at(people, below, steps) == Some(current),
                forall|j: nat| j < steps ==> ancestor_at(people, below, j) != Some(above),
            decreases depth_of(people, current),
        {
            if current == above {
                return true;
            }
            let leader = match self.people.get(&current) {
                Some(person) => person.leader,
                None => vstd::pervasive::unreached(),
            };
            match leader {
                None => {
                    proof {
                        assert forall|j: nat| ancestor_at(people, below, j) != Some(above) by {
                            if j > steps {
                                lemma_chain_ends(people, below, steps, j);
                            }
                        }
                    }
                    return false;
                },
                Some(leader) => {
                    proof {
                        lemma_ancestor_step(people, below, steps);
                        let (depth, height) = choose|
                            depth: spec_fn(Id) -> nat,
                            height: spec_fn(Id) -> nat,
                        |
                            is_layering(people, depth, height);
                        assert(depth(leader) < depth(current));
                        steps = steps + 1;
                    }
                    current = leader;
                },
            }
        }
    }

    /// Puts the root `id` under `leader`.
    fn adopt(&mut self, id: Id, leader: Id)
        requires
            old(self).wf(),
            old(self)@.is_root(id),
            old(self)@.people.contains_key(leader),
            !is_under(old(self)@.people, leader, id),
        ensures
            final(self).wf(),
            final(self)@ == old(self)@.adopted(id, leader),
    {
        let ghost before = self@;
        proof {
            lemma_adopted_wf(before, id, leader);
            assert(ancestor_at(before.people, leader, 0) == Some(leader));
        }
        let position: usize = self.find_in_ranking(id);
        proof {
            lemma_drop_ids_one(before.ranking, position as int);
        }
        self.people_by_power_level.remove(position);
        self.record_subordinate(leader, id);
        self.record_leader(id, Some(leader));
        assert(self@ == before.adopted(id, leader));
    }

    /// Puts `id` under `leader`.
    ///
    /// Whoever led `id` before no longer lists it; `leader` lists it last;
    /// and `id` is no root any more. Those under `id` stay under it. The
    /// request is refused, and nothing changes, when either person is
    /// missing, or when `leader` is `id` or stands under it: the links would
    /// close a cycle.
    pub fn set_leader(&mut self, id: Id, leader: Id) -> (done: Result<(), WorldError>)
        requires
            old(self).wf(),
        ensures
            final(self).wf(),
            done is Ok <==> old(self)@.people.contains_key(id) && old(self)@.people.contains_key(
                leader,
            ) && !is_under(old(self)@.people, leader, id),
            done is Ok ==> final(self)@ == old(self)@.with_leader(id, leader),
            done matches Err(fault) ==> final(self)@ == old(self)@ && fault == (if old(
                self,
            )@.people.contains_key(id) && old(self)@.people.contains_key(leader) {
                WorldError::HierarchyCycle
            } else {
                WorldError::NotFound
            }),
    {
        let ghost before = self@;
        if !self.people.contains_key(&id) || !self.people.contains_key(&leader) {
            return Err(WorldError::NotFound);
        }
        if self.stands_under(leader, id) {
            return Err(WorldError::HierarchyCycle);
        }
        let previous = match self.people.get(&id) {
            Some(person) => person.leader,
            None => vstd::pervasive::unreached(),
        };
        match previous {
            None => {
                self.adopt(id, leader);
            },
            Some(previous) => {
                let ghost orphaned = before.orphaned(id);
                let ghost after = orphaned.adopted(id, leader);
                proof {
                    let level_rank = rank(before.people[id].power_level);
                    assert(before.ranking_in_order()) by {
                        assert forall|i: int|
                            0 <= i < before.ranking.len() implies before.people.contains_key(
                            #[trigger] before.ranking[i],
                        ) by {
                            assert(before.is_root(before.ranking[i]));
                        }
                    }
                    lemma_positions(before, level_rank);
                    let position = before.upper_position(level_rank);
                    lemma_orphaned_wf(before, id, position);
                    lemma_no_short_cycles(before, id);
                    assert(orphaned.people.dom() =~= before.people.dom());
                    assert(!is_under(orphaned.people, leader, id)) by {
                        assert forall|k: nat| ancestor_at(orphaned.people, leader, k) != Some(
                            id,
                        ) by {
                            lemma_chain_unchanged(before.people, orphaned.people, id, leader, k);
                        }
                    }
                    lemma_adopted_wf(orphaned, id, leader);
                    assert(ancestor_at(before.people, leader, 0) == Some(leader));
                    assert(orphaned.ranking[position] == id);
                    lemma_drop_ids_one(orphaned.ranking, position);
                    assert(orphaned.ranking.remove(position) =~= before.ranking);
                }
                self.strike_subordinate(previous, id);
                self.record_subordinate(leader, id);
                self.record_leader(id, Some(leader));
                proof {
                    assert(self@.people =~= after.people);
                    assert(self@ == after);
                }
            },
        }
        Ok(())
    }

    /// Takes the leader of `id` away: the leader no longer lists it, and it
    /// enters the ranking as a root, behind every root that is not stronger.
    /// Those under `id` stay under it. A root is left as it is.
    pub fn clear_leader(&mut self, id: Id) -> (done: Result<(), WorldError>)
        requires
            old(self).wf(),
        ensures
            final(self).wf(),
            done is Ok <==> old(self)@.people.contains_key(id),
            done is Ok ==> final(self)@ == old(self)@.orphaned(id),
            done matches Err(fault) ==> fault == WorldError::NotFound && final(self)@ == old(
                self,
            )@,
    {
        let ghost before = self@;
        let (leader, power_level) = match self.people.get(&id) {
            Some(person) => (person.leader, person.power_level),
            None => {
                return Err(WorldError::NotFound);
            },
        };
        match leader {
            None => {},
            Some(leader) => {
                let position: usize = self.get_power_level_index_after(power_level);
                proof {
                    lemma_orphaned_wf(before, id, position as int);
                    lemma_no_short_cycles(before, id);
                }
                self.strike_subordinate(leader, id);
                self.record_leader(id, None);
                self.people_by_power_level.insert(position, id);
                assert(self@ == before.orphaned(id));
            },
        }
        Ok(())
    }

    /// Appends to `levels` the power level of `id` and of everybody under
    /// it, depth first.
    fn collect_levels(&self, id: Id, levels: &mut Vec<u64>)
        requires
            self.wf(),
            self@.people.contains_key(id),
        ensures
            final(levels)@ == old(levels)@ + levels_of(self@.people, subtree(self@.people, id)),
        decreases height_of(self@.people, id),
    {
        let ghost people = self@.people;
        let ghost start = levels@;
        let person = match self.people.get(&id) {
            Some(person) => person,
            None => vstd::pervasive::unreached(),
        };
        levels.push(person.power_level);
        assert(subordinates_linked(people));
        assert(levels@ =~= start + levels_of(people, seq![id]));
        let mut k: usize = 0;
        while k < person.subordinates.len()
            invariant
                self.wf(),
                people == self@.people,
                people.contains_key(id),
                person@ == people[id],
                subordinates_linked(people),
                0 <= k <= person.subordinates@.len(),
                levels@ + levels_of(people, subtrees_from(people, id, k as nat)) == start
                    + levels_of(people, subtree(people, id)),
            decreases person.subordinates@.len() - k,
        {
            let sub: Id = person.subordinates[k];
            let ghost so_far = levels@;
            assert(people[id].subordinates[k as int] == sub);
            assert(people.contains_key(sub) && people[sub].leader == Some(id));
            proof {
                let (depth, height) = choose|depth: spec_fn(Id) -> nat, height: spec_fn(Id) -> nat|
                    is_layering(people, depth, height);
                assert(height(sub) < height(id));
            }
            self.collect_levels(sub, levels);
            proof {
                let rest = subtrees_from(people, id, (k + 1) as nat);
                let here = subtree(people, sub);
                assert(subtrees_from(people, id, k as nat) == here + rest);
                assert(levels_of(people, here + rest) =~= levels_of(people, here) + levels_of(
                    people,
                    rest,
                ));
                assert(so_far + (levels_of(people, here) + levels_of(people, rest)) =~= (so_far
                    + levels_of(people, here)) + levels_of(people, rest));
            }
            k = k + 1;
        }
        proof {
            assert(levels_of(people, subtrees_from(people, id, k as nat)) =~= Seq::<u64>::empty());
            assert(levels@ + Seq::<u64>::empty() =~= levels@);
        }
    }

    /// The power levels that add up to the strength of `id` as a leader: its
    /// own, then that of everybody under it, depth first. The strength is
    /// their sum.
    pub fn get_power_level_with_subordinates(&self, id: Id) -> (found: Result<Vec<u64>, WorldError>)
        requires
            self.wf(),
        ensures
            found is Ok <==> self@.people.contains_key(id),
            found matches Ok(levels) ==> levels@ == levels_of(
                self@.people,
                subtree(self@.people, id),
            ),
            found matches Err(fault) ==> fault == WorldError::NotFound,
    {
        if !self.people.contains_key(&id) {
            return Err(WorldError::NotFound);
        }
        let mut levels: Vec<u64> = Vec::new();
        self.collect_levels(id, &mut levels);
        assert(Seq::<u64>::empty() + levels_of(self@.people, subtree(self@.people, id)) =~= levels_of(
            self@.people,
            subtree(self@.people, id),
        ));
        Ok(levels)
    }
}

} // verus!
