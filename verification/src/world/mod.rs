//! The population registry: who exists, who leads whom, and the ranking of
//! the leaderless by power level.
//!
//! People are known by their ids. A person with no leader is a root; the
//! registry keeps the ids of all roots in one list, ordered by power level,
//! so that the roots within a span of levels can be found by two binary
//! searches.

pub mod hierarchy;
pub mod links;
pub mod population;
pub mod power;
pub mod ranking;
pub mod removal;

use crate::generation::names::{Culture, CultureView};
use crate::world::power::{is_finite, level_is_finite, rank};
use crate::world::ranking::{fits_at, lemma_ranking_counts_roots, lemma_ranking_gains, lemma_record_keeps_links};
use std::collections::HashMap;
use std::rc::Rc;
use vstd::prelude::*;

verus! {

broadcast use vstd::std_specs::hash::group_hash_axioms;

/// The name by which the registry knows a person.
pub type Id = usize;

/// The bit pattern of the health that every person starts with: one hundred.
pub const MAX_HEALTH: u64 = 0x4059_0000_0000_0000;

/// Why the registry refuses a request.
#[derive(Debug, Clone, Copy, PartialEq, Eq)]
pub enum WorldError {
    /// No person has the id that was named.
    NotFound,
    /// The bit pattern given as a power level stands for no finite number.
    InvalidPowerLevel,
    /// The leader that was named is the person itself or one of those it
    /// leads, directly or through others.
    HierarchyCycle,
}

/// One person of the world.
pub struct Person {
    pub id: Id,
    pub culture: Rc<Culture>,
    pub name: String,
    /// The bit pattern of the person's power level.
    pub power_level: u64,
    /// The bit pattern of the person's health.
    pub health: u64,
    pub subordinates: Vec<Id>,
    pub leader: Option<Id>,
}

/// A person as plain mathematical values.
pub struct PersonView {
    pub id: Id,
    pub culture: CultureView,
    pub name: Seq<char>,
    pub power_level: u64,
    pub health: u64,
    pub subordinates: Seq<Id>,
    pub leader: Option<Id>,
}

impl View for Person {
    type V = PersonView;

    open spec fn view(&self) -> PersonView {
        PersonView {
            id: self.id,
            culture: self.culture@,
            name: self.name@,
            power_level: self.power_level,
            health: self.health,
            subordinates: self.subordinates@,
            leader: self.leader,
        }
    }
}

/// Whether `depth` and `height` layer the people: every person lies deeper
/// than its leader, and every leader stands higher than those it leads.
pub open spec fn is_layering(
    people: Map<Id, PersonView>,
    depth: spec_fn(Id) -> nat,
    height: spec_fn(Id) -> nat,
) -> bool {
    forall|id: Id| #[trigger]
        people.contains_key(id) ==> (people[id].leader matches Some(leader) ==> depth(leader)
            < depth(id) && height(id) < height(leader))
}

/// Whether the leader links form a forest: following leaders never comes
/// back to where it started.
pub open spec fn is_forest(people: Map<Id, PersonView>) -> bool {
    exists|depth: spec_fn(Id) -> nat, height: spec_fn(Id) -> nat|
        is_layering(people, depth, height)
}

/// A registry as plain mathematical values.
pub struct WorldView {
    /// Every person, by id.
    pub people: Map<Id, PersonView>,
    /// The ids of the roots, in ascending order of power level.
    pub ranking: Seq<Id>,
    /// The id that the next person will get.
    pub next_id: Id,
}

impl WorldView {
    /// Whether `id` names a person without a leader.
    pub open spec fn is_root(self, id: Id) -> bool {
        self.people.contains_key(id) && self.people[id].leader is None
    }

    /// The rank of the power level of the root at position `i` of the
    /// ranking.
    pub open spec fn rank_at(self, i: int) -> int {
        rank(self.people[self.ranking[i]].power_level)
    }

    /// Each person is filed under its own id, which is below `next_id`; its
    /// power level is finite; it is listed once among the subordinates of
    /// its leader, if it has one; and it leads exactly those who name it as
    /// their leader.
    pub open spec fn links_wf(self) -> bool {
        &&& self.people.dom().finite()
        &&& forall|id: Id| #[trigger]
            self.people.contains_key(id) ==> {
                &&& self.people[id].id == id
                &&& id < self.next_id
                &&& is_finite(self.people[id].power_level)
                &&& self.people[id].subordinates.no_duplicates()
                &&& (self.people[id].leader matches Some(leader) ==> self.people.contains_key(
                    leader,
                ) && self.people[leader].subordinates.contains(id))
            }
        &&& forall|id: Id, k: int|
            self.people.contains_key(id) && 0 <= k < self.people[id].subordinates.len() ==> {
                let sub = #[trigger] self.people[id].subordinates[k];
                self.people.contains_key(sub) && self.people[sub].leader == Some(id)
            }
    }

    /// The ranking lists every root once and nobody else, in ascending order
    /// of power level.
    pub open spec fn ranking_wf(self) -> bool {
        &&& self.ranking.no_duplicates()
        &&& forall|i: int| 0 <= i < self.ranking.len() ==> self.is_root(#[trigger] self.ranking[i])
        &&& forall|id: Id| #[trigger] self.is_root(id) ==> self.ranking.contains(id)
        &&& forall|i: int, j: int|
            0 <= i < j < self.ranking.len() ==> #[trigger] self.rank_at(i) <= #[trigger]
            self.rank_at(j)
    }

    /// The registry after the health of `id` has become `health`.
    pub open spec fn with_health(self, id: Id, health: u64) -> WorldView {
        WorldView {
            people: self.people.insert(id, (PersonView { health, ..self.people[id] })),
            ..self
        }
    }

    /// The ids of all roots.
    pub open spec fn roots(self) -> Set<Id> {
        Set::new(|id: Id| self.is_root(id))
    }

    /// The registry is consistent: the links match, they form a forest, and
    /// the ranking is up to date.
    pub open spec fn wf(self) -> bool {
        &&& self.links_wf()
        &&& is_forest(self.people)
        &&& self.ranking_wf()
    }
}

/// A consistent registry stays consistent when a person of a fresh id, with
/// no links, is added and enters the ranking at a place where it fits.
pub proof fn lemma_enter_root(before: WorldView, after: WorldView, entry: PersonView, position: int)
    requires
        before.wf(),
        entry.id == before.next_id,
        entry.leader is None,
        entry.subordinates.len() == 0,
        is_finite(entry.power_level),
        fits_at(before, rank(entry.power_level), position),
        after.people == before.people.insert(entry.id, entry),
        after.ranking == before.ranking.insert(position, entry.id),
        after.next_id > before.next_id,
    ensures
        after.wf(),
        after.ranking.len() == before.ranking.len() + 1,
        after.ranking.contains(entry.id),
        after.roots() == before.roots().insert(entry.id),
        after.ranking.len() == after.roots().len(),
{
    let id = entry.id;
    assert(!before.people.contains_key(id));
    assert(after.ranking[position] == id);
    assert(after.roots() =~= before.roots().insert(id));
    assert(after.links_wf()) by {
        assert forall|other: Id, k: int|
            after.people.contains_key(other) && 0 <= k < after.people[other].subordinates.len() implies {
            let sub = #[trigger] after.people[other].subordinates[k];
            after.people.contains_key(sub) && after.people[sub].leader == Some(other)
        } by {
            let sub = before.people[other].subordinates[k];
            assert(before.people.contains_key(sub));
        }
    }
    assert(is_forest(after.people)) by {
        let (depth, height) = choose|depth: spec_fn(Id) -> nat, height: spec_fn(Id) -> nat|
            is_layering(before.people, depth, height);
        assert(is_layering(after.people, depth, height)) by {
            assert forall|other: Id| #[trigger] after.people.contains_key(other) implies (
            after.people[other].leader matches Some(leader) ==> depth(leader) < depth(other)
                && height(other) < height(leader)) by {
                if other != id {
                    assert(before.people.contains_key(other));
                }
            }
        }
    }
    lemma_ranking_gains(before, after, id, position);
    lemma_ranking_counts_roots(after);
}

/// The registry of all people.
pub struct World {
    next_id: Id,
    people: HashMap<Id, Person>,
    people_by_power_level: Vec<Id>,
}

impl View for World {
    type V = WorldView;

    closed spec fn view(&self) -> WorldView {
        WorldView {
            people: Map::new(
                |id: Id| self.people@.contains_key(id),
                |id: Id| self.people@[id]@,
            ),
            ranking: self.people_by_power_level@,
            next_id: self.next_id,
        }
    }
}

impl World {
    /// The registry is consistent.
    pub open spec fn wf(&self) -> bool {
        self@.wf()
    }

    /// A registry without people.
    pub fn empty() -> (world: World)
        ensures
            world.wf(),
            world@.people == Map::<Id, PersonView>::empty(),
            world@.ranking == Seq::<Id>::empty(),
            world@.next_id == 0,
    {
        let world = World {
            next_id: 0,
            people: HashMap::new(),
            people_by_power_level: Vec::new(),
        };
        proof {
            assert(world@.people =~= Map::<Id, PersonView>::empty());
            assert(is_layering(world@.people, |id: Id| 0nat, |id: Id| 0nat));
        }
        world
    }

    /// Registers a new person as a root and returns the id it was given.
    ///
    /// The person gets the next free id, full health, no leader and no
    /// subordinates, and enters the ranking behind every root that is not
    /// stronger, so that among equals the one registered first comes first.
    /// Finding the place takes `O(log n)` steps and making room `O(n)`.
    ///
    /// A power level that is not finite is refused and nothing changes.
    pub fn add_new_person(&mut self, culture: Rc<Culture>, name: String, power_level: u64) -> (added:
        Result<Id, WorldError>)
        requires
            old(self).wf(),
            old(self)@.next_id < usize::MAX,
        ensures
            final(self).wf(),
            added is Ok <==> is_finite(power_level),
            added matches Err(fault) ==> fault == WorldError::InvalidPowerLevel && final(self)@
                == old(self)@,
            added matches Ok(id) ==> {
                &&& id == old(self)@.next_id
                &&& final(self)@.next_id == id + 1
                &&& final(self)@.people == old(self)@.people.insert(
                    id,
                    (PersonView {
                        id,
                        culture: culture@,
                        name: name@,
                        power_level,
                        health: MAX_HEALTH,
                        subordinates: Seq::empty(),
                        leader: None,
                    }),
                )
                &&& final(self)@.ranking == old(self)@.ranking.insert(
                    old(self)@.upper_position(rank(power_level)),
                    id,
                )
            },
    {
        if !level_is_finite(power_level) {
            return Err(WorldError::InvalidPowerLevel);
        }
        let id: Id = self.next_id;
        let person = Person {
            id,
            culture,
            name,
            power_level,
            health: MAX_HEALTH,
            subordinates: Vec::new(),
            leader: None,
        };
        let ghost before = self@;
        let ghost entry = person@;
        let position: usize = self.get_power_level_index_after(power_level);
        self.next_id = self.next_id + 1;
        self.people_by_power_level.insert(position, id);
        self.people.insert(id, person);
        proof {
            assert(self@.people =~= before.people.insert(id, entry));
            lemma_enter_root(before, self@, entry, position as int);
        }
        Ok(id)
    }

    /// Gives `id` a new health, as the bit pattern of a number. Nothing else
    /// changes. An id that names nobody is refused.
    pub fn update_health(&mut self, id: Id, health: u64) -> (done: Result<(), WorldError>)
        requires
            old(self).wf(),
        ensures
            final(self).wf(),
            done is Ok <==> old(self)@.people.contains_key(id),
            done is Ok ==> final(self)@ == old(self)@.with_health(id, health),
            done matches Err(fault) ==> fault == WorldError::NotFound && final(self)@ == old(
                self,
            )@,
    {
        let ghost before = self@;
        if !self.people.contains_key(&id) {
            return Err(WorldError::NotFound);
        }
        let mut person = self.take_person(id);
        person.health = health;
        self.put_person(id, person);
        proof {
            assert(self@.people =~= before.people.insert(
                id,
                (PersonView { health, ..before.people[id] }),
            ));
            lemma_record_keeps_links(before, self@, id, self@.people[id]);
            assert(self@.ranking_wf()) by {
                assert forall|i: int| 0 <= i < self@.ranking.len() implies #[trigger] self@.rank_at(
                    i,
                ) == before.rank_at(i) by {
                    assert(before.is_root(before.ranking[i]));
                }
            }
        }
        Ok(())
    }

    /// The person with the given id.
    pub fn get_person_by_id(&self, id: Id) -> (found: Result<&Person, WorldError>)
        ensures
            found is Ok <==> self@.people.contains_key(id),
            found matches Ok(person) ==> person@ == self@.people[id],
            found matches Err(fault) ==> fault == WorldError::NotFound,
    {
        match self.people.get(&id) {
            Some(person) => Ok(person),
            None => Err(WorldError::NotFound),
        }
    }

    /// The ids of the roots, weakest first.
    pub fn people_by_power_level(&self) -> (ranking: &Vec<Id>)
        ensures
            ranking@ == self@.ranking,
    {
        &self.people_by_power_level
    }

    /// The id that the next person will get.
    pub fn next_id(&self) -> (id: Id)
        ensures
            id == self@.next_id,
    {
        self.next_id
    }

    /// The number of people.
    pub fn len(&self) -> (n: usize)
        ensures
            n == self@.people.dom().len(),
    {
        assert(self@.people.dom() =~= self.people@.dom());
        self.people.len()
    }
}

} // verus!
