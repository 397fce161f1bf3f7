//! A world populated from scratch.

use crate::generation::names::{Culture, CultureView};
use crate::world::power::{is_finite, rank};
use crate::world::ranking::lemma_ranks_after_entry;
use crate::world::{Id, World, WorldError, WorldView, MAX_HEALTH};
use rand::StdRng;
use std::rc::Rc;
use vstd::prelude::*;

verus! {

/// Whether `name` is two names of the culture with one space between them.
pub open spec fn is_full_name(culture: CultureView, name: Seq<char>) -> bool {
    exists|first: Seq<char>, second: Seq<char>|
        culture.is_name(first) && culture.is_name(second) && name == first.push(' ') + second
}

/// A ranking after a rebuild is still as after a rebuild when a root with an
/// id above all others enters behind every root that is not stronger.
pub proof fn lemma_fresh_gains(before: WorldView, after: WorldView, id: Id, position: int)
    requires
        before.ranking_is_fresh(),
        after.ranking_wf(),
        after.ranking == before.ranking.insert(position, id),
        before.is_upper_position(rank(after.people[id].power_level), position),
        forall|i: int| 0 <= i < before.ranking.len() ==> #[trigger] before.ranking[i] < id,
        forall|i: int|
            0 <= i < before.ranking.len() ==> after.people[#[trigger] before.ranking[i]].power_level
                == before.people[before.ranking[i]].power_level,
    ensures
        after.ranking_is_fresh(),
{
    let level_rank = rank(after.people[id].power_level);
    lemma_ranks_after_entry(before, after, id, position);
    assert forall|i: int, j: int| 0 <= i < j < after.ranking.len() implies #[trigger] after.rank_at(
        i,
    ) < #[trigger] after.rank_at(j) || (after.rank_at(i) == after.rank_at(j) && after.ranking[i]
        < after.ranking[j]) by {
        let a = if i < position { i } else { i - 1 };
        let b = if j < position { j } else { j - 1 };
        if i != position && j != position {
            assert(before.rank_at(a) < before.rank_at(b) || (before.rank_at(a) == before.rank_at(b)
                && before.ranking[a] < before.ranking[b]));
        } else if i != position {
            assert(before.rank_at(a) <= level_rank);
            assert(before.ranking[a] < id);
        } else {
            assert(before.rank_at(b) > level_rank);
        }
    }
}

impl WorldView {
    /// Whether the registry holds exactly one root for each of the given
    /// power levels, numbered in their order, with cultures dealt out in
    /// runs of `run` people and every name made by the person's culture.
    pub open spec fn is_population(self, power_levels: Seq<u64>, run: int) -> bool {
        &&& self.next_id == power_levels.len()
        &&& forall|id: Id| self.people.contains_key(id) <==> id < power_levels.len()
        &&& forall|id: Id|
            id < power_levels.len() ==> {
                let person = #[trigger] self.people[id];
                &&& person.id == id
                &&& person.power_level == power_levels[id as int]
                &&& person.health == MAX_HEALTH
                &&& person.leader is None
                &&& person.subordinates.len() == 0
                &&& person.culture.wf()
                &&& is_full_name(person.culture, person.name)
            }
        &&& forall|a: Id, b: Id|
            a < power_levels.len() && b < power_levels.len() && a as int / run == b as int / run
                ==> (#[trigger] self.people[a]).culture == (#[trigger] self.people[b]).culture
        &&& self.ranking_is_fresh()
    }
}

/// Makes a name of two names of the culture, with a space between them.
pub fn generate_full_name(culture: &Culture, rng: &mut StdRng) -> (name: String)
    requires
        culture.wf(),
    ensures
        is_full_name(culture@, name@),
{
    let mut name: String = culture.generate_name(rng);
    let second: String = culture.generate_name(rng);
    let ghost first = name@;
    proof {
        reveal_strlit(" ");
        assert(" "@ =~= seq![' ']);
    }
    name.append(" ");
    name.append(second.as_str());
    proof {
        assert(name@ =~= first.push(' ') + second@);
    }
    name
}

impl World {
    /// Populates a world: one person for each of the given power levels, in
    /// their order, each a root of full health.
    ///
    /// The people are dealt out over `num_cultures` cultures in runs of equal
    /// length: a new culture is drawn for the first person and then after
    /// every `power_levels.len() / num_cultures` people, so that a remainder
    /// of the division starts one culture more. Every person is named by
    /// its culture with two names.
    ///
    /// A power level that is not finite is refused, and no world is made.
    pub fn new(power_levels: &Vec<u64>, num_cultures: usize, rng: &mut StdRng) -> (made: Result<
        World,
        WorldError,
    >)
        requires
            power_levels@.len() > 0 ==> 0 < num_cultures <= power_levels@.len(),
        ensures
            made is Ok <==> forall|i: int|
                0 <= i < power_levels@.len() ==> is_finite(#[trigger] power_levels@[i]),
            made matches Err(fault) ==> fault == WorldError::InvalidPowerLevel,
            made matches Ok(world) ==> world.wf() && world@.is_population(
                power_levels@,
                power_levels@.len() as int / num_cultures as int,
            ),
    {
        let num_people: usize = power_levels.len();
        let mut world = World::empty();
        let mut culture: Rc<Culture> = Rc::new(Culture::new(rng));
        let mut i: usize = 0;
        let ghost run: int = if num_cultures > 0 {
            num_people as int / num_cultures as int
        } else {
            0
        };
        while i < num_people
            invariant
                0 <= i <= num_people,
                num_people == power_levels@.len(),
                num_people > 0 ==> 0 < num_cultures <= num_people,
                num_cultures > 0 ==> run == num_people as int / num_cultures as int,
                culture.wf(),
                world.wf(),
                world@.is_population(power_levels@.take(i as int), run),
                forall|j: int| 0 <= j < i ==> is_finite(#[trigger] power_levels@[j]),
                i > 0 ==> culture@ == world@.people[(i - 1) as usize].culture,
            decreases num_people - i,
        {
            let chunk: usize = num_people / num_cultures;
            assert(chunk > 0) by (nonlinear_arith)
                requires
                    chunk == num_people / num_cultures,
                    0 < num_cultures <= num_people,
            ;
            if i % chunk == 0 {
                culture = Rc::new(Culture::new(rng));
            }
            let name: String = generate_full_name(&culture, rng);
            let ghost before = world@;
            let ghost levels = power_levels@.take(i as int);
            let ghost more = power_levels@.take(i + 1);
            let added = world.add_new_person(culture.clone(), name, power_levels[i]);
            match added {
                Err(_) => {
                    return Err(WorldError::InvalidPowerLevel);
                },
                Ok(id) => {
                    proof {
                        let after = world@;
                        assert(more =~= levels.push(power_levels@[i as int]));
                        assert(id == i);
                        assert forall|other: Id| other < more.len() implies {
                            let person = #[trigger] after.people[other];
                            &&& person.id == other
                            &&& person.power_level == more[other as int]
                            &&& person.health == MAX_HEALTH
                            &&& person.leader is None
                            &&& person.subordinates.len() == 0
                            &&& person.culture.wf()
                            &&& is_full_name(person.culture, person.name)
                        } by {
                            if other < i {
                                assert(after.people[other] == before.people[other]);
                            }
                        }
                        assert forall|a: Id, b: Id|
                            a < more.len() && b < more.len() && a as int / run == b as int
                                / run implies (#[trigger] after.people[a]).culture == (
                            #[trigger] after.people[b]).culture by {
                            lemma_same_run(a as int, b as int, i as int, run);
                            if a < i {
                                assert(after.people[a] == before.people[a]);
                            }
                            if b < i {
                                assert(after.people[b] == before.people[b]);
                            }
                            if i > 0 {
                                assert(after.people[(i - 1) as usize] == before.people[(i
                                    - 1) as usize]);
                            }
                        }
                        crate::world::ranking::lemma_positions(before, rank(power_levels@[i as int]));
                        assert forall|k: int| 0 <= k < before.ranking.len() implies #[trigger] before.ranking[k]
                            < id by {
                            assert(before.is_root(before.ranking[k]));
                        }
                        assert forall|k: int| 0 <= k < before.ranking.len() implies after.people[#[trigger] before.ranking[k]].power_level
                            == before.people[before.ranking[k]].power_level by {
                            assert(before.is_root(before.ranking[k]));
                        }
                        lemma_fresh_gains(
                            before,
                            after,
                            id,
                            before.upper_position(rank(power_levels@[i as int])),
                        );
                    }
                },
            }
            i = i + 1;
        }
        proof {
            assert(power_levels@.take(i as int) =~= power_levels@);
        }
        Ok(world)
    }
}

/// Two people in the same run, the later of them the newest: either both
/// are the newest, or the newest does not start a run and the one before it
/// is in the same run too.
proof fn lemma_same_run(a: int, b: int, newest: int, run: int)
    requires
        0 <= a <= newest,
        0 <= b <= newest,
        run > 0,
        a / run == b / run,
    ensures
        (a == newest || b == newest) && a != b ==> newest > 0 && newest % run != 0 && (newest - 1)
            / run == newest / run,
{
    if (a == newest || b == newest) && a != b {
        let other = if a == newest { b } else { a };
        assert(other < newest);
        assert(other / run == newest / run);
        assert(newest % run != 0 && (newest - 1) / run == newest / run) by (nonlinear_arith)
            requires
                0 <= other < newest,
                run > 0,
                other / run == newest / run,
        ;
    }
}

} // verus!
