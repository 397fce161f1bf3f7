//! Single edits of the records the registry keeps, and lists of ids with
//! some ids taken out.

use crate::world::{Id, Person, PersonView, World, WorldView};
use vstd::prelude::*;

verus! {

broadcast use vstd::std_specs::hash::group_hash_axioms;

/// The list `ids` without the ids in `gone`, the others in their old order.
pub open spec fn drop_ids(ids: Seq<Id>, gone: Set<Id>) -> Seq<Id>
    decreases ids.len(),
{
    if ids.len() == 0 {
        Seq::empty()
    } else if gone.contains(ids.last()) {
        drop_ids(ids.drop_last(), gone)
    } else {
        drop_ids(ids.drop_last(), gone).push(ids.last())
    }
}

/// What is left of a list holds exactly the ids that were listed and are not
/// gone, and holds nothing twice if the list did not.
pub proof fn lemma_drop_ids_members(ids: Seq<Id>, gone: Set<Id>)
    ensures
        forall|id: Id| #[trigger]
            drop_ids(ids, gone).contains(id) <==> ids.contains(id) && !gone.contains(id),
        ids.no_duplicates() ==> drop_ids(ids, gone).no_duplicates(),
        drop_ids(ids, gone).len() <= ids.len(),
    decreases ids.len(),
{
    if ids.len() > 0 {
        let front = ids.drop_last();
        let last = ids.last();
        lemma_drop_ids_members(front, gone);
        let kept = drop_ids(front, gone);
        assert forall|id: Id| #[trigger]
            drop_ids(ids, gone).contains(id) <==> ids.contains(id) && !gone.contains(
                id,
            ) by {
            if ids.contains(id) {
                let i = choose|i: int| 0 <= i < ids.len() && ids[i] == id;
                if i < front.len() {
                    assert(front[i] == id);
                    assert(front.contains(id));
                }
            }
            if front.contains(id) {
                let i = choose|i: int| 0 <= i < front.len() && front[i] == id;
                assert(ids[i] == id);
            }
            if gone.contains(last) {
            } else {
                let all = kept.push(last);
                if kept.contains(id) {
                    let i = choose|i: int| 0 <= i < kept.len() && kept[i] == id;
                    assert(all[i] == id);
                }
                if id == last {
                    assert(all[kept.len() as int] == last);
                    assert(ids[ids.len() - 1] == last);
                }
                if all.contains(id) {
                    let i = choose|i: int| 0 <= i < all.len() && all[i] == id;
                    if i < kept.len() {
                        assert(kept[i] == id);
                    }
                }
            }
        }
        if ids.no_duplicates() {
            assert(front.no_duplicates());
            if !gone.contains(last) {
                assert(!front.contains(last)) by {
                    if front.contains(last) {
                        let i = choose|i: int| 0 <= i < front.len() && front[i] == last;
                        assert(ids[i] == ids[ids.len() - 1]);
                    }
                }
                assert(!kept.contains(last));
            }
        }
    }
}

/// A list that holds none of the ids in `gone` is left as it is.
pub proof fn lemma_drop_ids_nothing(ids: Seq<Id>, gone: Set<Id>)
    requires
        forall|i: int| 0 <= i < ids.len() ==> !gone.contains(#[trigger] ids[i]),
    ensures
        drop_ids(ids, gone) == ids,
    decreases ids.len(),
{
    if ids.len() > 0 {
        lemma_drop_ids_nothing(ids.drop_last(), gone);
        assert(ids.drop_last().push(ids.last()) =~= ids);
    }
}

/// Taking out some ids and then others is taking out all of them at once.
pub proof fn lemma_drop_ids_twice(ids: Seq<Id>, first: Set<Id>, second: Set<Id>)
    ensures
        drop_ids(drop_ids(ids, first), second) == drop_ids(ids, first.union(second)),
    decreases ids.len(),
{
    if ids.len() > 0 {
        lemma_drop_ids_twice(ids.drop_last(), first, second);
        let kept = drop_ids(ids.drop_last(), first);
        if !first.contains(ids.last()) {
            assert(kept.push(ids.last()).drop_last() =~= kept);
        }
    }
}

/// In a list that holds nothing twice, taking out the id at one position
/// removes that position and nothing else.
pub proof fn lemma_drop_ids_one(ids: Seq<Id>, i: int)
    requires
        ids.no_duplicates(),
        0 <= i < ids.len(),
    ensures
        drop_ids(ids, set![ids[i]]) == ids.remove(i),
    decreases ids.len(),
{
    let front = ids.drop_last();
    if i == ids.len() - 1 {
        lemma_drop_ids_nothing(front, set![ids[i]]);
        assert(ids.remove(i) =~= front);
    } else {
        lemma_drop_ids_one(front, i);
        assert(front.remove(i).push(ids.last()) =~= ids.remove(i));
    }
}

impl WorldView {
    /// The same registry with one record replaced or added.
    pub open spec fn with_person(self, id: Id, person: PersonView) -> WorldView {
        WorldView { people: self.people.insert(id, person), ..self }
    }
}

impl World {
    /// Takes a record out of the map in order to change it.
    pub(crate) fn take_person(&mut self, id: Id) -> (person: Person)
        requires
            old(self)@.people.contains_key(id),
        ensures
            person@ == old(self)@.people[id],
            final(self)@ == (WorldView { people: old(self)@.people.remove(id), ..old(self)@ }),
    {
        let ghost before = self@;
        let taken = self.people.remove(&id);
        proof {
            assert(self@.people =~= before.people.remove(id));
        }
        match taken {
            Some(person) => person,
            None => vstd::pervasive::unreached(),
        }
    }

    /// Puts a record into the map under its id.
    pub(crate) fn put_person(&mut self, id: Id, person: Person)
        ensures
            final(self)@ == old(self)@.with_person(id, person@),
    {
        let ghost before = self@;
        self.people.insert(id, person);
        proof {
            assert(self@.people =~= before.people.insert(id, person@));
        }
    }

    /// Makes `leader` the recorded leader of `id`, or records that it has
    /// none.
    pub(crate) fn record_leader(&mut self, id: Id, leader: Option<Id>)
        requires
            old(self)@.people.contains_key(id),
        ensures
            final(self)@ == old(self)@.with_person(
                id,
                (PersonView { leader, ..old(self)@.people[id] }),
            ),
    {
        let ghost before = self@;
        let mut person = self.take_person(id);
        person.leader = leader;
        self.put_person(id, person);
        proof {
            assert(self@.people =~= before.people.insert(
                id,
                (PersonView { leader, ..before.people[id] }),
            ));
        }
    }

    /// Adds `sub` at the end of the subordinates recorded for `id`.
    pub(crate) fn record_subordinate(&mut self, id: Id, sub: Id)
        requires
            old(self)@.people.contains_key(id),
        ensures
            final(self)@ == old(self)@.with_person(
                id,
                (PersonView {
                    subordinates: old(self)@.people[id].subordinates.push(sub),
                    ..old(self)@.people[id]
                }),
            ),
    {
        let ghost before = self@;
        let mut person = self.take_person(id);
        person.subordinates.push(sub);
        self.put_person(id, person);
        proof {
            assert(self@.people =~= before.people.insert(
                id,
                (PersonView {
                    subordinates: before.people[id].subordinates.push(sub),
                    ..before.people[id]
                }),
            ));
        }
    }

    /// Strikes `sub` from the subordinates recorded for `id`.
    pub(crate) fn strike_subordinate(&mut self, id: Id, sub: Id)
        requires
            old(self)@.people.contains_key(id),
        ensures
            final(self)@ == old(self)@.with_person(
                id,
                (PersonView {
                    subordinates: drop_ids(old(self)@.people[id].subordinates, set![sub]),
                    ..old(self)@.people[id]
                }),
            ),
    {
        let ghost before = self@;
        let mut person = self.take_person(id);
        let mut kept: Vec<Id> = Vec::new();
        let mut i: usize = 0;
        assert(person.subordinates@.take(0) =~= Seq::<Id>::empty());
        while i < person.subordinates.len()
            invariant
                0 <= i <= person.subordinates@.len(),
                kept@ == drop_ids(person.subordinates@.take(i as int), set![sub]),
            decreases person.subordinates@.len() - i,
        {
            let ghost listed = person.subordinates@;
            assert(listed.take(i + 1).drop_last() =~= listed.take(i as int));
            assert(listed.take(i + 1).last() == listed[i as int]);
            if person.subordinates[i] != sub {
                kept.push(person.subordinates[i]);
            }
            i = i + 1;
        }
        assert(person.subordinates@.take(i as int) =~= person.subordinates@);
        person.subordinates = kept;
        self.put_person(id, person);
        proof {
            assert(self@.people =~= before.people.insert(
                id,
                (PersonView {
                    subordinates: drop_ids(before.people[id].subordinates, set![sub]),
                    ..before.people[id]
                }),
            ));
        }
    }
}

} // verus!
