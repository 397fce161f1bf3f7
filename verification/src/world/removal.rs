//! Removal of people, and the ranking rebuilt from scratch.
//!
//! Removing a batch can turn any number of people into roots: everybody led
//! by somebody who goes loses its leader. So the ranking is not patched
//! during a removal but rebuilt once the batch is through.

use crate::world::hierarchy::lemma_no_short_cycles;
use crate::world::links::{
    drop_ids, lemma_drop_ids_members, lemma_drop_ids_nothing, lemma_drop_ids_twice,
};
use crate::world::power::{level_rank, rank};
use crate::world::{is_forest, is_layering, Id, PersonView, World, WorldError, WorldView};
use std::collections::HashSet;
use vstd::prelude::*;
use vstd::std_specs::iter::IteratorSpec;

verus! {

broadcast use vstd::std_specs::hash::group_hash_axioms;

/// A record after the people in `gone` have gone: it names no leader if its
/// leader has gone, and lists the subordinates that stay.
pub open spec fn bereft(person: PersonView, gone: Set<Id>) -> PersonView {
    PersonView {
        leader: match person.leader {
            Some(leader) => if gone.contains(leader) {
                None
            } else {
                Some(leader)
            },
            None => None,
        },
        subordinates: drop_ids(person.subordinates, gone),
        ..person
    }
}

/// The people that stay when those in `gone` go, each with its links to
/// those who went taken out.
pub open spec fn without(people: Map<Id, PersonView>, gone: Set<Id>) -> Map<Id, PersonView> {
    Map::new(
        |id: Id| people.contains_key(id) && !gone.contains(id),
        |id: Id| bereft(people[id], gone),
    )
}

/// Removing some people and then others is removing all of them at once.
pub proof fn lemma_without_twice(people: Map<Id, PersonView>, first: Set<Id>, second: Set<Id>)
    ensures
        without(without(people, first), second) == without(people, first.union(second)),
{
    let once = without(people, first);
    let left = without(once, second);
    let right = without(people, first.union(second));
    assert forall|id: Id| left.contains_key(id) implies #[trigger] left[id] == right[id] by {
        lemma_drop_ids_twice(people[id].subordinates, first, second);
    }
    assert(left =~= right);
}

/// Taking the same people out a second time takes nothing more out.
pub proof fn lemma_without_again(people: Map<Id, PersonView>, gone: Set<Id>)
    ensures
        without(without(people, gone), gone) == without(people, gone),
{
    lemma_without_twice(people, gone, gone);
    assert(gone.union(gone) =~= gone);
}

/// Removing nobody changes nothing.
pub proof fn lemma_without_nobody(people: Map<Id, PersonView>)
    ensures
        without(people, Set::empty()) == people,
{
    let left = without(people, Set::empty());
    assert forall|id: Id| left.contains_key(id) implies #[trigger] left[id] == people[id] by {
        lemma_drop_ids_nothing(people[id].subordinates, Set::empty());
    }
    assert(left =~= people);
}

/// The links still match and still form a forest when people are removed.
pub proof fn lemma_without_keeps_links(world: WorldView, after: WorldView, gone: Set<Id>)
    requires
        world.links_wf(),
        is_forest(world.people),
        after.people == without(world.people, gone),
        after.next_id == world.next_id,
    ensures
        after.links_wf(),
        is_forest(after.people),
{
    let people = world.people;
    assert(after.people.dom().subset_of(people.dom()));
    vstd::set_lib::lemma_len_subset(after.people.dom(), people.dom());
    assert forall|id: Id| #[trigger] after.people.contains_key(id) implies {
        &&& after.people[id].id == id
        &&& id < after.next_id
        &&& crate::world::power::is_finite(after.people[id].power_level)
        &&& after.people[id].subordinates.no_duplicates()
        &&& (after.people[id].leader matches Some(leader) ==> after.people.contains_key(leader)
            && after.people[leader].subordinates.contains(id))
    } by {
        assert(people.contains_key(id));
        lemma_drop_ids_members(people[id].subordinates, gone);
        if let Some(leader) = after.people[id].leader {
            assert(people[id].leader == Some(leader));
            assert(people.contains_key(leader));
            lemma_drop_ids_members(people[leader].subordinates, gone);
        }
    }
    assert forall|id: Id, k: int|
        after.people.contains_key(id) && 0 <= k < after.people[id].subordinates.len() implies {
        let sub = #[trigger] after.people[id].subordinates[k];
        after.people.contains_key(sub) && after.people[sub].leader == Some(id)
    } by {
        let sub = after.people[id].subordinates[k];
        let listed = people[id].subordinates;
        lemma_drop_ids_members(listed, gone);
        assert(drop_ids(listed, gone).contains(sub));
        let j = choose|j: int| 0 <= j < listed.len() && listed[j] == sub;
        assert(people[id].subordinates[j] == sub);
    }
    let (depth, height) = choose|depth: spec_fn(Id) -> nat, height: spec_fn(Id) -> nat|
        is_layering(people, depth, height);
    assert forall|id: Id| #[trigger] after.people.contains_key(id) implies (
    after.people[id].leader matches Some(leader) ==> depth(leader) < depth(id) && height(id)
        < height(leader)) by {
        assert(people.contains_key(id));
    }
    assert(is_layering(after.people, depth, height));
}

/// The people with the leader taken from each of those in `ids`.
pub open spec fn released(people: Map<Id, PersonView>, ids: Seq<Id>) -> Map<Id, PersonView> {
    Map::new(
        |id: Id| people.contains_key(id),
        |id: Id|
            if ids.contains(id) {
                PersonView { leader: None, ..people[id] }
            } else {
                people[id]
            },
    )
}

/// Whether the pair `a` of a rank and an id comes before the pair `b` or is
/// equal to it: the lower rank first, and of equal ranks the lower id.
pub open spec fn ranked_before(a: (i64, Id), b: (i64, Id)) -> bool {
    a.0 < b.0 || (a.0 == b.0 && a.1 <= b.1)
}

/// The rank of a person's power level, paired with its id.
pub open spec fn ranked(people: Map<Id, PersonView>, id: Id) -> (i64, Id) {
    (rank(people[id].power_level) as i64, id)
}

/// Sorts pairs of a rank and an id with `sort` of slices.
///
/// `sort` puts a slice in ascending order and keeps every element. Tuples
/// are ordered by their first component and, where those are equal, by
/// their second.
#[verifier::external_body]
fn sort_ranked(list: &mut Vec<(i64, Id)>)
    ensures
        final(list)@.to_multiset() == old(list)@.to_multiset(),
        forall|i: int, j: int|
            0 <= i < j < final(list)@.len() ==> ranked_before(
                #[trigger] final(list)@[i],
                #[trigger] final(list)@[j],
            ),
{
    list.sort();
}

impl WorldView {
    /// The ranking is as it is after a rebuild: it lists every root once and
    /// nobody else, in ascending order of power level, and roots of equal
    /// level in ascending order of id.
    pub open spec fn ranking_is_fresh(self) -> bool {
        &&& self.ranking_wf()
        &&& forall|i: int, j: int|
            0 <= i < j < self.ranking.len() ==> #[trigger] self.rank_at(i) < #[trigger] self.rank_at(
                j,
            ) || (self.rank_at(i) == self.rank_at(j) && self.ranking[i] < self.ranking[j])
    }
}

/// Whether `a` comes before `b` in a rebuilt ranking: it is weaker, or as
/// strong and of lower id.
pub open spec fn comes_before(people: Map<Id, PersonView>, a: Id, b: Id) -> bool {
    rank(people[a].power_level) < rank(people[b].power_level) || (rank(people[a].power_level)
        == rank(people[b].power_level) && a < b)
}

/// Whether each id of the list comes before all that follow it.
pub open spec fn in_rebuilt_order(people: Map<Id, PersonView>, ids: Seq<Id>) -> bool {
    forall|i: int, j: int|
        0 <= i < j < ids.len() ==> comes_before(people, #[trigger] ids[i], #[trigger] ids[j])
}

/// Two lists in rebuilt order that hold the same ids are the same list.
pub proof fn lemma_rebuilt_order_unique(people: Map<Id, PersonView>, a: Seq<Id>, b: Seq<Id>)
    requires
        in_rebuilt_order(people, a),
        in_rebuilt_order(people, b),
        a.to_set() == b.to_set(),
    ensures
        a == b,
    decreases a.len(),
{
    assert(a.no_duplicates()) by {
        assert forall|i: int, j: int| 0 <= i < a.len() && 0 <= j < a.len() && i != j implies a[i]
            != a[j] by {
            if i < j {
                assert(comes_before(people, a[i], a[j]));
            } else {
                assert(comes_before(people, a[j], a[i]));
            }
        }
    }
    assert(b.no_duplicates()) by {
        assert forall|i: int, j: int| 0 <= i < b.len() && 0 <= j < b.len() && i != j implies b[i]
            != b[j] by {
            if i < j {
                assert(comes_before(people, b[i], b[j]));
            } else {
                assert(comes_before(people, b[j], b[i]));
            }
        }
    }
    a.unique_seq_to_set();
    b.unique_seq_to_set();
    if a.len() == 0 {
        assert(a =~= b);
    } else {
        let last = a.last();
        assert(a.contains(last));
        assert(b.to_set().contains(last));
        assert(b.contains(last));
        let j = choose|j: int| 0 <= j < b.len() && b[j] == last;
        assert(b.contains(b.last()));
        assert(a.to_set().contains(b.last()));
        assert(a.contains(b.last()));
        let i = choose|i: int| 0 <= i < a.len() && a[i] == b.last();
        if j < b.len() - 1 {
            assert(comes_before(people, b[j], b[b.len() - 1]));
            if i < a.len() - 1 {
                assert(comes_before(people, a[i], a[a.len() - 1]));
            }
            assert(false);
        }
        let a_front = a.drop_last();
        let b_front = b.drop_last();
        assert forall|x: Id| a_front.to_set().contains(x) <==> b_front.to_set().contains(x) by {
            if a_front.contains(x) {
                let k = choose|k: int| 0 <= k < a_front.len() && a_front[k] == x;
                assert(a[k] == x);
                assert(a.contains(x));
                assert(b.to_set().contains(x));
                assert(b.contains(x));
                let m = choose|m: int| 0 <= m < b.len() && b[m] == x;
                assert(m != b.len() - 1);
                assert(b_front[m] == x);
            }
            if b_front.contains(x) {
                let k = choose|k: int| 0 <= k < b_front.len() && b_front[k] == x;
                assert(b[k] == x);
                assert(b.contains(x));
                assert(a.to_set().contains(x));
                assert(a.contains(x));
                let m = choose|m: int| 0 <= m < a.len() && a[m] == x;
                assert(m != a.len() - 1);
                assert(a_front[m] == x);
            }
        }
        assert(a_front.to_set() =~= b_front.to_set());
        assert forall|i: int, j: int| 0 <= i < j < a_front.len() implies comes_before(
            people,
            #[trigger] a_front[i],
            #[trigger] a_front[j],
        ) by {
            assert(comes_before(people, a[i], a[j]));
        }
        assert forall|i: int, j: int| 0 <= i < j < b_front.len() implies comes_before(
            people,
            #[trigger] b_front[i],
            #[trigger] b_front[j],
        ) by {
            assert(comes_before(people, b[i], b[j]));
        }
        lemma_rebuilt_order_unique(people, a_front, b_front);
        assert(a =~= a_front.push(last));
        assert(b =~= b_front.push(last));
    }
}

/// The people decide what a rebuilt ranking is: two registries with the same
/// people, each with a ranking as after a rebuild, have the same ranking.
pub proof fn lemma_fresh_ranking_unique(one: WorldView, other: WorldView)
    requires
        one.people == other.people,
        one.ranking_is_fresh(),
        other.ranking_is_fresh(),
    ensures
        one.ranking == other.ranking,
{
    let people = one.people;
    assert forall|i: int, j: int| 0 <= i < j < one.ranking.len() implies comes_before(
        people,
        #[trigger] one.ranking[i],
        #[trigger] one.ranking[j],
    ) by {
        assert(one.rank_at(i) < one.rank_at(j) || (one.rank_at(i) == one.rank_at(j)
            && one.ranking[i] < one.ranking[j]));
    }
    assert forall|i: int, j: int| 0 <= i < j < other.ranking.len() implies comes_before(
        people,
        #[trigger] other.ranking[i],
        #[trigger] other.ranking[j],
    ) by {
        assert(other.rank_at(i) < other.rank_at(j) || (other.rank_at(i) == other.rank_at(j)
            && other.ranking[i] < other.ranking[j]));
    }
    crate::world::ranking::lemma_ranking_counts_roots(one);
    crate::world::ranking::lemma_ranking_counts_roots(other);
    assert(one.roots() =~= other.roots());
    lemma_rebuilt_order_unique(people, one.ranking, other.ranking);
}

/// The sorted pairs of all roots, read id by id, are a fresh ranking.
proof fn lemma_sorted_pairs_rank(world: WorldView, pairs: Seq<(i64, Id)>, sorted: Seq<(i64, Id)>)
    requires
        world.links_wf(),
        forall|j: int|
            0 <= j < pairs.len() ==> world.is_root((#[trigger] pairs[j]).1) && pairs[j] == ranked(
                world.people,
                pairs[j].1,
            ),
        forall|a: int, b: int|
            0 <= a < b < pairs.len() ==> (#[trigger] pairs[a]).1 != (#[trigger] pairs[b]).1,
        forall|id: Id| #[trigger] world.is_root(id) ==> pairs.contains(ranked(world.people, id)),
        sorted.to_multiset() == pairs.to_multiset(),
        forall|i: int, j: int|
            0 <= i < j < sorted.len() ==> ranked_before(#[trigger] sorted[i], #[trigger] sorted[j]),
        world.ranking.len() == sorted.len(),
        forall|i: int| 0 <= i < sorted.len() ==> #[trigger] world.ranking[i] == sorted[i].1,
    ensures
        world.ranking_is_fresh(),
{
    pairs.to_multiset_ensures();
    sorted.to_multiset_ensures();
    assert(pairs.no_duplicates());
    pairs.lemma_multiset_has_no_duplicates();
    sorted.lemma_multiset_has_no_duplicates_conv();
    assert forall|i: int| 0 <= i < sorted.len() implies world.is_root((#[trigger] sorted[i]).1)
        && sorted[i] == ranked(world.people, sorted[i].1) by {
        assert(sorted.contains(sorted[i]));
        assert(pairs.to_multiset().count(sorted[i]) > 0);
        assert(pairs.contains(sorted[i]));
        let j = choose|j: int| 0 <= j < pairs.len() && pairs[j] == sorted[i];
        assert(world.is_root(pairs[j].1));
    }
    assert forall|i: int| 0 <= i < world.ranking.len() implies #[trigger] world.rank_at(i)
        == sorted[i].0 by {
        assert(world.ranking[i] == sorted[i].1);
        assert(world.is_root(sorted[i].1));
        assert(crate::world::power::is_finite(world.people[sorted[i].1].power_level));
    }
    assert(world.ranking.no_duplicates()) by {
        assert forall|i: int, j: int|
            0 <= i < world.ranking.len() && 0 <= j < world.ranking.len() && i != j implies world.ranking[i]
            != world.ranking[j] by {
            if world.ranking[i] == world.ranking[j] {
                assert(sorted[i].1 == sorted[j].1);
                assert(sorted[i] == sorted[j]);
            }
        }
    }
    assert forall|i: int| 0 <= i < world.ranking.len() implies world.is_root(
        #[trigger] world.ranking[i],
    ) by {
        assert(world.is_root(sorted[i].1));
    }
    assert forall|id: Id| #[trigger] world.is_root(id) implies world.ranking.contains(id) by {
        let pair = ranked(world.people, id);
        assert(pairs.contains(pair));
        assert(sorted.to_multiset().count(pair) > 0);
        assert(sorted.contains(pair));
        let i = choose|i: int| 0 <= i < sorted.len() && sorted[i] == pair;
        assert(world.ranking[i] == id);
    }
    assert forall|i: int, j: int| 0 <= i < j < world.ranking.len() implies #[trigger] world.rank_at(
        i,
    ) < #[trigger] world.rank_at(j) || (world.rank_at(i) == world.rank_at(j) && world.ranking[i]
        < world.ranking[j]) by {
        assert(ranked_before(sorted[i], sorted[j]));
        assert(world.ranking[i] != world.ranking[j]);
    }
}

impl World {
    /// Builds the ranking anew from the people: every root, in ascending
    /// order of power level, and roots of equal level in ascending order of
    /// id.
    pub fn rebuild_power_level_lookup(&mut self)
        requires
            old(self)@.links_wf(),
            is_forest(old(self)@.people),
        ensures
            final(self).wf(),
            final(self)@.ranking_is_fresh(),
            final(self)@ == (WorldView { ranking: final(self)@.ranking, ..old(self)@ }),
    {
        let ghost before = self@;
        let ghost people = before.people;
        let mut keyed: Vec<(i64, Id)> = Vec::new();
        assert(people.dom() =~= self.people@.dom());
        for id in iter: self.people.keys()
            invariant
                people == self@.people,
                self@ == before,
                before.links_wf(),
                iter.seq().unref().to_set() == people.dom(),
                iter.seq().unref().no_duplicates(),
                forall|j: int|
                    0 <= j < keyed@.len() ==> {
                        &&& before.is_root((#[trigger] keyed@[j]).1)
                        &&& keyed@[j] == ranked(people, keyed@[j].1)
                        &&& iter.seq().take(iter.index() as int).unref().contains(keyed@[j].1)
                    },
                forall|a: int, b: int|
                    0 <= a < b < keyed@.len() ==> (#[trigger] keyed@[a]).1 != (#[trigger] keyed@[b]).1,
                forall|m: int|
                    0 <= m < iter.index() && before.is_root(*#[trigger] iter.seq()[m])
                        ==> keyed@.contains(ranked(people, *iter.seq()[m])),
                iter.index() == iter.seq().len() ==> forall|id: Id| #[trigger]
                    before.is_root(id) ==> keyed@.contains(ranked(people, id)),
        {
            let ghost keys = iter.seq().unref();
            let ghost seen = iter.seq().take(iter.index() as int).unref();
            let ghost next = iter.seq().take(iter.index() + 1).unref();
            let ghost listed = keyed@;
            proof {
                assert(keys[iter.index() as int] == *id);
                assert(keys.contains(*id));
                assert(people.contains_key(*id));
                assert(next =~= seen.push(*id));
                assert(!seen.contains(*id)) by {
                    if seen.contains(*id) {
                        let m = choose|m: int| 0 <= m < seen.len() && seen[m] == *id;
                        assert(keys[m] == keys[iter.index() as int]);
                    }
                }
            }
            let person = match self.people.get(id) {
                Some(person) => person,
                None => vstd::pervasive::unreached(),
            };
            if person.leader.is_none() {
                let r: i64 = level_rank(person.power_level);
                keyed.push((r, *id));
                proof {
                    assert(keyed@[listed.len() as int] == ranked(people, *id));
                    assert(next[seen.len() as int] == *id);
                }
            }
            proof {
                assert forall|j: int| 0 <= j < keyed@.len() implies next.contains(
                    (#[trigger] keyed@[j]).1,
                ) by {
                    if j < listed.len() {
                        let m = choose|m: int| 0 <= m < seen.len() && seen[m] == listed[j].1;
                        assert(next[m] == listed[j].1);
                    } else {
                        assert(next[seen.len() as int] == *id);
                    }
                }
                assert forall|a: int, b: int| 0 <= a < b < keyed@.len() implies (
                #[trigger] keyed@[a]).1 != (#[trigger] keyed@[b]).1 by {
                    if b == listed.len() {
                        assert(seen.contains(listed[a].1));
                    }
                }
                assert forall|m: int|
                    0 <= m < iter.index() + 1 && before.is_root(
                        *#[trigger] iter.seq()[m],
                    ) implies keyed@.contains(ranked(people, *iter.seq()[m])) by {
                    if m < iter.index() {
                        let pair = ranked(people, *iter.seq()[m]);
                        assert(listed.contains(pair));
                        let j = choose|j: int| 0 <= j < listed.len() && listed[j] == pair;
                        assert(keyed@[j] == pair);
                    } else {
                        assert(keyed@[listed.len() as int] == ranked(people, *id));
                    }
                }
                assert forall|root: Id|
                    iter.index() + 1 == iter.seq().len() && #[trigger] before.is_root(
                        root,
                    ) implies keyed@.contains(ranked(people, root)) by {
                    assert(keys.contains(root));
                    let m = choose|m: int| 0 <= m < keys.len() && keys[m] == root;
                    assert(*iter.seq()[m] == root);
                }
            }
        }
        let ghost pairs = keyed@;
        sort_ranked(&mut keyed);
        let mut ranking: Vec<Id> = Vec::new();
        let mut i: usize = 0;
        while i < keyed.len()
            invariant
                0 <= i <= keyed@.len(),
                ranking@.len() == i,
                forall|j: int| 0 <= j < i ==> #[trigger] ranking@[j] == keyed@[j].1,
            decreases keyed@.len() - i,
        {
            ranking.push(keyed[i].1);
            i = i + 1;
        }
        self.people_by_power_level = ranking;
        proof {
            assert(self@.people =~= before.people);
            lemma_sorted_pairs_rank(self@, pairs, keyed@);
        }
    }

    /// Whether every id of the batch names somebody.
    fn knows_all(&self, ids: &HashSet<Id>) -> (yes: bool)
        ensures
            yes <==> forall|id: Id| ids@.contains(id) ==> self@.people.contains_key(id),
    {
        let ghost batch = vstd::std_specs::hash::spec_hash_keys_iter(ids).remaining().unref();
        proof {
            assert(batch.to_set() == ids@);
            assert(batch.len() == 0 ==> forall|id: Id| !batch.contains(id));
        }
        for p in iter: ids.iter()
            invariant
                batch.len() == 0 ==> forall|id: Id| !ids@.contains(id),
                iter.seq().unref().to_set() == ids@,
                iter.seq().len() == batch.len(),
                forall|m: int|
                    0 <= m < iter.index() ==> self@.people.contains_key(*#[trigger] iter.seq()[m]),
                iter.index() == iter.seq().len() ==> forall|id: Id|
                    ids@.contains(id) ==> self@.people.contains_key(id),
        {
            let ghost keys = iter.seq().unref();
            proof {
                assert(keys[iter.index() as int] == *p);
                assert(keys.contains(*p));
                assert(ids@.contains(*p));
            }
            if !self.people.contains_key(p) {
                return false;
            }
            proof {
                assert forall|id: Id|
                    iter.index() + 1 == iter.seq().len() && ids@.contains(
                        id,
                    ) implies self@.people.contains_key(id) by {
                    assert(keys.contains(id));
                    let m = choose|m: int| 0 <= m < keys.len() && keys[m] == id;
                    assert(*iter.seq()[m] == id);
                }
            }
        }
        true
    }

    /// Removes the people named in `people`.
    ///
    /// Each of them leaves the registry; its leader no longer lists it, and
    /// those it led become roots, keeping their own subordinates. When the
    /// batch is through, the ranking is rebuilt from scratch.
    ///
    /// A batch with an id that names nobody is refused as a whole, and
    /// nothing changes: somebody who has been removed cannot be removed
    /// again.
    pub fn remove_people(&mut self, people: HashSet<Id>) -> (done: Result<(), WorldError>)
        requires
            old(self).wf(),
        ensures
            final(self).wf(),
            done is Ok <==> forall|id: Id|
                people@.contains(id) ==> old(self)@.people.contains_key(id),
            done is Ok ==> final(self)@.ranking_is_fresh() && final(self)@ == (WorldView {
                people: without(old(self)@.people, people@),
                ranking: final(self)@.ranking,
                ..old(self)@
            }),
            done matches Err(fault) ==> fault == WorldError::NotFound && final(self)@ == old(
                self,
            )@,
    {
        if !self.knows_all(&people) {
            return Err(WorldError::NotFound);
        }
        let ghost before = self@;
        let ghost batch = vstd::std_specs::hash::spec_hash_keys_iter(&people).remaining().unref();
        proof {
            lemma_without_nobody(before.people);
            assert(batch.len() == 0 ==> batch.to_set() =~= Set::<Id>::empty());
        }
        for p in iter: people.iter()
            invariant
                before.links_wf(),
                is_forest(before.people),
                forall|id: Id| people@.contains(id) ==> before.people.contains_key(id),
                without(before.people, Set::empty()) == before.people,
                batch.len() == 0 ==> without(before.people, people@) == before.people,
                iter.seq().unref().to_set() == people@,
                iter.seq().unref().no_duplicates(),
                iter.seq().len() == batch.len(),
                iter.index() == 0 ==> self@ == before,
                iter.index() > 0 ==> self@ == (WorldView {
                    people: without(
                        before.people,
                        iter.seq().take(iter.index() as int).unref().to_set(),
                    ),
                    ..before
                }),
                iter.index() == iter.seq().len() ==> self@ == (WorldView {
                    people: without(before.people, people@),
                    ..before
                }),
        {
            let ghost keys = iter.seq().unref();
            let ghost done = iter.seq().take(iter.index() as int).unref();
            let ghost next = iter.seq().take(iter.index() + 1).unref();
            proof {
                assert(iter.index() == 0 ==> done.to_set() =~= Set::<Id>::empty());
                assert(self@.people == without(before.people, done.to_set()));
                assert(iter.seq().take(iter.seq().len() as int) =~= iter.seq());
                lemma_without_keeps_links(before, self@, done.to_set());
                assert(next =~= done.push(*p));
                assert(next.to_set() =~= done.to_set().union(set![*p])) by {
                    assert forall|id: Id| next.to_set().contains(id) <==> done.to_set().union(
                        set![*p],
                    ).contains(id) by {
                        if done.contains(id) {
                            let m = choose|m: int| 0 <= m < done.len() && done[m] == id;
                            assert(next[m] == id);
                        }
                        if next.contains(id) {
                            let m = choose|m: int| 0 <= m < next.len() && next[m] == id;
                            if m < done.len() {
                                assert(done[m] == id);
                            }
                        }
                        assert(next[done.len() as int] == *p);
                    }
                }
                lemma_without_twice(before.people, done.to_set(), set![*p]);
                assert(keys[iter.index() as int] == *p);
                assert(keys.contains(*p));
                assert(people@.contains(*p));
                assert(!done.contains(*p)) by {
                    if done.contains(*p) {
                        let m = choose|m: int| 0 <= m < done.len() && done[m] == *p;
                        assert(keys[m] == keys[iter.index() as int]);
                    }
                }
                assert(self@.people.contains_key(*p));
            }
            self.unlink(*p);
        }
        proof {
            lemma_without_keeps_links(before, self@, people@);
        }
        self.rebuild_power_level_lookup();
        Ok(())
    }

    /// Removes `id` and every link to it: its leader no longer lists it, and
    /// those it led have no leader. The ranking is left as it is.
    fn unlink(&mut self, id: Id)
        requires
            old(self)@.links_wf(),
            is_forest(old(self)@.people),
            old(self)@.people.contains_key(id),
        ensures
            final(self)@ == (WorldView {
                people: without(old(self)@.people, set![id]),
                ..old(self)@
            }),
    {
        let ghost before = self@;
        let ghost people = before.people;
        proof {
            lemma_no_short_cycles(before, id);
        }
        let person = self.take_person(id);
        match person.leader {
            Some(leader) => {
                assert(people.contains_key(id));
                assert(people[id].leader == Some(leader));
                assert(people.contains_key(leader) && leader != id);
                self.strike_subordinate(leader, id);
            },
            None => {},
        }
        let ghost struck = self@.people;
        let mut k: usize = 0;
        assert(person.subordinates@.take(0) =~= Seq::<Id>::empty());
        assert(self@.people =~= released(struck, person.subordinates@.take(0)));
        while k < person.subordinates.len()
            invariant
                0 <= k <= person.subordinates@.len(),
                person@ == people[id],
                before.links_wf(),
                is_forest(people),
                people == before.people,
                people.contains_key(id),
                struck.dom() == people.dom().remove(id),
                self@ == (WorldView {
                    people: released(struck, person.subordinates@.take(k as int)),
                    ..before
                }),
            decreases person.subordinates@.len() - k,
        {
            let sub: Id = person.subordinates[k];
            let ghost listed = person.subordinates@;
            let ghost now = self@.people;
            proof {
                lemma_no_short_cycles(before, id);
                assert(people[id].subordinates[k as int] == sub);
                assert(people.contains_key(sub) && people[sub].leader == Some(id));
                assert(sub != id);
                assert(struck.contains_key(sub));
            }
            self.record_leader(sub, None);
            proof {
                let narrow = listed.take(k as int);
                let wide = listed.take(k + 1);
                let next = released(struck, wide);
                assert(wide =~= narrow.push(sub));
                assert forall|other: Id| next.contains_key(other) implies #[trigger] self@.people[other]
                    == next[other] by {
                    if narrow.contains(other) {
                        let j = choose|j: int| 0 <= j < narrow.len() && narrow[j] == other;
                        assert(wide[j] == other);
                    }
                    if wide.contains(other) && other != sub {
                        let j = choose|j: int| 0 <= j < wide.len() && wide[j] == other;
                        assert(narrow[j] == other);
                    }
                    if other == sub {
                        assert(wide[k as int] == sub);
                    }
                }
                assert(self@.people =~= next);
            }
            k = k + 1;
        }
        proof {
            let listed = person.subordinates@;
            assert(listed.take(k as int) =~= listed);
            let left = released(struck, listed);
            let right = without(people, set![id]);
            assert forall|other: Id| right.contains_key(other) implies #[trigger] left[other]
                == right[other] by {
                assert(people.contains_key(other) && other != id);
                let theirs = people[other].subordinates;
                if people[other].leader == Some(id) {
                    assert(people[id].subordinates.contains(other));
                } else {
                    if listed.contains(other) {
                        let j = choose|j: int| 0 <= j < listed.len() && listed[j] == other;
                        assert(people[id].subordinates[j] == other);
                    }
                }
                if people[id].leader == Some(other) {
                } else {
                    assert forall|j: int| 0 <= j < theirs.len() implies !set![id].contains(
                        #[trigger] theirs[j],
                    ) by {
                        let sub = people[other].subordinates[j];
                        assert(people[sub].leader == Some(other));
                    }
                    lemma_drop_ids_nothing(theirs, set![id]);
                }
            }
            assert(left =~= right);
        }
    }
}

} // verus!
