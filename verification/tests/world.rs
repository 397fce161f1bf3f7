use rand::{SeedableRng, StdRng};
use std::collections::HashSet;
use std::rc::Rc;
use worldgen::generation::names::Culture;
use worldgen::world::population::generate_full_name;
use worldgen::world::{Id, World, WorldError, MAX_HEALTH};

fn seeded(seed: usize) -> StdRng {
    let seed_words: [usize; 4] = [seed, 5, 77, 1234];
    StdRng::from_seed(&seed_words[..])
}

fn culture() -> Rc<Culture> {
    let mut rng = seeded(1);
    Rc::new(Culture::new(&mut rng))
}

fn world_of(levels: &[f64]) -> World {
    let mut world = World::empty();
    let culture = culture();
    for (i, level) in levels.iter().enumerate() {
        let id = world.add_new_person(culture.clone(), format!("p{}", i), level.to_bits());
        assert_eq!(id, Ok(i));
    }
    world
}

fn batch(ids: &[Id]) -> HashSet<Id> {
    ids.iter().cloned().collect()
}

fn strength(world: &World, id: Id) -> f64 {
    let levels = world.get_power_level_with_subordinates(id).unwrap();
    levels.iter().map(|bits| f64::from_bits(*bits)).sum()
}

fn check_ranking(world: &World) {
    let ranking = world.people_by_power_level();
    let mut roots = 0;
    for id in 0..world.next_id() {
        if let Ok(person) = world.get_person_by_id(id) {
            if person.leader.is_none() {
                roots += 1;
                assert!(ranking.contains(&id));
            }
        }
    }
    assert_eq!(ranking.len(), roots);
    for pair in ranking.windows(2) {
        let a = f64::from_bits(world.get_person_by_id(pair[0]).unwrap().power_level);
        let b = f64::from_bits(world.get_person_by_id(pair[1]).unwrap().power_level);
        assert!(a <= b);
    }
    for id in ranking.iter() {
        assert!(world.get_person_by_id(*id).unwrap().leader.is_none());
    }
}

#[test]
fn an_empty_world_has_nobody() {
    let world = World::empty();
    assert_eq!(world.len(), 0);
    assert_eq!(world.next_id(), 0);
    assert!(world.people_by_power_level().is_empty());
    assert_eq!(world.get_person_by_id(0).err(), Some(WorldError::NotFound));
}

#[test]
fn a_new_person_is_a_root_of_full_health() {
    let world = world_of(&[1.25]);
    let person = world.get_person_by_id(0).unwrap();
    assert_eq!(person.id, 0);
    assert_eq!(person.name, "p0");
    assert_eq!(f64::from_bits(person.power_level), 1.25);
    assert_eq!(person.health, MAX_HEALTH);
    assert_eq!(f64::from_bits(person.health), 100.0);
    assert!(person.subordinates.is_empty());
    assert_eq!(person.leader, None);
    assert_eq!(world.next_id(), 1);
    assert_eq!(world.len(), 1);
}

#[test]
fn people_are_ranked_by_power_level() {
    let world = world_of(&[1.0, 3.0, 2.0]);
    assert_eq!(world.people_by_power_level(), &vec![0, 2, 1]);
    check_ranking(&world);
}

#[test]
fn negative_levels_rank_below_positive_ones() {
    let world = world_of(&[0.5, -2.0, 0.0, -0.5, -0.0, 7.0]);
    assert_eq!(world.people_by_power_level(), &vec![1, 3, 2, 4, 0, 5]);
}

#[test]
fn equals_are_ranked_in_order_of_arrival() {
    let world = world_of(&[2.0, 1.0, 2.0, 1.0, 2.0]);
    assert_eq!(world.people_by_power_level(), &vec![1, 3, 0, 2, 4]);
}

#[test]
fn levels_that_are_not_finite_are_not_registered() {
    let mut world = world_of(&[1.0]);
    let culture = culture();
    for level in [f64::NAN, f64::INFINITY, f64::NEG_INFINITY].iter() {
        let added = world.add_new_person(culture.clone(), String::from("x"), level.to_bits());
        assert_eq!(added, Err(WorldError::InvalidPowerLevel));
    }
    assert_eq!(world.len(), 1);
    assert_eq!(world.next_id(), 1);
    assert_eq!(world.people_by_power_level(), &vec![0]);
}

#[test]
fn index_counts_the_weaker_roots() {
    let world = world_of(&[1.0, 3.0, 2.0, 2.0]);
    assert_eq!(world.get_power_level_index(0.5f64.to_bits()), 0);
    assert_eq!(world.get_power_level_index(1.0f64.to_bits()), 0);
    assert_eq!(world.get_power_level_index(2.0f64.to_bits()), 1);
    assert_eq!(world.get_power_level_index(2.5f64.to_bits()), 3);
    assert_eq!(world.get_power_level_index(9.0f64.to_bits()), 4);
    assert_eq!(world.get_power_level_index(f64::NEG_INFINITY.to_bits()), 0);
    assert_eq!(world.get_power_level_index(f64::INFINITY.to_bits()), 4);
    assert_eq!(world.get_power_level_index_after(2.0f64.to_bits()), 3);
    assert_eq!(world.get_power_level_index_after(0.5f64.to_bits()), 0);
    assert_eq!(world.get_power_level_index_after(3.0f64.to_bits()), 4);
}

#[test]
fn range_between_two_levels() {
    let world = world_of(&[1.0, 2.0, 3.0]);
    let ids = world.get_power_level_range(1.5f64.to_bits(), 2.5f64.to_bits());
    assert_eq!(ids, &[1]);
}

#[test]
fn range_starts_at_the_lower_bound_and_stops_before_the_upper() {
    let world = world_of(&[1.0, 2.0, 3.0, 4.0]);
    assert_eq!(world.get_power_level_range(2.0f64.to_bits(), 3.0f64.to_bits()), &[1]);
    assert_eq!(world.get_power_level_range(1.0f64.to_bits(), 3.5f64.to_bits()), &[0, 1, 2]);
}

#[test]
fn range_never_reaches_the_strongest_root() {
    let world = world_of(&[1.0, 2.0, 3.0]);
    assert_eq!(world.get_power_level_range(0.5f64.to_bits(), 10.0f64.to_bits()), &[0, 1]);
    assert_eq!(world.get_power_level_range(2.5f64.to_bits(), 10.0f64.to_bits()), &[] as &[Id]);
    assert_eq!(world.get_power_level_range(5.0f64.to_bits(), 10.0f64.to_bits()), &[] as &[Id]);
}

#[test]
fn range_with_bounds_that_meet_or_cross_is_empty() {
    let world = world_of(&[1.0, 2.0, 3.0]);
    assert_eq!(world.get_power_level_range(2.0f64.to_bits(), 2.0f64.to_bits()), &[] as &[Id]);
    assert_eq!(world.get_power_level_range(2.5f64.to_bits(), 1.5f64.to_bits()), &[] as &[Id]);
}

#[test]
fn range_of_an_empty_world_is_empty() {
    let world = World::empty();
    assert_eq!(world.get_power_level_range(0.0f64.to_bits(), 5.0f64.to_bits()), &[] as &[Id]);
}

#[test]
fn leaders_gather_the_strength_of_those_they_lead() {
    let mut world = world_of(&[1.0, 3.0, 2.0]);
    assert_eq!(world.people_by_power_level(), &vec![0, 2, 1]);
    assert_eq!(world.set_leader(0, 1), Ok(()));
    assert_eq!(world.set_leader(2, 1), Ok(()));
    assert_eq!(world.people_by_power_level(), &vec![1]);
    assert_eq!(world.get_person_by_id(1).unwrap().subordinates, vec![0, 2]);
    assert_eq!(world.get_person_by_id(0).unwrap().leader, Some(1));
    assert_eq!(world.get_person_by_id(2).unwrap().leader, Some(1));
    assert_eq!(strength(&world, 1), 6.0);
    assert_eq!(strength(&world, 0), 1.0);
    check_ranking(&world);

    assert_eq!(world.remove_people(batch(&[1])), Ok(()));
    assert_eq!(world.get_person_by_id(1).err(), Some(WorldError::NotFound));
    assert_eq!(world.get_person_by_id(0).unwrap().leader, None);
    assert_eq!(world.get_person_by_id(2).unwrap().leader, None);
    assert_eq!(world.people_by_power_level(), &vec![0, 2]);
    check_ranking(&world);
}

#[test]
fn strength_is_gathered_depth_first() {
    let mut world = world_of(&[1.0, 2.0, 4.0, 8.0, 16.0, 32.0]);
    world.set_leader(1, 0).unwrap();
    world.set_leader(2, 0).unwrap();
    world.set_leader(3, 1).unwrap();
    world.set_leader(4, 1).unwrap();
    world.set_leader(5, 2).unwrap();
    let levels: Vec<f64> = world
        .get_power_level_with_subordinates(0)
        .unwrap()
        .iter()
        .map(|bits| f64::from_bits(*bits))
        .collect();
    assert_eq!(levels, vec![1.0, 2.0, 8.0, 16.0, 4.0, 32.0]);
    assert_eq!(strength(&world, 0), 63.0);
    assert_eq!(strength(&world, 1), 26.0);
    assert_eq!(strength(&world, 5), 32.0);
    assert_eq!(
        world.get_power_level_with_subordinates(6).err(),
        Some(WorldError::NotFound)
    );
}

#[test]
fn nobody_is_put_under_itself_or_its_own() {
    let mut world = world_of(&[1.0, 2.0, 3.0]);
    world.set_leader(1, 0).unwrap();
    world.set_leader(2, 1).unwrap();
    assert_eq!(world.set_leader(0, 0), Err(WorldError::HierarchyCycle));
    assert_eq!(world.set_leader(0, 1), Err(WorldError::HierarchyCycle));
    assert_eq!(world.set_leader(0, 2), Err(WorldError::HierarchyCycle));
    assert_eq!(world.set_leader(1, 2), Err(WorldError::HierarchyCycle));
    assert_eq!(world.set_leader(0, 9), Err(WorldError::NotFound));
    assert_eq!(world.set_leader(9, 0), Err(WorldError::NotFound));
    assert_eq!(world.set_leader(9, 9), Err(WorldError::NotFound));
    assert_eq!(world.people_by_power_level(), &vec![0]);
    assert_eq!(world.get_person_by_id(0).unwrap().subordinates, vec![1]);
    assert_eq!(world.get_person_by_id(1).unwrap().subordinates, vec![2]);
    assert!(world.stands_under(2, 0));
    assert!(world.stands_under(2, 2));
    assert!(!world.stands_under(0, 2));
    check_ranking(&world);
}

#[test]
fn a_new_leader_replaces_the_old_one() {
    let mut world = world_of(&[1.0, 2.0, 3.0, 4.0]);
    world.set_leader(2, 0).unwrap();
    world.set_leader(3, 0).unwrap();
    world.set_leader(2, 1).unwrap();
    assert_eq!(world.get_person_by_id(0).unwrap().subordinates, vec![3]);
    assert_eq!(world.get_person_by_id(1).unwrap().subordinates, vec![2]);
    assert_eq!(world.get_person_by_id(2).unwrap().leader, Some(1));
    assert_eq!(world.people_by_power_level(), &vec![0, 1]);
    world.set_leader(3, 0).unwrap();
    assert_eq!(world.get_person_by_id(0).unwrap().subordinates, vec![3]);
    check_ranking(&world);
}

#[test]
fn clearing_a_leader_makes_a_root() {
    let mut world = world_of(&[1.0, 2.0, 3.0, 2.0]);
    world.set_leader(1, 0).unwrap();
    world.set_leader(2, 1).unwrap();
    assert_eq!(world.people_by_power_level(), &vec![0, 3]);
    assert_eq!(world.clear_leader(1), Ok(()));
    assert_eq!(world.people_by_power_level(), &vec![0, 3, 1]);
    assert_eq!(world.get_person_by_id(1).unwrap().leader, None);
    assert_eq!(world.get_person_by_id(1).unwrap().subordinates, vec![2]);
    assert!(world.get_person_by_id(0).unwrap().subordinates.is_empty());
    assert_eq!(world.clear_leader(1), Ok(()));
    assert_eq!(world.people_by_power_level(), &vec![0, 3, 1]);
    assert_eq!(world.clear_leader(8), Err(WorldError::NotFound));
    check_ranking(&world);
}

#[test]
fn a_changed_level_moves_a_root_in_the_ranking() {
    let mut world = world_of(&[1.0, 2.0, 3.0]);
    assert_eq!(world.update_power_level(0, 2.5f64.to_bits()), Ok(()));
    assert_eq!(world.people_by_power_level(), &vec![1, 0, 2]);
    assert_eq!(world.update_power_level(2, 2.0f64.to_bits()), Ok(()));
    assert_eq!(world.people_by_power_level(), &vec![1, 2, 0]);
    assert_eq!(world.update_power_level(1, 2.0f64.to_bits()), Ok(()));
    assert_eq!(world.people_by_power_level(), &vec![2, 1, 0]);
    assert_eq!(f64::from_bits(world.get_person_by_id(0).unwrap().power_level), 2.5);
    check_ranking(&world);
}

#[test]
fn a_changed_level_of_a_subordinate_leaves_the_ranking_alone() {
    let mut world = world_of(&[1.0, 2.0, 3.0]);
    world.set_leader(0, 2).unwrap();
    assert_eq!(world.update_power_level(0, 9.0f64.to_bits()), Ok(()));
    assert_eq!(world.people_by_power_level(), &vec![1, 2]);
    assert_eq!(strength(&world, 2), 12.0);
    check_ranking(&world);
}

#[test]
fn a_level_is_not_changed_to_what_is_not_finite_nor_for_nobody() {
    let mut world = world_of(&[1.0, 2.0]);
    assert_eq!(
        world.update_power_level(0, f64::NAN.to_bits()),
        Err(WorldError::InvalidPowerLevel)
    );
    assert_eq!(
        world.update_power_level(7, f64::INFINITY.to_bits()),
        Err(WorldError::InvalidPowerLevel)
    );
    assert_eq!(world.update_power_level(7, 1.0f64.to_bits()), Err(WorldError::NotFound));
    assert_eq!(f64::from_bits(world.get_person_by_id(0).unwrap().power_level), 1.0);
    assert_eq!(world.people_by_power_level(), &vec![0, 1]);
}

#[test]
fn removal_unlinks_from_the_leader_and_orphans_the_led() {
    let mut world = world_of(&[5.0, 4.0, 3.0, 2.0, 1.0]);
    world.set_leader(1, 0).unwrap();
    world.set_leader(2, 1).unwrap();
    world.set_leader(3, 1).unwrap();
    world.set_leader(4, 3).unwrap();
    assert_eq!(world.remove_people(batch(&[1])), Ok(()));
    assert_eq!(world.len(), 4);
    assert!(world.get_person_by_id(0).unwrap().subordinates.is_empty());
    assert_eq!(world.get_person_by_id(2).unwrap().leader, None);
    assert_eq!(world.get_person_by_id(3).unwrap().leader, None);
    assert_eq!(world.get_person_by_id(4).unwrap().leader, Some(3));
    assert_eq!(world.get_person_by_id(3).unwrap().subordinates, vec![4]);
    assert_eq!(world.people_by_power_level(), &vec![3, 2, 0]);
    check_ranking(&world);
}

#[test]
fn removal_of_a_leader_with_its_subordinate() {
    let mut world = world_of(&[5.0, 4.0, 3.0, 2.0]);
    world.set_leader(1, 0).unwrap();
    world.set_leader(2, 1).unwrap();
    world.set_leader(3, 0).unwrap();
    assert_eq!(world.remove_people(batch(&[1, 0])), Ok(()));
    assert_eq!(world.len(), 2);
    assert_eq!(world.get_person_by_id(2).unwrap().leader, None);
    assert_eq!(world.get_person_by_id(3).unwrap().leader, None);
    assert_eq!(world.people_by_power_level(), &vec![3, 2]);
    check_ranking(&world);
}

#[test]
fn removing_twice_is_removing_once() {
    let mut world = world_of(&[1.0, 2.0, 3.0]);
    world.set_leader(0, 1).unwrap();
    let mut twice = HashSet::new();
    assert!(twice.insert(1));
    assert!(!twice.insert(1));
    assert_eq!(world.remove_people(twice), Ok(()));
    assert_eq!(world.len(), 2);
    assert_eq!(world.people_by_power_level(), &vec![0, 2]);
    assert_eq!(world.remove_people(HashSet::new()), Ok(()));
    assert_eq!(world.people_by_power_level(), &vec![0, 2]);
    check_ranking(&world);
}

#[test]
fn a_batch_that_names_nobody_is_refused_as_a_whole() {
    let mut world = world_of(&[1.0, 2.0, 3.0, 4.0]);
    world.set_leader(0, 1).unwrap();
    world.set_leader(3, 2).unwrap();
    assert_eq!(world.remove_people(batch(&[1])), Ok(()));
    assert_eq!(world.remove_people(batch(&[1])), Err(WorldError::NotFound));
    assert_eq!(world.remove_people(batch(&[2, 17])), Err(WorldError::NotFound));
    assert_eq!(world.remove_people(batch(&[17])), Err(WorldError::NotFound));
    assert_eq!(world.len(), 3);
    assert_eq!(world.get_person_by_id(2).unwrap().subordinates, vec![3]);
    assert_eq!(world.get_person_by_id(3).unwrap().leader, Some(2));
    assert_eq!(world.people_by_power_level(), &vec![0, 2]);
    check_ranking(&world);
}

#[test]
fn health_changes_and_nothing_else() {
    let mut world = world_of(&[1.0, 2.0]);
    world.set_leader(0, 1).unwrap();
    assert_eq!(world.update_health(0, 12.5f64.to_bits()), Ok(()));
    assert_eq!(world.update_health(1, 0.0f64.to_bits()), Ok(()));
    assert_eq!(world.update_health(5, 1.0f64.to_bits()), Err(WorldError::NotFound));
    let led = world.get_person_by_id(0).unwrap();
    assert_eq!(f64::from_bits(led.health), 12.5);
    assert_eq!(f64::from_bits(led.power_level), 1.0);
    assert_eq!(led.leader, Some(1));
    let leader = world.get_person_by_id(1).unwrap();
    assert_eq!(f64::from_bits(leader.health), 0.0);
    assert_eq!(leader.subordinates, vec![0]);
    assert_eq!(world.people_by_power_level(), &vec![1]);
    check_ranking(&world);
}

#[test]
fn ids_are_never_given_twice() {
    let mut world = world_of(&[1.0, 2.0]);
    assert_eq!(world.remove_people(batch(&[0, 1])), Ok(()));
    assert_eq!(world.len(), 0);
    let added = world.add_new_person(culture(), String::from("late"), 1.0f64.to_bits());
    assert_eq!(added, Ok(2));
    assert_eq!(world.next_id(), 3);
}

#[test]
fn a_rebuilt_ranking_orders_equals_by_id() {
    let mut world = world_of(&[2.0, 2.0, 1.0, 2.0]);
    world.update_power_level(0, 3.0f64.to_bits()).unwrap();
    world.update_power_level(0, 2.0f64.to_bits()).unwrap();
    assert_eq!(world.people_by_power_level(), &vec![2, 1, 3, 0]);
    world.rebuild_power_level_lookup();
    assert_eq!(world.people_by_power_level(), &vec![2, 0, 1, 3]);
}

#[test]
fn a_rebuilt_ranking_is_in_order_for_many_people() {
    let levels: Vec<f64> = (0..500).map(|i| ((i * 37) % 101) as f64 - 50.0).collect();
    let mut world = world_of(&levels);
    for id in 0..100 {
        world.set_leader(id + 100, id).unwrap();
    }
    assert_eq!(world.remove_people((0..50).collect()), Ok(()));
    assert_eq!(world.len(), 450);
    let ranking = world.people_by_power_level().clone();
    assert_eq!(ranking.len(), 400);
    let mut expected: Vec<Id> = (50..100).chain(100..150).chain(200..500).collect();
    expected.sort_by(|a, b| {
        levels[*a].partial_cmp(&levels[*b]).unwrap().then(a.cmp(b))
    });
    assert_eq!(ranking, expected);
    check_ranking(&world);
}

#[test]
fn ranking_stays_right_through_a_mix_of_changes() {
    let mut rng = seeded(21);
    let culture = Rc::new(Culture::new(&mut rng));
    let mut world = World::empty();
    for round in 0..40usize {
        for k in 0..5usize {
            let level = ((round * 7 + k * 13) % 17) as f64 / 4.0;
            world
                .add_new_person(culture.clone(), generate_full_name(&culture, &mut rng), level.to_bits())
                .unwrap();
        }
        let newest = world.next_id() - 1;
        if round % 3 == 0 {
            let _ = world.set_leader(newest, newest / 2);
        }
        if round % 4 == 1 {
            let _ = world.remove_people(batch(&[round, round / 2, newest - 3]));
            let _ = world.remove_people(batch(&[newest - 3]));
        }
        if round % 5 == 2 {
            let _ = world.update_power_level(newest - 1, (round as f64).to_bits());
        }
        check_ranking(&world);
    }
}

#[test]
fn a_populated_world_holds_one_root_for_each_level() {
    let mut rng = seeded(3);
    let levels: Vec<u64> = (0..10).map(|i| (0.9 + (i as f64 / 10.0) * 0.2).to_bits()).collect();
    let world = World::new(&levels, 3, &mut rng).unwrap();
    assert_eq!(world.len(), 10);
    assert_eq!(world.next_id(), 10);
    assert_eq!(world.people_by_power_level(), &(0..10).collect::<Vec<Id>>());
    for id in 0..10 {
        let person = world.get_person_by_id(id).unwrap();
        assert_eq!(person.id, id);
        assert_eq!(person.power_level, levels[id]);
        assert_eq!(person.health, MAX_HEALTH);
        assert_eq!(person.leader, None);
        assert!(person.subordinates.is_empty());
        let parts: Vec<&str> = person.name.split(' ').collect();
        assert_eq!(parts.len(), 2);
        for part in parts {
            assert!(part.chars().next().unwrap().is_ascii_uppercase());
        }
    }
    for id in 1..10 {
        let same = Rc::ptr_eq(
            &world.get_person_by_id(id).unwrap().culture,
            &world.get_person_by_id(id - 1).unwrap().culture,
        );
        assert_eq!(same, id % 3 != 0);
    }
    check_ranking(&world);
}

#[test]
fn a_populated_world_may_be_empty() {
    let mut rng = seeded(4);
    let world = World::new(&Vec::new(), 0, &mut rng).unwrap();
    assert_eq!(world.len(), 0);
    assert!(world.people_by_power_level().is_empty());
}

#[test]
fn a_world_is_not_populated_with_levels_that_are_not_finite() {
    let mut rng = seeded(5);
    let levels = vec![1.0f64.to_bits(), f64::NAN.to_bits(), 2.0f64.to_bits()];
    assert_eq!(World::new(&levels, 1, &mut rng).err(), Some(WorldError::InvalidPowerLevel));
}

#[test]
fn full_names_are_two_names() {
    let mut rng = seeded(6);
    let culture = Culture::new(&mut rng);
    for _ in 0..100 {
        let name = generate_full_name(&culture, &mut rng);
        let parts: Vec<&str> = name.split(' ').collect();
        assert_eq!(parts.len(), 2);
        for part in parts {
            assert!(part.len() >= 2 * culture.min_name_length() as usize);
            assert!(part.len() <= 2 * culture.max_name_length() as usize + 1);
        }
    }
}
