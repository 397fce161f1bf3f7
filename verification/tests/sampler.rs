use rand::{SeedableRng, StdRng};
use worldgen::sampler::{InvalidDistribution, WeightedSampler};

fn seeded(seed: usize) -> StdRng {
    let seed_words: [usize; 4] = [seed, 17, 4711, 99];
    StdRng::from_seed(&seed_words[..])
}

#[test]
fn pick_follows_running_totals() {
    let sampler = WeightedSampler::new(vec![2, 0, 4, 1]).unwrap();
    assert_eq!(sampler.total(), 7);
    let picked: Vec<usize> = (0..7).map(|draw| sampler.pick(draw)).collect();
    assert_eq!(picked, vec![0, 0, 2, 2, 2, 2, 3]);
}

#[test]
fn zero_total_is_refused() {
    assert_eq!(WeightedSampler::new(vec![0, 0, 0]).err(), Some(InvalidDistribution));
    assert_eq!(WeightedSampler::new(Vec::new()).err(), Some(InvalidDistribution));
}

#[test]
fn overflowing_total_is_refused() {
    assert_eq!(WeightedSampler::new(vec![u32::MAX, 1]).err(), Some(InvalidDistribution));
    assert!(WeightedSampler::new(vec![u32::MAX - 1, 1]).is_ok());
}

#[test]
fn sampling_follows_the_weights() {
    let sampler = WeightedSampler::new(vec![90, 10]).unwrap();
    let mut rng = seeded(1);
    let mut first = 0u32;
    for _ in 0..100_000 {
        if sampler.sample(&mut rng) == 0 {
            first += 1;
        }
    }
    assert!(first >= 87_000 && first <= 93_000, "first item drawn {} times", first);
}

#[test]
fn zero_weight_is_never_drawn() {
    let sampler = WeightedSampler::new(vec![0, 5, 0, 5, 0]).unwrap();
    let mut rng = seeded(2);
    for _ in 0..10_000 {
        let index = sampler.sample(&mut rng);
        assert!(index == 1 || index == 3);
    }
}
