use rand::{SeedableRng, StdRng};
use worldgen::generation::names::{
    arrange, capitalize, consonant_at, decides, spell, vowel_at, Culture, CultureError,
    CHANCE_SCALE, MAX_FLIP_ORDER_CHANCE, MAX_MIN_NAME_LEN, MAX_NAME_LEN,
    MAX_TRAILING_CONSONANT_CHANCE, MAX_TWO_CONSONANTS_CHANCE, MIN_NAME_LEN, N_CONSONANTS,
    N_VOWELS,
};

fn seeded(seed: usize) -> StdRng {
    let seed_words: [usize; 4] = [seed, 23, 1999, 7];
    StdRng::from_seed(&seed_words[..])
}

fn is_vowel(c: char) -> bool {
    "aeiou".contains(c)
}

fn is_consonant(c: char) -> bool {
    "bcdfghjklmnpqrstvwxyz".contains(c)
}

fn even_consonants() -> Vec<u32> {
    vec![1; N_CONSONANTS]
}

fn custom(flip: u32, two: u32, trailing: u32, min: u32, max: u32, seed: usize) -> Culture {
    let mut rng = seeded(seed);
    Culture::with_parameters(vec![1, 1, 1, 1, 1], even_consonants(), flip, two, trailing, min, max, &mut rng)
        .unwrap()
}

fn weights_of(sampler: &worldgen::sampler::WeightedSampler) -> Vec<u32> {
    (0..sampler.len()).map(|i| sampler.weight(i)).collect()
}

#[test]
fn alphabets_are_in_order() {
    let vowels: String = (0..N_VOWELS).map(vowel_at).collect();
    let consonants: String = (0..N_CONSONANTS).map(consonant_at).collect();
    assert_eq!(vowels, "aeiou");
    assert_eq!(consonants, "bcdfghjklmnpqrstvwxyz");
}

#[test]
fn capitalize_raises_lowercase_letters_only() {
    assert_eq!(capitalize('a'), 'A');
    assert_eq!(capitalize('z'), 'Z');
    assert_eq!(capitalize('Q'), 'Q');
    assert_eq!(capitalize('-'), '-');
}

#[test]
fn decides_by_comparing_roll_and_chance() {
    assert!(!decides(0, 0));
    assert!(decides(1, 0));
    assert!(!decides(300_000, 300_000));
    assert!(decides(300_000, 299_999));
    assert!(decides(CHANCE_SCALE, CHANCE_SCALE - 1));
}

#[test]
fn arrange_puts_the_consonant_first_unless_flipped() {
    assert_eq!(arrange('k', 'a', false), ('k', 'a'));
    assert_eq!(arrange('k', 'a', true), ('a', 'k'));
}

#[test]
fn spell_joins_syllables_and_capitalises_the_first_symbol() {
    assert_eq!(spell(&vec![('k', 'a'), ('o', 'r')], None), "Kaor");
    assert_eq!(spell(&vec![('k', 'a'), ('t', 't')], Some('n')), "Kattn");
    assert_eq!(spell(&vec![('e', 'l')], None), "El");
    assert_eq!(spell(&Vec::new(), Some('s')), "S");
    assert_eq!(spell(&Vec::new(), None), "");
}

#[test]
fn random_cultures_stay_within_their_bounds() {
    for seed in 0..200 {
        let mut rng = seeded(seed);
        let culture = Culture::new(&mut rng);
        assert!(culture.min_name_length() >= MIN_NAME_LEN);
        assert!(culture.min_name_length() < MAX_MIN_NAME_LEN);
        assert!(culture.max_name_length() >= culture.min_name_length());
        assert!(culture.max_name_length() < MAX_NAME_LEN);
        assert!(culture.flip_order_chance() < MAX_FLIP_ORDER_CHANCE);
        assert!(culture.two_consonants_chance() < MAX_TWO_CONSONANTS_CHANCE);
        assert!(culture.trailing_consonant_chance() < MAX_TRAILING_CONSONANT_CHANCE);
        assert!(!culture.name().is_empty());
    }
}

#[test]
fn random_cultures_deal_out_the_templates() {
    let mut reordered = false;
    for seed in 0..20 {
        let mut rng = seeded(seed);
        let culture = Culture::new(&mut rng);
        let vowels = weights_of(culture.vowel_weights());
        let consonants = weights_of(culture.consonant_weights());
        if vowels != vec![33, 33, 20, 6, 4] {
            reordered = true;
        }
        let mut sorted_vowels = vowels.clone();
        sorted_vowels.sort();
        assert_eq!(sorted_vowels, vec![4, 6, 20, 33, 33]);
        let mut sorted_consonants = consonants.clone();
        sorted_consonants.sort();
        assert_eq!(
            sorted_consonants,
            vec![0, 0, 0, 0, 0, 0, 0, 0, 0, 1, 2, 2, 2, 3, 3, 4, 5, 15, 15, 15, 20]
        );
    }
    assert!(reordered);
}

#[test]
fn names_have_the_lengths_their_culture_allows() {
    for seed in 0..50 {
        let mut rng = seeded(seed);
        let culture = Culture::new(&mut rng);
        let min = culture.min_name_length() as usize;
        let max = culture.max_name_length() as usize;
        for _ in 0..100 {
            let name = culture.generate_name(&mut rng);
            let len = name.chars().count();
            assert!(len > 0);
            assert!(2 * min <= len && len <= 2 * max + 1, "{} has length {}", name, len);
        }
    }
}

#[test]
fn names_start_with_a_capital_and_go_on_in_lowercase() {
    for seed in 0..50 {
        let mut rng = seeded(seed);
        let culture = Culture::new(&mut rng);
        for _ in 0..100 {
            let name = culture.generate_name(&mut rng);
            let mut chars = name.chars();
            assert!(chars.next().unwrap().is_ascii_uppercase(), "{}", name);
            assert!(chars.all(|c| c.is_ascii_lowercase()), "{}", name);
        }
    }
}

#[test]
fn without_doubling_every_syllable_has_one_vowel_and_one_consonant() {
    let culture = custom(500_000, 0, 500_000, 1, 6, 3);
    let mut rng = seeded(4);
    for _ in 0..2_000 {
        let name = culture.generate_name(&mut rng).to_lowercase();
        let letters: Vec<char> = name.chars().collect();
        for pair in letters.chunks(2) {
            if pair.len() == 2 {
                let one_of_each = (is_vowel(pair[0]) && is_consonant(pair[1]))
                    || (is_consonant(pair[0]) && is_vowel(pair[1]));
                assert!(one_of_each, "{}", name);
            } else {
                assert!(is_consonant(pair[0]), "{}", name);
            }
        }
    }
}

#[test]
fn certain_doubling_leaves_no_vowel() {
    let culture = custom(0, CHANCE_SCALE, 0, 2, 2, 5);
    let mut rng = seeded(6);
    for _ in 0..200 {
        let name = culture.generate_name(&mut rng).to_lowercase();
        assert_eq!(name.chars().count(), 4);
        assert!(name.chars().all(is_consonant), "{}", name);
    }
}

#[test]
fn certain_flipping_puts_the_vowel_first() {
    let culture = custom(CHANCE_SCALE, 0, CHANCE_SCALE, 1, 3, 7);
    let mut rng = seeded(8);
    for _ in 0..200 {
        let name = culture.generate_name(&mut rng).to_lowercase();
        let letters: Vec<char> = name.chars().collect();
        assert_eq!(letters.len() % 2, 1, "{}", name);
        for (i, c) in letters.iter().enumerate() {
            assert_eq!(is_vowel(*c), i % 2 == 0 && i + 1 < letters.len(), "{}", name);
        }
    }
}

#[test]
fn letters_of_weight_zero_never_appear() {
    let mut rng = seeded(9);
    let mut consonants = vec![0; N_CONSONANTS];
    consonants[7] = 3;
    let culture =
        Culture::with_parameters(vec![0, 0, 5, 0, 0], consonants, 0, 0, 0, 1, 4, &mut rng).unwrap();
    for _ in 0..200 {
        let name = culture.generate_name(&mut rng).to_lowercase();
        assert!(name.chars().all(|c| c == 'i' || c == 'k'), "{}", name);
    }
}

#[test]
fn parameters_are_kept_as_given() {
    let mut rng = seeded(10);
    let culture = Culture::with_parameters(
        vec![5, 4, 3, 2, 1],
        even_consonants(),
        10,
        20,
        30,
        2,
        5,
        &mut rng,
    )
    .unwrap();
    assert_eq!(weights_of(culture.vowel_weights()), vec![5, 4, 3, 2, 1]);
    assert_eq!(weights_of(culture.consonant_weights()), even_consonants());
    assert_eq!(culture.flip_order_chance(), 10);
    assert_eq!(culture.two_consonants_chance(), 20);
    assert_eq!(culture.trailing_consonant_chance(), 30);
    assert_eq!(culture.min_name_length(), 2);
    assert_eq!(culture.max_name_length(), 5);
    let len = culture.name().chars().count();
    assert!(4 <= len && len <= 11);
}

#[test]
fn unusable_weights_are_refused() {
    let mut rng = seeded(11);
    let zero = Culture::with_parameters(vec![0; 5], even_consonants(), 0, 0, 0, 1, 2, &mut rng);
    assert_eq!(zero.err(), Some(CultureError::InvalidDistribution));
    let short = Culture::with_parameters(vec![1; 4], even_consonants(), 0, 0, 0, 1, 2, &mut rng);
    assert_eq!(short.err(), Some(CultureError::InvalidDistribution));
    let silent = Culture::with_parameters(vec![1; 5], vec![0; N_CONSONANTS], 0, 0, 0, 1, 2, &mut rng);
    assert_eq!(silent.err(), Some(CultureError::InvalidDistribution));
    let heavy =
        Culture::with_parameters(vec![u32::MAX, 1, 0, 0, 0], even_consonants(), 0, 0, 0, 1, 2, &mut rng);
    assert_eq!(heavy.err(), Some(CultureError::InvalidDistribution));
}

#[test]
fn chances_above_certainty_are_refused() {
    let mut rng = seeded(12);
    let made = Culture::with_parameters(
        vec![1; 5],
        even_consonants(),
        0,
        CHANCE_SCALE + 1,
        0,
        1,
        2,
        &mut rng,
    );
    assert_eq!(made.err(), Some(CultureError::InvalidChance));
}

#[test]
fn impossible_name_lengths_are_refused() {
    let mut rng = seeded(13);
    let none = Culture::with_parameters(vec![1; 5], even_consonants(), 0, 0, 0, 0, 2, &mut rng);
    assert_eq!(none.err(), Some(CultureError::InvalidNameLength));
    let crossed = Culture::with_parameters(vec![1; 5], even_consonants(), 0, 0, 0, 3, 2, &mut rng);
    assert_eq!(crossed.err(), Some(CultureError::InvalidNameLength));
    let endless =
        Culture::with_parameters(vec![1; 5], even_consonants(), 0, 0, 0, 1, u32::MAX, &mut rng);
    assert_eq!(endless.err(), Some(CultureError::InvalidNameLength));
}

#[test]
fn the_first_fault_found_is_the_one_reported() {
    let mut rng = seeded(14);
    let made = Culture::with_parameters(vec![0; 5], even_consonants(), CHANCE_SCALE + 1, 0, 0, 0, 0, &mut rng);
    assert_eq!(made.err(), Some(CultureError::InvalidDistribution));
    let made =
        Culture::with_parameters(vec![1; 5], even_consonants(), CHANCE_SCALE + 1, 0, 0, 0, 0, &mut rng);
    assert_eq!(made.err(), Some(CultureError::InvalidChance));
}

fn one_letter_each(flip: u32, two: u32, trailing: u32, min: u32, max: u32) -> Culture {
    let mut rng = seeded(40);
    let mut consonants = vec![0; N_CONSONANTS];
    consonants[0] = 1;
    Culture::with_parameters(vec![1, 0, 0, 0, 0], consonants, flip, two, trailing, min, max, &mut rng)
        .unwrap()
}

#[test]
fn certain_chances_fix_the_name() {
    let mut rng = seeded(41);
    for _ in 0..50 {
        assert_eq!(one_letter_each(0, 0, 0, 2, 2).generate_name(&mut rng), "Baba");
        assert_eq!(one_letter_each(CHANCE_SCALE, 0, 0, 2, 2).generate_name(&mut rng), "Abab");
        assert_eq!(one_letter_each(0, CHANCE_SCALE, 0, 1, 1).generate_name(&mut rng), "Bb");
        assert_eq!(one_letter_each(0, 0, CHANCE_SCALE, 1, 1).generate_name(&mut rng), "Bab");
        assert_eq!(
            one_letter_each(CHANCE_SCALE, CHANCE_SCALE, CHANCE_SCALE, 1, 1).generate_name(&mut rng),
            "Bbb"
        );
    }
}
