//! Cultures and the names they produce.
//!
//! A culture fixes how likely each vowel and each consonant is, how often a
//! syllable doubles its consonant or puts the vowel first, how often a name
//! ends on an extra consonant, and how many syllables a name may have. Names
//! are assembled syllable by syllable from random draws; the first symbol is
//! capitalised.
//!
//! Chances are fixed-point numbers: a chance of `c` stands for the probability
//! `c / CHANCE_SCALE`.

use crate::random::{draw_range, shuffle};
use crate::sampler::{
    lemma_total_weight_bounded, lemma_total_weight_positive, lemma_total_weight_reordered,
    total_weight, WeightedSampler,
};
use rand::StdRng;
use vstd::prelude::*;

verus! {

/// The denominator of every chance: a chance of `CHANCE_SCALE` is certainty.
pub const CHANCE_SCALE: u32 = 1_000_000;

/// The number of vowels in the alphabet.
pub const N_VOWELS: usize = 5;

/// The number of consonants in the alphabet.
pub const N_CONSONANTS: usize = 21;

/// The fewest syllables a randomly drawn culture may require.
pub const MIN_NAME_LEN: u32 = 1;

/// A randomly drawn culture requires fewer syllables than this.
pub const MAX_MIN_NAME_LEN: u32 = 3;

/// A randomly drawn culture allows fewer syllables than this.
pub const MAX_NAME_LEN: u32 = 7;

/// A randomly drawn culture doubles consonants less often than this.
pub const MAX_TWO_CONSONANTS_CHANCE: u32 = 100_000;

/// A randomly drawn culture puts the vowel first less often than this.
pub const MAX_FLIP_ORDER_CHANCE: u32 = 300_000;

/// A randomly drawn culture appends a consonant less often than this.
pub const MAX_TRAILING_CONSONANT_CHANCE: u32 = 600_000;

/// The vowels, in the order in which weights are assigned to them.
pub open spec fn vowel_alphabet() -> Seq<char> {
    seq!['a', 'e', 'i', 'o', 'u']
}

/// The consonants, in the order in which weights are assigned to them.
pub open spec fn consonant_alphabet() -> Seq<char> {
    seq![
        'b', 'c', 'd', 'f', 'g', 'h', 'j', 'k', 'l', 'm', 'n', 'p', 'q', 'r', 's', 't', 'v', 'w',
        'x', 'y', 'z',
    ]
}

/// The weights that a random culture deals out among the vowels.
pub open spec fn vowel_template() -> Seq<u32> {
    seq![33u32, 33u32, 20u32, 6u32, 4u32]
}

/// The weights that a random culture deals out among the consonants.
pub open spec fn consonant_template() -> Seq<u32> {
    seq![
        20u32, 15u32, 15u32, 15u32, 5u32, 3u32, 3u32, 4u32, 2u32, 2u32, 2u32, 1u32, 0u32, 0u32,
        0u32, 0u32, 0u32, 0u32, 0u32, 0u32, 0u32,
    ]
}

/// Whether `c` is a vowel of the alphabet.
pub open spec fn is_vowel(c: char) -> bool {
    c == 'a' || c == 'e' || c == 'i' || c == 'o' || c == 'u'
}

/// Whether `c` is a consonant of the alphabet: a lowercase letter that is no
/// vowel.
pub open spec fn is_consonant(c: char) -> bool {
    'a' <= c <= 'z' && !is_vowel(c)
}

/// Whether `c` is one of `a` to `z`.
pub open spec fn is_lowercase(c: char) -> bool {
    'a' <= c <= 'z'
}

/// Whether `c` is one of `A` to `Z`.
pub open spec fn is_uppercase(c: char) -> bool {
    'A' <= c <= 'Z'
}

/// The capital of a lowercase letter; any other character is left alone.
pub open spec fn capital(c: char) -> char {
    if is_lowercase(c) {
        ((c as u8 - 32) as u8) as char
    } else {
        c
    }
}

/// The lowercase form of a capital letter; any other character is left alone.
pub open spec fn small(c: char) -> char {
    if is_uppercase(c) {
        ((c as u8 + 32) as u8) as char
    } else {
        c
    }
}

/// The vowel at position `index` of the alphabet.
pub fn vowel_at(index: usize) -> (c: char)
    requires
        index < N_VOWELS,
    ensures
        c == vowel_alphabet()[index as int],
        is_vowel(c),
{
    if index == 0 {
        'a'
    } else if index == 1 {
        'e'
    } else if index == 2 {
        'i'
    } else if index == 3 {
        'o'
    } else {
        'u'
    }
}

/// The consonant at position `index` of the alphabet.
pub fn consonant_at(index: usize) -> (c: char)
    requires
        index < N_CONSONANTS,
    ensures
        c == consonant_alphabet()[index as int],
        is_consonant(c),
{
    let letters: [char; 21] = [
        'b', 'c', 'd', 'f', 'g', 'h', 'j', 'k', 'l', 'm', 'n', 'p', 'q', 'r', 's', 't', 'v', 'w',
        'x', 'y', 'z',
    ];
    letters[index]
}

/// Capitalises a lowercase letter and leaves any other character alone.
pub fn capitalize(c: char) -> (upper: char)
    ensures
        upper == capital(c),
        is_lowercase(c) ==> is_uppercase(upper) && small(upper) == c,
{
    if 'a' <= c && c <= 'z' {
        let code: u8 = c as u8;
        (code - 32) as char
    } else {
        c
    }
}

/// Appends one character with `String::push`, which adds it at the end and
/// changes nothing before it.
#[verifier::external_body]
fn push_char(text: &mut String, c: char)
    ensures
        final(text)@ == old(text)@.push(c),
{
    text.push(c);
}

/// Why a set of culture parameters is refused.
#[derive(Debug, Clone, Copy, PartialEq, Eq)]
pub enum CultureError {
    /// A weight list does not match its alphabet in length, sums to zero, or
    /// sums to more than a `u32` holds.
    InvalidDistribution,
    /// A chance exceeds `CHANCE_SCALE`.
    InvalidChance,
    /// The syllable bounds are not `1 <= min <= max < u32::MAX`.
    InvalidNameLength,
}

/// What a culture is, as plain mathematical values.
pub struct CultureView {
    pub name: Seq<char>,
    pub vowel_weights: Seq<u32>,
    pub consonant_weights: Seq<u32>,
    pub flip_order_chance: u32,
    pub two_consonants_chance: u32,
    pub trailing_consonant_chance: u32,
    pub min_name_length: u32,
    pub max_name_length: u32,
}

/// Whether `weights` is a usable distribution over an alphabet of `letters`
/// symbols.
pub open spec fn valid_distribution(weights: Seq<u32>, letters: nat) -> bool {
    weights.len() == letters && 0 < total_weight(weights) <= u32::MAX
}

/// The two symbols of syllable `i` in a name without its capital.
pub open spec fn syllable_at(body: Seq<char>, i: int) -> (char, char) {
    (body[2 * i], body[2 * i + 1])
}

/// A name with its first symbol put back in lowercase.
pub open spec fn uncapitalized(name: Seq<char>) -> Seq<char> {
    if name.len() > 0 {
        name.update(0, small(name[0]))
    } else {
        name
    }
}

impl CultureView {
    /// The parameters are within their ranges and both distributions are
    /// usable.
    pub open spec fn wf(self) -> bool {
        &&& valid_distribution(self.vowel_weights, N_VOWELS as nat)
        &&& valid_distribution(self.consonant_weights, N_CONSONANTS as nat)
        &&& self.flip_order_chance <= CHANCE_SCALE
        &&& self.two_consonants_chance <= CHANCE_SCALE
        &&& self.trailing_consonant_chance <= CHANCE_SCALE
        &&& 1 <= self.min_name_length <= self.max_name_length < u32::MAX
    }

    /// Whether the culture can draw `c` as a vowel: `c` is a vowel whose
    /// weight is positive.
    pub open spec fn may_draw_vowel(self, c: char) -> bool {
        exists|i: int|
            0 <= i < N_VOWELS && #[trigger] vowel_alphabet()[i] == c && self.vowel_weights[i] > 0
    }

    /// Whether the culture can draw `c` as a consonant: `c` is a consonant
    /// whose weight is positive.
    pub open spec fn may_draw_consonant(self, c: char) -> bool {
        exists|i: int|
            0 <= i < N_CONSONANTS && #[trigger] consonant_alphabet()[i] == c
                && self.consonant_weights[i] > 0
    }

    /// Whether `c` can stand beside the consonant of a syllable: a vowel,
    /// unless the culture always doubles consonants; or a second consonant,
    /// unless it never does.
    pub open spec fn may_accompany(self, c: char) -> bool {
        ||| self.two_consonants_chance < CHANCE_SCALE && self.may_draw_vowel(c)
        ||| self.two_consonants_chance > 0 && self.may_draw_consonant(c)
    }

    /// Whether the pair is a syllable of this culture: the consonant first and
    /// its companion second, unless the culture always flips; or the other
    /// way round, unless it never does.
    pub open spec fn is_syllable(self, pair: (char, char)) -> bool {
        ||| self.flip_order_chance < CHANCE_SCALE && self.may_draw_consonant(pair.0)
            && self.may_accompany(pair.1)
        ||| self.flip_order_chance > 0 && self.may_accompany(pair.0) && self.may_draw_consonant(
            pair.1,
        )
    }

    /// Whether `body` is `syllables` syllables of this culture, followed by
    /// nothing, unless the culture always appends; or by one more consonant,
    /// unless it never does.
    pub open spec fn is_body(self, body: Seq<char>, syllables: int) -> bool {
        &&& self.min_name_length <= syllables <= self.max_name_length
        &&& forall|i: int| 0 <= i < syllables ==> self.is_syllable(#[trigger] syllable_at(body, i))
        &&& {
            ||| self.trailing_consonant_chance < CHANCE_SCALE && body.len() == 2 * syllables
            ||| self.trailing_consonant_chance > 0 && body.len() == 2 * syllables + 1
                && self.may_draw_consonant(body[2 * syllables])
        }
    }

    /// Whether this culture can produce `name`: it starts with a capital, and
    /// with that capital in lowercase it is a body of this culture.
    pub open spec fn is_name(self, name: Seq<char>) -> bool {
        &&& name.len() > 0
        &&& is_uppercase(name[0])
        &&& self.is_body(uncapitalized(name), name.len() as int / 2)
    }
}

/// The fault that `with_parameters` finds first in its arguments, if any.
pub open spec fn parameter_fault(
    vowel_weights: Seq<u32>,
    consonant_weights: Seq<u32>,
    flip_order_chance: u32,
    two_consonants_chance: u32,
    trailing_consonant_chance: u32,
    min_name_length: u32,
    max_name_length: u32,
) -> Option<CultureError> {
    if !valid_distribution(vowel_weights, N_VOWELS as nat) || !valid_distribution(
        consonant_weights,
        N_CONSONANTS as nat,
    ) {
        Some(CultureError::InvalidDistribution)
    } else if flip_order_chance > CHANCE_SCALE || two_consonants_chance > CHANCE_SCALE
        || trailing_consonant_chance > CHANCE_SCALE {
        Some(CultureError::InvalidChance)
    } else if !(1 <= min_name_length <= max_name_length < u32::MAX) {
        Some(CultureError::InvalidNameLength)
    } else {
        None
    }
}

/// A model of the names of one cultural group. Nothing changes it once it is
/// built, so any number of people may share one culture.
pub struct Culture {
    name: String,
    vowels: WeightedSampler,
    consonants: WeightedSampler,
    flip_order_chance: u32,
    two_consonants_chance: u32,
    trailing_consonant_chance: u32,
    min_name_length: u32,
    max_name_length: u32,
}

impl View for Culture {
    type V = CultureView;

    closed spec fn view(&self) -> CultureView {
        CultureView {
            name: self.name@,
            vowel_weights: self.vowels@,
            consonant_weights: self.consonants@,
            flip_order_chance: self.flip_order_chance,
            two_consonants_chance: self.two_consonants_chance,
            trailing_consonant_chance: self.trailing_consonant_chance,
            min_name_length: self.min_name_length,
            max_name_length: self.max_name_length,
        }
    }
}

impl Culture {
    /// The culture's parameters are in range and its sampling tables match
    /// its weights.
    pub open spec fn wf(&self) -> bool {
        &&& self@.wf()
        &&& self.tables_wf()
    }

    /// The sampling tables match the weights.
    pub closed spec fn tables_wf(&self) -> bool {
        &&& self.vowels.wf()
        &&& self.consonants.wf()
    }

    /// Draws a culture at random.
    ///
    /// The two weight templates are dealt out in random order over the vowels
    /// and the consonants, the three chances are drawn below their caps, and
    /// the syllable bounds are drawn with `min` below `MAX_MIN_NAME_LEN` and
    /// `max` from `min` to below `MAX_NAME_LEN`. The culture then names
    /// itself with a name of its own making.
    pub fn new(rng: &mut StdRng) -> (culture: Culture)
        ensures
            culture.wf(),
            culture@.is_name(culture@.name),
            culture@.vowel_weights.to_multiset() == vowel_template().to_multiset(),
            culture@.consonant_weights.to_multiset() == consonant_template().to_multiset(),
            culture@.flip_order_chance < MAX_FLIP_ORDER_CHANCE,
            culture@.two_consonants_chance < MAX_TWO_CONSONANTS_CHANCE,
            culture@.trailing_consonant_chance < MAX_TRAILING_CONSONANT_CHANCE,
            MIN_NAME_LEN <= culture@.min_name_length < MAX_MIN_NAME_LEN,
            culture@.min_name_length <= culture@.max_name_length < MAX_NAME_LEN,
    {
        let mut vowel_weights: Vec<u32> = vec![33u32, 33u32, 20u32, 6u32, 4u32];
        let mut consonant_weights: Vec<u32> = vec![
            20u32, 15u32, 15u32, 15u32, 5u32, 3u32, 3u32, 4u32, 2u32, 2u32, 2u32, 1u32, 0u32,
            0u32, 0u32, 0u32, 0u32, 0u32, 0u32, 0u32, 0u32,
        ];
        assert(vowel_weights@ =~= vowel_template());
        assert(consonant_weights@ =~= consonant_template());
        shuffle(rng, &mut vowel_weights);
        shuffle(rng, &mut consonant_weights);
        proof {
            lemma_total_weight_positive(vowel_template(), 0);
            lemma_total_weight_bounded(vowel_template(), 33);
            lemma_total_weight_reordered(vowel_template(), vowel_weights@);
            lemma_total_weight_positive(consonant_template(), 0);
            lemma_total_weight_bounded(consonant_template(), 20);
            lemma_total_weight_reordered(consonant_template(), consonant_weights@);
        }
        let min_name_length: u32 = draw_range(rng, MIN_NAME_LEN, MAX_MIN_NAME_LEN);
        let flip_order_chance: u32 = draw_range(rng, 0, MAX_FLIP_ORDER_CHANCE);
        let two_consonants_chance: u32 = draw_range(rng, 0, MAX_TWO_CONSONANTS_CHANCE);
        let trailing_consonant_chance: u32 = draw_range(rng, 0, MAX_TRAILING_CONSONANT_CHANCE);
        let max_name_length: u32 = draw_range(rng, min_name_length, MAX_NAME_LEN);
        let made = Culture::with_parameters(
            vowel_weights,
            consonant_weights,
            flip_order_chance,
            two_consonants_chance,
            trailing_consonant_chance,
            min_name_length,
            max_name_length,
            rng,
        );
        match made {
            Ok(culture) => culture,
            Err(_) => vstd::pervasive::unreached(),
        }
    }

    /// Builds the culture with the given parameters, or says what is wrong
    /// with them. The culture names itself with a name of its own making.
    ///
    /// The weight lists are matched to the alphabets position by position.
    pub fn with_parameters(
        vowel_weights: Vec<u32>,
        consonant_weights: Vec<u32>,
        flip_order_chance: u32,
        two_consonants_chance: u32,
        trailing_consonant_chance: u32,
        min_name_length: u32,
        max_name_length: u32,
        rng: &mut StdRng,
    ) -> (made: Result<Culture, CultureError>)
        ensures
            match made {
                Ok(culture) => {
                    &&& parameter_fault(
                        vowel_weights@,
                        consonant_weights@,
                        flip_order_chance,
                        two_consonants_chance,
                        trailing_consonant_chance,
                        min_name_length,
                        max_name_length,
                    ) is None
                    &&& culture.wf()
                    &&& culture@.is_name(culture@.name)
                    &&& culture@.vowel_weights == vowel_weights@
                    &&& culture@.consonant_weights == consonant_weights@
                    &&& culture@.flip_order_chance == flip_order_chance
                    &&& culture@.two_consonants_chance == two_consonants_chance
                    &&& culture@.trailing_consonant_chance == trailing_consonant_chance
                    &&& culture@.min_name_length == min_name_length
                    &&& culture@.max_name_length == max_name_length
                },
                Err(fault) => parameter_fault(
                    vowel_weights@,
                    consonant_weights@,
                    flip_order_chance,
                    two_consonants_chance,
                    trailing_consonant_chance,
                    min_name_length,
                    max_name_length,
                ) == Some(fault),
            },
    {
        if vowel_weights.len() != N_VOWELS || consonant_weights.len() != N_CONSONANTS {
            return Err(CultureError::InvalidDistribution);
        }
        let vowels = match WeightedSampler::new(vowel_weights) {
            Ok(sampler) => sampler,
            Err(_) => {
                return Err(CultureError::InvalidDistribution);
            },
        };
        let consonants = match WeightedSampler::new(consonant_weights) {
            Ok(sampler) => sampler,
            Err(_) => {
                return Err(CultureError::InvalidDistribution);
            },
        };
        if flip_order_chance > CHANCE_SCALE || two_consonants_chance > CHANCE_SCALE
            || trailing_consonant_chance > CHANCE_SCALE {
            return Err(CultureError::InvalidChance);
        }
        if min_name_length < 1 || min_name_length > max_name_length || max_name_length == u32::MAX {
            return Err(CultureError::InvalidNameLength);
        }
        let mut culture = Culture {
            name: String::new(),
            vowels,
            consonants,
            flip_order_chance,
            two_consonants_chance,
            trailing_consonant_chance,
            min_name_length,
            max_name_length,
        };
        let name: String = culture.generate_name(rng);
        culture.name = name;
        Ok(culture)
    }

    /// The culture's own name.
    pub fn name(&self) -> (name: &String)
        ensures
            name@ == self@.name,
    {
        &self.name
    }

    /// The weight of each vowel, in alphabet order.
    pub fn vowel_weights(&self) -> (sampler: &WeightedSampler)
        ensures
            sampler@ == self@.vowel_weights,
            self.wf() ==> sampler.wf(),
    {
        &self.vowels
    }

    /// The weight of each consonant, in alphabet order.
    pub fn consonant_weights(&self) -> (sampler: &WeightedSampler)
        ensures
            sampler@ == self@.consonant_weights,
            self.wf() ==> sampler.wf(),
    {
        &self.consonants
    }

    /// The chance that a syllable puts the consonant's companion first.
    pub fn flip_order_chance(&self) -> (chance: u32)
        ensures
            chance == self@.flip_order_chance,
    {
        self.flip_order_chance
    }

    /// The chance that a syllable holds a second consonant in place of its
    /// vowel.
    pub fn two_consonants_chance(&self) -> (chance: u32)
        ensures
            chance == self@.two_consonants_chance,
    {
        self.two_consonants_chance
    }

    /// The chance that a name ends on one more consonant.
    pub fn trailing_consonant_chance(&self) -> (chance: u32)
        ensures
            chance == self@.trailing_consonant_chance,
    {
        self.trailing_consonant_chance
    }

    /// The fewest syllables a name has.
    pub fn min_name_length(&self) -> (syllables: u32)
        ensures
            syllables == self@.min_name_length,
    {
        self.min_name_length
    }

    /// The most syllables a name has.
    pub fn max_name_length(&self) -> (syllables: u32)
        ensures
            syllables == self@.max_name_length,
    {
        self.max_name_length
    }

    /// Draws one vowel.
    fn draw_vowel(&self, rng: &mut StdRng) -> (c: char)
        requires
            self.wf(),
        ensures
            self@.may_draw_vowel(c),
    {
        let index: usize = self.vowels.sample(rng);
        vowel_at(index)
    }

    /// Draws one consonant.
    fn draw_consonant(&self, rng: &mut StdRng) -> (c: char)
        requires
            self.wf(),
        ensures
            self@.may_draw_consonant(c),
    {
        let index: usize = self.consonants.sample(rng);
        consonant_at(index)
    }

    /// Draws one syllable: a consonant and its companion, in the order in
    /// which they are to be written.
    fn draw_syllable(&self, rng: &mut StdRng) -> (pair: (char, char))
        requires
            self.wf(),
        ensures
            self@.is_syllable(pair),
    {
        let vowel: char = self.draw_vowel(rng);
        let consonant: char = self.draw_consonant(rng);
        let companion: char = if happens(self.two_consonants_chance, rng) {
            self.draw_consonant(rng)
        } else {
            vowel
        };
        let flipped: bool = happens(self.flip_order_chance, rng);
        arrange(consonant, companion, flipped)
    }

    /// Produces a fresh name of this culture.
    ///
    /// The number of syllables is drawn between the culture's bounds, each
    /// syllable is drawn on its own, and a last draw decides whether a
    /// consonant is appended. Every call draws anew: names may repeat.
    pub fn generate_name(&self, rng: &mut StdRng) -> (name: String)
        requires
            self.wf(),
        ensures
            self@.is_name(name@),
    {
        let count: u32 = draw_range(rng, self.min_name_length, self.max_name_length + 1);
        let mut syllables: Vec<(char, char)> = Vec::new();
        let mut i: u32 = 0;
        while i < count
            invariant
                self.wf(),
                i <= count,
                syllables@.len() == i,
                forall|j: int| 0 <= j < i ==> self@.is_syllable(#[trigger] syllables@[j]),
            decreases count - i,
        {
            let pair: (char, char) = self.draw_syllable(rng);
            syllables.push(pair);
            i = i + 1;
        }
        let trailing: Option<char> = if happens(self.trailing_consonant_chance, rng) {
            Some(self.draw_consonant(rng))
        } else {
            None
        };
        let name: String = spell(&syllables, trailing);
        proof {
            let body = letters_of(syllables@, trailing);
            lemma_syllable_is_lowercase(self@, syllables@[0]);
            assert(uncapitalized(name@) =~= body);
            assert forall|j: int| 0 <= j < count implies self@.is_syllable(
                #[trigger] syllable_at(body, j),
            ) by {
                assert(syllable_at(body, j) == syllables@[j]);
            }
        }
        name
    }
}

/// The symbols of the syllables in their order, followed by the trailing
/// symbol if there is one.
pub open spec fn letters_of(syllables: Seq<(char, char)>, trailing: Option<char>) -> Seq<char> {
    let body = Seq::new(
        2 * syllables.len(),
        |k: int|
            if k % 2 == 0 {
                syllables[k / 2].0
            } else {
                syllables[k / 2].1
            },
    );
    match trailing {
        Some(last) => body.push(last),
        None => body,
    }
}

/// The same symbols with the first one capitalised.
pub open spec fn capitalized(letters: Seq<char>) -> Seq<char> {
    if letters.len() > 0 {
        letters.update(0, capital(letters[0]))
    } else {
        letters
    }
}

/// Puts the two symbols of a syllable in the order in which they are
/// written: the consonant first, unless the syllable is flipped.
pub fn arrange(consonant: char, companion: char, flipped: bool) -> (pair: (char, char))
    ensures
        pair == if flipped {
            (companion, consonant)
        } else {
            (consonant, companion)
        },
{
    if flipped {
        (companion, consonant)
    } else {
        (consonant, companion)
    }
}

/// Writes a name: the syllables one after the other, then the trailing
/// symbol if there is one, the first symbol of all capitalised.
pub fn spell(syllables: &Vec<(char, char)>, trailing: Option<char>) -> (name: String)
    ensures
        name@ == capitalized(letters_of(syllables@, trailing)),
{
    let mut name: String = String::new();
    let ghost body = letters_of(syllables@, None);
    let mut i: usize = 0;
    while i < syllables.len()
        invariant
            0 <= i <= syllables@.len(),
            body == letters_of(syllables@, None),
            name@ == capitalized(body.take(2 * i)),
        decreases syllables@.len() - i,
    {
        let pair: (char, char) = syllables[i];
        let opening: char = if i == 0 {
            capitalize(pair.0)
        } else {
            pair.0
        };
        push_char(&mut name, opening);
        push_char(&mut name, pair.1);
        proof {
            assert(body[2 * i] == pair.0);
            assert(body[2 * i + 1] == pair.1);
            assert(name@ =~= capitalized(body.take(2 * (i + 1))));
        }
        i = i + 1;
    }
    proof {
        assert(body.take(2 * i) =~= body);
    }
    match trailing {
        Some(last) => {
            let opening: char = if syllables.len() == 0 {
                capitalize(last)
            } else {
                last
            };
            push_char(&mut name, opening);
            proof {
                assert(name@ =~= capitalized(body.push(last)));
            }
        },
        None => {},
    }
    name
}

/// Whether a roll decides for an event of chance `chance`: it does when it
/// falls below the chance. Of the `CHANCE_SCALE` possible rolls exactly
/// `chance` decide for the event.
pub fn decides(chance: u32, roll: u32) -> (yes: bool)
    ensures
        yes == (roll < chance),
{
    roll < chance
}

/// Decides an event of chance `chance` by one roll below `CHANCE_SCALE`: an
/// event of chance zero never happens, and one of chance `CHANCE_SCALE` or
/// more always does.
fn happens(chance: u32, rng: &mut StdRng) -> (yes: bool)
    ensures
        exists|roll: u32| roll < CHANCE_SCALE && yes == #[trigger] falls_below(roll, chance),
        yes ==> chance > 0,
        chance >= CHANCE_SCALE ==> yes,
{
    let roll: u32 = draw_range(rng, 0, CHANCE_SCALE);
    let yes: bool = decides(chance, roll);
    assert(roll < CHANCE_SCALE && yes == falls_below(roll, chance));
    yes
}

/// Whether the roll falls below the chance, and so decides for the event.
pub open spec fn falls_below(roll: u32, chance: u32) -> bool {
    roll < chance
}

/// Both symbols of a syllable are lowercase letters.
pub proof fn lemma_syllable_is_lowercase(culture: CultureView, pair: (char, char))
    requires
        culture.is_syllable(pair),
    ensures
        is_lowercase(pair.0),
        is_lowercase(pair.1),
{
}

/// A name has between `min` and `max` syllables of two symbols each and at
/// most one symbol more, so its length lies between `2 * min` and
/// `2 * max + 1`; in particular it is never empty.
pub proof fn lemma_name_length(culture: CultureView, name: Seq<char>)
    requires
        culture.wf(),
        culture.is_name(name),
    ensures
        name.len() > 0,
        2 * culture.min_name_length <= name.len() <= 2 * culture.max_name_length + 1,
        name.len() == 2 * (name.len() as int / 2) || name.len() == 2 * (name.len() as int / 2) + 1,
        culture.min_name_length <= name.len() as int / 2 <= culture.max_name_length,
{
}

/// A name starts with a capital letter, and every later symbol is a
/// lowercase letter.
pub proof fn lemma_name_casing(culture: CultureView, name: Seq<char>)
    requires
        culture.wf(),
        culture.is_name(name),
    ensures
        is_uppercase(name[0]),
        forall|k: int| 1 <= k < name.len() ==> is_lowercase(#[trigger] name[k]),
{
    let body = uncapitalized(name);
    let syllables = name.len() as int / 2;
    assert forall|k: int| 1 <= k < name.len() implies is_lowercase(#[trigger] name[k]) by {
        assert(name[k] == body[k]);
        let i = k / 2;
        if i < syllables {
            lemma_syllable_is_lowercase(culture, syllable_at(body, i));
        }
    }
}

/// In a culture that never doubles consonants, every syllable of a name is
/// one consonant and one vowel, in either order.
pub proof fn lemma_single_consonant_syllables(culture: CultureView, name: Seq<char>)
    requires
        culture.wf(),
        culture.is_name(name),
        culture.two_consonants_chance == 0,
    ensures
        forall|i: int|
            0 <= i < name.len() as int / 2 ==> {
                let pair = #[trigger] syllable_at(uncapitalized(name), i);
                ||| is_consonant(pair.0) && is_vowel(pair.1)
                ||| is_vowel(pair.0) && is_consonant(pair.1)
            },
{
    let body = uncapitalized(name);
    assert forall|i: int| 0 <= i < name.len() as int / 2 implies {
        let pair = #[trigger] syllable_at(body, i);
        ||| is_consonant(pair.0) && is_vowel(pair.1)
        ||| is_vowel(pair.0) && is_consonant(pair.1)
    } by {
        assert(culture.is_syllable(syllable_at(body, i)));
    }
}

/// Where a chance is certain, the name shows it: a culture that always
/// appends gives names of odd length, and one that never does gives names of
/// even length; a culture that always flips puts the consonant second in
/// every syllable, and one that never flips puts it first; a culture that
/// always doubles writes consonants only.
pub proof fn lemma_certain_chances(culture: CultureView, name: Seq<char>)
    requires
        culture.wf(),
        culture.is_name(name),
    ensures
        culture.trailing_consonant_chance >= CHANCE_SCALE ==> name.len() % 2 == 1,
        culture.trailing_consonant_chance == 0 ==> name.len() % 2 == 0,
        culture.flip_order_chance >= CHANCE_SCALE ==> forall|i: int|
            0 <= i < name.len() as int / 2 ==> is_consonant(
                (#[trigger] syllable_at(uncapitalized(name), i)).1,
            ),
        culture.flip_order_chance == 0 ==> forall|i: int|
            0 <= i < name.len() as int / 2 ==> is_consonant(
                (#[trigger] syllable_at(uncapitalized(name), i)).0,
            ),
        culture.two_consonants_chance >= CHANCE_SCALE ==> forall|k: int|
            0 <= k < name.len() ==> is_consonant(#[trigger] uncapitalized(name)[k]),
{
    let body = uncapitalized(name);
    let syllables = name.len() as int / 2;
    assert forall|i: int| 0 <= i < syllables implies culture.is_syllable(
        #[trigger] syllable_at(body, i),
    ) by {}
    if culture.two_consonants_chance >= CHANCE_SCALE {
        assert forall|k: int| 0 <= k < name.len() implies is_consonant(#[trigger] body[k]) by {
            let i = k / 2;
            if i < syllables {
                assert(culture.is_syllable(syllable_at(body, i)));
            }
        }
    }
}

} // verus!
