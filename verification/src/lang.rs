//! Word-list languages and prompt-text generation.
//!
//! A `Language` is an explicit resource: its word list is loaded once at
//! startup by the surrounding program and handed in as plain values.
//! Random word selection and random sentence generation go through the
//! `rand` and `cgisf_lib` crates behind trusted wrappers; everything
//! around the calls — word counting in particular — is verified.

use vstd::prelude::*;

use cgisf_lib::{gen_sentence, SentenceConfigBuilder, Structure};
use rand::seq::SliceRandom;
use rand::Rng;

verus! {

/// The number of spaces in a character sequence; the generated sentences
/// count one word per space.
pub open spec fn space_count(s: Seq<char>) -> int
    decreases s.len(),
{
    if s.len() == 0 {
        0
    } else {
        space_count(s.drop_last()) + if s.last() == ' ' {
            1int
        } else {
            0int
        }
    }
}

/// The total space count over a list of sentences.
pub open spec fn total_spaces(ss: Seq<String>) -> int
    decreases ss.len(),
{
    if ss.len() == 0 {
        0
    } else {
        total_spaces(ss.drop_last()) + space_count(ss.last()@)
    }
}

pub proof fn lemma_space_count_nonneg(s: Seq<char>)
    ensures
        space_count(s) >= 0,
    decreases s.len(),
{
    if s.len() > 0 {
        lemma_space_count_nonneg(s.drop_last());
    }
}

proof fn lemma_space_count_take_succ(s: Seq<char>, i: int)
    requires
        0 <= i < s.len(),
    ensures
        space_count(s.take(i + 1)) == space_count(s.take(i)) + if s[i] == ' ' {
            1int
        } else {
            0int
        },
{
    assert(s.take(i + 1).drop_last() =~= s.take(i));
    assert(s.take(i + 1).last() == s[i]);
}

/// Counts the spaces in a sentence given as its characters.
fn count_spaces(cs: &Vec<char>) -> (n: usize)
    ensures
        n == space_count(cs@),
{
    let mut n: usize = 0;
    let len = cs.len();
    for i in 0..len
        invariant
            len == cs@.len(),
            n <= i,
            n == space_count(cs@.take(i as int)),
    {
        proof {
            lemma_space_count_take_succ(cs@, i as int);
        }
        if cs[i] == ' ' {
            n = n + 1;
        }
    }
    proof {
        assert(cs@.take(len as int) =~= cs@);
    }
    n
}

/// Relies on rand::thread_rng and rand::Rng::gen_range: a uniformly
/// random integer drawn from the non-empty range [lo, hi).
#[verifier::external_body]
fn random_in_range(lo: u16, hi: u16) -> (r: u16)
    requires
        lo < hi,
    ensures
        lo <= r < hi,
{
    rand::thread_rng().gen_range(lo..hi)
}

/// Relies on rand::random: a random boolean; nothing is promised of it.
#[verifier::external_body]
fn random_bool() -> (r: bool) {
    rand::random()
}

/// Relies on cgisf_lib::gen_sentence: a randomly generated sentence for
/// the given configuration (adjective, adverb and object-adjective
/// counts, a sentence structure picked by `structure_choice`, and noun
/// plurality). The generator sums the three counts in 16-bit arithmetic,
/// so they must not overflow it together. Every structure places at
/// least a noun and a verb with a space after each token, and the final
/// cleanup only rewrites the last byte, so at least one space survives.
/// The paired vector holds exactly the returned string's characters
/// (str::chars).
#[verifier::external_body]
fn gen_sentence_chars(
    adjectives: u16,
    adverbs: u16,
    structure_choice: u16,
    plural: bool,
    on_adjectives: u16,
    on_plural: bool,
) -> (r: (String, Vec<char>))
    requires
        adjectives + adverbs + on_adjectives <= u16::MAX,
    ensures
        r.1@ == r.0@,
        space_count(r.0@) >= 1,
{
    let structure = match structure_choice {
        1 => Structure::AdjectivesNounVerbAdverbs,
        2 => Structure::AdjectivesNounAdverbsVerb,
        3 => Structure::AdjectivesNounVerbAdverbsAdjectivesNoun,
        _ => Structure::AdjectivesNounVerbAdverbsNounAdjectives,
    };
    let config = SentenceConfigBuilder::new().adjectives(adjectives).adverbs(adverbs).structure(
        structure,
    ).plural(plural).on_adjectives(on_adjectives).on_plural(on_plural).build();
    let s = gen_sentence(config);
    let cs = s.chars().collect();
    (s, cs)
}

/// Whether `r` is a sample of `words` without repetition: every element
/// of `r` is drawn from a distinct position of `words`.
pub open spec fn sampled_from(r: Seq<String>, words: Seq<String>) -> bool {
    exists|idx: Seq<int>|
        {
            &&& #[trigger] idx.len() == r.len()
            &&& forall|i: int|
                0 <= i < idx.len() ==> 0 <= #[trigger] idx[i] < words.len() && r[i]
                    == words[idx[i]]
            &&& forall|i1: int, i2: int| 0 <= i1 < i2 < idx.len() ==> idx[i1] != idx[i2]
        }
}

/// Relies on rand::seq::SliceRandom::choose_multiple (with
/// rand::thread_rng): min(amount, len) elements of the slice, cloned,
/// drawn from distinct positions, in random order.
#[verifier::external_body]
fn choose_multiple_words(words: &Vec<String>, amount: usize) -> (r: Vec<String>)
    ensures
        r@.len() == vstd::math::min(amount as int, words@.len() as int),
        sampled_from(r@, words@),
{
    words.choose_multiple(&mut rand::thread_rng(), amount).cloned().collect()
}

/// The mathematical state of a language: its name, its advertised size,
/// and its word list.
#[verifier::ext_equal]
pub ghost struct LanguageView {
    pub name: Seq<char>,
    pub size: u32,
    pub words: Seq<String>,
}

/// A word list to draw prompts from.
pub struct Language {
    name: String,
    size: u32,
    words: Vec<String>,
}

impl View for Language {
    type V = LanguageView;

    closed spec fn view(&self) -> LanguageView {
        LanguageView { name: self.name@, size: self.size, words: self.words@ }
    }
}

impl Language {
    /// A language over an explicitly loaded word list.
    pub fn new(name: String, size: u32, words: Vec<String>) -> (l: Language)
        ensures
            l@ == (LanguageView { name: name@, size: size, words: words@ }),
    {
        Language { name, size, words }
    }

    /// `num` words drawn at random from the list, without repetition;
    /// fewer only when the list itself is shorter.
    pub fn get_random(&self, num: usize) -> (r: Vec<String>)
        ensures
            r@.len() == vstd::math::min(num as int, self@.words.len() as int),
            sampled_from(r@, self@.words),
    {
        choose_multiple_words(&self.words, num)
    }

    /// `num` randomly generated sentences and their total word count:
    /// the number of spaces over all of them, saturating at the machine
    /// limit. Every sentence holds at least one space, so at least `num`
    /// words are counted.
    pub fn get_random_sentence(&self, num: usize) -> (r: (Vec<String>, usize))
        ensures
            r.0@.len() == num,
            r.1 == vstd::math::min(total_spaces(r.0@), usize::MAX as int),
            r.1 >= num,
    {
        let mut sentences: Vec<String> = Vec::new();
        let mut word_count: usize = 0;
        for k in 0..num
            invariant
                sentences@.len() == k,
                word_count == vstd::math::min(total_spaces(sentences@), usize::MAX as int),
                total_spaces(sentences@) >= k,
        {
            let adjectives = random_in_range(1, 3);
            let adverbs = random_in_range(1, 3);
            let structure_choice = random_in_range(1, 5);
            let plural = random_bool();
            let on_adjectives = random_in_range(1, 3);
            let on_plural = random_bool();
            let (s, cs) = gen_sentence_chars(
                adjectives,
                adverbs,
                structure_choice,
                plural,
                on_adjectives,
                on_plural,
            );
            let cnt = count_spaces(&cs);
            proof {
                lemma_space_count_nonneg(s@);
                assert(sentences@.push(s).drop_last() =~= sentences@);
            }
            word_count = match word_count.checked_add(cnt) {
                Some(x) => x,
                None => usize::MAX,
            };
            sentences.push(s);
        }
        (sentences, word_count)
    }
}

/// The built-in word-list languages.
#[derive(Clone, Copy, Debug, PartialEq, Eq, Structural)]
pub enum SupportedLanguage {
    English,
    English1k,
    English10k,
}

impl SupportedLanguage {
    /// The name of the language's word list.
    pub open spec fn spec_name(self) -> Seq<char> {
        match self {
            SupportedLanguage::English => "english"@,
            SupportedLanguage::English1k => "english1k"@,
            SupportedLanguage::English10k => "english10k"@,
        }
    }

    /// The word-list name, as the bundled data files are named.
    pub fn name(&self) -> (r: String)
        ensures
            r@ == self.spec_name(),
    {
        match self {
            SupportedLanguage::English => "english".to_string(),
            SupportedLanguage::English1k => "english1k".to_string(),
            SupportedLanguage::English10k => "english10k".to_string(),
        }
    }

    /// Builds this language over its loaded word list.
    pub fn as_lang(&self, size: u32, words: Vec<String>) -> (l: Language)
        ensures
            l@ == (LanguageView { name: self.spec_name(), size: size, words: words@ }),
    {
        Language::new(self.name(), size, words)
    }
}

} // verus!
