//! The command-line options the program is configured with, as plain
//! values. Argument parsing itself lives in the surrounding program; the
//! library only carries the chosen configuration.

use vstd::prelude::*;

use crate::lang::SupportedLanguage;

verus! {

/// The test configuration: word count, optional sentence count, optional
/// time limit in seconds, an optional custom prompt, and the language to
/// pull words from.
#[derive(Clone, Debug)]
pub struct Cli {
    pub number_of_words: usize,
    pub number_of_sentences: Option<usize>,
    pub number_of_secs: Option<usize>,
    pub prompt: Option<String>,
    pub supported_language: SupportedLanguage,
}

impl Cli {
    /// The default configuration: fifteen words of the main English list,
    /// untimed, no custom prompt.
    pub fn new() -> (c: Cli)
        ensures
            c.number_of_words == 15,
            c.number_of_sentences is None,
            c.number_of_secs is None,
            c.prompt is None,
            c.supported_language == SupportedLanguage::English,
    {
        Cli {
            number_of_words: 15,
            number_of_sentences: None,
            number_of_secs: None,
            prompt: None,
            supported_language: SupportedLanguage::English,
        }
    }
}

} // verus!
