use thokr::cli::Cli;
use thokr::lang::{Language, SupportedLanguage};
use thokr::wiki::Page;

fn word_list() -> Vec<String> {
    vec![
        "alpha".to_string(),
        "bravo".to_string(),
        "charlie".to_string(),
        "delta".to_string(),
        "echo".to_string(),
    ]
}

#[test]
fn get_random_draws_the_requested_number() {
    let lang = Language::new("english".to_string(), 5, word_list());
    let words = lang.get_random(2);
    // two words, each from the list: the wrapper really sampled
    assert_eq!(words.len(), 2);
    for w in &words {
        assert!(word_list().contains(w));
    }
    assert_ne!(words[0], words[1]);
}

#[test]
fn get_random_is_capped_by_the_list() {
    let lang = Language::new("english".to_string(), 5, word_list());
    let words = lang.get_random(50);
    assert_eq!(words.len(), 5);
    let mut sorted: Vec<String> = words.clone();
    sorted.sort();
    let mut expected = word_list();
    expected.sort();
    // asking for more than the list holds yields each word exactly once
    assert_eq!(sorted, expected);
}

#[test]
fn get_random_sentence_counts_spaces_as_words() {
    let lang = Language::new("english".to_string(), 5, word_list());
    let (sentences, word_count) = lang.get_random_sentence(3);
    assert_eq!(sentences.len(), 3);
    let spaces: usize = sentences
        .iter()
        .map(|s| s.chars().filter(|c| *c == ' ').count())
        .sum();
    // the reported count is exactly the space count of what came back
    assert_eq!(word_count, spaces);
    // a generated sentence holds at least a noun and a verb
    for s in &sentences {
        assert!(s.contains(' '));
    }
}

#[test]
fn supported_language_names() {
    assert_eq!(SupportedLanguage::English.name(), "english");
    assert_eq!(SupportedLanguage::English1k.name(), "english1k");
    assert_eq!(SupportedLanguage::English10k.name(), "english10k");
}

#[test]
fn as_lang_builds_over_the_given_words() {
    let lang = SupportedLanguage::English.as_lang(5, word_list());
    let words = lang.get_random(5);
    assert_eq!(words.len(), 5);
}

#[test]
fn cli_defaults() {
    let c = Cli::new();
    assert_eq!(c.number_of_words, 15);
    assert_eq!(c.number_of_sentences, None);
    assert_eq!(c.number_of_secs, None);
    assert!(c.prompt.is_none());
    assert_eq!(c.supported_language, SupportedLanguage::English);
}

#[test]
fn page_holds_its_fields() {
    let p = Page::new(42, "Typing".to_string(), Some("An article.".to_string()));
    assert_eq!(p.id, 42);
    assert_eq!(p.title, "Typing");
    assert_eq!(p.extract.as_deref(), Some("An article."));
}
