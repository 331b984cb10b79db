use spellcheck::{candidates, correction, counter, known, tokenize, P};

fn model_from(words: &[&str]) -> spellcheck::FrequencyModel {
    counter(words.iter().map(|w| w.to_string()).collect())
}

#[test]
fn counter_counts_occurrences() {
    let m = model_from(&["a", "a", "b", "a"]);
    assert_eq!(m.count("a"), 3);
    assert_eq!(m.count("b"), 1);
    assert_eq!(m.count("c"), 0);
    assert_eq!(m.total_count(), 4);
    assert!(m.contains("a"));
    assert!(!m.contains("c"));
}

#[test]
fn probability_truncates_to_zero_for_rare_words() {
    let m = model_from(&["a", "a", "b", "a"]);
    assert_eq!(P("a", &m), 0);
    assert_eq!(P("b", &m), 0);
    assert_eq!(P("c", &m), 0);
}

#[test]
fn probability_is_one_for_the_only_word() {
    let m = model_from(&["x"]);
    assert_eq!(P("x", &m), 1);
}

#[test]
fn known_keeps_only_vocabulary_words() {
    let m = model_from(&["hello", "world"]);
    let r = known(&["hello".to_string()], &m);
    assert_eq!(r, vec!["hello".to_string()]);
    let none = known(&["greetings".to_string()], &m);
    assert!(none.is_empty());
}

#[test]
fn candidates_prefer_the_known_word_itself() {
    let m = model_from(&["hello", "hallo"]);
    let r = candidates("hello", &m);
    assert_eq!(r, vec!["hello".to_string()]);
}

#[test]
fn candidates_fall_back_to_the_word_itself() {
    let m = model_from(&["hello"]);
    let r = candidates("qzqzqzqz", &m);
    assert_eq!(r, vec!["qzqzqzqz".to_string()]);
}

#[test]
fn known_words_correct_to_themselves() {
    let m = model_from(&["hello", "world", "word"]);
    assert_eq!(correction("hello", &m), "hello".to_string());
    assert_eq!(correction("world", &m), "world".to_string());
}

#[test]
fn single_edit_misspelling_is_corrected() {
    let m = model_from(&["spelling", "spelling", "mistake"]);
    assert_eq!(correction("speling", &m), "spelling".to_string());
}

#[test]
fn double_edit_misspelling_is_corrected() {
    let m = model_from(&["corrected", "corrected", "other"]);
    assert_eq!(correction("korrectud", &m), "corrected".to_string());
}

#[test]
fn unknown_word_is_returned_unchanged() {
    let m = model_from(&["hello"]);
    assert_eq!(correction("qzqzqzqz", &m), "qzqzqzqz".to_string());
}

#[test]
fn correction_is_idempotent_on_examples() {
    let m = model_from(&["spelling", "spelling", "mistake"]);
    let once = correction("speling", &m);
    assert_eq!(correction(&once, &m), once);
    let fallback = correction("qzqzqzqz", &m);
    assert_eq!(correction(&fallback, &m), fallback);
}

#[test]
fn higher_frequency_wins_among_candidates() {
    let m = model_from(&["cat", "cat", "car"]);
    assert_eq!(correction("caq", &m), "cat".to_string());
}

#[test]
fn ties_break_lexicographically() {
    let m = model_from(&["ab", "ad"]);
    assert_eq!(correction("ac", &m), "ab".to_string());
}

#[test]
fn empty_word_is_corrected_without_panicking() {
    let m = model_from(&["a", "to"]);
    assert_eq!(correction("", &m), "a".to_string());
}

#[test]
fn tokenize_splits_and_lowercases() {
    let r = tokenize("Hello, world! HELLO?");
    assert_eq!(
        r,
        vec!["hello".to_string(), "world".to_string(), "hello".to_string()]
    );
}

#[test]
fn tokenize_of_empty_text_is_empty() {
    assert!(tokenize("").is_empty());
}

#[test]
fn model_built_from_tokenized_text_corrects() {
    let tokens = tokenize("Spelling errors in spelling exercises");
    let m = counter(tokens);
    assert_eq!(m.count("spelling"), 2);
    assert_eq!(correction("speling", &m), "spelling".to_string());
}
