use std::collections::HashSet;

use spellcheck::{deletes, edits1, edits2, inserts, replaces, splits, transposes};

#[test]
fn splits_of_two_letter_word() {
    let sp = splits("ab".to_string());
    assert_eq!(sp.len(), 3);
    assert_eq!(sp[0], ("".to_string(), "ab".to_string()));
    assert_eq!(sp[1], ("a".to_string(), "b".to_string()));
    assert_eq!(sp[2], ("ab".to_string(), "".to_string()));
}

#[test]
fn splits_of_empty_word() {
    let sp = splits(String::new());
    assert_eq!(sp.len(), 1);
    assert_eq!(sp[0], ("".to_string(), "".to_string()));
}

#[test]
fn deletes_of_two_letter_word() {
    let sp = splits("ab".to_string());
    assert_eq!(deletes(&sp), vec!["b".to_string(), "a".to_string()]);
}

#[test]
fn transposes_of_three_letter_word() {
    let sp = splits("abc".to_string());
    assert_eq!(transposes(&sp), vec!["bac".to_string(), "acb".to_string()]);
}

#[test]
fn replaces_with_two_letters() {
    let sp = splits("x".to_string());
    let letters = "ab".to_string();
    assert_eq!(replaces(&sp, &letters), vec!["a".to_string(), "b".to_string()]);
}

#[test]
fn inserts_with_one_letter() {
    let sp = splits("x".to_string());
    let letters = "a".to_string();
    assert_eq!(inserts(&sp, &letters), vec!["ax".to_string(), "xa".to_string()]);
}

#[test]
fn edits1_of_empty_word_is_the_alphabet() {
    let r = edits1("");
    assert_eq!(r.len(), 26);
    for c in 'a'..='z' {
        assert!(r.contains(&c.to_string()));
    }
}

#[test]
fn edits1_of_single_letter_by_enumeration() {
    let r = edits1("a");
    let mut expected: HashSet<String> = HashSet::new();
    expected.insert(String::new());
    for c in 'a'..='z' {
        expected.insert(c.to_string());
        expected.insert(format!("{}a", c));
        expected.insert(format!("a{}", c));
    }
    assert_eq!(expected.len(), 78);
    let actual: HashSet<String> = r.iter().cloned().collect();
    assert_eq!(actual, expected);
    assert_eq!(r.len(), 78);
}

#[test]
fn edits1_has_no_duplicates() {
    let r = edits1("hello");
    let distinct: HashSet<String> = r.iter().cloned().collect();
    assert_eq!(distinct.len(), r.len());
}

#[test]
fn edits2_reaches_double_edits() {
    let r = edits2("a");
    assert!(r.contains(&"abc".to_string()));
    assert!(r.contains(&"b".to_string()));
}
