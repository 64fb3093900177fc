use passkit::passgen::{phrase, random};

#[test]
fn random_has_requested_length() {
    let p = random(16);
    assert_eq!(p.chars().count(), 16);
}

#[test]
fn random_is_alphanumeric() {
    let p = random(64);
    assert!(p.chars().all(|c| c.is_ascii_alphanumeric()));
}

#[test]
fn random_empty() {
    assert_eq!(random(0), "");
}

#[test]
fn phrase_single_word_has_no_hyphen() {
    let words = vec!["cat".to_string(), "dog".to_string(), "fish".to_string()];
    let p = phrase(&words, 1);
    assert!(words.contains(&p));
}

#[test]
fn phrase_joins_with_hyphens() {
    let words = vec!["cat".to_string(), "dog".to_string(), "fish".to_string()];
    let p = phrase(&words, 3);
    let parts: Vec<&str> = p.split('-').collect();
    assert_eq!(parts.len(), 3);
    for part in parts {
        assert!(words.iter().any(|w| w == part));
    }
}

#[test]
fn phrase_is_capped_by_the_word_list() {
    let words = vec!["solo".to_string()];
    assert_eq!(phrase(&words, 5), "solo");
}

#[test]
fn phrase_covering_the_list_keeps_every_word_once() {
    let words = vec!["a".to_string(), "b".to_string(), "c".to_string()];
    assert_eq!(phrase(&words, 5), "a-b-c");
}

#[test]
fn phrase_samples_without_replacement() {
    let words = vec!["cat".to_string(), "dog".to_string(), "fish".to_string()];
    let p = phrase(&words, 2);
    let parts: Vec<&str> = p.split('-').collect();
    assert_eq!(parts.len(), 2);
    assert_ne!(parts[0], parts[1]);
    for part in &parts {
        assert!(words.iter().any(|w| w == part));
    }
}

#[test]
fn phrase_of_zero_words_is_empty() {
    let words = vec!["cat".to_string(), "dog".to_string()];
    assert_eq!(phrase(&words, 0), "");
}
