//! Corpus and wordlist acquisition, passwords, passphrases and usernames.

use ciphergen::config::{FilterLevel, Verbosity};
use ciphergen::corpus::{load_corpus, load_default_corpus, split_text, CorpusError};
use ciphergen::generate::{
    create_passphrase, create_password, create_username, get_character_set, UsernameKind,
};
use ciphergen::generators::{
    capitalize_first, create_closed_syllable, create_open_syllable, generate_complex_username,
    generate_passphrase, generate_password, generate_simple_username,
};
use ciphergen::visualize::draw_bitmap;
use ciphergen::wordlist::{load_default_wordlist, load_wordlist, WordlistError};

#[test]
fn splitting_drops_empty_tokens() {
    let words = split_text("alpha\n\nbeta\ngamma\n", '\n');
    let views: Vec<&str> = words.iter().map(|w| w.as_str()).collect();
    assert_eq!(views, vec!["alpha", "beta", "gamma"]);
}

#[test]
fn empty_corpus_is_rejected() {
    assert_eq!(load_corpus("").unwrap_err(), CorpusError::EmptyCorpus);
    assert_eq!(load_corpus("\n\n\n").unwrap_err(), CorpusError::EmptyCorpus);
}

#[test]
fn corpus_is_sorted_and_complete() {
    let corpus = load_corpus("carol\nalice\nbob").unwrap();
    let views: Vec<&str> = corpus.iter().map(|w| w.as_str()).collect();
    assert_eq!(views, vec!["alice", "bob", "carol"]);
    let default = load_default_corpus("one\ntwo");
    assert_eq!(default.len(), 2);
}

#[test]
fn wordlists_deduplicate() {
    let words = load_wordlist("red green red blue green", ' ').unwrap();
    let mut views: Vec<&str> = words.iter().map(|w| w.as_str()).collect();
    views.sort();
    assert_eq!(views, vec!["blue", "green", "red"]);
    assert_eq!(
        load_wordlist("   ", ' ').unwrap_err(),
        WordlistError::EmptyWordlist
    );
    let defaulted = load_default_wordlist("a\nb\na");
    assert_eq!(defaulted.len(), 2);
}

#[test]
fn passwords_use_only_the_character_set() {
    let set: Vec<char> = "abc123".chars().collect();
    let password = generate_password(&set, 200);
    assert_eq!(password.chars().count(), 200);
    assert!(password.chars().all(|c| set.contains(&c)));
    let empty = generate_password(&set, 0);
    assert!(empty.is_empty());
}

#[test]
fn character_sets_match_their_flags() {
    assert_eq!(get_character_set(true, true).len(), 68);
    assert_eq!(get_character_set(true, false).len(), 62);
    assert_eq!(get_character_set(false, true).len(), 58);
    assert_eq!(get_character_set(false, false).len(), 52);
}

#[test]
fn passphrases_join_wordlist_words() {
    let wordlist: Vec<String> = vec!["alpha".into(), "beta".into(), "gamma".into()];
    let phrase = generate_passphrase(&wordlist, " ", 4);
    let parts: Vec<&str> = phrase.split(' ').collect();
    assert_eq!(parts.len(), 4);
    assert!(parts.iter().all(|p| wordlist.iter().any(|w| w == p)));
    let batch = create_passphrase(&wordlist, "-", 2, Some(3));
    assert_eq!(batch.split('\n').count(), 3);
}

#[test]
fn password_batches_are_newline_joined() {
    let set: Vec<char> = "xyz".chars().collect();
    let batch = create_password(&set, 5, Some(4));
    let lines: Vec<&str> = batch.split('\n').collect();
    assert_eq!(lines.len(), 4);
    assert!(lines.iter().all(|l| l.chars().count() == 5));
}

#[test]
fn simple_usernames_alternate_letter_kinds() {
    let vowels = "aeiouy";
    let name = generate_simple_username(false, 12);
    assert_eq!(name.chars().count(), 12);
    let kinds: Vec<bool> = name.chars().map(|c| vowels.contains(c)).collect();
    for pair in kinds.windows(2) {
        assert_ne!(pair[0], pair[1]);
    }
}

#[test]
fn complex_usernames_are_made_of_syllables() {
    let name = generate_complex_username(false, 5);
    let n = name.chars().count();
    assert!((10..=15).contains(&n));
    let capitalized = generate_complex_username(true, 3);
    assert!(capitalized.chars().next().unwrap().is_uppercase());
}

#[test]
fn syllables_have_their_shapes() {
    assert_eq!(create_closed_syllable().chars().count(), 3);
    assert_eq!(create_open_syllable().chars().count(), 2);
}

#[test]
fn username_batches_have_the_requested_count() {
    let batch = create_username(false, UsernameKind::Simple, 4, Some(5));
    assert_eq!(batch.split('\n').count(), 5);
}

#[test]
fn capitalizing_uppercases_the_first_letter() {
    assert_eq!(capitalize_first("hello"), "Hello");
    assert_eq!(capitalize_first(""), "");
}

#[test]
fn verbosity_selects_the_expected_level() {
    let quiet = Verbosity { debug: false, verbose: false, quiet: true };
    assert_eq!(quiet.to_filter(), FilterLevel::Warn);
    let debug = Verbosity { debug: true, verbose: false, quiet: false };
    assert_eq!(debug.to_filter(), FilterLevel::Trace);
    let verbose = Verbosity { debug: false, verbose: true, quiet: false };
    assert_eq!(verbose.to_filter(), FilterLevel::Debug);
    let normal = Verbosity { debug: false, verbose: false, quiet: false };
    assert_eq!(normal.to_filter(), FilterLevel::Info);
}

#[test]
fn bitmaps_pad_with_white() {
    let data = vec![1u8, 2, 3];
    let bitmap = draw_bitmap(&data, 2, 3);
    assert_eq!(bitmap, vec![1, 2, 3, 255, 255, 255]);
}

#[test]
fn password_generates_ten_thousand_character_password() {
    let character_set: Vec<char> =
        "!@*-_.0123456789abcdefghijklmnopqrstuvwxyzABCDEFGHIJKLMNOPQRSTUVWXYZ"
            .chars()
            .collect();
    let password = generate_password(&character_set, 10000);

    assert_eq!(password.chars().count(), 10000)
}

#[test]
fn password_generates_empty_password() {
    let character_set: Vec<char> =
        "!@*-_.0123456789abcdefghijklmnopqrstuvwxyzABCDEFGHIJKLMNOPQRSTUVWXYZ"
            .chars()
            .collect();
    let password = generate_password(&character_set, 0);

    assert_eq!(password.len(), 0)
}

#[test]
fn tests_generates_ten_thousand_character_password() {
    let character_set: Vec<char> =
        "!@*-_.0123456789abcdefghijklmnopqrstuvwxyzABCDEFGHIJKLMNOPQRSTUVWXYZ"
            .chars()
            .collect();
    let password = generate_password(&character_set, 10000);

    assert_eq!(password.chars().count(), 10000)
}

#[test]
fn tests_generates_empty_password() {
    let character_set: Vec<char> =
        "!@*-_.0123456789abcdefghijklmnopqrstuvwxyzABCDEFGHIJKLMNOPQRSTUVWXYZ"
            .chars()
            .collect();
    let password = generate_password(&character_set, 0);

    assert_eq!(password.len(), 0)
}

#[test]
fn generates_ten_thousand_character_simple_username() {
    let username = generate_simple_username(false, 10000);

    assert_eq!(username.chars().count(), 10000)
}

#[test]
fn generates_empty_simple_username() {
    let username = generate_simple_username(false, 0);

    assert_eq!(username.len(), 0)
}

#[test]
fn generates_ten_thousand_syllable_complex_username() {
    let username = generate_complex_username(false, 10000);
    let count = username.chars().count();

    assert!((20000..=30000).contains(&count))
}

#[test]
fn generates_empty_complex_username() {
    let username = generate_complex_username(false, 0);

    assert_eq!(username.len(), 0)
}
