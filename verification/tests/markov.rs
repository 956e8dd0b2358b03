//! The Markov model and generator: training, sampling and backoff.

use ciphergen::generator::{extract_alphabet, Generator};
use ciphergen::generate::create_markov;
use ciphergen::generators::generate_markov;
use ciphergen::model::{pick_index, Model};
use ciphergen::symbol::Symbol;

fn names() -> Vec<String> {
    [
        "amy", "ben", "cal", "dan", "eve", "fay", "gus", "hal", "ivy", "jan", "kim", "lee", "max",
        "ned", "oli", "pam", "quin", "rex", "sam", "tess", "uma", "val", "wes", "xan", "yuri",
        "zoe",
    ]
    .iter()
    .map(|s| s.to_string())
    .collect()
}

#[test]
fn alphabets_are_sorted_and_deduplicated() {
    let corpus: Vec<String> = vec!["cab".into(), "abba".into()];
    let alphabet = extract_alphabet(&corpus);
    assert_eq!(alphabet, vec!['a', 'b', 'c']);
}

#[test]
fn observation_keys_have_exactly_the_order_length() {
    for order in 1..4usize {
        let alphabet = extract_alphabet(&names());
        let model = Model::new(&names(), order, 0, &alphabet);
        for entry in &model.observations {
            assert_eq!(entry.context.len(), order);
        }
    }
}

#[test]
fn chain_rows_span_the_alphabet_and_respect_the_prior() {
    let alphabet = extract_alphabet(&names());
    let prior = 2u64;
    let model = Model::new(&names(), 2, prior, &alphabet);
    assert_eq!(model.chains.len(), model.observations.len());
    for entry in &model.chains {
        assert_eq!(entry.weights.len(), alphabet.len());
        assert!(entry.weights.iter().all(|w| *w >= prior));
    }
}

#[test]
fn selection_frequency_matches_the_weights() {
    let weights = vec![1u64, 2, 3];
    let mut counts = [0usize; 3];
    for u in 0..6u128 {
        counts[pick_index(&weights, u)] += 1;
    }
    assert_eq!(counts, [1, 2, 3]);
}

#[test]
fn generates_a_nonempty_word_without_terminators() {
    let corpus = names();
    let generator = Generator::new(&corpus, 2, 0, false);
    let alphabet = extract_alphabet(&corpus);
    let word = generator.generate();
    assert!(!word.is_empty());
    assert!(word.chars().all(|c| alphabet.contains(&c)));
}

#[test]
fn backoff_consults_shorter_suffixes() {
    let corpus = names();
    let generator = Generator::new(&corpus, 3, 0, true);
    assert_eq!(generator.models.len(), 3);
    for (k, model) in generator.models.iter().enumerate() {
        assert_eq!(model.order(), 3 - k);
    }
    // a context the top-order model has never seen yields nothing there,
    // while its one-symbol suffix is known to the lowest model
    let top = &generator.models[0];
    let unseen = vec![
        Symbol::Letter('z' as u32),
        Symbol::Letter('z' as u32),
        Symbol::Letter('z' as u32),
    ];
    assert_eq!(top.generate(&unseen), None);
    let low = &generator.models[2];
    let known = vec![Symbol::Letter('a' as u32)];
    assert!(low.generate(&known).is_some());
}

#[test]
fn retraining_reproduces_the_same_model() {
    let alphabet = extract_alphabet(&names());
    let fresh = Model::new(&names(), 2, 1, &alphabet);
    let mut retrained = fresh.clone();
    retrained.retrain();
    assert_eq!(retrained, fresh);
}

#[test]
fn markov_words_fall_in_the_requested_window() {
    let generator = Generator::new(&names(), 2, 0, false);
    let word = generate_markov(&generator, false, 1, 4096);
    let n = word.chars().count();
    assert!(n == 0 || (1..4096).contains(&n));
    let batch = create_markov(&generator, true, 1, 4096, Some(2));
    assert_eq!(batch.split('\n').count(), 2);
}

#[test]
fn dead_end_contexts_back_off_instead_of_guessing() {
    // with prior 0, a context observed only before the terminator has no
    // weight mass; sampling must signal the end rather than emit an
    // unobserved successor
    let corpus: Vec<String> = vec!["ab".into()];
    let alphabet = extract_alphabet(&corpus);
    let flat = Model::new(&corpus, 1, 0, &alphabet);
    let dead_end = vec![Symbol::Letter('b' as u32)];
    assert_eq!(flat.generate(&dead_end), None);
    let live = vec![Symbol::Letter('a' as u32)];
    assert_eq!(flat.generate(&live), Some('b'));
    // a positive prior keeps every known context alive
    let smoothed = Model::new(&corpus, 1, 1, &alphabet);
    assert!(smoothed.generate(&dead_end).is_some());
}
