use quixotic::markov::{train, DocKind, MarkovIterator, TrainingDoc};
use quixotic::rng::Randomness;
use quixotic::TrainingError;

fn strings(words: &[&str]) -> Vec<String> {
    words.iter().map(|w| w.to_string()).collect()
}

fn abacab() -> MarkovIterator {
    MarkovIterator::new(strings(&["a", "b", "a", "c", "a", "b"])).unwrap()
}

#[test]
fn training_scenario_builds_expected_chain() {
    let m = abacab();
    assert_eq!(m.key_count(), 3);
    assert_eq!(m.key_at(0), "a");
    assert_eq!(m.key_at(1), "b");
    assert_eq!(m.key_at(2), "c");
    assert_eq!(m.successors_at(0), &strings(&["b", "c", "b"]));
    assert_eq!(m.successors_at(1), &strings(&["a"]));
    assert_eq!(m.successors_at(2), &strings(&["a"]));
}

#[test]
fn successors_of_looks_up_by_token() {
    let m = abacab();
    assert_eq!(m.successors_of(&"a".to_string()), Some(&strings(&["b", "c", "b"])));
    assert_eq!(m.successors_of(&"b".to_string()), Some(&strings(&["a"])));
    assert_eq!(m.successors_of(&"z".to_string()), None);
}

#[test]
fn too_few_tokens_is_rejected() {
    assert_eq!(
        MarkovIterator::new(Vec::new()).err(),
        Some(TrainingError::TooFewTokens)
    );
    assert_eq!(
        MarkovIterator::new(strings(&["lonely"])).err(),
        Some(TrainingError::TooFewTokens)
    );
    assert!(MarkovIterator::new(strings(&["two", "tokens"])).is_ok());
}

#[test]
fn sample_returns_exactly_n_tokens() {
    let m = abacab();
    for n in [0u32, 1, 2, 7, 100] {
        let mut rand = Randomness::System;
        assert_eq!(m.n_tokens(n, &mut rand).len(), n as usize);
        let mut seeded = Randomness::Seeded { state: 42 };
        assert_eq!(m.n_tokens(n, &mut seeded).len(), n as usize);
    }
}

#[test]
fn sample_emits_only_trained_keys() {
    let m = abacab();
    let mut rand = Randomness::System;
    for tok in m.n_tokens(500, &mut rand) {
        assert!(m.successors_of(&tok).is_some());
    }
}

#[test]
fn index_zero_walk_alternates_from_first_key() {
    let m = abacab();
    let mut rand = Randomness::Fixed { value: 0 };
    let toks = m.n_tokens(6, &mut rand);
    assert_eq!(toks, strings(&["a", "b", "a", "b", "a", "b"]));
}

#[test]
fn fixed_seed_reproduces_the_sample() {
    let m = abacab();
    let mut r1 = Randomness::Seeded { state: 7 };
    let mut r2 = Randomness::Seeded { state: 7 };
    let s1 = m.n_tokens(64, &mut r1);
    let s2 = m.n_tokens(64, &mut r2);
    assert_eq!(s1, s2);
    assert_eq!(r1, r2);
}

#[test]
fn sequential_walk_steps_stay_within_successor_collections() {
    // In this corpus every successor is itself a key, so each emitted token
    // must be a member of the previous token's successor collection.
    let mut m = abacab();
    let mut rand = Randomness::Seeded { state: 99 };
    let mut prev = m.next_token(&mut rand);
    for _ in 0..200 {
        let next = m.next_token(&mut rand);
        let succs = m.successors_of(&prev).expect("emitted token must be a key");
        assert!(succs.contains(&next));
        prev = next;
    }
}

#[test]
fn sequential_walk_never_runs_dry() {
    let contents = "the quick brown fox jumps over the lazy dog\n\
                    the dog sleeps while the fox runs\n\
                    a quick nap helps the lazy fox";
    let docs = vec![TrainingDoc { kind: DocKind::Text, contents: contents.to_string() }];
    let mut m = train(docs).unwrap();
    let mut rand = Randomness::System;
    for _ in 0..10_000 {
        let tok = m.next_token(&mut rand);
        assert!(!tok.is_empty());
    }
}

#[test]
fn train_rejects_a_corpus_without_transitions() {
    let docs = vec![TrainingDoc { kind: DocKind::Text, contents: "one".to_string() }];
    assert_eq!(train(docs).err(), Some(TrainingError::TooFewTokens));
    let empty: Vec<TrainingDoc> = Vec::new();
    assert_eq!(train(empty).err(), Some(TrainingError::TooFewTokens));
}

#[test]
fn train_mixes_text_and_markup_sources() {
    let docs = vec![
        TrainingDoc { kind: DocKind::Text, contents: "alpha beta".to_string() },
        TrainingDoc {
            kind: DocKind::Html,
            contents: "<html><body><p>gamma delta</p></body></html>".to_string(),
        },
    ];
    let m = train(docs).unwrap();
    // Pairs: (alpha, beta), (beta, gamma), (gamma, delta).
    assert_eq!(m.key_count(), 3);
    assert_eq!(m.key_at(0), "alpha");
    assert_eq!(m.key_at(1), "beta");
    assert_eq!(m.key_at(2), "gamma");
    assert_eq!(m.successors_at(2), &vec!["delta".to_string()]);
}
