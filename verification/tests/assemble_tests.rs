use quixotic::assemble::{assemble, draw_count, maze_page, AssemblyConfig};
use quixotic::markov::MarkovIterator;
use quixotic::rng::Randomness;
use quixotic::text::{strip_tags, tokenize_text};
use quixotic::{rand_link, ConfigError, Prob};

fn strings(words: &[&str]) -> Vec<String> {
    words.iter().map(|w| w.to_string()).collect()
}

fn plain_config() -> AssemblyConfig {
    AssemblyConfig::new(
        Prob { num: 1, den: 5 },
        Prob::never(),
        Prob::never(),
        None,
        true,
        "/maze".to_string(),
        3,
        3,
    )
    .unwrap()
}

#[test]
fn zero_tokens_yield_bare_wrapper() {
    let cfg = plain_config();
    let mut rand = Randomness::System;
    let doc = assemble(&Vec::new(), &cfg, "deep/path", &mut rand);
    assert_eq!(
        doc,
        "<!doctype html><html><head><title>deep/path</title></head><body></body></html>"
    );
}

#[test]
fn config_validation_reports_each_error() {
    assert_eq!(Prob::new(3, 2).err(), Some(ConfigError::BadProbability));
    assert_eq!(Prob::new(1, 0).err(), Some(ConfigError::BadProbability));
    assert!(Prob::new(0, 1).is_ok());
    let bad_bounds = AssemblyConfig::new(
        Prob::never(),
        Prob::never(),
        Prob::never(),
        None,
        true,
        "/maze".to_string(),
        10,
        5,
    );
    assert_eq!(bad_bounds.err(), Some(ConfigError::MinExceedsMax));
    let bad_prob = AssemblyConfig::new(
        Prob { num: 9, den: 4 },
        Prob::never(),
        Prob::never(),
        None,
        true,
        "/maze".to_string(),
        1,
        5,
    );
    assert_eq!(bad_prob.err(), Some(ConfigError::BadProbability));
}

#[test]
fn stripping_an_assembled_body_recovers_the_tokens() {
    let tokens = strings(&["alpha", "beta,", "gamma.", "delta", "epsilon!"]);
    let cfg = plain_config();
    for seed in [1u64, 2, 3, 4, 5] {
        let mut rand = Randomness::Seeded { state: seed };
        let doc = assemble(&tokens, &cfg, "", &mut rand);
        let text = strip_tags(&doc);
        assert_eq!(tokenize_text(&text), tokens);
    }
    let mut sys = Randomness::System;
    let doc = assemble(&tokens, &cfg, "", &mut sys);
    assert_eq!(tokenize_text(&strip_tags(&doc)), tokens);
}

#[test]
fn fixed_seed_reproduces_the_document() {
    let tokens = strings(&["one", "two", "three", "four"]);
    let cfg = AssemblyConfig::new(
        Prob { num: 1, den: 3 },
        Prob { num: 1, den: 2 },
        Prob::never(),
        None,
        true,
        "/maze".to_string(),
        1,
        9,
    )
    .unwrap();
    let mut r1 = Randomness::Seeded { state: 11 };
    let mut r2 = Randomness::Seeded { state: 11 };
    assert_eq!(assemble(&tokens, &cfg, "t", &mut r1), assemble(&tokens, &cfg, "t", &mut r2));
    assert_eq!(r1, r2);
}

#[test]
fn zero_decoy_probability_never_injects_a_decoy() {
    let tokens = strings(&["spin", "a", "long", "story", "about", "nothing", "at", "all"]);
    let cfg = AssemblyConfig::new(
        Prob { num: 1, den: 4 },
        Prob { num: 1, den: 1 },
        Prob::never(),
        Some("/trap/heavy.bin".to_string()),
        true,
        "/maze".to_string(),
        1,
        9,
    )
    .unwrap();
    for seed in 0u64..20 {
        let mut rand = Randomness::Seeded { state: seed };
        let doc = assemble(&tokens, &cfg, "x", &mut rand);
        assert!(!doc.contains("/trap/heavy.bin"));
        assert!(doc.contains("<a href=/maze/"));
    }
    let mut sys = Randomness::System;
    let doc = assemble(&tokens, &cfg, "x", &mut sys);
    assert!(!doc.contains("/trap/heavy.bin"));
}

#[test]
fn certain_decoy_probability_injects_exactly_one_decoy() {
    let tokens = strings(&["w1", "w2", "w3", "w4", "w5", "w6"]);
    let cfg = AssemblyConfig::new(
        Prob::never(),
        Prob { num: 1, den: 1 },
        Prob { num: 1, den: 1 },
        Some("/trap/heavy.bin".to_string()),
        true,
        "/maze".to_string(),
        1,
        9,
    )
    .unwrap();
    let mut rand = Randomness::Seeded { state: 5 };
    let doc = assemble(&tokens, &cfg, "x", &mut rand);
    assert_eq!(doc.matches("/trap/heavy.bin").count(), 1);
}

#[test]
fn equal_bounds_yield_pages_of_exactly_that_count() {
    let m = MarkovIterator::new(strings(&["a", "b", "a", "c", "a", "b"])).unwrap();
    let cfg = plain_config();
    for seed in [3u64, 14, 15] {
        let mut rand = Randomness::Seeded { state: seed };
        let page = maze_page(&m, &cfg, "", &mut rand);
        let text = strip_tags(&page);
        assert_eq!(tokenize_text(&text).len(), 3);
    }
    let mut sys = Randomness::System;
    let page = maze_page(&m, &cfg, "", &mut sys);
    assert_eq!(tokenize_text(&strip_tags(&page)).len(), 3);
}

#[test]
fn drawn_count_stays_within_bounds() {
    let cfg = AssemblyConfig::new(
        Prob::never(),
        Prob::never(),
        Prob::never(),
        None,
        true,
        "/maze".to_string(),
        5,
        12,
    )
    .unwrap();
    for _ in 0..100 {
        let mut rand = Randomness::System;
        let n = draw_count(&cfg, &mut rand);
        assert!((5..12).contains(&n));
    }
}

#[test]
fn first_token_opens_a_paragraph_and_the_last_closes_it() {
    let tokens = strings(&["solo"]);
    let cfg = plain_config();
    let mut rand = Randomness::Seeded { state: 9 };
    let doc = assemble(&tokens, &cfg, "t", &mut rand);
    assert!(doc.contains("<body><p> solo"));
    assert!(doc.ends_with("</p></body></html>"));
}

#[test]
fn maze_page_titles_the_requested_path() {
    let m = MarkovIterator::new(strings(&["x", "y", "x", "y"])).unwrap();
    let cfg = plain_config();
    let mut rand = Randomness::Seeded { state: 1 };
    let page = maze_page(&m, &cfg, "some/where", &mut rand);
    assert!(page.starts_with("<!doctype html><html><head><title>some/where</title></head><body>"));
    assert!(page.ends_with("</body></html>"));
}

#[test]
fn link_identifiers_are_short_and_alphanumeric() {
    for seed in 0u64..50 {
        let mut rand = Randomness::Seeded { state: seed };
        let id = rand_link(&mut rand);
        assert!((4..16).contains(&id.len()));
        assert!(id.chars().all(|c| c.is_ascii_alphanumeric()));
    }
    let mut sys = Randomness::System;
    let id = rand_link(&mut sys);
    assert!((4..16).contains(&id.len()));
}

#[test]
fn fixed_randomness_reduces_value_into_range() {
    let mut rand = Randomness::Fixed { value: 7 };
    assert_eq!(rand.next_below(3), 1);
    let mut zero = Randomness::Fixed { value: 0 };
    assert_eq!(zero.next_below(1000), 0);
}
