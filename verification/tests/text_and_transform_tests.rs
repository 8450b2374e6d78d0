use quixotic::markov::MarkovIterator;
use quixotic::rng::Randomness;
use quixotic::text::{html_tokens, str_eq, strip_tags, to_chars, tokenize_text};
use quixotic::transform::{file_kind, pick_image, split_char, transform_text, FileKind};
use quixotic::Prob;

fn strings(words: &[&str]) -> Vec<String> {
    words.iter().map(|w| w.to_string()).collect()
}

#[test]
fn tokenizer_keeps_punctuation_and_drops_quotes() {
    let toks = tokenize_text("Hello, \"world\"!\nit's  fine.");
    assert_eq!(toks, strings(&["Hello,", "world!", "its", "fine."]));
}

#[test]
fn tokenizer_drops_empty_pieces() {
    assert_eq!(tokenize_text(""), Vec::<String>::new());
    assert_eq!(tokenize_text("  \n \n"), Vec::<String>::new());
    assert_eq!(tokenize_text("''\""), Vec::<String>::new());
    assert_eq!(tokenize_text(" a  b "), strings(&["a", "b"]));
}

#[test]
fn strip_tags_keeps_only_visible_text() {
    assert_eq!(strip_tags("<p>hi <b>there</b></p>"), "hi there");
    assert_eq!(strip_tags("no tags at all"), "no tags at all");
    assert_eq!(strip_tags("<br/>"), "");
}

#[test]
fn html_tokens_tokenizes_the_visible_text() {
    let toks = html_tokens("<html><body>\n<p>one two</p>\n<p>three</p>\n</body></html>");
    assert_eq!(toks, strings(&["one", "two", "three"]));
    // Tags are removed, not replaced: text that touches a tag on both sides
    // runs together, as in a serialized document without whitespace.
    assert_eq!(html_tokens("<p>one</p><p>two</p>"), strings(&["onetwo"]));
}

#[test]
fn char_utilities_round_trip() {
    assert_eq!(to_chars("héllo"), "héllo".chars().collect::<Vec<char>>());
    assert!(str_eq("same", "same"));
    assert!(!str_eq("same", "sane"));
    assert!(!str_eq("same", "sameer"));
}

#[test]
fn split_preserves_empty_pieces() {
    let pieces = split_char("a  b", ' ');
    assert_eq!(pieces, strings(&["a", "", "b"]));
    assert_eq!(split_char("", '\n'), strings(&[""]));
}

#[test]
fn extensions_are_classified() {
    assert_eq!(file_kind("html"), FileKind::Html);
    assert_eq!(file_kind("txt"), FileKind::Text);
    for img in ["png", "gif", "svg", "jpg", "jpeg", "webp", "avif"] {
        assert_eq!(file_kind(img), FileKind::Image);
    }
    assert_eq!(file_kind("pdf"), FileKind::Other);
    assert_eq!(file_kind(""), FileKind::Other);
}

#[test]
fn image_scramble_decisions_respect_the_bounds() {
    let never = Prob::never();
    let always = Prob { num: 1, den: 1 };
    let mut rand = Randomness::System;
    assert_eq!(pick_image(10, &never, &mut rand), None);
    assert_eq!(pick_image(0, &always, &mut rand), None);
    for _ in 0..50 {
        match pick_image(10, &always, &mut rand) {
            Some(i) => assert!(i < 10),
            None => panic!("a certain scramble must pick a replacement"),
        }
    }
}

#[test]
fn keeping_every_word_is_the_identity() {
    let mut m = MarkovIterator::new(strings(&["a", "b", "a", "c"])).unwrap();
    let mut rand = Randomness::System;
    let keep_all = Prob { num: 1, den: 1 };
    let input = "first line here\nsecond  line\n\nlast";
    let out = transform_text(input, &keep_all, &mut m, &mut rand);
    assert_eq!(out, input);
}

#[test]
fn replacement_preserves_line_and_word_structure() {
    let mut m = MarkovIterator::new(strings(&["a", "b", "a", "c", "a", "b"])).unwrap();
    let mut rand = Randomness::Seeded { state: 3 };
    let keep_none = Prob { num: 0, den: 1 };
    let input = "one two three\nfour five";
    let out = transform_text(input, &keep_none, &mut m, &mut rand);
    let in_lines: Vec<&str> = input.split('\n').collect();
    let out_lines: Vec<&str> = out.split('\n').collect();
    assert_eq!(in_lines.len(), out_lines.len());
    for (il, ol) in in_lines.iter().zip(out_lines.iter()) {
        let iw: Vec<&str> = il.split(' ').collect();
        let ow: Vec<&str> = ol.split(' ').collect();
        assert_eq!(iw.len(), ow.len());
        for w in ow {
            assert!(["a", "b", "c"].contains(&w));
        }
    }
}

#[test]
fn transform_is_reproducible_with_a_seed() {
    let keep_some = Prob { num: 1, den: 2 };
    let input = "alpha beta gamma delta\nepsilon zeta";
    let mut m1 = MarkovIterator::new(strings(&["a", "b", "a", "c", "a", "b"])).unwrap();
    let mut r1 = Randomness::Seeded { state: 21 };
    let out1 = transform_text(input, &keep_some, &mut m1, &mut r1);
    let mut m2 = MarkovIterator::new(strings(&["a", "b", "a", "c", "a", "b"])).unwrap();
    let mut r2 = Randomness::Seeded { state: 21 };
    let out2 = transform_text(input, &keep_some, &mut m2, &mut r2);
    assert_eq!(out1, out2);
}
