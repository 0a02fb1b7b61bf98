use microgpt::corpus::{arrange, load_docs, parse_docs};
use microgpt::text::{
    contains, is_before, is_whitespace, lines, push_decimal, same, split_once, trim, words,
};
use microgpt::tokenizer::Tokenizer;
use rand::rngs::StdRng;
use rand::seq::SliceRandom;
use rand::{Rng, SeedableRng};

const SAMPLES: [&str; 14] = [
    "",
    "\n",
    "a",
    "a\n",
    "a\nb",
    "a\r\nb\r\n",
    "a\r",
    "\r\n",
    "a\n\nb",
    "  a b\t c  ",
    "\u{3000}name\u{a0}\u{2003}x\u{85}",
    "x\u{200b}y",
    "é ü\n  ",
    "\r\r\n\r",
];

fn strings(items: &[&str]) -> Vec<String> {
    items.iter().map(|s| s.to_string()).collect()
}

#[test]
fn lines_end_as_in_the_standard_library() {
    for s in SAMPLES {
        assert_eq!(lines(s), s.lines().map(|l| l.to_string()).collect::<Vec<_>>(), "{:?}", s);
    }
}

#[test]
fn trimming_removes_white_space_at_both_ends() {
    for s in SAMPLES {
        assert_eq!(trim(s), s.trim(), "{:?}", s);
    }
}

#[test]
fn words_are_what_white_space_separates() {
    for s in SAMPLES {
        let expected: Vec<String> = s.split_whitespace().map(|w| w.to_string()).collect();
        assert_eq!(words(s), expected, "{:?}", s);
    }
}

#[test]
fn white_space_is_that_of_unicode() {
    for code in 0..=0x10FFFFu32 {
        if let Some(c) = char::from_u32(code) {
            assert_eq!(is_whitespace(c), c.is_whitespace(), "{:x}", code);
        }
    }
}

#[test]
fn a_line_splits_at_its_first_space() {
    assert_eq!(split_once("wte 1 2"), ("wte".to_string(), "1 2".to_string()));
    assert_eq!(split_once("wte"), ("wte".to_string(), String::new()));
    assert_eq!(split_once(" x"), (String::new(), "x".to_string()));
    assert_eq!(split_once(""), (String::new(), String::new()));
}

#[test]
fn parts_of_strings() {
    assert!(contains("layer0.mlp_fc1", "mlp_fc1"));
    assert!(!contains("layer0.mlp_fc2", "mlp_fc1"));
    assert!(contains("abc", ""));
    assert!(contains("", ""));
    assert!(!contains("ab", "abc"));
    assert!(contains("aab", "ab"));
}

#[test]
fn strings_order_by_characters() {
    let items = ["", "a", "aa", "ab", "b", "layer0.attn_wk", "layer0.attn_wq", "lm_head", "é"];
    for a in items {
        for b in items {
            assert_eq!(is_before(a, b), a < b, "{:?} {:?}", a, b);
            assert_eq!(same(a, b), a == b);
        }
    }
}

#[test]
fn decimals() {
    for n in [0usize, 7, 9, 10, 42, 100, 1_234_567] {
        let mut s = String::from("layer");
        push_decimal(&mut s, n);
        assert_eq!(s, format!("layer{}", n));
    }
}

#[test]
fn documents_are_trimmed_lines_that_are_not_empty() {
    assert_eq!(parse_docs("emma\n  olivia \n\n\t\nava"), strings(&["emma", "olivia", "ava"]));
    assert_eq!(parse_docs(""), Vec::<String>::new());
}

#[test]
fn documents_can_be_arranged() {
    let docs = strings(&["a", "b", "c"]);
    assert_eq!(arrange(&docs, &vec![2, 0, 0]), strings(&["c", "a", "a"]));
}

fn alphabet() -> String {
    (b'a'..=b'z').map(|c| format!("{}\n", c as char)).collect()
}

#[test]
fn loading_shuffles_the_documents_as_a_seeded_generator_does() {
    let text = alphabet();
    let (docs, mut rng) = load_docs(&text, 42);
    let mut expected = parse_docs(&text);
    let mut own = StdRng::seed_from_u64(42);
    expected.shuffle(&mut own);
    assert_eq!(docs, expected);
    assert_ne!(docs, parse_docs(&text));
    assert_eq!(rng.gen::<f64>(), own.gen::<f64>());
}

#[test]
fn loading_keeps_every_document_and_follows_the_seed() {
    let text = alphabet();
    let (a, _) = load_docs(&text, 42);
    let (b, _) = load_docs(&text, 42);
    let (c, _) = load_docs(&text, 7);
    assert_eq!(a, b);
    assert_ne!(a, c);
    let mut sorted = a;
    sorted.sort();
    assert_eq!(sorted, parse_docs(&text));
}

#[test]
fn loading_nothing_gives_nothing() {
    let (docs, _) = load_docs("\n \n", 42);
    assert_eq!(docs, Vec::<String>::new());
}

#[test]
fn characters_get_tokens_in_ascending_order() {
    let tok = Tokenizer::new(&strings(&["cab", "bad", ""]));
    assert_eq!(tok.uchars, vec!['a', 'b', 'c', 'd']);
    assert_eq!(tok.bos, 4);
    assert_eq!(tok.vocab_size, 5);
}

#[test]
fn encoding_puts_end_marks_around_the_tokens() {
    let tok = Tokenizer::new(&strings(&["cab", "bad"]));
    assert_eq!(tok.encode("cab"), vec![4, 2, 0, 1, 4]);
    assert_eq!(tok.encode(""), vec![4, 4]);
}

#[test]
fn decoding_undoes_encoding() {
    let docs = strings(&["emma", "olivia", "zoë"]);
    let tok = Tokenizer::new(&docs);
    for doc in &docs {
        assert!(tok.covers(doc));
        let tokens = tok.encode(doc);
        let inner = &tokens[1..tokens.len() - 1];
        let text: String = inner.iter().map(|&t| tok.char_of(t)).collect();
        assert_eq!(&text, doc);
    }
}

#[test]
fn an_unknown_character_has_no_token() {
    let tok = Tokenizer::new(&strings(&["abc"]));
    assert!(tok.covers("cba"));
    assert!(!tok.covers("abd"));
    assert!(tok.covers(""));
}

#[test]
fn the_order_of_the_documents_does_not_matter() {
    let a = Tokenizer::new(&strings(&["emma", "ava"]));
    let b = Tokenizer::new(&strings(&["ava", "emma"]));
    assert_eq!(a.uchars, b.uchars);
    assert_eq!(a.bos, b.bos);
}

#[test]
fn only_the_characters_that_occur_matter() {
    let a = Tokenizer::new(&strings(&["emma", "ava"]));
    let b = Tokenizer::new(&strings(&["v", "me", "aaa", "me"]));
    assert_eq!(a.uchars, b.uchars);
    assert_eq!(a.vocab_size, b.vocab_size);
}

#[test]
fn no_documents_leave_the_end_mark_only() {
    let tok = Tokenizer::new(&vec![]);
    assert_eq!(tok.uchars, Vec::<char>::new());
    assert_eq!((tok.bos, tok.vocab_size), (0, 1));
    assert_eq!(tok.encode(""), vec![0, 0]);
}

#[test]
fn the_first_matching_position_and_the_given_mark_are_taken() {
    let tok = Tokenizer { uchars: vec!['b', 'a', 'a'], bos: 7, vocab_size: 8 };
    assert!(tok.covers("ab"));
    assert!(!tok.covers("abc"));
    assert_eq!(tok.encode("ab"), vec![7, 1, 0, 7]);
    assert_eq!(tok.char_of(2), 'a');
}
