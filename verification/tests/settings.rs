use super_bpe::model::{AddedToken, BPE};
use super_bpe::super_trainer::{SuperBpeTrainer, SuperBpeTrainerBuilder};
use super_bpe::trainer::BpeTrainer;

#[test]
fn default_settings() {
    let t = BpeTrainer::default();
    assert_eq!(t.min_frequency, 0);
    assert_eq!(t.vocab_size, 30000);
    assert!(t.show_progress);
    assert!(t.special_tokens.is_empty());
    assert_eq!(t.limit_alphabet, None);
    assert!(t.initial_alphabet.is_empty());
    assert_eq!(t.continuing_subword_prefix, None);
    assert_eq!(t.end_of_word_suffix, None);
    assert_eq!(t.max_token_length, None);
    assert_eq!(t.words.len(), 0);

    let s = SuperBpeTrainer::default();
    assert_eq!(s.transition_point, 10000);
    assert_eq!(s.standard_config.vocab_size, 30000);
    assert!(s.should_show_progress());
    assert_eq!(s.words_stage1().len(), 0);
    assert_eq!(s.words_stage2().len(), 0);
}

#[test]
fn new_sets_three_values() {
    let s = SuperBpeTrainer::new(7, 500, 200);
    assert_eq!(s.standard_config.min_frequency, 7);
    assert_eq!(s.standard_config.vocab_size, 500);
    assert_eq!(s.transition_point, 200);
    assert!(s.standard_config.show_progress);
    let b = BpeTrainer::new(2, 9);
    assert_eq!((b.min_frequency, b.vocab_size), (2, 9));
}

#[test]
fn builder_setters_each_set_one_value() {
    let t = SuperBpeTrainerBuilder::new()
        .min_frequency(4)
        .vocab_size(1234)
        .show_progress(false)
        .special_tokens(vec![AddedToken::from("<unk>".to_string(), true)])
        .limit_alphabet(50)
        .initial_alphabet(vec!['x', 'y'])
        .continuing_subword_prefix("##".to_string())
        .end_of_word_suffix("</w>".to_string())
        .max_token_length(Some(16))
        .transition_point(321)
        .build();
    let c = &t.standard_config;
    assert_eq!(c.min_frequency, 4);
    assert_eq!(c.vocab_size, 1234);
    assert!(!c.show_progress);
    assert_eq!(c.special_tokens.len(), 1);
    assert_eq!(c.special_tokens[0].content, "<unk>");
    assert_eq!(c.limit_alphabet, Some(50));
    assert_eq!(c.initial_alphabet, vec!['x', 'y']);
    assert_eq!(c.continuing_subword_prefix, Some("##".to_string()));
    assert_eq!(c.end_of_word_suffix, Some("</w>".to_string()));
    assert_eq!(c.max_token_length, Some(16));
    assert_eq!(t.transition_point, 321);
    assert!(!t.should_show_progress());
    let u = SuperBpeTrainer::builder().max_token_length(None).build();
    assert_eq!(u.standard_config.max_token_length, None);
}

#[test]
fn feed_fills_both_stages_and_sets_up_the_first() {
    let mut t = SuperBpeTrainer::builder().vocab_size(900).transition_point(300).min_frequency(2).build();
    let corpus = vec!["a b".to_string(), "a b".to_string(), "b".to_string()];
    t.feed(&corpus, |s: &str| -> Result<Vec<String>, String> { Ok(vec![s.to_uppercase()]) }).unwrap();
    let w2 = t.words_stage2();
    let e2: Vec<(String, u64)> = (0..w2.len()).map(|j| (w2.get(j).0.clone(), w2.get(j).1)).collect();
    assert_eq!(e2, vec![("A B".to_string(), 2), ("B".to_string(), 1)]);
    let w1 = t.words_stage1();
    let e1: Vec<(String, u64)> = (0..w1.len()).map(|j| (w1.get(j).0.clone(), w1.get(j).1)).collect();
    assert_eq!(e1, vec![("A".to_string(), 2), (" B".to_string(), 2), ("B".to_string(), 1)]);
    assert_eq!(t.standard_config.words.len(), 3);
    assert_eq!(t.standard_config.vocab_size, 900);
    assert_eq!(t.standard_config.min_frequency, 2);
    assert_eq!(t.transition_point, 300);
}

#[test]
fn feed_error_leaves_trainer_unchanged() {
    let mut t = SuperBpeTrainer::builder().vocab_size(900).transition_point(300).build();
    let corpus = vec!["ok".to_string(), "bad input".to_string()];
    let r = t.feed(&corpus, |s: &str| -> Result<Vec<String>, String> {
        if s.contains("bad") { Err(format!("cannot process {}", s)) } else { Ok(vec![s.to_string()]) }
    });
    assert_eq!(r, Err("cannot process bad input".to_string()));
    assert_eq!(t.words_stage1().len(), 0);
    assert_eq!(t.words_stage2().len(), 0);
    assert_eq!(t.standard_config.vocab_size, 900);
}

#[test]
fn feed_error_from_a_piece() {
    let mut t = SuperBpeTrainer::default();
    let corpus = vec!["x y".to_string()];
    let r = t.feed(&corpus, |s: &str| -> Result<Vec<String>, u8> {
        if s == " y" { Err(7) } else { Ok(vec![s.to_string()]) }
    });
    assert_eq!(r, Err(7));
    assert_eq!(t.words_stage2().len(), 0);
}

#[test]
fn feed_error_is_the_first_in_order() {
    let mut t = SuperBpeTrainer::default();
    let corpus = vec!["ok x".to_string(), "bad".to_string()];
    // the piece " x" of the first sequence is handed out before the second sequence
    let r = t.feed(&corpus, |s: &str| -> Result<Vec<String>, u8> {
        if s == "bad" { Err(1) } else if s == " x" { Err(2) } else { Ok(vec![s.to_string()]) }
    });
    assert_eq!(r, Err(2));
}

#[test]
fn ids_fit_checks_sizes() {
    let t = SuperBpeTrainer::default();
    assert!(t.ids_fit());
    // sizes beyond u32 are only targets: with few words, few ids can be made
    let big = SuperBpeTrainer::new(0, usize::MAX, 10);
    assert!(big.ids_fit());
    let big_tp = SuperBpeTrainer::new(0, 10, u32::MAX as usize + 1);
    assert!(big_tp.ids_fit());
    assert!(SuperBpeTrainer::new(0, usize::MAX, usize::MAX).ids_fit());
    // the bound grows with distinct characters, not with how often words occur
    let mut fed = SuperBpeTrainer::builder().continuing_subword_prefix("##".to_string()).build();
    let corpus: Vec<String> = (0..2000).map(|_| "abc abc".to_string()).collect();
    fed.feed(&corpus, |s: &str| -> Result<Vec<String>, String> { Ok(vec![s.to_string()]) }).unwrap();
    assert!(fed.ids_fit());
}

#[test]
fn model_starts_empty() {
    let m = BPE::default();
    assert_eq!(m.get_vocab_size(), 0);
    assert!(m.get_vocab().is_empty());
    assert!(m.merges.entries().is_empty());
    assert_eq!(m.merges.len(), 0);
    assert_eq!(m.merges.get((0, 0)), None);
    assert!(!m.merges.contains((0, 0)));
}
