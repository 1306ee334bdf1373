use super_bpe::model::{AddedToken, BPE};
use super_bpe::super_trainer::SuperBpeTrainer;
use super_bpe::trainer::BpeTrainer;
use super_bpe::engine::MergeSettings;
use super_bpe::tokenize::start_training;
use super_bpe::vocab::Vocab;
use super_bpe::word_counts::WordCounts;

fn vocab_strings(model: &BPE) -> Vec<String> {
    model.get_vocab().into_iter().map(|(s, _)| s).collect()
}

fn strip<'a>(prefix: &Option<String>, s: &'a str) -> &'a str {
    match prefix {
        Some(p) if s.starts_with(p.as_str()) => &s[p.len()..],
        _ => s,
    }
}

#[test]
fn stage_one_exact_small_corpus() {
    let mut trainer = BpeTrainer::new(0, 100);
    trainer.words.set("ab".to_string(), 2);
    let mut model = BPE::default();
    let specials = trainer.train(&mut model);
    assert!(specials.is_empty());
    assert_eq!(vocab_strings(&model), vec!["a", "b", "ab"]);
    assert_eq!(model.merges.entries(), vec![((0, 1), (0, 2))]);
    assert_eq!(model.continuing_subword_prefix, None);
    assert_eq!(model.end_of_word_suffix, None);
}

#[test]
fn stage_one_prefix_and_suffix_tokens() {
    let mut trainer = BpeTrainer::new(0, 100);
    trainer.continuing_subword_prefix = Some("##".to_string());
    trainer.end_of_word_suffix = Some("</w>".to_string());
    trainer.words.set("ab".to_string(), 2);
    let mut model = BPE::default();
    trainer.train(&mut model);
    // alphabet, then the tokens of the word's characters, then the merge
    assert_eq!(vocab_strings(&model), vec!["a", "b", "##b</w>", "ab</w>"]);
    assert_eq!(model.merges.entries(), vec![((0, 2), (0, 3))]);
    assert_eq!(model.continuing_subword_prefix, Some("##".to_string()));
    assert_eq!(model.end_of_word_suffix, Some("</w>".to_string()));
}

#[test]
fn stage_one_special_tokens_come_first() {
    let mut trainer = BpeTrainer::new(0, 100);
    trainer.special_tokens = vec![AddedToken::from("<s>".to_string(), true), AddedToken::from("<s>".to_string(), true)];
    trainer.words.set("ab".to_string(), 1);
    let mut model = BPE::default();
    let specials = trainer.train(&mut model);
    assert_eq!(specials.len(), 2);
    assert_eq!(specials[0].content, "<s>");
    assert!(specials[0].special && !specials[0].normalized);
    assert_eq!(vocab_strings(&model), vec!["<s>", "a", "b", "ab"]);
}

#[test]
fn stage_one_min_frequency_stops_merging() {
    let mut trainer = BpeTrainer::new(3, 100);
    trainer.words.set("ab".to_string(), 2);
    let mut model = BPE::default();
    trainer.train(&mut model);
    assert_eq!(vocab_strings(&model), vec!["a", "b"]);
    assert!(model.merges.entries().is_empty());
}

#[test]
fn stage_one_vocab_size_stops_merging() {
    let mut trainer = BpeTrainer::new(0, 3);
    trainer.words.set("abc".to_string(), 5);
    let mut model = BPE::default();
    trainer.train(&mut model);
    assert_eq!(vocab_strings(&model), vec!["a", "b", "c"]);
    let mut trainer = BpeTrainer::new(0, 4);
    trainer.words.set("abc".to_string(), 5);
    trainer.train(&mut model);
    // (a, b) and (b, c) tie on count 5; the smaller pair is merged first
    assert_eq!(vocab_strings(&model), vec!["a", "b", "c", "ab"]);
    assert_eq!(model.merges.entries(), vec![((0, 1), (0, 3))]);
}

#[test]
fn stage_one_limit_and_initial_alphabet() {
    let mut trainer = BpeTrainer::new(0, 2);
    trainer.words.set("aab".to_string(), 1);
    trainer.words.set("c".to_string(), 1);
    trainer.limit_alphabet = Some(2);
    // counts: a 2, b 1, c 1, z forced in at the maximum
    trainer.initial_alphabet = vec!['z'];
    let mut model = BPE::default();
    trainer.train(&mut model);
    assert_eq!(vocab_strings(&model), vec!["a", "z"]);
}

#[test]
fn stage_one_max_token_length_blocks_new_pairs() {
    let mut trainer = BpeTrainer::new(0, 100);
    trainer.max_token_length = Some(2);
    trainer.words.set("aaaa".to_string(), 1);
    let mut model = BPE::default();
    trainer.train(&mut model);
    // (a, a) merges once; a pair reaching two characters is not counted anew
    assert_eq!(vocab_strings(&model), vec!["a", "aa"]);
}

fn small_corpus() -> Vec<String> {
    vec!["low lower", "lowest low", "newer newest", "low low low"]
        .into_iter()
        .map(|s| s.to_string())
        .collect()
}

#[test]
fn two_stages_keep_first_stage_and_form_merges() {
    let corpus = small_corpus();
    let make = |tp: usize| {
        let mut t = SuperBpeTrainer::builder()
            .show_progress(false)
            .vocab_size(40)
            .transition_point(tp)
            .continuing_subword_prefix("##".to_string())
            .build();
        t.feed(&corpus, |s: &str| -> Result<Vec<String>, String> { Ok(vec![s.to_string()]) }).unwrap();
        t
    };
    let trainer = make(40);
    assert!(trainer.ids_fit());
    let mut model = BPE::default();
    trainer.do_train(&mut model);
    let vocab = vocab_strings(&model);
    // tokens are distinct
    let mut sorted = vocab.clone();
    sorted.sort();
    sorted.dedup();
    assert_eq!(sorted.len(), vocab.len());
    // every merge joins its pair
    for ((a, b), (_, id)) in model.merges.entries() {
        let joined = format!("{}{}", vocab[a as usize], strip(&model.continuing_subword_prefix, &vocab[b as usize]));
        assert_eq!(vocab[id as usize], joined);
    }
    // ids are positions
    for (i, (_, id)) in model.get_vocab().into_iter().enumerate() {
        assert_eq!(i, id as usize);
    }
}

#[test]
fn second_stage_extends_first() {
    let corpus = small_corpus();
    let mut first = SuperBpeTrainer::builder().show_progress(false).vocab_size(1000).transition_point(12).build();
    first.feed(&corpus, |s: &str| -> Result<Vec<String>, String> { Ok(vec![s.to_string()]) }).unwrap();
    // after feeding, the standard trainer keeps the final vocabulary size
    assert_eq!(first.standard_config.vocab_size, 1000);
    let mut stage1 = BPE::default();
    let mut one = first.standard_config.copied();
    one.vocab_size = first.transition_point;
    one.train(&mut stage1);
    let mut model = BPE::default();
    first.do_train(&mut model);
    let v1 = vocab_strings(&stage1);
    let v = vocab_strings(&model);
    assert!(v.len() >= v1.len());
    assert_eq!(&v[..v1.len()], &v1[..]);
    let m1 = stage1.merges.entries();
    let m = model.merges.entries();
    assert_eq!(&m[..m1.len()], &m1[..]);
    // the second stage ran, and ranks its merges after those of the first
    assert!(m.len() > m1.len());
    assert!(m[m1.len()..].iter().all(|(_, (rank, _))| *rank as usize >= m1.len()));
    // without affixes, the vocabulary stops at the larger of the first stage's and the final size
    assert!(v.len() <= std::cmp::max(v1.len(), 1000));
}

#[test]
fn high_min_frequency_adds_no_merge() {
    let corpus = small_corpus();
    let mut t = SuperBpeTrainer::builder().show_progress(false).min_frequency(1000).vocab_size(100).transition_point(12).build();
    t.feed(&corpus, |s: &str| -> Result<Vec<String>, String> { Ok(vec![s.to_string()]) }).unwrap();
    let mut model = BPE::default();
    t.do_train(&mut model);
    assert!(model.merges.entries().is_empty());
    assert!(vocab_strings(&model).iter().all(|s| s.chars().count() == 1));
}

#[test]
fn second_stage_skipped_when_first_reaches_size() {
    let corpus = small_corpus();
    let mut t = SuperBpeTrainer::new(0, 5, 5);
    t.feed(&corpus, |s: &str| -> Result<Vec<String>, String> { Ok(vec![s.to_string()]) }).unwrap();
    let mut model = BPE::default();
    t.do_train(&mut model);
    // the alphabet alone has more than 5 characters: no merge at all
    assert!(model.merges.entries().is_empty());
    assert!(vocab_strings(&model).iter().all(|s| s.chars().count() == 1));
}

#[test]
fn superword_tokens_cross_spaces() {
    let corpus: Vec<String> = vec!["of the", "of the", "of the", "in the"].into_iter().map(|s| s.to_string()).collect();
    let mut t = SuperBpeTrainer::builder().show_progress(false).vocab_size(30).transition_point(30).build();
    t.feed(&corpus, |s: &str| -> Result<Vec<String>, String> { Ok(vec![s.to_string()]) }).unwrap();
    let mut model = BPE::default();
    t.do_train(&mut model);
    let v = vocab_strings(&model);
    assert!(v.iter().any(|s| s.trim() != s.as_str() || s.contains(' ')));
}

#[test]
fn empty_corpus_trains_specials_only() {
    let mut t = SuperBpeTrainer::builder()
        .special_tokens(vec![AddedToken::from("[PAD]".to_string(), true)])
        .build();
    let corpus: Vec<String> = vec![];
    t.feed(&corpus, |s: &str| -> Result<Vec<String>, String> { Ok(vec![s.to_string()]) }).unwrap();
    let mut model = BPE::default();
    let specials = t.train(&mut model);
    assert_eq!(specials.len(), 1);
    assert_eq!(vocab_strings(&model), vec!["[PAD]"]);
}

#[test]
fn merging_keeps_word_spelling() {
    let mut vocab = Vocab::new();
    for c in ["l", "o", "w", "e", "r", "n", "s", "t", " "] {
        vocab.add(c.to_string());
    }
    let mut wc = WordCounts::new();
    for w in ["low lower", "lowest low", "newer newest", "low low low", "low"] {
        wc.count(w.to_string());
    }
    let prefix = Some("##".to_string());
    let mut st = start_training(vocab, &wc, &prefix, &None);
    let settings = MergeSettings { vocab_size: 40, min_frequency: 0, prefix: Some("##".to_string()), max_length: usize::MAX };
    st.run(&settings);
    assert!(!st.merges.is_empty());
    assert_eq!(st.words.len(), wc.len());
    for (j, w) in st.words.iter().enumerate() {
        let mut text = String::new();
        for (k, s) in w.symbols.iter().enumerate() {
            let tok = st.vocab.token(s.c);
            if k == 0 {
                text.push_str(tok);
            } else {
                assert!(tok.starts_with("##"));
                text.push_str(&tok[2..]);
            }
        }
        assert_eq!(&text, wc.get(j).0);
    }
    // some word ends up as fewer symbols than characters
    assert!(st.words.iter().enumerate().any(|(j, w)| w.symbols.len() < wc.get(j).0.chars().count()));
}

#[test]
fn second_stage_runs_up_to_final_size() {
    let mut t = SuperBpeTrainer::builder().show_progress(false).min_frequency(0).vocab_size(10).transition_point(4).build();
    let corpus = vec!["a b".to_string()];
    t.feed(&corpus, |s: &str| -> Result<Vec<String>, String> { Ok(vec![s.to_owned()]) }).unwrap();
    assert_eq!(t.standard_config.vocab_size, 10);
    let mut model = BPE::default();
    let specials = t.do_train(&mut model);
    assert!(specials.is_empty());
    let expected: Vec<(String, u32)> = vec![(" ", 0), ("a", 1), ("b", 2), (" b", 3), ("a b", 4)]
        .into_iter()
        .map(|(s, i)| (s.to_string(), i))
        .collect();
    assert_eq!(model.get_vocab(), expected);
}

#[test]
fn unbounded_sizes_train_until_pairs_run_out() {
    let corpus = small_corpus();
    let train = |size: usize| {
        let mut t = SuperBpeTrainer::builder().show_progress(false).vocab_size(size).transition_point(size).build();
        t.feed(&corpus, |s: &str| -> Result<Vec<String>, String> { Ok(vec![s.to_string()]) }).unwrap();
        assert!(t.ids_fit());
        let mut model = BPE::default();
        t.do_train(&mut model);
        model
    };
    let unbounded = train(usize::MAX);
    let roomy = train(1000);
    assert_eq!(vocab_strings(&unbounded), vocab_strings(&roomy));
    assert_eq!(unbounded.merges.entries(), roomy.merges.entries());
    assert!(vocab_strings(&unbounded).len() < 1000);
}
