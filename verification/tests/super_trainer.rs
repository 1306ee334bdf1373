use std::collections::HashMap;

use super_bpe::model::BPE;
use super_bpe::super_trainer::SuperBpeTrainer;

/// The byte-to-character table of byte-level pre-processing.
fn bytes_char() -> HashMap<u8, char> {
    let mut bs: Vec<u32> = vec![];
    bs.extend(u32::from('!')..=u32::from('~'));
    bs.extend(u32::from('¡')..=u32::from('¬'));
    bs.extend(u32::from('®')..=u32::from('ÿ'));
    let mut cs: Vec<u32> = bs.clone();
    let mut n = 0;
    for b in 0..=255u32 {
        if !bs.contains(&b) {
            bs.push(b);
            cs.push(256 + n);
            n += 1;
        }
    }
    bs.into_iter()
        .zip(cs)
        .map(|(b, c)| (b as u8, char::from_u32(c).unwrap()))
        .collect()
}

fn byte_level(s: &str) -> String {
    let table = bytes_char();
    s.bytes().map(|b| table[&b]).collect()
}

fn byte_level_decode(s: &str) -> String {
    let table: HashMap<char, u8> = bytes_char().into_iter().map(|(b, c)| (c, b)).collect();
    let bytes: Vec<u8> = s.chars().map(|c| table[&c]).collect();
    String::from_utf8_lossy(&bytes).into_owned()
}

#[test]
fn test_super_bpe_train() {
    let corpus: Vec<String> = vec![
        "roses are red",
        "violets are blue",
        "BERT is big",
        "and GPT-2 is too",
        " ~~ ",
        "I love tokenizers",
        "honk honk",
        "here\t\tare some tab\tcharacters",
        "and some newlines\n\nbetween things",
    ]
    .into_iter()
    .map(|s| s.to_string())
    .collect();

    // Create a trainer with a small transition point to ensure both stages run
    let mut trainer = SuperBpeTrainer::builder()
        .show_progress(false)
        .min_frequency(0)
        .vocab_size(256)
        .transition_point(128)
        .build();

    trainer
        .feed(&corpus, |s: &str| -> Result<Vec<String>, String> { Ok(vec![byte_level(s)]) })
        .unwrap();

    let mut model = BPE::default();

    // Train the model
    trainer.do_train(&mut model);

    // Verify that the model has a vocabulary with both subword tokens and
    // some superword tokens (tokens that span word boundaries)
    let vocab = model.get_vocab();
    println!("Vocabulary size: {}", vocab.len());

    let decoded_vocab = vocab
        .iter()
        .map(|(token, _)| byte_level_decode(token))
        .collect::<Vec<_>>();
    // The vocab should contain some superword tokens like "are " or " is"
    assert!(decoded_vocab
        .iter()
        .any(|token| token.chars().skip(1).any(|c| c == ' ')));
}
