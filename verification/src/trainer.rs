//! The standard byte-pair-encoding trainer: its settings, and training from scratch.

use vstd::prelude::*;
use crate::alphabet::{compute_alphabet, valid_alphabet, alphabet_counts, add_chars, word_chars};
use crate::engine::{Limits, MergeSettings, run_merges};
use crate::model::{AddedToken, BPE, MergeMap, ModelView, copy_tokens, token_contents, merge_insert};
use crate::pairs::Pair;
use crate::tokenize::{start_training, initial_training, char_total};
use crate::vocab::{Vocab, add_token};
use crate::word_counts::WordCounts;

verus! {

/// A copy of an optional string.
pub fn copy_opt_string(o: &Option<String>) -> (r: Option<String>)
    ensures
        r.deep_view() == o.deep_view(),
{
    match o {
        Some(s) => Some(s.clone()),
        None => None,
    }
}

/// The vocabulary after adding the first `n` strings of `contents`, each unless present.
pub open spec fn add_strings(v: Seq<Seq<char>>, contents: Seq<Seq<char>>, n: nat) -> Seq<Seq<char>>
    decreases n,
{
    if n == 0 {
        v
    } else {
        add_token(add_strings(v, contents, (n - 1) as nat), contents[n - 1]).0
    }
}

/// The merges of a model trained from scratch: the `i`-th merge has rank `i`, and a
/// pair merged more than once keeps its last rank and token.
pub open spec fn ranked_merges(merges: Seq<(Pair, u32)>, n: nat) -> Seq<(Pair, (u32, u32))>
    decreases n,
{
    if n == 0 {
        Seq::empty()
    } else {
        merge_insert(ranked_merges(merges, (n - 1) as nat), merges[n - 1].0, ((n - 1) as u32, merges[n - 1].1))
    }
}

/// Settings of the standard trainer, and the words it trains on.
pub struct BpeTrainer {
    /// The minimum count for a pair to be merged.
    pub min_frequency: u64,
    /// The vocabulary size to reach.
    pub vocab_size: usize,
    /// Whether to show progress.
    pub show_progress: bool,
    /// Tokens added first to the vocabulary.
    pub special_tokens: Vec<AddedToken>,
    /// The maximum number of characters in the initial alphabet.
    pub limit_alphabet: Option<usize>,
    /// Characters kept in the alphabet whether seen or not.
    pub initial_alphabet: Vec<char>,
    /// The prefix of tokens that continue a word.
    pub continuing_subword_prefix: Option<String>,
    /// The suffix of tokens that end a word.
    pub end_of_word_suffix: Option<String>,
    /// The token length from which pairs are no longer counted.
    pub max_token_length: Option<usize>,
    /// The words to train on, with their counts.
    pub words: WordCounts,
}

/// The settings of a trainer, and its words, as mathematical values.
pub ghost struct TrainerSettings {
    pub min_frequency: u64,
    pub vocab_size: usize,
    pub show_progress: bool,
    pub special_tokens: Seq<AddedToken>,
    pub limit_alphabet: Option<usize>,
    pub initial_alphabet: Seq<char>,
    pub prefix: Option<Seq<char>>,
    pub suffix: Option<Seq<char>>,
    pub max_token_length: Option<usize>,
    pub words: Seq<(Seq<char>, u64)>,
}

impl View for BpeTrainer {
    type V = TrainerSettings;

    open spec fn view(&self) -> TrainerSettings {
        TrainerSettings {
            min_frequency: self.min_frequency,
            vocab_size: self.vocab_size,
            show_progress: self.show_progress,
            special_tokens: self.special_tokens@,
            limit_alphabet: self.limit_alphabet,
            initial_alphabet: self.initial_alphabet@,
            prefix: self.continuing_subword_prefix.deep_view(),
            suffix: self.end_of_word_suffix.deep_view(),
            max_token_length: self.max_token_length,
            words: self.words@,
        }
    }
}

/// The token-length limit of merging: none means no limit.
pub open spec fn max_length_of(m: Option<usize>) -> usize {
    match m {
        Some(l) => l,
        None => usize::MAX,
    }
}

impl BpeTrainer {
    /// The bounds of the merge loop under these settings.
    pub open spec fn limits(&self) -> Limits {
        self.limits_to(self.vocab_size)
    }

    /// The bounds of the merge loop under these settings, aiming at `size` tokens.
    pub open spec fn limits_to(&self, size: usize) -> Limits {
        Limits {
            vocab_size: size,
            min_frequency: self.min_frequency,
            prefix: self.continuing_subword_prefix.deep_view(),
            max_length: max_length_of(self.max_token_length),
        }
    }

    /// The model that training from scratch on `wc` yields with the alphabet `kept`:
    /// special tokens first, then the alphabet, then the tokens of the merges.
    pub open spec fn trained(&self, wc: Seq<(Seq<char>, u64)>, kept: Seq<char>) -> ModelView {
        self.trained_to(self.vocab_size, wc, kept)
    }

    /// The model that training from scratch on `wc` yields with the alphabet `kept`,
    /// aiming at `size` tokens.
    pub open spec fn trained_to(&self, size: usize, wc: Seq<(Seq<char>, u64)>, kept: Seq<char>) -> ModelView {
        let specials = add_strings(Seq::empty(), token_contents(self.special_tokens@), self.special_tokens@.len());
        let start = add_chars(specials, kept, kept.len());
        let done = run_merges(
            self.limits_to(size),
            initial_training(start, wc, self.continuing_subword_prefix.deep_view(), self.end_of_word_suffix.deep_view()),
        );
        ModelView {
            vocab: done.vocab,
            merges: ranked_merges(done.merges, done.merges.len()),
            prefix: self.continuing_subword_prefix.deep_view(),
            suffix: self.end_of_word_suffix.deep_view(),
        }
    }

    /// A bound on the tokens that training on `wc` holds before any merge: the special
    /// tokens, the alphabet (the distinct characters of the words and of the initial
    /// alphabet), and for each distinct character of the words its forms with the
    /// prefix, with the suffix and with both.
    pub open spec fn start_bound(&self, wc: Seq<(Seq<char>, u64)>) -> nat {
        self.special_tokens@.len() + alphabet_counts(wc, self.initial_alphabet@).len() + 3 * word_chars(wc).len()
    }

    /// What training on `wc` needs: every token id it can create fits in `u32`. Merging
    /// stops at the vocabulary size, so the ids stay below the larger of that size and
    /// `start_bound`; and it adds at most one token for each symbol or candidate pair it
    /// uses up, so they also stay below `start_bound` plus five per character of the
    /// words.
    pub open spec fn can_train(&self, wc: Seq<(Seq<char>, u64)>) -> bool {
        &&& self.start_bound(wc) <= u32::MAX
        &&& self.vocab_size <= u32::MAX || self.start_bound(wc) + 5 * char_total(wc, wc.len()) <= u32::MAX
    }

    /// The default settings, as mathematical values.
    pub open spec fn default_settings() -> TrainerSettings {
        TrainerSettings {
            min_frequency: 0,
            vocab_size: 30000,
            show_progress: true,
            special_tokens: Seq::empty(),
            limit_alphabet: None,
            initial_alphabet: Seq::empty(),
            prefix: None,
            suffix: None,
            max_token_length: None,
            words: Seq::empty(),
        }
    }

    /// The default settings: no minimum count, a vocabulary of 30000, progress shown,
    /// no special tokens, no limit or initial characters for the alphabet, no affixes,
    /// no token-length limit, and no words.
    pub fn default() -> (t: Self)
        ensures
            t.words.wf(),
            t@ == Self::default_settings(),
            t.min_frequency == 0,
            t.vocab_size == 30000,
            t.show_progress,
            t.special_tokens@.len() == 0,
            t.limit_alphabet is None,
            t.initial_alphabet@.len() == 0,
            t.continuing_subword_prefix is None,
            t.end_of_word_suffix is None,
            t.max_token_length is None,
            t.words@.len() == 0,
    {
        let t = BpeTrainer {
            min_frequency: 0,
            vocab_size: 30000,
            show_progress: true,
            special_tokens: Vec::new(),
            limit_alphabet: None,
            initial_alphabet: Vec::new(),
            continuing_subword_prefix: None,
            end_of_word_suffix: None,
            max_token_length: None,
            words: WordCounts::new(),
        };
        assert(t@.special_tokens =~= Seq::<AddedToken>::empty());
        assert(t@.initial_alphabet =~= Seq::<char>::empty());
        assert(t@.words =~= Seq::<(Seq<char>, u64)>::empty());
        t
    }

    /// The default settings with the given minimum count and vocabulary size.
    pub fn new(min_frequency: u64, vocab_size: usize) -> (t: Self)
        ensures
            t.words.wf(),
            t@ == (TrainerSettings { min_frequency: min_frequency, vocab_size: vocab_size, ..Self::default_settings() }),
            t.min_frequency == min_frequency,
            t.vocab_size == vocab_size,
            t.show_progress,
            t.special_tokens@.len() == 0,
            t.limit_alphabet is None,
            t.initial_alphabet@.len() == 0,
            t.continuing_subword_prefix is None,
            t.end_of_word_suffix is None,
            t.max_token_length is None,
            t.words@.len() == 0,
    {
        let mut t = Self::default();
        t.min_frequency = min_frequency;
        t.vocab_size = vocab_size;
        t
    }

    /// A copy of these settings and words.
    pub fn copied(&self) -> (t: Self)
        requires
            self.words.wf(),
        ensures
            t.words.wf(),
            t.words@ == self.words@,
            t.min_frequency == self.min_frequency,
            t.vocab_size == self.vocab_size,
            t.show_progress == self.show_progress,
            t.special_tokens@ == self.special_tokens@,
            t.limit_alphabet == self.limit_alphabet,
            t.initial_alphabet@ == self.initial_alphabet@,
            t.continuing_subword_prefix.deep_view() == self.continuing_subword_prefix.deep_view(),
            t.end_of_word_suffix.deep_view() == self.end_of_word_suffix.deep_view(),
            t.max_token_length == self.max_token_length,
    {
        BpeTrainer {
            min_frequency: self.min_frequency,
            vocab_size: self.vocab_size,
            show_progress: self.show_progress,
            special_tokens: copy_tokens(&self.special_tokens),
            limit_alphabet: self.limit_alphabet,
            initial_alphabet: self.initial_alphabet.clone(),
            continuing_subword_prefix: copy_opt_string(&self.continuing_subword_prefix),
            end_of_word_suffix: copy_opt_string(&self.end_of_word_suffix),
            max_token_length: self.max_token_length,
            words: self.words.copied(),
        }
    }

    /// Trains `model` from scratch on the words `wc`: the special tokens, then the
    /// alphabet, then merge after merge until the vocabulary size is reached or no pair
    /// is frequent enough. Returns the special tokens.
    pub fn do_train(&self, wc: &WordCounts, model: &mut BPE) -> (r: Vec<AddedToken>)
        requires
            wc.wf(),
            self.can_train(wc@),
        ensures
            final(model).wf(),
            r@ == self.special_tokens@,
            exists|kept: Seq<char>|
                #![trigger self.trained(wc@, kept)]
                valid_alphabet(alphabet_counts(wc@, self.initial_alphabet@), self.limit_alphabet, kept)
                    && final(model)@ == self.trained(wc@, kept),
            final(model)@.vocab.len() <= vstd::math::max(self.vocab_size as int, self.start_bound(wc@) as int),
            final(model)@.vocab.len() <= self.start_bound(wc@) + 5 * char_total(wc@, wc@.len()),
    {
        let mut vocab = Vocab::new();
        let ns = self.special_tokens.len();
        let mut i: usize = 0;
        while i < ns
            invariant
                ns == self.special_tokens.len(),
                i <= ns,
                vocab.wf(),
                vocab@.len() <= i,
                ns <= u32::MAX,
                vocab@ == add_strings(Seq::empty(), token_contents(self.special_tokens@), i as nat),
            decreases ns - i,
        {
            vocab.add(self.special_tokens[i].content.clone());
            i = i + 1;
        }
        let ghost specials = vocab@;
        let kept = compute_alphabet(wc, &self.initial_alphabet, self.limit_alphabet, &mut vocab);
        proof {
            crate::alphabet::lemma_add_chars_len(specials, kept@, kept@.len());
            crate::alphabet::lemma_kept_len(wc@, self.initial_alphabet@, self.limit_alphabet, kept@);
        }
        let mut st = start_training(vocab, wc, &self.continuing_subword_prefix, &self.end_of_word_suffix);
        let settings = MergeSettings {
            vocab_size: self.vocab_size,
            min_frequency: self.min_frequency,
            prefix: copy_opt_string(&self.continuing_subword_prefix),
            max_length: match self.max_token_length {
                Some(l) => l,
                None => usize::MAX,
            },
        };
        proof {
            crate::merge_proofs::lemma_run_merges_vocab(settings@, st@);
            crate::merge_proofs::lemma_run_merges_budget(settings@, st@);
        }
        st.run(&settings);
        let mut merges = MergeMap::new();
        let nm = st.merges.len();
        let mut j: usize = 0;
        while j < nm
            invariant
                nm == st.merges.len(),
                j <= nm,
                merges.wf(),
                merges@ == ranked_merges(st.merges@, j as nat),
            decreases nm - j,
        {
            let (p, id) = st.merges[j];
            merges.insert(p, (#[verifier::truncate] (j as u32), id));
            j = j + 1;
        }
        assert(st.merges@.len() == nm);
        model.vocab = st.vocab;
        model.merges = merges;
        model.continuing_subword_prefix = copy_opt_string(&self.continuing_subword_prefix);
        model.end_of_word_suffix = copy_opt_string(&self.end_of_word_suffix);
        assert(final(model)@ == self.trained(wc@, kept@));
        copy_tokens(&self.special_tokens)
    }

    /// Trains `model` from scratch on the trainer's own words.
    pub fn train(&self, model: &mut BPE) -> (r: Vec<AddedToken>)
        requires
            self.words.wf(),
            self.can_train(self.words@),
        ensures
            final(model).wf(),
            r@ == self.special_tokens@,
            exists|kept: Seq<char>|
                #![trigger self.trained(self.words@, kept)]
                valid_alphabet(alphabet_counts(self.words@, self.initial_alphabet@), self.limit_alphabet, kept)
                    && final(model)@ == self.trained(self.words@, kept),
            final(model)@.vocab.len() <= vstd::math::max(self.vocab_size as int, self.start_bound(self.words@) as int),
            final(model)@.vocab.len() <= self.start_bound(self.words@) + 5 * char_total(self.words@, self.words@.len()),
    {
        self.do_train(&self.words, model)
    }
}

} // verus!
