//! Two-stage training: a subword stage over whitespace pre-tokenized words up to the
//! transition point, then a superword stage over whole sequences up to the final size.

use vstd::prelude::*;
use crate::alphabet::{valid_alphabet, alphabet_counts, alphabet_size, word_chars};
use crate::engine::{MergeSettings, run_merges};
use crate::model::{AddedToken, BPE, ModelView, copy_tokens, find_merge, merge_insert};
use crate::pairs::Pair;
use crate::tokenize::{start_training, initial_training, char_total};
use crate::trainer::{BpeTrainer, TrainerSettings, copy_opt_string};
use crate::vocab::Vocab;
use crate::word_counts::{WordCounts, count_all};
use vstd::string::StrSliceExecFns;
use crate::pretokenize::{WordClass, split_with, word_pieces, strings_view};

verus! {

/// The merges of the first stage followed by those of the second: a pair already
/// merged keeps its entry; a new one gets as rank the number of merges recorded so far
/// plus its position among the second stage's merges (wrapping in `u32`).
pub open spec fn appended_merges(m: Seq<(Pair, (u32, u32))>, merges: Seq<(Pair, u32)>, n: nat) -> Seq<(Pair, (u32, u32))>
    decreases n,
{
    if n == 0 {
        m
    } else {
        let acc = appended_merges(m, merges, (n - 1) as nat);
        let p = merges[n - 1].0;
        if find_merge(acc, p) >= 0 {
            acc
        } else {
            merge_insert(
                acc,
                p,
                (vstd::wrapping::u32_specs::wrapping_add(acc.len() as u32, (n - 1) as u32), merges[n - 1].1),
            )
        }
    }
}

/// `process` may turn `s` into the strings `toks`.
pub open spec fn may_process<E, F: Fn(&str) -> Result<Vec<String>, E>>(process: F, s: Seq<char>, toks: Seq<Seq<char>>) -> bool {
    exists|a: &str, v: Vec<String>|
        #![trigger call_ensures(process, (a,), Ok::<Vec<String>, E>(v))]
        a@ == s && call_ensures(process, (a,), Ok::<Vec<String>, E>(v)) && strings_view(v@) == toks
}

/// `process` may turn each of `inputs` into the corresponding entry of `outs`.
pub open spec fn all_processed<E, F: Fn(&str) -> Result<Vec<String>, E>>(
    process: F,
    inputs: Seq<Seq<char>>,
    outs: Seq<Seq<Seq<char>>>,
) -> bool {
    &&& outs.len() == inputs.len()
    &&& forall|i: int| 0 <= i < inputs.len() ==> #[trigger] may_process::<E, F>(process, inputs[i], outs[i])
}

/// `a` is the first input on which feeding `seqs` can fail, as sequence `j` or one of
/// its pieces: every sequence before `j`, and each of their pieces, went through
/// `process`; and `a` is sequence `j` itself, or its piece `k` after the sequence and
/// its pieces before `k` went through.
pub open spec fn fails_first<E, F: Fn(&str) -> Result<Vec<String>, E>>(
    process: F,
    seqs: Seq<Seq<char>>,
    a: Seq<char>,
    j: int,
) -> bool {
    &&& 0 <= j < seqs.len()
    &&& exists|o1: Seq<Seq<Seq<char>>>, o2: Seq<Seq<Seq<char>>>|
        #![trigger all_processed::<E, F>(process, all_pieces(seqs.take(j)), o1), all_processed::<E, F>(process, seqs.take(j), o2)]
        all_processed::<E, F>(process, all_pieces(seqs.take(j)), o1) && all_processed::<E, F>(process, seqs.take(j), o2)
    &&& (a == seqs[j] || exists|k: int, t: Seq<Seq<char>>, o3: Seq<Seq<Seq<char>>>|
        #![trigger may_process::<E, F>(process, seqs[j], t), all_processed::<E, F>(process, word_pieces(seqs[j]).take(k), o3)]
        0 <= k < word_pieces(seqs[j]).len() && a == word_pieces(seqs[j])[k] && may_process::<E, F>(process, seqs[j], t)
            && all_processed::<E, F>(process, word_pieces(seqs[j]).take(k), o3))
}

/// The whitespace-split pieces of all sequences, in order.
pub open spec fn all_pieces(seqs: Seq<Seq<char>>) -> Seq<Seq<char>> {
    seqs.map_values(|s: Seq<char>| word_pieces(s)).flatten()
}

struct SuperBpeConfig {
    /// Configuration for the standard trainer.
    standard_config: BpeTrainer,
    /// The vocabulary size at which the first stage hands over to the second.
    transition_point: usize,
}

/// Builds a `SuperBpeTrainer` step by step.
pub struct SuperBpeTrainerBuilder {
    config: SuperBpeConfig,
}

impl SuperBpeTrainerBuilder {
    /// The settings of the standard trainer being built.
    pub closed spec fn standard(&self) -> TrainerSettings {
        self.config.standard_config@
    }

    /// The transition point being built.
    pub closed spec fn transition(&self) -> usize {
        self.config.transition_point
    }

    pub closed spec fn wf(&self) -> bool {
        self.config.standard_config.words.wf()
    }

    /// The default settings of the standard trainer, and a transition point of 10000.
    pub fn default() -> (b: Self)
        ensures
            b.wf(),
            b.standard() == BpeTrainer::default_settings(),
            b.transition() == 10000,
    {
        SuperBpeTrainerBuilder {
            config: SuperBpeConfig { standard_config: BpeTrainer::default(), transition_point: 10000 },
        }
    }

    /// Same as `default`.
    pub fn new() -> (b: Self)
        ensures
            b.wf(),
            b.standard() == BpeTrainer::default_settings(),
            b.transition() == 10000,
    {
        Self::default()
    }

    /// Sets the minimum count for a pair to be merged.
    pub fn min_frequency(self, frequency: u64) -> (b: Self)
        requires
            self.wf(),
        ensures
            b.wf(),
            b.standard() == (TrainerSettings { min_frequency: frequency, ..self.standard() }),
            b.transition() == self.transition(),
    {
        let mut s = self;
        s.config.standard_config.min_frequency = frequency;
        s
    }

    /// Sets the vocabulary size to reach.
    pub fn vocab_size(self, size: usize) -> (b: Self)
        requires
            self.wf(),
        ensures
            b.wf(),
            b.standard() == (TrainerSettings { vocab_size: size, ..self.standard() }),
            b.transition() == self.transition(),
    {
        let mut s = self;
        s.config.standard_config.vocab_size = size;
        s
    }

    /// Sets whether to show progress.
    pub fn show_progress(self, show: bool) -> (b: Self)
        requires
            self.wf(),
        ensures
            b.wf(),
            b.standard() == (TrainerSettings { show_progress: show, ..self.standard() }),
            b.transition() == self.transition(),
    {
        let mut s = self;
        s.config.standard_config.show_progress = show;
        s
    }

    /// Sets the special tokens.
    pub fn special_tokens(self, tokens: Vec<AddedToken>) -> (b: Self)
        requires
            self.wf(),
        ensures
            b.wf(),
            b.standard() == (TrainerSettings { special_tokens: tokens@, ..self.standard() }),
            b.transition() == self.transition(),
    {
        let mut s = self;
        s.config.standard_config.special_tokens = tokens;
        s
    }

    /// Sets the maximum size of the initial alphabet.
    pub fn limit_alphabet(self, limit: usize) -> (b: Self)
        requires
            self.wf(),
        ensures
            b.wf(),
            b.standard() == (TrainerSettings { limit_alphabet: Some(limit), ..self.standard() }),
            b.transition() == self.transition(),
    {
        let mut s = self;
        s.config.standard_config.limit_alphabet = Some(limit);
        s
    }

    /// Sets the characters that the initial alphabet always holds.
    pub fn initial_alphabet(self, alphabet: Vec<char>) -> (b: Self)
        requires
            self.wf(),
        ensures
            b.wf(),
            b.standard() == (TrainerSettings { initial_alphabet: alphabet@, ..self.standard() }),
            b.transition() == self.transition(),
    {
        let mut s = self;
        s.config.standard_config.initial_alphabet = alphabet;
        s
    }

    /// Sets the prefix of tokens that continue a word.
    pub fn continuing_subword_prefix(self, prefix: String) -> (b: Self)
        requires
            self.wf(),
        ensures
            b.wf(),
            b.standard() == (TrainerSettings { prefix: Some(prefix@), ..self.standard() }),
            b.transition() == self.transition(),
    {
        let mut s = self;
        s.config.standard_config.continuing_subword_prefix = Some(prefix);
        s
    }

    /// Sets the suffix of tokens that end a word.
    pub fn end_of_word_suffix(self, suffix: String) -> (b: Self)
        requires
            self.wf(),
        ensures
            b.wf(),
            b.standard() == (TrainerSettings { suffix: Some(suffix@), ..self.standard() }),
            b.transition() == self.transition(),
    {
        let mut s = self;
        s.config.standard_config.end_of_word_suffix = Some(suffix);
        s
    }

    /// Sets the token length from which pairs are no longer counted.
    pub fn max_token_length(self, max_token_length: Option<usize>) -> (b: Self)
        requires
            self.wf(),
        ensures
            b.wf(),
            b.standard() == (TrainerSettings { max_token_length: max_token_length, ..self.standard() }),
            b.transition() == self.transition(),
    {
        let mut s = self;
        s.config.standard_config.max_token_length = max_token_length;
        s
    }

    /// Sets the vocabulary size at which the first stage hands over to the second.
    pub fn transition_point(self, transition_point: usize) -> (b: Self)
        requires
            self.wf(),
        ensures
            b.wf(),
            b.standard() == self.standard(),
            b.transition() == transition_point,
    {
        let mut s = self;
        s.config.transition_point = transition_point;
        s
    }

    /// The trainer with these settings and no words yet.
    pub fn build(self) -> (t: SuperBpeTrainer)
        requires
            self.wf(),
        ensures
            t.wf(),
            t.standard_config@ == self.standard(),
            t.transition_point == self.transition(),
            t.stage1_words().len() == 0,
            t.stage2_words().len() == 0,
    {
        SuperBpeTrainer {
            standard_config: self.config.standard_config,
            transition_point: self.config.transition_point,
            words_stage1: WordCounts::new(),
            words_stage2: WordCounts::new(),
        }
    }
}

/// Trains a two-stage (SuperBPE) model: standard training with whitespace
/// pre-tokenization up to the transition point, then training over whole sequences,
/// across word boundaries, up to the final vocabulary size.
pub struct SuperBpeTrainer {
    /// The standard trainer's settings.
    pub standard_config: BpeTrainer,
    /// The vocabulary size at which the first stage hands over to the second.
    pub transition_point: usize,
    /// The words of the first stage, split at whitespace, with their counts.
    pub words_stage1: WordCounts,
    /// The words of the second stage, whole sequences, with their counts.
    pub words_stage2: WordCounts,
}

impl SuperBpeTrainer {
    pub open spec fn wf(&self) -> bool {
        &&& self.standard_config.words.wf()
        &&& self.words_stage1.wf()
        &&& self.words_stage2.wf()
    }

    /// The words of the first stage (split at whitespace), with their counts.
    pub open spec fn stage1_words(&self) -> Seq<(Seq<char>, u64)> {
        self.words_stage1@
    }

    /// The words of the second stage (whole sequences), with their counts.
    pub open spec fn stage2_words(&self) -> Seq<(Seq<char>, u64)> {
        self.words_stage2@
    }

    /// The words of the first stage.
    pub fn words_stage1(&self) -> (w: &WordCounts)
        requires
            self.wf(),
        ensures
            w.wf(),
            w@ == self.stage1_words(),
    {
        &self.words_stage1
    }

    /// The words of the second stage.
    pub fn words_stage2(&self) -> (w: &WordCounts)
        requires
            self.wf(),
        ensures
            w.wf(),
            w@ == self.stage2_words(),
    {
        &self.words_stage2
    }

    /// The default trainer: the default settings, a transition point of 10000, no words.
    pub fn default() -> (t: Self)
        ensures
            t.wf(),
            t.standard_config@ == BpeTrainer::default_settings(),
            t.transition_point == 10000,
            t.stage1_words().len() == 0,
            t.stage2_words().len() == 0,
    {
        Self::builder().build()
    }

    /// A trainer with the given minimum count, final vocabulary size and transition
    /// point, and otherwise the default settings.
    pub fn new(min_frequency: u64, vocab_size: usize, transition_point: usize) -> (t: Self)
        ensures
            t.wf(),
            t.standard_config@ == (TrainerSettings {
                min_frequency: min_frequency,
                vocab_size: vocab_size,
                ..BpeTrainer::default_settings()
            }),
            t.transition_point == transition_point,
            t.stage1_words().len() == 0,
            t.stage2_words().len() == 0,
    {
        SuperBpeTrainer {
            standard_config: BpeTrainer::new(min_frequency, vocab_size),
            transition_point,
            words_stage1: WordCounts::new(),
            words_stage2: WordCounts::new(),
        }
    }

    /// A builder with the default settings.
    pub fn builder() -> (b: SuperBpeTrainerBuilder)
        ensures
            b.wf(),
            b.standard() == BpeTrainer::default_settings(),
            b.transition() == 10000,
    {
        SuperBpeTrainerBuilder::new()
    }

    /// Whether progress should be shown.
    pub fn should_show_progress(&self) -> (b: bool)
        ensures
            b == self.standard_config.show_progress,
    {
        self.standard_config.show_progress
    }

    /// The model after the second stage, given the model `stage1` after the first: when
    /// the first stage already reached the final vocabulary size, nothing changes;
    /// otherwise the whole sequences are tokenized against the first stage's vocabulary
    /// and merging goes on up to the final size, appending the new merges.
    pub open spec fn continued(&self, stage1: ModelView) -> ModelView {
        let cfg = self.standard_config;
        if stage1.vocab.len() >= cfg.vocab_size {
            stage1
        } else {
            let done = run_merges(
                cfg.limits(),
                initial_training(stage1.vocab, self.stage2_words(), cfg@.prefix, cfg@.suffix),
            );
            ModelView {
                vocab: done.vocab,
                merges: appended_merges(stage1.merges, done.merges, done.merges.len()),
                prefix: if cfg@.prefix is Some {
                    cfg@.prefix
                } else {
                    stage1.prefix
                },
                suffix: if cfg@.suffix is Some {
                    cfg@.suffix
                } else {
                    stage1.suffix
                },
            }
        }
    }

    /// The model that both stages yield with `kept` as the first stage's alphabet.
    pub open spec fn trained(&self, kept: Seq<char>) -> ModelView {
        self.continued(
            self.standard_config.trained_to(self.transition_point, self.standard_config.words@, kept),
        )
    }

    /// A bound on the first stage's vocabulary: the smaller of what merging up to the
    /// transition point allows and what the first-stage words can give.
    pub open spec fn stage1_bound(&self) -> int {
        let cfg = self.standard_config;
        let sb = cfg.start_bound(cfg.words@) as int;
        vstd::math::min(
            vstd::math::max(self.transition_point as int, sb),
            sb + 5 * char_total(cfg.words@, cfg.words@.len()),
        )
    }

    /// What training needs: every token id that the two stages can create fits in
    /// `u32`. The first stage ends within `stage1_bound`; the second adds up to three
    /// affixed forms per distinct character of its words, then merges up to the final
    /// vocabulary size, and in any case by at most five tokens per character of its
    /// words.
    pub open spec fn can_train(&self) -> bool {
        let cfg = self.standard_config;
        let sb = cfg.start_bound(cfg.words@);
        let b = self.stage1_bound() + 3 * word_chars(self.stage2_words()).len();
        &&& sb <= u32::MAX
        &&& self.transition_point <= u32::MAX || sb + 5 * char_total(cfg.words@, cfg.words@.len()) <= u32::MAX
        &&& b <= u32::MAX
        &&& cfg.vocab_size <= u32::MAX || b + 5 * char_total(self.stage2_words(), self.stage2_words().len()) <= u32::MAX
    }

    /// Whether `can_train` holds: the bound on the token ids that training can create
    /// fits in `u32`.
    pub fn ids_fit(&self) -> (b: bool)
        requires
            self.wf(),
        ensures
            b == self.can_train(),
    {
        let cfg = &self.standard_config;
        let none: Vec<char> = Vec::new();
        let a1 = alphabet_size(&cfg.words, &cfg.initial_alphabet);
        let d1 = alphabet_size(&cfg.words, &none);
        let d2 = alphabet_size(&self.words_stage2, &none);
        let c1 = char_count(&cfg.words);
        let c2 = char_count(&self.words_stage2);
        proof {
            assert(none@ =~= Seq::<char>::empty());
        }
        let max: u128 = 0xFFFF_FFFF;
        let sb: u128 = cfg.special_tokens.len() as u128 + a1 as u128 + 3 * (d1 as u128);
        let tp = self.transition_point as u128;
        let high: u128 = if tp >= sb { tp } else { sb };
        let by_words: u128 = sb + 5 * c1;
        let s1: u128 = if high <= by_words { high } else { by_words };
        let b: u128 = s1 + 3 * (d2 as u128);
        let ok = sb <= max && (tp <= max || sb + 5 * c1 <= max) && b <= max && (cfg.vocab_size as u128 <= max
            || b + 5 * c2 <= max);
        proof {
            let ct1 = char_total(cfg.words@, cfg.words@.len());
            let ct2 = char_total(self.stage2_words(), self.stage2_words().len());
            if c1 > max {
                assert(ct1 > max);
            }
            if c2 > max {
                assert(ct2 > max);
            }
        }
        ok
    }

    /// Trains `model` in two stages and returns the special tokens.
    pub fn do_train(&self, model: &mut BPE) -> (r: Vec<AddedToken>)
        requires
            self.wf(),
            self.can_train(),
        ensures
            final(model).wf(),
            r@ == self.standard_config.special_tokens@,
            exists|kept: Seq<char>|
                #![trigger self.trained(kept)]
                valid_alphabet(
                    alphabet_counts(self.standard_config.words@, self.standard_config.initial_alphabet@),
                    self.standard_config.limit_alphabet,
                    kept,
                ) && final(model)@ == self.trained(kept),
    {
        let cfg = &self.standard_config;
        let mut stage1_trainer = cfg.copied();
        stage1_trainer.vocab_size = self.transition_point;
        stage1_trainer.train(model);
        let ghost kept = choose|kept: Seq<char>|
            #![trigger stage1_trainer.trained(stage1_trainer.words@, kept)]
            valid_alphabet(
                alphabet_counts(stage1_trainer.words@, stage1_trainer.initial_alphabet@),
                stage1_trainer.limit_alphabet,
                kept,
            ) && model@ == stage1_trainer.trained(stage1_trainer.words@, kept);
        assert(model@ == cfg.trained_to(self.transition_point, cfg.words@, kept));
        if model.vocab.len() >= cfg.vocab_size {
            assert(model@ == self.trained(kept));
            return copy_tokens(&cfg.special_tokens);
        }
        let ghost stage1 = model@;
        let mut vocab = Vocab::new();
        std::mem::swap(&mut vocab, &mut model.vocab);
        let mut st = start_training(vocab, &self.words_stage2, &cfg.continuing_subword_prefix, &cfg.end_of_word_suffix);
        let settings = MergeSettings {
            vocab_size: cfg.vocab_size,
            min_frequency: cfg.min_frequency,
            prefix: copy_opt_string(&cfg.continuing_subword_prefix),
            max_length: match cfg.max_token_length {
                Some(l) => l,
                None => usize::MAX,
            },
        };
        assert(settings@ == cfg.limits());
        st.run(&settings);
        model.vocab = st.vocab;
        let ghost vocab2 = model.vocab@;
        assert(vocab2 == st@.vocab);
        let nm = st.merges.len();
        let mut i: usize = 0;
        while i < nm
            invariant
                nm == st.merges.len(),
                i <= nm,
                model.merges.wf(),
                model.merges@ == appended_merges(stage1.merges, st.merges@, i as nat),
                model.vocab.wf(),
                model.vocab@ == vocab2,
                model@.prefix == stage1.prefix,
                model@.suffix == stage1.suffix,
            decreases nm - i,
        {
            let (p, id) = st.merges[i];
            if !model.merges.contains(p) {
                let rank = (#[verifier::truncate] (model.merges.len() as u32)).wrapping_add(
                    #[verifier::truncate] (i as u32),
                );
                model.merges.insert(p, (rank, id));
            }
            i = i + 1;
        }
        match &cfg.continuing_subword_prefix {
            Some(prefix) => {
                model.continuing_subword_prefix = Some(prefix.clone());
            },
            None => {},
        }
        match &cfg.end_of_word_suffix {
            Some(suffix) => {
                model.end_of_word_suffix = Some(suffix.clone());
            },
            None => {},
        }
        proof {
            let done = run_merges(cfg.limits(), initial_training(stage1.vocab, self.stage2_words(), cfg@.prefix, cfg@.suffix));
            assert(st@ == done);
            assert(model@.vocab == done.vocab);
            assert(model@.merges == appended_merges(stage1.merges, done.merges, done.merges.len()));
            assert(model@.prefix == (if cfg@.prefix is Some { cfg@.prefix } else { stage1.prefix }));
            assert(model@.suffix == (if cfg@.suffix is Some { cfg@.suffix } else { stage1.suffix }));
            assert(model.vocab.wf());
        }
        assert(model@ == self.trained(kept));
        copy_tokens(&cfg.special_tokens)
    }

    /// Reads the corpus `sequences` twice: each sequence as a whole goes through
    /// `process` into the words of the second stage; its whitespace-split pieces each go
    /// through `process` into the words of the first stage. On success, the standard
    /// trainer holds the first stage's words and keeps every setting, the final
    /// vocabulary size included. On the first error of `process`,
    /// that error (what `process` gives on the first input that fails, in the order in
    /// which feeding hands them out) is returned and the trainer is left as it was; when `process` never fails, neither
    /// does feeding.
    pub fn feed<E, F: Fn(&str) -> Result<Vec<String>, E>>(&mut self, sequences: &Vec<String>, process: F) -> (r: Result<(), E>)
        requires
            old(self).wf(),
            forall|s: &str| call_requires(process, (s,)),
        ensures
            final(self).wf(),
            match r {
                Ok(()) => exists|o1: Seq<Seq<Seq<char>>>, o2: Seq<Seq<Seq<char>>>|
                    #![trigger all_processed::<E, F>(process, all_pieces(strings_view(sequences@)), o1), all_processed::<E, F>(process, strings_view(sequences@), o2)]
                    {
                        &&& all_processed::<E, F>(process, all_pieces(strings_view(sequences@)), o1)
                        &&& all_processed::<E, F>(process, strings_view(sequences@), o2)
                        &&& final(self).stage1_words() == count_all(Seq::empty(), o1.flatten())
                        &&& final(self).stage2_words() == count_all(Seq::empty(), o2.flatten())
                        &&& final(self).standard_config@ == (TrainerSettings {
                            words: count_all(Seq::empty(), o1.flatten()),
                            ..old(self).standard_config@
                        })
                        &&& final(self).transition_point == old(self).transition_point
                    },
                Err(_) => *final(self) == *old(self),
            },
            r is Err ==> exists|j: int, a: &str, res: Result<Vec<String>, E>|
                #![trigger call_ensures(process, (a,), res), fails_first::<E, F>(process, strings_view(sequences@), a@, j)]
                call_ensures(process, (a,), res) && res is Err && res->Err_0 == r->Err_0
                    && fails_first::<E, F>(process, strings_view(sequences@), a@, j),
            (forall|a: &str, res: Result<Vec<String>, E>| #[trigger] call_ensures(process, (a,), res) ==> res is Ok)
                ==> r is Ok,
    {
        let ghost seqs = strings_view(sequences@);
        let mut words_stage1 = WordCounts::new();
        let mut words_stage2 = WordCounts::new();
        let ghost mut o1: Seq<Seq<Seq<char>>> = Seq::empty();
        let ghost mut o2: Seq<Seq<Seq<char>>> = Seq::empty();
        let class = WordClass::new();
        let n = sequences.len();
        let mut i: usize = 0;
        while i < n
            invariant
                class.wf(),
                n == sequences.len(),
                seqs == strings_view(sequences@),
                i <= n,
                forall|s: &str| call_requires(process, (s,)),
                self.wf(),
                *self == *old(self),
                words_stage1.wf(),
                words_stage2.wf(),
                all_processed::<E, F>(process, all_pieces(seqs.take(i as int)), o1),
                all_processed::<E, F>(process, seqs.take(i as int), o2),
                words_stage1@ == count_all(Seq::empty(), o1.flatten()),
                words_stage2@ == count_all(Seq::empty(), o2.flatten()),
            decreases n - i,
        {
            let sequence = sequences[i].as_str();
            let toks = match process(sequence) {
                Ok(v) => v,
                Err(e) => {
                    proof {
                        assert(sequence@ == strings_view(sequences@)[i as int]);
                        assert(call_ensures(process, (sequence,), Err::<Vec<String>, E>(e)));
                        assert(all_processed::<E, F>(process, all_pieces(seqs.take(i as int)), o1));
                        assert(all_processed::<E, F>(process, seqs.take(i as int), o2));
                        assert(fails_first::<E, F>(process, seqs, sequence@, i as int));
                        if forall|a: &str, res: Result<Vec<String>, E>| #[trigger] call_ensures(process, (a,), res) ==> res is Ok {
                            assert(call_ensures(process, (sequence,), Err::<Vec<String>, E>(e)));
                            assert(false);
                        }
                    }
                    return Err(e);
                },
            };
            proof {
                assert(may_process::<E, F>(process, seqs[i as int], strings_view(toks@)));
            }
            let ghost o2_before = o2;
            count_into(&mut words_stage2, &toks, Ghost(o2.flatten()));
            proof {
                assert(seqs.take(i + 1) =~= seqs.take(i as int).push(seqs[i as int]));
                o2.lemma_flatten_push(strings_view(toks@));
                let prev = o2;
                o2 = o2.push(strings_view(toks@));
                assert forall|j: int| 0 <= j < i + 1 implies #[trigger] may_process::<E, F>(process, seqs.take(i + 1)[j], o2[j]) by {
                    if j < i {
                        assert(o2[j] == prev[j]);
                        assert(seqs.take(i + 1)[j] == seqs.take(i as int)[j]);
                    }
                }
            }
            let pieces = split_with(&class, sequence);
            let np = pieces.len();
            let mut k: usize = 0;
            let ghost o1_start = o1;
            while k < np
                invariant
                    class.wf(),
                    np == pieces.len(),
                    k <= np,
                    i < n,
                    n == sequences.len(),
                    seqs == strings_view(sequences@),
                    strings_view(pieces@) == word_pieces(seqs[i as int]),
                    forall|s: &str| call_requires(process, (s,)),
                    self.wf(),
                    *self == *old(self),
                    words_stage1.wf(),
                    all_processed::<E, F>(process, all_pieces(seqs.take(i as int)), o1_start),
                    all_processed::<E, F>(process, seqs.take(i as int), o2_before),
                    may_process::<E, F>(process, seqs[i as int], strings_view(toks@)),
                    o1.len() == o1_start.len() + k,
                    o1.take(o1_start.len() as int) == o1_start,
                    forall|j: int| 0 <= j < k ==> #[trigger] may_process::<E, F>(process, strings_view(pieces@)[j], o1[o1_start.len() + j]),
                    words_stage1@ == count_all(Seq::empty(), o1.flatten()),
                decreases np - k,
            {
                let piece = pieces[k].as_str();
                let toks1 = match process(piece) {
                    Ok(v) => v,
                    Err(e) => {
                        proof {
                            assert(pieces@[k as int]@ == strings_view(pieces@)[k as int]);
                            assert(word_pieces(strings_view(sequences@)[i as int])[k as int] == piece@);
                            assert(word_pieces(strings_view(sequences@)[i as int]).contains(piece@));
                            assert(call_ensures(process, (piece,), Err::<Vec<String>, E>(e)));
                            let o3 = o1.skip(o1_start.len() as int);
                            let wp = word_pieces(seqs[i as int]);
                            assert forall|q: int| 0 <= q < wp.take(k as int).len()
                                implies #[trigger] may_process::<E, F>(process, wp.take(k as int)[q], o3[q]) by {
                                assert(wp.take(k as int)[q] == strings_view(pieces@)[q]);
                                assert(o3[q] == o1[o1_start.len() + q]);
                                assert(may_process::<E, F>(process, strings_view(pieces@)[q], o1[o1_start.len() + q]));
                            }
                            assert(all_processed::<E, F>(process, wp.take(k as int), o3));
                            assert(fails_first::<E, F>(process, seqs, piece@, i as int));
                        if forall|a: &str, res: Result<Vec<String>, E>| #[trigger] call_ensures(process, (a,), res) ==> res is Ok {
                            assert(call_ensures(process, (piece,), Err::<Vec<String>, E>(e)));
                            assert(false);
                        }
                        }
                        return Err(e);
                    },
                };
                proof {
                    assert(may_process::<E, F>(process, strings_view(pieces@)[k as int], strings_view(toks1@)));
                }
                count_into(&mut words_stage1, &toks1, Ghost(o1.flatten()));
                proof {
                    o1.lemma_flatten_push(strings_view(toks1@));
                    let prev = o1;
                    o1 = o1.push(strings_view(toks1@));
                    assert(o1.take(o1_start.len() as int) =~= prev.take(o1_start.len() as int));
                    assert forall|j: int| 0 <= j < k + 1 implies #[trigger] may_process::<E, F>(process, strings_view(pieces@)[j], o1[o1_start.len() + j]) by {
                        if j < k {
                            assert(o1[o1_start.len() + j] == prev[o1_start.len() + j]);
                        }
                    }
                }
                k = k + 1;
            }
            proof {
                lemma_all_pieces_push(seqs, i as int);
                let ap = all_pieces(seqs.take(i + 1));
                let prevp = all_pieces(seqs.take(i as int));
                assert(strings_view(pieces@) == word_pieces(seqs[i as int]));
                assert(ap.len() == prevp.len() + np);
                assert forall|j: int| 0 <= j < ap.len() implies #[trigger] may_process::<E, F>(process, ap[j], o1[j]) by {
                    if j < o1_start.len() {
                        assert(o1[j] == o1_start[j]);
                        assert(ap[j] == prevp[j]);
                    } else {
                        let jj = j - o1_start.len();
                        assert(ap[j] == strings_view(pieces@)[jj]);
                        assert(may_process::<E, F>(process, strings_view(pieces@)[jj], o1[o1_start.len() + jj]));
                    }
                }
            }
            i = i + 1;
        }
        assert(seqs.take(n as int) =~= seqs);
        self.words_stage1 = words_stage1.copied();
        self.words_stage2 = words_stage2;
        let cfg = &self.standard_config;
        let trainer = BpeTrainer {
            min_frequency: cfg.min_frequency,
            vocab_size: cfg.vocab_size,
            show_progress: cfg.show_progress,
            special_tokens: copy_tokens(&cfg.special_tokens),
            limit_alphabet: cfg.limit_alphabet,
            initial_alphabet: cfg.initial_alphabet.clone(),
            continuing_subword_prefix: copy_opt_string(&cfg.continuing_subword_prefix),
            end_of_word_suffix: copy_opt_string(&cfg.end_of_word_suffix),
            max_token_length: cfg.max_token_length,
            words: words_stage1,
        };
        self.standard_config = trainer;
        Ok(())
    }

    /// Trains `model` in two stages and returns the special tokens.
    pub fn train(&self, model: &mut BPE) -> (r: Vec<AddedToken>)
        requires
            self.wf(),
            self.can_train(),
        ensures
            final(model).wf(),
            r@ == self.standard_config.special_tokens@,
            exists|kept: Seq<char>|
                #![trigger self.trained(kept)]
                valid_alphabet(
                    alphabet_counts(self.standard_config.words@, self.standard_config.initial_alphabet@),
                    self.standard_config.limit_alphabet,
                    kept,
                ) && final(model)@ == self.trained(kept),
    {
        self.do_train(model)
    }
}

/// The number of characters in all words of `wc`, or some number above `u32::MAX` when
/// that number is above it.
fn char_count(wc: &WordCounts) -> (n: u128)
    requires
        wc.wf(),
    ensures
        n <= 0xFFFF_FFFF ==> n == char_total(wc@, wc@.len()),
        n > 0xFFFF_FFFF ==> char_total(wc@, wc@.len()) > 0xFFFF_FFFF,
        n <= 0x1_FFFF_FFFF_FFFF_FFFF,
{
    let len = wc.len();
    let mut total: u128 = 0;
    let mut i: usize = 0;
    while i < len
        invariant
            wc.wf(),
            len == wc@.len(),
            i <= len,
            total == char_total(wc@, i as nat),
            total <= 0xFFFF_FFFF,
        decreases len - i,
    {
        let (w, _) = wc.get(i);
        let k = w.as_str().unicode_len();
        let next = total + k as u128;
        if next > 0xFFFF_FFFF {
            proof {
                crate::tokenize::lemma_char_total_mono(wc@, (i + 1) as nat, len as nat);
            }
            return next;
        }
        total = next;
        i = i + 1;
    }
    total
}

/// Counts one sighting of each of `toks`, in order, into `t`, which holds the counts of
/// the words `before`.
fn count_into(t: &mut WordCounts, toks: &Vec<String>, Ghost(before): Ghost<Seq<Seq<char>>>)
    requires
        old(t).wf(),
        old(t)@ == count_all(Seq::empty(), before),
    ensures
        final(t).wf(),
        final(t)@ == count_all(Seq::empty(), before + strings_view(toks@)),
{
    let n = toks.len();
    let mut k: usize = 0;
    while k < n
        invariant
            n == toks.len(),
            k <= n,
            t.wf(),
            t@ == count_all(Seq::empty(), before + strings_view(toks@).take(k as int)),
        decreases n - k,
    {
        t.count(toks[k].clone());
        proof {
            let a = before + strings_view(toks@).take(k as int);
            let b = before + strings_view(toks@).take(k + 1);
            assert(b.drop_last() =~= a);
            assert(b.last() == toks@[k as int]@);
        }
        k = k + 1;
    }
    assert(strings_view(toks@).take(n as int) =~= strings_view(toks@));
}

/// The pieces of the first `i + 1` sequences are those of the first `i`, then those of
/// sequence `i`.
proof fn lemma_all_pieces_push(seqs: Seq<Seq<char>>, i: int)
    requires
        0 <= i < seqs.len(),
    ensures
        all_pieces(seqs.take(i + 1)) == all_pieces(seqs.take(i)) + word_pieces(seqs[i]),
{
    let f = |s: Seq<char>| word_pieces(s);
    assert(seqs.take(i + 1).map_values(f) =~= seqs.take(i).map_values(f).push(word_pieces(seqs[i])));
    seqs.take(i).map_values(f).lemma_flatten_push(word_pieces(seqs[i]));
}

} // verus!
