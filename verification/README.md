# super_bpe

A verified two-stage (SuperBPE) byte-pair-encoding trainer.

Training runs in two stages. The first is standard BPE over words split at
whitespace, up to a transition point; the second continues merging over whole
sequences, across word boundaries, up to the final vocabulary size, so that it can
learn "superword" tokens such as `" of the"`.

## Layout

- `src/` is the library, checked by Verus:
  - `super_trainer.rs`: the builder, the trainer, `feed` and the two-stage `do_train`;
  - `trainer.rs`: the standard (first-stage) trainer;
  - `engine.rs`: the merge loop shared by both stages, stated as a step function
    `merge_step` and its closure `run_merges`, and run by `MergeState`;
  - `tokenize.rs`, `alphabet.rs`, `pretokenize.rs`: turning words into symbols,
    choosing the alphabet, and splitting text at word boundaries. Word characters
    are letters, marks, numbers and connector punctuation (the Unicode meaning of
    `\w` in regular expressions); the `regex-syntax` crate builds that class from
    `[\p{L}\p{M}\p{N}\p{Pc}]`, and the library looks characters up in it;
  - `word.rs`, `word_counts.rs`, `vocab.rs`, `pairs.rs`, `queue.rs`, `model.rs`,
    `text.rs`: the data structures, each with a mathematical view;
  - `laws.rs`, `spelling.rs`, `merge_proofs.rs`: properties of the whole, proved.
- `tests/`: tests run against the compiled library.
- `app/`: serializable copies of the trainer types and an iterator-based `feed`.
