//! Laws of the library: what holds of every input, and across operations.

use vstd::prelude::*;
use crate::pretokenize::{split_words, word_pieces, is_word_character, in_ranges, class_ranges_of};
use crate::queue::{Candidate, ranks_above, top_index, lemma_top_index};
use crate::word_counts::{count_all, count_word, find_word, lemma_find_word};
use crate::alphabet::{
    valid_alphabet, alphabet_counts, add_chars, word_chars, lemma_add_chars_len, lemma_kept_len, char_list, find_char,
    lemma_find_char, distinct_chars, alphabet_excess, lemma_count_chars_distinct,
};
use crate::engine::{Limits, Training, run_merges, training_wf, merge_step, push_candidates, candidate_ok, apply_merges, strip_prefix};
use crate::merge_proofs::{
    merge_formed, merges_formed, lemma_merge_formed_extend, lemma_run_merges_formed, lemma_run_merges_vocab,
    lemma_run_merges_budget,
};
use crate::model::{ModelView, token_contents, find_merge, lemma_find_merge, merge_insert};
use crate::pairs::{Pair, add_count, count_or_zero, table_add, find_pair, lemma_find_pair};
use crate::engine::{count_words, count_windows, windows};
use crate::word::{Symbol, merge_symbols};
use crate::super_trainer::{SuperBpeTrainer, appended_merges};
use crate::tokenize::{initial_training, tokenize_words, tokenize_chars, char_token, char_total, lemma_initial_training_wf, lemma_tokenize_words};
use crate::trainer::{BpeTrainer, add_strings, ranked_merges};
use crate::vocab::add_token;

verus! {

broadcast use vstd::seq_lib::group_seq_properties;

proof fn lemma_split_words_concat(w: Seq<char>, n: nat)
    requires
        n <= w.len(),
    ensures
        split_words(w, n).flatten() == w.take(n as int),
        forall|k: int| 0 <= k < split_words(w, n).len() ==> (#[trigger] split_words(w, n)[k]).len() > 0,
        n > 0 ==> split_words(w, n).len() > 0,
    decreases n,
{
    if n > 0 {
        lemma_split_words_concat(w, (n - 1) as nat);
        let p = split_words(w, (n - 1) as nat);
        let c = w[n - 1];
        assert(w.take(n as int) =~= w.take(n - 1).push(c));
        if n >= 2 && crate::pretokenize::is_word_character(w[n - 2]) && !crate::pretokenize::is_word_character(c) {
            p.lemma_flatten_push(seq![c]);
        } else if p.len() == 0 {
            assert(n == 1);
            seq![seq![c]].lemma_flatten_singleton();
        } else {
            let q = p.update(p.len() - 1, p.last().push(c));
            assert(p =~= p.drop_last().push(p.last()));
            assert(q =~= p.drop_last().push(p.last().push(c)));
            p.drop_last().lemma_flatten_push(p.last());
            p.drop_last().lemma_flatten_push(p.last().push(c));
            let res = split_words(w, n);
            assert forall|k: int| 0 <= k < res.len() implies (#[trigger] res[k]).len() > 0 by {
                if k < p.len() - 1 {
                    assert(res[k] == p[k]);
                }
            }
        }
    }
}

/// Splitting on whitespace loses and adds nothing: the pieces, joined, give the text
/// back, and no piece is empty.
pub proof fn law_pieces_join_to_text(w: Seq<char>)
    ensures
        word_pieces(w).flatten() == w,
        forall|k: int| 0 <= k < word_pieces(w).len() ==> (#[trigger] word_pieces(w)[k]).len() > 0,
{
    lemma_split_words_concat(w, w.len());
    assert(w.take(w.len() as int) =~= w);
}

/// The word characters are exactly the letters, marks, numbers and connector
/// punctuation, as `regex_syntax` reads the Unicode categories `L`, `M`, `N` and `Pc`:
/// every letter (cased or not: Chinese, Arabic and Thai letters too), mark, number and
/// connector is one, and nothing else is.
pub proof fn law_word_characters(c: char)
    ensures
        in_ranges(class_ranges_of("\\p{L}"@), c) ==> is_word_character(c),
        in_ranges(class_ranges_of("\\p{M}"@), c) ==> is_word_character(c),
        in_ranges(class_ranges_of("\\p{N}"@), c) ==> is_word_character(c),
        in_ranges(class_ranges_of("\\p{Pc}"@), c) ==> is_word_character(c),
        is_word_character(c) ==> in_ranges(class_ranges_of("\\p{L}"@), c) || in_ranges(class_ranges_of("\\p{M}"@), c)
            || in_ranges(class_ranges_of("\\p{N}"@), c) || in_ranges(class_ranges_of("\\p{Pc}"@), c),
{
}

/// Splitting goes by word characters: a character that is not a word character and
/// follows a letter (or any word character) starts a piece of its own; a character
/// after a non-word character, or a word character, extends the last piece.
pub proof fn law_pieces_break_after_letters(w: Seq<char>, n: nat)
    requires
        2 <= n <= w.len(),
    ensures
        is_word_character(w[n - 2]) && !is_word_character(w[n - 1])
            ==> split_words(w, n) == split_words(w, (n - 1) as nat).push(seq![w[n - 1]]),
        in_ranges(class_ranges_of("\\p{L}"@), w[n - 2]) && !is_word_character(w[n - 1])
            ==> split_words(w, n) == split_words(w, (n - 1) as nat).push(seq![w[n - 1]]),
        !(is_word_character(w[n - 2]) && !is_word_character(w[n - 1])) ==> split_words(w, n).len() == split_words(w, (n - 1) as nat).len()
            && split_words(w, n).last() == split_words(w, (n - 1) as nat).last().push(w[n - 1]),
{
    lemma_split_words_concat(w, (n - 1) as nat);
    let p = split_words(w, (n - 1) as nat);
    assert(p.len() > 0);
}

/// The number of times `w` occurs in `ws`.
pub open spec fn occurrences(ws: Seq<Seq<char>>, w: Seq<char>) -> nat
    decreases ws.len(),
{
    if ws.len() == 0 {
        0
    } else {
        occurrences(ws.drop_last(), w) + if ws.last() == w {
            1nat
        } else {
            0nat
        }
    }
}

/// Counting the words `ws` lists each of them once, with the number of its occurrences
/// (wrapping in `u64`), and nothing else.
pub proof fn law_counts_are_occurrences(ws: Seq<Seq<char>>)
    ensures
        ({
            let t = count_all(Seq::empty(), ws);
            &&& forall|a: int, b: int| 0 <= a < t.len() && 0 <= b < t.len() && a != b ==> #[trigger] t[a].0 != #[trigger] t[b].0
            &&& forall|j: int| 0 <= j < t.len() ==> (#[trigger] t[j]).1 == occurrences(ws, t[j].0) % 0x1_0000_0000_0000_0000
                && occurrences(ws, t[j].0) > 0
            &&& forall|w: Seq<char>| occurrences(ws, w) > 0 ==> find_word(t, w) >= 0
        }),
    decreases ws.len(),
{
    if ws.len() > 0 {
        law_counts_are_occurrences(ws.drop_last());
        let prev = count_all(Seq::empty(), ws.drop_last());
        let w = ws.last();
        lemma_find_word(prev, w);
        let t = count_all(Seq::empty(), ws);
        assert(t == count_word(prev, w));
        let f = find_word(prev, w);
        assert forall|j: int| 0 <= j < t.len() implies (#[trigger] t[j]).1 == occurrences(ws, t[j].0) % 0x1_0000_0000_0000_0000
            && occurrences(ws, t[j].0) > 0 by {
            if j < prev.len() && j != f {
                assert(t[j] == prev[j]);
            } else if j == f {
                let o = occurrences(ws.drop_last(), w);
                assert(prev[j].1 == o % 0x1_0000_0000_0000_0000);
                assert(vstd::wrapping::u64_specs::wrapping_add(prev[j].1, 1) == (o + 1) % 0x1_0000_0000_0000_0000) by {
                    vstd::arithmetic::div_mod::lemma_add_mod_noop(o as int, 1, 0x1_0000_0000_0000_0000);
                }
            } else {
                assert(occurrences(ws.drop_last(), w) == 0);
            }
        }
        assert forall|x: Seq<char>| occurrences(ws, x) > 0 implies find_word(t, x) >= 0 by {
            lemma_find_word(t, x);
            if x != w {
                lemma_find_word(prev, x);
                if find_word(prev, x) >= 0 {
                    assert(t[find_word(prev, x)].0 == x);
                }
            } else {
                if f >= 0 {
                    assert(t[f].0 == x);
                } else {
                    assert(t[prev.len() as int].0 == x);
                }
            }
        }
        assert forall|a: int, b: int| 0 <= a < t.len() && 0 <= b < t.len() && a != b implies #[trigger] t[a].0 != #[trigger] t[b].0 by {
            if f < 0 {
                if a == prev.len() {
                    assert(t[b] == prev[b]);
                } else if b == prev.len() {
                    assert(t[a] == prev[a]);
                } else {
                    assert(t[a] == prev[a] && t[b] == prev[b]);
                }
            } else {
                if a != f {
                    assert(t[a] == prev[a]);
                }
                if b != f {
                    assert(t[b] == prev[b]);
                }
            }
        }
    }
}

/// The order in which candidates leave the queue is a strict total order on their
/// (count, pair) keys: never reflexive, transitive, and any two candidates with
/// different keys are ordered one way or the other.
pub proof fn law_candidate_order(a: Candidate, b: Candidate, c: Candidate)
    ensures
        !ranks_above(a, a),
        ranks_above(a, b) && ranks_above(b, c) ==> ranks_above(a, c),
        ranks_above(a, b) ==> !ranks_above(b, a),
        (a.count != b.count || a.pair != b.pair) ==> ranks_above(a, b) || ranks_above(b, a),
{
}

/// Every merge of a model names known tokens, and its new token is the first token of
/// its pair followed by the second without the continuing-subword prefix.
pub open spec fn model_merges_formed(m: ModelView, prefix: Option<Seq<char>>) -> bool {
    forall|j: int| 0 <= j < m.merges.len() ==> merge_formed(prefix, m.vocab, #[trigger] m.merges[j].0, m.merges[j].1.1)
}

proof fn lemma_add_token_distinct(v: Seq<Seq<char>>, s: Seq<char>)
    requires
        v.no_duplicates(),
    ensures
        add_token(v, s).0.no_duplicates(),
        add_token(v, s).0.len() <= v.len() + 1,
{
    if !v.contains(s) {
        let w = add_token(v, s).0;
        assert forall|a: int, b: int| 0 <= a < w.len() && 0 <= b < w.len() && a != b implies w[a] != w[b] by {
            if a == v.len() {
                assert(w[b] == v[b]);
            } else if b == v.len() {
                assert(w[a] == v[a]);
            }
        }
    }
}

proof fn lemma_add_strings(contents: Seq<Seq<char>>, n: nat)
    requires
        n <= contents.len(),
    ensures
        add_strings(Seq::empty(), contents, n).no_duplicates(),
        add_strings(Seq::empty(), contents, n).len() <= n,
    decreases n,
{
    if n > 0 {
        lemma_add_strings(contents, (n - 1) as nat);
        lemma_add_token_distinct(add_strings(Seq::empty(), contents, (n - 1) as nat), contents[n - 1]);
    }
}

proof fn lemma_add_chars_distinct(v: Seq<Seq<char>>, kept: Seq<char>, m: nat)
    requires
        v.no_duplicates(),
        m <= kept.len(),
    ensures
        add_chars(v, kept, m).no_duplicates(),
    decreases m,
{
    if m > 0 {
        lemma_add_chars_distinct(v, kept, (m - 1) as nat);
        lemma_add_token_distinct(add_chars(v, kept, (m - 1) as nat), seq![kept[m - 1]]);
    }
}

/// Ranking merges keeps only merges that were recorded.
proof fn lemma_ranked_formed(prefix: Option<Seq<char>>, v: Seq<Seq<char>>, merges: Seq<(Pair, u32)>, n: nat)
    requires
        n <= merges.len(),
        merges_formed(prefix, v, merges),
    ensures
        forall|j: int| 0 <= j < ranked_merges(merges, n).len()
            ==> merge_formed(prefix, v, #[trigger] ranked_merges(merges, n)[j].0, ranked_merges(merges, n)[j].1.1),
    decreases n,
{
    if n > 0 {
        lemma_ranked_formed(prefix, v, merges, (n - 1) as nat);
        let acc = ranked_merges(merges, (n - 1) as nat);
        let p = merges[n - 1].0;
        lemma_find_merge(acc, p);
        assert(merge_formed(prefix, v, merges[n - 1].0, merges[n - 1].1));
        let res = ranked_merges(merges, n);
        assert forall|j: int| 0 <= j < res.len() implies merge_formed(prefix, v, #[trigger] res[j].0, res[j].1.1) by {
            if j < acc.len() && j != find_merge(acc, p) {
                assert(res[j] == acc[j]);
            }
        }
    }
}

/// Appending merges keeps the earlier entries and adds only recorded merges.
proof fn lemma_appended_formed(
    prefix: Option<Seq<char>>,
    v: Seq<Seq<char>>,
    m: Seq<(Pair, (u32, u32))>,
    merges: Seq<(Pair, u32)>,
    n: nat,
)
    requires
        n <= merges.len(),
        merges_formed(prefix, v, merges),
        forall|j: int| 0 <= j < m.len() ==> merge_formed(prefix, v, #[trigger] m[j].0, m[j].1.1),
    ensures
        forall|j: int| 0 <= j < appended_merges(m, merges, n).len()
            ==> merge_formed(prefix, v, #[trigger] appended_merges(m, merges, n)[j].0, appended_merges(m, merges, n)[j].1.1),
        appended_merges(m, merges, n).len() >= m.len(),
        appended_merges(m, merges, n).take(m.len() as int) == m,
    decreases n,
{
    if n == 0 {
        assert(m.take(m.len() as int) =~= m);
    } else {
        lemma_appended_formed(prefix, v, m, merges, (n - 1) as nat);
        let acc = appended_merges(m, merges, (n - 1) as nat);
        let p = merges[n - 1].0;
        lemma_find_merge(acc, p);
        assert(merge_formed(prefix, v, merges[n - 1].0, merges[n - 1].1));
        let res = appended_merges(m, merges, n);
        if find_merge(acc, p) < 0 {
            assert(res.take(m.len() as int) =~= acc.take(m.len() as int));
            assert forall|j: int| 0 <= j < res.len() implies merge_formed(prefix, v, #[trigger] res[j].0, res[j].1.1) by {
                if j < acc.len() {
                    assert(res[j] == acc[j]);
                }
            }
        }
    }
}

/// What training from scratch yields, for any alphabet the limit allows: distinct
/// tokens, no more of them than the larger of the target size and the start bound,
/// nor than the start bound plus five per character of the words, and merges that are
/// formed.
pub proof fn law_first_stage(cfg: BpeTrainer, size: usize, wc: Seq<(Seq<char>, u64)>, kept: Seq<char>)
    requires
        cfg.start_bound(wc) <= u32::MAX,
        size <= u32::MAX || cfg.start_bound(wc) + 5 * char_total(wc, wc.len()) <= u32::MAX,
        forall|i: int| 0 <= i < wc.len() ==> (#[trigger] wc[i]).0.len() <= usize::MAX,
        valid_alphabet(alphabet_counts(wc, cfg.initial_alphabet@), cfg.limit_alphabet, kept),
    ensures
        ({
            let m = cfg.trained_to(size, wc, kept);
            &&& m.vocab.no_duplicates()
            &&& m.vocab.len() <= vstd::math::max(size as int, cfg.start_bound(wc) as int)
            &&& m.vocab.len() <= cfg.start_bound(wc) + 5 * char_total(wc, wc.len())
            &&& model_merges_formed(m, cfg@.prefix)
            &&& m.prefix == cfg@.prefix
            &&& m.suffix == cfg@.suffix
        }),
{
    let specials = add_strings(Seq::empty(), token_contents(cfg.special_tokens@), cfg.special_tokens@.len());
    lemma_add_strings(token_contents(cfg.special_tokens@), cfg.special_tokens@.len());
    let start = add_chars(specials, kept, kept.len());
    lemma_add_chars_distinct(specials, kept, kept.len());
    lemma_add_chars_len(specials, kept, kept.len());
    lemma_kept_len(wc, cfg.initial_alphabet@, cfg.limit_alphabet, kept);
    let pre = cfg.continuing_subword_prefix.deep_view();
    let suf = cfg.end_of_word_suffix.deep_view();
    lemma_initial_training_wf(start, wc, pre, suf);
    let init = initial_training(start, wc, pre, suf);
    let lim = cfg.limits_to(size);
    assert(training_wf(lim, init));
    lemma_run_merges_vocab(lim, init);
    lemma_run_merges_budget(lim, init);
    assert(merges_formed(pre, init.vocab, init.merges));
    lemma_run_merges_formed(lim, init);
    let done = run_merges(lim, init);
    lemma_ranked_formed(pre, done.vocab, done.merges, done.merges.len());
}

proof fn lemma_tokenize_chars_plain(v: Seq<Seq<char>>, w: Seq<char>, j: nat)
    ensures
        tokenize_chars(v, w, None, None, j).0 == v,
    decreases j,
{
    if j > 0 {
        lemma_tokenize_chars_plain(v, w, (j - 1) as nat);
        let c = w[j - 1];
        assert(char_token(c, j - 1, w.len() as int, None, None) == seq![c]);
    }
}

proof fn lemma_tokenize_words_plain(v: Seq<Seq<char>>, wc: Seq<(Seq<char>, u64)>, n: nat)
    ensures
        tokenize_words(v, wc, None, None, n).0 == v,
    decreases n,
{
    if n > 0 {
        lemma_tokenize_words_plain(v, wc, (n - 1) as nat);
        lemma_tokenize_chars_plain(v, wc[n - 1].0, wc[n - 1].0.len());
    }
}

/// Appending `n` merges adds at most `n` entries; when no rank can wrap, every added
/// entry is ranked at or after the entries that were there before.
proof fn lemma_appended_ranks(m: Seq<(Pair, (u32, u32))>, merges: Seq<(Pair, u32)>, n: nat)
    requires
        n <= merges.len(),
        m.len() + 2 * n <= u32::MAX,
    ensures
        appended_merges(m, merges, n).len() <= m.len() + n,
        forall|j: int| m.len() <= j < appended_merges(m, merges, n).len()
            ==> (#[trigger] appended_merges(m, merges, n)[j]).1.0 >= m.len(),
    decreases n,
{
    if n > 0 {
        lemma_appended_ranks(m, merges, (n - 1) as nat);
        let acc = appended_merges(m, merges, (n - 1) as nat);
        let p = merges[n - 1].0;
        lemma_find_merge(acc, p);
        if find_merge(acc, p) < 0 {
            let rank = vstd::wrapping::u32_specs::wrapping_add(acc.len() as u32, (n - 1) as u32);
            assert(rank == acc.len() + (n - 1));
            let res = appended_merges(m, merges, n);
            assert(res == acc.push((p, (rank, merges[n - 1].1))));
            assert forall|j: int| m.len() <= j < res.len() implies (#[trigger] res[j]).1.0 >= m.len() by {
                if j < acc.len() {
                    assert(res[j] == acc[j]);
                }
            }
        }
    }
}

/// A round that merges takes a best candidate: the pair it records comes from a queued
/// candidate that no other queued candidate ranks above (the highest count, ties going
/// to the smaller pair), whose count is current, at least one and at least the minimum
/// count.
pub proof fn law_merge_takes_best(lim: Limits, s: Training)
    requires
        training_wf(lim, s),
        merge_step(lim, s) is Some,
        merge_step(lim, s)->0.merges.len() > s.merges.len(),
    ensures
        exists|k: int|
            #![trigger s.queue[k]]
            0 <= k < s.queue.len() && merge_step(lim, s)->0.merges.last().0 == s.queue[k].pair
                && (forall|j: int| 0 <= j < s.queue.len() ==> !ranks_above(#[trigger] s.queue[j], s.queue[k]))
                && s.queue[k].count == s.pair_counts[s.queue[k].pair] as u64
                && s.queue[k].count >= 1 && s.queue[k].count >= lim.min_frequency,
{
    let k = top_index(s.queue);
    lemma_top_index(s.queue);
    assert(s.queue[k].pair == merge_step(lim, s)->0.merges.last().0);
}

/// Whether the symbols `w` hold the pair `p` as two neighbours.
pub open spec fn holds_pair(w: Seq<Symbol>, p: Pair) -> bool {
    exists|j: int| #![trigger w[j]] 0 <= j && j + 1 < w.len() && w[j].c == p.0 && w[j + 1].c == p.1
}

proof fn lemma_merge_symbols_clears(prev: Option<Symbol>, s: Seq<Symbol>, c1: u32, c2: u32, r: u32, max_length: usize)
    requires
        r != c1,
        r != c2,
    ensures
        !holds_pair(merge_symbols(prev, s, c1, c2, r, max_length).0, (c1, c2)),
        merge_symbols(prev, s, c1, c2, r, max_length).0.len() > 0 ==> s.len() > 0
            && (merge_symbols(prev, s, c1, c2, r, max_length).0[0] == s[0]
            || merge_symbols(prev, s, c1, c2, r, max_length).0[0].c == r),
    decreases s.len(),
{
    let res = merge_symbols(prev, s, c1, c2, r, max_length).0;
    if s.len() == 0 {
    } else if s.len() >= 2 && s[0].c == c1 && s[1].c == c2 {
        let new = Symbol { c: r, len: (s[0].len + s[1].len) as usize };
        lemma_merge_symbols_clears(Some(new), s.skip(2), c1, c2, r, max_length);
        let rr = merge_symbols(Some(new), s.skip(2), c1, c2, r, max_length).0;
        assert(res == seq![new] + rr);
        if holds_pair(res, (c1, c2)) {
            let j = choose|j: int| #![trigger res[j]] 0 <= j && j + 1 < res.len() && res[j].c == c1 && res[j + 1].c == c2;
            if j == 0 {
                assert(res[0] == new);
            } else {
                assert(res[j] == rr[j - 1] && res[j + 1] == rr[j]);
                assert(rr[j - 1].c == c1);
                assert(holds_pair(rr, (c1, c2)));
            }
        }
    } else {
        let rest = s.drop_first();
        lemma_merge_symbols_clears(Some(s[0]), rest, c1, c2, r, max_length);
        let rr = merge_symbols(Some(s[0]), rest, c1, c2, r, max_length).0;
        assert(res == seq![s[0]] + rr);
        if holds_pair(res, (c1, c2)) {
            let j = choose|j: int| #![trigger res[j]] 0 <= j && j + 1 < res.len() && res[j].c == c1 && res[j + 1].c == c2;
            if j == 0 {
                assert(res[0] == s[0] && res[1] == rr[0]);
                assert(rr[0] == rest[0] || rr[0].c == r);
                assert(rest[0] == s[1]);
            } else {
                assert(res[j] == rr[j - 1] && res[j + 1] == rr[j]);
                assert(rr[j - 1].c == c1);
                assert(holds_pair(rr, (c1, c2)));
            }
        }
    }
}

proof fn lemma_apply_merges_clears(
    ws: Seq<Seq<Symbol>>,
    pos: Seq<usize>,
    c1: u32,
    c2: u32,
    r: u32,
    max_length: usize,
    n: nat,
)
    requires
        n <= pos.len(),
        forall|j: int| 0 <= j < n ==> #[trigger] pos[j] < ws.len(),
        r != c1,
        r != c2,
    ensures
        apply_merges(ws, pos, c1, c2, r, max_length, n).0.len() == ws.len(),
        forall|q: int| 0 <= q < n ==> !holds_pair(apply_merges(ws, pos, c1, c2, r, max_length, n).0[#[trigger] pos[q] as int], (c1, c2)),
    decreases n,
{
    if n > 0 {
        lemma_apply_merges_clears(ws, pos, c1, c2, r, max_length, (n - 1) as nat);
        let prev = apply_merges(ws, pos, c1, c2, r, max_length, (n - 1) as nat);
        let i = pos[n - 1];
        assert(pos[n - 1] < ws.len());
        lemma_merge_symbols_clears(None, prev.0[i as int], c1, c2, r, max_length);
        let res = apply_merges(ws, pos, c1, c2, r, max_length, n);
        assert forall|q: int| 0 <= q < n implies !holds_pair(res.0[#[trigger] pos[q] as int], (c1, c2)) by {
            if pos[q] != i {
                assert(res.0[pos[q] as int] == prev.0[pos[q] as int]);
            }
        }
    }
}

/// A round that merges a pair (into a token other than its two halves) merges it in
/// every word its candidate lists: none of them still holds the pair afterwards.
pub proof fn law_round_merges_every_listed_word(lim: Limits, s: Training)
    requires
        training_wf(lim, s),
        merge_step(lim, s) is Some,
        merge_step(lim, s)->0.merges.len() > s.merges.len(),
        merge_step(lim, s)->0.merges.last().1 != merge_step(lim, s)->0.merges.last().0.0,
        merge_step(lim, s)->0.merges.last().1 != merge_step(lim, s)->0.merges.last().0.1,
    ensures
        exists|k: int|
            #![trigger s.queue[k]]
            0 <= k < s.queue.len() && merge_step(lim, s)->0.merges.last().0 == s.queue[k].pair && (forall|q: int|
                0 <= q < s.queue[k].pos.len() ==> !holds_pair(
                    merge_step(lim, s)->0.words[#[trigger] s.queue[k].pos[q] as int],
                    s.queue[k].pair,
                )),
{
    let k = top_index(s.queue);
    lemma_top_index(s.queue);
    let top = s.queue[k];
    assert(candidate_ok(s, top));
    let n = merge_step(lim, s)->0;
    let token = s.vocab[top.pair.0 as int] + strip_prefix(lim.prefix, s.vocab[top.pair.1 as int]);
    let added = add_token(s.vocab, token);
    let id = added.1 as u32;
    assert(n.merges.last() == (top.pair, id));
    lemma_apply_merges_clears(s.words, top.pos, top.pair.0, top.pair.1, id, lim.max_length, top.pos.len());
}

/// Every queued candidate carries its pair's running count.
pub open spec fn queue_current(s: Training) -> bool {
    forall|k: int| 0 <= k < s.queue.len() ==> (#[trigger] s.queue[k]).count == s.pair_counts[s.queue[k].pair] as u64
}

proof fn lemma_push_candidates_current(q: Seq<Candidate>, t: Seq<(Pair, Seq<usize>)>, pc: Map<Pair, i32>, n: nat)
    requires
        n <= t.len(),
        forall|k: int| 0 <= k < q.len() ==> (#[trigger] q[k]).count == pc[q[k].pair] as u64,
    ensures
        forall|k: int| 0 <= k < push_candidates(q, t, pc, n).len()
            ==> (#[trigger] push_candidates(q, t, pc, n)[k]).count == pc[push_candidates(q, t, pc, n)[k].pair] as u64,
    decreases n,
{
    if n > 0 {
        lemma_push_candidates_current(q, t, pc, (n - 1) as nat);
        let prev = push_candidates(q, t, pc, (n - 1) as nat);
        let res = push_candidates(q, t, pc, n);
        assert forall|k: int| 0 <= k < res.len() implies (#[trigger] res[k]).count == pc[res[k].pair] as u64 by {
            if k < prev.len() {
                assert(res[k] == prev[k]);
            }
        }
    }
}

/// When merging starts, every queued candidate carries its pair's running count.
pub proof fn lemma_initial_queue_current(v: Seq<Seq<char>>, wc: Seq<(Seq<char>, u64)>, pre: Option<Seq<char>>, suf: Option<Seq<char>>)
    ensures
        queue_current(initial_training(v, wc, pre, suf)),
{
    let s = initial_training(v, wc, pre, suf);
    let tok = tokenize_words(v, wc, pre, suf, wc.len());
    let counts = wc.map_values(|x: (Seq<char>, u64)| x.1);
    let counted = count_words(tok.1, counts, tok.1.len());
    lemma_push_candidates_current(Seq::empty(), counted.1, counted.0, counted.1.len());
}

/// A minimum count above every running pair count stops merging at once: when every
/// queued candidate is current, nothing changes.
pub proof fn law_min_frequency_stops(lim: Limits, s: Training)
    requires
        training_wf(lim, s),
        queue_current(s),
        forall|p: Pair| #[trigger] s.pair_counts.contains_key(p) ==> (s.pair_counts[p] as u64) < lim.min_frequency,
    ensures
        run_merges(lim, s) == s,
{
    if !(s.vocab.len() >= lim.vocab_size || s.queue.len() == 0) {
        let k = top_index(s.queue);
        lemma_top_index(s.queue);
        assert(candidate_ok(s, s.queue[k]));
        assert(s.pair_counts.contains_key(s.queue[k].pair));
    }
    assert(merge_step(lim, s) is None);
}

/// Training in two stages, for any first-stage alphabet the limit allows: the second
/// stage keeps every token of the first under the same id and every merge of the first
/// with its rank and token, and ranks its own merges after them (when no rank wraps);
/// the tokens stay distinct; the vocabulary grows only up to the final size beyond the
/// affixed characters (up to the final size exactly when there are no affixes), or not
/// at all when the first stage reached it; a minimum count above every pair count of
/// the second stage's words adds no merge and no token beyond the affixed characters
/// (none without affixes); with no second-stage words the model is the first stage's;
/// and every merge is formed from its pair.
pub proof fn law_two_stages(t: SuperBpeTrainer, kept: Seq<char>)
    requires
        t.wf(),
        t.can_train(),
        valid_alphabet(
            alphabet_counts(t.standard_config.words@, t.standard_config.initial_alphabet@),
            t.standard_config.limit_alphabet,
            kept,
        ),
    ensures
        ({
            let cfg = t.standard_config;
            let s1 = cfg.trained_to(t.transition_point, cfg.words@, kept);
            let m = t.trained(kept);
            let init = initial_training(s1.vocab, t.stage2_words(), cfg@.prefix, cfg@.suffix);
            let done = run_merges(cfg.limits(), init);
            &&& m.vocab.len() >= s1.vocab.len()
            &&& m.vocab.take(s1.vocab.len() as int) == s1.vocab
            &&& m.merges.len() >= s1.merges.len()
            &&& m.merges.take(s1.merges.len() as int) == s1.merges
            &&& m.vocab.no_duplicates()
            &&& s1.vocab.len() >= cfg.vocab_size ==> m == s1
            &&& s1.vocab.len() < cfg.vocab_size ==> m.vocab.len() <= vstd::math::max(
                cfg.vocab_size as int,
                (s1.vocab.len() + 3 * word_chars(t.stage2_words()).len()) as int,
            )
            &&& cfg@.prefix is None && cfg@.suffix is None ==> m.vocab.len() <= vstd::math::max(
                cfg.vocab_size as int,
                s1.vocab.len() as int,
            )
            &&& s1.vocab.len() < cfg.vocab_size && s1.merges.len() + 2 * done.merges.len() <= u32::MAX
                ==> forall|j: int| s1.merges.len() <= j < m.merges.len() ==> (#[trigger] m.merges[j]).1.0 >= s1.merges.len()
            &&& s1.vocab.len() < cfg.vocab_size && (forall|p: Pair| #[trigger] init.pair_counts.contains_key(p)
                ==> (init.pair_counts[p] as u64) < cfg.min_frequency) ==> m.merges == s1.merges
                && m.vocab == init.vocab
            &&& cfg@.prefix is None && cfg@.suffix is None ==> init.vocab == s1.vocab
            &&& t.stage2_words().len() == 0 ==> m == s1
            &&& model_merges_formed(m, cfg@.prefix)
        }),
{
    let cfg = t.standard_config;
    t.words_stage2.lemma_word_lengths();
    cfg.words.lemma_word_lengths();
    let s1 = cfg.trained_to(t.transition_point, cfg.words@, kept);
    law_first_stage(cfg, t.transition_point, cfg.words@, kept);
    let m = t.trained(kept);
    if cfg@.prefix is None && cfg@.suffix is None {
        lemma_tokenize_words_plain(s1.vocab, t.stage2_words(), t.stage2_words().len());
    }
    if s1.vocab.len() >= cfg.vocab_size {
        assert(s1.vocab.take(s1.vocab.len() as int) =~= s1.vocab);
        assert(s1.merges.take(s1.merges.len() as int) =~= s1.merges);
    } else {
        let w2 = t.stage2_words();
        let pre = cfg@.prefix;
        lemma_initial_training_wf(s1.vocab, w2, pre, cfg@.suffix);
        let init = initial_training(s1.vocab, w2, pre, cfg@.suffix);
        let lim = cfg.limits();
        assert(training_wf(lim, init));
        lemma_run_merges_vocab(lim, init);
        lemma_run_merges_formed(lim, init);
        let done = run_merges(lim, init);
        assert(done.vocab.take(s1.vocab.len() as int) =~= done.vocab.take(init.vocab.len() as int).take(s1.vocab.len() as int));
        assert forall|j: int| 0 <= j < s1.merges.len() implies merge_formed(pre, done.vocab, #[trigger] s1.merges[j].0, s1.merges[j].1.1) by {
            lemma_merge_formed_extend(pre, s1.vocab, done.vocab, s1.merges[j].0, s1.merges[j].1.1);
        }
        lemma_appended_formed(pre, done.vocab, s1.merges, done.merges, done.merges.len());
        if pre is None && cfg@.suffix is None {
            lemma_tokenize_words_plain(s1.vocab, w2, w2.len());
        }
        if w2.len() == 0 {
            assert(init.queue.len() == 0);
            assert(merge_step(lim, init) is None);
            assert(init.vocab == s1.vocab);
            assert(appended_merges(s1.merges, done.merges, 0) == s1.merges);
            assert(m.vocab == s1.vocab);
            assert(m.merges == s1.merges);
            assert(m.prefix == s1.prefix);
            assert(m.suffix == s1.suffix);
        }
        if s1.merges.len() + 2 * done.merges.len() <= u32::MAX {
            lemma_appended_ranks(s1.merges, done.merges, done.merges.len());
        }
        if forall|p: Pair| #[trigger] init.pair_counts.contains_key(p) ==> (init.pair_counts[p] as u64) < cfg.min_frequency {
            lemma_initial_queue_current(s1.vocab, w2, pre, cfg@.suffix);
            law_min_frequency_stops(lim, init);
            assert(done.merges.len() == 0);
        }
    }
}

proof fn lemma_increasing_equal(k1: Seq<char>, k2: Seq<char>)
    requires
        forall|i: int, j: int| 0 <= i < j < k1.len() ==> (#[trigger] k1[i] as u32) < (#[trigger] k1[j] as u32),
        forall|i: int, j: int| 0 <= i < j < k2.len() ==> (#[trigger] k2[i] as u32) < (#[trigger] k2[j] as u32),
        forall|c: char| k1.contains(c) <==> k2.contains(c),
    ensures
        k1 == k2,
    decreases k1.len() + k2.len(),
{
    if k1.len() == 0 {
        if k2.len() > 0 {
            assert(k2.contains(k2[0]));
        }
        assert(k1 =~= k2);
    } else if k2.len() == 0 {
        assert(k1.contains(k1[0]));
    } else {
        let m1 = k1.last();
        let m2 = k2.last();
        assert(k1.contains(m1));
        assert(k2.contains(m2));
        let i2 = choose|i: int| 0 <= i < k2.len() && k2[i] == m1;
        let i1 = choose|i: int| 0 <= i < k1.len() && k1[i] == m2;
        if i2 < k2.len() - 1 {
            assert((k2[i2] as u32) < (k2[k2.len() - 1] as u32));
        }
        if i1 < k1.len() - 1 {
            assert((k1[i1] as u32) < (k1[k1.len() - 1] as u32));
        }
        assert(m1 == m2);
        let d1 = k1.drop_last();
        let d2 = k2.drop_last();
        assert forall|c: char| d1.contains(c) <==> d2.contains(c) by {
            if d1.contains(c) {
                let i = choose|i: int| 0 <= i < d1.len() && d1[i] == c;
                assert((k1[i] as u32) < (k1[k1.len() - 1] as u32));
                assert(k1.contains(c));
                let j = choose|j: int| 0 <= j < k2.len() && k2[j] == c;
                assert(j != k2.len() - 1);
                assert(d2[j] == c);
            }
            if d2.contains(c) {
                let i = choose|i: int| 0 <= i < d2.len() && d2[i] == c;
                assert((k2[i] as u32) < (k2[k2.len() - 1] as u32));
                assert(k2.contains(c));
                let j = choose|j: int| 0 <= j < k1.len() && k1[j] == c;
                assert(j != k1.len() - 1);
                assert(d1[j] == c);
            }
        }
        lemma_increasing_equal(d1, d2);
        assert(k1 =~= d1.push(m1));
        assert(k2 =~= d2.push(m2));
    }
}

proof fn lemma_kept_set(a: Seq<(char, usize)>, limit: Option<usize>, k: Seq<char>)
    requires
        valid_alphabet(a, limit, k),
    ensures
        k.no_duplicates(),
        k.to_set().len() == k.len(),
        k.to_set().finite(),
        k.to_set().subset_of(char_list(a).to_set()),
{
    assert forall|i: int, j: int| 0 <= i < k.len() && 0 <= j < k.len() && i != j implies k[i] != k[j] by {
        if i < j {
            assert((k[i] as u32) < (k[j] as u32));
        } else {
            assert((k[j] as u32) < (k[i] as u32));
        }
    }
    k.unique_seq_to_set();
    vstd::seq_lib::seq_to_set_is_finite(k);
    assert forall|c: char| k.to_set().contains(c) implies char_list(a).to_set().contains(c) by {
        let i = choose|i: int| 0 <= i < k.len() && k[i] == c;
        assert(find_char(a, k[i]) >= 0);
        lemma_find_char(a, c);
        assert(char_list(a)[find_char(a, c)] == c);
    }
}

proof fn lemma_kept_within(
    a: Seq<(char, usize)>,
    limit: Option<usize>,
    k1: Seq<char>,
    k2: Seq<char>,
)
    requires
        distinct_chars(a),
        valid_alphabet(a, limit, k1),
        valid_alphabet(a, limit, k2),
        alphabet_excess(a.len(), limit) == 0 || (forall|i: int, j: int|
            0 <= i < a.len() && 0 <= j < a.len() && i != j ==> #[trigger] a[i].1 != #[trigger] a[j].1),
    ensures
        forall|c: char| k1.contains(c) ==> k2.contains(c),
{
    lemma_kept_set(a, limit, k1);
    lemma_kept_set(a, limit, k2);
    let s1 = k1.to_set();
    let s2 = k2.to_set();
    assert forall|c: char| k1.contains(c) implies k2.contains(c) by {
        if !k2.contains(c) {
            if s2.subset_of(s1) {
                vstd::set_lib::lemma_subset_equality(s2, s1);
                assert(s1.contains(c));
            } else {
                let y = choose|y: char| s2.contains(y) && !s1.contains(y);
                let ix = choose|i: int| 0 <= i < k1.len() && k1[i] == c;
                let iy = choose|i: int| 0 <= i < k2.len() && k2[i] == y;
                let fx = find_char(a, c);
                let fy = find_char(a, y);
                assert(fx == find_char(a, k1[ix]));
                assert(fy == find_char(a, k2[iy]));
                lemma_find_char(a, c);
                lemma_find_char(a, y);
                if alphabet_excess(a.len(), limit) == 0 {
                    let cl = char_list(a);
                    assert forall|i: int, j: int| 0 <= i < cl.len() && 0 <= j < cl.len() && i != j implies cl[i] != cl[j] by {
                        assert(a[i].0 != a[j].0);
                    }
                    cl.unique_seq_to_set();
                    vstd::seq_lib::seq_to_set_is_finite(cl);
                    vstd::set_lib::lemma_subset_equality(s2, cl.to_set());
                    vstd::set_lib::lemma_subset_equality(s1, cl.to_set());
                    assert(s1.contains(y));
                } else {
                    assert(!k1.contains(a[fy].0));
                    assert(a[fy].1 <= a[find_char(a, k1[ix])].1);
                    assert(!k2.contains(a[fx].0));
                    assert(a[fx].1 <= a[find_char(a, k2[iy])].1);
                    assert(fx != fy);
                    assert(a[fx].1 != a[fy].1);
                }
            }
        }
    }
}

/// The alphabet that the limit allows is unique when the limit removes nothing, or when
/// no two characters were counted equally often: training then has one outcome.
pub proof fn law_alphabet_unique(a: Seq<(char, usize)>, limit: Option<usize>, k1: Seq<char>, k2: Seq<char>)
    requires
        distinct_chars(a),
        valid_alphabet(a, limit, k1),
        valid_alphabet(a, limit, k2),
        alphabet_excess(a.len(), limit) == 0 || (forall|i: int, j: int|
            0 <= i < a.len() && 0 <= j < a.len() && i != j ==> #[trigger] a[i].1 != #[trigger] a[j].1),
    ensures
        k1 == k2,
{
    lemma_kept_within(a, limit, k1, k2);
    lemma_kept_within(a, limit, k2, k1);
    lemma_increasing_equal(k1, k2);
}

/// With the alphabet fixed as above, two-stage training has exactly one outcome: any two
/// runs agree, and agree with a separate run of the first stage.
pub proof fn law_training_deterministic(t: SuperBpeTrainer, k1: Seq<char>, k2: Seq<char>)
    requires
        ({
            let a = alphabet_counts(t.standard_config.words@, t.standard_config.initial_alphabet@);
            &&& valid_alphabet(a, t.standard_config.limit_alphabet, k1)
            &&& valid_alphabet(a, t.standard_config.limit_alphabet, k2)
            &&& alphabet_excess(a.len(), t.standard_config.limit_alphabet) == 0 || (forall|i: int, j: int|
                0 <= i < a.len() && 0 <= j < a.len() && i != j ==> #[trigger] a[i].1 != #[trigger] a[j].1)
        }),
    ensures
        k1 == k2,
        t.trained(k1) == t.trained(k2),
        t.standard_config.trained_to(t.transition_point, t.standard_config.words@, k1)
            == t.standard_config.trained_to(t.transition_point, t.standard_config.words@, k2),
{
    lemma_count_chars_distinct(t.standard_config.words@, t.standard_config.initial_alphabet@);
    law_alphabet_unique(
        alphabet_counts(t.standard_config.words@, t.standard_config.initial_alphabet@),
        t.standard_config.limit_alphabet,
        k1,
        k2,
    );
}

/// The last position before `n` at which `p` was learned, or -1.
pub open spec fn last_learned(merges: Seq<(Pair, u32)>, p: Pair, n: nat) -> int
    decreases n,
{
    if n == 0 {
        -1
    } else if merges[n - 1].0 == p {
        n - 1
    } else {
        last_learned(merges, p, (n - 1) as nat)
    }
}

proof fn lemma_last_learned(merges: Seq<(Pair, u32)>, p: Pair, n: nat)
    ensures
        -1 <= last_learned(merges, p, n) < n,
        last_learned(merges, p, n) >= 0 ==> merges[last_learned(merges, p, n)].0 == p,
        forall|i: int| last_learned(merges, p, n) < i < n ==> merges[i].0 != p,
    decreases n,
{
    if n > 0 && merges[n - 1].0 != p {
        lemma_last_learned(merges, p, (n - 1) as nat);
    }
}

/// The model's merges follow the order in which they were learned: each pair learned
/// appears once, with the rank of the last time it was learned (its position among the
/// learned merges) and the token it then became; nothing else appears.
pub proof fn law_merges_ranked_in_learning_order(merges: Seq<(Pair, u32)>, n: nat)
    requires
        n <= merges.len(),
        n <= u32::MAX + 1,
    ensures
        ({
            let r = ranked_merges(merges, n);
            &&& forall|a: int, b: int| 0 <= a < b < r.len() ==> #[trigger] r[a].0 != #[trigger] r[b].0
            &&& forall|j: int| 0 <= j < r.len() ==> {
                let last = last_learned(merges, (#[trigger] r[j]).0, n);
                &&& 0 <= last < n
                &&& r[j].1.0 as int == last
                &&& r[j].1.1 == merges[last].1
            }
            &&& forall|i: int| #![trigger merges[i]] 0 <= i < n ==> exists|j: int| #![trigger r[j]] 0 <= j < r.len() && r[j].0 == merges[i].0
        }),
    decreases n,
{
    if n > 0 {
        law_merges_ranked_in_learning_order(merges, (n - 1) as nat);
        let acc = ranked_merges(merges, (n - 1) as nat);
        let p = merges[n - 1].0;
        let v = ((n - 1) as u32, merges[n - 1].1);
        assert(v.0 as int == n - 1);
        lemma_find_merge(acc, p);
        let f = find_merge(acc, p);
        let r = ranked_merges(merges, n);
        assert(r == merge_insert(acc, p, v));
        assert forall|j: int| 0 <= j < r.len() implies {
            let last = last_learned(merges, (#[trigger] r[j]).0, n);
            &&& 0 <= last < n
            &&& r[j].1.0 as int == last
            &&& r[j].1.1 == merges[last].1
        } by {
            lemma_last_learned(merges, r[j].0, n);
            if r[j].0 != p {
                assert(j < acc.len());
                assert(r[j] == acc[j]);
                assert(last_learned(merges, r[j].0, n) == last_learned(merges, r[j].0, (n - 1) as nat));
            } else {
                if f >= 0 {
                    if j != f {
                        assert(r[j] == acc[j]);
                        assert(acc[j].0 == acc[f].0);
                        assert(false);
                    }
                } else {
                    if j < acc.len() {
                        assert(r[j] == acc[j]);
                        assert(false);
                    }
                }
            }
        }
        assert forall|a: int, b: int| 0 <= a < b < r.len() implies #[trigger] r[a].0 != #[trigger] r[b].0 by {
            if f >= 0 {
                assert(r[a].0 == acc[a].0);
                assert(r[b].0 == acc[b].0);
            } else if b < acc.len() {
                assert(r[a] == acc[a] && r[b] == acc[b]);
            } else {
                assert(r[a] == acc[a]);
            }
        }
        assert forall|i: int| #![trigger merges[i]] 0 <= i < n implies exists|j: int| #![trigger r[j]] 0 <= j < r.len() && r[j].0 == merges[i].0 by {
            if i < n - 1 {
                let j = choose|j: int| #![trigger acc[j]] 0 <= j < acc.len() && acc[j].0 == merges[i].0;
                assert(r[j].0 == acc[j].0);
            } else if f >= 0 {
                assert(r[f].0 == p);
            } else {
                assert(r[acc.len() as int].0 == p);
            }
        }
    }
}

/// The number of windows among the first `m` of `w` that are the pair `p`.
pub open spec fn pair_occurrences(w: Seq<Symbol>, p: Pair, m: nat) -> nat
    decreases m,
{
    if m == 0 {
        0
    } else {
        pair_occurrences(w, p, (m - 1) as nat) + if w[m - 1].c == p.0 && w[m as int].c == p.1 {
            1nat
        } else {
            0nat
        }
    }
}

/// The number of times `p` occurs as adjacent symbols in `w`.
pub open spec fn occurrences_in_word(w: Seq<Symbol>, p: Pair) -> nat {
    pair_occurrences(w, p, windows(w))
}

/// The number of occurrences of `p` in the first `n` words.
pub open spec fn total_occurrences(ws: Seq<Seq<Symbol>>, p: Pair, n: nat) -> nat
    decreases n,
{
    if n == 0 {
        0
    } else {
        total_occurrences(ws, p, (n - 1) as nat) + occurrences_in_word(ws[n - 1], p)
    }
}

/// The occurrences of `p` in the first `n` words, each weighted by the count of its word
/// taken as an `i32`.
pub open spec fn weighted_occurrences(ws: Seq<Seq<Symbol>>, cs: Seq<u64>, p: Pair, n: nat) -> int
    decreases n,
{
    if n == 0 {
        0
    } else {
        weighted_occurrences(ws, cs, p, (n - 1) as nat) + occurrences_in_word(ws[n - 1], p) * (cs[n - 1] as i32)
    }
}

proof fn lemma_no_occurrences_no_weight(ws: Seq<Seq<Symbol>>, cs: Seq<u64>, p: Pair, n: nat)
    requires
        total_occurrences(ws, p, n) == 0,
    ensures
        weighted_occurrences(ws, cs, p, n) == 0,
    decreases n,
{
    if n > 0 {
        lemma_no_occurrences_no_weight(ws, cs, p, (n - 1) as nat);
        let o = occurrences_in_word(ws[n - 1], p);
        assert(o == 0);
        assert(o * (cs[n - 1] as i32) == 0) by (nonlinear_arith)
            requires
                o == 0,
        ;
    }
}

/// The list `l` is strictly increasing, and its entries are below `bound`.
pub open spec fn increasing_below(l: Seq<usize>, bound: int) -> bool {
    &&& forall|a: int, b: int| 0 <= a < b < l.len() ==> l[a] < l[b]
    &&& forall|a: int| 0 <= a < l.len() ==> l[a] < bound
}

/// What the pair counts and the pair table hold after counting: exactly the pairs that
/// occur, each with its weighted number of occurrences (cropped to `i32`), listed in the
/// table with the increasing positions of the words where it occurs.
pub open spec fn counted_as_occurrences(
    pc: Map<Pair, i32>,
    t: Seq<(Pair, Seq<usize>)>,
    ws: Seq<Seq<Symbol>>,
    cs: Seq<u64>,
    n: nat,
) -> bool {
    &&& forall|p: Pair| #[trigger] pc.contains_key(p) <==> total_occurrences(ws, p, n) > 0
    &&& forall|p: Pair| #[trigger] pc.contains_key(p)
        ==> pc[p] == vstd::wrapping::i32_specs::signed_crop(weighted_occurrences(ws, cs, p, n))
    &&& forall|p: Pair| (#[trigger] find_pair(t, p) >= 0) <==> pc.contains_key(p)
    &&& forall|j: int, k: usize| 0 <= j < t.len() ==> ((#[trigger] t[j].1.contains(k)) <==> (k < n
        && occurrences_in_word(ws[k as int], t[j].0) > 0))
    &&& forall|j: int| 0 <= j < t.len() ==> increasing_below(#[trigger] t[j].1, n as int)
    &&& forall|a: int, b: int| 0 <= a < b < t.len() ==> #[trigger] t[a].0 != #[trigger] t[b].0
}

/// The state within the word at position `i`, after its first `m` windows.
spec fn counted_within_word(
    pc: Map<Pair, i32>,
    t: Seq<(Pair, Seq<usize>)>,
    ws: Seq<Seq<Symbol>>,
    cs: Seq<u64>,
    i: nat,
    m: nat,
) -> bool {
    let w = ws[i as int];
    let c = cs[i as int] as i32;
    &&& forall|p: Pair| #[trigger] pc.contains_key(p) <==> total_occurrences(ws, p, i) + pair_occurrences(w, p, m) > 0
    &&& forall|p: Pair| #[trigger] pc.contains_key(p)
        ==> pc[p] == vstd::wrapping::i32_specs::signed_crop(weighted_occurrences(ws, cs, p, i) + pair_occurrences(w, p, m) * c)
    &&& forall|p: Pair| (#[trigger] find_pair(t, p) >= 0) <==> pc.contains_key(p)
    &&& forall|j: int, k: usize| 0 <= j < t.len() ==> ((#[trigger] t[j].1.contains(k)) <==> ((k < i
        && occurrences_in_word(ws[k as int], t[j].0) > 0) || (k == i && pair_occurrences(w, t[j].0, m) > 0)))
    &&& forall|j: int| 0 <= j < t.len() ==> increasing_below(#[trigger] t[j].1, (i + 1) as int)
    &&& forall|a: int, b: int| 0 <= a < b < t.len() ==> #[trigger] t[a].0 != #[trigger] t[b].0
}

#[verifier::spinoff_prover]
proof fn lemma_count_windows_meaning(ws: Seq<Seq<Symbol>>, cs: Seq<u64>, i: nat, m: nat)
    requires
        i < ws.len(),
        i < cs.len(),
        i < usize::MAX,
        m <= windows(ws[i as int]),
        counted_as_occurrences(count_words(ws, cs, i).0, count_words(ws, cs, i).1, ws, cs, i),
    ensures
        ({
            let base = count_words(ws, cs, i);
            let r = count_windows(base.0, base.1, ws[i as int], i as usize, cs[i as int] as i32, m);
            counted_within_word(r.0, r.1, ws, cs, i, m)
        }),
    decreases m,
{
    let base = count_words(ws, cs, i);
    let w = ws[i as int];
    let c = cs[i as int] as i32;
    if m == 0 {
        let r = count_windows(base.0, base.1, w, i as usize, c, 0);
        assert(r == base);
        assert forall|p: Pair| #[trigger] pair_occurrences(w, p, 0) == 0 by {}
        assert forall|j: int| 0 <= j < r.1.len() implies increasing_below(#[trigger] r.1[j].1, (i + 1) as int) by {
            assert(increasing_below(base.1[j].1, i as int));
        }
        assert forall|j: int, k: usize| 0 <= j < r.1.len() implies ((#[trigger] r.1[j].1.contains(k)) <==> ((k < i
            && occurrences_in_word(ws[k as int], r.1[j].0) > 0) || (k == i && pair_occurrences(w, r.1[j].0, 0) > 0))) by {
            assert(pair_occurrences(w, r.1[j].0, 0) == 0);
        }
        assert(counted_within_word(r.0, r.1, ws, cs, i, 0));
    } else {
        lemma_count_windows_meaning(ws, cs, i, (m - 1) as nat);
        let prev = count_windows(base.0, base.1, w, i as usize, c, (m - 1) as nat);
        let q = (w[m - 1].c, w[m as int].c);
        let pc = add_count(prev.0, q, c);
        let t = table_add(prev.1, q, i as usize);
        let r = count_windows(base.0, base.1, w, i as usize, c, m);
        assert(r == (pc, t));
        lemma_find_pair(prev.1, q);
        assert forall|p: Pair| #[trigger] pair_occurrences(w, p, m) == pair_occurrences(w, p, (m - 1) as nat)
            + if p == q { 1nat } else { 0nat } by {}
        assert forall|p: Pair| #[trigger] pc.contains_key(p) <==> total_occurrences(ws, p, i) + pair_occurrences(w, p, m) > 0 by {}
        assert forall|p: Pair| #[trigger] pc.contains_key(p)
            implies pc[p] == vstd::wrapping::i32_specs::signed_crop(weighted_occurrences(ws, cs, p, i) + pair_occurrences(w, p, m) * c) by {
            if p == q {
                let tot = total_occurrences(ws, p, i);
                if tot == 0 {
                    lemma_no_occurrences_no_weight(ws, cs, p, i);
                }
                lemma_weight_step(
                    prev.0.contains_key(q),
                    count_or_zero(prev.0, q),
                    tot,
                    weighted_occurrences(ws, cs, p, i),
                    pair_occurrences(w, p, (m - 1) as nat),
                    c,
                );
            }
        }
        assert forall|p: Pair| (#[trigger] find_pair(t, p) >= 0) <==> pc.contains_key(p) by {
            lemma_find_pair(t, p);
            lemma_find_pair(prev.1, p);
            if find_pair(prev.1, p) >= 0 {
                let f = find_pair(prev.1, p);
                assert(t[f].0 == p);
            }
            if p == q {
                let f = find_pair(prev.1, q);
                if f >= 0 {
                    assert(t[f].0 == q);
                } else {
                    assert(t[prev.1.len() as int].0 == q);
                }
            }
            if find_pair(t, p) >= 0 && p != q {
                let g = find_pair(t, p);
                let f = find_pair(prev.1, q);
                if f >= 0 {
                    assert(t[g] == prev.1[g] || g == f);
                    assert(prev.1[g].0 == p);
                } else {
                    assert(g < prev.1.len());
                    assert(prev.1[g].0 == p);
                }
            }
        }
        let f = find_pair(prev.1, q);
        assert forall|j: int, k: usize| 0 <= j < t.len() implies ((#[trigger] t[j].1.contains(k)) <==> ((k < i
            && occurrences_in_word(ws[k as int], t[j].0) > 0) || (k == i && pair_occurrences(w, t[j].0, m) > 0))) by {
            if j < prev.1.len() && j != f {
                assert(t[j] == prev.1[j]);
                if prev.1[j].0 == q {
                    lemma_find_pair(prev.1, q);
                    assert(prev.1[f].0 == q);
                    assert(false);
                }
                assert(pair_occurrences(w, t[j].0, m) == pair_occurrences(w, t[j].0, (m - 1) as nat));
            } else if j < prev.1.len() {
                let l = prev.1[j].1;
                assert(prev.1[j].0 == q);
                if l.len() > 0 && l.last() == i as usize {
                    assert(l.contains(i as usize));
                } else {
                    assert(t[j].1 == l.push(i as usize));
                    if k == i as usize {
                        assert(t[j].1[l.len() as int] == k);
                    }
                    if l.contains(k) {
                        let z = choose|z: int| 0 <= z < l.len() && l[z] == k;
                        assert(t[j].1[z] == k);
                    }
                    if t[j].1.contains(k) && k != i as usize {
                        let z = choose|z: int| 0 <= z < t[j].1.len() && t[j].1[z] == k;
                        assert(l[z] == k);
                    }
                }
            } else {
                assert(t[j] == (q, seq![i as usize]));
                if k == i as usize {
                    assert(t[j].1[0] == k);
                }
                assert(forall|jj: int| 0 <= jj < prev.1.len() ==> prev.1[jj].0 != q);
                if k < i && occurrences_in_word(ws[k as int], q) > 0 {
                    assert(total_occurrences(ws, q, i) > 0) by {
                        lemma_total_occurrences_pos(ws, q, i, k as nat);
                    }
                    assert(prev.0.contains_key(q));
                    assert(find_pair(prev.1, q) >= 0);
                }
            }
        }
        assert forall|j: int| 0 <= j < t.len() implies increasing_below(#[trigger] t[j].1, (i + 1) as int) by {
            if j < prev.1.len() && j != f {
                assert(t[j] == prev.1[j]);
            } else if j < prev.1.len() {
                let l = prev.1[j].1;
                assert(increasing_below(l, (i + 1) as int));
                if !(l.len() > 0 && l.last() == i as usize) {
                    let l2 = l.push(i as usize);
                    assert(t[j].1 == l2);
                    if l.len() > 0 {
                        assert(l.last() < i);
                    }
                    assert forall|a: int, b: int| 0 <= a < b < l2.len() implies l2[a] < l2[b] by {
                        if b == l.len() {
                            assert(l[a] <= l.last());
                        }
                    }
                    assert(increasing_below(l2, (i + 1) as int));
                }
            } else {
                assert(t[j].1 == seq![i as usize]);
                assert(increasing_below(seq![i as usize], (i + 1) as int));
            }
        }
        assert forall|a: int, b: int| 0 <= a < b < t.len() implies #[trigger] t[a].0 != #[trigger] t[b].0 by {
            if f >= 0 {
                assert(t[a].0 == prev.1[a].0);
                assert(t[b].0 == prev.1[b].0);
            } else if b < prev.1.len() {
                assert(t[a] == prev.1[a]);
                assert(t[b] == prev.1[b]);
            } else {
                assert(t[a] == prev.1[a]);
                assert(t[b].0 == q);
            }
        }
    }
}

/// One more occurrence, weighted by `c`, on top of what was counted before.
proof fn lemma_weight_step(seen: bool, before: i32, tot: nat, weighted: int, occ: nat, c: i32)
    requires
        seen <==> tot + occ > 0,
        seen ==> before == vstd::wrapping::i32_specs::signed_crop(weighted + occ * c),
        !seen ==> before == 0,
        tot == 0 ==> weighted == 0,
    ensures
        vstd::wrapping::i32_specs::wrapping_add(before, c) == vstd::wrapping::i32_specs::signed_crop(
            weighted + (occ + 1) * c,
        ),
{
    assert(weighted + (occ + 1) * c == (weighted + occ * c) + c) by (nonlinear_arith);
    if seen {
        lemma_wrapping_add_crop(weighted + occ * c, c);
    } else {
        assert(occ == 0);
        assert(weighted + occ * c == 0) by (nonlinear_arith)
            requires
                occ == 0,
                weighted == 0,
        ;
        lemma_crop_small(0);
        lemma_wrapping_add_crop(0, c);
    }
}

proof fn lemma_total_occurrences_pos(ws: Seq<Seq<Symbol>>, p: Pair, n: nat, k: nat)
    requires
        k < n,
        occurrences_in_word(ws[k as int], p) > 0,
    ensures
        total_occurrences(ws, p, n) > 0,
    decreases n,
{
    if k < n - 1 {
        lemma_total_occurrences_pos(ws, p, (n - 1) as nat, k);
    }
}

proof fn lemma_crop_small(x: int)
    requires
        i32::MIN <= x <= i32::MAX,
    ensures
        vstd::wrapping::i32_specs::signed_crop(x) == x,
{
    let d: int = 0x1_0000_0000;
    vstd::arithmetic::div_mod::lemma_fundamental_div_mod(x, d);
    vstd::arithmetic::div_mod::lemma_mod_bound(x, d);
}

/// Counting pairs gives exactly the pairs that occur in the words, each with its
/// occurrences weighted by the counts of their words (cropped to `i32`, as wrapping
/// additions give), in a table that lists for each pair the increasing positions of the
/// words where it occurs.
pub proof fn law_pair_counts_are_weighted_occurrences(ws: Seq<Seq<Symbol>>, cs: Seq<u64>, n: nat)
    requires
        n <= ws.len(),
        n <= cs.len(),
        n <= usize::MAX,
    ensures
        counted_as_occurrences(count_words(ws, cs, n).0, count_words(ws, cs, n).1, ws, cs, n),
    decreases n,
{
    if n > 0 {
        law_pair_counts_are_weighted_occurrences(ws, cs, (n - 1) as nat);
        let i = (n - 1) as nat;
        lemma_count_windows_meaning(ws, cs, i, windows(ws[i as int]));
    }
}

/// Adding with wrapping in `i32` to a value cropped from `x` gives the value cropped
/// from the sum.
pub proof fn lemma_wrapping_add_crop(x: int, y: i32)
    ensures
        vstd::wrapping::i32_specs::wrapping_add(vstd::wrapping::i32_specs::signed_crop(x), y)
            == vstd::wrapping::i32_specs::signed_crop(x + y),
{
    let d: int = 0x1_0000_0000;
    vstd::arithmetic::div_mod::lemma_fundamental_div_mod(x, d);
    vstd::arithmetic::div_mod::lemma_fundamental_div_mod(x + y, d);
    vstd::arithmetic::div_mod::lemma_mod_bound(x, d);
    vstd::arithmetic::div_mod::lemma_mod_bound(x + y, d);
}

proof fn lemma_push_candidates_from(q: Seq<Candidate>, t: Seq<(Pair, Seq<usize>)>, pc: Map<Pair, i32>, m: nat)
    requires
        m <= t.len(),
    ensures
        forall|k: int| 0 <= k < push_candidates(q, t, pc, m).len() ==> (k < q.len()
            && #[trigger] push_candidates(q, t, pc, m)[k] == q[k]) || exists|j: int| #![trigger t[j]] 0 <= j < m
            && push_candidates(q, t, pc, m)[k].pair == t[j].0 && push_candidates(q, t, pc, m)[k].pos == t[j].1,
    decreases m,
{
    if m > 0 {
        lemma_push_candidates_from(q, t, pc, (m - 1) as nat);
        let prev = push_candidates(q, t, pc, (m - 1) as nat);
        let res = push_candidates(q, t, pc, m);
        assert forall|k: int| 0 <= k < res.len() implies (k < q.len() && #[trigger] res[k] == q[k])
            || exists|j: int| #![trigger t[j]] 0 <= j < m && res[k].pair == t[j].0 && res[k].pos == t[j].1 by {
            if k < prev.len() {
                assert(res[k] == prev[k]);
                if !(k < q.len() && prev[k] == q[k]) {
                    let j = choose|j: int| #![trigger t[j]] 0 <= j < m - 1 && prev[k].pair == t[j].0 && prev[k].pos == t[j].1;
                    assert(0 <= j < m && res[k].pair == t[j].0 && res[k].pos == t[j].1);
                }
            } else {
                assert(res[k].pair == t[m - 1].0 && res[k].pos == t[m - 1].1);
            }
        }
    }
}

/// When merging starts, each queued candidate lists, in increasing order, exactly the
/// words in which its pair occurs: merging the candidate reaches every word that holds
/// the pair.
pub proof fn law_initial_candidates_list_every_word(
    v: Seq<Seq<char>>,
    wc: Seq<(Seq<char>, u64)>,
    pre: Option<Seq<char>>,
    suf: Option<Seq<char>>,
)
    requires
        v.no_duplicates(),
        wc.len() <= usize::MAX,
    ensures
        ({
            let s = initial_training(v, wc, pre, suf);
            &&& forall|k: int, i: usize| 0 <= k < s.queue.len() ==> ((#[trigger] s.queue[k].pos.contains(i))
                <==> (i < s.words.len() && occurrences_in_word(s.words[i as int], s.queue[k].pair) > 0))
            &&& forall|k: int| 0 <= k < s.queue.len() ==> increasing_below(#[trigger] s.queue[k].pos, s.words.len() as int)
        }),
{
    let s = initial_training(v, wc, pre, suf);
    let n = wc.len();
    lemma_tokenize_words(v, wc, pre, suf, n);
    let tok = tokenize_words(v, wc, pre, suf, n);
    let counts = wc.map_values(|x: (Seq<char>, u64)| x.1);
    let counted = count_words(tok.1, counts, tok.1.len());
    law_pair_counts_are_weighted_occurrences(tok.1, counts, n);
    assert(tok.1.len() == n);
    lemma_push_candidates_from(Seq::empty(), counted.1, counted.0, counted.1.len());
    assert(s.words == tok.1);
    assert(s.queue == push_candidates(Seq::empty(), counted.1, counted.0, counted.1.len()));
    assert forall|k: int, i: usize| 0 <= k < s.queue.len() implies ((#[trigger] s.queue[k].pos.contains(i))
        <==> (i < s.words.len() && occurrences_in_word(s.words[i as int], s.queue[k].pair) > 0)) by {
        let j = choose|j: int| #![trigger counted.1[j]] 0 <= j < counted.1.len() && s.queue[k].pair == counted.1[j].0
            && s.queue[k].pos == counted.1[j].1;
        assert(counted.1[j].1.contains(i) <==> (i < n && occurrences_in_word(tok.1[i as int], counted.1[j].0) > 0));
    }
    assert forall|k: int| 0 <= k < s.queue.len() implies increasing_below(#[trigger] s.queue[k].pos, s.words.len() as int) by {
        let j = choose|j: int| #![trigger counted.1[j]] 0 <= j < counted.1.len() && s.queue[k].pair == counted.1[j].0
            && s.queue[k].pos == counted.1[j].1;
        assert(increasing_below(counted.1[j].1, n as int));
    }
}

} // verus!
