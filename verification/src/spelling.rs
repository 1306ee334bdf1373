//! What a word spells: its tokens' strings joined, later tokens without the
//! continuing-subword prefix. Merging never changes it.

use vstd::prelude::*;
use crate::engine::{Limits, Training, merge_step, run_merges, training_wf, strip_prefix, apply_merges, symbol_total, stale_count, candidate_ok};
use crate::merge_proofs::{lemma_merge_step_decreases, lemma_merge_step_wf, lemma_merge_step_vocab};
use crate::queue::{top_index, lemma_top_index};
use crate::tokenize::{tokenize_chars, tokenize_words, initial_training, char_token, affix, lemma_tokenize_chars, lemma_tokenize_chars_grows};
use crate::vocab::{add_token, lemma_find_token};
use crate::word::{Symbol, merge_symbols};

verus! {

/// Whether `t` starts with the prefix (always, when there is none).
pub open spec fn has_prefix(prefix: Option<Seq<char>>, t: Seq<char>) -> bool {
    match prefix {
        Some(p) => p.len() <= t.len() && t.take(p.len() as int) == p,
        None => true,
    }
}

/// The text that the symbols `s` spell over the vocabulary `v`: each token's string,
/// without the prefix unless it comes first (`first` says whether `s` starts a word).
pub open spec fn spelled(v: Seq<Seq<char>>, prefix: Option<Seq<char>>, s: Seq<Symbol>, first: bool) -> Seq<char>
    decreases s.len(),
{
    if s.len() == 0 {
        Seq::empty()
    } else {
        (if first {
            v[s[0].c as int]
        } else {
            strip_prefix(prefix, v[s[0].c as int])
        }) + spelled(v, prefix, s.drop_first(), false)
    }
}

/// Every symbol that does not start the word names a token that starts with the prefix.
pub open spec fn continues_ok(v: Seq<Seq<char>>, prefix: Option<Seq<char>>, s: Seq<Symbol>, first: bool) -> bool {
    forall|k: int| 0 <= k < s.len() && (k > 0 || !first) ==> has_prefix(prefix, v[(#[trigger] s[k]).c as int])
}

/// All symbols name tokens of `v`.
pub open spec fn known(v: Seq<Seq<char>>, s: Seq<Symbol>) -> bool {
    forall|k: int| 0 <= k < s.len() ==> (#[trigger] s[k]).c < v.len()
}

proof fn lemma_strip_concat(prefix: Option<Seq<char>>, a: Seq<char>, x: Seq<char>)
    requires
        has_prefix(prefix, a),
    ensures
        strip_prefix(prefix, a + x) == strip_prefix(prefix, a) + x,
        has_prefix(prefix, a + x),
{
    if let Some(p) = prefix {
        assert((a + x).take(p.len() as int) =~= a.take(p.len() as int));
        assert((a + x).skip(p.len() as int) =~= a.skip(p.len() as int) + x);
    }
}

proof fn lemma_merge_symbols_spelled(
    v: Seq<Seq<char>>,
    prefix: Option<Seq<char>>,
    prev: Option<Symbol>,
    s: Seq<Symbol>,
    c1: u32,
    c2: u32,
    r: u32,
    max_length: usize,
)
    requires
        c1 < v.len(),
        c2 < v.len(),
        r < v.len(),
        v[r as int] == v[c1 as int] + strip_prefix(prefix, v[c2 as int]),
        known(v, s),
        continues_ok(v, prefix, s, prev is None),
    ensures
        spelled(v, prefix, merge_symbols(prev, s, c1, c2, r, max_length).0, prev is None)
            == spelled(v, prefix, s, prev is None),
        continues_ok(v, prefix, merge_symbols(prev, s, c1, c2, r, max_length).0, prev is None),
        known(v, merge_symbols(prev, s, c1, c2, r, max_length).0),
    decreases s.len(),
{
    let first = prev is None;
    if s.len() == 0 {
    } else if s.len() >= 2 && s[0].c == c1 && s[1].c == c2 {
        let new = Symbol { c: r, len: (s[0].len + s[1].len) as usize };
        let rest = s.skip(2);
        assert forall|k: int| 0 <= k < rest.len() implies (#[trigger] rest[k]).c < v.len() by {
            assert(rest[k] == s[k + 2]);
        }
        assert forall|k: int| 0 <= k < rest.len() implies has_prefix(prefix, v[(#[trigger] rest[k]).c as int]) by {
            assert(rest[k] == s[k + 2]);
        }
        lemma_merge_symbols_spelled(v, prefix, Some(new), rest, c1, c2, r, max_length);
        let rr = merge_symbols(Some(new), rest, c1, c2, r, max_length);
        let out = merge_symbols(prev, s, c1, c2, r, max_length).0;
        assert(out == seq![new] + rr.0);
        assert(out.drop_first() =~= rr.0);
        assert(s.drop_first().drop_first() =~= rest);
        assert(spelled(v, prefix, s.drop_first(), false) == strip_prefix(prefix, v[c2 as int]) + spelled(v, prefix, rest, false));
        if !first {
            assert(has_prefix(prefix, v[s[0].c as int]));
            lemma_strip_concat(prefix, v[c1 as int], strip_prefix(prefix, v[c2 as int]));
        }
        assert(spelled(v, prefix, out, first) =~= spelled(v, prefix, s, first));
        assert forall|k: int| 0 <= k < out.len() && (k > 0 || !first) implies has_prefix(prefix, v[(#[trigger] out[k]).c as int]) by {
            if k > 0 {
                assert(out[k] == rr.0[k - 1]);
            } else {
                assert(has_prefix(prefix, v[c1 as int]));
                lemma_strip_concat(prefix, v[c1 as int], strip_prefix(prefix, v[c2 as int]));
            }
        }
        assert forall|k: int| 0 <= k < out.len() implies (#[trigger] out[k]).c < v.len() by {
            if k > 0 {
                assert(out[k] == rr.0[k - 1]);
            }
        }
    } else {
        let rest = s.drop_first();
        assert forall|k: int| 0 <= k < rest.len() implies (#[trigger] rest[k]).c < v.len() by {
            assert(rest[k] == s[k + 1]);
        }
        assert forall|k: int| 0 <= k < rest.len() implies has_prefix(prefix, v[(#[trigger] rest[k]).c as int]) by {
            assert(rest[k] == s[k + 1]);
        }
        lemma_merge_symbols_spelled(v, prefix, Some(s[0]), rest, c1, c2, r, max_length);
        let rr = merge_symbols(Some(s[0]), rest, c1, c2, r, max_length);
        let out = merge_symbols(prev, s, c1, c2, r, max_length).0;
        assert(out.drop_first() =~= rr.0);
        assert forall|k: int| 0 <= k < out.len() && (k > 0 || !first) implies has_prefix(prefix, v[(#[trigger] out[k]).c as int]) by {
            if k > 0 {
                assert(out[k] == rr.0[k - 1]);
            }
        }
        assert forall|k: int| 0 <= k < out.len() implies (#[trigger] out[k]).c < v.len() by {
            if k > 0 {
                assert(out[k] == rr.0[k - 1]);
            }
        }
    }
}

/// Spelling over a larger vocabulary that keeps the old tokens gives the same text.
proof fn lemma_spelled_extend(v: Seq<Seq<char>>, w: Seq<Seq<char>>, prefix: Option<Seq<char>>, s: Seq<Symbol>, first: bool)
    requires
        known(v, s),
        v.len() <= w.len(),
        w.take(v.len() as int) == v,
    ensures
        spelled(w, prefix, s, first) == spelled(v, prefix, s, first),
        continues_ok(v, prefix, s, first) ==> continues_ok(w, prefix, s, first),
        known(w, s),
    decreases s.len(),
{
    assert forall|k: int| 0 <= k < s.len() implies w[(#[trigger] s[k]).c as int] == v[s[k].c as int] by {
        assert(w.take(v.len() as int)[s[k].c as int] == w[s[k].c as int]);
    }
    if s.len() > 0 {
        let rest = s.drop_first();
        assert forall|k: int| 0 <= k < rest.len() implies (#[trigger] rest[k]).c < v.len() by {
            assert(rest[k] == s[k + 1]);
        }
        lemma_spelled_extend(v, w, prefix, rest, false);
        assert(w[s[0].c as int] == v[s[0].c as int]);
    }
}

/// Each word, as the words stand, spells what it did, and names known tokens.
pub open spec fn words_spell(v: Seq<Seq<char>>, prefix: Option<Seq<char>>, ws: Seq<Seq<Symbol>>) -> bool {
    forall|i: int| 0 <= i < ws.len() ==> continues_ok(v, prefix, #[trigger] ws[i], true) && known(v, ws[i])
}

proof fn lemma_apply_merges_spelled(
    v: Seq<Seq<char>>,
    prefix: Option<Seq<char>>,
    ws: Seq<Seq<Symbol>>,
    pos: Seq<usize>,
    c1: u32,
    c2: u32,
    r: u32,
    max_length: usize,
    n: nat,
)
    requires
        n <= pos.len(),
        forall|j: int| 0 <= j < n ==> #[trigger] pos[j] < ws.len(),
        c1 < v.len(),
        c2 < v.len(),
        r < v.len(),
        v[r as int] == v[c1 as int] + strip_prefix(prefix, v[c2 as int]),
        words_spell(v, prefix, ws),
    ensures
        apply_merges(ws, pos, c1, c2, r, max_length, n).0.len() == ws.len(),
        words_spell(v, prefix, apply_merges(ws, pos, c1, c2, r, max_length, n).0),
        forall|i: int| 0 <= i < ws.len() ==> spelled(v, prefix, #[trigger] apply_merges(ws, pos, c1, c2, r, max_length, n).0[i], true)
            == spelled(v, prefix, ws[i], true),
    decreases n,
{
    if n > 0 {
        lemma_apply_merges_spelled(v, prefix, ws, pos, c1, c2, r, max_length, (n - 1) as nat);
        let prev = apply_merges(ws, pos, c1, c2, r, max_length, (n - 1) as nat);
        let i = pos[n - 1];
        assert(pos[n - 1] < ws.len());
        assert(continues_ok(v, prefix, prev.0[i as int], true) && known(v, prev.0[i as int]));
        lemma_merge_symbols_spelled(v, prefix, None, prev.0[i as int], c1, c2, r, max_length);
        let res = apply_merges(ws, pos, c1, c2, r, max_length, n);
        assert forall|k: int| 0 <= k < res.0.len() implies continues_ok(v, prefix, #[trigger] res.0[k], true) && known(v, res.0[k]) by {
            if k != i {
                assert(res.0[k] == prev.0[k]);
            }
        }
        assert forall|k: int| 0 <= k < ws.len() implies spelled(v, prefix, #[trigger] res.0[k], true) == spelled(v, prefix, ws[k], true) by {
            if k != i {
                assert(res.0[k] == prev.0[k]);
            }
        }
    }
}

/// A merge round changes no word's spelling.
proof fn lemma_merge_step_spelled(lim: Limits, s: Training)
    requires
        training_wf(lim, s),
        words_spell(s.vocab, lim.prefix, s.words),
        merge_step(lim, s) is Some,
    ensures
        words_spell(merge_step(lim, s)->0.vocab, lim.prefix, merge_step(lim, s)->0.words),
        forall|i: int| 0 <= i < s.words.len() ==> spelled(merge_step(lim, s)->0.vocab, lim.prefix, #[trigger] merge_step(lim, s)->0.words[i], true)
            == spelled(s.vocab, lim.prefix, s.words[i], true),
{
    let n = merge_step(lim, s)->0;
    lemma_merge_step_vocab(lim, s);
    let k = top_index(s.queue);
    lemma_top_index(s.queue);
    let top = s.queue[k];
    assert(candidate_ok(s, top));
    let pre = lim.prefix;
    if top.count == s.pair_counts[top.pair] as u64 {
        let token = s.vocab[top.pair.0 as int] + strip_prefix(pre, s.vocab[top.pair.1 as int]);
        let added = add_token(s.vocab, token);
        lemma_find_token(s.vocab, token);
        let id = added.1 as u32;
        let v = n.vocab;
        assert(v == added.0);
        assert(v[top.pair.0 as int] == s.vocab[top.pair.0 as int]);
        assert(v[top.pair.1 as int] == s.vocab[top.pair.1 as int]);
        assert forall|i: int| 0 <= i < s.words.len() implies continues_ok(v, pre, #[trigger] s.words[i], true) && known(v, s.words[i]) by {
            lemma_spelled_extend(s.vocab, v, pre, s.words[i], true);
        }
        lemma_apply_merges_spelled(v, pre, s.words, top.pos, top.pair.0, top.pair.1, id, lim.max_length, top.pos.len());
        assert forall|i: int| 0 <= i < s.words.len() implies spelled(v, pre, #[trigger] n.words[i], true)
            == spelled(s.vocab, pre, s.words[i], true) by {
            lemma_spelled_extend(s.vocab, v, pre, s.words[i], true);
        }
    } else {
        assert(n.vocab == s.vocab && n.words == s.words);
    }
}

/// Merging to the end changes no word's spelling: every word spells, over the final
/// vocabulary, the text it spelled when merging started.
pub proof fn law_merging_keeps_spelling(lim: Limits, s: Training)
    requires
        training_wf(lim, s),
        words_spell(s.vocab, lim.prefix, s.words),
    ensures
        run_merges(lim, s).words.len() == s.words.len(),
        forall|i: int| 0 <= i < s.words.len() ==> spelled(run_merges(lim, s).vocab, lim.prefix, #[trigger] run_merges(lim, s).words[i], true)
            == spelled(s.vocab, lim.prefix, s.words[i], true),
        words_spell(run_merges(lim, s).vocab, lim.prefix, run_merges(lim, s).words),
    decreases symbol_total(s.words), s.queue.len(), stale_count(s.queue, s.pair_counts),
{
    if merge_step(lim, s) is Some {
        let n = merge_step(lim, s)->0;
        lemma_merge_step_decreases(lim, s);
        lemma_merge_step_wf(lim, s);
        lemma_merge_step_spelled(lim, s);
        lemma_merge_step_vocab(lim, s);
        law_merging_keeps_spelling(lim, n);
    }
}

/// Tokenizing a word gives symbols that name known tokens, each after the first
/// starting with the prefix.
pub proof fn law_tokens_continue_with_prefix(
    v: Seq<Seq<char>>,
    w: Seq<char>,
    prefix: Option<Seq<char>>,
    suffix: Option<Seq<char>>,
    j: nat,
)
    requires
        j <= w.len(),
        tokenize_chars(v, w, prefix, suffix, j).0.len() <= u32::MAX,
    ensures
        tokenize_chars(v, w, prefix, suffix, j).0.len() <= v.len() + j,
        continues_ok(tokenize_chars(v, w, prefix, suffix, j).0, prefix, tokenize_chars(v, w, prefix, suffix, j).1, true),
        known(tokenize_chars(v, w, prefix, suffix, j).0, tokenize_chars(v, w, prefix, suffix, j).1),
        tokenize_chars(v, w, prefix, suffix, j).1.len() <= j,
        tokenize_chars(v, w, prefix, suffix, j).0.len() >= v.len(),
        tokenize_chars(v, w, prefix, suffix, j).0.take(v.len() as int) == v,
    decreases j,
{
    if j == 0 {
        assert(v.take(v.len() as int) =~= v);
    } else {
        lemma_tokenize_chars_grows(v, w, prefix, suffix, (j - 1) as nat, j);
        law_tokens_continue_with_prefix(v, w, prefix, suffix, (j - 1) as nat);
        let r = tokenize_chars(v, w, prefix, suffix, (j - 1) as nat);
        let c = w[j - 1];
        if r.0.contains(seq![c]) {
            let tok = char_token(c, j - 1, w.len() as int, prefix, suffix);
            let a = add_token(r.0, tok);
            lemma_find_token(r.0, tok);
            let sym = Symbol { c: a.1 as u32, len: 1 };
            let res = tokenize_chars(v, w, prefix, suffix, j);
            assert(res.1 == r.1.push(sym));
            assert(a.0.take(r.0.len() as int) =~= r.0);
            assert(a.0.take(v.len() as int) =~= r.0.take(v.len() as int));
            assert forall|k: int| 0 <= k < r.1.len() implies a.0[(#[trigger] r.1[k]).c as int] == r.0[r.1[k].c as int] by {
                assert(a.0.take(r.0.len() as int)[r.1[k].c as int] == a.0[r.1[k].c as int]);
            }
            assert(a.1 < a.0.len() <= u32::MAX);
            assert(sym.c == a.1);
            if r.1.len() > 0 {
                assert(j - 1 > 0);
                if let Some(p) = prefix {
                    let s0 = p + seq![c];
                    assert(a.0[a.1] == tok);
                    assert(s0.take(p.len() as int) =~= p);
                    assert(tok.take(p.len() as int) =~= p);
                }
            }
            assert forall|k: int| 0 <= k < res.1.len() && (k > 0 || !true) implies has_prefix(prefix, res.0[(#[trigger] res.1[k]).c as int]) by {
                if k < r.1.len() {
                    assert(res.1[k] == r.1[k]);
                }
            }
        }
    }
}

proof fn lemma_tokenize_words_spell(
    v: Seq<Seq<char>>,
    wc: Seq<(Seq<char>, u64)>,
    prefix: Option<Seq<char>>,
    suffix: Option<Seq<char>>,
    n: nat,
)
    requires
        n <= wc.len(),
        tokenize_words(v, wc, prefix, suffix, n).0.len() <= u32::MAX,
    ensures
        words_spell(tokenize_words(v, wc, prefix, suffix, n).0, prefix, tokenize_words(v, wc, prefix, suffix, n).1),
        tokenize_words(v, wc, prefix, suffix, n).1.len() == n,
    decreases n,
{
    if n > 0 {
        let r = tokenize_words(v, wc, prefix, suffix, (n - 1) as nat);
        let w = wc[n - 1].0;
        lemma_tokenize_chars_grows(r.0, w, prefix, suffix, 0, w.len());
        lemma_tokenize_words_spell(v, wc, prefix, suffix, (n - 1) as nat);
        law_tokens_continue_with_prefix(r.0, w, prefix, suffix, w.len());
        let t = tokenize_chars(r.0, w, prefix, suffix, w.len());
        let res = tokenize_words(v, wc, prefix, suffix, n);
        assert forall|i: int| 0 <= i < res.1.len() implies continues_ok(res.0, prefix, #[trigger] res.1[i], true) && known(res.0, res.1[i]) by {
            if i < n - 1 {
                assert(res.1[i] == r.1[i]);
                lemma_spelled_extend(r.0, t.0, prefix, r.1[i], true);
            }
        }
    }
}

/// When merging starts, every word names known tokens, each after the first starting
/// with the prefix: the condition under which merging keeps every word's spelling.
pub proof fn law_initial_words_spell(
    v: Seq<Seq<char>>,
    wc: Seq<(Seq<char>, u64)>,
    prefix: Option<Seq<char>>,
    suffix: Option<Seq<char>>,
)
    requires
        initial_training(v, wc, prefix, suffix).vocab.len() <= u32::MAX,
    ensures
        words_spell(initial_training(v, wc, prefix, suffix).vocab, prefix, initial_training(v, wc, prefix, suffix).words),
{
    lemma_tokenize_words_spell(v, wc, prefix, suffix, wc.len());
}

proof fn lemma_spelled_push(v: Seq<Seq<char>>, prefix: Option<Seq<char>>, s: Seq<Symbol>, x: Symbol, first: bool)
    ensures
        spelled(v, prefix, s.push(x), first) == spelled(v, prefix, s, first) + (if s.len() == 0 && first {
            v[x.c as int]
        } else {
            strip_prefix(prefix, v[x.c as int])
        }),
    decreases s.len(),
{
    let t: Seq<char> = if s.len() == 0 && first { v[x.c as int] } else { strip_prefix(prefix, v[x.c as int]) };
    if s.len() == 0 {
        assert(s.push(x).drop_first() =~= Seq::<Symbol>::empty());
        assert(s.push(x)[0] == x);
        assert(spelled(v, prefix, Seq::<Symbol>::empty(), false) == Seq::<char>::empty());
        assert(t + Seq::<char>::empty() =~= t);
        assert(Seq::<char>::empty() + t =~= t);
    } else {
        assert(s.push(x).drop_first() =~= s.drop_first().push(x));
        assert(s.push(x)[0] == s[0]);
        lemma_spelled_push(v, prefix, s.drop_first(), x, false);
        let h: Seq<char> = if first { v[s[0].c as int] } else { strip_prefix(prefix, v[s[0].c as int]) };
        let a = spelled(v, prefix, s.drop_first(), false);
        assert(h + (a + t) =~= (h + a) + t);
    }
}

/// The token string of a character, without the prefix when it does not start the word,
/// is the character itself, followed by the suffix only when it ends the word.
proof fn lemma_char_token_spells(c: char, j: int, n: int, prefix: Option<Seq<char>>, suffix: Option<Seq<char>>)
    requires
        0 <= j < n,
    ensures
        (if j == 0 {
            char_token(c, j, n, prefix, suffix)
        } else {
            strip_prefix(prefix, char_token(c, j, n, prefix, suffix))
        }) == seq![c] + (if j == n - 1 { affix(suffix) } else { Seq::empty() }),
{
    let tok = char_token(c, j, n, prefix, suffix);
    let tail: Seq<char> = if j == n - 1 { affix(suffix) } else { Seq::empty() };
    if j == 0 {
        assert(tok =~= seq![c] + tail);
    } else {
        match prefix {
            Some(p) => {
                assert(tok =~= p + (seq![c] + tail));
                assert(tok.take(p.len() as int) =~= p);
                assert(tok.skip(p.len() as int) =~= seq![c] + tail);
            },
            None => {
                assert(tok =~= seq![c] + tail);
            },
        }
    }
}

/// Tokenizing a word whose characters are all tokens gives one symbol per character,
/// and the symbols spell the word, with the end-of-word suffix once, at its end.
pub proof fn law_tokenized_word_spells_word(
    v: Seq<Seq<char>>,
    w: Seq<char>,
    prefix: Option<Seq<char>>,
    suffix: Option<Seq<char>>,
)
    requires
        v.no_duplicates(),
        forall|i: int| 0 <= i < w.len() ==> v.contains(seq![#[trigger] w[i]]),
        tokenize_chars(v, w, prefix, suffix, w.len()).0.len() <= u32::MAX,
    ensures
        tokenize_chars(v, w, prefix, suffix, w.len()).1.len() == w.len(),
        spelled(tokenize_chars(v, w, prefix, suffix, w.len()).0, prefix, tokenize_chars(v, w, prefix, suffix, w.len()).1, true)
            == w + (if w.len() > 0 { affix(suffix) } else { Seq::empty() }),
{
    lemma_tokenized_prefix_spells(v, w, prefix, suffix, w.len());
    assert(w.take(w.len() as int) =~= w);
}

proof fn lemma_tokenized_prefix_spells(
    v: Seq<Seq<char>>,
    w: Seq<char>,
    prefix: Option<Seq<char>>,
    suffix: Option<Seq<char>>,
    j: nat,
)
    requires
        j <= w.len(),
        v.no_duplicates(),
        forall|i: int| 0 <= i < w.len() ==> v.contains(seq![#[trigger] w[i]]),
        tokenize_chars(v, w, prefix, suffix, w.len()).0.len() <= u32::MAX,
    ensures
        tokenize_chars(v, w, prefix, suffix, j).1.len() == j,
        spelled(tokenize_chars(v, w, prefix, suffix, j).0, prefix, tokenize_chars(v, w, prefix, suffix, j).1, true)
            == w.take(j as int) + (if j == w.len() && j > 0 { affix(suffix) } else { Seq::empty() }),
    decreases j,
{
    let n = w.len();
    if j == 0 {
        assert(w.take(0) =~= Seq::<char>::empty());
    } else {
        lemma_tokenized_prefix_spells(v, w, prefix, suffix, (j - 1) as nat);
        lemma_tokenize_chars(v, w, prefix, suffix, (j - 1) as nat);
        lemma_tokenize_chars_grows(v, w, prefix, suffix, j, n);
        let r = tokenize_chars(v, w, prefix, suffix, (j - 1) as nat);
        let c = w[j - 1];
        assert(v.contains(seq![c]));
        let k = choose|k: int| 0 <= k < v.len() && v[k] == seq![c];
        assert(r.0.take(v.len() as int)[k] == r.0[k]);
        assert(r.0.contains(seq![c]));
        let tok = char_token(c, j - 1, n as int, prefix, suffix);
        let a = add_token(r.0, tok);
        lemma_find_token(r.0, tok);
        let res = tokenize_chars(v, w, prefix, suffix, j);
        let sym = Symbol { c: a.1 as u32, len: 1 };
        assert(res.0 == a.0);
        assert(res.1 == r.1.push(sym));
        assert(a.0.len() <= u32::MAX);
        assert(sym.c as int == a.1);
        assert(a.0[a.1] == tok);
        assert(a.0.take(r.0.len() as int) =~= r.0);
        assert forall|q: int| 0 <= q < r.1.len() implies (#[trigger] r.1[q]).c < r.0.len() by {}
        lemma_spelled_extend(r.0, a.0, prefix, r.1, true);
        lemma_spelled_push(a.0, prefix, r.1, sym, true);
        lemma_char_token_spells(c, j - 1, n as int, prefix, suffix);
        assert(w.take(j as int) =~= w.take(j - 1) + seq![c]);
        let tail: Seq<char> = if j - 1 == n - 1 { affix(suffix) } else { Seq::empty() };
        assert(spelled(res.0, prefix, res.1, true) == w.take(j - 1) + (seq![c] + tail));
        assert(w.take(j - 1) + (seq![c] + tail) =~= w.take(j as int) + tail);
    }
}

} // verus!
