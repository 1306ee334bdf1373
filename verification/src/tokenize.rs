//! Splitting words into single-character tokens, and setting up training from there.

use vstd::prelude::*;
use crate::engine::{
    Training, Limits, MergeState, count_words, count_pairs, push_candidates, queue_candidates,
    training_wf, word_views, candidate_ok, budget, symbol_total,
};
use crate::merge_proofs::{table_ok, lemma_push_candidates_ok, lemma_count_words_ok, lemma_count_words_len, lemma_push_candidates_len};
use crate::queue::MergeQueue;
use crate::text::{chars_of, string_of_char, concat};
use crate::vocab::{Vocab, add_token, lemma_find_token};
use crate::word::{Symbol, Word, total_len, lemma_total_len_append, lemma_total_len_single};
use crate::word_counts::WordCounts;
use crate::alphabet::{word_chars, lemma_word_chars_cover};

verus! {

/// The token string for the character `c` at position `j` of a word of `n` characters:
/// with the continuing-subword prefix when it is not the first character, and with the
/// end-of-word suffix when it is the last.
pub open spec fn char_token(c: char, j: int, n: int, prefix: Option<Seq<char>>, suffix: Option<Seq<char>>) -> Seq<char> {
    let s = if j > 0 && prefix is Some {
        prefix->0 + seq![c]
    } else {
        seq![c]
    };
    if j == n - 1 && suffix is Some {
        s + suffix->0
    } else {
        s
    }
}

/// Tokenizing the first `j` characters of `w` against the vocabulary `v`: a character
/// whose one-character string is a token gives a symbol (its token string is added to
/// the vocabulary when new); any other character is skipped.
pub open spec fn tokenize_chars(
    v: Seq<Seq<char>>,
    w: Seq<char>,
    prefix: Option<Seq<char>>,
    suffix: Option<Seq<char>>,
    j: nat,
) -> (Seq<Seq<char>>, Seq<Symbol>)
    decreases j,
{
    if j == 0 {
        (v, Seq::empty())
    } else {
        let r = tokenize_chars(v, w, prefix, suffix, (j - 1) as nat);
        let c = w[j - 1];
        if r.0.contains(seq![c]) {
            let a = add_token(r.0, char_token(c, j - 1, w.len() as int, prefix, suffix));
            (a.0, r.1.push(Symbol { c: a.1 as u32, len: 1 }))
        } else {
            r
        }
    }
}

/// Tokenizing the first `n` words of `wc`, in order, against a growing vocabulary.
pub open spec fn tokenize_words(
    v: Seq<Seq<char>>,
    wc: Seq<(Seq<char>, u64)>,
    prefix: Option<Seq<char>>,
    suffix: Option<Seq<char>>,
    n: nat,
) -> (Seq<Seq<char>>, Seq<Seq<Symbol>>)
    decreases n,
{
    if n == 0 {
        (v, Seq::empty())
    } else {
        let r = tokenize_words(v, wc, prefix, suffix, (n - 1) as nat);
        let t = tokenize_chars(r.0, wc[n - 1].0, prefix, suffix, wc[n - 1].0.len());
        (t.0, r.1.push(t.1))
    }
}

/// The number of characters in the first `n` words of `wc`.
pub open spec fn char_total(wc: Seq<(Seq<char>, u64)>, n: nat) -> nat
    decreases n,
{
    if n == 0 {
        0
    } else {
        char_total(wc, (n - 1) as nat) + wc[n - 1].0.len()
    }
}

/// The state in which merging starts: the words tokenized, their pairs counted, and
/// every pair with a positive count queued in the order in which it was first seen.
pub open spec fn initial_training(
    v: Seq<Seq<char>>,
    wc: Seq<(Seq<char>, u64)>,
    prefix: Option<Seq<char>>,
    suffix: Option<Seq<char>>,
) -> Training {
    let tok = tokenize_words(v, wc, prefix, suffix, wc.len());
    let counts = wc.map_values(|x: (Seq<char>, u64)| x.1);
    let counted = count_words(tok.1, counts, tok.1.len());
    Training {
        vocab: tok.0,
        words: tok.1,
        counts: counts,
        pair_counts: counted.0,
        queue: push_candidates(Seq::empty(), counted.1, counted.0, counted.1.len()),
        merges: Seq::empty(),
    }
}

/// Tokenizing keeps the vocabulary free of duplicates, adds at most one token per
/// character, and yields symbols of one character each that name known tokens.
pub proof fn lemma_tokenize_chars(
    v: Seq<Seq<char>>,
    w: Seq<char>,
    prefix: Option<Seq<char>>,
    suffix: Option<Seq<char>>,
    j: nat,
)
    requires
        v.no_duplicates(),
        j <= w.len(),
    ensures
        ({
            let r = tokenize_chars(v, w, prefix, suffix, j);
            &&& r.0.no_duplicates()
            &&& v.len() <= r.0.len() <= v.len() + j
            &&& r.0.take(v.len() as int) == v
            &&& r.1.len() <= j
            &&& total_len(r.1) == r.1.len()
            &&& forall|k: int| 0 <= k < r.1.len() ==> (#[trigger] r.1[k]).c < r.0.len()
        }),
    decreases j,
{
    if j > 0 {
        lemma_tokenize_chars(v, w, prefix, suffix, (j - 1) as nat);
        let r = tokenize_chars(v, w, prefix, suffix, (j - 1) as nat);
        let c = w[j - 1];
        if r.0.contains(seq![c]) {
            let tok = char_token(c, j - 1, w.len() as int, prefix, suffix);
            let a = add_token(r.0, tok);
            lemma_find_token(r.0, tok);
            let sym = Symbol { c: a.1 as u32, len: 1 };
            lemma_total_len_append(r.1, seq![sym]);
            lemma_total_len_single(sym);
            assert(r.1.push(sym) =~= r.1 + seq![sym]);
            if !r.0.contains(tok) {
                assert forall|x: int, y: int| 0 <= x < a.0.len() && 0 <= y < a.0.len() && x != y
                    implies a.0[x] != a.0[y] by {
                    if x == r.0.len() {
                        assert(a.0[y] == r.0[y]);
                    } else if y == r.0.len() {
                        assert(a.0[x] == r.0[x]);
                    }
                }
                assert(a.0.take(v.len() as int) =~= r.0.take(v.len() as int));
            }
            let res = tokenize_chars(v, w, prefix, suffix, j);
            assert forall|k: int| 0 <= k < res.1.len() implies (#[trigger] res.1[k]).c < res.0.len() by {
                if k < r.1.len() {
                    assert(res.1[k] == r.1[k]);
                }
            }
        }
    }
}

/// Tokenizing words keeps the vocabulary free of duplicates, keeps its first tokens,
/// and yields one word per entry whose symbols name known tokens.
pub proof fn lemma_tokenize_words(
    v: Seq<Seq<char>>,
    wc: Seq<(Seq<char>, u64)>,
    prefix: Option<Seq<char>>,
    suffix: Option<Seq<char>>,
    n: nat,
)
    requires
        v.no_duplicates(),
        n <= wc.len(),
    ensures
        ({
            let r = tokenize_words(v, wc, prefix, suffix, n);
            &&& r.0.no_duplicates()
            &&& v.len() <= r.0.len()
            &&& r.0.take(v.len() as int) == v
            &&& r.1.len() == n
            &&& forall|i: int| 0 <= i < n ==> total_len(#[trigger] r.1[i]) == r.1[i].len()
                && r.1[i].len() <= wc[i].0.len()
            &&& forall|i: int, k: int| 0 <= i < n && 0 <= k < r.1[i].len() ==> (#[trigger] r.1[i][k]).c < r.0.len()
        }),
    decreases n,
{
    if n > 0 {
        lemma_tokenize_words(v, wc, prefix, suffix, (n - 1) as nat);
        let r = tokenize_words(v, wc, prefix, suffix, (n - 1) as nat);
        lemma_tokenize_chars(r.0, wc[n - 1].0, prefix, suffix, wc[n - 1].0.len());
        let t = tokenize_chars(r.0, wc[n - 1].0, prefix, suffix, wc[n - 1].0.len());
        let res = tokenize_words(v, wc, prefix, suffix, n);
        assert(t.0.take(v.len() as int) =~= t.0.take(r.0.len() as int).take(v.len() as int));
        assert forall|i: int, k: int| 0 <= i < n && 0 <= k < res.1[i].len() implies (#[trigger] res.1[i][k]).c < res.0.len() by {
            if i < n - 1 {
                assert(res.1[i] == r.1[i]);
                assert(r.1[i][k].c < r.0.len());
            }
        }
        assert forall|i: int| 0 <= i < n implies total_len(#[trigger] res.1[i]) == res.1[i].len()
            && res.1[i].len() <= wc[i].0.len() by {
            if i < n - 1 {
                assert(res.1[i] == r.1[i]);
            }
        }
    }
}

/// Tokenizes the word `w`, adding to `vocab` the token strings that it needs.
pub fn tokenize_word(vocab: &mut Vocab, w: &str, prefix: &Option<String>, suffix: &Option<String>) -> (word: Word)
    requires
        old(vocab).wf(),
        tokenize_chars(old(vocab)@, w@, prefix.deep_view(), suffix.deep_view(), w@.len()).0.len() <= u32::MAX,
    ensures
        final(vocab).wf(),
        (final(vocab)@, word@) == tokenize_chars(old(vocab)@, w@, prefix.deep_view(), suffix.deep_view(), w@.len()),
{
    let chars = chars_of(w);
    let n = chars.len();
    let mut word = Word::new();
    let mut j: usize = 0;
    proof {
        old(vocab).lemma_wf();
    }
    while j < n
        invariant
            chars@ == w@,
            n == chars.len(),
            j <= n,
            vocab.wf(),
            old(vocab)@.no_duplicates(),
            tokenize_chars(old(vocab)@, w@, prefix.deep_view(), suffix.deep_view(), n as nat).0.len() <= u32::MAX,
            (vocab@, word@) == tokenize_chars(old(vocab)@, w@, prefix.deep_view(), suffix.deep_view(), j as nat),
        decreases n - j,
    {
        proof {
            lemma_tokenize_chars(old(vocab)@, w@, prefix.deep_view(), suffix.deep_view(), j as nat);
            lemma_tokenize_chars_grows(old(vocab)@, w@, prefix.deep_view(), suffix.deep_view(), (j + 1) as nat, n as nat);
        }
        let c = chars[j];
        let single = string_of_char(c);
        if vocab.contains(single.as_str()) {
            let mut s = single;
            if j > 0 {
                match prefix {
                    Some(p) => {
                        s = concat(p.as_str(), s.as_str());
                    },
                    None => {},
                }
            }
            if j == n - 1 {
                match suffix {
                    Some(x) => {
                        s = concat(s.as_str(), x.as_str());
                    },
                    None => {},
                }
            }
            assert(s@ == char_token(c, j as int, n as int, prefix.deep_view(), suffix.deep_view()));
            let id = match vocab.get(s.as_str()) {
                Some(id) => id,
                None => vocab.add(s),
            };
            word.add(id, 1);
        }
        j = j + 1;
    }
    word
}

/// Sets up training: tokenizes the words of `wc` against `vocab`, counts their pairs,
/// and queues every pair with a positive count.
pub fn start_training(
    vocab: Vocab,
    wc: &WordCounts,
    prefix: &Option<String>,
    suffix: &Option<String>,
) -> (st: MergeState)
    requires
        vocab.wf(),
        wc.wf(),
        vocab@.len() + 3 * word_chars(wc@).len() <= u32::MAX,
    ensures
        st.vocab.wf(),
        st@ == initial_training(vocab@, wc@, prefix.deep_view(), suffix.deep_view()),
        st@.vocab.len() <= vocab@.len() + 3 * word_chars(wc@).len(),
        forall|lim: Limits| lim.vocab_size <= u32::MAX || vocab@.len() + 3 * word_chars(wc@).len() + 5 * char_total(wc@, wc@.len()) <= u32::MAX
            ==> training_wf(lim, #[trigger] st@),
        budget(st@) <= vocab@.len() + 3 * word_chars(wc@).len() + 5 * char_total(wc@, wc@.len()),
{
    let ghost v0 = vocab@;
    let ghost pre = prefix.deep_view();
    let ghost suf = suffix.deep_view();
    let mut vocab = vocab;
    let mut words: Vec<Word> = Vec::new();
    let mut counts: Vec<u64> = Vec::new();
    let n = wc.len();
    let mut j: usize = 0;
    proof {
        vocab.lemma_wf();
    }
    while j < n
        invariant
            wc.wf(),
            n == wc@.len(),
            j <= n,
            vocab.wf(),
            v0.no_duplicates(),
            pre == prefix.deep_view(),
            suf == suffix.deep_view(),
            v0.len() + 3 * word_chars(wc@).len() <= u32::MAX,
            (vocab@, word_views(words@)) == tokenize_words(v0, wc@, pre, suf, j as nat),
            counts@ == wc@.map_values(|x: (Seq<char>, u64)| x.1).take(j as int),
        decreases n - j,
    {
        proof {
            lemma_tokenize_words(v0, wc@, pre, suf, j as nat);
            lemma_tokenize_words_bound(v0, wc@, pre, suf, (j + 1) as nat);
        }
        let (w, c) = wc.get(j);
        let ghost before = words@;
        let ghost r = tokenize_words(v0, wc@, pre, suf, j as nat);
        assert(r.0 == vocab@);
        assert(w@ == wc@[j as int].0);
        let ws = w.as_str();
        assert(ws@ == wc@[j as int].0);
        let word = tokenize_word(&mut vocab, ws, prefix, suffix);
        assert((vocab@, word@) == tokenize_chars(r.0, ws@, prefix.deep_view(), suffix.deep_view(), ws@.len()));
        let ghost t = tokenize_chars(r.0, wc@[j as int].0, pre, suf, wc@[j as int].0.len());
        assert(vocab@ == t.0);
        assert(word@ == t.1);
        words.push(word);
        counts.push(c);
        proof {
            assert(word_views(words@) =~= word_views(before).push(word@));
            assert(word_views(words@) == r.1.push(t.1));
            assert(counts@ =~= wc@.map_values(|x: (Seq<char>, u64)| x.1).take(j + 1));
        }
        j = j + 1;
    }
    proof {
        assert(counts@ =~= wc@.map_values(|x: (Seq<char>, u64)| x.1));
        lemma_tokenize_words(v0, wc@, pre, suf, n as nat);
        wc.lemma_word_lengths();
    }
    let (pc, t) = count_pairs(&words, &counts);
    let mut queue = MergeQueue::new();
    let ghost tok = tokenize_words(v0, wc@, pre, suf, n as nat);
    proof {
        lemma_count_words_ok(tok.1, counts@, tok.1.len(), tok.0.len());
    }
    queue_candidates(&mut queue, t, &pc);
    let st = MergeState { vocab, words, counts, pair_counts: pc, queue, merges: Vec::new() };
    proof {
        lemma_initial_training_wf(v0, wc@, pre, suf);
        assert(st@ == initial_training(v0, wc@, pre, suf));
    }
    st
}

/// The state in which merging starts is well formed, keeps the given vocabulary as its
/// first tokens, and adds at most three tokens per distinct character of the words
/// (the character with the prefix, with the suffix, and with both).
pub proof fn lemma_initial_training_wf(
    v: Seq<Seq<char>>,
    wc: Seq<(Seq<char>, u64)>,
    pre: Option<Seq<char>>,
    suf: Option<Seq<char>>,
)
    requires
        v.no_duplicates(),
        v.len() + 3 * word_chars(wc).len() <= u32::MAX,
        forall|i: int| 0 <= i < wc.len() ==> (#[trigger] wc[i]).0.len() <= usize::MAX,
    ensures
        forall|lim: Limits| lim.vocab_size <= u32::MAX || v.len() + 3 * word_chars(wc).len() + 5 * char_total(wc, wc.len()) <= u32::MAX
            ==> training_wf(lim, #[trigger] initial_training(v, wc, pre, suf)),
        budget(initial_training(v, wc, pre, suf)) <= v.len() + 3 * word_chars(wc).len() + 5 * char_total(wc, wc.len()),
        initial_training(v, wc, pre, suf).vocab.len() <= v.len() + 3 * word_chars(wc).len(),
        initial_training(v, wc, pre, suf).vocab.len() >= v.len(),
        initial_training(v, wc, pre, suf).vocab.take(v.len() as int) == v,
        initial_training(v, wc, pre, suf).words.len() == wc.len(),
        initial_training(v, wc, pre, suf).merges.len() == 0,
{
    let n = wc.len();
    lemma_tokenize_words(v, wc, pre, suf, n);
    lemma_tokenize_words_bound(v, wc, pre, suf, n);
    let tok = tokenize_words(v, wc, pre, suf, n);
    let counts = wc.map_values(|x: (Seq<char>, u64)| x.1);
    lemma_count_words_ok(tok.1, counts, tok.1.len(), tok.0.len());
    let counted = count_words(tok.1, counts, tok.1.len());
    let sv = initial_training(v, wc, pre, suf);
    assert(sv.vocab == tok.0);
    assert(sv.words == tok.1);
    assert(counts.len() == tok.1.len());
    assert(sv.pair_counts == counted.0);
    assert(table_ok(counted.1, sv.pair_counts, sv.vocab.len(), sv.words.len()));
    lemma_push_candidates_ok(sv, Seq::empty(), counted.1, counted.1.len());
    assert forall|i: int| 0 <= i < sv.words.len() implies total_len(#[trigger] sv.words[i]) <= usize::MAX by {
        assert(wc[i].0.len() <= usize::MAX);
    }
    assert(sv.vocab.no_duplicates());
    assert(sv.vocab.len() <= u32::MAX);
    assert(sv.counts.len() == sv.words.len());
    assert(forall|i: int, j: int|
        0 <= i < sv.words.len() && 0 <= j < sv.words[i].len() ==> #[trigger] sv.words[i][j].c < sv.vocab.len());
    assert(sv.queue == push_candidates(Seq::empty(), counted.1, counted.0, counted.1.len()));
    assert(forall|k: int| 0 <= k < sv.queue.len() ==> candidate_ok(sv, #[trigger] sv.queue[k]));
    lemma_count_words_len(tok.1, counts, tok.1.len());
    assert(tok.1.take(tok.1.len() as int) =~= tok.1);
    lemma_push_candidates_len(Seq::empty(), counted.1, counted.0, counted.1.len());
    lemma_symbols_within_chars(tok.1, wc, n);
    assert(budget(sv) <= v.len() + 3 * word_chars(wc).len() + 5 * char_total(wc, wc.len()));
    assert forall|lim: Limits| lim.vocab_size <= u32::MAX || v.len() + 3 * word_chars(wc).len() + 5 * char_total(wc, wc.len()) <= u32::MAX
        implies training_wf(lim, #[trigger] initial_training(v, wc, pre, suf)) by {}
}

/// The text that an affix adds: the affix itself, or nothing.
pub open spec fn affix(a: Option<Seq<char>>) -> Seq<char> {
    match a {
        Some(x) => x,
        None => Seq::empty(),
    }
}

/// The token strings that the character `c` may take besides itself: with the prefix,
/// with the suffix, and with both.
pub open spec fn char_forms(c: char, prefix: Option<Seq<char>>, suffix: Option<Seq<char>>) -> Seq<Seq<char>> {
    seq![affix(prefix) + seq![c], seq![c] + affix(suffix), affix(prefix) + seq![c] + affix(suffix)]
}

/// The forms of all characters of `cs`, three per character.
pub open spec fn affix_forms(cs: Seq<char>, prefix: Option<Seq<char>>, suffix: Option<Seq<char>>) -> Seq<Seq<char>>
    decreases cs.len(),
{
    if cs.len() == 0 {
        Seq::empty()
    } else {
        affix_forms(cs.drop_last(), prefix, suffix) + char_forms(cs.last(), prefix, suffix)
    }
}

proof fn lemma_affix_forms(cs: Seq<char>, prefix: Option<Seq<char>>, suffix: Option<Seq<char>>)
    ensures
        affix_forms(cs, prefix, suffix).len() == 3 * cs.len(),
        forall|i: int, k: int| 0 <= i < cs.len() && 0 <= k < 3
            ==> affix_forms(cs, prefix, suffix).contains(#[trigger] char_forms(cs[i], prefix, suffix)[k]),
    decreases cs.len(),
{
    if cs.len() > 0 {
        let d = cs.drop_last();
        lemma_affix_forms(d, prefix, suffix);
        let f = affix_forms(d, prefix, suffix);
        let g = affix_forms(cs, prefix, suffix);
        assert forall|i: int, k: int| 0 <= i < cs.len() && 0 <= k < 3
            implies g.contains(#[trigger] char_forms(cs[i], prefix, suffix)[k]) by {
            let x = char_forms(cs[i], prefix, suffix)[k];
            if i < cs.len() - 1 {
                assert(d[i] == cs[i]);
                assert(f.contains(char_forms(d[i], prefix, suffix)[k]));
                let q = choose|q: int| 0 <= q < f.len() && f[q] == x;
                assert(g[q] == x);
            } else {
                assert(g[f.len() + k] == x);
            }
        }
    }
}

proof fn lemma_char_token_form(c: char, j: int, n: int, prefix: Option<Seq<char>>, suffix: Option<Seq<char>>)
    ensures
        char_token(c, j, n, prefix, suffix) == seq![c]
            || char_token(c, j, n, prefix, suffix) == char_forms(c, prefix, suffix)[0]
            || char_token(c, j, n, prefix, suffix) == char_forms(c, prefix, suffix)[1]
            || char_token(c, j, n, prefix, suffix) == char_forms(c, prefix, suffix)[2],
{
}

/// A list without duplicates whose entries from `base` on all come from `f` has at most
/// `base + f.len()` entries.
proof fn lemma_fresh_bound(r: Seq<Seq<char>>, base: nat, f: Seq<Seq<char>>)
    requires
        r.no_duplicates(),
        base <= r.len(),
        forall|k: int| base <= k < r.len() ==> f.contains(#[trigger] r[k]),
    ensures
        r.len() <= base + f.len(),
{
    let e = r.skip(base as int);
    assert forall|a: int, b: int| 0 <= a < e.len() && 0 <= b < e.len() && a != b implies e[a] != e[b] by {
        assert(e[a] == r[base + a] && e[b] == r[base + b]);
    }
    e.unique_seq_to_set();
    f.lemma_cardinality_of_set();
    vstd::seq_lib::seq_to_set_is_finite(f);
    assert forall|x: Seq<char>| e.to_set().contains(x) implies f.to_set().contains(x) by {
        let q = choose|q: int| 0 <= q < e.len() && e[q] == x;
        assert(r[base + q] == x);
    }
    vstd::set_lib::lemma_len_subset(e.to_set(), f.to_set());
}

proof fn lemma_tokenize_chars_fresh(
    v: Seq<Seq<char>>,
    w: Seq<char>,
    prefix: Option<Seq<char>>,
    suffix: Option<Seq<char>>,
    j: nat,
    cs: Seq<char>,
)
    requires
        j <= w.len(),
        forall|i: int| 0 <= i < j ==> cs.contains(#[trigger] w[i]),
    ensures
        tokenize_chars(v, w, prefix, suffix, j).0.len() >= v.len(),
        forall|k: int| v.len() <= k < tokenize_chars(v, w, prefix, suffix, j).0.len()
            ==> affix_forms(cs, prefix, suffix).contains(#[trigger] tokenize_chars(v, w, prefix, suffix, j).0[k]),
    decreases j,
{
    if j > 0 {
        lemma_tokenize_chars_fresh(v, w, prefix, suffix, (j - 1) as nat, cs);
        let r = tokenize_chars(v, w, prefix, suffix, (j - 1) as nat);
        let c = w[j - 1];
        if r.0.contains(seq![c]) {
            let tok = char_token(c, j - 1, w.len() as int, prefix, suffix);
            let a = add_token(r.0, tok);
            if !r.0.contains(tok) {
                lemma_char_token_form(c, j - 1, w.len() as int, prefix, suffix);
                assert(tok != seq![c]);
                assert(cs.contains(w[j - 1]));
                let i = choose|i: int| 0 <= i < cs.len() && cs[i] == c;
                lemma_affix_forms(cs, prefix, suffix);
                assert(affix_forms(cs, prefix, suffix).contains(char_forms(cs[i], prefix, suffix)[0]));
                assert(affix_forms(cs, prefix, suffix).contains(char_forms(cs[i], prefix, suffix)[1]));
                assert(affix_forms(cs, prefix, suffix).contains(char_forms(cs[i], prefix, suffix)[2]));
                assert(affix_forms(cs, prefix, suffix).contains(tok));
                assert forall|k: int| v.len() <= k < a.0.len() implies affix_forms(cs, prefix, suffix).contains(#[trigger] a.0[k]) by {
                    if k < r.0.len() {
                        assert(a.0[k] == r.0[k]);
                    }
                }
            }
        }
    }
}

proof fn lemma_tokenize_words_fresh(
    v: Seq<Seq<char>>,
    wc: Seq<(Seq<char>, u64)>,
    prefix: Option<Seq<char>>,
    suffix: Option<Seq<char>>,
    n: nat,
    cs: Seq<char>,
)
    requires
        v.no_duplicates(),
        n <= wc.len(),
        forall|i: int, q: int| 0 <= i < n && 0 <= q < wc[i].0.len() ==> cs.contains(#[trigger] wc[i].0[q]),
    ensures
        forall|k: int| v.len() <= k < tokenize_words(v, wc, prefix, suffix, n).0.len()
            ==> affix_forms(cs, prefix, suffix).contains(#[trigger] tokenize_words(v, wc, prefix, suffix, n).0[k]),
    decreases n,
{
    if n > 0 {
        lemma_tokenize_words_fresh(v, wc, prefix, suffix, (n - 1) as nat, cs);
        lemma_tokenize_words(v, wc, prefix, suffix, (n - 1) as nat);
        let r = tokenize_words(v, wc, prefix, suffix, (n - 1) as nat);
        let w = wc[n - 1].0;
        assert forall|i: int| 0 <= i < w.len() implies cs.contains(#[trigger] w[i]) by {
            assert(cs.contains(wc[n - 1].0[i]));
        }
        lemma_tokenize_chars_fresh(r.0, w, prefix, suffix, w.len(), cs);
        lemma_tokenize_chars(r.0, w, prefix, suffix, w.len());
        let t = tokenize_chars(r.0, w, prefix, suffix, w.len());
        assert forall|k: int| v.len() <= k < t.0.len() implies affix_forms(cs, prefix, suffix).contains(#[trigger] t.0[k]) by {
            if k < r.0.len() {
                assert(t.0[k] == t.0.take(r.0.len() as int)[k]);
            }
        }
    }
}

/// Tokenizing the first `n` words adds at most three tokens per distinct character of
/// the words.
pub proof fn lemma_tokenize_words_bound(
    v: Seq<Seq<char>>,
    wc: Seq<(Seq<char>, u64)>,
    prefix: Option<Seq<char>>,
    suffix: Option<Seq<char>>,
    n: nat,
)
    requires
        v.no_duplicates(),
        n <= wc.len(),
    ensures
        tokenize_words(v, wc, prefix, suffix, n).0.len() <= v.len() + 3 * word_chars(wc).len(),
{
    let cs = word_chars(wc);
    lemma_word_chars_cover(wc);
    assert forall|i: int, q: int| 0 <= i < n && 0 <= q < wc[i].0.len() implies cs.contains(#[trigger] wc[i].0[q]) by {}
    lemma_tokenize_words_fresh(v, wc, prefix, suffix, n, cs);
    lemma_tokenize_words(v, wc, prefix, suffix, n);
    lemma_affix_forms(cs, prefix, suffix);
    lemma_fresh_bound(tokenize_words(v, wc, prefix, suffix, n).0, v.len(), affix_forms(cs, prefix, suffix));
}

/// The vocabulary only grows as tokenizing goes on.
pub proof fn lemma_tokenize_chars_grows(
    v: Seq<Seq<char>>,
    w: Seq<char>,
    prefix: Option<Seq<char>>,
    suffix: Option<Seq<char>>,
    j: nat,
    k: nat,
)
    requires
        j <= k,
    ensures
        tokenize_chars(v, w, prefix, suffix, j).0.len() <= tokenize_chars(v, w, prefix, suffix, k).0.len(),
    decreases k,
{
    if j < k {
        lemma_tokenize_chars_grows(v, w, prefix, suffix, j, (k - 1) as nat);
    }
}

/// Words of no more symbols than their characters hold no more symbols in all than the
/// words' characters.
proof fn lemma_symbols_within_chars(ws: Seq<Seq<Symbol>>, wc: Seq<(Seq<char>, u64)>, n: nat)
    requires
        ws.len() == n,
        n <= wc.len(),
        forall|i: int| 0 <= i < n ==> (#[trigger] ws[i]).len() <= wc[i].0.len(),
    ensures
        symbol_total(ws) <= char_total(wc, n),
    decreases n,
{
    if n > 0 {
        let d = ws.drop_last();
        assert forall|i: int| 0 <= i < n - 1 implies (#[trigger] d[i]).len() <= wc[i].0.len() by {
            assert(d[i] == ws[i]);
        }
        lemma_symbols_within_chars(d, wc, (n - 1) as nat);
    }
}

pub proof fn lemma_char_total_mono(wc: Seq<(Seq<char>, u64)>, a: nat, b: nat)
    requires
        a <= b,
    ensures
        char_total(wc, a) <= char_total(wc, b),
        forall|i: int| 0 <= i < b ==> #[trigger] wc[i].0.len() <= char_total(wc, b),
    decreases b,
{
    if b > 0 {
        if a < b {
            lemma_char_total_mono(wc, a, (b - 1) as nat);
        } else {
            lemma_char_total_mono(wc, 0, (b - 1) as nat);
        }
    }
}

} // verus!
