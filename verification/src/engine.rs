//! The merge engine shared by both training stages: counting pairs, then merging the
//! best pair again and again.

use vstd::prelude::*;
use crate::pairs::{Pair, PairCounts, PairTable, add_count, table_add};
use crate::queue::{Candidate, top_index, lemma_top_index};
use crate::merge_proofs::{lemma_merge_step_decreases, lemma_merge_step_wf, lemma_apply_merges_ids, lemma_apply_changes_ok};
use crate::vocab::{Vocab, add_token};
use crate::word::{Symbol, Word, merge_symbols, total_len, lemma_merge_symbols_shape};
use crate::queue::{Merge, MergeQueue};
use crate::text::{starts_with, suffix_from, concat};
use vstd::string::StrSliceExecFns;

verus! {

broadcast use vstd::std_specs::hash::group_hash_axioms;

/// The number of windows (adjacent pairs) of a word.
pub open spec fn windows(w: Seq<Symbol>) -> nat {
    if w.len() < 2 {
        0
    } else {
        (w.len() - 1) as nat
    }
}

/// Counting the first `m` windows of the word `w` at position `i`, weighted by `c`.
pub open spec fn count_windows(
    pc: Map<Pair, i32>,
    t: Seq<(Pair, Seq<usize>)>,
    w: Seq<Symbol>,
    i: usize,
    c: i32,
    m: nat,
) -> (Map<Pair, i32>, Seq<(Pair, Seq<usize>)>)
    decreases m,
{
    if m == 0 {
        (pc, t)
    } else {
        let r = count_windows(pc, t, w, i, c, (m - 1) as nat);
        let p = (w[m - 1].c, w[m as int].c);
        (add_count(r.0, p, c), table_add(r.1, p, i))
    }
}

/// The pair counts and the pair table after scanning the first `n` words, in order,
/// each pair occurrence weighted by the word's count.
pub open spec fn count_words(ws: Seq<Seq<Symbol>>, cs: Seq<u64>, n: nat) -> (Map<Pair, i32>, Seq<(Pair, Seq<usize>)>)
    decreases n,
{
    if n == 0 {
        (Map::empty(), Seq::empty())
    } else {
        let r = count_words(ws, cs, (n - 1) as nat);
        count_windows(r.0, r.1, ws[n - 1], (n - 1) as usize, cs[n - 1] as i32, windows(ws[n - 1]))
    }
}

/// The text of a token at a non-first position, without the continuing-subword prefix
/// when it starts with it.
pub open spec fn strip_prefix(prefix: Option<Seq<char>>, s: Seq<char>) -> Seq<char> {
    match prefix {
        Some(p) => if p.len() <= s.len() && s.take(p.len() as int) == p {
            s.skip(p.len() as int)
        } else {
            s
        },
        None => s,
    }
}

/// The views of a sequence of words.
pub open spec fn word_views(ws: Seq<Word>) -> Seq<Seq<Symbol>> {
    ws.map_values(|w: Word| w@)
}

/// Tags each change with the position of the word it came from.
pub open spec fn tag_changes(ch: Seq<((u32, u32), i32)>, i: usize) -> Seq<(((u32, u32), i32), usize)> {
    ch.map_values(|c: ((u32, u32), i32)| (c, i))
}

/// Merging the pair `(c1, c2)` into `r` in the words at the first `n` listed positions,
/// in order; gives the new words and all changes, each tagged with its word.
pub open spec fn apply_merges(
    ws: Seq<Seq<Symbol>>,
    pos: Seq<usize>,
    c1: u32,
    c2: u32,
    r: u32,
    max_length: usize,
    n: nat,
) -> (Seq<Seq<Symbol>>, Seq<(((u32, u32), i32), usize)>)
    decreases n,
{
    if n == 0 {
        (ws, Seq::empty())
    } else {
        let prev = apply_merges(ws, pos, c1, c2, r, max_length, (n - 1) as nat);
        let i = pos[n - 1];
        let m = merge_symbols(None, prev.0[i as int], c1, c2, r, max_length);
        (prev.0.update(i as int, m.0), prev.1 + tag_changes(m.1, i))
    }
}

/// Applying the first `n` tagged changes to the pair counts, each weighted by the count
/// of its word, and recording in `t` where pairs were newly formed.
pub open spec fn apply_changes(
    pc: Map<Pair, i32>,
    t: Seq<(Pair, Seq<usize>)>,
    changes: Seq<(((u32, u32), i32), usize)>,
    counts: Seq<u64>,
    n: nat,
) -> (Map<Pair, i32>, Seq<(Pair, Seq<usize>)>)
    decreases n,
{
    if n == 0 {
        (pc, t)
    } else {
        let prev = apply_changes(pc, t, changes, counts, (n - 1) as nat);
        let p = changes[n - 1].0.0;
        let d = changes[n - 1].0.1;
        let iw = changes[n - 1].1;
        (
            add_count(prev.0, p, vstd::wrapping::i32_specs::wrapping_mul(d, counts[iw as int] as i32)),
            if d > 0 {
                table_add(prev.1, p, iw)
            } else {
                prev.1
            },
        )
    }
}

/// Queueing, in table order, the first `n` pairs of `t` whose count in `pc` is positive.
pub open spec fn push_candidates(q: Seq<Candidate>, t: Seq<(Pair, Seq<usize>)>, pc: Map<Pair, i32>, n: nat) -> Seq<Candidate>
    decreases n,
{
    if n == 0 {
        q
    } else {
        let prev = push_candidates(q, t, pc, (n - 1) as nat);
        let p = t[n - 1].0;
        if pc[p] > 0 {
            prev.push(Candidate { pair: p, count: pc[p] as u64, pos: t[n - 1].1 })
        } else {
            prev
        }
    }
}

/// Counts every adjacent pair of every word, weighted by the word's count, and records
/// in which words each pair occurs.
pub fn count_pairs(words: &Vec<Word>, counts: &Vec<u64>) -> (r: (PairCounts, PairTable))
    requires
        words.len() == counts.len(),
    ensures
        r.1.wf(),
        (r.0@, r.1@) == count_words(word_views(words@), counts@, words.len() as nat),
{
    let ghost ws = word_views(words@);
    let mut pc = PairCounts::new();
    let mut t = PairTable::new();
    let n = words.len();
    let mut i: usize = 0;
    while i < n
        invariant
            n == words.len(),
            n == counts.len(),
            ws == word_views(words@),
            i <= n,
            t.wf(),
            (pc@, t@) == count_words(ws, counts@, i as nat),
        decreases n - i,
    {
        let w = &words[i];
        let c = counts[i] as i32;
        let len = w.symbols.len();
        let ghost start = (pc@, t@);
        assert(ws[i as int] == w@);
        if len >= 2 {
            let mut j: usize = 0;
            while j + 1 < len
                invariant
                    len == w@.len(),
                    len >= 2,
                    j + 1 <= len,
                    t.wf(),
                    (pc@, t@) == count_windows(start.0, start.1, w@, i, c, j as nat),
                decreases len - j,
            {
                let p: Pair = (w.symbols[j].c, w.symbols[j + 1].c);
                pc.add(p, c);
                t.add(p, i);
                j = j + 1;
            }
        }
        i = i + 1;
    }
    (pc, t)
}

/// The string of the token that merging `a` with a following `b` forms: `a`, then `b`
/// without the continuing-subword prefix.
pub fn merged_token(a: &String, b: &String, prefix: &Option<String>) -> (r: String)
    ensures
        r@ == a@ + strip_prefix(prefix.deep_view(), b@),
{
    match prefix {
        Some(p) => {
            if starts_with(b.as_str(), p.as_str()) {
                let rest = suffix_from(b.as_str(), p.as_str().unicode_len());
                concat(a.as_str(), rest.as_str())
            } else {
                concat(a.as_str(), b.as_str())
            }
        },
        None => concat(a.as_str(), b.as_str()),
    }
}

/// Merges the pair `(c1, c2)` into `r` in each word at the listed positions, in order,
/// and returns all changes of pair counts, each tagged with its word.
pub fn merge_words(
    words: &mut Vec<Word>,
    pos: &Vec<usize>,
    c1: u32,
    c2: u32,
    r: u32,
    max_length: usize,
) -> (changes: Vec<(((u32, u32), i32), usize)>)
    requires
        forall|j: int| 0 <= j < pos.len() ==> #[trigger] pos@[j] < old(words).len(),
        forall|i: int| 0 <= i < old(words).len() ==> total_len(#[trigger] old(words)@[i]@) <= usize::MAX,
    ensures
        final(words).len() == old(words).len(),
        forall|i: int| 0 <= i < final(words).len() ==> total_len(#[trigger] final(words)@[i]@) <= usize::MAX,
        (word_views(final(words)@), changes@) == apply_merges(
            word_views(old(words)@),
            pos@,
            c1,
            c2,
            r,
            max_length,
            pos.len() as nat,
        ),
{
    let mut changes: Vec<(((u32, u32), i32), usize)> = Vec::new();
    let n = pos.len();
    let mut j: usize = 0;
    while j < n
        invariant
            n == pos.len(),
            j <= n,
            words.len() == old(words).len(),
            forall|k: int| 0 <= k < pos.len() ==> #[trigger] pos@[k] < words.len(),
            forall|i: int| 0 <= i < words.len() ==> total_len(#[trigger] words@[i]@) <= usize::MAX,
            (word_views(words@), changes@) == apply_merges(
                word_views(old(words)@),
                pos@,
                c1,
                c2,
                r,
                max_length,
                j as nat,
            ),
        decreases n - j,
    {
        let i = pos[j];
        let ghost before = words@;
        let ghost ch_before = changes@;
        let wc = words[i].merge(c1, c2, r, max_length);
        proof {
            lemma_merge_symbols_shape(None, before[i as int]@, c1, c2, r, max_length);
            assert(word_views(words@) =~= word_views(before).update(i as int, words@[i as int]@));
        }
        let m = wc.len();
        let mut k: usize = 0;
        while k < m
            invariant
                m == wc.len(),
                k <= m,
                changes@ == ch_before + tag_changes(wc@.take(k as int), i),
            decreases m - k,
        {
            changes.push((wc[k], i));
            proof {
                assert(wc@.take(k + 1) =~= wc@.take(k as int).push(wc@[k as int]));
                assert(tag_changes(wc@.take(k + 1), i) =~= tag_changes(wc@.take(k as int), i).push((wc@[k as int], i)));
                assert(changes@ =~= ch_before + tag_changes(wc@.take(k + 1), i));
            }
            k = k + 1;
        }
        assert(wc@.take(m as int) =~= wc@);
        j = j + 1;
    }
    changes
}

/// Applies tagged changes to the pair counts, each weighted by the count of its word,
/// and returns where pairs were newly formed.
pub fn update_counts(
    pc: &mut PairCounts,
    changes: &Vec<(((u32, u32), i32), usize)>,
    counts: &Vec<u64>,
) -> (t: PairTable)
    requires
        forall|k: int| 0 <= k < changes.len() ==> #[trigger] changes@[k].1 < counts.len(),
    ensures
        t.wf(),
        (final(pc)@, t@) == apply_changes(old(pc)@, Seq::empty(), changes@, counts@, changes.len() as nat),
{
    let mut t = PairTable::new();
    let n = changes.len();
    let mut k: usize = 0;
    while k < n
        invariant
            n == changes.len(),
            k <= n,
            forall|kk: int| 0 <= kk < changes.len() ==> #[trigger] changes@[kk].1 < counts.len(),
            t.wf(),
            (pc@, t@) == apply_changes(old(pc)@, Seq::empty(), changes@, counts@, k as nat),
        decreases n - k,
    {
        let (ch, iw) = changes[k];
        let (p, d) = ch;
        let delta = d.wrapping_mul(counts[iw] as i32);
        pc.add(p, delta);
        if d > 0 {
            t.add(p, iw);
        }
        k = k + 1;
    }
    t
}

/// Queues, in table order, every pair of `t` whose count is positive.
pub fn queue_candidates(q: &mut MergeQueue, t: PairTable, pc: &PairCounts)
    requires
        t.wf(),
        forall|j: int| 0 <= j < t@.len() ==> pc@.contains_key(#[trigger] t@[j].0),
    ensures
        final(q)@ == push_candidates(old(q)@, t@, pc@, t@.len() as nat),
{
    let ghost tv = t@;
    let (pairs, mut positions) = t.into_parts();
    let n = pairs.len();
    let mut j: usize = 0;
    while j < n
        invariant
            n == pairs.len(),
            n == positions.len(),
            n == tv.len(),
            j <= n,
            forall|k: int| 0 <= k < tv.len() ==> pc@.contains_key(#[trigger] tv[k].0),
            forall|k: int| j <= k < n ==> #[trigger] tv[k] == (pairs@[k], positions@[k]@),
            q@ == push_candidates(old(q)@, tv, pc@, j as nat),
        decreases n - j,
    {
        let p = pairs[j];
        let mut list: Vec<usize> = Vec::new();
        let ghost before = positions@;
        std::mem::swap(&mut list, &mut positions[j]);
        assert forall|k: int| j + 1 <= k < n implies #[trigger] tv[k] == (pairs@[k], positions@[k]@) by {
            assert(positions@[k] == before[k]);
        }
        assert(tv[j as int] == (p, list@));
        let count = match pc.get(p) {
            Some(c) => c,
            None => 0,
        };
        if count > 0 {
            q.push(Merge { pair: p, count: count as u64, pos: list });
        }
        j = j + 1;
    }
}

/// What bounds a run of merges: the vocabulary size to reach, the minimum count of a
/// pair worth merging, the continuing-subword prefix, and the token length (in
/// characters) from which new pairs are no longer counted.
pub ghost struct Limits {
    pub vocab_size: usize,
    pub min_frequency: u64,
    pub prefix: Option<Seq<char>>,
    pub max_length: usize,
}

/// The state of training between two merges.
pub ghost struct Training {
    /// Token strings by id.
    pub vocab: Seq<Seq<char>>,
    /// The words, as symbols.
    pub words: Seq<Seq<Symbol>>,
    /// How often each word occurs.
    pub counts: Seq<u64>,
    /// The running count of each pair.
    pub pair_counts: Map<Pair, i32>,
    /// The waiting merge candidates.
    pub queue: Seq<Candidate>,
    /// The merges made so far: the pair and the id of the token it became.
    pub merges: Seq<(Pair, u32)>,
}

/// One round of the merge loop: `None` when training stops here, otherwise the next
/// state. A candidate whose count is out of date goes back into the queue with its
/// current count; a current one is merged: its token is added (or found) in the
/// vocabulary, the pair is merged in the words where it was seen, the pair counts
/// follow, and the pairs newly formed are queued.
pub open spec fn merge_step(lim: Limits, s: Training) -> Option<Training> {
    if s.vocab.len() >= lim.vocab_size || s.queue.len() == 0 {
        None
    } else {
        let k = top_index(s.queue);
        let top = s.queue[k];
        let rest = s.queue.remove(k);
        let current = s.pair_counts[top.pair];
        if top.count != current as u64 {
            Some(
                Training {
                    vocab: s.vocab,
                    words: s.words,
                    counts: s.counts,
                    pair_counts: s.pair_counts,
                    queue: rest.push(Candidate { pair: top.pair, count: current as u64, pos: top.pos }),
                    merges: s.merges,
                },
            )
        } else if top.count < 1 || lim.min_frequency > top.count {
            None
        } else {
            let token = s.vocab[top.pair.0 as int] + strip_prefix(lim.prefix, s.vocab[top.pair.1 as int]);
            let added = add_token(s.vocab, token);
            let id = added.1 as u32;
            let merged = apply_merges(s.words, top.pos, top.pair.0, top.pair.1, id, lim.max_length, top.pos.len());
            let updated = apply_changes(s.pair_counts, Seq::empty(), merged.1, s.counts, merged.1.len());
            Some(
                Training {
                    vocab: added.0,
                    words: merged.0,
                    counts: s.counts,
                    pair_counts: updated.0,
                    queue: push_candidates(rest, updated.1, updated.0, updated.1.len()),
                    merges: s.merges.push((top.pair, id)),
                },
            )
        }
    }
}

/// A queued candidate refers to tokens, words and a pair count that exist.
pub open spec fn candidate_ok(s: Training, e: Candidate) -> bool {
    &&& e.pair.0 < s.vocab.len()
    &&& e.pair.1 < s.vocab.len()
    &&& s.pair_counts.contains_key(e.pair)
    &&& forall|j: int| 0 <= j < e.pos.len() ==> #[trigger] e.pos[j] < s.words.len()
}

/// The state is well formed: distinct tokens whose ids fit in `u32`, one count per
/// word, words made of known tokens, and candidates that refer to what exists.
pub open spec fn training_wf(lim: Limits, s: Training) -> bool {
    &&& s.vocab.no_duplicates()
    &&& s.vocab.len() <= u32::MAX
    &&& lim.vocab_size <= u32::MAX || budget(s) <= u32::MAX
    &&& s.counts.len() == s.words.len()
    &&& forall|i: int| 0 <= i < s.words.len() ==> total_len(#[trigger] s.words[i]) <= usize::MAX
    &&& forall|i: int, j: int|
        0 <= i < s.words.len() && 0 <= j < s.words[i].len() ==> #[trigger] s.words[i][j].c < s.vocab.len()
    &&& forall|k: int| 0 <= k < s.queue.len() ==> candidate_ok(s, #[trigger] s.queue[k])
}

/// A bound on the tokens that merging from `s` can reach: each round that adds a token
/// also takes a candidate from the queue or removes a symbol from the words, and a
/// removed symbol brings at most four new candidates.
pub open spec fn budget(s: Training) -> nat {
    s.vocab.len() + s.queue.len() + 4 * symbol_total(s.words)
}

/// The number of symbols in all words.
pub open spec fn symbol_total(ws: Seq<Seq<Symbol>>) -> nat
    decreases ws.len(),
{
    if ws.len() == 0 {
        0
    } else {
        symbol_total(ws.drop_last()) + ws.last().len()
    }
}

/// A candidate whose count differs from the pair's running count.
pub open spec fn is_stale(e: Candidate, pc: Map<Pair, i32>) -> bool {
    e.count != pc[e.pair] as u64
}

/// The number of out-of-date candidates in `q`.
pub open spec fn stale_count(q: Seq<Candidate>, pc: Map<Pair, i32>) -> nat
    decreases q.len(),
{
    if q.len() == 0 {
        0
    } else {
        stale_count(q.drop_last(), pc) + if is_stale(q.last(), pc) {
            1nat
        } else {
            0nat
        }
    }
}

/// Merging round after round from `s` until a round stops.
pub open spec fn run_merges(lim: Limits, s: Training) -> Training
    decreases symbol_total(s.words), s.queue.len(), stale_count(s.queue, s.pair_counts)
    when training_wf(lim, s)
    via run_merges_decreases
{
    match merge_step(lim, s) {
        Some(n) => run_merges(lim, n),
        None => s,
    }
}

#[via_fn]
proof fn run_merges_decreases(lim: Limits, s: Training) {
    if merge_step(lim, s) is Some {
        lemma_merge_step_decreases(lim, s);
    }
}

/// What bounds a run of merges, as executable values.
pub struct MergeSettings {
    pub vocab_size: usize,
    pub min_frequency: u64,
    pub prefix: Option<String>,
    pub max_length: usize,
}

impl View for MergeSettings {
    type V = Limits;

    open spec fn view(&self) -> Limits {
        Limits {
            vocab_size: self.vocab_size,
            min_frequency: self.min_frequency,
            prefix: self.prefix.deep_view(),
            max_length: self.max_length,
        }
    }
}

/// The executable state of training between two merges.
pub struct MergeState {
    pub vocab: Vocab,
    pub words: Vec<Word>,
    pub counts: Vec<u64>,
    pub pair_counts: PairCounts,
    pub queue: MergeQueue,
    pub merges: Vec<(Pair, u32)>,
}

impl View for MergeState {
    type V = Training;

    open spec fn view(&self) -> Training {
        Training {
            vocab: self.vocab@,
            words: word_views(self.words@),
            counts: self.counts@,
            pair_counts: self.pair_counts@,
            queue: self.queue@,
            merges: self.merges@,
        }
    }
}

impl MergeState {
    pub open spec fn wf(&self, lim: Limits) -> bool {
        &&& self.vocab.wf()
        &&& training_wf(lim, self@)
    }

    /// One round of the merge loop; returns whether training goes on.
    pub fn merge_once(&mut self, settings: &MergeSettings) -> (more: bool)
        requires
            old(self).wf(settings@),
        ensures
            final(self).wf(settings@),
            match merge_step(settings@, old(self)@) {
                Some(n) => more && final(self)@ == n,
                None => !more && final(self)@ == old(self)@,
            },
    {
        let ghost s = self@;
        if self.vocab.len() >= settings.vocab_size || self.queue.is_empty() {
            return false;
        }
        let k = self.queue.best_index();
        proof {
            lemma_top_index(s.queue);
            assert(candidate_ok(s, s.queue[k as int]));
        }
        let current = match self.pair_counts.get(self.queue.get(k).pair) {
            Some(c) => c,
            None => 0,
        };
        let top_count = self.queue.get(k).count;
        if top_count != current as u64 {
            let mut top = self.queue.take(k);
            top.count = current as u64;
            self.queue.push(top);
            proof {
                lemma_merge_step_wf(settings@, s);
            }
            return true;
        }
        if top_count < 1 || settings.min_frequency > top_count {
            return false;
        }
        let top = self.queue.take(k);
        let new_token = merged_token(self.vocab.token(top.pair.0), self.vocab.token(top.pair.1), &settings.prefix);
        proof {
            self.vocab.lemma_wf();
        }
        let new_id = self.vocab.add(new_token);
        self.merges.push((top.pair, new_id));
        proof {
            self.vocab.lemma_wf();
            assert forall|i: int, j: int| 0 <= i < s.words.len() && 0 <= j < s.words[i].len()
                implies #[trigger] s.words[i][j].c < self.vocab@.len() by {}
            lemma_apply_merges_ids(s.words, top.pos@, top.pair.0, top.pair.1, new_id, settings.max_length,
                top.pos@.len(), self.vocab@.len());
            assert forall|i: int| 0 <= i < self.words.len() implies total_len(#[trigger] self.words@[i]@) <= usize::MAX by {
                assert(s.words[i] == self.words@[i]@);
            }
        }
        let changes = merge_words(&mut self.words, &top.pos, top.pair.0, top.pair.1, new_id, settings.max_length);
        proof {
            lemma_apply_changes_ok(s.pair_counts, Seq::empty(), changes@, s.counts, changes@.len(),
                self.vocab@.len(), s.words.len());
        }
        let t = update_counts(&mut self.pair_counts, &changes, &self.counts);
        queue_candidates(&mut self.queue, t, &self.pair_counts);
        proof {
            lemma_merge_step_wf(settings@, s);
        }
        true
    }

    /// Merges round after round until a round stops.
    pub fn run(&mut self, settings: &MergeSettings)
        requires
            old(self).wf(settings@),
        ensures
            final(self).wf(settings@),
            final(self)@ == run_merges(settings@, old(self)@),
    {
        loop
            invariant
                self.wf(settings@),
                run_merges(settings@, old(self)@) == run_merges(settings@, self@),
            ensures
                self.wf(settings@),
                run_merges(settings@, old(self)@) == self@,
            decreases symbol_total(self@.words), self@.queue.len(), stale_count(self@.queue, self@.pair_counts),
        {
            let ghost before = self@;
            proof {
                if merge_step(settings@, before) is Some {
                    lemma_merge_step_decreases(settings@, before);
                }
            }
            let more = self.merge_once(settings);
            if !more {
                break;
            }
        }
    }
}

} // verus!
