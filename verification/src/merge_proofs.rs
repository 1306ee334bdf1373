//! Proofs that a merge round keeps training well formed and brings it closer to its end.

use vstd::prelude::*;
use crate::engine::{budget, run_merges, count_windows, count_words, windows, Limits, Training, merge_step, candidate_ok, training_wf, symbol_total, is_stale, stale_count, apply_merges, apply_changes, push_candidates, tag_changes, strip_prefix};
use crate::pairs::{Pair, add_count, table_add, find_pair, lemma_find_pair};
use crate::queue::{Candidate, top_index, lemma_top_index};
use crate::vocab::{add_token, lemma_find_token};
use crate::word::{Symbol, merge_symbols, total_len, lemma_merge_symbols_shape};

verus! {

pub proof fn lemma_symbol_total_update(ws: Seq<Seq<Symbol>>, i: int, x: Seq<Symbol>)
    requires
        0 <= i < ws.len(),
    ensures
        symbol_total(ws.update(i, x)) + ws[i].len() == symbol_total(ws) + x.len(),
    decreases ws.len(),
{
    let u = ws.update(i, x);
    if i == ws.len() - 1 {
        assert(u.drop_last() =~= ws.drop_last());
    } else {
        assert(u.drop_last() =~= ws.drop_last().update(i, x));
        lemma_symbol_total_update(ws.drop_last(), i, x);
    }
}

/// Merging in words never adds symbols, keeps each word's span, and changes no count
/// unless it removed a symbol somewhere.
pub proof fn lemma_apply_merges_shape(
    ws: Seq<Seq<Symbol>>,
    pos: Seq<usize>,
    c1: u32,
    c2: u32,
    r: u32,
    max_length: usize,
    n: nat,
)
    requires
        n <= pos.len(),
        forall|j: int| 0 <= j < n ==> #[trigger] pos[j] < ws.len(),
        forall|i: int| 0 <= i < ws.len() ==> total_len(#[trigger] ws[i]) <= usize::MAX,
    ensures
        apply_merges(ws, pos, c1, c2, r, max_length, n).0.len() == ws.len(),
        forall|i: int| 0 <= i < ws.len()
            ==> total_len(#[trigger] apply_merges(ws, pos, c1, c2, r, max_length, n).0[i]) == total_len(ws[i]),
        symbol_total(apply_merges(ws, pos, c1, c2, r, max_length, n).0) <= symbol_total(ws),
        symbol_total(apply_merges(ws, pos, c1, c2, r, max_length, n).0) == symbol_total(ws)
            ==> apply_merges(ws, pos, c1, c2, r, max_length, n).1.len() == 0,
    decreases n,
{
    if n > 0 {
        lemma_apply_merges_shape(ws, pos, c1, c2, r, max_length, (n - 1) as nat);
        let prev = apply_merges(ws, pos, c1, c2, r, max_length, (n - 1) as nat);
        let i = pos[n - 1];
        assert(pos[n - 1] < ws.len());
        let m = merge_symbols(None, prev.0[i as int], c1, c2, r, max_length);
        lemma_merge_symbols_shape(None, prev.0[i as int], c1, c2, r, max_length);
        lemma_symbol_total_update(prev.0, i as int, m.0);
        let res = apply_merges(ws, pos, c1, c2, r, max_length, n);
        assert forall|k: int| 0 <= k < ws.len() implies total_len(#[trigger] res.0[k]) == total_len(ws[k]) by {
            if k != i {
                assert(res.0[k] == prev.0[k]);
            }
        }
        if symbol_total(res.0) == symbol_total(ws) {
            assert(m.1.len() == 0);
            assert(tag_changes(m.1, i).len() == 0);
        }
    }
}

/// Merging keeps every token id below `b` when the replacement is below `b`, in the
/// symbols and in the pairs of the changes.
pub proof fn lemma_merge_symbols_ids(
    prev: Option<Symbol>,
    s: Seq<Symbol>,
    c1: u32,
    c2: u32,
    r: u32,
    max_length: usize,
    b: nat,
)
    requires
        r < b,
        prev matches Some(p) ==> p.c < b,
        forall|j: int| 0 <= j < s.len() ==> #[trigger] s[j].c < b,
    ensures
        forall|j: int| 0 <= j < merge_symbols(prev, s, c1, c2, r, max_length).0.len()
            ==> #[trigger] merge_symbols(prev, s, c1, c2, r, max_length).0[j].c < b,
        forall|j: int| 0 <= j < merge_symbols(prev, s, c1, c2, r, max_length).1.len()
            ==> (#[trigger] merge_symbols(prev, s, c1, c2, r, max_length).1[j]).0.0 < b
                && merge_symbols(prev, s, c1, c2, r, max_length).1[j].0.1 < b,
    decreases s.len(),
{
    if s.len() == 0 {
    } else if s.len() >= 2 && s[0].c == c1 && s[1].c == c2 {
        let new = Symbol { c: r, len: (s[0].len + s[1].len) as usize };
        let rest = s.skip(2);
        assert forall|j: int| 0 <= j < rest.len() implies #[trigger] rest[j].c < b by {
            assert(rest[j] == s[j + 2]);
        }
        lemma_merge_symbols_ids(Some(new), rest, c1, c2, r, max_length, b);
        let rr = merge_symbols(Some(new), rest, c1, c2, r, max_length);
        let res = merge_symbols(prev, s, c1, c2, r, max_length);
        assert forall|j: int| 0 <= j < res.0.len() implies #[trigger] res.0[j].c < b by {
            if j > 0 {
                assert(res.0[j] == rr.0[j - 1]);
            }
        }
    } else {
        let rest = s.drop_first();
        assert forall|j: int| 0 <= j < rest.len() implies #[trigger] rest[j].c < b by {
            assert(rest[j] == s[j + 1]);
        }
        assert(s[0].c < b);
        lemma_merge_symbols_ids(Some(s[0]), rest, c1, c2, r, max_length, b);
        let rr = merge_symbols(Some(s[0]), rest, c1, c2, r, max_length);
        let res = merge_symbols(prev, s, c1, c2, r, max_length);
        assert forall|j: int| 0 <= j < res.0.len() implies #[trigger] res.0[j].c < b by {
            if j > 0 {
                assert(res.0[j] == rr.0[j - 1]);
            }
        }
    }
}

/// After merging in words, symbols and change pairs name tokens below `b`, and every
/// change is tagged with a position that was merged.
pub proof fn lemma_apply_merges_ids(
    ws: Seq<Seq<Symbol>>,
    pos: Seq<usize>,
    c1: u32,
    c2: u32,
    r: u32,
    max_length: usize,
    n: nat,
    b: nat,
)
    requires
        n <= pos.len(),
        r < b,
        forall|j: int| 0 <= j < n ==> #[trigger] pos[j] < ws.len(),
        forall|i: int, j: int| 0 <= i < ws.len() && 0 <= j < ws[i].len() ==> #[trigger] ws[i][j].c < b,
    ensures
        apply_merges(ws, pos, c1, c2, r, max_length, n).0.len() == ws.len(),
        forall|i: int, j: int|
            0 <= i < ws.len() && 0 <= j < apply_merges(ws, pos, c1, c2, r, max_length, n).0[i].len()
                ==> #[trigger] apply_merges(ws, pos, c1, c2, r, max_length, n).0[i][j].c < b,
        forall|k: int| 0 <= k < apply_merges(ws, pos, c1, c2, r, max_length, n).1.len() ==> {
            let c = #[trigger] apply_merges(ws, pos, c1, c2, r, max_length, n).1[k];
            c.0.0.0 < b && c.0.0.1 < b && c.1 < ws.len()
        },
    decreases n,
{
    if n > 0 {
        lemma_apply_merges_ids(ws, pos, c1, c2, r, max_length, (n - 1) as nat, b);
        let prev = apply_merges(ws, pos, c1, c2, r, max_length, (n - 1) as nat);
        let i = pos[n - 1];
        assert(pos[n - 1] < ws.len());
        let w = prev.0[i as int];
        assert forall|j: int| 0 <= j < w.len() implies #[trigger] w[j].c < b by {
            assert(prev.0[i as int][j].c < b);
        }
        lemma_merge_symbols_ids(None, w, c1, c2, r, max_length, b);
        let m = merge_symbols(None, w, c1, c2, r, max_length);
        let res = apply_merges(ws, pos, c1, c2, r, max_length, n);
        assert forall|ii: int, j: int| 0 <= ii < ws.len() && 0 <= j < res.0[ii].len()
            implies #[trigger] res.0[ii][j].c < b by {
            if ii != i {
                assert(res.0[ii] == prev.0[ii]);
            } else {
                assert(res.0[ii] == m.0);
            }
        }
        assert forall|k: int| 0 <= k < res.1.len() implies {
            let c = #[trigger] res.1[k];
            c.0.0.0 < b && c.0.0.1 < b && c.1 < ws.len()
        } by {
            if k >= prev.1.len() {
                assert(res.1[k] == tag_changes(m.1, i)[k - prev.1.len()]);
                assert(m.1[k - prev.1.len()].0.0 < b);
            } else {
                assert(res.1[k] == prev.1[k]);
            }
        }
    }
}

/// Recording pairs that satisfy `ok` at positions below `len` keeps a table whose
/// pairs satisfy `ok`, whose positions are below `len`, and whose pairs are all counted.
pub open spec fn table_ok(t: Seq<(Pair, Seq<usize>)>, pc: Map<Pair, i32>, bound: nat, len: nat) -> bool {
    forall|j: int| 0 <= j < t.len() ==> {
        &&& (#[trigger] t[j]).0.0 < bound
        &&& t[j].0.1 < bound
        &&& pc.contains_key(t[j].0)
        &&& forall|k: int| 0 <= k < t[j].1.len() ==> #[trigger] t[j].1[k] < len
    }
}

pub proof fn lemma_apply_changes_ok(
    pc: Map<Pair, i32>,
    t: Seq<(Pair, Seq<usize>)>,
    changes: Seq<(((u32, u32), i32), usize)>,
    counts: Seq<u64>,
    n: nat,
    bound: nat,
    len: nat,
)
    requires
        n <= changes.len(),
        table_ok(t, pc, bound, len),
        forall|k: int| 0 <= k < n ==> {
            let c = #[trigger] changes[k];
            c.0.0.0 < bound && c.0.0.1 < bound && c.1 < len
        },
    ensures
        table_ok(apply_changes(pc, t, changes, counts, n).1, apply_changes(pc, t, changes, counts, n).0, bound, len),
        forall|p: Pair| pc.contains_key(p) ==> #[trigger] apply_changes(pc, t, changes, counts, n).0.contains_key(p),
        n == 0 ==> apply_changes(pc, t, changes, counts, n) == (pc, t),
    decreases n,
{
    if n > 0 {
        lemma_apply_changes_ok(pc, t, changes, counts, (n - 1) as nat, bound, len);
        let prev = apply_changes(pc, t, changes, counts, (n - 1) as nat);
        let c = changes[n - 1];
        assert(c.0.0.0 < bound && c.0.0.1 < bound && c.1 < len);
        let p = c.0.0;
        let iw = c.1;
        let res = apply_changes(pc, t, changes, counts, n);
        assert(res.0.contains_key(p));
        if c.0.1 > 0 {
            lemma_find_pair(prev.1, p);
            let t1 = table_add(prev.1, p, iw);
            assert(t1 == res.1);
            assert forall|j: int| 0 <= j < t1.len() implies {
                &&& (#[trigger] t1[j]).0.0 < bound
                &&& t1[j].0.1 < bound
                &&& res.0.contains_key(t1[j].0)
                &&& forall|k: int| 0 <= k < t1[j].1.len() ==> #[trigger] t1[j].1[k] < len
            } by {
                let f = find_pair(prev.1, p);
                if j < prev.1.len() && j != f {
                    assert(t1[j] == prev.1[j]);
                } else if j < prev.1.len() {
                    assert forall|k: int| 0 <= k < t1[j].1.len() implies #[trigger] t1[j].1[k] < len by {
                        if k < prev.1[j].1.len() {
                            assert(t1[j].1[k] == prev.1[j].1[k]);
                        }
                    }
                } else {
                    assert(t1[j] == (p, seq![iw]));
                }
            }
        } else {
            assert forall|j: int| 0 <= j < res.1.len() implies res.0.contains_key((#[trigger] res.1[j]).0) by {
                assert(prev.0.contains_key(prev.1[j].0));
            }
        }
    }
}

/// Queueing the pairs of a table whose entries refer to what exists keeps every
/// candidate referring to what exists; an empty table queues nothing.
pub proof fn lemma_push_candidates_ok(
    s: Training,
    q: Seq<Candidate>,
    t: Seq<(Pair, Seq<usize>)>,
    n: nat,
)
    requires
        n <= t.len(),
        table_ok(t, s.pair_counts, s.vocab.len(), s.words.len()),
        forall|k: int| 0 <= k < q.len() ==> candidate_ok(s, #[trigger] q[k]),
    ensures
        forall|k: int| 0 <= k < push_candidates(q, t, s.pair_counts, n).len()
            ==> candidate_ok(s, #[trigger] push_candidates(q, t, s.pair_counts, n)[k]),
        n == 0 ==> push_candidates(q, t, s.pair_counts, n) == q,
    decreases n,
{
    if n > 0 {
        lemma_push_candidates_ok(s, q, t, (n - 1) as nat);
        let prev = push_candidates(q, t, s.pair_counts, (n - 1) as nat);
        let e = t[n - 1];
        let res = push_candidates(q, t, s.pair_counts, n);
        if s.pair_counts[e.0] > 0 {
            let c = Candidate { pair: e.0, count: s.pair_counts[e.0] as u64, pos: e.1 };
            assert(res == prev.push(c));
            assert forall|j: int| 0 <= j < c.pos.len() implies #[trigger] c.pos[j] < s.words.len() by {
                assert(t[n - 1].1[j] < s.words.len());
            }
            assert(candidate_ok(s, c));
            assert forall|k: int| 0 <= k < res.len() implies candidate_ok(s, #[trigger] res[k]) by {
                if k < prev.len() {
                    assert(res[k] == prev[k]);
                }
            }
        }
    }
}

pub proof fn lemma_stale_count_remove_push(q: Seq<Candidate>, pc: Map<Pair, i32>, k: int, e: Candidate)
    requires
        0 <= k < q.len(),
    ensures
        stale_count(q.remove(k).push(e), pc) + (if is_stale(q[k], pc) { 1nat } else { 0nat })
            == stale_count(q, pc) + (if is_stale(e, pc) { 1nat } else { 0nat }),
    decreases q.len(),
{
    assert(q.remove(k).push(e).drop_last() =~= q.remove(k));
    lemma_stale_count_remove(q, pc, k);
}

pub proof fn lemma_stale_count_remove(q: Seq<Candidate>, pc: Map<Pair, i32>, k: int)
    requires
        0 <= k < q.len(),
    ensures
        stale_count(q.remove(k), pc) + (if is_stale(q[k], pc) { 1nat } else { 0nat }) == stale_count(q, pc),
    decreases q.len(),
{
    if k == q.len() - 1 {
        assert(q.remove(k) =~= q.drop_last());
    } else {
        lemma_stale_count_remove(q.drop_last(), pc, k);
        assert(q.remove(k).drop_last() =~= q.drop_last().remove(k));
        assert(q.remove(k).last() == q.last());
    }
}

/// A merge round keeps the state well formed.
pub proof fn lemma_merge_step_wf(lim: Limits, s: Training)
    requires
        training_wf(lim, s),
        merge_step(lim, s) is Some,
    ensures
        training_wf(lim, merge_step(lim, s)->0),
{
    lemma_merge_step_budget(lim, s);
    let k = top_index(s.queue);
    lemma_top_index(s.queue);
    let top = s.queue[k];
    let rest = s.queue.remove(k);
    assert(candidate_ok(s, top));
    let current = s.pair_counts[top.pair];
    let n = merge_step(lim, s)->0;
    assert forall|j: int| 0 <= j < rest.len() implies candidate_ok(s, #[trigger] rest[j]) by {
        if j < k {
            assert(rest[j] == s.queue[j]);
        } else {
            assert(rest[j] == s.queue[j + 1]);
        }
    }
    if top.count != current as u64 {
        assert forall|j: int| 0 <= j < n.queue.len() implies candidate_ok(n, #[trigger] n.queue[j]) by {
            if j < rest.len() {
                assert(n.queue[j] == rest[j]);
            }
        }
    } else {
        let token = s.vocab[top.pair.0 as int] + strip_prefix(lim.prefix, s.vocab[top.pair.1 as int]);
        let added = add_token(s.vocab, token);
        lemma_find_token(s.vocab, token);
        let id = added.1 as u32;
        assert(added.0.len() <= u32::MAX) by {
            if lim.vocab_size > u32::MAX {
                assert(s.queue.len() >= 1);
            }
        }
        assert(id < added.0.len());
        assert(added.0.no_duplicates()) by {
            if !s.vocab.contains(token) {
                assert forall|a: int, b: int| 0 <= a < added.0.len() && 0 <= b < added.0.len() && a != b
                    implies added.0[a] != added.0[b] by {
                    if a == s.vocab.len() {
                        assert(added.0[b] == s.vocab[b]);
                    } else if b == s.vocab.len() {
                        assert(added.0[a] == s.vocab[a]);
                    }
                }
            }
        }
        let b = added.0.len();
        assert forall|i: int, j: int| 0 <= i < s.words.len() && 0 <= j < s.words[i].len()
            implies #[trigger] s.words[i][j].c < b by {}
        lemma_apply_merges_ids(s.words, top.pos, top.pair.0, top.pair.1, id, lim.max_length, top.pos.len(), b);
        lemma_apply_merges_shape(s.words, top.pos, top.pair.0, top.pair.1, id, lim.max_length, top.pos.len());
        let merged = apply_merges(s.words, top.pos, top.pair.0, top.pair.1, id, lim.max_length, top.pos.len());
        lemma_apply_changes_ok(s.pair_counts, Seq::empty(), merged.1, s.counts, merged.1.len(), b, s.words.len());
        let updated = apply_changes(s.pair_counts, Seq::empty(), merged.1, s.counts, merged.1.len());
        assert forall|j: int| 0 <= j < rest.len() implies candidate_ok(n, #[trigger] rest[j]) by {
            assert(candidate_ok(s, rest[j]));
        }
        assert(n.pair_counts == updated.0);
        assert(n.vocab.len() == b);
        assert(n.words.len() == s.words.len());
        assert(table_ok(updated.1, n.pair_counts, n.vocab.len(), n.words.len()));
        lemma_push_candidates_ok(n, rest, updated.1, updated.1.len());
        assert(n.queue == push_candidates(rest, updated.1, n.pair_counts, updated.1.len()));
        assert forall|i: int| 0 <= i < n.words.len() implies total_len(#[trigger] n.words[i]) <= usize::MAX by {
            assert(total_len(n.words[i]) == total_len(s.words[i]));
        }
        assert(n.vocab.no_duplicates());
        assert(n.vocab.len() <= u32::MAX);
        assert(n.counts.len() == n.words.len());
        assert(forall|i: int, j: int|
            0 <= i < n.words.len() && 0 <= j < n.words[i].len() ==> #[trigger] n.words[i][j].c < n.vocab.len());
        assert(forall|k: int| 0 <= k < n.queue.len() ==> candidate_ok(n, #[trigger] n.queue[k]));
    }
}

/// The measure of a state: symbols left, then candidates left, then stale candidates.
/// A merge round lowers it.
pub proof fn lemma_merge_step_decreases(lim: Limits, s: Training)
    requires
        training_wf(lim, s),
        merge_step(lim, s) is Some,
    ensures
        ({
            let n = merge_step(lim, s)->0;
            ||| symbol_total(n.words) < symbol_total(s.words)
            ||| symbol_total(n.words) == symbol_total(s.words) && n.queue.len() < s.queue.len()
            ||| symbol_total(n.words) == symbol_total(s.words) && n.queue.len() == s.queue.len()
                && stale_count(n.queue, n.pair_counts) < stale_count(s.queue, s.pair_counts)
        }),
{
    let k = top_index(s.queue);
    lemma_top_index(s.queue);
    let top = s.queue[k];
    let rest = s.queue.remove(k);
    assert(candidate_ok(s, top));
    let current = s.pair_counts[top.pair];
    let n = merge_step(lim, s)->0;
    if top.count != current as u64 {
        let e = Candidate { pair: top.pair, count: current as u64, pos: top.pos };
        lemma_stale_count_remove_push(s.queue, s.pair_counts, k, e);
    } else {
        let token = s.vocab[top.pair.0 as int] + strip_prefix(lim.prefix, s.vocab[top.pair.1 as int]);
        let added = add_token(s.vocab, token);
        let id = added.1 as u32;
        lemma_apply_merges_shape(s.words, top.pos, top.pair.0, top.pair.1, id, lim.max_length, top.pos.len());
        let merged = apply_merges(s.words, top.pos, top.pair.0, top.pair.1, id, lim.max_length, top.pos.len());
        if symbol_total(merged.0) == symbol_total(s.words) {
            let updated = apply_changes(s.pair_counts, Seq::empty(), merged.1, s.counts, merged.1.len());
            assert(updated == (s.pair_counts, Seq::<(Pair, Seq<usize>)>::empty()));
            assert(n.queue == rest);
        }
    }
}

/// Merging keeps the tokens it started with, under the same ids, and grows the
/// vocabulary only up to the size it aims at.
pub proof fn lemma_run_merges_vocab(lim: Limits, s: Training)
    requires
        training_wf(lim, s),
    ensures
        training_wf(lim, run_merges(lim, s)),
        run_merges(lim, s).vocab.len() <= if s.vocab.len() >= lim.vocab_size {
            s.vocab.len() as int
        } else {
            lim.vocab_size as int
        },
        run_merges(lim, s).vocab.len() >= s.vocab.len(),
        run_merges(lim, s).vocab.take(s.vocab.len() as int) == s.vocab,
        run_merges(lim, s).words.len() == s.words.len(),
    decreases symbol_total(s.words), s.queue.len(), stale_count(s.queue, s.pair_counts),
{
    if merge_step(lim, s) is Some {
        let n = merge_step(lim, s)->0;
        lemma_merge_step_decreases(lim, s);
        lemma_merge_step_wf(lim, s);
        lemma_merge_step_vocab(lim, s);
        lemma_run_merges_vocab(lim, n);
        assert(run_merges(lim, n).vocab.take(s.vocab.len() as int) =~= run_merges(lim, n).vocab.take(
            n.vocab.len() as int,
        ).take(s.vocab.len() as int));
    }
}

/// A merge round keeps the tokens, under the same ids, and adds at most one while the
/// vocabulary is below the size aimed at.
pub proof fn lemma_merge_step_vocab(lim: Limits, s: Training)
    requires
        training_wf(lim, s),
        merge_step(lim, s) is Some,
    ensures
        merge_step(lim, s)->0.vocab.len() <= lim.vocab_size,
        merge_step(lim, s)->0.vocab.len() >= s.vocab.len(),
        merge_step(lim, s)->0.vocab.take(s.vocab.len() as int) == s.vocab,
        merge_step(lim, s)->0.words.len() == s.words.len(),
{
    let k = top_index(s.queue);
    lemma_top_index(s.queue);
    let top = s.queue[k];
    assert(candidate_ok(s, top));
    let current = s.pair_counts[top.pair];
    if top.count == current as u64 {
        let token = s.vocab[top.pair.0 as int] + strip_prefix(lim.prefix, s.vocab[top.pair.1 as int]);
        let added = add_token(s.vocab, token);
        assert(added.0.take(s.vocab.len() as int) =~= s.vocab);
        let id = added.1 as u32;
        lemma_apply_merges_shape(s.words, top.pos, top.pair.0, top.pair.1, id, lim.max_length, top.pos.len());
    } else {
        assert(s.vocab.take(s.vocab.len() as int) =~= s.vocab);
    }
}

/// The merge of `p` into `id` names known tokens, and the token `id` is the first
/// token of `p` followed by the second without the continuing-subword prefix.
pub open spec fn merge_formed(prefix: Option<Seq<char>>, v: Seq<Seq<char>>, p: Pair, id: u32) -> bool {
    &&& p.0 < v.len()
    &&& p.1 < v.len()
    &&& id < v.len()
    &&& v[id as int] == v[p.0 as int] + strip_prefix(prefix, v[p.1 as int])
}

/// Every merge of `merges` is formed as `merge_formed` says.
pub open spec fn merges_formed(prefix: Option<Seq<char>>, v: Seq<Seq<char>>, merges: Seq<(Pair, u32)>) -> bool {
    forall|k: int| 0 <= k < merges.len() ==> merge_formed(prefix, v, #[trigger] merges[k].0, merges[k].1)
}

/// A merge formed over a vocabulary stays formed over any vocabulary that extends it.
pub proof fn lemma_merge_formed_extend(prefix: Option<Seq<char>>, v: Seq<Seq<char>>, w: Seq<Seq<char>>, p: Pair, id: u32)
    requires
        merge_formed(prefix, v, p, id),
        v.len() <= w.len(),
        w.take(v.len() as int) == v,
    ensures
        merge_formed(prefix, w, p, id),
{
    assert(w[id as int] == w.take(v.len() as int)[id as int]);
    assert(w[p.0 as int] == w.take(v.len() as int)[p.0 as int]);
    assert(w[p.1 as int] == w.take(v.len() as int)[p.1 as int]);
}

/// A merge round keeps every recorded merge formed, its own included.
pub proof fn lemma_merge_step_formed(lim: Limits, s: Training)
    requires
        training_wf(lim, s),
        merges_formed(lim.prefix, s.vocab, s.merges),
        merge_step(lim, s) is Some,
    ensures
        merges_formed(lim.prefix, merge_step(lim, s)->0.vocab, merge_step(lim, s)->0.merges),
{
    let n = merge_step(lim, s)->0;
    lemma_merge_step_vocab(lim, s);
    let k = top_index(s.queue);
    lemma_top_index(s.queue);
    let top = s.queue[k];
    assert(candidate_ok(s, top));
    assert forall|j: int| 0 <= j < s.merges.len() implies merge_formed(lim.prefix, n.vocab, #[trigger] s.merges[j].0, s.merges[j].1) by {
        lemma_merge_formed_extend(lim.prefix, s.vocab, n.vocab, s.merges[j].0, s.merges[j].1);
    }
    if top.count == s.pair_counts[top.pair] as u64 {
        let token = s.vocab[top.pair.0 as int] + strip_prefix(lim.prefix, s.vocab[top.pair.1 as int]);
        let added = add_token(s.vocab, token);
        lemma_find_token(s.vocab, token);
        let id = added.1 as u32;
        assert(n.vocab == added.0);
        assert(n.vocab[id as int] == token);
        assert(n.vocab[top.pair.0 as int] == s.vocab[top.pair.0 as int]);
        assert(n.vocab[top.pair.1 as int] == s.vocab[top.pair.1 as int]);
        assert(merge_formed(lim.prefix, n.vocab, top.pair, id));
        assert forall|j: int| 0 <= j < n.merges.len() implies merge_formed(lim.prefix, n.vocab, #[trigger] n.merges[j].0, n.merges[j].1) by {
            if j < s.merges.len() {
                assert(n.merges[j] == s.merges[j]);
            }
        }
    }
}

/// Merging to the end keeps every recorded merge formed.
pub proof fn lemma_run_merges_formed(lim: Limits, s: Training)
    requires
        training_wf(lim, s),
        merges_formed(lim.prefix, s.vocab, s.merges),
    ensures
        merges_formed(lim.prefix, run_merges(lim, s).vocab, run_merges(lim, s).merges),
        s.merges.len() <= run_merges(lim, s).merges.len(),
        run_merges(lim, s).merges.take(s.merges.len() as int) == s.merges,
    decreases symbol_total(s.words), s.queue.len(), stale_count(s.queue, s.pair_counts),
{
    if merge_step(lim, s) is Some {
        let n = merge_step(lim, s)->0;
        lemma_merge_step_decreases(lim, s);
        lemma_merge_step_wf(lim, s);
        lemma_merge_step_formed(lim, s);
        lemma_run_merges_formed(lim, n);
        assert(n.merges.take(s.merges.len() as int) =~= s.merges);
        assert(run_merges(lim, n).merges.take(s.merges.len() as int) =~= run_merges(lim, n).merges.take(
            n.merges.len() as int,
        ).take(s.merges.len() as int));
    } else {
        assert(s.merges.take(s.merges.len() as int) =~= s.merges);
    }
}

pub proof fn lemma_count_windows_ok(
    pc: Map<Pair, i32>,
    t: Seq<(Pair, Seq<usize>)>,
    w: Seq<Symbol>,
    i: usize,
    c: i32,
    m: nat,
    bound: nat,
    len: nat,
)
    requires
        m <= windows(w),
        i < len,
        table_ok(t, pc, bound, len),
        forall|k: int| 0 <= k < w.len() ==> (#[trigger] w[k]).c < bound,
    ensures
        table_ok(count_windows(pc, t, w, i, c, m).1, count_windows(pc, t, w, i, c, m).0, bound, len),
        forall|p: Pair| pc.contains_key(p) ==> #[trigger] count_windows(pc, t, w, i, c, m).0.contains_key(p),
    decreases m,
{
    if m > 0 {
        lemma_count_windows_ok(pc, t, w, i, c, (m - 1) as nat, bound, len);
        let prev = count_windows(pc, t, w, i, c, (m - 1) as nat);
        let p = (w[m - 1].c, w[m as int].c);
        assert(w[m - 1].c < bound && w[m as int].c < bound);
        lemma_table_add_ok(prev.1, prev.0, p, i, c, bound, len);
    }
}

/// Recording a counted pair keeps a table in order.
pub proof fn lemma_table_add_ok(
    t: Seq<(Pair, Seq<usize>)>,
    pc: Map<Pair, i32>,
    p: Pair,
    i: usize,
    c: i32,
    bound: nat,
    len: nat,
)
    requires
        table_ok(t, pc, bound, len),
        p.0 < bound,
        p.1 < bound,
        i < len,
    ensures
        table_ok(table_add(t, p, i), add_count(pc, p, c), bound, len),
{
    lemma_find_pair(t, p);
    let t1 = table_add(t, p, i);
    let pc1 = add_count(pc, p, c);
    assert forall|j: int| 0 <= j < t1.len() implies {
        &&& (#[trigger] t1[j]).0.0 < bound
        &&& t1[j].0.1 < bound
        &&& pc1.contains_key(t1[j].0)
        &&& forall|k: int| 0 <= k < t1[j].1.len() ==> #[trigger] t1[j].1[k] < len
    } by {
        let f = find_pair(t, p);
        if j < t.len() && j != f {
            assert(t1[j] == t[j]);
        } else if j < t.len() {
            assert forall|k: int| 0 <= k < t1[j].1.len() implies #[trigger] t1[j].1[k] < len by {
                if k < t[j].1.len() {
                    assert(t1[j].1[k] == t[j].1[k]);
                }
            }
        } else {
            assert(t1[j] == (p, seq![i]));
        }
    }
}

/// The pairs counted over words that name tokens below `bound` form a table in order.
pub proof fn lemma_count_words_ok(ws: Seq<Seq<Symbol>>, cs: Seq<u64>, n: nat, bound: nat)
    requires
        n <= ws.len(),
        forall|i: int, k: int| 0 <= i < ws.len() && 0 <= k < ws[i].len() ==> (#[trigger] ws[i][k]).c < bound,
    ensures
        table_ok(count_words(ws, cs, n).1, count_words(ws, cs, n).0, bound, ws.len()),
    decreases n,
{
    if n > 0 {
        lemma_count_words_ok(ws, cs, (n - 1) as nat, bound);
        let prev = count_words(ws, cs, (n - 1) as nat);
        let w = ws[n - 1];
        assert forall|k: int| 0 <= k < w.len() implies (#[trigger] w[k]).c < bound by {
            assert(ws[n - 1][k].c < bound);
        }
        lemma_count_windows_ok(prev.0, prev.1, w, (n - 1) as usize, cs[n - 1] as i32, windows(w), bound, ws.len());
    }
}

/// Each replacement removes one symbol and reports at most four changes.
pub proof fn lemma_merge_symbols_changes(
    prev: Option<Symbol>,
    s: Seq<Symbol>,
    c1: u32,
    c2: u32,
    r: u32,
    max_length: usize,
)
    ensures
        merge_symbols(prev, s, c1, c2, r, max_length).0.len() <= s.len(),
        merge_symbols(prev, s, c1, c2, r, max_length).1.len()
            <= 4 * (s.len() - merge_symbols(prev, s, c1, c2, r, max_length).0.len()),
    decreases s.len(),
{
    if s.len() == 0 {
    } else if s.len() >= 2 && s[0].c == c1 && s[1].c == c2 {
        let new = Symbol { c: r, len: (s[0].len + s[1].len) as usize };
        lemma_merge_symbols_changes(Some(new), s.skip(2), c1, c2, r, max_length);
    } else {
        lemma_merge_symbols_changes(Some(s[0]), s.drop_first(), c1, c2, r, max_length);
    }
}

/// Merging in words reports at most four changes per symbol removed.
pub proof fn lemma_apply_merges_changes(
    ws: Seq<Seq<Symbol>>,
    pos: Seq<usize>,
    c1: u32,
    c2: u32,
    r: u32,
    max_length: usize,
    n: nat,
)
    requires
        n <= pos.len(),
        forall|j: int| 0 <= j < n ==> #[trigger] pos[j] < ws.len(),
    ensures
        apply_merges(ws, pos, c1, c2, r, max_length, n).0.len() == ws.len(),
        symbol_total(apply_merges(ws, pos, c1, c2, r, max_length, n).0) <= symbol_total(ws),
        apply_merges(ws, pos, c1, c2, r, max_length, n).1.len()
            <= 4 * (symbol_total(ws) - symbol_total(apply_merges(ws, pos, c1, c2, r, max_length, n).0)),
    decreases n,
{
    if n > 0 {
        lemma_apply_merges_changes(ws, pos, c1, c2, r, max_length, (n - 1) as nat);
        let prev = apply_merges(ws, pos, c1, c2, r, max_length, (n - 1) as nat);
        let i = pos[n - 1];
        assert(pos[n - 1] < ws.len());
        let m = merge_symbols(None, prev.0[i as int], c1, c2, r, max_length);
        lemma_merge_symbols_changes(None, prev.0[i as int], c1, c2, r, max_length);
        lemma_symbol_total_update(prev.0, i as int, m.0);
        assert(tag_changes(m.1, i).len() == m.1.len());
    }
}

/// Applying changes records at most one table entry per change.
pub proof fn lemma_apply_changes_len(
    pc: Map<Pair, i32>,
    t: Seq<(Pair, Seq<usize>)>,
    changes: Seq<(((u32, u32), i32), usize)>,
    counts: Seq<u64>,
    n: nat,
)
    requires
        n <= changes.len(),
    ensures
        apply_changes(pc, t, changes, counts, n).1.len() <= t.len() + n,
    decreases n,
{
    if n > 0 {
        lemma_apply_changes_len(pc, t, changes, counts, (n - 1) as nat);
        let prev = apply_changes(pc, t, changes, counts, (n - 1) as nat);
        lemma_find_pair(prev.1, changes[n - 1].0.0);
    }
}

/// Queueing from a table adds at most one candidate per entry.
pub proof fn lemma_push_candidates_len(q: Seq<Candidate>, t: Seq<(Pair, Seq<usize>)>, pc: Map<Pair, i32>, n: nat)
    ensures
        push_candidates(q, t, pc, n).len() <= q.len() + n,
    decreases n,
{
    if n > 0 {
        lemma_push_candidates_len(q, t, pc, (n - 1) as nat);
    }
}

/// A merge round never raises the budget: a round that adds a token lowers the rest of
/// the budget by at least one.
pub proof fn lemma_merge_step_budget(lim: Limits, s: Training)
    requires
        forall|k: int| 0 <= k < s.queue.len() ==> candidate_ok(s, #[trigger] s.queue[k]),
        merge_step(lim, s) is Some,
    ensures
        budget(merge_step(lim, s)->0) <= budget(s),
{
    let k = top_index(s.queue);
    lemma_top_index(s.queue);
    let top = s.queue[k];
    assert(candidate_ok(s, top));
    let rest = s.queue.remove(k);
    let current = s.pair_counts[top.pair];
    let n = merge_step(lim, s)->0;
    if top.count == current as u64 {
        let token = s.vocab[top.pair.0 as int] + strip_prefix(lim.prefix, s.vocab[top.pair.1 as int]);
        let added = add_token(s.vocab, token);
        let id = added.1 as u32;
        lemma_apply_merges_changes(s.words, top.pos, top.pair.0, top.pair.1, id, lim.max_length, top.pos.len());
        let merged = apply_merges(s.words, top.pos, top.pair.0, top.pair.1, id, lim.max_length, top.pos.len());
        lemma_apply_changes_len(s.pair_counts, Seq::empty(), merged.1, s.counts, merged.1.len());
        let updated = apply_changes(s.pair_counts, Seq::empty(), merged.1, s.counts, merged.1.len());
        lemma_push_candidates_len(rest, updated.1, updated.0, updated.1.len());
        assert(added.0.len() <= s.vocab.len() + 1);
    }
}

/// Merging from `s` ends with no more tokens than the budget of `s`.
pub proof fn lemma_run_merges_budget(lim: Limits, s: Training)
    requires
        training_wf(lim, s),
    ensures
        run_merges(lim, s).vocab.len() <= budget(s),
    decreases symbol_total(s.words), s.queue.len(), stale_count(s.queue, s.pair_counts),
{
    if merge_step(lim, s) is Some {
        let n = merge_step(lim, s)->0;
        lemma_merge_step_decreases(lim, s);
        lemma_merge_step_wf(lim, s);
        lemma_merge_step_budget(lim, s);
        lemma_run_merges_budget(lim, n);
    }
}

/// Counting pairs records at most one table entry per window.
pub proof fn lemma_count_words_len(ws: Seq<Seq<Symbol>>, cs: Seq<u64>, n: nat)
    requires
        n <= ws.len(),
    ensures
        count_words(ws, cs, n).1.len() <= symbol_total(ws.take(n as int)),
    decreases n,
{
    if n > 0 {
        lemma_count_words_len(ws, cs, (n - 1) as nat);
        let prev = count_words(ws, cs, (n - 1) as nat);
        let w = ws[n - 1];
        lemma_count_windows_len(prev.0, prev.1, w, (n - 1) as usize, cs[n - 1] as i32, windows(w));
        assert(ws.take(n as int).drop_last() =~= ws.take(n - 1));
    }
}

proof fn lemma_count_windows_len(
    pc: Map<Pair, i32>,
    t: Seq<(Pair, Seq<usize>)>,
    w: Seq<Symbol>,
    i: usize,
    c: i32,
    m: nat,
)
    ensures
        count_windows(pc, t, w, i, c, m).1.len() <= t.len() + m,
    decreases m,
{
    if m > 0 {
        lemma_count_windows_len(pc, t, w, i, c, (m - 1) as nat);
        let r = count_windows(pc, t, w, i, c, (m - 1) as nat);
        lemma_find_pair(r.1, (w[m - 1].c, w[m as int].c));
    }
}

} // verus!
