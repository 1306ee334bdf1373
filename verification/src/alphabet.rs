//! The initial alphabet: the characters that training starts from.

use vstd::prelude::*;
use crate::text::{chars_of, string_of_char};
use crate::vocab::{Vocab, add_token};
use crate::word_counts::WordCounts;

verus! {

/// Position of `c` in `a`, or -1.
pub open spec fn find_char(a: Seq<(char, usize)>, c: char) -> int
    decreases a.len(),
{
    if a.len() == 0 {
        -1
    } else if a.last().0 == c {
        a.len() - 1
    } else {
        find_char(a.drop_last(), c)
    }
}

pub proof fn lemma_find_char(a: Seq<(char, usize)>, c: char)
    ensures
        -1 <= find_char(a, c) < a.len(),
        find_char(a, c) >= 0 ==> a[find_char(a, c)].0 == c,
        find_char(a, c) < 0 ==> forall|j: int| 0 <= j < a.len() ==> a[j].0 != c,
    decreases a.len(),
{
    if a.len() > 0 && a.last().0 != c {
        lemma_find_char(a.drop_last(), c);
        assert forall|j: int| 0 <= j < a.len() - 1 implies a[j] == a.drop_last()[j] by {}
    }
}

/// The characters of `a` are distinct.
pub open spec fn distinct_chars(a: Seq<(char, usize)>) -> bool {
    forall|i: int, j: int| 0 <= i < a.len() && 0 <= j < a.len() && i != j ==> #[trigger] a[i].0 != #[trigger] a[j].0
}

/// `a` after `n` more sightings of `c` (wrapping), or with `c` last when it is new.
pub open spec fn add_char_count(a: Seq<(char, usize)>, c: char, n: usize) -> Seq<(char, usize)> {
    let j = find_char(a, c);
    if j >= 0 {
        a.update(j, (c, vstd::wrapping::usize_specs::wrapping_add(a[j].1, n)))
    } else {
        a.push((c, n))
    }
}

/// `a` with the count of `c` raised to the maximum, or with `c` last at the maximum.
pub open spec fn set_char_max(a: Seq<(char, usize)>, c: char) -> Seq<(char, usize)> {
    let j = find_char(a, c);
    if j >= 0 {
        a.update(j, (c, usize::MAX))
    } else {
        a.push((c, usize::MAX))
    }
}

/// Counting the first `k` characters of `w`, each `n` times.
pub open spec fn count_word_chars(a: Seq<(char, usize)>, w: Seq<char>, n: usize, k: nat) -> Seq<(char, usize)>
    decreases k,
{
    if k == 0 {
        a
    } else {
        add_char_count(count_word_chars(a, w, n, (k - 1) as nat), w[k - 1], n)
    }
}

/// Counting the characters of the first `m` words, each as often as its word occurs.
pub open spec fn count_chars(wc: Seq<(Seq<char>, u64)>, m: nat) -> Seq<(char, usize)>
    decreases m,
{
    if m == 0 {
        Seq::empty()
    } else {
        count_word_chars(count_chars(wc, (m - 1) as nat), wc[m - 1].0, wc[m - 1].1 as usize, wc[m - 1].0.len())
    }
}

/// Raising the first `m` characters of `init` to the maximum count.
pub open spec fn with_initial(a: Seq<(char, usize)>, init: Seq<char>, m: nat) -> Seq<(char, usize)>
    decreases m,
{
    if m == 0 {
        a
    } else {
        set_char_max(with_initial(a, init, (m - 1) as nat), init[m - 1])
    }
}

/// Every character seen in the words, with how often it was seen, and every character
/// of the initial alphabet, with the maximum count; in the order of first sighting.
pub open spec fn alphabet_counts(wc: Seq<(Seq<char>, u64)>, init: Seq<char>) -> Seq<(char, usize)> {
    with_initial(count_chars(wc, wc.len()), init, init.len())
}

/// How many characters the limit on the alphabet removes.
pub open spec fn alphabet_excess(n: nat, limit: Option<usize>) -> nat {
    match limit {
        Some(l) => if n > l {
            (n - l) as nat
        } else {
            0
        },
        None => 0,
    }
}

/// `kept` is an alphabet that the limit allows from the counted characters `a`: as many
/// characters as the limit leaves, all of them counted, none seen less often than a
/// character left out, in increasing order of code point.
pub open spec fn valid_alphabet(a: Seq<(char, usize)>, limit: Option<usize>, kept: Seq<char>) -> bool {
    &&& kept.len() + alphabet_excess(a.len(), limit) == a.len()
    &&& forall|i: int, j: int| 0 <= i < j < kept.len() ==> (#[trigger] kept[i] as u32) < (#[trigger] kept[j] as u32)
    &&& forall|i: int| 0 <= i < kept.len() ==> find_char(a, #[trigger] kept[i]) >= 0
    &&& forall|i: int, j: int|
        0 <= i < kept.len() && 0 <= j < a.len() && !kept.contains(a[j].0) ==> #[trigger] a[j].1
            <= a[find_char(a, #[trigger] kept[i])].1
}

/// The vocabulary after adding the one-character tokens of the first `m` characters of
/// `kept`, in order.
pub open spec fn add_chars(v: Seq<Seq<char>>, kept: Seq<char>, m: nat) -> Seq<Seq<char>>
    decreases m,
{
    if m == 0 {
        v
    } else {
        add_token(add_chars(v, kept, (m - 1) as nat), seq![kept[m - 1]]).0
    }
}

pub proof fn lemma_add_char_count(a: Seq<(char, usize)>, c: char, n: usize)
    requires
        distinct_chars(a),
    ensures
        distinct_chars(add_char_count(a, c, n)),
        distinct_chars(set_char_max(a, c)),
{
    lemma_find_char(a, c);
}

pub proof fn lemma_count_chars_distinct(wc: Seq<(Seq<char>, u64)>, init: Seq<char>)
    ensures
        distinct_chars(alphabet_counts(wc, init)),
{
    lemma_count_chars(wc, wc.len());
    lemma_with_initial(count_chars(wc, wc.len()), init, init.len());
}

proof fn lemma_count_word_chars(a: Seq<(char, usize)>, w: Seq<char>, n: usize, k: nat)
    requires
        distinct_chars(a),
    ensures
        distinct_chars(count_word_chars(a, w, n, k)),
    decreases k,
{
    if k > 0 {
        lemma_count_word_chars(a, w, n, (k - 1) as nat);
        lemma_add_char_count(count_word_chars(a, w, n, (k - 1) as nat), w[k - 1], n);
    }
}

proof fn lemma_count_chars(wc: Seq<(Seq<char>, u64)>, m: nat)
    ensures
        distinct_chars(count_chars(wc, m)),
    decreases m,
{
    if m > 0 {
        lemma_count_chars(wc, (m - 1) as nat);
        lemma_count_word_chars(count_chars(wc, (m - 1) as nat), wc[m - 1].0, wc[m - 1].1 as usize, wc[m - 1].0.len());
    }
}

proof fn lemma_with_initial(a: Seq<(char, usize)>, init: Seq<char>, m: nat)
    requires
        distinct_chars(a),
    ensures
        distinct_chars(with_initial(a, init, m)),
    decreases m,
{
    if m > 0 {
        lemma_with_initial(a, init, (m - 1) as nat);
        lemma_add_char_count(with_initial(a, init, (m - 1) as nat), init[m - 1], 0);
    }
}

/// Counted characters, kept as two parallel vectors.
struct CharCounts {
    chars: Vec<char>,
    counts: Vec<usize>,
}

impl CharCounts {
    spec fn view(&self) -> Seq<(char, usize)> {
        Seq::new(self.chars.len() as nat, |j: int| (self.chars@[j], self.counts@[j]))
    }

    fn find(&self, c: char) -> (r: Option<usize>)
        requires
            self.chars.len() == self.counts.len(),
        ensures
            match r {
                Some(j) => j == find_char(self.view(), c),
                None => find_char(self.view(), c) < 0,
            },
    {
        let n = self.chars.len();
        let mut k: usize = n;
        while k > 0
            invariant
                self.chars.len() == self.counts.len(),
                n == self.chars.len(),
                k <= n,
                forall|j: int| k <= j < n ==> self.chars@[j] != c,
            decreases k,
        {
            if self.chars[k - 1] == c {
                proof {
                    lemma_find_char_last(self.view(), c, k as int);
                }
                return Some(k - 1);
            }
            k = k - 1;
        }
        proof {
            lemma_find_char_last(self.view(), c, 0);
        }
        None
    }

    fn add(&mut self, c: char, n: usize)
        requires
            old(self).chars.len() == old(self).counts.len(),
        ensures
            final(self).chars.len() == final(self).counts.len(),
            final(self).view() == add_char_count(old(self).view(), c, n),
    {
        let ghost a = self.view();
        proof {
            lemma_find_char(a, c);
        }
        match self.find(c) {
            Some(j) => {
                let v = self.counts[j];
                self.counts.set(j, v.wrapping_add(n));
                proof {
                    lemma_find_char(a, c);
                }
                assert(self.view() =~= a.update(j as int, (c, vstd::wrapping::usize_specs::wrapping_add(v, n))));
            },
            None => {
                self.chars.push(c);
                self.counts.push(n);
                assert(self.view() =~= a.push((c, n)));
            },
        }
    }

    fn set_max(&mut self, c: char)
        requires
            old(self).chars.len() == old(self).counts.len(),
        ensures
            final(self).chars.len() == final(self).counts.len(),
            final(self).view() == set_char_max(old(self).view(), c),
    {
        let ghost a = self.view();
        proof {
            lemma_find_char(a, c);
        }
        match self.find(c) {
            Some(j) => {
                self.counts.set(j, usize::MAX);
                proof {
                    lemma_find_char(a, c);
                }
                assert(self.view() =~= a.update(j as int, (c, usize::MAX)));
            },
            None => {
                self.chars.push(c);
                self.counts.push(usize::MAX);
                assert(self.view() =~= a.push((c, usize::MAX)));
            },
        }
    }
}

/// When the characters of `a` from position `k` on differ from `c`, the last position
/// of `c` is found among the first `k`.
proof fn lemma_find_char_last(a: Seq<(char, usize)>, c: char, k: int)
    requires
        0 <= k <= a.len(),
        forall|j: int| k <= j < a.len() ==> a[j].0 != c,
        k > 0 ==> a[k - 1].0 == c,
    ensures
        k > 0 ==> find_char(a, c) == k - 1,
        k == 0 ==> find_char(a, c) < 0,
    decreases a.len(),
{
    if a.len() > 0 && a.len() > k {
        lemma_find_char_last(a.drop_last(), c, k);
    } else if a.len() == 0 {
    }
}

/// Counts the characters of the words, weighted by their counts, and raises those of
/// the initial alphabet to the maximum.
fn count_alphabet(wc: &WordCounts, initial: &Vec<char>) -> (r: CharCounts)
    requires
        wc.wf(),
    ensures
        r.chars.len() == r.counts.len(),
        r.view() == alphabet_counts(wc@, initial@),
{
    let mut a = CharCounts { chars: Vec::new(), counts: Vec::new() };
    assert(a.view() =~= Seq::<(char, usize)>::empty());
    let n = wc.len();
    let mut i: usize = 0;
    while i < n
        invariant
            wc.wf(),
            n == wc@.len(),
            i <= n,
            a.chars.len() == a.counts.len(),
            a.view() == count_chars(wc@, i as nat),
        decreases n - i,
    {
        let (w, c) = wc.get(i);
        let cs = chars_of(w.as_str());
        let weight = c as usize;
        let ghost start = a.view();
        let mut k: usize = 0;
        while k < cs.len()
            invariant
                cs@ == wc@[i as int].0,
                k <= cs.len(),
                a.chars.len() == a.counts.len(),
                a.view() == count_word_chars(start, cs@, weight, k as nat),
            decreases cs.len() - k,
        {
            a.add(cs[k], weight);
            k = k + 1;
        }
        i = i + 1;
    }
    let m = initial.len();
    let mut j: usize = 0;
    let ghost counted = a.view();
    while j < m
        invariant
            m == initial.len(),
            j <= m,
            a.chars.len() == a.counts.len(),
            a.view() == with_initial(counted, initial@, j as nat),
        decreases m - j,
    {
        a.set_max(initial[j]);
        j = j + 1;
    }
    a
}

/// The characters of `a`, in order.
pub open spec fn char_list(a: Seq<(char, usize)>) -> Seq<char> {
    a.map_values(|x: (char, usize)| x.0)
}

/// Takes out the entries of `a` with the smallest counts until the limit is met.
fn drop_rarest(a: CharCounts, limit: Option<usize>) -> (r: CharCounts)
    requires
        a.chars.len() == a.counts.len(),
        distinct_chars(a.view()),
    ensures
        r.chars.len() == r.counts.len(),
        distinct_chars(r.view()),
        r.view().len() + alphabet_excess(a.view().len(), limit) == a.view().len(),
        forall|k: int| 0 <= k < r.view().len() ==> find_char(a.view(), #[trigger] r.view()[k].0) >= 0
            && a.view()[find_char(a.view(), r.view()[k].0)] == r.view()[k],
        forall|j: int, k: int| 0 <= j < a.view().len() && 0 <= k < r.view().len()
            && !char_list(r.view()).contains(a.view()[j].0) ==> #[trigger] a.view()[j].1 <= #[trigger] r.view()[k].1,
{
    let ghost full = a.view();
    let n = a.chars.len();
    let excess: usize = match limit {
        Some(l) => if n > l {
            n - l
        } else {
            0
        },
        None => 0,
    };
    let mut rem = a;
    let mut t: usize = 0;
    assert forall|k: int| 0 <= k < rem.view().len() implies find_char(full, #[trigger] rem.view()[k].0) >= 0
        && full[find_char(full, rem.view()[k].0)] == rem.view()[k] by {
        lemma_find_char(full, full[k].0);
    }
    assert forall|j: int| 0 <= j < full.len() implies char_list(rem.view()).contains(full[j].0) by {
        assert(char_list(rem.view())[j] == full[j].0);
    }
    while t < excess
        invariant
            excess <= n,
            n == full.len(),
            excess == alphabet_excess(n as nat, limit),
            t <= excess,
            rem.chars.len() == rem.counts.len(),
            distinct_chars(full),
            distinct_chars(rem.view()),
            rem.view().len() + t == n,
            forall|k: int| 0 <= k < rem.view().len() ==> find_char(full, #[trigger] rem.view()[k].0) >= 0
                && full[find_char(full, rem.view()[k].0)] == rem.view()[k],
            forall|j: int, k: int| 0 <= j < full.len() && 0 <= k < rem.view().len()
                && !char_list(rem.view()).contains(full[j].0) ==> #[trigger] full[j].1 <= #[trigger] rem.view()[k].1,
        decreases excess - t,
    {
        let ghost before = rem.view();
        let m = rem.chars.len();
        let mut best: usize = 0;
        let mut i: usize = 1;
        while i < m
            invariant
                m == rem.chars.len(),
                m == rem.counts.len(),
                m > 0,
                1 <= i <= m,
                best < i,
                forall|k: int| 0 <= k < i ==> rem.counts@[best as int] <= #[trigger] rem.counts@[k],
            decreases m - i,
        {
            if rem.counts[i] < rem.counts[best] {
                best = i;
            }
            i = i + 1;
        }
        let gone_c = rem.chars.remove(best);
        let gone_n = rem.counts.remove(best);
        proof {
            let x = before[best as int];
            assert(x == (gone_c, gone_n));
            assert(rem.view() =~= before.remove(best as int));
            let after = rem.view();
            assert forall|k: int| 0 <= k < after.len() implies find_char(full, #[trigger] after[k].0) >= 0
                && full[find_char(full, after[k].0)] == after[k] by {
                if k < best {
                    assert(after[k] == before[k]);
                } else {
                    assert(after[k] == before[k + 1]);
                }
            }
            assert forall|j: int, k: int| 0 <= j < full.len() && 0 <= k < after.len()
                && !char_list(after).contains(full[j].0) implies #[trigger] full[j].1 <= #[trigger] after[k].1 by {
                let kk = if k < best { k } else { k + 1 };
                assert(after[k] == before[kk]);
                assert(before[best as int].1 <= before[kk].1);
                if char_list(before).contains(full[j].0) {
                    let q = choose|q: int| 0 <= q < char_list(before).len() && char_list(before)[q] == full[j].0;
                    if q != best {
                        let qq = if q < best { q } else { q - 1 };
                        assert(char_list(after)[qq] == full[j].0);
                    }
                    lemma_find_char(full, full[j].0);
                    assert(full[find_char(full, before[q].0)] == before[q]);
                    assert(find_char(full, full[j].0) == j) by {
                        lemma_find_char(full, full[j].0);
                    }
                } else {
                    assert(full[j].1 <= before[kk].1);
                }
            }
        }
        t = t + 1;
    }
    rem
}

proof fn lemma_char_code(a: char, b: char)
    ensures
        (a as u32) == (b as u32) ==> a == b,
{
}

/// The characters of `a` in increasing order of code point.
fn sort_by_code(a: CharCounts) -> (out: Vec<char>)
    requires
        a.chars.len() == a.counts.len(),
        distinct_chars(a.view()),
    ensures
        out.len() == a.view().len(),
        forall|i: int, j: int| 0 <= i < j < out.len() ==> (#[trigger] out@[i] as u32) < (#[trigger] out@[j] as u32),
        forall|c: char| out@.contains(c) <==> char_list(a.view()).contains(c),
{
    let ghost orig = char_list(a.view());
    let mut rem = a.chars;
    assert(rem@ =~= orig);
    let mut out: Vec<char> = Vec::new();
    while rem.len() > 0
        invariant
            out.len() + rem.len() == orig.len(),
            rem@.no_duplicates(),
            forall|i: int, j: int| 0 <= i < j < out.len() ==> (#[trigger] out@[i] as u32) < (#[trigger] out@[j] as u32),
            forall|i: int, j: int| 0 <= i < out.len() && 0 <= j < rem.len()
                ==> (#[trigger] out@[i] as u32) < (#[trigger] rem@[j] as u32),
            forall|c: char| out@.contains(c) || rem@.contains(c) <==> orig.contains(c),
        decreases rem.len(),
    {
        let m = rem.len();
        let mut best: usize = 0;
        let mut i: usize = 1;
        while i < m
            invariant
                m == rem.len(),
                m > 0,
                1 <= i <= m,
                best < i,
                forall|k: int| 0 <= k < i ==> (rem@[best as int] as u32) <= (#[trigger] rem@[k] as u32),
            decreases m - i,
        {
            if (rem[i] as u32) < (rem[best] as u32) {
                best = i;
            }
            i = i + 1;
        }
        let ghost before = rem@;
        let ghost before_out = out@;
        let c = rem.remove(best);
        out.push(c);
        proof {
            assert(rem@ =~= before.remove(best as int));
            assert forall|k: int| 0 <= k < before.len() && k != best implies (c as u32) < (#[trigger] before[k] as u32) by {
                assert(before[k] != c);
                assert((before[best as int] as u32) <= (before[k] as u32));
                lemma_char_code(before[k], c);
            }
            assert forall|i: int, j: int| 0 <= i < out.len() && 0 <= j < rem.len()
                implies (#[trigger] out@[i] as u32) < (#[trigger] rem@[j] as u32) by {
                let jj = if j < best { j } else { j + 1 };
                assert(rem@[j] == before[jj]);
                if i < before_out.len() {
                    assert(out@[i] == before_out[i]);
                }
            }
            assert forall|i: int, j: int| 0 <= i < j < out.len() implies (#[trigger] out@[i] as u32) < (#[trigger] out@[j] as u32) by {
                if j < before_out.len() {
                    assert(out@[i] == before_out[i] && out@[j] == before_out[j]);
                } else {
                    assert(out@[i] == before_out[i]);
                }
            }
            assert forall|x: char| out@.contains(x) || rem@.contains(x) <==> orig.contains(x) by {
                if before_out.contains(x) {
                    let q = choose|q: int| 0 <= q < before_out.len() && before_out[q] == x;
                    assert(out@[q] == x);
                }
                if before.contains(x) {
                    let q = choose|q: int| 0 <= q < before.len() && before[q] == x;
                    if q == best {
                        assert(out@[before_out.len() as int] == x);
                    } else {
                        let qq = if q < best { q } else { q - 1 };
                        assert(rem@[qq] == x);
                    }
                }
                if out@.contains(x) {
                    let q = choose|q: int| 0 <= q < out@.len() && out@[q] == x;
                    if q < before_out.len() {
                        assert(before_out[q] == x);
                    } else {
                        assert(before[best as int] == x);
                    }
                }
                if rem@.contains(x) {
                    let q = choose|q: int| 0 <= q < rem@.len() && rem@[q] == x;
                    let qq = if q < best { q } else { q + 1 };
                    assert(before[qq] == x);
                }
            }
        }
    }
    out
}

/// Computes the initial alphabet of training, and adds its one-character tokens to
/// `vocab` in increasing order of code point; returns the alphabet.
pub fn compute_alphabet(wc: &WordCounts, initial: &Vec<char>, limit: Option<usize>, vocab: &mut Vocab) -> (kept: Vec<char>)
    requires
        wc.wf(),
        old(vocab).wf(),
        old(vocab)@.len() + alphabet_counts(wc@, initial@).len() <= u32::MAX,
    ensures
        final(vocab).wf(),
        valid_alphabet(alphabet_counts(wc@, initial@), limit, kept@),
        final(vocab)@ == add_chars(old(vocab)@, kept@, kept.len() as nat),
{
    let counted = count_alphabet(wc, initial);
    let ghost a = counted.view();
    proof {
        lemma_count_chars_distinct(wc@, initial@);
    }
    let rest = drop_rarest(counted, limit);
    let ghost r = rest.view();
    let kept = sort_by_code(rest);
    proof {
        assert forall|i: int| 0 <= i < kept.len() implies find_char(a, #[trigger] kept@[i]) >= 0 by {
            assert(kept@.contains(kept@[i]));
            let q = choose|q: int| 0 <= q < char_list(r).len() && char_list(r)[q] == kept@[i];
            assert(r[q].0 == kept@[i]);
        }
        assert forall|i: int, j: int|
            0 <= i < kept.len() && 0 <= j < a.len() && !kept@.contains(a[j].0) implies #[trigger] a[j].1
                <= a[find_char(a, #[trigger] kept@[i])].1 by {
            assert(kept@.contains(kept@[i]));
            let q = choose|q: int| 0 <= q < char_list(r).len() && char_list(r)[q] == kept@[i];
            assert(r[q].0 == kept@[i]);
            assert(a[j].1 <= r[q].1);
        }
    }
    let n = kept.len();
    let mut j: usize = 0;
    while j < n
        invariant
            n == kept.len(),
            j <= n,
            vocab.wf(),
            vocab@.len() <= old(vocab)@.len() + j,
            old(vocab)@.len() + n <= u32::MAX,
            vocab@ == add_chars(old(vocab)@, kept@, j as nat),
        decreases n - j,
    {
        let s = string_of_char(kept[j]);
        let ghost before = vocab@;
        vocab.add(s);
        proof {
            lemma_find_token_len(before, seq![kept@[j as int]]);
        }
        j = j + 1;
    }
    kept
}

/// A valid alphabet has no more characters than were counted.
pub proof fn lemma_kept_len(wc: Seq<(Seq<char>, u64)>, init: Seq<char>, limit: Option<usize>, kept: Seq<char>)
    requires
        valid_alphabet(alphabet_counts(wc, init), limit, kept),
    ensures
        kept.len() <= alphabet_counts(wc, init).len(),
{
}

/// Adding one-character tokens adds at most one token per character.
pub proof fn lemma_add_chars_len(v: Seq<Seq<char>>, kept: Seq<char>, m: nat)
    ensures
        add_chars(v, kept, m).len() <= v.len() + m,
    decreases m,
{
    if m > 0 {
        lemma_add_chars_len(v, kept, (m - 1) as nat);
    }
}

proof fn lemma_find_token_len(v: Seq<Seq<char>>, s: Seq<char>)
    ensures
        add_token(v, s).0.len() <= v.len() + 1,
{
}

/// The characters that occur in the words of `wc`, each once, in order of first sighting.
pub open spec fn word_chars(wc: Seq<(Seq<char>, u64)>) -> Seq<char> {
    char_list(alphabet_counts(wc, Seq::empty()))
}

/// Whether some entry of `a` is for `c`.
spec fn has_char(a: Seq<(char, usize)>, c: char) -> bool {
    exists|j: int| 0 <= j < a.len() && a[j].0 == c
}

proof fn lemma_has_char(a: Seq<(char, usize)>, c: char)
    ensures
        has_char(a, c) <==> find_char(a, c) >= 0,
{
    lemma_find_char(a, c);
}

proof fn lemma_add_char_count_has(a: Seq<(char, usize)>, c: char, n: usize)
    ensures
        has_char(add_char_count(a, c, n), c),
        forall|x: char| has_char(a, x) ==> #[trigger] has_char(add_char_count(a, c, n), x),
{
    lemma_find_char(a, c);
    let r = add_char_count(a, c, n);
    if find_char(a, c) >= 0 {
        assert(r[find_char(a, c)].0 == c);
    } else {
        assert(r[a.len() as int].0 == c);
    }
    assert forall|x: char| has_char(a, x) implies #[trigger] has_char(r, x) by {
        let j = choose|j: int| 0 <= j < a.len() && a[j].0 == x;
        assert(r[j].0 == x);
    }
}

proof fn lemma_count_word_chars_has(a: Seq<(char, usize)>, w: Seq<char>, n: usize, k: nat)
    requires
        k <= w.len(),
    ensures
        forall|x: char| has_char(a, x) ==> #[trigger] has_char(count_word_chars(a, w, n, k), x),
        forall|q: int| 0 <= q < k ==> has_char(count_word_chars(a, w, n, k), #[trigger] w[q]),
    decreases k,
{
    if k > 0 {
        lemma_count_word_chars_has(a, w, n, (k - 1) as nat);
        let prev = count_word_chars(a, w, n, (k - 1) as nat);
        lemma_add_char_count_has(prev, w[k - 1], n);
    }
}

proof fn lemma_count_chars_has(wc: Seq<(Seq<char>, u64)>, m: nat)
    requires
        m <= wc.len(),
    ensures
        forall|i: int, q: int| 0 <= i < m && 0 <= q < wc[i].0.len() ==> has_char(count_chars(wc, m), #[trigger] wc[i].0[q]),
    decreases m,
{
    if m > 0 {
        lemma_count_chars_has(wc, (m - 1) as nat);
        let prev = count_chars(wc, (m - 1) as nat);
        lemma_count_word_chars_has(prev, wc[m - 1].0, wc[m - 1].1 as usize, wc[m - 1].0.len());
        assert forall|i: int, q: int| 0 <= i < m && 0 <= q < wc[i].0.len() implies has_char(count_chars(wc, m), #[trigger] wc[i].0[q]) by {
            if i < m - 1 {
                assert(has_char(prev, wc[i].0[q]));
            }
        }
    }
}

/// Every character of every word of `wc` is among `word_chars(wc)`.
pub proof fn lemma_word_chars_cover(wc: Seq<(Seq<char>, u64)>)
    ensures
        forall|i: int, q: int| 0 <= i < wc.len() && 0 <= q < wc[i].0.len() ==> word_chars(wc).contains(#[trigger] wc[i].0[q]),
{
    lemma_count_chars_has(wc, wc.len());
    let a = alphabet_counts(wc, Seq::empty());
    assert(a == count_chars(wc, wc.len()));
    assert forall|i: int, q: int| 0 <= i < wc.len() && 0 <= q < wc[i].0.len() implies word_chars(wc).contains(#[trigger] wc[i].0[q]) by {
        let c = wc[i].0[q];
        assert(has_char(a, c));
        let j = choose|j: int| 0 <= j < a.len() && a[j].0 == c;
        assert(word_chars(wc)[j] == c);
    }
}

/// The number of distinct characters among the words of `wc` and the characters of
/// `initial`.
pub fn alphabet_size(wc: &WordCounts, initial: &Vec<char>) -> (n: usize)
    requires
        wc.wf(),
    ensures
        n == alphabet_counts(wc@, initial@).len(),
{
    let a = count_alphabet(wc, initial);
    a.chars.len()
}

/// How often `c` occurs among the first `k` characters of `w`.
pub open spec fn char_occurrences(w: Seq<char>, c: char, k: nat) -> nat
    decreases k,
{
    if k == 0 {
        0
    } else {
        char_occurrences(w, c, (k - 1) as nat) + if w[k - 1] == c {
            1nat
        } else {
            0nat
        }
    }
}

/// How often `c` occurs in the first `m` words, each occurrence once.
pub open spec fn char_sightings(wc: Seq<(Seq<char>, u64)>, c: char, m: nat) -> nat
    decreases m,
{
    if m == 0 {
        0
    } else {
        char_sightings(wc, c, (m - 1) as nat) + char_occurrences(wc[m - 1].0, c, wc[m - 1].0.len())
    }
}

/// How often `c` occurs in the first `m` words, each occurrence weighing its word's
/// count.
pub open spec fn char_weight(wc: Seq<(Seq<char>, u64)>, c: char, m: nat) -> int
    decreases m,
{
    if m == 0 {
        0
    } else {
        char_weight(wc, c, (m - 1) as nat) + char_occurrences(wc[m - 1].0, c, wc[m - 1].0.len()) * (wc[m - 1].1 as usize)
    }
}

/// The count recorded for `c` in `a`, or 0.
pub open spec fn char_value(a: Seq<(char, usize)>, c: char) -> int {
    if find_char(a, c) >= 0 {
        a[find_char(a, c)].1 as int
    } else {
        0
    }
}

proof fn lemma_find_char_unique(a: Seq<(char, usize)>, i: int, c: char)
    requires
        distinct_chars(a),
        0 <= i < a.len(),
        a[i].0 == c,
    ensures
        find_char(a, c) == i,
{
    lemma_find_char(a, c);
}

proof fn lemma_wrapping_add_mod(x: usize, y: usize)
    ensures
        vstd::wrapping::usize_specs::wrapping_add(x, y) as int == (x + y) % (usize::MAX + 1),
{
    let m: int = usize::MAX + 1;
    if x + y > usize::MAX {
        vstd::arithmetic::div_mod::lemma_mod_sub_multiples_vanish(x + y, m);
        vstd::arithmetic::div_mod::lemma_small_mod((x + y - m) as nat, m as nat);
    } else {
        vstd::arithmetic::div_mod::lemma_small_mod((x + y) as nat, m as nat);
    }
}

/// Replacing the entry of `d` (or adding one) leaves every other character as it was.
proof fn lemma_other_char(a: Seq<(char, usize)>, r: Seq<(char, usize)>, d: char, y: usize, c: char)
    requires
        distinct_chars(a),
        distinct_chars(r),
        c != d,
        (find_char(a, d) >= 0 && r == a.update(find_char(a, d), (d, y))) || (find_char(a, d) < 0 && r == a.push((d, y))),
    ensures
        (find_char(r, c) >= 0) == (find_char(a, c) >= 0),
        char_value(r, c) == char_value(a, c),
{
    lemma_find_char(a, c);
    lemma_find_char(a, d);
    lemma_find_char(r, c);
    if find_char(a, c) >= 0 {
        let i = find_char(a, c);
        assert(r[i] == a[i]);
        lemma_find_char_unique(r, i, c);
    }
    if find_char(r, c) >= 0 {
        let i = find_char(r, c);
        if i < a.len() {
            assert(r[i] == a[i]);
        }
    }
}

proof fn lemma_add_char_count_value(a: Seq<(char, usize)>, d: char, n: usize, c: char)
    requires
        distinct_chars(a),
    ensures
        (find_char(add_char_count(a, d, n), c) >= 0) == (find_char(a, c) >= 0 || c == d),
        char_value(add_char_count(a, d, n), c) == if c == d {
            (char_value(a, c) + n) % (usize::MAX + 1)
        } else {
            char_value(a, c)
        },
{
    let r = add_char_count(a, d, n);
    lemma_add_char_count(a, d, n);
    lemma_find_char(a, d);
    let j = find_char(a, d);
    if c != d {
        let y = if j >= 0 { vstd::wrapping::usize_specs::wrapping_add(a[j].1, n) } else { n };
        lemma_other_char(a, r, d, y, c);
    } else if j >= 0 {
        lemma_find_char_unique(r, j, c);
        lemma_wrapping_add_mod(a[j].1, n);
    } else {
        lemma_find_char_unique(r, a.len() as int, c);
        vstd::arithmetic::div_mod::lemma_small_mod(n as nat, (usize::MAX + 1) as nat);
    }
}

proof fn lemma_count_word_chars_value(a: Seq<(char, usize)>, w: Seq<char>, n: usize, k: nat, c: char)
    requires
        distinct_chars(a),
        k <= w.len(),
    ensures
        (find_char(count_word_chars(a, w, n, k), c) >= 0) == (find_char(a, c) >= 0 || char_occurrences(w, c, k) > 0),
        char_value(count_word_chars(a, w, n, k), c) == (char_value(a, c) + char_occurrences(w, c, k) * n) % (usize::MAX + 1),
    decreases k,
{
    let m: int = usize::MAX + 1;
    if k == 0 {
        assert(0 <= char_value(a, c) < m);
        vstd::arithmetic::div_mod::lemma_small_mod(char_value(a, c) as nat, m as nat);
    } else {
        lemma_count_word_chars_value(a, w, n, (k - 1) as nat, c);
        lemma_count_word_chars(a, w, n, (k - 1) as nat);
        let prev = count_word_chars(a, w, n, (k - 1) as nat);
        lemma_add_char_count_value(prev, w[k - 1], n, c);
        let o = char_occurrences(w, c, (k - 1) as nat);
        let x = char_value(a, c) + o * n;
        assert(char_value(prev, c) == x % m);
        if w[k - 1] == c {
            assert(char_occurrences(w, c, k) == o + 1);
            assert(o * n + n == (o + 1) * n) by (nonlinear_arith);
            assert(x + n == char_value(a, c) + char_occurrences(w, c, k) * n);
            vstd::arithmetic::div_mod::lemma_add_mod_noop(x, n as int, m);
            vstd::arithmetic::div_mod::lemma_small_mod(n as nat, m as nat);
            vstd::arithmetic::div_mod::lemma_mod_twice(x, m);
            vstd::arithmetic::div_mod::lemma_add_mod_noop(x % m, n as int, m);
            assert((x % m + n) % m == (x + n) % m);
            assert(char_value(count_word_chars(a, w, n, k), c) == (x % m + n) % m);
        } else {
            assert(char_occurrences(w, c, k) == o);
            assert(char_value(count_word_chars(a, w, n, k), c) == char_value(prev, c));
        }
    }
}

proof fn lemma_count_chars_value(wc: Seq<(Seq<char>, u64)>, m: nat, c: char)
    requires
        m <= wc.len(),
    ensures
        (find_char(count_chars(wc, m), c) >= 0) == (char_sightings(wc, c, m) > 0),
        char_value(count_chars(wc, m), c) == char_weight(wc, c, m) % (usize::MAX + 1),
    decreases m,
{
    let md: int = usize::MAX + 1;
    if m > 0 {
        lemma_count_chars_value(wc, (m - 1) as nat, c);
        lemma_count_chars(wc, (m - 1) as nat);
        let prev = count_chars(wc, (m - 1) as nat);
        let w = wc[m - 1].0;
        let n = wc[m - 1].1 as usize;
        lemma_count_word_chars_value(prev, w, n, w.len(), c);
        let y = char_occurrences(w, c, w.len()) * n;
        assert(y >= 0) by (nonlinear_arith)
            requires
                y == char_occurrences(w, c, w.len()) * n,
        ;
        vstd::arithmetic::div_mod::lemma_add_mod_noop(char_weight(wc, c, (m - 1) as nat), y, md);
        vstd::arithmetic::div_mod::lemma_mod_twice(char_weight(wc, c, (m - 1) as nat), md);
        vstd::arithmetic::div_mod::lemma_add_mod_noop(char_weight(wc, c, (m - 1) as nat) % md, y, md);
    }
}

proof fn lemma_with_initial_value(a: Seq<(char, usize)>, init: Seq<char>, m: nat, c: char)
    requires
        distinct_chars(a),
        m <= init.len(),
    ensures
        init.take(m as int).contains(c) ==> find_char(with_initial(a, init, m), c) >= 0
            && char_value(with_initial(a, init, m), c) == usize::MAX,
        !init.take(m as int).contains(c) ==> (find_char(with_initial(a, init, m), c) >= 0) == (find_char(a, c) >= 0)
            && char_value(with_initial(a, init, m), c) == char_value(a, c),
    decreases m,
{
    if m > 0 {
        lemma_with_initial_value(a, init, (m - 1) as nat, c);
        lemma_with_initial(a, init, (m - 1) as nat);
        let prev = with_initial(a, init, (m - 1) as nat);
        let d = init[m - 1];
        let r = set_char_max(prev, d);
        lemma_add_char_count(prev, d, 0);
        lemma_find_char(prev, d);
        let j = find_char(prev, d);
        assert(init.take(m as int) =~= init.take(m - 1).push(d));
        if c != d {
            lemma_other_char(prev, r, d, usize::MAX, c);
            let t1 = init.take(m - 1);
            let t2 = init.take(m as int);
            if t2.contains(c) {
                let q = choose|q: int| 0 <= q < t2.len() && t2[q] == c;
                assert(t1[q] == c);
            }
            if t1.contains(c) {
                let q = choose|q: int| 0 <= q < t1.len() && t1[q] == c;
                assert(t2[q] == c);
            }
        } else {
            assert(init.take(m as int)[m - 1] == c);
            if j >= 0 {
                lemma_find_char_unique(r, j, c);
            } else {
                lemma_find_char_unique(r, prev.len() as int, c);
            }
        }
    }
}

/// The counts that limit the alphabet: a character of the initial alphabet counts as
/// the maximum; any other character is counted exactly when it occurs in the words,
/// and then as often as it occurs, each occurrence weighing its word's count (wrapping
/// in `usize`).
pub proof fn law_alphabet_counts_weighted(wc: Seq<(Seq<char>, u64)>, init: Seq<char>, c: char)
    ensures
        ({
            let a = alphabet_counts(wc, init);
            &&& init.contains(c) ==> find_char(a, c) >= 0 && a[find_char(a, c)].1 == usize::MAX
            &&& !init.contains(c) ==> (find_char(a, c) >= 0 <==> char_sightings(wc, c, wc.len()) > 0)
            &&& !init.contains(c) && find_char(a, c) >= 0 ==> a[find_char(a, c)].1 as int
                == char_weight(wc, c, wc.len()) % (usize::MAX + 1)
        }),
{
    lemma_count_chars(wc, wc.len());
    lemma_count_chars_value(wc, wc.len(), c);
    lemma_with_initial_value(count_chars(wc, wc.len()), init, init.len(), c);
    assert(init.take(init.len() as int) =~= init);
}

} // verus!
