//! Words with how often each was seen, in the order in which they first came.

use vstd::prelude::*;
use vstd::hash_map::StringHashMap;
use vstd::string::StrSliceExecFns;

verus! {

/// Position of `w` among the words of `t`, or -1.
pub open spec fn find_word(t: Seq<(Seq<char>, u64)>, w: Seq<char>) -> int
    decreases t.len(),
{
    if t.len() == 0 {
        -1
    } else if t.last().0 == w {
        t.len() - 1
    } else {
        find_word(t.drop_last(), w)
    }
}

pub proof fn lemma_find_word(t: Seq<(Seq<char>, u64)>, w: Seq<char>)
    ensures
        -1 <= find_word(t, w) < t.len(),
        find_word(t, w) >= 0 ==> t[find_word(t, w)].0 == w,
        find_word(t, w) < 0 ==> forall|j: int| 0 <= j < t.len() ==> t[j].0 != w,
    decreases t.len(),
{
    if t.len() > 0 && t.last().0 != w {
        lemma_find_word(t.drop_last(), w);
        assert forall|j: int| 0 <= j < t.len() - 1 implies t[j] == t.drop_last()[j] by {}
    }
}

/// `t` after one more sighting of `w`: its count goes up by one (wrapping), or it
/// comes last with count one.
pub open spec fn count_word(t: Seq<(Seq<char>, u64)>, w: Seq<char>) -> Seq<(Seq<char>, u64)> {
    let j = find_word(t, w);
    if j >= 0 {
        t.update(j, (w, vstd::wrapping::u64_specs::wrapping_add(t[j].1, 1)))
    } else {
        t.push((w, 1))
    }
}

/// `t` after a sighting of each of `ws`, in order.
pub open spec fn count_all(t: Seq<(Seq<char>, u64)>, ws: Seq<Seq<char>>) -> Seq<(Seq<char>, u64)>
    decreases ws.len(),
{
    if ws.len() == 0 {
        t
    } else {
        count_word(count_all(t, ws.drop_last()), ws.last())
    }
}

/// `t` with the count of `w` set to `n`: in place when `w` is present, otherwise last.
pub open spec fn set_word(t: Seq<(Seq<char>, u64)>, w: Seq<char>, n: u64) -> Seq<(Seq<char>, u64)> {
    let j = find_word(t, w);
    if j >= 0 {
        t.update(j, (w, n))
    } else {
        t.push((w, n))
    }
}

/// Words with their counts, each word once.
pub struct WordCounts {
    words: Vec<String>,
    counts: Vec<u64>,
    index: StringHashMap<usize>,
}

impl View for WordCounts {
    type V = Seq<(Seq<char>, u64)>;

    closed spec fn view(&self) -> Seq<(Seq<char>, u64)> {
        Seq::new(self.words.len() as nat, |j: int| (self.words@[j]@, self.counts@[j]))
    }
}

impl WordCounts {
    pub closed spec fn wf(&self) -> bool {
        &&& self.words.len() == self.counts.len()
        &&& forall|j: int| 0 <= j < self.words.len() ==> (#[trigger] self.words@[j])@.len() <= usize::MAX
        &&& forall|j: int|
            0 <= j < self.words.len() ==> #[trigger] self.index@.contains_key(self.words@[j]@)
                && self.index@[self.words@[j]@] == j
        &&& forall|k: Seq<char>|
            #[trigger] self.index@.contains_key(k) ==> self.index@[k] < self.words.len()
                && self.words@[self.index@[k] as int]@ == k
    }

    /// Every word's length fits in `usize`.
    pub proof fn lemma_word_lengths(&self)
        requires
            self.wf(),
        ensures
            forall|j: int| 0 <= j < self@.len() ==> (#[trigger] self@[j]).0.len() <= usize::MAX,
    {
        assert forall|j: int| 0 <= j < self@.len() implies (#[trigger] self@[j]).0.len() <= usize::MAX by {
            assert(self@[j].0 == self.words@[j]@);
        }
    }

    pub proof fn lemma_distinct(&self)
        requires
            self.wf(),
        ensures
            forall|a: int, b: int| 0 <= a < self@.len() && 0 <= b < self@.len() && a != b
                ==> #[trigger] self@[a].0 != #[trigger] self@[b].0,
    {
        assert forall|a: int, b: int| 0 <= a < self@.len() && 0 <= b < self@.len() && a != b
            implies #[trigger] self@[a].0 != #[trigger] self@[b].0 by {
            assert(self.index@.contains_key(self.words@[a]@));
            assert(self.index@.contains_key(self.words@[b]@));
        }
    }

    /// No words.
    pub fn new() -> (t: Self)
        ensures
            t.wf(),
            t@ == Seq::<(Seq<char>, u64)>::empty(),
    {
        let t = WordCounts { words: Vec::new(), counts: Vec::new(), index: StringHashMap::new() };
        assert(t@ =~= Seq::<(Seq<char>, u64)>::empty());
        t
    }

    /// The number of distinct words.
    pub fn len(&self) -> (n: usize)
        ensures
            n == self@.len(),
    {
        self.words.len()
    }

    /// The word at position `j` and its count.
    pub fn get(&self, j: usize) -> (r: (&String, u64))
        requires
            self.wf(),
            j < self@.len(),
        ensures
            r.0@ == self@[j as int].0,
            r.1 == self@[j as int].1,
    {
        (&self.words[j], self.counts[j])
    }

    /// Records one more sighting of `w`.
    pub fn count(&mut self, w: String)
        requires
            old(self).wf(),
        ensures
            final(self).wf(),
            final(self)@ == count_word(old(self)@, w@),
    {
        proof {
            lemma_find_word(self@, w@);
        }
        match self.index.get(w.as_str()) {
            Some(j) => {
                let j = *j;
                proof {
                    assert(self@[j as int].0 == w@);
                    if find_word(self@, w@) != j {
                        let f = find_word(self@, w@);
                        assert(self.index@.contains_key(self.words@[f]@));
                    }
                }
                let c = self.counts[j];
                let ghost old_view = self@;
                self.counts.set(j, c.wrapping_add(1));
                assert(self@ =~= old_view.update(j as int, (w@, vstd::wrapping::u64_specs::wrapping_add(c, 1))));
            },
            None => {
                proof {
                    if find_word(self@, w@) >= 0 {
                        let f = find_word(self@, w@);
                        assert(self.index@.contains_key(self.words@[f]@));
                    }
                }
                let _len: usize = w.as_str().unicode_len();
                let ghost old_view = self@;
                let j = self.words.len();
                self.index.insert(w.clone(), j);
                self.words.push(w);
                self.counts.push(1);
                proof {
                    assert(self@ =~= old_view.push((self.words@[j as int]@, 1)));
                    assert forall|k: Seq<char>| #[trigger] self.index@.contains_key(k)
                        implies self.index@[k] < self.words.len() && self.words@[self.index@[k] as int]@ == k by {
                        if self.index@[k] != j {
                            assert(old(self).index@.contains_key(k));
                        }
                    }
                    assert forall|jj: int| 0 <= jj < self.words.len()
                        implies #[trigger] self.index@.contains_key(self.words@[jj]@)
                            && self.index@[self.words@[jj]@] == jj by {
                        if jj < j {
                            assert(old(self).index@.contains_key(old(self).words@[jj]@));
                        }
                    }
                }
            },
        }
    }
}

impl WordCounts {
    /// Sets the count of `w` to `n`.
    pub fn set(&mut self, w: String, n: u64)
        requires
            old(self).wf(),
        ensures
            final(self).wf(),
            final(self)@ == set_word(old(self)@, w@, n),
    {
        proof {
            lemma_find_word(self@, w@);
        }
        match self.index.get(w.as_str()) {
            Some(j) => {
                let j = *j;
                proof {
                    assert(self@[j as int].0 == w@);
                    if find_word(self@, w@) != j {
                        let f = find_word(self@, w@);
                        assert(self.index@.contains_key(self.words@[f]@));
                    }
                }
                let ghost old_view = self@;
                self.counts.set(j, n);
                assert(self@ =~= old_view.update(j as int, (w@, n)));
            },
            None => {
                proof {
                    if find_word(self@, w@) >= 0 {
                        let f = find_word(self@, w@);
                        assert(self.index@.contains_key(self.words@[f]@));
                    }
                }
                let _len: usize = w.as_str().unicode_len();
                let ghost old_view = self@;
                let j = self.words.len();
                self.index.insert(w.clone(), j);
                self.words.push(w);
                self.counts.push(n);
                proof {
                    assert(self@ =~= old_view.push((self.words@[j as int]@, n)));
                    assert forall|k: Seq<char>| #[trigger] self.index@.contains_key(k)
                        implies self.index@[k] < self.words.len() && self.words@[self.index@[k] as int]@ == k by {
                        if self.index@[k] != j {
                            assert(old(self).index@.contains_key(k));
                        }
                    }
                    assert forall|jj: int| 0 <= jj < self.words.len()
                        implies #[trigger] self.index@.contains_key(self.words@[jj]@)
                            && self.index@[self.words@[jj]@] == jj by {
                        if jj < j {
                            assert(old(self).index@.contains_key(old(self).words@[jj]@));
                        }
                    }
                }
            },
        }
    }

    /// A copy of the table.
    pub fn copied(&self) -> (r: Self)
        requires
            self.wf(),
        ensures
            r.wf(),
            r@ == self@,
    {
        proof {
            self.lemma_distinct();
        }
        let mut r = WordCounts::new();
        let n = self.words.len();
        let mut j: usize = 0;
        while j < n
            invariant
                self.wf(),
                n == self.words.len(),
                j <= n,
                r.wf(),
                r@ == self@.take(j as int),
                forall|a: int, b: int| 0 <= a < self@.len() && 0 <= b < self@.len() && a != b
                    ==> #[trigger] self@[a].0 != #[trigger] self@[b].0,
            decreases n - j,
        {
            let ghost before = r@;
            let w = self.words[j].clone();
            proof {
                assert forall|k: int| 0 <= k < j implies before[k].0 != w@ by {
                    assert(self@[k].0 != self@[j as int].0);
                }
                assert forall|k: int| 0 <= k < r.words.len() implies r.words@[k]@ == before[k].0 by {}
            }
            let ghost old_idx = r.index@;
            let ghost old_words = r.words@;
            let ghost old_counts = r.counts@;
            assert(before.len() == j);
            assert(old_words.len() == j);
            assert forall|k: int| 0 <= k < j implies old_words[k]@ == before[k].0 && old_counts[k] == before[k].1 by {
                assert(before[k] == (r.words@[k]@, r.counts@[k]));
            }
            r.index.insert(w.clone(), j);
            r.words.push(w);
            r.counts.push(self.counts[j]);
            proof {
                assert forall|k: int| 0 <= k < j + 1 implies r@[k] == self@.take(j + 1)[k] by {
                    if k < j {
                        assert(r.words@[k] == old_words[k]);
                        assert(r.counts@[k] == old_counts[k]);
                    }
                }
                assert(r@ =~= self@.take(j + 1));
                assert forall|k: Seq<char>| #[trigger] r.index@.contains_key(k)
                    implies r.index@[k] < r.words.len() && r.words@[r.index@[k] as int]@ == k by {
                    if k != w@ {
                        assert(old_idx.contains_key(k));
                        assert(r.words@[old_idx[k] as int] == old_words[old_idx[k] as int]);
                    }
                }
                assert forall|jj: int| 0 <= jj < r.words.len()
                    implies #[trigger] r.index@.contains_key(r.words@[jj]@) && r.index@[r.words@[jj]@] == jj by {
                    if jj < j {
                        assert(r.words@[jj] == old_words[jj]);
                        assert(old_idx.contains_key(old_words[jj]@));
                        assert(old_words[jj]@ == before[jj].0);
                    }
                }
            }
            j = j + 1;
        }
        assert(self@.take(n as int) =~= self@);
        r
    }
}

} // verus!
