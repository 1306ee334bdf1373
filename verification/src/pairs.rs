//! Pairs of adjacent token ids: their counts, and where they occur.

use vstd::prelude::*;
use vstd::hash_map::HashMapWithView;

verus! {

broadcast use vstd::std_specs::hash::group_hash_axioms;

/// A pair of adjacent token ids.
pub type Pair = (u32, u32);

/// The hash key of a pair: the first id in the high half, the second in the low half.
pub open spec fn pair_key(p: Pair) -> u64 {
    (p.0 as int * 0x1_0000_0000 + p.1 as int) as u64
}

pub proof fn lemma_pair_key_injective(p: Pair, q: Pair)
    ensures
        pair_key(p) == pair_key(q) ==> p == q,
{
    assert(0 <= p.0 as int * 0x1_0000_0000 + p.1 as int <= u64::MAX) by (nonlinear_arith);
    assert(0 <= q.0 as int * 0x1_0000_0000 + q.1 as int <= u64::MAX) by (nonlinear_arith);
    if pair_key(p) == pair_key(q) {
        assert(p.0 == q.0 && p.1 == q.1) by (nonlinear_arith)
            requires
                p.0 as int * 0x1_0000_0000 + p.1 as int == q.0 as int * 0x1_0000_0000 + q.1 as int,
                p.1 < 0x1_0000_0000,
                q.1 < 0x1_0000_0000,
        ;
    }
}

/// The hash key of `p`.
pub fn key_of(p: Pair) -> (k: u64)
    ensures
        k == pair_key(p),
{
    proof {
        assert(0 <= p.0 as int * 0x1_0000_0000 + p.1 as int <= u64::MAX) by (nonlinear_arith);
    }
    (p.0 as u64) * 0x1_0000_0000 + (p.1 as u64)
}

/// The count of `p` in `m`, zero when `m` has none.
pub open spec fn count_or_zero(m: Map<Pair, i32>, p: Pair) -> i32 {
    if m.contains_key(p) {
        m[p]
    } else {
        0
    }
}

/// `m` with `delta` added, wrapping in `i32`, to the count of `p`.
pub open spec fn add_count(m: Map<Pair, i32>, p: Pair, delta: i32) -> Map<Pair, i32> {
    m.insert(p, vstd::wrapping::i32_specs::wrapping_add(count_or_zero(m, p), delta))
}

/// Counts of pairs, keyed by pair.
pub struct PairCounts {
    m: HashMapWithView<u64, i32>,
}

impl View for PairCounts {
    type V = Map<Pair, i32>;

    closed spec fn view(&self) -> Map<Pair, i32> {
        Map::new(|p: Pair| self.m@.contains_key(pair_key(p)), |p: Pair| self.m@[pair_key(p)])
    }
}

impl PairCounts {
    /// No counts at all.
    pub fn new() -> (c: Self)
        ensures
            c@ == Map::<Pair, i32>::empty(),
    {
        let c = PairCounts { m: HashMapWithView::new() };
        assert(c@ =~= Map::<Pair, i32>::empty());
        c
    }

    /// The count of `p`, if it has one.
    pub fn get(&self, p: Pair) -> (r: Option<i32>)
        ensures
            match r {
                Some(v) => self@.contains_key(p) && v == self@[p],
                None => !self@.contains_key(p),
            },
    {
        match self.m.get(&key_of(p)) {
            Some(v) => Some(*v),
            None => None,
        }
    }

    /// Adds `delta`, wrapping in `i32`, to the count of `p` (which starts at zero).
    pub fn add(&mut self, p: Pair, delta: i32)
        ensures
            final(self)@ == add_count(old(self)@, p, delta),
    {
        let k = key_of(p);
        let cur = match self.m.get(&k) {
            Some(v) => *v,
            None => 0,
        };
        self.m.insert(k, cur.wrapping_add(delta));
        proof {
            assert forall|q: Pair| #![auto] pair_key(q) == k implies q == p by {
                lemma_pair_key_injective(q, p);
            }
            assert(final(self)@ =~= add_count(old(self)@, p, delta));
        }
    }
}

/// Pairs in the order of their first insertion, each with the increasing list of
/// word positions where it was seen.
pub open spec fn find_pair(t: Seq<(Pair, Seq<usize>)>, p: Pair) -> int
    decreases t.len(),
{
    if t.len() == 0 {
        -1
    } else if t.last().0 == p {
        t.len() - 1
    } else {
        find_pair(t.drop_last(), p)
    }
}

/// The table after recording that `p` occurs in word `i`: positions are kept once,
/// and are recorded in increasing order.
pub open spec fn table_add(t: Seq<(Pair, Seq<usize>)>, p: Pair, i: usize) -> Seq<(Pair, Seq<usize>)> {
    let j = find_pair(t, p);
    if j >= 0 {
        if t[j].1.len() > 0 && t[j].1.last() == i {
            t
        } else {
            t.update(j, (p, t[j].1.push(i)))
        }
    } else {
        t.push((p, seq![i]))
    }
}

pub proof fn lemma_find_pair(t: Seq<(Pair, Seq<usize>)>, p: Pair)
    ensures
        -1 <= find_pair(t, p) < t.len(),
        find_pair(t, p) >= 0 ==> t[find_pair(t, p)].0 == p,
        find_pair(t, p) < 0 ==> forall|j: int| 0 <= j < t.len() ==> t[j].0 != p,
    decreases t.len(),
{
    if t.len() > 0 && t.last().0 != p {
        lemma_find_pair(t.drop_last(), p);
        assert forall|j: int| 0 <= j < t.len() - 1 implies t[j] == t.drop_last()[j] by {}
    }
}

/// A table from pairs to the positions of the words where they occur, remembering
/// the order in which pairs first came.
pub struct PairTable {
    pairs: Vec<Pair>,
    positions: Vec<Vec<usize>>,
    index: HashMapWithView<u64, usize>,
}

impl View for PairTable {
    type V = Seq<(Pair, Seq<usize>)>;

    closed spec fn view(&self) -> Seq<(Pair, Seq<usize>)> {
        Seq::new(self.pairs.len() as nat, |j: int| (self.pairs@[j], self.positions@[j]@))
    }
}

impl PairTable {
    pub closed spec fn wf(&self) -> bool {
        &&& self.pairs.len() == self.positions.len()
        &&& forall|j: int|
            0 <= j < self.pairs.len() ==> #[trigger] self.index@.contains_key(pair_key(self.pairs@[j]))
                && self.index@[pair_key(self.pairs@[j])] == j
        &&& forall|k: u64|
            #[trigger] self.index@.contains_key(k) ==> self.index@[k] < self.pairs.len()
                && pair_key(self.pairs@[self.index@[k] as int]) == k
    }

    /// An empty table.
    pub fn new() -> (t: Self)
        ensures
            t.wf(),
            t@ == Seq::<(Pair, Seq<usize>)>::empty(),
    {
        let t = PairTable { pairs: Vec::new(), positions: Vec::new(), index: HashMapWithView::new() };
        assert(t@ =~= Seq::<(Pair, Seq<usize>)>::empty());
        t
    }

    /// Records that `p` occurs in the word at position `i`.
    pub fn add(&mut self, p: Pair, i: usize)
        requires
            old(self).wf(),
        ensures
            final(self).wf(),
            final(self)@ == table_add(old(self)@, p, i),
    {
        let k = key_of(p);
        proof {
            lemma_find_pair(self@, p);
        }
        match self.index.get(&k) {
            Some(j) => {
                let j = *j;
                proof {
                    lemma_pair_key_injective(self.pairs@[j as int], p);
                    assert(self@[j as int].0 == p);
                    if find_pair(self@, p) != j {
                        let f = find_pair(self@, p);
                        assert(self.index@.contains_key(pair_key(self.pairs@[f])));
                    }
                }
                let n = self.positions[j].len();
                if n > 0 && self.positions[j][n - 1] == i {
                    assert(self@[j as int].1.last() == i);
                } else {
                    let ghost old_view = self@;
                    let mut list: Vec<usize> = Vec::new();
                    std::mem::swap(&mut list, &mut self.positions[j]);
                    list.push(i);
                    std::mem::swap(&mut list, &mut self.positions[j]);
                    assert(self@ =~= old_view.update(j as int, (p, old_view[j as int].1.push(i))));
                }
            },
            None => {
                proof {
                    if find_pair(self@, p) >= 0 {
                        let f = find_pair(self@, p);
                        assert(self.index@.contains_key(pair_key(self.pairs@[f])));
                    }
                }
                let ghost old_view = self@;
                let j = self.pairs.len();
                self.pairs.push(p);
                let mut list: Vec<usize> = Vec::new();
                list.push(i);
                assert(list@ =~= seq![i]);
                self.positions.push(list);
                self.index.insert(k, j);
                proof {
                    assert(self@ =~= old_view.push((p, seq![i])));
                    assert forall|kk: u64| #[trigger] self.index@.contains_key(kk)
                        implies self.index@[kk] < self.pairs.len()
                            && pair_key(self.pairs@[self.index@[kk] as int]) == kk by {
                        if kk != k {
                            assert(old(self).index@.contains_key(kk));
                        }
                    }
                    assert forall|jj: int| 0 <= jj < self.pairs.len()
                        implies #[trigger] self.index@.contains_key(pair_key(self.pairs@[jj]))
                            && self.index@[pair_key(self.pairs@[jj])] == jj by {
                        if jj < j {
                            assert(old(self).index@.contains_key(pair_key(old(self).pairs@[jj])));
                            lemma_pair_key_injective(self.pairs@[jj], p);
                        }
                    }
                }
            },
        }
    }

    /// Takes the table apart into its pairs and position lists, in order.
    pub fn into_parts(self) -> (r: (Vec<Pair>, Vec<Vec<usize>>))
        requires
            self.wf(),
        ensures
            r.0.len() == r.1.len(),
            r.0@.len() == self@.len(),
            forall|j: int| 0 <= j < self@.len() ==> #[trigger] self@[j] == (r.0@[j], r.1@[j]@),
    {
        (self.pairs, self.positions)
    }
}

} // verus!
