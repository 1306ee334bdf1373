//! The queue of merge candidates, from which the best candidate is taken first.

use vstd::prelude::*;
use crate::pairs::Pair;

verus! {

/// A merge candidate: a pair, the count it had when queued, and the positions of the
/// words in which it was seen.
#[derive(Debug)]
pub struct Merge {
    pub pair: Pair,
    pub count: u64,
    pub pos: Vec<usize>,
}

/// A merge candidate as a mathematical value.
pub ghost struct Candidate {
    pub pair: Pair,
    pub count: u64,
    pub pos: Seq<usize>,
}

impl View for Merge {
    type V = Candidate;

    open spec fn view(&self) -> Candidate {
        Candidate { pair: self.pair, count: self.count, pos: self.pos@ }
    }
}

/// `a` leaves the queue before `b`: the higher count first and, between equal counts,
/// the smaller pair (compared on the first id, then on the second).
pub open spec fn ranks_above(a: Candidate, b: Candidate) -> bool {
    ||| a.count > b.count
    ||| a.count == b.count && (a.pair.0 < b.pair.0 || (a.pair.0 == b.pair.0 && a.pair.1 < b.pair.1))
}

/// The position of the first candidate of `q` that no other candidate ranks above.
pub open spec fn top_index(q: Seq<Candidate>) -> int
    decreases q.len(),
{
    if q.len() <= 1 {
        0
    } else {
        let j = top_index(q.drop_last());
        if ranks_above(q.last(), q[j]) {
            q.len() - 1
        } else {
            j
        }
    }
}

/// The candidate at `top_index` is a best one, and the first of the best ones.
pub proof fn lemma_top_index(q: Seq<Candidate>)
    requires
        q.len() > 0,
    ensures
        0 <= top_index(q) < q.len(),
        forall|j: int| 0 <= j < q.len() ==> !ranks_above(#[trigger] q[j], q[top_index(q)]),
        forall|j: int| 0 <= j < top_index(q) ==> ranks_above(q[top_index(q)], #[trigger] q[j]),
    decreases q.len(),
{
    if q.len() > 1 {
        let d = q.drop_last();
        lemma_top_index(d);
        let j = top_index(d);
        assert forall|i: int| 0 <= i < q.len() - 1 implies q[i] == d[i] by {}
    }
}

/// Candidates waiting to be merged.
pub struct MergeQueue {
    entries: Vec<Merge>,
}

impl View for MergeQueue {
    type V = Seq<Candidate>;

    closed spec fn view(&self) -> Seq<Candidate> {
        self.entries@.map_values(|m: Merge| m@)
    }
}

impl MergeQueue {
    /// An empty queue.
    pub fn new() -> (q: Self)
        ensures
            q@ == Seq::<Candidate>::empty(),
    {
        let q = MergeQueue { entries: Vec::new() };
        assert(q@ =~= Seq::<Candidate>::empty());
        q
    }

    /// The number of waiting candidates.
    pub fn len(&self) -> (n: usize)
        ensures
            n == self@.len(),
    {
        self.entries.len()
    }

    /// Whether no candidate waits.
    pub fn is_empty(&self) -> (b: bool)
        ensures
            b == (self@.len() == 0),
    {
        self.entries.len() == 0
    }

    /// Adds a candidate.
    pub fn push(&mut self, m: Merge)
        ensures
            final(self)@ == old(self)@.push(m@),
    {
        self.entries.push(m);
        assert(final(self)@ =~= old(self)@.push(m@));
    }

    /// The position of the best candidate: the first of those that no other ranks above.
    pub fn best_index(&self) -> (k: usize)
        requires
            self@.len() > 0,
        ensures
            k == top_index(self@),
            k < self@.len(),
    {
        let ghost q = self@;
        let n = self.entries.len();
        let mut best: usize = 0;
        let mut i: usize = 1;
        assert(q.take(1).len() == 1);
        while i < n
            invariant
                q == self@,
                n == q.len(),
                1 <= i <= n,
                best == top_index(q.take(i as int)),
            decreases n - i,
        {
            proof {
                assert(q.take(i + 1).drop_last() =~= q.take(i as int));
                lemma_top_index(q.take(i as int));
            }
            let a = &self.entries[i];
            let b = &self.entries[best];
            if a.count > b.count || (a.count == b.count && (a.pair.0 < b.pair.0 || (a.pair.0 == b.pair.0
                && a.pair.1 < b.pair.1))) {
                best = i;
            }
            i = i + 1;
        }
        assert(q.take(n as int) =~= q);
        proof {
            lemma_top_index(q);
        }
        best
    }

    /// The candidate at position `k`.
    pub fn get(&self, k: usize) -> (m: &Merge)
        requires
            k < self@.len(),
        ensures
            m@ == self@[k as int],
    {
        &self.entries[k]
    }

    /// Takes out the candidate at position `k`.
    pub fn take(&mut self, k: usize) -> (m: Merge)
        requires
            k < old(self)@.len(),
        ensures
            m@ == old(self)@[k as int],
            final(self)@ == old(self)@.remove(k as int),
    {
        let m = self.entries.remove(k);
        assert(final(self)@ =~= old(self)@.remove(k as int));
        m
    }
}

} // verus!
