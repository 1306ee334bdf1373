//! The model that training fills: a vocabulary, the merges, and the affixes used.

use vstd::prelude::*;
use vstd::hash_map::HashMapWithView;
use crate::pairs::{Pair, pair_key, key_of, lemma_pair_key_injective};
use crate::vocab::Vocab;

verus! {

broadcast use vstd::std_specs::hash::group_hash_axioms;

/// A token that training must keep whole, such as a special marker.
#[derive(Debug)]
pub struct AddedToken {
    pub content: String,
    pub single_word: bool,
    pub lstrip: bool,
    pub rstrip: bool,
    pub normalized: bool,
    pub special: bool,
}

impl AddedToken {
    /// A token with content `content`; a special token is not normalized, any other is.
    pub fn from(content: String, special: bool) -> (t: Self)
        ensures
            t.content@ == content@,
            t.special == special,
            t.normalized == !special,
            !t.single_word && !t.lstrip && !t.rstrip,
    {
        AddedToken { content, single_word: false, lstrip: false, rstrip: false, normalized: !special, special }
    }

    /// A copy of the token.
    pub fn copied(&self) -> (t: Self)
        ensures
            t == *self,
    {
        AddedToken {
            content: self.content.clone(),
            single_word: self.single_word,
            lstrip: self.lstrip,
            rstrip: self.rstrip,
            normalized: self.normalized,
            special: self.special,
        }
    }
}

/// A copy of a list of tokens.
pub fn copy_tokens(v: &Vec<AddedToken>) -> (r: Vec<AddedToken>)
    ensures
        r@ == v@,
{
    let mut r: Vec<AddedToken> = Vec::new();
    let n = v.len();
    let mut i: usize = 0;
    while i < n
        invariant
            n == v.len(),
            i <= n,
            r@ == v@.take(i as int),
        decreases n - i,
    {
        r.push(v[i].copied());
        assert(r@ =~= v@.take(i + 1));
        i = i + 1;
    }
    assert(v@.take(n as int) =~= v@);
    r
}

/// The contents of tokens, as strings.
pub open spec fn token_contents(v: Seq<AddedToken>) -> Seq<Seq<char>> {
    v.map_values(|t: AddedToken| t.content@)
}

/// Position of the entry for `p` in `m`, or -1.
pub open spec fn find_merge(m: Seq<(Pair, (u32, u32))>, p: Pair) -> int
    decreases m.len(),
{
    if m.len() == 0 {
        -1
    } else if m.last().0 == p {
        m.len() - 1
    } else {
        find_merge(m.drop_last(), p)
    }
}

pub proof fn lemma_find_merge(m: Seq<(Pair, (u32, u32))>, p: Pair)
    ensures
        -1 <= find_merge(m, p) < m.len(),
        find_merge(m, p) >= 0 ==> m[find_merge(m, p)].0 == p,
        find_merge(m, p) < 0 ==> forall|j: int| 0 <= j < m.len() ==> m[j].0 != p,
    decreases m.len(),
{
    if m.len() > 0 && m.last().0 != p {
        lemma_find_merge(m.drop_last(), p);
        assert forall|j: int| 0 <= j < m.len() - 1 implies m[j] == m.drop_last()[j] by {}
    }
}

/// `m` with `p` mapped to `v`: in place when `p` is present, otherwise at the end.
pub open spec fn merge_insert(m: Seq<(Pair, (u32, u32))>, p: Pair, v: (u32, u32)) -> Seq<(Pair, (u32, u32))> {
    let j = find_merge(m, p);
    if j >= 0 {
        m.update(j, (p, v))
    } else {
        m.push((p, v))
    }
}

/// The merges of a model: each pair with its rank and the id of the token it forms,
/// in the order in which the pairs were first recorded.
pub struct MergeMap {
    pairs: Vec<Pair>,
    values: Vec<(u32, u32)>,
    index: HashMapWithView<u64, usize>,
}

impl View for MergeMap {
    type V = Seq<(Pair, (u32, u32))>;

    closed spec fn view(&self) -> Seq<(Pair, (u32, u32))> {
        Seq::new(self.pairs.len() as nat, |j: int| (self.pairs@[j], self.values@[j]))
    }
}

impl MergeMap {
    pub closed spec fn wf(&self) -> bool {
        &&& self.pairs.len() == self.values.len()
        &&& forall|j: int|
            0 <= j < self.pairs.len() ==> #[trigger] self.index@.contains_key(pair_key(self.pairs@[j]))
                && self.index@[pair_key(self.pairs@[j])] == j
        &&& forall|k: u64|
            #[trigger] self.index@.contains_key(k) ==> self.index@[k] < self.pairs.len()
                && pair_key(self.pairs@[self.index@[k] as int]) == k
    }

    /// No merges.
    pub fn new() -> (m: Self)
        ensures
            m.wf(),
            m@ == Seq::<(Pair, (u32, u32))>::empty(),
    {
        let m = MergeMap { pairs: Vec::new(), values: Vec::new(), index: HashMapWithView::new() };
        assert(m@ =~= Seq::<(Pair, (u32, u32))>::empty());
        m
    }

    /// The number of merged pairs.
    pub fn len(&self) -> (n: usize)
        requires
            self.wf(),
        ensures
            n == self@.len(),
    {
        self.pairs.len()
    }

    /// The rank and new token id of the pair `p`, if it was merged.
    pub fn get(&self, p: Pair) -> (r: Option<(u32, u32)>)
        requires
            self.wf(),
        ensures
            match r {
                Some(v) => find_merge(self@, p) >= 0 && v == self@[find_merge(self@, p)].1,
                None => find_merge(self@, p) < 0,
            },
    {
        proof {
            lemma_find_merge(self@, p);
        }
        match self.index.get(&key_of(p)) {
            Some(j) => {
                let j = *j;
                proof {
                    lemma_pair_key_injective(self.pairs@[j as int], p);
                    assert(self@[j as int].0 == p);
                    if find_merge(self@, p) != j {
                        let f = find_merge(self@, p);
                        assert(self.index@.contains_key(pair_key(self.pairs@[f])));
                    }
                }
                Some(self.values[j])
            },
            None => {
                proof {
                    if find_merge(self@, p) >= 0 {
                        let f = find_merge(self@, p);
                        assert(self.index@.contains_key(pair_key(self.pairs@[f])));
                    }
                }
                None
            },
        }
    }

    /// Whether the pair `p` was merged.
    pub fn contains(&self, p: Pair) -> (b: bool)
        requires
            self.wf(),
        ensures
            b == (find_merge(self@, p) >= 0),
    {
        self.get(p).is_some()
    }

    /// Maps `p` to `v`.
    pub fn insert(&mut self, p: Pair, v: (u32, u32))
        requires
            old(self).wf(),
        ensures
            final(self).wf(),
            final(self)@ == merge_insert(old(self)@, p, v),
    {
        let k = key_of(p);
        proof {
            lemma_find_merge(self@, p);
        }
        match self.index.get(&k) {
            Some(j) => {
                let j = *j;
                proof {
                    lemma_pair_key_injective(self.pairs@[j as int], p);
                    assert(self@[j as int].0 == p);
                    if find_merge(self@, p) != j {
                        let f = find_merge(self@, p);
                        assert(self.index@.contains_key(pair_key(self.pairs@[f])));
                    }
                }
                let ghost old_view = self@;
                self.values.set(j, v);
                assert(self@ =~= old_view.update(j as int, (p, v)));
            },
            None => {
                proof {
                    if find_merge(self@, p) >= 0 {
                        let f = find_merge(self@, p);
                        assert(self.index@.contains_key(pair_key(self.pairs@[f])));
                    }
                }
                let ghost old_view = self@;
                let j = self.pairs.len();
                self.pairs.push(p);
                self.values.push(v);
                self.index.insert(k, j);
                proof {
                    assert(self@ =~= old_view.push((p, v)));
                    assert forall|kk: u64| #[trigger] self.index@.contains_key(kk)
                        implies self.index@[kk] < self.pairs.len()
                            && pair_key(self.pairs@[self.index@[kk] as int]) == kk by {
                        if kk != k {
                            assert(old(self).index@.contains_key(kk));
                        }
                    }
                    assert forall|jj: int| 0 <= jj < self.pairs.len()
                        implies #[trigger] self.index@.contains_key(pair_key(self.pairs@[jj]))
                            && self.index@[pair_key(self.pairs@[jj])] == jj by {
                        if jj < j {
                            assert(old(self).index@.contains_key(pair_key(old(self).pairs@[jj])));
                            lemma_pair_key_injective(self.pairs@[jj], p);
                        }
                    }
                }
            },
        }
    }

    /// The merges, in order: each pair with its rank and new token id.
    pub fn entries(&self) -> (r: Vec<(Pair, (u32, u32))>)
        requires
            self.wf(),
        ensures
            r@ == self@,
    {
        let mut r: Vec<(Pair, (u32, u32))> = Vec::new();
        let n = self.pairs.len();
        let mut i: usize = 0;
        while i < n
            invariant
                self.wf(),
                n == self.pairs.len(),
                i <= n,
                r@ == self@.take(i as int),
            decreases n - i,
        {
            r.push((self.pairs[i], self.values[i]));
            assert(r@ =~= self@.take(i + 1));
            i = i + 1;
        }
        assert(self@.take(n as int) =~= self@);
        r
    }
}

/// A model as mathematical values.
pub ghost struct ModelView {
    pub vocab: Seq<Seq<char>>,
    pub merges: Seq<(Pair, (u32, u32))>,
    pub prefix: Option<Seq<char>>,
    pub suffix: Option<Seq<char>>,
}

/// A byte-pair-encoding model: the vocabulary (token strings by id, with lookup by
/// string), the merges, and the continuing-subword prefix and end-of-word suffix.
pub struct BPE {
    pub vocab: Vocab,
    pub merges: MergeMap,
    pub continuing_subword_prefix: Option<String>,
    pub end_of_word_suffix: Option<String>,
}

impl View for BPE {
    type V = ModelView;

    open spec fn view(&self) -> ModelView {
        ModelView {
            vocab: self.vocab@,
            merges: self.merges@,
            prefix: self.continuing_subword_prefix.deep_view(),
            suffix: self.end_of_word_suffix.deep_view(),
        }
    }
}

impl BPE {
    pub open spec fn wf(&self) -> bool {
        self.vocab.wf() && self.merges.wf()
    }

    /// An empty model.
    pub fn default() -> (m: Self)
        ensures
            m.wf(),
            m@.vocab == Seq::<Seq<char>>::empty(),
            m@.merges == Seq::<(Pair, (u32, u32))>::empty(),
            m@.prefix is None,
            m@.suffix is None,
    {
        BPE { vocab: Vocab::new(), merges: MergeMap::new(), continuing_subword_prefix: None, end_of_word_suffix: None }
    }

    /// The vocabulary: each token string with its id, by increasing id.
    pub fn get_vocab(&self) -> (r: Vec<(String, u32)>)
        requires
            self.wf(),
        ensures
            r@.len() == self@.vocab.len(),
            forall|i: int| 0 <= i < r@.len() ==> (#[trigger] r@[i]).0@ == self@.vocab[i] && r@[i].1 == i,
    {
        proof {
            self.vocab.lemma_wf();
        }
        let mut r: Vec<(String, u32)> = Vec::new();
        let n = self.vocab.len();
        let mut i: usize = 0;
        while i < n
            invariant
                self.wf(),
                n == self@.vocab.len(),
                n <= u32::MAX,
                i <= n,
                r@.len() == i,
                forall|k: int| 0 <= k < i ==> (#[trigger] r@[k]).0@ == self@.vocab[k] && r@[k].1 == k,
            decreases n - i,
        {
            let id = i as u32;
            r.push((self.vocab.token(id).clone(), id));
            i = i + 1;
        }
        r
    }

    /// The number of tokens in the vocabulary.
    pub fn get_vocab_size(&self) -> (n: usize)
        ensures
            n == self@.vocab.len(),
    {
        self.vocab.len()
    }
}

} // verus!
