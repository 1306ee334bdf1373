//! A vocabulary: token strings numbered densely from zero, with lookup by string.

use vstd::prelude::*;
use vstd::hash_map::StringHashMap;

verus! {

/// Index of the first occurrence of `s` in `v`, or -1 when `s` does not occur.
pub open spec fn find_token(v: Seq<Seq<char>>, s: Seq<char>) -> int
    decreases v.len(),
{
    if v.len() == 0 {
        -1
    } else if v[0] == s {
        0
    } else {
        let r = find_token(v.drop_first(), s);
        if r < 0 {
            -1
        } else {
            r + 1
        }
    }
}

/// The vocabulary after asking for the token `s`, and the id that `s` has there:
/// its present id when `s` is known, otherwise a fresh id at the end.
pub open spec fn add_token(v: Seq<Seq<char>>, s: Seq<char>) -> (Seq<Seq<char>>, int) {
    if v.contains(s) {
        (v, find_token(v, s))
    } else {
        (v.push(s), v.len() as int)
    }
}

pub proof fn lemma_find_token(v: Seq<Seq<char>>, s: Seq<char>)
    ensures
        (find_token(v, s) >= 0) == v.contains(s),
        find_token(v, s) >= -1,
        v.contains(s) ==> {
            &&& 0 <= find_token(v, s) < v.len()
            &&& v[find_token(v, s)] == s
            &&& forall|j: int| 0 <= j < find_token(v, s) ==> v[j] != s
        },
    decreases v.len(),
{
    if v.len() > 0 && v[0] != s {
        lemma_find_token(v.drop_first(), s);
        if v.contains(s) {
            let k = choose|k: int| 0 <= k < v.len() && v[k] == s;
            assert(v.drop_first()[k - 1] == s);
        }
        if v.drop_first().contains(s) {
            let k = choose|k: int| 0 <= k < v.len() - 1 && v.drop_first()[k] == s;
            assert(v[k + 1] == s);
        }
        assert forall|j: int| 0 <= j < find_token(v, s) implies v[j] != s by {
            if j > 0 {
                assert(v[j] == v.drop_first()[j - 1]);
            }
        }
    } else if v.len() > 0 {
        assert(v[0] == s);
    }
}

/// In a sequence without duplicates, the position of an element is where it is found.
pub proof fn lemma_find_token_unique(v: Seq<Seq<char>>, i: int)
    requires
        v.no_duplicates(),
        0 <= i < v.len(),
    ensures
        find_token(v, v[i]) == i,
{
    lemma_find_token(v, v[i]);
}

/// The ids of a vocabulary, by token string.
pub open spec fn token_ids(v: Seq<Seq<char>>) -> Map<Seq<char>, int> {
    Map::new(|s: Seq<char>| v.contains(s), |s: Seq<char>| find_token(v, s))
}

/// Token strings numbered `0..len()`, each distinct, with lookup by string.
pub struct Vocab {
    tokens: Vec<String>,
    ids: StringHashMap<u32>,
}

impl View for Vocab {
    type V = Seq<Seq<char>>;

    closed spec fn view(&self) -> Seq<Seq<char>> {
        self.tokens@.map_values(|t: String| t@)
    }
}

impl Vocab {
    /// The vocabulary is well formed: its strings are distinct, its ids fit in `u32`,
    /// and the lookup table maps each string to its position.
    pub closed spec fn wf(&self) -> bool {
        &&& self.tokens.len() <= u32::MAX
        &&& forall|i: int|
            0 <= i < self.tokens.len() ==> #[trigger] self.ids@.contains_key(self.tokens@[i]@)
                && self.ids@[self.tokens@[i]@] == i
        &&& forall|k: Seq<char>|
            #[trigger] self.ids@.contains_key(k) ==> self.ids@[k] < self.tokens.len()
                && self.tokens@[self.ids@[k] as int]@ == k
    }

    pub proof fn lemma_wf(&self)
        requires
            self.wf(),
        ensures
            self@.no_duplicates(),
            self@.len() <= u32::MAX,
            forall|s: Seq<char>| #[trigger] self@.contains(s) ==> 0 <= find_token(self@, s) < self@.len(),
    {
        assert forall|i: int, j: int| 0 <= i < self@.len() && 0 <= j < self@.len() && i != j
            implies self@[i] != self@[j] by {
            assert(self.ids@.contains_key(self.tokens@[i]@));
            assert(self.ids@.contains_key(self.tokens@[j]@));
        }
        assert forall|s: Seq<char>| #[trigger] self@.contains(s) implies 0 <= find_token(self@, s) < self@.len() by {
            lemma_find_token(self@, s);
        }
    }

    /// An empty vocabulary.
    pub fn new() -> (v: Self)
        ensures
            v.wf(),
            v@ == Seq::<Seq<char>>::empty(),
    {
        let v = Vocab { tokens: Vec::new(), ids: StringHashMap::new() };
        assert(v@ =~= Seq::<Seq<char>>::empty());
        v
    }

    /// The number of tokens.
    pub fn len(&self) -> (n: usize)
        ensures
            n == self@.len(),
    {
        self.tokens.len()
    }

    /// The string of the token with id `id`.
    pub fn token(&self, id: u32) -> (t: &String)
        requires
            id < self@.len(),
        ensures
            t@ == self@[id as int],
    {
        &self.tokens[id as usize]
    }

    /// The id of the token `s`, if it is in the vocabulary.
    pub fn get(&self, s: &str) -> (r: Option<u32>)
        requires
            self.wf(),
        ensures
            match r {
                Some(id) => self@.contains(s@) && id == find_token(self@, s@),
                None => !self@.contains(s@),
            },
    {
        proof {
            self.lemma_wf();
            lemma_find_token(self@, s@);
        }
        match self.ids.get(s) {
            Some(id) => {
                proof {
                    assert(self@[*id as int] == s@);
                    lemma_find_token_unique(self@, *id as int);
                }
                Some(*id)
            },
            None => {
                proof {
                    if self@.contains(s@) {
                        let k = choose|k: int| 0 <= k < self@.len() && self@[k] == s@;
                        assert(self.ids@.contains_key(self.tokens@[k]@));
                    }
                }
                None
            },
        }
    }

    /// Whether `s` is a token of the vocabulary.
    pub fn contains(&self, s: &str) -> (b: bool)
        requires
            self.wf(),
        ensures
            b == self@.contains(s@),
    {
        self.get(s).is_some()
    }

    /// Adds `s` at the end unless it is already a token; returns its id.
    pub fn add(&mut self, s: String) -> (id: u32)
        requires
            old(self).wf(),
            old(self)@.len() < u32::MAX,
        ensures
            final(self).wf(),
            (final(self)@, id as int) == add_token(old(self)@, s@),
    {
        match self.get(s.as_str()) {
            Some(id) => id,
            None => {
                let id = self.tokens.len() as u32;
                let ghost old_tokens = self.tokens@;
                self.ids.insert(s.clone(), id);
                self.tokens.push(s);
                proof {
                    assert(self@ =~= old(self)@.push(s@));
                    assert forall|k: Seq<char>| #[trigger] self.ids@.contains_key(k)
                        implies self.ids@[k] < self.tokens.len() && self.tokens@[self.ids@[k] as int]@ == k by {
                        if k != s@ {
                            assert(old(self).ids@.contains_key(k));
                        }
                    }
                    assert forall|i: int| 0 <= i < self.tokens.len()
                        implies #[trigger] self.ids@.contains_key(self.tokens@[i]@)
                            && self.ids@[self.tokens@[i]@] == i by {
                        if i < old_tokens.len() {
                            assert(self.tokens@[i] == old_tokens[i]);
                            assert(old(self)@[i] == self.tokens@[i]@);
                            assert(old(self)@.contains(self.tokens@[i]@));
                        }
                    }
                }
                id
            },
        }
    }
}

} // verus!
