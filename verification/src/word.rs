//! A word under training: a sequence of symbols that pair merges rewrite.

use vstd::prelude::*;

verus! {

/// One symbol of a word: a token id and the number of characters it spans.
#[derive(Clone, Copy, Debug)]
pub struct Symbol {
    pub c: u32,
    pub len: usize,
}

/// A word as the sequence of its symbols.
#[derive(Debug)]
pub struct Word {
    pub symbols: Vec<Symbol>,
}

impl View for Word {
    type V = Seq<Symbol>;

    open spec fn view(&self) -> Seq<Symbol> {
        self.symbols@
    }
}

/// The token ids of a sequence of symbols.
pub open spec fn ids_of(s: Seq<Symbol>) -> Seq<u32> {
    s.map_values(|x: Symbol| x.c)
}

/// The number of characters that a sequence of symbols spans.
pub open spec fn total_len(s: Seq<Symbol>) -> nat
    decreases s.len(),
{
    if s.len() == 0 {
        0
    } else {
        s[0].len as nat + total_len(s.drop_first())
    }
}

pub proof fn lemma_total_len_append(a: Seq<Symbol>, b: Seq<Symbol>)
    ensures
        total_len(a + b) == total_len(a) + total_len(b),
    decreases a.len(),
{
    if a.len() == 0 {
        assert(a + b =~= b);
    } else {
        assert((a + b).drop_first() =~= a.drop_first() + b);
        lemma_total_len_append(a.drop_first(), b);
    }
}

pub proof fn lemma_total_len_single(x: Symbol)
    ensures
        total_len(seq![x]) == x.len,
{
    assert(seq![x].drop_first() =~= Seq::<Symbol>::empty());
    assert(total_len(Seq::<Symbol>::empty()) == 0);
}

pub proof fn lemma_total_len_skip(s: Seq<Symbol>, i: int)
    requires
        0 <= i < s.len(),
    ensures
        total_len(s.skip(i)) == s[i].len + total_len(s.skip(i + 1)),
{
    assert(s.skip(i).drop_first() =~= s.skip(i + 1));
}

/// The last symbol of `s`, if any.
pub open spec fn last_symbol(s: Seq<Symbol>) -> Option<Symbol> {
    if s.len() == 0 {
        None
    } else {
        Some(s.last())
    }
}

/// The pair-count changes on the left of a new symbol `new` that replaced the pair
/// `(c1, _)`: the pair with the previous symbol goes, and the pair with the new symbol
/// comes if the two together stay shorter than `max_length`.
pub open spec fn left_changes(prev: Option<Symbol>, c1: u32, new: Symbol, max_length: usize) -> Seq<((u32, u32), i32)> {
    match prev {
        Some(p) => seq![((p.c, c1), -1i32)] + if p.len + new.len < max_length {
            seq![((p.c, new.c), 1i32)]
        } else {
            Seq::empty()
        },
        None => Seq::empty(),
    }
}

/// The pair-count changes on the right of a new symbol `new` that replaced the pair
/// `(_, c2)`, when `next` follows it.
pub open spec fn right_changes(c2: u32, new: Symbol, next: Option<Symbol>, max_length: usize) -> Seq<((u32, u32), i32)> {
    match next {
        Some(n) => seq![((c2, n.c), -1i32)] + if n.len + new.len < max_length {
            seq![((new.c, n.c), 1i32)]
        } else {
            Seq::empty()
        },
        None => Seq::empty(),
    }
}

/// Merging the pair `(c1, c2)` into `replacement` in `s`, scanning left to right and
/// replacing each occurrence that does not overlap an earlier replacement; `prev` is
/// the symbol before `s`, if any. Gives the new symbols and the pair-count changes,
/// in the order in which the scan meets them.
pub open spec fn merge_symbols(
    prev: Option<Symbol>,
    s: Seq<Symbol>,
    c1: u32,
    c2: u32,
    replacement: u32,
    max_length: usize,
) -> (Seq<Symbol>, Seq<((u32, u32), i32)>)
    decreases s.len(),
{
    if s.len() == 0 {
        (Seq::empty(), Seq::empty())
    } else if s.len() >= 2 && s[0].c == c1 && s[1].c == c2 {
        let new = Symbol { c: replacement, len: (s[0].len + s[1].len) as usize };
        let rest = s.skip(2);
        let next = if rest.len() > 0 { Some(rest[0]) } else { None };
        let r = merge_symbols(Some(new), rest, c1, c2, replacement, max_length);
        (
            seq![new] + r.0,
            left_changes(prev, c1, new, max_length) + right_changes(c2, new, next, max_length) + r.1,
        )
    } else {
        let r = merge_symbols(Some(s[0]), s.drop_first(), c1, c2, replacement, max_length);
        (seq![s[0]] + r.0, r.1)
    }
}

/// Merging keeps the number of characters that the word spans, never makes it longer,
/// and reports changes only where it replaced a pair.
pub proof fn lemma_merge_symbols_shape(
    prev: Option<Symbol>,
    s: Seq<Symbol>,
    c1: u32,
    c2: u32,
    replacement: u32,
    max_length: usize,
)
    requires
        total_len(s) <= usize::MAX,
    ensures
        total_len(merge_symbols(prev, s, c1, c2, replacement, max_length).0) == total_len(s),
        merge_symbols(prev, s, c1, c2, replacement, max_length).0.len() <= s.len(),
        merge_symbols(prev, s, c1, c2, replacement, max_length).0.len() == s.len()
            ==> merge_symbols(prev, s, c1, c2, replacement, max_length).0 == s
            && merge_symbols(prev, s, c1, c2, replacement, max_length).1.len() == 0,
    decreases s.len(),
{
    let r = merge_symbols(prev, s, c1, c2, replacement, max_length);
    if s.len() == 0 {
    } else if s.len() >= 2 && s[0].c == c1 && s[1].c == c2 {
        let new = Symbol { c: replacement, len: (s[0].len + s[1].len) as usize };
        lemma_total_len_skip(s, 0);
        lemma_total_len_skip(s, 1);
        assert(s.skip(0) =~= s);
        assert(s.skip(1) =~= s.drop_first());
        lemma_merge_symbols_shape(Some(new), s.skip(2), c1, c2, replacement, max_length);
        let rr = merge_symbols(Some(new), s.skip(2), c1, c2, replacement, max_length);
        lemma_total_len_append(seq![new], rr.0);
        assert((seq![new] + rr.0).drop_first() =~= rr.0);
    } else {
        lemma_merge_symbols_shape(Some(s[0]), s.drop_first(), c1, c2, replacement, max_length);
        let rr = merge_symbols(Some(s[0]), s.drop_first(), c1, c2, replacement, max_length);
        lemma_total_len_append(seq![s[0]], rr.0);
        assert((seq![s[0]] + rr.0).drop_first() =~= rr.0);
        if r.0.len() == s.len() {
            assert(r.0 =~= s);
        }
    }
}

impl Word {
    /// An empty word.
    pub fn new() -> (w: Self)
        ensures
            w@ == Seq::<Symbol>::empty(),
    {
        Word { symbols: Vec::new() }
    }

    /// Appends the symbol `c` spanning `byte_len` characters.
    pub fn add(&mut self, c: u32, byte_len: usize)
        ensures
            final(self)@ == old(self)@.push(Symbol { c, len: byte_len }),
    {
        self.symbols.push(Symbol { c, len: byte_len });
    }

    /// Merges every non-overlapping occurrence of the pair `(c1, c2)`, left to right,
    /// into the symbol `replacement`, and returns the resulting changes of pair counts.
    pub fn merge(&mut self, c1: u32, c2: u32, replacement: u32, max_length: usize) -> (changes: Vec<((u32, u32), i32)>)
        requires
            total_len(old(self)@) <= usize::MAX,
        ensures
            (final(self)@, changes@) == merge_symbols(None, old(self)@, c1, c2, replacement, max_length),
    {
        let ghost s = self.symbols@;
        let n = self.symbols.len();
        let mut out: Vec<Symbol> = Vec::new();
        let mut changes: Vec<((u32, u32), i32)> = Vec::new();
        let mut i: usize = 0;
        assert(s.skip(0) =~= s);
        while i < n
            invariant
                s == self.symbols@,
                n == s.len(),
                i <= n,
                total_len(s) <= usize::MAX,
                total_len(out@) + total_len(s.skip(i as int)) == total_len(s),
                merge_symbols(None, s, c1, c2, replacement, max_length)
                    == ({
                    let r = merge_symbols(last_symbol(out@), s.skip(i as int), c1, c2, replacement, max_length);
                    (out@ + r.0, changes@ + r.1)
                }),
            decreases n - i,
        {
            let ghost rest = s.skip(i as int);
            proof {
                lemma_total_len_skip(s, i as int);
            }
            if i + 1 < n && self.symbols[i].c == c1 && self.symbols[i + 1].c == c2 {
                proof {
                    lemma_total_len_skip(s, i + 1);
                }
                let first = self.symbols[i];
                let second = self.symbols[i + 1];
                let new_s = Symbol { c: replacement, len: first.len + second.len };
                assert(total_len(s.skip(i as int)) == first.len + second.len + total_len(s.skip(i + 2)));
                assert(total_len(out@) + first.len + second.len <= usize::MAX);
                let ghost before = changes@;
                if out.len() > 0 {
                    let p = out[out.len() - 1];
                    proof {
                        assert(out@ =~= out@.drop_last() + seq![p]);
                        lemma_total_len_append(out@.drop_last(), seq![p]);
                        lemma_total_len_single(p);
                        assert(p.len <= total_len(out@));
                    }
                    changes.push(((p.c, c1), -1));
                    if p.len + new_s.len < max_length {
                        changes.push(((p.c, replacement), 1));
                    }
                }
                assert(changes@ =~= before + left_changes(last_symbol(out@), c1, new_s, max_length));
                let ghost mid = changes@;
                if i + 2 < n {
                    let nx = self.symbols[i + 2];
                    proof {
                        lemma_total_len_skip(s, i + 2);
                    }
                    changes.push(((c2, nx.c), -1));
                    if nx.len + new_s.len < max_length {
                        changes.push(((replacement, nx.c), 1));
                    }
                }
                proof {
                    assert(rest.skip(2) =~= s.skip(i + 2));
                    assert(rest[0] == s[i as int] && rest[1] == s[i + 1]);
                    let next = if s.skip(i + 2).len() > 0 { Some(s.skip(i + 2)[0]) } else { None };
                    assert(changes@ =~= mid + right_changes(c2, new_s, next, max_length));
                    let r = merge_symbols(Some(new_s), s.skip(i + 2), c1, c2, replacement, max_length);
                    assert(out@.push(new_s) + r.0 =~= out@ + (seq![new_s] + r.0));
                    assert(changes@ + r.1 =~= before + (left_changes(last_symbol(out@), c1, new_s, max_length)
                        + right_changes(c2, new_s, next, max_length) + r.1));
                    lemma_total_len_append(out@, seq![new_s]);
                    lemma_total_len_single(new_s);
                }
                let ghost old_out = out@;
                out.push(new_s);
                assert(out@ =~= old_out + seq![new_s]);
                i = i + 2;
            } else {
                let x = self.symbols[i];
                proof {
                    assert(rest.drop_first() =~= s.skip(i + 1));
                    assert(rest[0] == s[i as int]);
                    let r = merge_symbols(Some(x), s.skip(i + 1), c1, c2, replacement, max_length);
                    assert(out@.push(x) + r.0 =~= out@ + (seq![x] + r.0));
                    lemma_total_len_append(out@, seq![x]);
                    lemma_total_len_single(x);
                }
                let ghost old_out = out@;
                out.push(x);
                assert(out@ =~= old_out + seq![x]);
                i = i + 1;
            }
        }
        proof {
            assert(s.skip(n as int) =~= Seq::<Symbol>::empty());
            assert(out@ + Seq::<Symbol>::empty() =~= out@);
            assert(changes@ + Seq::<((u32, u32), i32)>::empty() =~= changes@);
        }
        self.symbols = out;
        changes
    }
}

} // verus!
