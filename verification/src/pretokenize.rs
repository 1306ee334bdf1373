//! Splitting text on whitespace for the first training stage: each run of word
//! characters goes with the run of other characters before it.

use vstd::prelude::*;
use vstd::string::StringExecFns;
use crate::text::{chars_of, string_of_char};

verus! {

/// What `regex_syntax::parse` makes of `pattern` as a class of characters: its ranges
/// of characters, as the parsed class lists them.
pub uninterp spec fn class_ranges_of(pattern: Seq<char>) -> Seq<(char, char)>;

/// `regex_syntax::parse`, read as a character class: the ranges of characters (first
/// and last, inclusive) of the class that `pattern` denotes, as the parsed class lists
/// them, and no ranges when `pattern` does not parse to a class of characters. The
/// contract names the result; the Unicode tables behind it are not restated here.
#[verifier::external_body]
fn class_ranges(pattern: &str) -> (r: Vec<(char, char)>)
    ensures
        r@ == class_ranges_of(pattern@),
{
    match regex_syntax::parse(pattern) {
        Ok(hir) => match hir.into_kind() {
            regex_syntax::hir::HirKind::Class(regex_syntax::hir::Class::Unicode(c)) => {
                c.ranges().iter().map(|x| (x.start(), x.end())).collect()
            },
            _ => Vec::new(),
        },
        Err(_) => Vec::new(),
    }
}

/// The class of word characters, written as one pattern: letters, marks, numbers and
/// connector punctuation. The library parses each of the four parts on its own (see
/// `is_word_character`).
pub open spec fn word_class_pattern() -> Seq<char> {
    "[\\p{L}\\p{M}\\p{N}\\p{Pc}]"@
}

/// The Unicode letters (general category L), as `regex_syntax` parses the class.
pub open spec fn letters() -> Seq<(char, char)> {
    class_ranges_of("\\p{L}"@)
}

/// The Unicode marks (general category M).
pub open spec fn marks() -> Seq<(char, char)> {
    class_ranges_of("\\p{M}"@)
}

/// The Unicode numbers (general category N).
pub open spec fn numbers() -> Seq<(char, char)> {
    class_ranges_of("\\p{N}"@)
}

/// The Unicode connector punctuation (general category Pc).
pub open spec fn connectors() -> Seq<(char, char)> {
    class_ranges_of("\\p{Pc}"@)
}

/// Whether some range of `r` holds `c`.
pub open spec fn in_ranges(r: Seq<(char, char)>, c: char) -> bool {
    exists|i: int| #![trigger r[i]] 0 <= i < r.len() && (r[i].0 as u32) <= (c as u32) && (c as u32) <= (r[i].1 as u32)
}

/// Whether `c` is a word character: a letter, a mark, a number or connector punctuation
/// (the Unicode meaning of `\w` in the regular expressions of the pre-tokenizer).
pub open spec fn is_word_character(c: char) -> bool {
    in_ranges(letters(), c) || in_ranges(marks(), c) || in_ranges(numbers(), c) || in_ranges(connectors(), c)
}

/// The ranges are each well formed and in strictly increasing order, apart from each
/// other.
pub open spec fn ranges_sorted(r: Seq<(char, char)>) -> bool {
    &&& forall|i: int| 0 <= i < r.len() ==> (r[i].0 as u32) <= (#[trigger] r[i].1 as u32)
    &&& forall|a: int, b: int| 0 <= a < b < r.len() ==> (#[trigger] r[a].1 as u32) < (#[trigger] r[b].0 as u32)
}

/// One class of characters, as ranges, with whether they are sorted (then lookups search
/// by halves).
pub struct CharClass {
    ranges: Vec<(char, char)>,
    sorted: bool,
}

impl CharClass {
    /// The ranges of the class.
    pub closed spec fn ranges(&self) -> Seq<(char, char)> {
        self.ranges@
    }

    pub closed spec fn wf(&self) -> bool {
        self.sorted ==> ranges_sorted(self.ranges@)
    }

    /// The class that `pattern` denotes.
    pub fn parse(pattern: &str) -> (k: Self)
        ensures
            k.wf(),
            k.ranges() == class_ranges_of(pattern@),
    {
        let ranges = class_ranges(pattern);
        let n = ranges.len();
        let mut ok = true;
        let mut i: usize = 0;
        while i < n
            invariant
                n == ranges.len(),
                i <= n,
                ok ==> forall|k: int| 0 <= k < i ==> (ranges@[k].0 as u32) <= (#[trigger] ranges@[k].1 as u32),
                ok ==> forall|a: int, b: int| 0 <= a < b < i ==> (#[trigger] ranges@[a].1 as u32) < (#[trigger] ranges@[b].0 as u32),
            decreases n - i,
        {
            let (lo, hi) = ranges[i];
            if (lo as u32) > (hi as u32) {
                ok = false;
            }
            if i > 0 && (ranges[i - 1].1 as u32) >= (lo as u32) {
                ok = false;
            }
            proof {
                if ok {
                    assert forall|a: int, b: int| 0 <= a < b < i + 1 implies (#[trigger] ranges@[a].1 as u32) < (#[trigger] ranges@[b].0 as u32) by {
                        if b == i && a < i - 1 {
                            assert((ranges@[a].1 as u32) < (ranges@[i - 1].0 as u32));
                            assert((ranges@[i - 1].0 as u32) <= (ranges@[i - 1].1 as u32));
                        }
                    }
                }
            }
            i = i + 1;
        }
        CharClass { ranges, sorted: ok }
    }

    /// Whether `c` is in the class.
    pub fn contains(&self, c: char) -> (b: bool)
        requires
            self.wf(),
        ensures
            b == in_ranges(self.ranges(), c),
    {
        let r = &self.ranges;
        let x = c as u32;
        if self.sorted {
            let mut lo: usize = 0;
            let mut hi: usize = r.len();
            while lo < hi
                invariant
                    r@ == self.ranges(),
                    ranges_sorted(r@),
                    x == c as u32,
                    lo <= hi <= r.len(),
                    forall|k: int| 0 <= k < lo ==> (#[trigger] r@[k].1 as u32) < x,
                    forall|k: int| hi <= k < r.len() ==> x < (#[trigger] r@[k].0 as u32),
                decreases hi - lo,
            {
                let mid = lo + (hi - lo) / 2;
                let (a, z) = r[mid];
                if x < (a as u32) {
                    proof {
                        assert forall|k: int| mid <= k < r.len() implies x < (#[trigger] r@[k].0 as u32) by {
                            if k > mid {
                                assert((r@[mid as int].1 as u32) < (r@[k].0 as u32));
                                assert((r@[mid as int].0 as u32) <= (r@[mid as int].1 as u32));
                            }
                        }
                    }
                    hi = mid;
                } else if x > (z as u32) {
                    proof {
                        assert forall|k: int| 0 <= k < mid + 1 implies (#[trigger] r@[k].1 as u32) < x by {
                            if k < mid {
                                assert((r@[k].1 as u32) < (r@[mid as int].0 as u32));
                                assert((r@[mid as int].0 as u32) <= (r@[mid as int].1 as u32));
                            }
                        }
                    }
                    lo = mid + 1;
                } else {
                    proof {
                        assert(r@[mid as int] == (a, z));
                        assert(in_ranges(self.ranges(), c));
                    }
                    return true;
                }
            }
            proof {
                if in_ranges(r@, c) {
                    let i = choose|i: int| 0 <= i < r@.len() && (r@[i].0 as u32) <= (c as u32) && (c as u32) <= (r@[i].1 as u32);
                    if i < lo {
                        assert((r@[i].1 as u32) < x);
                    } else {
                        assert(x < (r@[i].0 as u32));
                    }
                }
            }
            false
        } else {
            let mut i: usize = 0;
            while i < r.len()
                invariant
                    r@ == self.ranges(),
                    x == c as u32,
                    i <= r.len(),
                    forall|k: int| 0 <= k < i ==> !((#[trigger] r@[k].0 as u32) <= x && x <= (r@[k].1 as u32)),
                decreases r.len() - i,
            {
                let (a, z) = r[i];
                if (a as u32) <= x && x <= (z as u32) {
                    proof {
                        assert(r@[i as int] == (a, z));
                        assert(in_ranges(self.ranges(), c));
                    }
                    return true;
                }
                i = i + 1;
            }
            false
        }
    }
}

/// The word characters: letters, marks, numbers and connector punctuation, each class
/// parsed once.
pub struct WordClass {
    letters: CharClass,
    marks: CharClass,
    numbers: CharClass,
    connectors: CharClass,
}

impl WordClass {
    pub closed spec fn wf(&self) -> bool {
        &&& self.letters.wf() && self.letters.ranges() == letters()
        &&& self.marks.wf() && self.marks.ranges() == marks()
        &&& self.numbers.wf() && self.numbers.ranges() == numbers()
        &&& self.connectors.wf() && self.connectors.ranges() == connectors()
    }

    /// The class of word characters.
    pub fn new() -> (w: Self)
        ensures
            w.wf(),
    {
        WordClass {
            letters: CharClass::parse("\\p{L}"),
            marks: CharClass::parse("\\p{M}"),
            numbers: CharClass::parse("\\p{N}"),
            connectors: CharClass::parse("\\p{Pc}"),
        }
    }

    /// Whether `c` is a word character.
    pub fn contains(&self, c: char) -> (b: bool)
        requires
            self.wf(),
        ensures
            b == is_word_character(c),
    {
        self.letters.contains(c) || self.marks.contains(c) || self.numbers.contains(c) || self.connectors.contains(c)
    }
}

/// The pieces of the first `n` characters of `w`: a new piece starts at each
/// character that is not a word character and follows a word character; every other
/// character extends the current piece.
pub open spec fn split_words(w: Seq<char>, n: nat) -> Seq<Seq<char>>
    decreases n,
{
    if n == 0 {
        Seq::empty()
    } else {
        let p = split_words(w, (n - 1) as nat);
        let c = w[n - 1];
        if n >= 2 && is_word_character(w[n - 2]) && !is_word_character(c) {
            p.push(seq![c])
        } else if p.len() == 0 {
            seq![seq![c]]
        } else {
            p.update(p.len() - 1, p.last().push(c))
        }
    }
}

/// The pieces of `w`.
pub open spec fn word_pieces(w: Seq<char>) -> Seq<Seq<char>> {
    split_words(w, w.len())
}

/// The views of a list of strings.
pub open spec fn strings_view(v: Seq<String>) -> Seq<Seq<char>> {
    v.map_values(|s: String| s@)
}

/// Splits `s` into pieces, each a run of word characters together with the run of
/// other characters before it; other characters at the end form a piece of their own.
pub fn split_on_words(s: &str) -> (pieces: Vec<String>)
    ensures
        strings_view(pieces@) == word_pieces(s@),
{
    let class = WordClass::new();
    split_with(&class, s)
}

/// `split_on_words`, with the class of word characters already built.
pub fn split_with(class: &WordClass, s: &str) -> (pieces: Vec<String>)
    requires
        class.wf(),
    ensures
        strings_view(pieces@) == word_pieces(s@),
{
    let cs = chars_of(s);
    let n = cs.len();
    let mut pieces: Vec<String> = Vec::new();
    let mut prev_word = false;
    let mut i: usize = 0;
    while i < n
        invariant
            class.wf(),
            cs@ == s@,
            n == cs.len(),
            i <= n,
            strings_view(pieces@) == split_words(s@, i as nat),
            i > 0 ==> prev_word == is_word_character(s@[i - 1]),
        decreases n - i,
    {
        let c = cs[i];
        let w = class.contains(c);
        let ghost before = pieces@;
        if i >= 1 && prev_word && !w {
            pieces.push(string_of_char(c));
            assert(strings_view(pieces@) =~= strings_view(before).push(seq![c]));
        } else if pieces.len() == 0 {
            pieces.push(string_of_char(c));
            assert(strings_view(pieces@) =~= seq![seq![c]]);
        } else {
            let last = pieces.len() - 1;
            let mut piece = String::new();
            std::mem::swap(&mut piece, &mut pieces[last]);
            let ghost old_piece = piece@;
            piece.append(string_of_char(c).as_str());
            let ghost appended = piece;
            std::mem::swap(&mut piece, &mut pieces[last]);
            assert(old_piece == before[last as int]@);
            assert(appended@ =~= old_piece.push(c));
            assert(pieces@ =~= before.update(last as int, appended));
            assert(strings_view(pieces@) =~= strings_view(before).update(last as int, strings_view(before).last().push(c)));
        }
        prev_word = w;
        i = i + 1;
    }
    pieces
}

} // verus!
