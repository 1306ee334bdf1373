use super_bpe::engine::count_pairs;
use super_bpe::pretokenize::split_on_words;
use super_bpe::queue::{Merge, MergeQueue};
use super_bpe::word::{Symbol, Word};
use super_bpe::word_counts::WordCounts;

#[test]
fn pieces_keep_words_with_leading_space() {
    assert_eq!(split_on_words("roses are red"), vec!["roses", " are", " red"]);
    assert_eq!(split_on_words("and GPT-2 is too"), vec!["and", " GPT", "-2", " is", " too"]);
    assert_eq!(split_on_words(" ~~ "), vec![" ~~ "]);
    assert_eq!(split_on_words("abc  "), vec!["abc", "  "]);
    assert_eq!(split_on_words("here\t\tare some"), vec!["here", "\t\tare", " some"]);
    assert!(split_on_words("").is_empty());
}

#[test]
fn pieces_use_unicode_word_characters() {
    assert_eq!(split_on_words("héllo wörld"), vec!["héllo", " wörld"]);
    // a combining mark is a word character
    assert_eq!(split_on_words("e\u{301}! x"), vec!["e\u{301}", "! x"]);
    assert_eq!(split_on_words("snake_case x"), vec!["snake_case", " x"]);
    // every number is a word character, superscripts too
    assert_eq!(split_on_words("x\u{b2} y"), vec!["x\u{b2}", " y"]);
    assert_eq!(split_on_words("\u{2167}!"), vec!["\u{2167}", "!"]);
    // a joiner is not a word character
    assert_eq!(split_on_words("a\u{200d}b c"), vec!["a", "\u{200d}b", " c"]);
    // nor is a circled letter (a symbol)
    assert_eq!(split_on_words("a\u{24b6}"), vec!["a", "\u{24b6}"]);
}

#[test]
fn pieces_join_back_to_text() {
    for text in ["roses are red", "  a  b  ", "x", "--", "a\nb\n\nc", "\u{4e2d}\u{6587} text"] {
        let pieces = split_on_words(text);
        assert_eq!(pieces.concat(), text);
        assert!(pieces.iter().all(|p| !p.is_empty()));
    }
}

#[test]
fn counts_are_occurrences() {
    let mut t = WordCounts::new();
    for w in ["a", "b", "a", "c", "a", "b"] {
        t.count(w.to_string());
    }
    assert_eq!(t.len(), 3);
    let entries: Vec<(String, u64)> = (0..t.len()).map(|j| {
        let (w, c) = t.get(j);
        (w.clone(), c)
    }).collect();
    assert_eq!(entries, vec![("a".to_string(), 3), ("b".to_string(), 2), ("c".to_string(), 1)]);
    let copy = t.copied();
    assert_eq!(copy.len(), 3);
    assert_eq!(copy.get(1).1, 2);
}

#[test]
fn count_wraps_at_u64_max() {
    let mut t = WordCounts::new();
    t.set("w".to_string(), u64::MAX);
    t.count("w".to_string());
    assert_eq!(t.get(0).1, 0);
}

fn word(ids: &[u32]) -> Word {
    let mut w = Word::new();
    for &c in ids {
        w.add(c, 1);
    }
    w
}

fn ids(w: &Word) -> Vec<u32> {
    w.symbols.iter().map(|s| s.c).collect()
}

#[test]
fn word_merge_left_to_right() {
    let mut w = word(&[1, 2, 1, 2]);
    let changes = w.merge(1, 2, 9, usize::MAX);
    assert_eq!(ids(&w), vec![9, 9]);
    assert_eq!(w.symbols.iter().map(|s| s.len).collect::<Vec<_>>(), vec![2, 2]);
    assert_eq!(changes, vec![((2, 1), -1), ((9, 1), 1), ((9, 1), -1), ((9, 9), 1)]);

    // overlapping occurrences: the first one wins
    let mut w = word(&[1, 1, 1]);
    let changes = w.merge(1, 1, 5, usize::MAX);
    assert_eq!(ids(&w), vec![5, 1]);
    assert_eq!(changes, vec![((1, 1), -1), ((5, 1), 1)]);

    // a new pair reaching the length limit is not counted
    let mut w = word(&[3, 1, 2]);
    let changes = w.merge(1, 2, 7, 3);
    assert_eq!(ids(&w), vec![3, 7]);
    assert_eq!(changes, vec![((3, 1), -1)]);

    // nothing to merge
    let mut w = word(&[4]);
    assert!(w.merge(1, 2, 7, 3).is_empty());
    assert_eq!(w.symbols.len(), 1);
    assert_eq!(w.symbols[0].c, 4);
    let s = Symbol { c: 4, len: 1 };
    assert_eq!(s.c, w.symbols[0].c);
}

#[test]
fn pair_counts_are_weighted_occurrences() {
    let words = vec![word(&[0, 1, 0, 1]), word(&[1, 0])];
    let counts = vec![3u64, 5u64];
    let (pc, table) = count_pairs(&words, &counts);
    assert_eq!(pc.get((0, 1)), Some(6));
    assert_eq!(pc.get((1, 0)), Some(3 + 5));
    assert_eq!(pc.get((1, 1)), None);
    let (pairs, positions) = table.into_parts();
    assert_eq!(pairs, vec![(0, 1), (1, 0)]);
    assert_eq!(positions, vec![vec![0], vec![0, 1]]);
}

#[test]
fn queue_takes_highest_count_then_smallest_pair() {
    let mut q = MergeQueue::new();
    q.push(Merge { pair: (2, 3), count: 5, pos: vec![0] });
    q.push(Merge { pair: (1, 9), count: 5, pos: vec![1] });
    q.push(Merge { pair: (0, 0), count: 2, pos: vec![2] });
    q.push(Merge { pair: (1, 4), count: 5, pos: vec![3] });
    let order: Vec<(u32, u32)> = (0..4).map(|_| {
        let k = q.best_index();
        q.take(k).pair
    }).collect();
    assert_eq!(order, vec![(1, 4), (1, 9), (2, 3), (0, 0)]);
    assert!(q.is_empty());
}
