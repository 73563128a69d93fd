use tarkov_lookup::ngram::{evaluate, split_word, NgramSet};

#[test]
fn windows_longer_than_text_give_nothing() {
    assert_eq!(split_word("abc", &vec![4, 5]).len(), 0);
    assert_eq!(split_word("", &vec![1]).len(), 0);
    assert_eq!(split_word("abc", &vec![4, 5]), NgramSet::new());
}

#[test]
fn unigrams_count_distinct_characters() {
    assert_eq!(split_word("Hello", &vec![1]).len(), 4);
    assert_eq!(split_word("aAaA", &vec![1]).len(), 1);
    assert_eq!(split_word("abc", &vec![1]).len(), 3);
}

#[test]
fn extraction_ignores_case() {
    let w = vec![1, 2, 3];
    let a = split_word("Water", &w);
    let b = split_word("WATER", &w);
    let c = split_word("water", &w);
    assert_eq!(a, b);
    assert_eq!(b, c);
    assert_eq!(a.len(), 12);
    assert!(a.contains(&vec!['w', 'a']));
    assert!(!a.contains(&vec!['W', 'a']));
}

#[test]
fn ngrams_count_characters_not_bytes() {
    let s = split_word("äöü", &vec![2]);
    assert_eq!(s.len(), 2);
    assert!(s.contains(&vec!['ä', 'ö']));
    assert!(s.contains(&vec!['ö', 'ü']));
}

#[test]
fn several_sizes_collect_every_window() {
    let s = split_word("abab", &vec![2, 3]);
    // ab, ba; aba, bab
    assert_eq!(s.len(), 4);
    assert!(s.contains(&vec!['b', 'a', 'b']));
}

#[test]
fn insert_keeps_items_unique() {
    let mut s = NgramSet::new();
    s.insert(vec!['a']);
    s.insert(vec!['a']);
    s.insert(vec!['b']);
    assert_eq!(s.len(), 2);
}

#[test]
fn score_is_symmetric() {
    let w = vec![1, 2];
    let a = split_word("hello", &w);
    let b = split_word("yellow", &w);
    assert_eq!(evaluate(&a, &b), evaluate(&b, &a));
}

#[test]
fn score_values() {
    let w = vec![1, 2];
    let a = split_word("hello", &w);
    let b = split_word("yellow", &w);
    // hello: h e l o he el ll lo (8); yellow: y e l o w ye el ll lo ow (10)
    let s = evaluate(&a, &b);
    assert_eq!(s.shared, 6);
    assert_eq!(s.total, 18);
}

#[test]
fn score_of_identical_sets_is_one() {
    let a = split_word("water", &vec![2]);
    let s = evaluate(&a, &a);
    assert_eq!(2 * s.shared as u128, s.total);
}

#[test]
fn score_of_empty_sets_is_zero() {
    let e = NgramSet::new();
    let s = evaluate(&e, &e);
    assert_eq!(s.shared, 0);
    assert_eq!(s.total, 0);
    let a = split_word("ab", &vec![1]);
    let s = evaluate(&a, &e);
    assert_eq!(s.shared, 0);
    assert_eq!(s.total, 2);
}

#[test]
fn folded_text_is_taken_as_it_is() {
    let s = tarkov_lookup::ngram::ngrams_of_folded("Ab", &vec![1]);
    assert_eq!(s.len(), 2);
    assert!(s.contains(&vec!['A']));
    assert!(!s.contains(&vec!['a']));
    assert_eq!(tarkov_lookup::ngram::ngrams_of_folded("water", &vec![1, 2, 3]), split_word("WATER", &vec![1, 2, 3]));
}
