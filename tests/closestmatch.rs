use tarkov_lookup::closestmatch::{ClosestMatch, ConfigError};

fn words(list: &[&str]) -> Vec<String> {
    list.iter().map(|w| w.to_string()).collect()
}

#[test]
fn it_works() {
    let cm = ClosestMatch::new(
        ["hello".to_string(), "bullo".to_string(), "hello world".to_string()].to_vec(),
        [1, 2, 3].to_vec(),
    )
    .unwrap();
    let closest = cm.get_closest("hlo");
    println!("{:?}", closest);
    assert_eq!(closest, Some("hello".to_string()));
}

#[test]
fn empty_vocabulary_matches_nothing() {
    let cm = ClosestMatch::new(Vec::new(), vec![1, 2, 3]).unwrap();
    assert_eq!(cm.get_closest("hello"), None);
    assert_eq!(cm.get_closest(""), None);
}

#[test]
fn exact_match_wins() {
    let cm = ClosestMatch::new(words(&["hello"]), vec![1, 2, 3]).unwrap();
    assert_eq!(cm.get_closest("hello"), Some("hello".to_string()));
    let cm = ClosestMatch::new(words(&["bullo", "hello", "hello world"]), vec![1, 2, 3]).unwrap();
    assert_eq!(cm.get_closest("hello"), Some("hello".to_string()));
}

#[test]
fn noisy_query_is_deterministic() {
    let first = ClosestMatch::new(words(&["hello", "bullo", "hello world"]), vec![1, 2, 3])
        .unwrap()
        .get_closest("hlo");
    for _ in 0..20 {
        let cm = ClosestMatch::new(words(&["hello", "bullo", "hello world"]), vec![1, 2, 3]).unwrap();
        assert_eq!(cm.get_closest("hlo"), first);
    }
    assert_eq!(first, Some("hello".to_string()));
}

#[test]
fn repeated_query_gives_same_answer() {
    let cm = ClosestMatch::new(words(&["water", "bottle", "filter"]), vec![2, 3]).unwrap();
    let a = cm.get_closest("watr botle");
    let b = cm.get_closest("watr botle");
    assert_eq!(a, b);
    assert_eq!(a, Some("bottle".to_string()));
}

#[test]
fn vocabulary_order_does_not_matter() {
    let orders: [&[&str]; 3] = [
        &["abd", "abc", "xyz"],
        &["xyz", "abc", "abd"],
        &["abc", "abd", "xyz"],
    ];
    for order in orders {
        let cm = ClosestMatch::new(words(order), vec![1]).unwrap();
        assert_eq!(cm.get_closest("ab"), Some("abc".to_string()));
    }
}

#[test]
fn tie_goes_to_shorter_entry() {
    let cm = ClosestMatch::new(words(&["aabc", "abc"]), vec![1]).unwrap();
    assert_eq!(cm.get_closest("ab"), Some("abc".to_string()));
    let cm = ClosestMatch::new(words(&["abc", "aabc"]), vec![1]).unwrap();
    assert_eq!(cm.get_closest("ab"), Some("abc".to_string()));
}

#[test]
fn query_and_entries_are_case_insensitive() {
    let cm = ClosestMatch::new(words(&["Hello", "world"]), vec![2, 3]).unwrap();
    assert_eq!(cm.get_closest("HELLO"), Some("Hello".to_string()));
    assert_eq!(cm.get_closest("WoRlD"), Some("world".to_string()));
}

#[test]
fn duplicate_entries_are_harmless() {
    let cm = ClosestMatch::new(words(&["hello", "hello", "help"]), vec![1, 2]).unwrap();
    assert_eq!(cm.get_closest("hello"), Some("hello".to_string()));
}

#[test]
fn no_shared_ngrams_still_picks_an_entry() {
    let cm = ClosestMatch::new(words(&["zzzz", "yy"]), vec![1]).unwrap();
    assert_eq!(cm.get_closest("abc"), Some("yy".to_string()));
    assert_eq!(cm.get_closest(""), Some("yy".to_string()));
}

#[test]
fn empty_window_sizes_are_refused() {
    assert!(matches!(
        ClosestMatch::new(words(&["hello"]), Vec::new()),
        Err(ConfigError::NoWindowSizes)
    ));
}

#[test]
fn zero_window_size_is_refused() {
    assert!(matches!(
        ClosestMatch::new(words(&["hello"]), vec![2, 0, 3]),
        Err(ConfigError::ZeroWindowSize)
    ));
}

#[test]
fn multibyte_entries_match() {
    let cm = ClosestMatch::new(words(&["Äpfel", "Birnen"]), vec![2]).unwrap();
    assert_eq!(cm.get_closest("äpfl"), Some("Äpfel".to_string()));
}

#[test]
fn closest_by_query_ngrams() {
    let cm = ClosestMatch::new(words(&["hello", "bullo", "hello world"]), vec![1, 2, 3]).unwrap();
    let q = tarkov_lookup::ngram::split_word("hlo", &vec![1, 2, 3]);
    assert_eq!(cm.closest_to_ngrams(&q), Some("hello".to_string()));
    let empty = ClosestMatch::new(Vec::new(), vec![1]).unwrap();
    assert_eq!(empty.closest_to_ngrams(&q), None);
}
