use top_english_words::get_word;
use top_english_words::get_words;
use top_english_words::get_words_a;
use top_english_words::get_words_range;
use top_english_words::get_words_range_a;
use top_english_words::is_top_word;
use top_english_words::RankBound;
use top_english_words::WordCatalog;

fn owned(words: &[&str]) -> Vec<String> {
    let mut v = Vec::new();
    for w in words {
        v.push(String::from(*w));
    }
    v
}

fn sample() -> WordCatalog {
    WordCatalog::new(owned(&["the", "of", "and", "a", "to"])).expect("distinct words")
}

#[test]
fn new_accepts_distinct_words() {
    assert!(WordCatalog::new(owned(&["the", "of", "and"])).is_some());
}

#[test]
fn new_rejects_duplicate_words() {
    assert!(WordCatalog::new(owned(&["the", "of", "the"])).is_none());
}

#[test]
fn new_accepts_empty_list() {
    let c = WordCatalog::new(owned(&[])).expect("empty list is distinct");
    assert_eq!(c.len(), 0);
    assert!(get_words(&c).is_empty());
}

#[test]
fn get_words_returns_every_word_in_rank_order() {
    let c = sample();
    let all = get_words(&c);
    assert_eq!(all.len(), c.len());
    assert_eq!(all, owned(&["the", "of", "and", "a", "to"]));
}

#[test]
fn get_words_a_is_sorted_ascending() {
    let c = sample();
    let alpha = get_words_a(&c);
    assert_eq!(alpha, owned(&["a", "and", "of", "the", "to"]));
}

#[test]
fn get_words_a_holds_the_same_words() {
    let c = sample();
    let mut all = get_words(&c);
    let alpha = get_words_a(&c);
    assert_eq!(alpha.len(), all.len());
    all.sort();
    assert_eq!(all, alpha);
}

#[test]
fn alphabetical_order_is_byte_order_not_case_folded() {
    let c = WordCatalog::new(owned(&["apple", "Zebra", "banana"])).unwrap();
    assert_eq!(get_words_a(&c), owned(&["Zebra", "apple", "banana"]));
}

#[test]
fn range_inclusive_returns_the_window() {
    let c = sample();
    let v = get_words_range(&c, RankBound::Included(1), RankBound::Included(3)).unwrap();
    assert_eq!(v.len(), 3);
    assert_eq!(v, owned(&["of", "and", "a"]));
}

#[test]
fn range_matches_get_words_window() {
    let c = sample();
    let all = get_words(&c);
    let v = get_words_range(&c, RankBound::Included(1), RankBound::Included(3)).unwrap();
    assert_eq!(&all[1..=3], &v[..]);
}

#[test]
fn range_exclusive_end_stops_before_it() {
    let c = sample();
    let v = get_words_range(&c, RankBound::Included(0), RankBound::Excluded(2)).unwrap();
    assert_eq!(v, owned(&["the", "of"]));
}

#[test]
fn range_unbounded_covers_all() {
    let c = sample();
    let v = get_words_range(&c, RankBound::Unbounded, RankBound::Unbounded).unwrap();
    assert_eq!(v, get_words(&c));
}

#[test]
fn range_excluded_start_falls_back_to_zero() {
    let c = sample();
    let v = get_words_range(&c, RankBound::Excluded(3), RankBound::Included(1)).unwrap();
    assert_eq!(v, owned(&["the", "of"]));
}

#[test]
fn range_end_past_catalog_is_invalid() {
    let c = sample();
    assert!(get_words_range(&c, RankBound::Included(1), RankBound::Included(5)).is_none());
    assert!(get_words_range(&c, RankBound::Included(0), RankBound::Excluded(6)).is_none());
}

#[test]
fn range_start_past_end_is_invalid() {
    let c = sample();
    assert!(get_words_range(&c, RankBound::Included(3), RankBound::Included(1)).is_none());
}

#[test]
fn range_exclusive_end_of_zero_is_invalid() {
    let c = sample();
    assert!(get_words_range(&c, RankBound::Included(0), RankBound::Excluded(0)).is_none());
    assert!(get_words_range_a(&c, RankBound::Included(0), RankBound::Excluded(0)).is_none());
}

#[test]
fn range_unbounded_end_on_empty_catalog_is_invalid() {
    let c = WordCatalog::new(owned(&[])).unwrap();
    assert!(get_words_range(&c, RankBound::Unbounded, RankBound::Unbounded).is_none());
}

#[test]
fn range_alphabetical_sorts_the_window() {
    let c = sample();
    let v = get_words_range_a(&c, RankBound::Included(1), RankBound::Included(3)).unwrap();
    assert_eq!(v, owned(&["a", "and", "of"]));
}

#[test]
fn range_alphabetical_permutes_the_plain_range() {
    let c = sample();
    let mut plain = get_words_range(&c, RankBound::Included(0), RankBound::Included(4)).unwrap();
    let alpha = get_words_range_a(&c, RankBound::Included(0), RankBound::Included(4)).unwrap();
    plain.sort();
    assert_eq!(plain, alpha);
}

#[test]
fn range_alphabetical_invalid_under_same_conditions() {
    let c = sample();
    assert!(get_words_range_a(&c, RankBound::Included(3), RankBound::Included(1)).is_none());
    assert!(get_words_range_a(&c, RankBound::Included(1), RankBound::Included(5)).is_none());
}

#[test]
fn get_word_returns_the_word_at_the_rank() {
    let c = sample();
    let all = get_words(&c);
    for rank in 0..all.len() {
        assert_eq!(get_word(&c, rank).as_ref(), Some(&all[rank]));
    }
}

#[test]
fn get_word_out_of_bounds_is_none() {
    let c = sample();
    assert!(get_word(&c, 5).is_none());
    assert!(get_word(&c, usize::MAX).is_none());
}

#[test]
fn is_top_word_finds_each_rank() {
    let c = sample();
    let all = get_words(&c);
    for (rank, word) in all.iter().enumerate() {
        assert_eq!(is_top_word(&c, word.as_str()), Some(rank));
    }
}

#[test]
fn is_top_word_absent_is_none() {
    let c = sample();
    assert_eq!(is_top_word(&c, "banana"), None);
    assert_eq!(is_top_word(&c, ""), None);
}

#[test]
fn is_top_word_is_case_sensitive_and_exact() {
    let c = sample();
    assert_eq!(is_top_word(&c, "The"), None);
    assert_eq!(is_top_word(&c, "the "), None);
}

#[test]
fn repeated_calls_return_identical_results() {
    let c = sample();
    assert_eq!(get_words(&c), get_words(&c));
    assert_eq!(get_words_a(&c), get_words_a(&c));
    assert_eq!(
        get_words_range(&c, RankBound::Included(1), RankBound::Included(3)),
        get_words_range(&c, RankBound::Included(1), RankBound::Included(3))
    );
    assert_eq!(
        get_words_range_a(&c, RankBound::Included(1), RankBound::Included(3)),
        get_words_range_a(&c, RankBound::Included(1), RankBound::Included(3))
    );
    assert_eq!(get_word(&c, 2), get_word(&c, 2));
    assert_eq!(is_top_word(&c, "and"), is_top_word(&c, "and"));
}

#[test]
fn top_word_scenario() {
    let c = WordCatalog::new(owned(&[
        "the", "of", "and", "a", "to", "in", "is", "you", "that", "it",
    ]))
    .unwrap();
    if get_word(&c, 0).as_deref() == Some("the") {
        assert_eq!(is_top_word(&c, "the"), Some(0));
    }
    let tail = get_words_range(&c, RankBound::Included(5), RankBound::Excluded(10)).unwrap();
    assert_eq!(tail.len(), 5);
    assert_eq!(tail, owned(&["in", "is", "you", "that", "it"]));
    assert!(get_words_range(&c, RankBound::Included(5), RankBound::Excluded(11)).is_none());
}
