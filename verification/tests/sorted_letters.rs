use lexi::SortedLetters;

#[test]
fn test_new() {
    // "abcab" counts two a's, two b's, one c; the canonical text lists
    // each letter repeated by its count over the 26-letter table.
    let sorted = SortedLetters::from_word("abcab");
    assert_eq!(sorted.to_text(), "aabbc");
    assert!(sorted == SortedLetters::from_word("aabbc"));
}

#[test]
fn test_is_superset() {
    let sorted = SortedLetters::from_word("cabled");
    assert!(sorted.is_superset(&SortedLetters::from_word("cabled")));
    assert!(sorted.is_superset(&SortedLetters::from_word("able")));
    assert!(sorted.is_superset(&SortedLetters::from_word("laced")));
    assert!(sorted.is_superset(&SortedLetters::from_word("l")));
    assert!(sorted.is_superset(&SortedLetters::from_word("")));
    assert!(!sorted.is_superset(&SortedLetters::from_word("call")));
    assert!(!sorted.is_superset(&SortedLetters::from_word("black")));
}

#[test]
fn test_subtract() {
    let a = SortedLetters::from_word("deafened");
    let b = SortedLetters::from_word("faded");
    let c = a.minus(&b).unwrap();
    assert!(c == SortedLetters::from_word("een"));
}

#[test]
fn test_minus_defined_iff_superset() {
    let a = SortedLetters::from_word("cabled");
    // Defined exactly when the subtrahend is a subset.
    assert!(a.minus(&SortedLetters::from_word("able")).is_some());
    assert!(a.minus(&SortedLetters::from_word("call")).is_none());
    assert!(a.minus(&SortedLetters::from_word("")).is_some());
}

#[test]
fn test_minus_add_back() {
    // Re-adding the subtrahend's letters yields the original counts.
    let a = SortedLetters::from_word("deafened");
    let b = SortedLetters::from_word("faded");
    let c = a.minus(&b).unwrap();
    let mut rejoined = c.to_text();
    rejoined.push_str(&b.to_text());
    assert!(SortedLetters::from_word(&rejoined) == a);
}

#[test]
fn test_minus_result_loses_subtrahend() {
    // After removing "faded" the difference no longer contains it.
    let a = SortedLetters::from_word("deafened");
    let b = SortedLetters::from_word("faded");
    let c = a.minus(&b).unwrap();
    assert!(!c.is_superset(&b));
}

#[test]
fn test_case_insensitive_and_non_letters() {
    let a = SortedLetters::from_word("Ab-Ba!2");
    assert!(a == SortedLetters::from_word("abba"));
    assert_eq!(a.to_text(), "aabb");
}

#[test]
fn test_is_empty() {
    assert!(SortedLetters::from_word("").is_empty());
    assert!(SortedLetters::from_word("123 !").is_empty());
    assert!(!SortedLetters::from_word("a").is_empty());
}

#[test]
fn test_is_subset_converse_of_superset() {
    let a = SortedLetters::from_word("cabled");
    let b = SortedLetters::from_word("able");
    assert_eq!(a.is_superset(&b), b.is_subset(&a));
    assert_eq!(b.is_superset(&a), a.is_subset(&b));
    assert!(b.is_subset(&a));
    assert!(!a.is_subset(&b));
}
