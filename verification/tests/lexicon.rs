use lexi::{solve_anagram, Lexicon, Popularity, Quality, SortedLetters};

fn words(items: &[&str]) -> Vec<String> {
    let mut v: Vec<String> = Vec::new();
    for w in items {
        v.push((*w).to_string());
    }
    v
}

#[test]
fn test_with_popular_words_assigns_ranks() {
    let lex = Lexicon::from_iter(&words(&["tree", "house", "cat"]))
        .with_popular_words(&words(&["cat", "tree"]), 1);
    let entries = lex.entries();
    assert_eq!(entries[0].rank(), Some(1));
    assert_eq!(entries[1].rank(), None);
    assert_eq!(entries[2].rank(), Some(0));
    // Rank below the threshold is High, at or above it Medium, absent Low.
    assert_eq!(lex.rate(&entries[2]), Popularity::High);
    assert_eq!(lex.rate(&entries[0]), Popularity::Medium);
    assert_eq!(lex.rate(&entries[1]), Popularity::Low);
}

#[test]
fn test_entry_accessors() {
    let lex = Lexicon::from_iter(&words(&["two words", "plain"]));
    let entries = lex.entries();
    assert_eq!(entries[0].word(), "two words");
    assert_eq!(entries[0].num_letters(), 8);
    assert!(!entries[0].is_single_word());
    assert_eq!(entries[1].len(), 5);
    assert!(entries[1].is_single_word());
}

#[test]
fn test_entry_counts_unicode_alphabetic_characters() {
    // An accented letter is alphabetic even though it is not ASCII.
    let lex = Lexicon::from_iter(&words(&["h\u{e9}llo"]));
    let entries = lex.entries();
    assert_eq!(entries[0].num_letters(), 5);
    // Only the ASCII letters enter the letter multiset.
    assert_eq!(
        entries[0].without_letters_in(&SortedLetters::from_word("hllo")).unwrap().to_text(),
        ""
    );
}

#[test]
fn test_solve_anagram_class() {
    let lex = Lexicon::from_iter(&words(&["meat", "mate", "team", "tame", "mast"]));
    let class = lex.solve_anagram(&SortedLetters::from_word("meat"));
    let class_words: Vec<&str> = class.iter().map(|e| e.word()).collect();
    assert_eq!(class_words, ["meat", "mate", "team", "tame"]);
}

#[test]
fn test_lookup_idempotent() {
    // The lexicon is immutable: the same query twice gives the same answer.
    let lex = Lexicon::from_iter(&words(&["meat", "mate", "mast"]))
        .with_popular_words(&words(&["mate"]), 10);
    let m = SortedLetters::from_word("tame");
    let c1: Vec<String> = lex.solve_anagram(&m).iter().map(|e| e.word().to_string()).collect();
    let c2: Vec<String> = lex.solve_anagram(&m).iter().map(|e| e.word().to_string()).collect();
    assert_eq!(c1, c2);
    let b1 = solve_anagram(&lex, &m);
    let b2 = solve_anagram(&lex, &m);
    assert_eq!(b1.word, b2.word);
    assert_eq!(b1.quality, b2.quality);
}

#[test]
fn test_best_for_prefers_lowest_rank() {
    let lex = Lexicon::from_iter(&words(&["meat", "mate", "team"]))
        .with_popular_words(&words(&["team", "mate"]), 10);
    let best = solve_anagram(&lex, &SortedLetters::from_word("atem"));
    assert_eq!(best.word, "team");
    assert_eq!(best.quality, Quality::VeryPopular);
}

#[test]
fn test_best_for_no_word_falls_back_to_letters() {
    let lex = Lexicon::from_iter(&words(&["meat"]));
    let best = solve_anagram(&lex, &SortedLetters::from_word("zzq"));
    assert_eq!(best.word, "qzz");
    assert_eq!(best.quality, Quality::NotWord);
}

#[test]
fn test_best_for_quality_tiers() {
    let lex = Lexicon::from_iter(&words(&["meat", "rare"]))
        .with_popular_words(&words(&["meat"]), 1);
    let best = solve_anagram(&lex, &SortedLetters::from_word("team"));
    assert_eq!(best.quality, Quality::VeryPopular);
    let unranked = solve_anagram(&lex, &SortedLetters::from_word("rear"));
    assert_eq!(unranked.word, "rare");
    assert_eq!(unranked.quality, Quality::NotPopular);
}
