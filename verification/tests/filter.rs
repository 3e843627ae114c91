use lexi::{Check, Filter, FilterBuilder, LengthRange, LetterMask, Lexicon, SortedLetters};

fn words(items: &[&str]) -> Vec<String> {
    let mut v: Vec<String> = Vec::new();
    for w in items {
        v.push((*w).to_string());
    }
    v
}

#[test]
fn test_include_letters() {
    let filter = Filter::new(vec![Check::IncludeLetters(LetterMask::new("abc"))]);
    let lex = Lexicon::from_iter(&words(&["back", "cat", "taxicab"]));

    assert_eq!(lex.matching_words(&filter), words(&["back", "taxicab"]));
}

#[test]
fn test_exclude_letters() {
    let filter = Filter::new(vec![Check::ExcludeLetters(LetterMask::new("abc"))]);
    let lex = Lexicon::from_iter(&words(&["debauched", "squirming", "zeitgeist"]));

    assert_eq!(lex.matching_words(&filter), words(&["squirming", "zeitgeist"]));
}

#[test]
fn test_length() {
    let filter = Filter::new(vec![Check::Length(LengthRange::new(4, 6))]);
    let lex = Lexicon::from_iter(&words(&["back", "cat", "plinth", "taxicab"]));

    assert_eq!(lex.matching_words(&filter), words(&["back", "plinth"]));
}

#[test]
fn test_contains() {
    let filter = Filter::new(vec![Check::Contains(SortedLetters::from_word("lmn"))]);

    let lex = Lexicon::from_iter(
        &words(
            &[
                "equanimity",
                "repose",
                "calmness",
                "coolness",
                "placidity",
                "serenity",
                "composure",
                "tranquility",
            ],
        ),
    );

    assert_eq!(lex.matching_words(&filter), words(&["calmness"]));
}

#[test]
fn test_empty_filter_matches_everything() {
    let filter = FilterBuilder::new().build();
    assert!(filter.is_empty());
    let lex = Lexicon::from_iter(&words(&["one", "two"]));
    assert_eq!(lex.matching_words(&filter), words(&["one", "two"]));
}

#[test]
fn test_builder_drops_malformed_constraints() {
    // A malformed length and empty letter strings add no check at all.
    let filter = FilterBuilder::new()
        .length(Some("nonsense"))
        .exclude_letters(Some(""))
        .include_letters(None)
        .single_word(None)
        .build();
    assert!(filter.is_empty());
}

#[test]
fn test_builder_single_word() {
    let filter = FilterBuilder::new().single_word(Some(true)).build();
    let lex = Lexicon::from_iter(&words(&["plain", "two words", "hy-phen"]));
    assert_eq!(lex.matching_words(&filter), words(&["plain"]));
}

#[test]
fn test_builder_contained() {
    let filter = FilterBuilder::new().contained(Some("stream")).build();
    let lex = Lexicon::from_iter(&words(&["mast", "steam", "streams", "rat"]));
    assert_eq!(lex.matching_words(&filter), words(&["mast", "steam", "rat"]));
}
