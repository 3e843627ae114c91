use lexi::{anagram_breakdowns, search_countdown, FilterBuilder, Lexicon, Quality};

fn words(items: &[&str]) -> Vec<String> {
    let mut v: Vec<String> = Vec::new();
    for w in items {
        v.push((*w).to_string());
    }
    v
}

#[test]
fn test_anagram_breakdown() {
    let filter = FilterBuilder::new().contains(Some("lusters")).length(Some("8")).build();
    let lexi = Lexicon::from_iter(&words(&["clusters", "dusters", "lusters"]))
        .with_popular_words(&words(&["clusters"]), 1);
    let xs = anagram_breakdowns(&lexi, &filter, "lusters");
    assert!(xs.len() == 1);
    assert!(xs[0].query == "lusters");
    assert!(xs[0].short.word == "c");
    assert!(xs[0].short.quality == Quality::NotWord);
    assert!(xs[0].long.word == "clusters");
    assert!(xs[0].long.quality == Quality::VeryPopular);
}

#[test]
fn test_search_orders_by_length_then_alphabet() {
    let filter = FilterBuilder::new().contained(Some("painters")).build();
    let lexi = Lexicon::from_iter(&words(&["pan", "rat", "paint", "spear", "pa"]));
    let found = lexi::queries::search(&lexi, &filter);
    assert_eq!(found, words(&["paint", "spear", "pan", "rat", "pa"]));
}

#[test]
fn test_search_countdown_ordering() {
    // Longest first; among equals, the most popular word first with
    // unranked words last; then alphabetical.
    let lexi = Lexicon::from_iter(&words(&["tan", "ant", "rant", "Tarn"]))
        .with_popular_words(&words(&["ant", "tan"]), 10);
    let found = search_countdown(&lexi, "antler");
    // "Tarn" is dropped: not all lower-case ASCII.  "ant" has rank 0,
    // "tan" rank 1: the more popular "ant" comes first.
    assert_eq!(found, words(&["rant", "ant", "tan"]));
}

#[test]
fn test_search_countdown_unranked_last() {
    let lexi = Lexicon::from_iter(&words(&["bat", "tab", "nab"]))
        .with_popular_words(&words(&["tab"]), 10);
    let found = search_countdown(&lexi, "bantam");
    // The ranked word leads its length group; unranked ties go
    // alphabetically.
    assert_eq!(found, words(&["tab", "bat", "nab"]));
}

#[test]
fn test_search_countdown_excludes_unfitting_words() {
    let lexi = Lexicon::from_iter(&words(&["deafened", "fade", "den", "zoo"]));
    let found = search_countdown(&lexi, "deafened");
    assert_eq!(found, words(&["deafened", "fade", "den"]));
}
