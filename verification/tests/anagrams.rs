use lexi::{anagrams, Lexicon, SortedLetters};

fn words(items: &[&str]) -> Vec<String> {
    let mut v: Vec<String> = Vec::new();
    for w in items {
        v.push((*w).to_string());
    }
    v
}

fn run_all(term: &str, lexicon_words: &[&str]) -> Vec<(Vec<String>, SortedLetters)> {
    let lexi = Lexicon::from_iter(&words(lexicon_words));
    let mut m = anagrams(term, &lexi);
    let mut out: Vec<(Vec<String>, SortedLetters)> = Vec::new();
    while let Some((entries, residue)) = m.next() {
        let ws: Vec<String> = entries.iter().map(|e| e.word().to_string()).collect();
        out.push((ws, residue));
    }
    out
}

#[test]
fn test_complete_decompositions_cover_target() {
    // Every decomposition with an empty residue re-sums exactly to the
    // query's letters.
    let results = run_all("meat", &["me", "at", "team", "zoo"]);
    let target = SortedLetters::from_word("meat");
    let mut complete = 0;
    for (ws, residue) in &results {
        if residue.is_empty() {
            complete += 1;
            let joined = ws.join("");
            assert!(SortedLetters::from_word(&joined) == target);
        }
    }
    assert_eq!(complete, 2);
}

#[test]
fn test_no_duplicate_bags() {
    // The same bag of words never comes out twice, whatever the order the
    // search explores.
    let results = run_all("stream", &["mast", "tams", "re", "er", "st", "ream", "mates"]);
    let mut bags: Vec<Vec<String>> = Vec::new();
    for (ws, residue) in &results {
        if residue.is_empty() {
            let mut bag = ws.clone();
            bag.sort();
            assert!(!bags.contains(&bag));
            bags.push(bag);
        }
    }
    assert!(bags.len() >= 2);
}

#[test]
fn test_partial_decomposition_reports_residue() {
    // With no word covering the leftover letters, the search still reports
    // the maximal partial match and its residue.
    let results = run_all("cabs", &["ab"]);
    let mut found_partial = false;
    for (ws, residue) in &results {
        if ws == &words(&["ab"]) {
            found_partial = true;
            assert_eq!(residue.to_text(), "cs");
        }
    }
    assert!(found_partial);
}

#[test]
fn test_word_never_reused_in_one_decomposition() {
    // Each candidate position is used at most once per decomposition, so
    // "aa" cannot be tiled with a single "a" entry.
    let results = run_all("aa", &["a"]);
    for (_, residue) in &results {
        assert!(!residue.is_empty());
    }
}

#[test]
fn test_exhausted_search_stays_exhausted() {
    let lexi = Lexicon::from_iter(&words(&["me", "at", "team"]));
    let mut m = anagrams("meat", &lexi);
    let mut count = 0;
    while m.next().is_some() {
        count += 1;
    }
    assert!(count >= 2);
    // Once the search answers nothing, it keeps answering nothing.
    assert!(m.next().is_none());
    assert!(m.next().is_none());
}

#[test]
fn test_candidate_order_prefers_popular_then_long() {
    // The first complete decomposition starts with the most interesting
    // candidate: popularity first, then length.
    let lexi = Lexicon::from_iter(&words(&["ream", "st", "mast", "re"]))
        .with_popular_words(&words(&["st"]), 10);
    let mut m = anagrams("stream", &lexi);
    let first = m.next().unwrap();
    let ws: Vec<String> = first.0.iter().map(|e| e.word().to_string()).collect();
    // "st" is ranked, so it sorts before the longer unranked words.
    assert_eq!(ws, words(&["st", "ream"]));
    assert!(first.1.is_empty());
}
