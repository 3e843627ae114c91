use lexi::game::{self, GameType};
use lexi::preview;
use lexi::search_api::{self, CountdownQuery, SearchQuery};
use lexi::{Lexicon, Popularity, Quality};

fn words(items: &[&str]) -> Vec<String> {
    let mut v: Vec<String> = Vec::new();
    for w in items {
        v.push((*w).to_string());
    }
    v
}

fn query(
    contains: Option<&str>,
    contained: Option<&str>,
    excluded: Option<&str>,
    included: Option<&str>,
    length: Option<&str>,
    oneword: Option<bool>,
) -> SearchQuery {
    SearchQuery {
        contains: contains.map(|s| s.to_string()),
        contained: contained.map(|s| s.to_string()),
        excluded: excluded.map(|s| s.to_string()),
        included: included.map(|s| s.to_string()),
        length: length.map(|s| s.to_string()),
        oneword,
    }
}

#[test]
fn test_get_contains_needs_three_letters() {
    assert_eq!(query(Some("ab"), None, None, None, None, None).get_contains(), None);
    assert_eq!(query(Some("abc"), None, None, None, None, None).get_contains(), Some("abc"));
    assert_eq!(query(None, None, None, None, None, None).get_contains(), None);
}

#[test]
fn test_search_words_mode() {
    let lexi = Lexicon::from_iter(&words(&["pan", "paint", "rat", "spear"]));
    let q = query(None, Some("painters"), None, None, Some("4-6"), None);
    match search_api::search(&lexi, &q) {
        search_api::SearchResults::Words { words: found } => {
            assert_eq!(found, words(&["paint", "spear"]));
        },
        _ => panic!("expected a word list"),
    }
}

#[test]
fn test_search_anagram_mode() {
    let lexi = Lexicon::from_iter(&words(&["clusters", "dusters", "lusters"]))
        .with_popular_words(&words(&["clusters"]), 1);
    let q = query(Some("lusters"), None, None, None, Some("8"), None);
    match search_api::search(&lexi, &q) {
        search_api::SearchResults::Anagram { term, hits } => {
            assert_eq!(term, "lusters");
            assert_eq!(hits.len(), 1);
        },
        _ => panic!("expected anagram hits"),
    }
}

#[test]
fn test_search_refuses_oversize_results() {
    // More matching entries than the cap: the endpoint refuses rather
    // than returning them all.
    let mut list: Vec<String> = Vec::new();
    let mut word = "abc".to_string();
    for _ in 0..101 {
        word.push('a');
        list.push(word.clone());
    }
    let lexi = Lexicon::from_iter(&list);
    let q = query(Some("abc"), None, None, None, None, None);
    match search_api::search(&lexi, &q) {
        search_api::SearchResults::Oversize { max_hits } => {
            assert_eq!(max_hits, 100);
        },
        _ => panic!("expected an oversize refusal"),
    }
}

#[test]
fn test_score_values() {
    // The long quality squared plus four times the short quality, squared.
    assert_eq!(search_api::score(Quality::NotWord, Quality::VeryPopular), 9);
    assert_eq!(search_api::score(Quality::VeryPopular, Quality::VeryPopular), 153);
    assert_eq!(search_api::score(Quality::LessPopular, Quality::NotPopular), 65);
}

#[test]
fn test_countdown_endpoint_caps_at_ten() {
    let list = [
        "ab", "ac", "ad", "ae", "af", "ag", "ah", "ai", "aj", "ak", "al", "ba",
    ];
    let lexi = Lexicon::from_iter(&words(&list));
    let r = search_api::countdown(&lexi, CountdownQuery { q: "abcdefghijkl".to_string() });
    assert_eq!(r.q, "abcdefghijkl");
    assert_eq!(r.words.len(), 10);
}

#[test]
fn test_longest_subwords_groups() {
    let lexi = Lexicon::from_iter(&words(&["pan", "paint", "rat", "spear", "pa"]))
        .with_popular_words(&words(&["rat"]), 10);
    let r = game::longest_subwords("painters", 100, &lexi);
    assert_eq!(r.num_total, 5);
    assert_eq!(r.num_shown, 5);
    match r.results {
        game::SearchResults::WordsByLength { groups } => {
            assert_eq!(groups.len(), 3);
            assert_eq!(groups[0].len, 5);
            let g0: Vec<&str> = groups[0].words.iter().map(|w| w.word.as_str()).collect();
            assert_eq!(g0, ["paint", "spear"]);
            assert_eq!(groups[1].len, 3);
            // "rat" is ranked, so it comes before "pan" within its length.
            let g1: Vec<&str> = groups[1].words.iter().map(|w| w.word.as_str()).collect();
            assert_eq!(g1, ["rat", "pan"]);
            assert_eq!(groups[1].words[0].rating, Popularity::High);
            assert_eq!(groups[2].len, 2);
        },
        _ => panic!("expected groups"),
    }
}

#[test]
fn test_anagram_search_prefers_popular_decompositions() {
    let lexi = Lexicon::from_iter(&words(&["me", "at", "team"]))
        .with_popular_words(&words(&["team"]), 10);
    let q = SearchQuery_game("meat", GameType::Anagram, None);
    let r = game::search(&lexi, &q);
    assert_eq!(r.num_total, 2);
    assert_eq!(r.num_shown, 2);
    match r.results {
        game::SearchResults::Anagrams { anagrams } => {
            // The decomposition whose weakest word is most popular first.
            let first: Vec<&str> = anagrams[0].words.iter().map(|w| w.word.as_str()).collect();
            assert_eq!(first, ["team"]);
            let second: Vec<&str> = anagrams[1].words.iter().map(|w| w.word.as_str()).collect();
            assert_eq!(second, ["at", "me"]);
        },
        _ => panic!("expected decompositions"),
    }
}

#[allow(non_snake_case)]
fn SearchQuery_game(term: &str, game_type: GameType, limit: Option<usize>) -> game::SearchQuery {
    game::SearchQuery { term: term.to_string(), game_type, limit }
}

#[test]
fn test_anagram_search_respects_limit() {
    let lexi = Lexicon::from_iter(&words(&["me", "at", "team"]));
    let q = SearchQuery_game("meat", GameType::Anagram, Some(1));
    let r = game::search(&lexi, &q);
    assert_eq!(r.num_total, 2);
    assert_eq!(r.num_shown, 1);
}

#[test]
fn test_preview_groups() {
    let lexi = Lexicon::from_iter(&words(&["pan", "paint", "rat"]));
    let q = preview::PreviewQuery {
        term: "painters".to_string(),
        goal: GameType::Countdown,
        limit: None,
    };
    let r = preview::get_preview(&lexi, &q);
    assert_eq!(r.num_total, 3);
    assert_eq!(r.num_shown, 3);
    assert_eq!(r.groups.len(), 2);
    assert_eq!(r.groups[0].len, 5);
    assert_eq!(r.groups[0].words[0].0, "paint");
    assert_eq!(r.groups[0].words[0].1, Popularity::Low);
}
