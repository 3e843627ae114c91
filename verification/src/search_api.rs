//! The word-search endpoint's data shapes and computation: a query of
//! optional textual constraints, the filter it denotes, and the response —
//! a plain word list, a capped list of anagram breakdowns scored by the
//! quality of their parts, or an oversize refusal.

use crate::filter::{
    check_passes, checks_pass, filtered_entries, lemma_checks_pass_push, Check, Filter,
    FilterBuilder,
};
use crate::length_range::range_of_text;
use crate::letter_mask::text_has_letter;
use crate::lexi::{words_of, Entry, Lexicon};
use crate::queries::{
    anagram_breakdowns, breakdown_pool, quality_value, search_lt, spec_quality_value,
    spec_ranked_parts, AnagramHit, Quality,
};
use crate::sorted_letters::{counts_of, ms_sub, ms_superset};
use crate::sorting::{
    lemma_sort_by_lt_len, lemma_sort_commutes, lex_lt, sort_by_lt, sort_keyed, vals_of, Keyed,
};
use vstd::prelude::*;

verus! {

/// The most anagram-breakdown hits the search is willing to return.
pub const MAX_RESULTS: usize = 100;

/// A search request: every constraint is optional, and a malformed one is
/// silently ignored, mirroring optional query parameters.
#[derive(Debug, Clone)]
pub struct SearchQuery {
    pub contains: Option<String>,
    pub contained: Option<String>,
    pub excluded: Option<String>,
    pub included: Option<String>,
    pub length: Option<String>,
    pub oneword: Option<bool>,
}

/// Whether an entry satisfies every constraint the query carries, stated
/// over the entry's word and letters.
pub open spec fn query_matches(q: SearchQuery, e: Entry) -> bool {
    &&& (match q.contains {
        Some(c) => ms_superset(e.spec_counts(), counts_of(c@)),
        None => true,
    })
    &&& (match q.contained {
        Some(c) => ms_superset(counts_of(c@), e.spec_counts()),
        None => true,
    })
    &&& (match q.excluded {
        Some(c) => c@.len() > 0 ==> !(exists|j: int|
            0 <= j < 26 && #[trigger] text_has_letter(c@, j) && text_has_letter(e.spec_word(), j)),
        None => true,
    })
    &&& (match q.included {
        Some(c) => c@.len() > 0 ==> (forall|j: int|
            0 <= j < 26 && #[trigger] text_has_letter(c@, j) ==> text_has_letter(
                e.spec_word(),
                j,
            )),
        None => true,
    })
    &&& (match q.length {
        Some(t) => (match range_of_text(t@) {
            Some(p) => p.0 <= e.spec_len() && e.spec_len() <= p.1,
            None => true,
        }),
        None => true,
    })
    &&& (match q.oneword {
        Some(w) => e.spec_one_word() == w,
        None => true,
    })
}

/// `o` carries a non-empty letter string.
pub open spec fn has_letters(o: Option<String>) -> bool {
    o matches Some(c) && c@.len() > 0
}

/// `o` carries a well-formed length-range text.
pub open spec fn has_valid_length(o: Option<String>) -> bool {
    o matches Some(t) && range_of_text(t@) is Some
}

/// One slot of the check list, or none.
pub open spec fn check_count(b: bool) -> int {
    if b {
        1int
    } else {
        0int
    }
}

/// The exact check list a query builds: one check per present-and-valid
/// constraint, in the fixed order contains, contained, excluded, included,
/// length, single-word.  An absent constraint, an empty letter string for
/// the mask checks, or an unparsable length contributes nothing and never
/// raises an error; a present but empty `contains` or `contained` string
/// still contributes its (then trivially satisfied) multiset check.
pub open spec fn query_checks(q: SearchQuery, cs: Seq<Check>) -> bool {
    let o1 = check_count(q.contains is Some);
    let o2 = o1 + check_count(q.contained is Some);
    let o3 = o2 + check_count(has_letters(q.excluded));
    let o4 = o3 + check_count(has_letters(q.included));
    let o5 = o4 + check_count(has_valid_length(q.length));
    let o6 = o5 + check_count(q.oneword is Some);
    &&& cs.len() == o6
    &&& (match q.contains {
        Some(c) => cs[0] matches Check::Contains(m) && m@ == counts_of(c@),
        None => true,
    })
    &&& (match q.contained {
        Some(c) => cs[o1] matches Check::Contained(m) && m@ == counts_of(c@),
        None => true,
    })
    &&& (match q.excluded {
        Some(c) => c@.len() > 0 ==> (cs[o2] matches Check::ExcludeLetters(m) && forall|j: int|
            #[trigger] m.has_letter(j) <==> (0 <= j < 26 && text_has_letter(c@, j))),
        None => true,
    })
    &&& (match q.included {
        Some(c) => c@.len() > 0 ==> (cs[o3] matches Check::IncludeLetters(m) && forall|j: int|
            #[trigger] m.has_letter(j) <==> (0 <= j < 26 && text_has_letter(c@, j))),
        None => true,
    })
    &&& (match q.length {
        Some(t) => (match range_of_text(t@) {
            Some(p) => cs[o4] matches Check::Length(lr) && lr.spec_min() == p.0 && lr.spec_max()
                == p.1,
            None => true,
        }),
        None => true,
    })
    &&& (match q.oneword {
        Some(w) => cs[o5] == Check::SingleWord(w),
        None => true,
    })
}

/// The anagram term of the query: its `contains` constraint, honoured only
/// from three characters on.
pub open spec fn get_contains_spec(q: SearchQuery) -> Option<Seq<char>> {
    match q.contains {
        Some(c) => if c@.len() >= 3 {
            Some(c@)
        } else {
            None
        },
        None => None,
    }
}

impl SearchQuery {
    /// The anagram term, when the `contains` constraint has at least three
    /// characters.
    pub fn get_contains(&self) -> (r: Option<&str>)
        ensures
            match r {
                Some(s) => get_contains_spec(*self) == Some(s@),
                None => get_contains_spec(*self) is None,
            },
    {
        match &self.contains {
            Some(c) => {
                if c.as_str().unicode_len() >= 3 {
                    Some(c.as_str())
                } else {
                    None
                }
            },
            None => None,
        }
    }

    /// The filter this query denotes: exactly one check per present,
    /// well-formed constraint, in a fixed order (`query_checks`).  On
    /// well-formed entries the filter means exactly `query_matches`.
    pub fn to_filter(&self) -> (r: Filter)
        ensures
            query_checks(*self, r.spec_checks()),
            forall|e: Entry| e.wf() ==> (r.spec_matches(e) <==> query_matches(*self, e)),
    {
        let c_contains = match &self.contains {
            Some(s) => Some(s.as_str()),
            None => None,
        };
        let c_contained = match &self.contained {
            Some(s) => Some(s.as_str()),
            None => None,
        };
        let c_excluded = match &self.excluded {
            Some(s) => Some(s.as_str()),
            None => None,
        };
        let c_included = match &self.included {
            Some(s) => Some(s.as_str()),
            None => None,
        };
        let c_length = match &self.length {
            Some(s) => Some(s.as_str()),
            None => None,
        };
        let b0 = FilterBuilder::new();
        let b1 = b0.contains(c_contains);
        let ghost cs1 = b1.spec_checks();
        let b2 = b1.contained(c_contained);
        let ghost cs2 = b2.spec_checks();
        let b3 = b2.exclude_letters(c_excluded);
        let ghost cs3 = b3.spec_checks();
        let b4 = b3.include_letters(c_included);
        let ghost cs4 = b4.spec_checks();
        let b5 = b4.length(c_length);
        let ghost cs5 = b5.spec_checks();
        let b6 = b5.single_word(self.oneword);
        let ghost cs6 = b6.spec_checks();
        let r = b6.build();
        proof {
            // the check list is exactly one slot per valid constraint, in
            // builder-call order: walk the chain back, relating retained
            // positions, then read off each slot
            let o1 = check_count(self.contains is Some);
            let o2 = o1 + check_count(self.contained is Some);
            let o3 = o2 + check_count(has_letters(self.excluded));
            let o4 = o3 + check_count(has_letters(self.included));
            let o5 = o4 + check_count(has_valid_length(self.length));
            assert forall|i: int| 0 <= i < cs5.len() implies #[trigger] cs6[i] == cs5[i] by {
                if self.oneword is Some {
                    assert(cs6[i] == cs5.push(Check::SingleWord(self.oneword->0))[i]);
                }
            }
            assert forall|i: int| 0 <= i < cs4.len() implies #[trigger] cs6[i] == cs4[i] by {
                assert(cs6[i] == cs5[i]);
                if has_valid_length(self.length) {
                    assert(cs5.take(cs4.len() as int)[i] == cs4[i]);
                }
            }
            assert forall|i: int| 0 <= i < cs3.len() implies #[trigger] cs6[i] == cs3[i] by {
                assert(cs6[i] == cs4[i]);
                if has_letters(self.included) {
                    assert(cs4.take(cs3.len() as int)[i] == cs3[i]);
                }
            }
            assert forall|i: int| 0 <= i < cs2.len() implies #[trigger] cs6[i] == cs2[i] by {
                assert(cs6[i] == cs3[i]);
                if has_letters(self.excluded) {
                    assert(cs3.take(cs2.len() as int)[i] == cs2[i]);
                }
            }
            assert forall|i: int| 0 <= i < cs1.len() implies #[trigger] cs6[i] == cs1[i] by {
                assert(cs6[i] == cs2[i]);
                if self.contained is Some {
                    assert(cs2.take(cs1.len() as int)[i] == cs1[i]);
                }
            }
            assert(cs1.len() == o1 && cs2.len() == o2 && cs3.len() == o3 && cs4.len() == o4
                && cs5.len() == o5);
            if self.contains is Some {
                assert(cs6[0] == cs1[0] && cs1[0] == cs1.last());
            }
            if self.contained is Some {
                assert(cs6[o1] == cs2[o1] && cs2[o1] == cs2.last());
            }
            if has_letters(self.excluded) {
                assert(cs6[o2] == cs3[o2] && cs3[o2] == cs3.last());
            }
            if has_letters(self.included) {
                assert(cs6[o3] == cs4[o3] && cs4[o3] == cs4.last());
            }
            if has_valid_length(self.length) {
                assert(cs6[o4] == cs5[o4] && cs5[o4] == cs5.last());
            }
            if self.oneword is Some {
                assert(cs6[o5] == Check::SingleWord(self.oneword->0));
            }
            assert(query_checks(*self, cs6));
        }
        proof {
            assert forall|e: Entry| e.wf() implies (r.spec_matches(e) <==> query_matches(
                *self,
                e,
            )) by {
                assert(checks_pass(cs1, e) <==> (match self.contains {
                    Some(c) => ms_superset(e.spec_counts(), counts_of(c@)),
                    None => true,
                })) by {
                    if self.contains is Some {
                        assert(cs1 =~= Seq::<Check>::empty().push(cs1.last()));
                        lemma_checks_pass_push(Seq::<Check>::empty(), cs1.last(), e);
                    }
                }
                assert(checks_pass(cs2, e) <==> (checks_pass(cs1, e) && (match self.contained {
                    Some(c) => ms_superset(counts_of(c@), e.spec_counts()),
                    None => true,
                }))) by {
                    if self.contained is Some {
                        assert(cs2 =~= cs1.push(cs2.last()));
                        lemma_checks_pass_push(cs1, cs2.last(), e);
                    }
                }
                assert(checks_pass(cs3, e) <==> (checks_pass(cs2, e) && (match self.excluded {
                    Some(c) => c@.len() > 0 ==> !(exists|j: int|
                        0 <= j < 26 && #[trigger] text_has_letter(c@, j) && text_has_letter(
                            e.spec_word(),
                            j,
                        )),
                    None => true,
                }))) by {
                    match self.excluded {
                        Some(c) => {
                            if c@.len() > 0 {
                                assert(cs3 =~= cs2.push(cs3.last()));
                                lemma_checks_pass_push(cs2, cs3.last(), e);
                                let m = cs3.last()->ExcludeLetters_0;
                                assert(check_passes(cs3.last(), e) <==> !(exists|j: int|
                                    0 <= j < 26 && #[trigger] text_has_letter(c@, j)
                                        && text_has_letter(e.spec_word(), j))) by {
                                    if exists|j: int|
                                        #[trigger] m.has_letter(j) && e.spec_mask().has_letter(j) {
                                        let j = choose|j: int|
                                            #[trigger] m.has_letter(j) && e.spec_mask().has_letter(
                                                j,
                                            );
                                        assert(text_has_letter(c@, j) && text_has_letter(
                                            e.spec_word(),
                                            j,
                                        ));
                                    }
                                    if exists|j: int|
                                        0 <= j < 26 && #[trigger] text_has_letter(c@, j)
                                            && text_has_letter(e.spec_word(), j) {
                                        let j = choose|j: int|
                                            0 <= j < 26 && #[trigger] text_has_letter(c@, j)
                                                && text_has_letter(e.spec_word(), j);
                                        assert(m.has_letter(j) && e.spec_mask().has_letter(j));
                                    }
                                }
                            }
                        },
                        None => {},
                    }
                }
                assert(checks_pass(cs4, e) <==> (checks_pass(cs3, e) && (match self.included {
                    Some(c) => c@.len() > 0 ==> (forall|j: int|
                        0 <= j < 26 && #[trigger] text_has_letter(c@, j) ==> text_has_letter(
                            e.spec_word(),
                            j,
                        )),
                    None => true,
                }))) by {
                    match self.included {
                        Some(c) => {
                            if c@.len() > 0 {
                                assert(cs4 =~= cs3.push(cs4.last()));
                                lemma_checks_pass_push(cs3, cs4.last(), e);
                                let m = cs4.last()->IncludeLetters_0;
                                assert(check_passes(cs4.last(), e) <==> (forall|j: int|
                                    0 <= j < 26 && #[trigger] text_has_letter(c@, j)
                                        ==> text_has_letter(e.spec_word(), j))) by {
                                    if forall|j: int|
                                        #[trigger] m.has_letter(j) ==> e.spec_mask().has_letter(
                                            j,
                                        ) {
                                        assert forall|j: int|
                                            0 <= j < 26 && #[trigger] text_has_letter(c@, j)
                                                implies text_has_letter(e.spec_word(), j) by {
                                            assert(m.has_letter(j));
                                        }
                                    }
                                    if forall|j: int|
                                        0 <= j < 26 && #[trigger] text_has_letter(c@, j)
                                            ==> text_has_letter(e.spec_word(), j) {
                                        assert forall|j: int| #[trigger] m.has_letter(j) implies e.spec_mask().has_letter(
                                            j,
                                        ) by {
                                            assert(0 <= j < 26 && text_has_letter(c@, j));
                                        }
                                    }
                                }
                            }
                        },
                        None => {},
                    }
                }
                assert(checks_pass(cs5, e) <==> (checks_pass(cs4, e) && (match self.length {
                    Some(t) => (match range_of_text(t@) {
                        Some(p) => p.0 <= e.spec_len() && e.spec_len() <= p.1,
                        None => true,
                    }),
                    None => true,
                }))) by {
                    match self.length {
                        Some(t) => {
                            match range_of_text(t@) {
                                Some(p) => {
                                    assert(cs5 =~= cs4.push(cs5.last()));
                                    lemma_checks_pass_push(cs4, cs5.last(), e);
                                },
                                None => {},
                            }
                        },
                        None => {},
                    }
                }
                assert(checks_pass(cs6, e) <==> (checks_pass(cs5, e) && (match self.oneword {
                    Some(w) => e.spec_one_word() == w,
                    None => true,
                }))) by {
                    if self.oneword is Some {
                        lemma_checks_pass_push(cs5, Check::SingleWord(self.oneword->0), e);
                    }
                }
            }
        }
        r
    }
}

/// An anagram breakdown as the endpoint reports it: the query text, the
/// short and long best words with their quality values, and a combined
/// score.
#[derive(Debug)]
pub struct Hit {
    query: String,
    score: usize,
    short: (String, usize),
    long: (String, usize),
}

/// The score of a breakdown: the long word's quality squared plus four
/// times the short word's quality, squared — favouring hits whose short
/// remainder is itself a good word.
pub open spec fn spec_score(short: Quality, long: Quality) -> int {
    spec_quality_value(long) * spec_quality_value(long) + (4 * spec_quality_value(short)) * (4
        * spec_quality_value(short))
}

/// The score of a breakdown.
pub fn score(short: Quality, long: Quality) -> (r: usize)
    ensures
        r == spec_score(short, long),
{
    let s1 = quality_value(long);
    let s2 = quality_value(short) * 4;
    proof {
        assert(s1 <= 3 && s2 <= 12);
        assert(s1 * s1 <= 9) by (nonlinear_arith)
            requires
                s1 <= 3,
        ;
        assert(s2 * s2 <= 144) by (nonlinear_arith)
            requires
                s2 <= 12,
        ;
    }
    s1 * s1 + s2 * s2
}

impl Hit {
    /// The query text.
    pub closed spec fn spec_query(self) -> Seq<char> {
        self.query@
    }

    /// The combined score.
    pub closed spec fn spec_score_of(self) -> int {
        self.score as int
    }

    /// The short word and its quality value.
    pub closed spec fn spec_short(self) -> (Seq<char>, int) {
        (self.short.0@, self.short.1 as int)
    }

    /// The long word and its quality value.
    pub closed spec fn spec_long(self) -> (Seq<char>, int) {
        (self.long.0@, self.long.1 as int)
    }

    /// The query text.
    pub fn query(&self) -> (r: &str)
        ensures
            r@ == self.spec_query(),
    {
        self.query.as_str()
    }

    /// The combined score.
    pub fn score_of(&self) -> (r: usize)
        ensures
            r as int == self.spec_score_of(),
    {
        self.score
    }

    /// The short word and its quality value.
    pub fn short(&self) -> (r: &(String, usize))
        ensures
            r.0@ == self.spec_short().0,
            r.1 as int == self.spec_short().1,
    {
        &self.short
    }

    /// The long word and its quality value.
    pub fn long(&self) -> (r: &(String, usize))
        ensures
            r.0@ == self.spec_long().0,
            r.1 as int == self.spec_long().1,
    {
        &self.long
    }

    /// Flatten one anagram breakdown into its reported form.
    pub fn new(h: AnagramHit) -> (r: Hit)
        ensures
            r.spec_query() == h.query@,
            r.spec_short().0 == h.short.word@,
            r.spec_short().1 == spec_quality_value(h.short.quality),
            r.spec_long().0 == h.long.word@,
            r.spec_long().1 == spec_quality_value(h.long.quality),
            r.spec_score_of() == spec_score(h.short.quality, h.long.quality),
    {
        let sc = score(h.short.quality, h.long.quality);
        let short = (h.short.word, quality_value(h.short.quality));
        let long = (h.long.word, quality_value(h.long.quality));
        Hit { query: h.query, score: sc, short, long }
    }
}

/// Hits with higher scores come first.
pub open spec fn hit_lt(a: Hit, b: Hit) -> bool {
    a.spec_score_of() > b.spec_score_of()
}

/// One reported hit for one pool entry: the best words for the remainder
/// beyond the query and for the entry's whole letters, with their quality
/// values and the combined score.
pub open spec fn hit_represents(lexi: Lexicon, e: Entry, term: Seq<char>, h: Hit) -> bool {
    exists|sq: Quality, lq: Quality|
        {
            &&& h.spec_query() == term
            &&& spec_ranked_parts(lexi, ms_sub(e.spec_counts(), counts_of(term)), h.spec_short().0, sq)
            &&& h.spec_short().1 == spec_quality_value(sq)
            &&& spec_ranked_parts(lexi, e.spec_counts(), h.spec_long().0, lq)
            &&& h.spec_long().1 == spec_quality_value(lq)
            &&& h.spec_score_of() == spec_score(sq, lq)
        }
}

/// The entries of `entries` that the query matches, in order.
pub open spec fn query_filtered(entries: Seq<Entry>, q: SearchQuery) -> Seq<Entry>
    decreases entries.len(),
{
    if entries.len() == 0 {
        Seq::empty()
    } else {
        let p = query_filtered(entries.drop_last(), q);
        if query_matches(q, entries.last()) {
            p.push(entries.last())
        } else {
            p
        }
    }
}

/// A filter meaning `query_matches` on well-formed entries selects
/// exactly the query-matching ones.
proof fn lemma_query_filtered(entries: Seq<Entry>, f: Filter, q: SearchQuery)
    requires
        forall|e: Entry| e.wf() ==> (f.spec_matches(e) <==> query_matches(q, e)),
        forall|i: int| 0 <= i < entries.len() ==> (#[trigger] entries[i]).wf(),
    ensures
        filtered_entries(entries, f) == query_filtered(entries, q),
    decreases entries.len(),
{
    if entries.len() > 0 {
        assert forall|i: int| 0 <= i < entries.drop_last().len() implies (
        #[trigger] entries.drop_last()[i]).wf() by {
            assert(entries.drop_last()[i] == entries[i]);
        }
        lemma_query_filtered(entries.drop_last(), f, q);
        assert(entries.last() == entries[entries.len() - 1]);
        assert(entries.last().wf());
    }
}

/// What the search endpoint returns: with an anagram term, the breakdown
/// hits of the filtered entries sorted by descending score (capped at
/// `MAX_RESULTS` by an oversize refusal); without one, the plain filtered
/// word list, longest first.
pub open spec fn search_results_post(lexi: Lexicon, q: SearchQuery, r: SearchResults) -> bool {
    let entries = lexi.spec_entries();
    match get_contains_spec(q) {
        None => r matches SearchResults::Words { words } && words.deep_view() == words_of(
            sort_by_lt(query_filtered(entries, q), |a: Entry, b: Entry| search_lt(a, b)),
        ),
        Some(term) => {
            let pool = breakdown_pool(query_filtered(entries, q), counts_of(term));
            if pool.len() > MAX_RESULTS {
                r matches SearchResults::Oversize { max_hits } && max_hits == MAX_RESULTS
            } else {
                r matches SearchResults::Anagram { term: t, hits } && t@ == term && (exists|
                    hs: Seq<Hit>,
                |
                    {
                        &&& hs.len() == pool.len()
                        &&& (forall|i: int|
                            0 <= i < hs.len() ==> hit_represents(
                                lexi,
                                pool[i],
                                term,
                                #[trigger] hs[i],
                            ))
                        &&& hits@ == sort_by_lt(hs, |a: Hit, b: Hit| hit_lt(a, b))
                    })
            }
        },
    }
}

/// The search response body.
#[derive(Debug)]
pub enum SearchResults {
    /// A plain list of matching words, longest first, alphabetical among
    /// equals.
    Words { words: Vec<String> },
    /// Anagram breakdowns of the term, best scores first.
    Anagram { term: String, hits: Vec<Hit> },
    /// The search matched more hits than the endpoint will return.
    Oversize { max_hits: usize },
}

/// Answer a search request: with an anagram term of three or more letters,
/// report the breakdowns of every matching entry containing it (unless
/// there are more than `MAX_RESULTS`); otherwise report the matching words
/// themselves.
pub fn search(lexi: &Lexicon, query: &SearchQuery) -> (r: SearchResults)
    requires
        lexi.wf(),
    ensures
        search_results_post(*lexi, *query, r),
{
    let filter = query.to_filter();
    proof {
        lemma_query_filtered(lexi.spec_entries(), filter, *query);
    }
    match query.get_contains() {
        Some(term) => {
            let hits_src = anagram_breakdowns(lexi, &filter, term);
            let ghost pool = breakdown_pool(
                query_filtered(lexi.spec_entries(), *query),
                counts_of(term@),
            );
            if hits_src.len() > MAX_RESULTS {
                return SearchResults::Oversize { max_hits: MAX_RESULTS };
            }
            let term_owned = {
                let t: &str = term;
                t.to_owned()
            };
            let mut keyed: Vec<Keyed<Hit>> = Vec::new();
            let ghost hsrc = hits_src@;
            let mut rem = hits_src;
            let hn = rem.len();
            let mut i: usize = 0;
            proof {
                assert(hsrc.skip(0) =~= hsrc);
            }
            while i < hn
                invariant
                    i <= hn,
                    hn == hsrc.len(),
                    hn == pool.len(),
                    rem@ == hsrc.skip(i as int),
                    keyed@.len() == i as int,
                    term@ == get_contains_spec(*query)->0,
                    forall|k: int|
                        0 <= k < hsrc.len() ==> {
                            let h = #[trigger] hsrc[k];
                            &&& h.query@ == term@
                            &&& crate::queries::spec_ranked_word(
                                *lexi,
                                ms_sub(pool[k].spec_counts(), counts_of(term@)),
                                h.short,
                            )
                            &&& crate::queries::spec_ranked_word(
                                *lexi,
                                pool[k].spec_counts(),
                                h.long,
                            )
                        },
                    forall|k: int|
                        0 <= k < i ==> {
                            let it = #[trigger] keyed@[k];
                            &&& hit_represents(*lexi, pool[k], term@, it.val)
                            &&& it.k1 as int == usize::MAX - it.val.spec_score_of()
                            &&& it.k2 == 0usize
                            &&& it.k3 == 0usize
                            &&& it.word@ =~= Seq::<char>::empty()
                        },
                decreases hn - i,
            {
                proof {
                    assert(rem@[0] == hsrc[i as int]);
                    assert(hsrc.skip(i as int).remove(0) =~= hsrc.skip(i + 1));
                }
                let h = rem.remove(0);
                let ghost sq = h.short.quality;
                let ghost lq = h.long.quality;
                let hit = Hit::new(h);
                let k1 = usize::MAX - hit.score;
                proof {
                    assert(hit_represents(*lexi, pool[i as int], term@, hit));
                }
                keyed.push(Keyed { k1, k2: 0, k3: 0, word: String::new(), val: hit });
                i += 1;
            }
            let ghost hlt = |a: Hit, b: Hit| hit_lt(a, b);
            proof {
                assert forall|x: Keyed<Hit>, z: Keyed<Hit>|
                    #[trigger] keyed@.contains(x) && #[trigger] keyed@.contains(z) implies crate::sorting::keyed_lt(
                    x,
                    z,
                ) == hlt(x.val, z.val) by {
                    let xi = choose|t: int| 0 <= t < keyed@.len() && keyed@[t] == x;
                    let zi = choose|t: int| 0 <= t < keyed@.len() && keyed@[t] == z;
                    assert(!lex_lt(x.word@, z.word@)) by {
                        assert(crate::sorting::lex_le(z.word@, x.word@));
                    }
                }
                lemma_sort_commutes(keyed@, hlt);
            }
            let sorted = sort_keyed(keyed);
            let ghost hs0 = vals_of(keyed@);
            let ghost sh = sort_by_lt(hs0, hlt);
            let ghost sortedv = sorted@;
            let sn = sorted.len();
            let mut rems = sorted;
            let mut hits: Vec<Hit> = Vec::new();
            let mut j: usize = 0;
            proof {
                assert(sortedv.skip(0) =~= sortedv);
                lemma_sort_by_lt_len(hs0, hlt);
            }
            while j < sn
                invariant
                    j <= sn,
                    sn == sortedv.len(),
                    sn == sh.len(),
                    rems@ == sortedv.skip(j as int),
                    vals_of(sortedv) == sh,
                    hits@ =~= sh.take(j as int),
                decreases sn - j,
            {
                proof {
                    assert(rems@[0] == sortedv[j as int]);
                    assert(sortedv.skip(j as int).remove(0) =~= sortedv.skip(j + 1));
                    assert(sh[j as int] == sortedv[j as int].val);
                }
                let kd = rems.remove(0);
                proof {
                    assert(hits@.push(kd.val) =~= sh.take(j + 1));
                }
                hits.push(kd.val);
                j += 1;
            }
            proof {
                assert(sh.take(sn as int) =~= sh);
                assert(hs0.len() == pool.len());
                assert(exists|hs: Seq<Hit>|
                    {
                        &&& hs.len() == pool.len()
                        &&& (forall|i2: int|
                            0 <= i2 < hs.len() ==> hit_represents(
                                *lexi,
                                pool[i2],
                                term@,
                                #[trigger] hs[i2],
                            ))
                        &&& hits@ == sort_by_lt(hs, |a: Hit, b: Hit| hit_lt(a, b))
                    }) by {
                    assert(forall|i2: int|
                        0 <= i2 < hs0.len() ==> hit_represents(
                            *lexi,
                            pool[i2],
                            term@,
                            #[trigger] hs0[i2],
                        ));
                    assert(hits@ == sort_by_lt(hs0, |a: Hit, b: Hit| hit_lt(a, b)));
                }
            }
            SearchResults::Anagram { term: term_owned, hits }
        },
        None => {
            let words = crate::queries::search(lexi, &filter);
            SearchResults::Words { words }
        },
    }
}

/// A countdown request: the drawn letters.
#[derive(Debug, Clone)]
pub struct CountdownQuery {
    pub q: String,
}

/// A countdown answer: the query and the best words found for it.
#[derive(Debug)]
pub struct CountdownResults {
    pub q: String,
    pub words: Vec<String>,
}

/// Answer a countdown request: the ten best words writable with the drawn
/// letters, longest and most popular first.
pub fn countdown(lexi: &Lexicon, query: CountdownQuery) -> (r: CountdownResults)
    ensures
        r.q@ == query.q@,
        ({
            let ws = words_of(
                sort_by_lt(
                    crate::queries::countdown_pool(lexi.spec_entries(), counts_of(query.q@)),
                    |a: Entry, b: Entry| crate::queries::countdown_lt(a, b),
                ),
            );
            let cut = if 10 <= ws.len() {
                10int
            } else {
                ws.len() as int
            };
            r.words.deep_view() == ws.take(cut)
        }),
{
    let all = crate::queries::search_countdown(lexi, query.q.as_str());
    let mut words: Vec<String> = Vec::new();
    let n = all.len();
    let mut i: usize = 0;
    while i < n && i < 10
        invariant
            i <= n,
            i <= 10,
            n == all@.len(),
            words@.len() == i as int,
            forall|k: int| 0 <= k < i ==> (#[trigger] words@[k])@ == all@[k]@,
        decreases n - i,
    {
        words.push(all[i].clone());
        i += 1;
    }
    proof {
        assert(all.deep_view().len() == all@.len());
        assert(words.deep_view() =~= all.deep_view().take(i as int));
    }
    CountdownResults { q: query.q, words }
}

} // verus!
