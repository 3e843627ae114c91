//! The live-preview endpoint: the same longest-subword search as the game
//! endpoint, reported as length groups of `(word, popularity)` pairs, with
//! a short default cap for interactive use.

use crate::anagrams::anagrams_pool;
use crate::game::{longest_subwords, preview_lt, GameType};
use crate::lexi::{spec_rate, Entry, Lexicon, Popularity};
use crate::sorted_letters::counts_of;
use crate::sorting::sort_by_lt;
use vstd::prelude::*;

verus! {

/// A preview request: the query letters, the game aimed at, and an
/// optional cap.
#[derive(Debug, Clone)]
pub struct PreviewQuery {
    pub term: String,
    pub goal: GameType,
    pub limit: Option<usize>,
}

/// A group of words sharing one length, as `(word, popularity)` pairs.
#[derive(Debug, Clone)]
pub struct WordGroup {
    /// Every word in the group has this many characters.
    pub len: usize,
    /// The words of the group, most popular first.
    pub words: Vec<(String, Popularity)>,
}

/// A preview answer: the total hit count, the number shown, and the shown
/// words grouped by length.
#[derive(Debug)]
pub struct PreviewResults {
    pub num_total: usize,
    pub num_shown: usize,
    pub groups: Vec<WordGroup>,
}

/// All the groups' pairs, concatenated in order.
pub open spec fn flatten_pairs(gs: Seq<WordGroup>) -> Seq<(String, Popularity)>
    decreases gs.len(),
{
    if gs.len() == 0 {
        Seq::empty()
    } else {
        flatten_pairs(gs.drop_last()) + gs.last().words@
    }
}

/// The groups represent exactly the shown entries, in order, as in the
/// game endpoint's grouping, but with pair-shaped words.
pub open spec fn pair_groups_represent(gs: Seq<WordGroup>, th: int, shown: Seq<Entry>) -> bool {
    let flat = flatten_pairs(gs);
    &&& flat.len() == shown.len()
    &&& forall|t: int|
        0 <= t < flat.len() ==> (#[trigger] flat[t]).0@ == shown[t].spec_word() && flat[t].1
            == spec_rate(th, shown[t].spec_rank())
    &&& forall|gi: int| 0 <= gi < gs.len() ==> (#[trigger] gs[gi]).words@.len() > 0
    &&& forall|gi: int, t: int|
        0 <= gi < gs.len() && 0 <= t < gs[gi].words@.len() ==> (#[trigger] gs[gi].words@[t]).0@.len()
            == gs[gi].len
    &&& forall|gi: int| 0 <= gi < gs.len() - 1 ==> (#[trigger] gs[gi]).len != gs[gi + 1].len
}

/// What a preview search returns: the longest-subword result, grouped by
/// length as pairs.
pub open spec fn preview_post(lexi: Lexicon, term: Seq<char>, limit: int, r: PreviewResults) -> bool {
    let th = lexi.spec_threshold();
    let pool = anagrams_pool(lexi.spec_entries(), counts_of(term));
    let sorted = sort_by_lt(pool, |a: Entry, b: Entry| preview_lt(th, a, b));
    let cut = if limit < pool.len() {
        limit
    } else {
        pool.len() as int
    };
    &&& r.num_total == pool.len()
    &&& r.num_shown == cut
    &&& pair_groups_represent(r.groups@, th, sorted.take(cut))
}

/// Flattened pair groups match flattened rated groups with the same
/// shape: pointwise equal words and tiers.
proof fn lemma_flatten_matches(gs: Seq<crate::game::WordGroup>, ts: Seq<WordGroup>)
    requires
        gs.len() == ts.len(),
        forall|gi: int|
            0 <= gi < gs.len() ==> {
                let g = #[trigger] gs[gi];
                let t = ts[gi];
                &&& t.len == g.len
                &&& t.words@.len() == g.words@.len()
                &&& forall|k: int|
                    0 <= k < g.words@.len() ==> (#[trigger] t.words@[k]).0 == g.words@[k].word
                        && t.words@[k].1 == g.words@[k].rating
            },
    ensures
        flatten_pairs(ts).len() == crate::game::flatten_groups(gs).len(),
        forall|t: int|
            0 <= t < flatten_pairs(ts).len() ==> (#[trigger] flatten_pairs(ts)[t]).0
                == crate::game::flatten_groups(gs)[t].word && flatten_pairs(ts)[t].1
                == crate::game::flatten_groups(gs)[t].rating,
    decreases gs.len(),
{
    if gs.len() > 0 {
        assert forall|gi: int| 0 <= gi < gs.drop_last().len() implies {
            let g = #[trigger] gs.drop_last()[gi];
            let t = ts.drop_last()[gi];
            &&& t.len == g.len
            &&& t.words@.len() == g.words@.len()
            &&& forall|k: int|
                0 <= k < g.words@.len() ==> (#[trigger] t.words@[k]).0 == g.words@[k].word
                    && t.words@[k].1 == g.words@[k].rating
        } by {
            assert(gs.drop_last()[gi] == gs[gi]);
            assert(ts.drop_last()[gi] == ts[gi]);
        }
        lemma_flatten_matches(gs.drop_last(), ts.drop_last());
        assert(gs.last() == gs[gs.len() - 1]);
        assert(ts.last() == ts[ts.len() - 1]);
    }
}

/// Run the longest-subword search and report it as pair groups.
fn do_search(term: &str, limit: usize, lexi: &Lexicon) -> (r: PreviewResults)
    ensures
        preview_post(*lexi, term@, limit as int, r),
{
    let cr = longest_subwords(term, limit, lexi);
    let num_total = cr.num_total;
    let num_shown = cr.num_shown;
    let ghost th = lexi.spec_threshold();
    let ghost shown = sort_by_lt(
        anagrams_pool(lexi.spec_entries(), counts_of(term@)),
        |a: Entry, b: Entry| preview_lt(th, a, b),
    ).take(
        if (limit as int) < anagrams_pool(lexi.spec_entries(), counts_of(term@)).len() {
            limit as int
        } else {
            anagrams_pool(lexi.spec_entries(), counts_of(term@)).len() as int
        },
    );
    let groups_src = match cr.results {
        crate::game::SearchResults::WordsByLength { groups } => groups,
        crate::game::SearchResults::Anagrams { .. } => {
            proof {
                assert(false);
            }
            unreached()
        },
    };
    let ghost gsrc = groups_src@;
    let mut rem = groups_src;
    let mut groups: Vec<WordGroup> = Vec::new();
    let gn = rem.len();
    let mut gi: usize = 0;
    proof {
        assert(gsrc.skip(0) =~= gsrc);
    }
    while gi < gn
        invariant
            gi <= gn,
            gn == gsrc.len(),
            rem@ == gsrc.skip(gi as int),
            groups@.len() == gi as int,
            forall|g: int|
                0 <= g < gi ==> {
                    let s = #[trigger] gsrc[g];
                    let t = groups@[g];
                    &&& t.len == s.len
                    &&& t.words@.len() == s.words@.len()
                    &&& forall|k: int|
                        0 <= k < s.words@.len() ==> (#[trigger] t.words@[k]).0 == s.words@[k].word
                            && t.words@[k].1 == s.words@[k].rating
                },
        decreases gn - gi,
    {
        proof {
            assert(rem@[0] == gsrc[gi as int]);
            assert(gsrc.skip(gi as int).remove(0) =~= gsrc.skip(gi + 1));
        }
        let g = rem.remove(0);
        let glen = g.len;
        let ghost gwords = g.words@;
        let mut wrem = g.words;
        let mut pairs: Vec<(String, Popularity)> = Vec::new();
        let wn = wrem.len();
        let mut k: usize = 0;
        proof {
            assert(gwords.skip(0) =~= gwords);
        }
        while k < wn
            invariant
                k <= wn,
                wn == gwords.len(),
                wrem@ == gwords.skip(k as int),
                pairs@.len() == k as int,
                forall|t: int|
                    0 <= t < k ==> (#[trigger] pairs@[t]).0 == gwords[t].word && pairs@[t].1
                        == gwords[t].rating,
            decreases wn - k,
        {
            proof {
                assert(wrem@[0] == gwords[k as int]);
                assert(gwords.skip(k as int).remove(0) =~= gwords.skip(k + 1));
            }
            let w = wrem.remove(0);
            pairs.push((w.word, w.rating));
            k += 1;
        }
        groups.push(WordGroup { len: glen, words: pairs });
        gi += 1;
    }
    proof {
        lemma_flatten_matches(gsrc, groups@);
        assert(crate::game::groups_represent(gsrc, th, shown));
        let flat_g = crate::game::flatten_groups(gsrc);
        let flat_t = flatten_pairs(groups@);
        assert forall|t: int| 0 <= t < flat_t.len() implies (#[trigger] flat_t[t]).0@
            == shown[t].spec_word() && flat_t[t].1 == spec_rate(th, shown[t].spec_rank()) by {
            assert(flat_t[t].0 == flat_g[t].word && flat_t[t].1 == flat_g[t].rating);
        }
        assert forall|g: int| 0 <= g < groups@.len() implies (#[trigger] groups@[g]).words@.len()
            > 0 by {
            assert(gsrc[g].words@.len() > 0);
        }
        assert forall|g: int, k: int|
            0 <= g < groups@.len() && 0 <= k < groups@[g].words@.len() implies (
        #[trigger] groups@[g].words@[k]).0@.len() == groups@[g].len by {
            assert(gsrc[g].words@[k].word@.len() == gsrc[g].len);
            assert(groups@[g].words@[k].0 == gsrc[g].words@[k].word);
        }
        assert forall|g: int| 0 <= g < groups@.len() - 1 implies (#[trigger] groups@[g]).len
            != groups@[g + 1].len by {
            assert(gsrc[g].len != gsrc[g + 1].len);
        }
        assert(pair_groups_represent(groups@, th, shown));
    }
    PreviewResults { num_total, num_shown, groups }
}

/// A short preview of the search results for live display: at most ten
/// words, grouped by length.
pub fn get_preview(lexi: &Lexicon, query: &PreviewQuery) -> (r: PreviewResults)
    ensures
        preview_post(*lexi, query.term@, 10, r),
{
    do_search(query.term.as_str(), 10, lexi)
}

/// The full search results, grouped by length.
pub fn search(lexi: &Lexicon, query: &PreviewQuery) -> (r: PreviewResults)
    ensures
        preview_post(*lexi, query.term@, usize::MAX as int, r),
{
    do_search(query.term.as_str(), usize::MAX, lexi)
}

} // verus!
