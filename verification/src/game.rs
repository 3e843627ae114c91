//! Game-oriented search endpoints: the longest-subword search grouped by
//! word length, and the full anagram decomposition search, both with total
//! and shown result counts.

use crate::anagrams::{
    anagrams, anagrams_lt, anagrams_pool, emittable, idx_lex_lt, lemma_anagrams_pool_contains,
    lemma_complete_uses_all, lemma_seq_sum_matches_entries, seq_sum, sum_counts,
};
use crate::lexi::{spec_rate, Entry, Lexicon, Popularity, popularity_value, spec_popularity_value};
use crate::sorted_letters::{counts_of, ms_add, ms_superset, ms_zero};
use crate::sorting::{
    lemma_sort_by_lt_contains, lemma_sort_by_lt_len, lemma_sort_commutes, lex_lt, sort_by_lt,
    sort_keyed, vals_of, Keyed,
};
use vstd::prelude::*;

verus! {

/// A word game that moves can be suggested for.
#[derive(Debug, Clone, Copy, PartialEq, Eq)]
pub enum GameType {
    /// Find the longest words.
    Countdown,
    /// Find the longest words.
    Connect,
    /// Find anagram decompositions of the given letters.
    Anagram,
    /// Find words that extend the given word by one letter.
    GhostGame,
}

/// A search request: the query letters, the game searched for, and an
/// optional cap on the number of results shown.
#[derive(Debug, Clone)]
pub struct SearchQuery {
    pub term: String,
    pub game_type: GameType,
    pub limit: Option<usize>,
}

/// A word with its popularity tier.
#[derive(Debug, Clone)]
pub struct RatedWord {
    pub word: String,
    pub rating: Popularity,
}

/// A group of words sharing one length, most popular first.
#[derive(Debug, Clone)]
pub struct WordGroup {
    /// Every word in the group has this many characters.
    pub len: usize,
    /// The words of the group.
    pub words: Vec<RatedWord>,
}

/// One way to decompose the query's letters into lexicon words.
#[derive(Debug, Clone)]
pub struct Decomposition {
    pub words: Vec<RatedWord>,
}

/// The body of a search response.
#[derive(Debug)]
pub enum SearchResults {
    /// Words grouped by length, longest first.
    WordsByLength { groups: Vec<WordGroup> },
    /// Complete anagram decompositions.
    Anagrams { anagrams: Vec<Decomposition> },
}

/// A search response with its counts: how many results the search found
/// and how many are shown after the cap.
#[derive(Debug)]
pub struct CountedResults {
    pub num_total: usize,
    pub num_shown: usize,
    pub results: SearchResults,
}

/// The longest-subword order: longer words first, then more popular ones.
pub open spec fn preview_lt(th: int, a: Entry, b: Entry) -> bool {
    ||| a.spec_word().len() > b.spec_word().len()
    ||| (a.spec_word().len() == b.spec_word().len() && spec_popularity_value(
        spec_rate(th, a.spec_rank()),
    ) > spec_popularity_value(spec_rate(th, b.spec_rank())))
}

/// All the groups' words, concatenated in order.
pub open spec fn flatten_groups(gs: Seq<WordGroup>) -> Seq<RatedWord>
    decreases gs.len(),
{
    if gs.len() == 0 {
        Seq::empty()
    } else {
        flatten_groups(gs.drop_last()) + gs.last().words@
    }
}

/// The groups represent exactly the shown entries, in order: flattened
/// they list every shown word with its tier, each group is a non-empty run
/// of one length, and neighbouring groups have different lengths — which
/// pins the grouping down uniquely.
pub open spec fn groups_represent(gs: Seq<WordGroup>, th: int, shown: Seq<Entry>) -> bool {
    let flat = flatten_groups(gs);
    &&& flat.len() == shown.len()
    &&& forall|t: int|
        0 <= t < flat.len() ==> (#[trigger] flat[t]).word@ == shown[t].spec_word() && flat[t].rating
            == spec_rate(th, shown[t].spec_rank())
    &&& forall|gi: int| 0 <= gi < gs.len() ==> (#[trigger] gs[gi]).words@.len() > 0
    &&& forall|gi: int, t: int|
        0 <= gi < gs.len() && 0 <= t < gs[gi].words@.len() ==> (#[trigger] gs[gi].words@[t]).word@.len()
            == gs[gi].len
    &&& forall|gi: int| 0 <= gi < gs.len() - 1 ==> (#[trigger] gs[gi]).len != gs[gi + 1].len
}

/// What the longest-subword search returns: the single-word entries
/// fitting within the term's letters, sorted longest first and most
/// popular first among equal lengths, cut to the limit, grouped by length.
pub open spec fn longest_subwords_post(
    lexi: Lexicon,
    term: Seq<char>,
    limit: int,
    r: CountedResults,
) -> bool {
    let th = lexi.spec_threshold();
    let pool = anagrams_pool(lexi.spec_entries(), counts_of(term));
    let sorted = sort_by_lt(pool, |a: Entry, b: Entry| preview_lt(th, a, b));
    let cut = if limit < pool.len() {
        limit
    } else {
        pool.len() as int
    };
    &&& r.num_total == pool.len()
    &&& r.num_shown == cut
    &&& r.results matches SearchResults::WordsByLength { groups } && groups_represent(
        groups@,
        th,
        sorted.take(cut),
    )
}

/// The combined letter multiset of a sequence of rated words.
pub open spec fn sum_word_counts(ws: Seq<RatedWord>) -> Seq<int>
    decreases ws.len(),
{
    if ws.len() == 0 {
        ms_zero()
    } else {
        ms_add(sum_word_counts(ws.drop_last()), counts_of(ws.last().word@))
    }
}

/// The least popularity value among the words, and zero for no words: a
/// decomposition is only as good as its least popular word.
pub open spec fn deco_min_rating(ws: Seq<RatedWord>) -> int
    decreases ws.len(),
{
    if ws.len() == 0 {
        0
    } else if ws.len() == 1 {
        spec_popularity_value(ws.last().rating)
    } else {
        let p = deco_min_rating(ws.drop_last());
        let v = spec_popularity_value(ws.last().rating);
        if v < p {
            v
        } else {
            p
        }
    }
}

/// The decomposition order: the one whose weakest word is more popular
/// first, and among those the one with fewer words first.
pub open spec fn deco_lt(a: Decomposition, b: Decomposition) -> bool {
    ||| deco_min_rating(a.words@) > deco_min_rating(b.words@)
    ||| (deco_min_rating(a.words@) == deco_min_rating(b.words@) && a.words@.len() < b.words@.len())
}

/// `comp` lists exactly the complete decompositions the enumerator owes
/// over the candidates, in emission order: its members are every owed
/// complete position sequence over `entries`, each exactly once, and the
/// strictly ascending prefix-lexicographic order pins the list down
/// uniquely.
pub open spec fn complete_emissions(
    entries: Seq<Entry>,
    target: Seq<int>,
    comp: Seq<Seq<int>>,
) -> bool {
    &&& forall|i: int| 0 <= i < comp.len() - 1 ==> idx_lex_lt(#[trigger] comp[i], comp[i + 1])
    &&& forall|s: Seq<int>|
        #[trigger] comp.contains(s) ==> emittable(entries, target, s) && seq_sum(entries, s)
            == target
    &&& forall|s: Seq<int>|
        emittable(entries, target, s) && #[trigger] seq_sum(entries, s) == target
            ==> comp.contains(s)
}

/// Each found decomposition lists, in order, the words and tiers of the
/// candidates at its emission's positions.
pub open spec fn found_represents(
    lexi: Lexicon,
    entries: Seq<Entry>,
    comp: Seq<Seq<int>>,
    found: Seq<Decomposition>,
) -> bool {
    &&& found.len() == comp.len()
    &&& forall|i: int|
        0 <= i < found.len() ==> {
            let ws = (#[trigger] found[i]).words@;
            let idxs = comp[i];
            &&& ws.len() == idxs.len()
            &&& forall|k: int|
                0 <= k < ws.len() ==> (#[trigger] ws[k]).word@ == entries[idxs[k]].spec_word()
                    && ws[k].rating == spec_rate(lexi.spec_threshold(), entries[idxs[k]].spec_rank())
        }
}

/// One admissible pair of witnesses for the anagram search: `comp` is the
/// uniquely determined emission-ordered list of every owed complete
/// decomposition over the sorted candidate pool, `found` renders each as
/// rated words, there are `num_total` of them, and the shown list is their
/// stable sort by `deco_lt`, cut to `num_shown`.
pub open spec fn anagram_search_witness(
    lexi: Lexicon,
    term: Seq<char>,
    num_total: int,
    num_shown: int,
    shown: Seq<Decomposition>,
    comp: Seq<Seq<int>>,
    found: Seq<Decomposition>,
) -> bool {
    let pool_sorted = sort_by_lt(
        anagrams_pool(lexi.spec_entries(), counts_of(term)),
        |a: Entry, b: Entry| anagrams_lt(lexi.spec_threshold(), a, b),
    );
    &&& complete_emissions(pool_sorted, counts_of(term), comp)
    &&& found_represents(lexi, pool_sorted, comp, found)
    &&& found.len() == num_total
    &&& shown == sort_by_lt(found, |a: Decomposition, b: Decomposition| deco_lt(a, b)).take(
        num_shown,
    )
}

/// What the anagram decomposition search returns: `found` is exactly the
/// complete decompositions of the term's letters over the sorted candidate
/// pool, one per bag, in the enumerator's emission order; `num_total` is
/// their number; the shown list is their stable sort by `deco_lt` (the
/// decomposition whose weakest word is most popular first, fewer words
/// breaking ties, emission order after that), cut to the limit.
pub open spec fn anagram_search_post(
    lexi: Lexicon,
    term: Seq<char>,
    limit: int,
    r: CountedResults,
) -> bool {
    &&& r.num_shown == (if limit < r.num_total {
        limit as int
    } else {
        r.num_total as int
    })
    &&& r.results matches SearchResults::Anagrams { anagrams } && {
        &&& anagrams@.len() == r.num_shown
        &&& forall|i: int|
            0 <= i < anagrams@.len() ==> sum_word_counts(#[trigger] anagrams@[i].words@)
                =~= counts_of(term)
        &&& exists|comp: Seq<Seq<int>>, found: Seq<Decomposition>|
            anagram_search_witness(
                lexi,
                term,
                r.num_total as int,
                r.num_shown as int,
                anagrams@,
                comp,
                found,
            )
    }
}

/// Matching words and rated words carry the same letters.
proof fn lemma_sum_counts_matches(words: Seq<Entry>, rated: Seq<RatedWord>)
    requires
        words.len() == rated.len(),
        forall|k: int|
            0 <= k < words.len() ==> (#[trigger] rated[k]).word@ == words[k].spec_word()
                && words[k].spec_counts() == counts_of(words[k].spec_word()),
    ensures
        sum_word_counts(rated) == sum_counts(words),
    decreases words.len(),
{
    if words.len() > 0 {
        lemma_sum_counts_matches(words.drop_last(), rated.drop_last());
        assert(rated.last().word@ == words.last().spec_word());
    }
}

/// The longest words that can be written with the letters of `term`:
/// single-word entries fitting within that multiset, sorted longest and
/// most popular first, cut to `limit`, grouped by length.
pub fn longest_subwords(term: &str, limit: usize, lexi: &Lexicon) -> (r: CountedResults)
    ensures
        longest_subwords_post(*lexi, term@, limit as int, r),
{
    let letters = crate::sorted_letters::SortedLetters::from_word(term);
    let all = lexi.entries();
    let mut pool: Vec<Entry> = Vec::new();
    let n = all.len();
    let mut i: usize = 0;
    proof {
        assert(all@.take(0) =~= Seq::<Entry>::empty());
    }
    while i < n
        invariant
            i <= n,
            n == all@.len(),
            letters@ == counts_of(term@),
            all@ == lexi.spec_entries(),
            pool@ == anagrams_pool(all@.take(i as int), letters@),
        decreases n - i,
    {
        proof {
            assert(all@.take(i + 1).drop_last() =~= all@.take(i as int));
            assert(all@.take(i + 1).last() == all@[i as int]);
        }
        let e = &all[i];
        if e.letters().is_subset(&letters) && e.is_single_word() {
            pool.push(e.duplicate());
        }
        i += 1;
    }
    proof {
        assert(all@.take(n as int) =~= all@);
    }
    let num_total = pool.len();
    let mut keyed: Vec<Keyed<Entry>> = Vec::new();
    let pn = pool.len();
    let mut i2: usize = 0;
    while i2 < pn
        invariant
            i2 <= pn,
            pn == pool@.len(),
            keyed@.len() == i2 as int,
            forall|k: int|
                0 <= k < i2 ==> {
                    let it = #[trigger] keyed@[k];
                    &&& it.val == pool@[k]
                    &&& it.k1 as int == usize::MAX - it.val.spec_word().len()
                    &&& it.k2 as int == 3 - spec_popularity_value(
                        spec_rate(lexi.spec_threshold(), it.val.spec_rank()),
                    )
                    &&& it.k3 == 0usize
                    &&& it.word@ =~= Seq::<char>::empty()
                },
        decreases pn - i2,
    {
        let e = pool[i2].duplicate();
        let wlen = e.word().unicode_len();
        let k1 = usize::MAX - wlen;
        let v = popularity_value(lexi.rate(&e));
        let k2 = 3 - v;
        keyed.push(Keyed { k1, k2, k3: 0, word: String::new(), val: e });
        i2 += 1;
    }
    let ghost th = lexi.spec_threshold();
    let ghost lt = |a: Entry, b: Entry| preview_lt(th, a, b);
    proof {
        assert forall|x: Keyed<Entry>, z: Keyed<Entry>|
            #[trigger] keyed@.contains(x) && #[trigger] keyed@.contains(z) implies crate::sorting::keyed_lt(
            x,
            z,
        ) == lt(x.val, z.val) by {
            let xi = choose|t: int| 0 <= t < keyed@.len() && keyed@[t] == x;
            let zi = choose|t: int| 0 <= t < keyed@.len() && keyed@[t] == z;
            assert(!lex_lt(x.word@, z.word@)) by {
                assert(crate::sorting::lex_le(z.word@, x.word@));
            }
        }
        lemma_sort_commutes(keyed@, lt);
        assert(vals_of(keyed@) =~= pool@);
        lemma_sort_by_lt_len(pool@, lt);
    }
    let sorted = sort_keyed(keyed);
    let ghost se = sort_by_lt(pool@, lt);
    let sn = sorted.len();
    let mut groups: Vec<WordGroup> = Vec::new();
    let mut j: usize = 0;
    while j < sn && j < limit
        invariant
            j <= sn,
            j as int <= limit as int,
            sn == sorted@.len(),
            sn == se.len(),
            vals_of(sorted@) == se,
            th == lexi.spec_threshold(),
            groups_represent(groups@, th, se.take(j as int)),
            flatten_groups(groups@).len() == j as int,
            j > 0 && groups@.len() > 0 ==> groups@.last().len as int == se[j - 1].spec_word().len(),
            j > 0 ==> groups@.len() > 0,
        decreases sn - j,
    {
        let ghost gstart = groups@;
        let ghost flat0 = flatten_groups(gstart);
        let e = &sorted[j].val;
        let wlen = e.word().unicode_len();
        let rating = lexi.rate(e);
        let rw = RatedWord { word: e.word().to_owned(), rating };
        let ghost grw = rw;
        proof {
            assert(se.take(j + 1).drop_last() =~= se.take(j as int));
            assert(se[j as int] == sorted@[j as int].val);
        }
        if groups.len() == 0 || groups[groups.len() - 1].len != wlen {
            let mut ws: Vec<RatedWord> = Vec::new();
            ws.push(rw);
            let g = WordGroup { len: wlen, words: ws };
            groups.push(g);
            proof {
                assert(groups@.drop_last() =~= gstart);
                assert(groups@.last().words@ =~= seq![grw]);
                assert(flatten_groups(groups@) == flatten_groups(groups@.drop_last())
                    + groups@.last().words@);
                assert(flatten_groups(groups@) =~= flat0.push(grw));
            }
        } else {
            let mut g = match groups.pop() {
                Some(g) => g,
                None => {
                    proof {
                        assert(false);
                    }
                    unreached()
                },
            };
            g.words.push(rw);
            groups.push(g);
            proof {
                assert(groups@.drop_last() =~= gstart.drop_last());
                assert(groups@.last().words@ =~= gstart.last().words@.push(grw));
                assert(flatten_groups(gstart) == flatten_groups(gstart.drop_last())
                    + gstart.last().words@);
                assert(flatten_groups(groups@) == flatten_groups(groups@.drop_last())
                    + groups@.last().words@);
                assert(flatten_groups(groups@) =~= flat0.push(grw));
            }
        }
        proof {
            let flat = flatten_groups(groups@);
            assert(flat =~= flat0.push(grw));
            assert(flat.len() == j + 1);
            assert(flat[j as int] == grw);
            assert forall|t: int| 0 <= t < flat.len() implies (#[trigger] flat[t]).word@
                == se.take(j + 1)[t].spec_word() && flat[t].rating == spec_rate(
                th,
                se.take(j + 1)[t].spec_rank(),
            ) by {
                if t < j {
                    assert(flat[t] == flat0[t]);
                    assert(se.take(j as int)[t] == se.take(j + 1)[t]);
                }
            }
            assert forall|gi: int, t: int|
                0 <= gi < groups@.len() && 0 <= t < groups@[gi].words@.len() implies (
            #[trigger] groups@[gi].words@[t]).word@.len() == groups@[gi].len by {
                if gi < gstart.len() {
                    if gi < gstart.len() - 1 {
                        assert(groups@[gi] == gstart[gi]);
                    }
                }
            }
        }
        j += 1;
    }
    proof {
        if limit < pn {
        } else {
            assert(se.take(sn as int) =~= se);
        }
    }
    CountedResults {
        num_total,
        num_shown: j,
        results: SearchResults::WordsByLength { groups },
    }
}

/// All ways to tile the letters of `term` with single lexicon words: run
/// the enumerator to exhaustion, keep the complete decompositions, rate
/// each word, sort so that decompositions whose weakest word is most
/// popular come first (fewest words breaking ties, the enumerator's order
/// after that), and cut to `limit`.
#[verifier::rlimit(60)]
pub fn anagram_search(term: &str, limit: usize, lexi: &Lexicon) -> (r: CountedResults)
    requires
        lexi.wf(),
    ensures
        anagram_search_post(*lexi, term@, limit as int, r),
{
    let mut m = anagrams(term, lexi);
    let mut found: Vec<Decomposition> = Vec::new();
    let ghost target = counts_of(term@);
    let ghost ents = m.spec_entries();
    let ghost mut comp: Seq<Seq<int>> = Seq::empty();
    proof {
        assert forall|z: Entry| #[trigger] m.spec_entries().contains(z) implies z.wf() by {
            let pool = anagrams_pool(lexi.spec_entries(), target);
            let lt0 = |a: Entry, b: Entry| anagrams_lt(lexi.spec_threshold(), a, b);
            lemma_sort_by_lt_contains(pool, lt0, z);
            lemma_anagrams_pool_contains(lexi.spec_entries(), target, z);
            let k = choose|k: int|
                0 <= k < lexi.spec_entries().len() && lexi.spec_entries()[k] == z;
        }
    }
    let mut done = false;
    while !done
        invariant
            m.wf(),
            m.spec_target() == target,
            m.spec_entries() == ents,
            target == counts_of(term@),
            target.len() == 26,
            forall|z: Entry| #[trigger] m.spec_entries().contains(z) ==> z.wf(),
            comp.len() == found@.len(),
            forall|i: int| 0 <= i < comp.len() - 1 ==> idx_lex_lt(#[trigger] comp[i], comp[i + 1]),
            forall|s: Seq<int>|
                #[trigger] comp.contains(s) ==> m.spec_emitted().contains(s) && emittable(
                    ents,
                    target,
                    s,
                ) && seq_sum(ents, s) == target,
            forall|s: Seq<int>|
                #[trigger] m.spec_emitted().contains(s) && seq_sum(ents, s) == target
                    ==> comp.contains(s),
            forall|i: int|
                0 <= i < found@.len() ==> {
                    let ws = (#[trigger] found@[i]).words@;
                    let idxs = comp[i];
                    &&& ws.len() == idxs.len()
                    &&& forall|k: int|
                        0 <= k < ws.len() ==> (#[trigger] ws[k]).word@ == ents[idxs[k]].spec_word()
                            && ws[k].rating == spec_rate(
                            lexi.spec_threshold(),
                            ents[idxs[k]].spec_rank(),
                        )
                },
            forall|i: int|
                0 <= i < found@.len() ==> sum_word_counts(#[trigger] found@[i].words@) =~= target,
            done ==> forall|s: Seq<int>|
                #[trigger] emittable(ents, target, s) ==> m.spec_emitted().contains(s),
        decreases m.measure(), (if done {
            0int
        } else {
            1int
        }),
    {
        let ghost em0 = m.spec_emitted();
        match m.next() {
            None => {
                done = true;
            },
            Some((words, residue)) => {
                let ghost em1 = m.spec_emitted();
                let ghost idxs = em1.last();
                proof {
                    assert(em1 == em0.push(idxs));
                    crate::sorted_letters::lemma_counts_shape(residue);
                    assert forall|t2: int| 0 <= t2 < words@.len() implies (
                    #[trigger] words@[t2]).wf() by {
                        assert(words@[t2] == ents[idxs[t2]]);
                        assert(ents.contains(words@[t2]));
                    }
                    lemma_seq_sum_matches_entries(ents, idxs, words@);
                }
                if residue.is_empty() {
                    proof {
                        lemma_complete_uses_all(words@, residue@, target);
                        assert(seq_sum(ents, idxs) == target);
                    }
                    let mut rated: Vec<RatedWord> = Vec::new();
                    let wn = words.len();
                    let mut k: usize = 0;
                    while k < wn
                        invariant
                            k <= wn,
                            wn == words@.len(),
                            rated@.len() == k as int,
                            forall|t2: int|
                                0 <= t2 < k ==> (#[trigger] rated@[t2]).word@
                                    == words@[t2].spec_word() && rated@[t2].rating == spec_rate(
                                    lexi.spec_threshold(),
                                    words@[t2].spec_rank(),
                                ),
                        decreases wn - k,
                    {
                        let e = &words[k];
                        rated.push(RatedWord { word: e.word().to_owned(), rating: lexi.rate(e) });
                        k += 1;
                    }
                    proof {
                        lemma_sum_counts_matches(words@, rated@);
                        // the new emission extends the ascending history,
                        // so it sits above everything collected so far
                        if comp.len() > 0 {
                            assert(comp.contains(comp[comp.len() - 1])) by {
                                assert(comp[comp.len() - 1] == comp[comp.len() - 1]);
                            }
                            let i0 = choose|i0: int| 0 <= i0 < em0.len() && em0[i0] == comp[comp.len() - 1];
                            assert(em1[i0] == em0[i0]);
                            m.lemma_emissions_ordered(i0, em1.len() - 1);
                        }
                        // the emission is itself owed: valid, complete,
                        // with no complete proper prefix
                        assert(emittable(ents, target, idxs)) by {
                            assert(ms_superset(target, seq_sum(ents, idxs)));
                        }
                        let ghost comp1 = comp.push(idxs);
                        assert(em1.contains(idxs)) by {
                            assert(em1[em1.len() - 1] == idxs);
                        }
                        assert forall|s: Seq<int>| #[trigger] comp1.contains(s) implies em1.contains(
                            s,
                        ) && emittable(ents, target, s) && seq_sum(ents, s) == target by {
                            let i2 = choose|i2: int| 0 <= i2 < comp1.len() && comp1[i2] == s;
                            if i2 < comp.len() {
                                assert(comp[i2] == s);
                                assert(comp.contains(s));
                                let i3 = choose|i3: int| 0 <= i3 < em0.len() && em0[i3] == s;
                                assert(em1[i3] == s);
                            }
                        }
                        assert forall|s: Seq<int>|
                            #[trigger] em1.contains(s) && seq_sum(ents, s) == target implies comp1.contains(
                            s,
                        ) by {
                            let i2 = choose|i2: int| 0 <= i2 < em1.len() && em1[i2] == s;
                            if i2 < em0.len() {
                                assert(em0[i2] == s);
                                assert(em0.contains(s));
                                assert(comp.contains(s));
                                let i3 = choose|i3: int| 0 <= i3 < comp.len() && comp[i3] == s;
                                assert(comp1[i3] == s);
                            } else {
                                assert(comp1[comp1.len() - 1] == idxs);
                            }
                        }
                        assert forall|i2: int| 0 <= i2 < comp1.len() - 1 implies idx_lex_lt(
                            #[trigger] comp1[i2],
                            comp1[i2 + 1],
                        ) by {
                            if i2 < comp.len() - 1 {
                                assert(comp1[i2] == comp[i2] && comp1[i2 + 1] == comp[i2 + 1]);
                            } else {
                                assert(comp1[i2] == comp[comp.len() - 1] && comp1[i2 + 1] == idxs);
                            }
                        }
                        comp = comp1;
                    }
                    found.push(Decomposition { words: rated });
                } else {
                    proof {
                        // a nonempty residue means the sum falls short of
                        // the target, so nothing new is complete
                        let j = choose|j: int| 0 <= j < 26 && residue@[j] != 0;
                        assert(seq_sum(ents, idxs)[j] != target[j]);
                        assert(seq_sum(ents, idxs) != target);
                        assert forall|s: Seq<int>|
                            #[trigger] em1.contains(s) && seq_sum(ents, s) == target implies comp.contains(
                            s,
                        ) by {
                            let i2 = choose|i2: int| 0 <= i2 < em1.len() && em1[i2] == s;
                            if i2 < em0.len() {
                                assert(em0[i2] == s);
                                assert(em0.contains(s));
                            }
                        }
                        assert forall|s: Seq<int>| #[trigger] comp.contains(s) implies em1.contains(
                            s,
                        ) && emittable(ents, target, s) && seq_sum(ents, s) == target by {
                            let i3 = choose|i3: int| 0 <= i3 < em0.len() && em0[i3] == s;
                            assert(em1[i3] == s);
                        }
                    }
                }
            },
        }
    }
    let num_total = found.len();
    let ghost foundv = found@;
    let mut rem = found;
    let mut keyed: Vec<Keyed<Decomposition>> = Vec::new();
    let fn_ = num_total;
    let mut i: usize = 0;
    proof {
        assert(foundv.skip(0) =~= foundv);
    }
    while i < fn_
        invariant
            i <= fn_,
            fn_ == foundv.len(),
            rem@ == foundv.skip(i as int),
            keyed@.len() == i as int,
            forall|k: int|
                0 <= k < i ==> {
                    let it = #[trigger] keyed@[k];
                    &&& it.val == foundv[k]
                    &&& it.k1 as int == 3 - deco_min_rating(it.val.words@)
                    &&& it.k2 as int == it.val.words@.len()
                    &&& it.k3 == 0usize
                    &&& it.word@ =~= Seq::<char>::empty()
                },
        decreases fn_ - i,
    {
        let wn = rem[0].words.len();
        let mut mr: usize = 0;
        let mut k: usize = 0;
        while k < wn
            invariant
                k <= wn,
                rem@.len() > 0,
                wn == rem@[0].words@.len(),
                mr as int == deco_min_rating(rem@[0].words@.take(k as int)),
                mr <= 3,
            decreases wn - k,
        {
            proof {
                assert(rem@[0].words@.take(k + 1).drop_last() =~= rem@[0].words@.take(k as int));
                assert(rem@[0].words@.take(k + 1).last() == rem@[0].words@[k as int]);
            }
            let v = popularity_value(rem[0].words[k].rating);
            if k == 0 {
                mr = v;
            } else if v < mr {
                mr = v;
            }
            k += 1;
        }
        proof {
            assert(rem@[0].words@.take(wn as int) =~= rem@[0].words@);
            assert(rem@[0] == foundv[i as int]);
            assert(foundv.skip(i as int).remove(0) =~= foundv.skip(i + 1));
        }
        let k1 = 3 - mr;
        let d = rem.remove(0);
        let k2 = d.words.len();
        keyed.push(Keyed { k1, k2, k3: 0, word: String::new(), val: d });
        i += 1;
    }
    let ghost dlt = |a: Decomposition, b: Decomposition| deco_lt(a, b);
    proof {
        assert forall|x: Keyed<Decomposition>, z: Keyed<Decomposition>|
            #[trigger] keyed@.contains(x) && #[trigger] keyed@.contains(z) implies crate::sorting::keyed_lt(
            x,
            z,
        ) == dlt(x.val, z.val) by {
            let xi = choose|t: int| 0 <= t < keyed@.len() && keyed@[t] == x;
            let zi = choose|t: int| 0 <= t < keyed@.len() && keyed@[t] == z;
            assert(!lex_lt(x.word@, z.word@)) by {
                assert(crate::sorting::lex_le(z.word@, x.word@));
            }
        }
        lemma_sort_commutes(keyed@, dlt);
        assert(vals_of(keyed@) =~= foundv);
        lemma_sort_by_lt_len(foundv, dlt);
    }
    let sorted = sort_keyed(keyed);
    let ghost sd = sort_by_lt(foundv, dlt);
    let ghost sortedv = sorted@;
    let sn = sorted.len();
    let mut rems = sorted;
    let mut shown: Vec<Decomposition> = Vec::new();
    let mut j: usize = 0;
    proof {
        assert(sortedv.skip(0) =~= sortedv);
    }
    while j < sn && j < limit
        invariant
            j <= sn,
            j <= limit,
            sn == sortedv.len(),
            sn == sd.len(),
            rems@ == sortedv.skip(j as int),
            vals_of(sortedv) == sd,
            shown@ =~= sd.take(j as int),
        decreases sn - j,
    {
        proof {
            assert(rems@[0] == sortedv[j as int]);
            assert(sortedv.skip(j as int).remove(0) =~= sortedv.skip(j + 1));
            assert(sd[j as int] == sortedv[j as int].val);
        }
        let kd = rems.remove(0);
        proof {
            assert(shown@.push(kd.val) =~= sd.take(j + 1));
        }
        shown.push(kd.val);
        j += 1;
    }
    proof {
        if limit >= sn {
            assert(sd.take(sn as int) =~= sd);
        }
        assert forall|i2: int| 0 <= i2 < shown@.len() implies sum_word_counts(
            #[trigger] shown@[i2].words@,
        ) =~= target by {
            assert(shown@[i2] == sd[i2]);
            assert(sd.contains(sd[i2]));
            lemma_sort_by_lt_contains(foundv, dlt, sd[i2]);
            let k = choose|k: int| 0 <= k < foundv.len() && foundv[k] == sd[i2];
        }
        assert(complete_emissions(ents, target, comp)) by {
            assert forall|s: Seq<int>|
                emittable(ents, target, s) && #[trigger] seq_sum(ents, s)
                    == target implies comp.contains(s) by {
                assert(m.spec_emitted().contains(s));
            }
        }
        assert(found_represents(*lexi, ents, comp, foundv));
        assert(ents == sort_by_lt(
            anagrams_pool(lexi.spec_entries(), counts_of(term@)),
            |a: Entry, b: Entry| anagrams_lt(lexi.spec_threshold(), a, b),
        ));
        assert(exists|comp2: Seq<Seq<int>>, f: Seq<Decomposition>|
            anagram_search_witness(
                *lexi,
                term@,
                num_total as int,
                j as int,
                shown@,
                comp2,
                f,
            )) by {
            let pool_sorted = sort_by_lt(
                anagrams_pool(lexi.spec_entries(), counts_of(term@)),
                |a: Entry, b: Entry| anagrams_lt(lexi.spec_threshold(), a, b),
            );
            assert(complete_emissions(pool_sorted, counts_of(term@), comp));
            assert(found_represents(*lexi, pool_sorted, comp, foundv));
            assert(foundv.len() == num_total && shown@ == sort_by_lt(
                foundv,
                |a: Decomposition, b: Decomposition| deco_lt(a, b),
            ).take(j as int));
            assert(anagram_search_witness(
                *lexi,
                term@,
                num_total as int,
                j as int,
                shown@,
                comp,
                foundv,
            ));
        }
    }
    proof {
        assert(sn == num_total);
        assert(j as int == (if (limit as int) < (num_total as int) {
            limit as int
        } else {
            num_total as int
        }));
        assert(shown@.len() == j as int);
        assert(forall|i2: int|
            0 <= i2 < shown@.len() ==> sum_word_counts(#[trigger] shown@[i2].words@) =~= counts_of(
                term@,
            ));
        assert(exists|comp2: Seq<Seq<int>>, f: Seq<Decomposition>|
            anagram_search_witness(
                *lexi,
                term@,
                num_total as int,
                j as int,
                shown@,
                comp2,
                f,
            ));
    }
    let r = CountedResults {
        num_total,
        num_shown: j,
        results: SearchResults::Anagrams { anagrams: shown },
    };
    proof {
        assert(r.results->Anagrams_anagrams@ == sd.take(j as int));
        assert(anagram_search_post(*lexi, term@, limit as int, r));
    }
    r
}

/// Dispatch a search request to the right game: longest subwords for the
/// letter games, decompositions for the anagram game.  The ghost game is
/// not implemented; callers must not ask for it.
pub fn search(lexi: &Lexicon, query: &SearchQuery) -> (r: CountedResults)
    requires
        lexi.wf(),
        !(query.game_type is GhostGame),
    ensures
        ({
            let limit = match query.limit {
                Some(l) => l as int,
                None => usize::MAX as int,
            };
            match query.game_type {
                GameType::Countdown | GameType::Connect => longest_subwords_post(
                    *lexi,
                    query.term@,
                    limit,
                    r,
                ),
                GameType::Anagram => anagram_search_post(*lexi, query.term@, limit, r),
                GameType::GhostGame => false,
            }
        }),
{
    let limit = match query.limit {
        Some(l) => l,
        None => usize::MAX,
    };
    match query.game_type {
        GameType::Countdown | GameType::Connect => longest_subwords(
            query.term.as_str(),
            limit,
            lexi,
        ),
        GameType::Anagram => anagram_search(query.term.as_str(), limit, lexi),
        GameType::GhostGame => unreached(),
    }
}

} // verus!
