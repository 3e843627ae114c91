//! Query-level operations over a lexicon: filtered word search, the best
//! word of an anagram class, anagram breakdowns of a query term, and the
//! longest-subword search used for letter games.

use crate::filter::{filter_entries, filtered_entries, Filter};
use crate::lexi::{anagram_class, words_of, Entry, Lexicon};
use crate::sorted_letters::{canonical_text, counts_of, ms_sub, ms_superset, SortedLetters};
use crate::sorting::{
    lemma_sort_commutes, lex_lt, sort_by_lt, sort_keyed, vals_of, Keyed,
};
use vstd::prelude::*;

verus! {

/// The rank below which the best word of an anagram class is displayed as
/// very popular.
pub const VERY_POPULAR_CUTOFF: usize = 1500;

/// The quality of the word displayed for a letter multiset.
#[derive(Debug, PartialEq, Eq, Clone, Copy)]
pub enum Quality {
    /// No dictionary word has this multiset; the canonical letter text is
    /// shown instead.
    NotWord,
    /// A dictionary word with no popularity rank.
    NotPopular,
    /// A ranked word at or above the cutoff.
    LessPopular,
    /// A ranked word below the cutoff.
    VeryPopular,
}

/// The numeric value of a quality, used in scores.
pub open spec fn spec_quality_value(q: Quality) -> int {
    match q {
        Quality::NotWord => 0,
        Quality::NotPopular => 1,
        Quality::LessPopular => 2,
        Quality::VeryPopular => 3,
    }
}

/// The numeric value of a quality, used in scores.
pub fn quality_value(q: Quality) -> (r: usize)
    ensures
        r == spec_quality_value(q),
{
    match q {
        Quality::NotWord => 0,
        Quality::NotPopular => 1,
        Quality::LessPopular => 2,
        Quality::VeryPopular => 3,
    }
}

/// A word to display for a letter multiset, with its quality.
#[derive(Debug, Clone)]
pub struct RankedWord {
    pub word: String,
    pub quality: Quality,
}

/// The rank used to pick the best word of an anagram class: an unranked
/// entry counts as `n`, the lexicon size, so it sorts after every ranked
/// one.
pub open spec fn eff_rank(e: Entry, n: int) -> int {
    match e.spec_rank() {
        Some(r) => r as int,
        None => n,
    }
}

/// The first entry of a non-empty class with the smallest effective rank.
pub open spec fn best_entry(class: Seq<Entry>, n: int) -> Entry
    recommends
        class.len() > 0,
    decreases class.len(),
{
    if class.len() <= 1 {
        class[0]
    } else {
        let b = best_entry(class.drop_last(), n);
        if eff_rank(class.last(), n) < eff_rank(b, n) {
            class.last()
        } else {
            b
        }
    }
}

/// The quality shown for the best word of a class, from its rank.
pub open spec fn spec_quality_of_rank(rank: Option<usize>) -> Quality {
    match rank {
        Some(r) => if r < VERY_POPULAR_CUTOFF {
            Quality::VeryPopular
        } else {
            Quality::LessPopular
        },
        None => Quality::NotPopular,
    }
}

/// What the best word for the multiset `m` looks like: the best word of
/// the anagram class of `m` with its quality, or the canonical letter text
/// as a non-word when no entry has that multiset.
pub open spec fn spec_ranked_parts(lexi: Lexicon, m: Seq<int>, w: Seq<char>, q: Quality) -> bool {
    let class = anagram_class(lexi.spec_entries(), m);
    if class.len() == 0 {
        w == canonical_text(m) && q == Quality::NotWord
    } else {
        let b = best_entry(class, lexi.spec_entries().len() as int);
        w == b.spec_word() && q == spec_quality_of_rank(b.spec_rank())
    }
}

/// What `solve_anagram` returns for the multiset `m`.
pub open spec fn spec_ranked_word(lexi: Lexicon, m: Seq<int>, r: RankedWord) -> bool {
    spec_ranked_parts(lexi, m, r.word@, r.quality)
}

/// The best word for the letter multiset `letters`: among the entries that
/// are exact anagrams of it, the one with the smallest rank (unranked
/// words count as worse than every ranked one; ties keep entry order),
/// classified by its rank.  When no entry matches, the canonical letter
/// text is returned as a `NotWord`.
pub fn solve_anagram(lexi: &Lexicon, letters: &SortedLetters) -> (r: RankedWord)
    ensures
        spec_ranked_word(*lexi, letters@, r),
{
    let class = lexi.solve_anagram(letters);
    let n = lexi.len();
    let m = class.len();
    if m == 0 {
        RankedWord { word: letters.to_text(), quality: Quality::NotWord }
    } else {
        let mut best: usize = 0;
        let mut i: usize = 1;
        while i < m
            invariant
                1 <= i <= m,
                best < i,
                m == class@.len(),
                n == lexi.spec_entries().len(),
                class@ == anagram_class(lexi.spec_entries(), letters@),
                class@[best as int] == best_entry(class@.take(i as int), n as int),
            decreases m - i,
        {
            proof {
                assert(class@.take(i + 1).drop_last() =~= class@.take(i as int));
                assert(class@.take(i + 1).last() == class@[i as int]);
            }
            let ri = match class[i].rank() {
                Some(r) => r,
                None => n,
            };
            let rb = match class[best].rank() {
                Some(r) => r,
                None => n,
            };
            if ri < rb {
                best = i;
            }
            i += 1;
        }
        proof {
            assert(class@.take(m as int) =~= class@);
        }
        let b = &class[best];
        let quality = match b.rank() {
            Some(rk) => {
                if rk < VERY_POPULAR_CUTOFF {
                    Quality::VeryPopular
                } else {
                    Quality::LessPopular
                }
            },
            None => Quality::NotPopular,
        };
        RankedWord { word: b.word().to_owned(), quality }
    }
}

/// Asking for the best word of the same multiset twice gives the same
/// answer both times: the lexicon is immutable after construction, and the
/// contract of `solve_anagram` pins its result down as a function of the
/// lexicon and the multiset alone.
pub proof fn lemma_best_for_idempotent(lexi: Lexicon, m: Seq<int>, r1: RankedWord, r2: RankedWord)
    requires
        spec_ranked_word(lexi, m, r1),
        spec_ranked_word(lexi, m, r2),
    ensures
        r1.word@ == r2.word@,
        r1.quality == r2.quality,
{
}

/// The word-list order: longer words first, then alphabetically.
pub open spec fn search_lt(a: Entry, b: Entry) -> bool {
    ||| a.spec_len() > b.spec_len()
    ||| (a.spec_len() == b.spec_len() && lex_lt(a.spec_word(), b.spec_word()))
}

/// The words of the entries that `filter` matches, longest first and
/// alphabetically among equal lengths.
pub fn search(lexi: &Lexicon, filter: &Filter) -> (r: Vec<String>)
    ensures
        r.deep_view() == words_of(
            sort_by_lt(
                filtered_entries(lexi.spec_entries(), *filter),
                |a: Entry, b: Entry| search_lt(a, b),
            ),
        ),
{
    let matched = filter_entries(lexi.entries(), filter);
    let mut keyed: Vec<Keyed<Entry>> = Vec::new();
    let n = matched.len();
    let mut i: usize = 0;
    while i < n
        invariant
            i <= n,
            n == matched@.len(),
            keyed@.len() == i as int,
            forall|k: int|
                0 <= k < i ==> {
                    let it = #[trigger] keyed@[k];
                    &&& it.val == matched@[k]
                    &&& it.k1 as int == usize::MAX - it.val.spec_len()
                    &&& it.k2 == 0usize
                    &&& it.k3 == 0usize
                    &&& it.word@ == it.val.spec_word()
                },
        decreases n - i,
    {
        let e = matched[i].duplicate();
        let k1 = usize::MAX - e.len();
        let w = e.word().to_owned();
        keyed.push(Keyed { k1, k2: 0, k3: 0, word: w, val: e });
        i += 1;
    }
    let ghost lt = |a: Entry, b: Entry| search_lt(a, b);
    proof {
        assert forall|x: Keyed<Entry>, z: Keyed<Entry>|
            #[trigger] keyed@.contains(x) && #[trigger] keyed@.contains(z) implies crate::sorting::keyed_lt(
            x,
            z,
        ) == lt(x.val, z.val) by {
            let xi = choose|t: int| 0 <= t < keyed@.len() && keyed@[t] == x;
            let zi = choose|t: int| 0 <= t < keyed@.len() && keyed@[t] == z;
        }
        lemma_sort_commutes(keyed@, lt);
        assert(vals_of(keyed@) =~= matched@);
    }
    let sorted = sort_keyed(keyed);
    let mut out: Vec<String> = Vec::new();
    let sn = sorted.len();
    let mut j: usize = 0;
    while j < sn
        invariant
            j <= sn,
            sn == sorted@.len(),
            out@.len() == j as int,
            forall|k: int| 0 <= k < j ==> (#[trigger] out@[k])@ == sorted@[k].val.spec_word(),
        decreases sn - j,
    {
        out.push(sorted[j].val.word().to_owned());
        j += 1;
    }
    proof {
        assert(out.deep_view() =~= words_of(vals_of(sorted@)));
    }
    out
}

/// The entries of `es` whose letters contain the multiset `m`, in order.
pub open spec fn breakdown_pool(es: Seq<Entry>, m: Seq<int>) -> Seq<Entry>
    decreases es.len(),
{
    if es.len() == 0 {
        Seq::empty()
    } else {
        let p = breakdown_pool(es.drop_last(), m);
        if ms_superset(es.last().spec_counts(), m) {
            p.push(es.last())
        } else {
            p
        }
    }
}

/// Part of an anagram search result: for the query's letters and one
/// matching entry, the best word for the left-over letters (`short`) and
/// the best word for the whole entry's letters (`long`).
#[derive(Debug)]
pub struct AnagramHit {
    pub query: String,
    pub short: RankedWord,
    pub long: RankedWord,
}

/// One hit per entry that `filter` matches and whose letters contain those
/// of `contains`, in entry order: the hit pairs the best anagram of the
/// entry's letters beyond the query (`short`) with the best anagram of the
/// entry's full letters (`long`).  An entry that does not contain the
/// query's letters is skipped.
pub fn anagram_breakdowns(lexi: &Lexicon, filter: &Filter, contains: &str) -> (r: Vec<AnagramHit>)
    ensures
        ({
            let pool = breakdown_pool(
                filtered_entries(lexi.spec_entries(), *filter),
                counts_of(contains@),
            );
            &&& r@.len() == pool.len()
            &&& forall|i: int|
                0 <= i < pool.len() ==> {
                    let e = pool[i];
                    let hit = #[trigger] r@[i];
                    &&& hit.query@ == contains@
                    &&& spec_ranked_word(
                        *lexi,
                        ms_sub(e.spec_counts(), counts_of(contains@)),
                        hit.short,
                    )
                    &&& spec_ranked_word(*lexi, e.spec_counts(), hit.long)
                }
        }),
{
    let sorted = SortedLetters::from_word(contains);
    let matched = filter_entries(lexi.entries(), filter);
    let mut out: Vec<AnagramHit> = Vec::new();
    let n = matched.len();
    let mut i: usize = 0;
    proof {
        assert(matched@.take(0) =~= Seq::<Entry>::empty());
    }
    while i < n
        invariant
            i <= n,
            n == matched@.len(),
            sorted@ == counts_of(contains@),
            matched@ == filtered_entries(lexi.spec_entries(), *filter),
            ({
                let pool = breakdown_pool(matched@.take(i as int), sorted@);
                &&& out@.len() == pool.len()
                &&& forall|k: int|
                    0 <= k < pool.len() ==> {
                        let e = pool[k];
                        let hit = #[trigger] out@[k];
                        &&& hit.query@ == contains@
                        &&& spec_ranked_word(*lexi, ms_sub(e.spec_counts(), sorted@), hit.short)
                        &&& spec_ranked_word(*lexi, e.spec_counts(), hit.long)
                    }
            }),
        decreases n - i,
    {
        proof {
            assert(matched@.take(i + 1).drop_last() =~= matched@.take(i as int));
            assert(matched@.take(i + 1).last() == matched@[i as int]);
        }
        let entry = &matched[i];
        match entry.without_letters_in(&sorted) {
            Some(remainder) => {
                let short = solve_anagram(lexi, &remainder);
                let long = solve_anagram(lexi, entry.letters());
                out.push(AnagramHit { query: contains.to_owned(), short, long });
            },
            None => {},
        }
        i += 1;
    }
    proof {
        assert(matched@.take(n as int) =~= matched@);
    }
    out
}

/// The entries of `es` whose letters fit within `m` and whose text is all
/// lower-case ASCII letters, in order.
pub open spec fn countdown_pool(es: Seq<Entry>, m: Seq<int>) -> Seq<Entry>
    decreases es.len(),
{
    if es.len() == 0 {
        Seq::empty()
    } else {
        let p = countdown_pool(es.drop_last(), m);
        if ms_superset(m, es.last().spec_counts()) && all_lower(es.last().spec_word()) {
            p.push(es.last())
        } else {
            p
        }
    }
}

/// Every character of `s` is a lower-case ASCII letter.
pub open spec fn all_lower(s: Seq<char>) -> bool {
    forall|i: int| 0 <= i < s.len() ==> 'a' <= #[trigger] s[i] && s[i] <= 'z'
}

/// Every character of `s` is a lower-case ASCII letter.
fn is_all_lower(s: &str) -> (r: bool)
    ensures
        r == all_lower(s@),
{
    let n = s.unicode_len();
    let mut i: usize = 0;
    while i < n
        invariant
            i <= n,
            n == s@.len(),
            forall|k: int| 0 <= k < i ==> 'a' <= #[trigger] s@[k] && s@[k] <= 'z',
        decreases n - i,
    {
        let c = s.get_char(i);
        let code = c as u32;
        if code < 97 || code > 122 {
            proof {
                assert(!('a' <= s@[i as int] && s@[i as int] <= 'z'));
            }
            return false;
        }
        i += 1;
    }
    true
}

/// More popular ranked words come first: ascending rank, with unranked
/// words after every ranked one.
pub open spec fn rank_more_popular(a: Option<usize>, b: Option<usize>) -> bool {
    match (a, b) {
        (Some(ra), Some(rb)) => ra < rb,
        (Some(_), None) => true,
        (None, Some(_)) => false,
        (None, None) => false,
    }
}

/// The countdown order: longer words first; within a length the more
/// popular word first (ascending rank, unranked last — which also orders
/// the popularity tiers descending, since a lower rank never has a lower
/// tier); then alphabetically.
pub open spec fn countdown_lt(a: Entry, b: Entry) -> bool {
    ||| a.spec_len() > b.spec_len()
    ||| (a.spec_len() == b.spec_len() && rank_more_popular(a.spec_rank(), b.spec_rank()))
    ||| (a.spec_len() == b.spec_len() && a.spec_rank() == b.spec_rank() && lex_lt(
        a.spec_word(),
        b.spec_word(),
    ))
}

/// The longest words that can be written with the letters of `letters`:
/// entries fitting within that multiset whose text is all lower-case ASCII,
/// sorted longest first, most popular first within a length (unranked
/// words last), then alphabetically.
pub fn search_countdown(lexi: &Lexicon, letters: &str) -> (r: Vec<String>)
    ensures
        r.deep_view() == words_of(
            sort_by_lt(
                countdown_pool(lexi.spec_entries(), counts_of(letters@)),
                |a: Entry, b: Entry| countdown_lt(a, b),
            ),
        ),
{
    let sorted = SortedLetters::from_word(letters);
    let entries = lexi.entries();
    let mut pool: Vec<Entry> = Vec::new();
    let n = entries.len();
    let mut i: usize = 0;
    proof {
        assert(entries@.take(0) =~= Seq::<Entry>::empty());
    }
    while i < n
        invariant
            i <= n,
            n == entries@.len(),
            sorted@ == counts_of(letters@),
            entries@ == lexi.spec_entries(),
            pool@ == countdown_pool(entries@.take(i as int), sorted@),
        decreases n - i,
    {
        proof {
            assert(entries@.take(i + 1).drop_last() =~= entries@.take(i as int));
            assert(entries@.take(i + 1).last() == entries@[i as int]);
        }
        let e = &entries[i];
        if e.letters().is_subset(&sorted) && is_all_lower(e.word()) {
            pool.push(e.duplicate());
        }
        i += 1;
    }
    proof {
        assert(entries@.take(n as int) =~= entries@);
    }
    let mut keyed: Vec<Keyed<Entry>> = Vec::new();
    let pn = pool.len();
    let mut i2: usize = 0;
    while i2 < pn
        invariant
            i2 <= pn,
            pn == pool@.len(),
            keyed@.len() == i2 as int,
            forall|k: int|
                0 <= k < i2 ==> {
                    let it = #[trigger] keyed@[k];
                    &&& it.val == pool@[k]
                    &&& it.k1 as int == usize::MAX - it.val.spec_len()
                    &&& (match it.val.spec_rank() {
                        Some(rk) => it.k2 == 0usize && it.k3 == rk,
                        None => it.k2 == 1usize && it.k3 == 0usize,
                    })
                    &&& it.word@ == it.val.spec_word()
                },
        decreases pn - i2,
    {
        let e = pool[i2].duplicate();
        let k1 = usize::MAX - e.len();
        let (k2, k3): (usize, usize) = match e.rank() {
            Some(rk) => (0, rk),
            None => (1, 0),
        };
        let w = e.word().to_owned();
        keyed.push(Keyed { k1, k2, k3, word: w, val: e });
        i2 += 1;
    }
    let ghost lt = |a: Entry, b: Entry| countdown_lt(a, b);
    proof {
        assert forall|x: Keyed<Entry>, z: Keyed<Entry>|
            #[trigger] keyed@.contains(x) && #[trigger] keyed@.contains(z) implies crate::sorting::keyed_lt(
            x,
            z,
        ) == lt(x.val, z.val) by {
            let xi = choose|t: int| 0 <= t < keyed@.len() && keyed@[t] == x;
            let zi = choose|t: int| 0 <= t < keyed@.len() && keyed@[t] == z;
        }
        lemma_sort_commutes(keyed@, lt);
        assert(vals_of(keyed@) =~= pool@);
    }
    let sorted_keyed = sort_keyed(keyed);
    let mut out: Vec<String> = Vec::new();
    let sn = sorted_keyed.len();
    let mut j: usize = 0;
    while j < sn
        invariant
            j <= sn,
            sn == sorted_keyed@.len(),
            out@.len() == j as int,
            forall|k: int| 0 <= k < j ==> (#[trigger] out@[k])@ == sorted_keyed@[k].val.spec_word(),
        decreases sn - j,
    {
        out.push(sorted_keyed[j].val.word().to_owned());
        j += 1;
    }
    proof {
        assert(out.deep_view() =~= words_of(vals_of(sorted_keyed@)));
    }
    out
}

} // verus!
