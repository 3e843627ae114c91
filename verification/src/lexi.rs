//! The lexicon: an immutable collection of word entries, each carrying the
//! data derived from its text (letter multiset, presence mask, alphabetic
//! length, single-word flag), plus popularity ranks assigned once from a
//! secondary word list.

use crate::letter_mask::{text_has_letter, LetterMask};
use crate::sorted_letters::{counts_of, letter_index, SortedLetters};
use vstd::prelude::*;

verus! {

/// Whether a character has the Unicode "Alphabetic" property; a function of
/// the character alone.
pub uninterp spec fn spec_is_alphabetic(c: char) -> bool;

/// Relies on char::is_alphabetic: true on the Unicode "Alphabetic" set,
/// which contains the ASCII letters and no other ASCII character.
pub assume_specification[ char::is_alphabetic ](c: char) -> (r: bool)
    ensures
        r == spec_is_alphabetic(c),
        ('a' <= c && c <= 'z') || ('A' <= c && c <= 'Z') ==> r,
        (c as u32) < 65 ==> !r,
        90 < (c as u32) && (c as u32) < 97 ==> !r,
        122 < (c as u32) && (c as u32) < 128 ==> !r,
;

/// Number of characters of `s` that are alphabetic in the Unicode sense.
pub open spec fn count_alpha(s: Seq<char>) -> nat
    decreases s.len(),
{
    if s.len() == 0 {
        0
    } else {
        count_alpha(s.drop_last()) + (if spec_is_alphabetic(s.last()) {
            1nat
        } else {
            0nat
        })
    }
}

proof fn lemma_count_alpha_le_len(s: Seq<char>)
    ensures
        count_alpha(s) <= s.len(),
    decreases s.len(),
{
    if s.len() > 0 {
        lemma_count_alpha_le_len(s.drop_last());
    }
}

proof fn lemma_count_alpha_snoc(s: Seq<char>, c: char)
    ensures
        count_alpha(s.push(c)) == count_alpha(s) + (if spec_is_alphabetic(c) {
            1int
        } else {
            0int
        }),
{
    assert(s.push(c).drop_last() =~= s);
}

/// Every entry's letter multiset holds exactly 26 non-negative counts.
pub proof fn lemma_entry_counts_shape(e: Entry)
    ensures
        e.spec_counts().len() == 26,
        forall|j: int| 0 <= j < 26 ==> e.spec_counts()[j] >= 0,
{
    crate::sorted_letters::lemma_counts_shape(e.sorted);
}

/// One dictionary word plus the data derived from it.
#[derive(Clone, Debug)]
pub struct Entry {
    word: String,
    rank: Option<usize>,
    mask: LetterMask,
    sorted: SortedLetters,
    len: usize,
    one_word: bool,
}

impl Entry {
    /// The text of the word.
    pub closed spec fn spec_word(self) -> Seq<char> {
        self.word@
    }

    /// The position in the popularity list, if any.
    pub closed spec fn spec_rank(self) -> Option<usize> {
        self.rank
    }

    /// The letter multiset of the word.
    pub closed spec fn spec_counts(self) -> Seq<int> {
        self.sorted@
    }

    /// The letter-presence mask of the word.
    pub closed spec fn spec_mask(self) -> LetterMask {
        self.mask
    }

    /// The number of alphabetic characters of the word.
    pub closed spec fn spec_len(self) -> int {
        self.len as int
    }

    /// Whether the word is one single word: all its characters are ASCII
    /// letters.
    pub closed spec fn spec_one_word(self) -> bool {
        self.one_word
    }

    /// The derived fields agree with the word's text.
    pub open spec fn wf(self) -> bool {
        &&& self.spec_counts() == counts_of(self.spec_word())
        &&& forall|j: int|
            self.spec_mask().has_letter(j) <==> (0 <= j < 26 && text_has_letter(
                self.spec_word(),
                j,
            ))
        &&& self.spec_len() == count_alpha(self.spec_word())
        &&& self.spec_one_word() == (forall|i: int|
            0 <= i < self.spec_word().len() ==> letter_index(#[trigger] self.spec_word()[i]) != -1)
    }

    /// Build the entry for one word: count its letters, mask its letters,
    /// count its alphabetic characters, and note whether it is one single
    /// word.  The rank is assigned later, during lexicon assembly.
    pub fn new(word: &str) -> (e: Self)
        ensures
            e.wf(),
            e.spec_word() == word@,
            e.spec_rank() is None,
    {
        let ghost s = word@;
        let mask = LetterMask::new(word);
        let sorted = SortedLetters::from_word(word);
        let n = word.unicode_len();
        let mut len: usize = 0;
        let mut one_word = true;
        let mut i: usize = 0;
        proof {
            assert(s.take(0) =~= Seq::empty());
        }
        while i < n
            invariant
                i <= n,
                n == s.len(),
                word@ == s,
                len as int == count_alpha(s.take(i as int)),
                one_word == (forall|k: int|
                    0 <= k < i ==> letter_index(#[trigger] s[k]) != -1),
            decreases n - i,
        {
            let ch = word.get_char(i);
            let code = ch as u32;
            proof {
                assert(s.take(i as int).push(ch) =~= s.take(i + 1));
                lemma_count_alpha_le_len(s.take(i as int));
                lemma_count_alpha_snoc(s.take(i as int), ch);
            }
            if ch.is_alphabetic() {
                len += 1;
            }
            let is_letter = (97 <= code && code <= 122) || (65 <= code && code <= 90);
            if !is_letter {
                proof {
                    assert(letter_index(ch) == -1);
                }
                one_word = false;
            }
            i += 1;
        }
        proof {
            assert(s.take(n as int) =~= s);
        }
        Entry { word: word.to_owned(), rank: None, mask, sorted, len, one_word }
    }

    /// The number of alphabetic characters in the word.
    pub fn len(&self) -> (r: usize)
        ensures
            r == self.spec_len(),
    {
        self.len
    }

    /// The number of alphabetic characters in the word.
    pub fn num_letters(&self) -> (r: usize)
        ensures
            r == self.spec_len(),
    {
        self.len
    }

    /// Whether every character of the word is an ASCII letter.
    pub fn is_single_word(&self) -> (r: bool)
        ensures
            r == self.spec_one_word(),
    {
        self.one_word
    }

    /// The word's text.
    pub fn word(&self) -> (r: &str)
        ensures
            r@ == self.spec_word(),
    {
        self.word.as_str()
    }

    /// The word's letters with the given letters removed, if they all occur.
    pub fn without_letters_in(&self, sorted: &SortedLetters) -> (r: Option<SortedLetters>)
        ensures
            r is Some <==> crate::sorted_letters::ms_superset(self.spec_counts(), sorted@),
            r matches Some(d) ==> d@ =~= crate::sorted_letters::ms_sub(self.spec_counts(), sorted@),
    {
        self.sorted.minus(sorted)
    }

    /// The position in the popularity list, if any.
    pub fn rank(&self) -> (r: Option<usize>)
        ensures
            r == self.spec_rank(),
    {
        self.rank
    }

    /// The word's letter-presence mask.
    pub(crate) fn mask(&self) -> (r: &LetterMask)
        ensures
            *r == self.spec_mask(),
    {
        &self.mask
    }

    /// The word's letter multiset.
    pub(crate) fn letters(&self) -> (r: &SortedLetters)
        ensures
            r@ == self.spec_counts(),
    {
        &self.sorted
    }

    /// An exact copy of the entry.
    pub fn duplicate(&self) -> (r: Self)
        ensures
            r == *self,
    {
        Entry {
            word: self.word.clone(),
            rank: self.rank,
            mask: self.mask,
            sorted: self.sorted,
            len: self.len,
            one_word: self.one_word,
        }
    }
}

/// How popular a ranked word is, relative to a lexicon's threshold.
#[derive(Debug, PartialEq, Eq, Clone, Copy)]
pub enum Popularity {
    Low,
    Medium,
    High,
}

/// The numeric value of a popularity tier, used as a sort key.
pub open spec fn spec_popularity_value(p: Popularity) -> int {
    match p {
        Popularity::Low => 1,
        Popularity::Medium => 2,
        Popularity::High => 3,
    }
}

/// The numeric value of a popularity tier, used as a sort key.
pub fn popularity_value(p: Popularity) -> (r: usize)
    ensures
        r == spec_popularity_value(p),
{
    match p {
        Popularity::Low => 1,
        Popularity::Medium => 2,
        Popularity::High => 3,
    }
}

/// The tier of an entry with rank `rank` under threshold `threshold`:
/// unranked words are `Low`, ranked ones `High` below the threshold and
/// `Medium` from it on.
pub open spec fn spec_rate(threshold: int, rank: Option<usize>) -> Popularity {
    match rank {
        Some(r) => if r < threshold {
            Popularity::High
        } else {
            Popularity::Medium
        },
        None => Popularity::Low,
    }
}

/// The position of the last occurrence of `w` in `popular`, if any; with
/// distinct list items this is the word's position in the list.
pub open spec fn last_rank_of(popular: Seq<String>, w: Seq<char>) -> Option<int>
    decreases popular.len(),
{
    if popular.len() == 0 {
        None
    } else if popular.last()@ == w {
        Some(popular.len() - 1)
    } else {
        last_rank_of(popular.drop_last(), w)
    }
}

/// A lexicon: the entries in their given order, plus the rank threshold
/// that separates "very popular" from "less popular".
pub struct Lexicon {
    entries: Vec<Entry>,
    popular_threshold: usize,
}

impl Lexicon {
    /// The entries, in construction order.
    pub closed spec fn spec_entries(self) -> Seq<Entry> {
        self.entries@
    }

    /// The rank below which an entry counts as very popular.
    pub closed spec fn spec_threshold(self) -> int {
        self.popular_threshold as int
    }

    /// Every entry's derived data agrees with its word.
    pub open spec fn wf(self) -> bool {
        forall|i: int|
            0 <= i < self.spec_entries().len() ==> (#[trigger] self.spec_entries()[i]).wf()
    }

    /// Build one entry per word, in the given order.
    pub fn from_iter(words: &Vec<String>) -> (r: Self)
        ensures
            r.wf(),
            r.spec_entries().len() == words@.len(),
            forall|i: int|
                0 <= i < words@.len() ==> {
                    let e = #[trigger] r.spec_entries()[i];
                    &&& e.spec_word() == words@[i]@
                    &&& e.spec_rank() is None
                },
            r.spec_threshold() == 0,
    {
        let mut entries: Vec<Entry> = Vec::new();
        let n = words.len();
        let mut i: usize = 0;
        while i < n
            invariant
                i <= n,
                n == words@.len(),
                entries@.len() == i as int,
                forall|k: int|
                    0 <= k < i ==> {
                        let e = #[trigger] entries@[k];
                        &&& e.wf()
                        &&& e.spec_word() == words@[k]@
                        &&& e.spec_rank() is None
                    },
            decreases n - i,
        {
            let e = Entry::new(words[i].as_str());
            entries.push(e);
            i += 1;
        }
        Lexicon { entries, popular_threshold: 0 }
    }

    /// The number of entries.
    pub fn len(&self) -> (r: usize)
        ensures
            r == self.spec_entries().len(),
    {
        self.entries.len()
    }

    /// Assign to every entry the position of its word in the popularity
    /// list (or none), and set the threshold.  Everything else about every
    /// entry is kept.
    pub fn with_popular_words(self, popular_words: &Vec<String>, threshold: usize) -> (r: Self)
        ensures
            r.spec_entries().len() == self.spec_entries().len(),
            forall|i: int|
                0 <= i < self.spec_entries().len() ==> {
                    let e0 = #[trigger] self.spec_entries()[i];
                    let e = r.spec_entries()[i];
                    &&& e.spec_word() == e0.spec_word()
                    &&& e.spec_counts() == e0.spec_counts()
                    &&& e.spec_mask() == e0.spec_mask()
                    &&& e.spec_len() == e0.spec_len()
                    &&& e.spec_one_word() == e0.spec_one_word()
                    &&& (match last_rank_of(popular_words@, e0.spec_word()) {
                        Some(k) => e.spec_rank() == Some(k as usize),
                        None => e.spec_rank() is None,
                    })
                },
            self.wf() ==> r.wf(),
            r.spec_threshold() == threshold,
    {
        let mut entries: Vec<Entry> = Vec::new();
        let n = self.entries.len();
        let m = popular_words.len();
        let mut i: usize = 0;
        while i < n
            invariant
                i <= n,
                n == self.spec_entries().len(),
                m == popular_words@.len(),
                entries@.len() == i as int,
                forall|k: int|
                    0 <= k < i ==> {
                        let e0 = #[trigger] self.spec_entries()[k];
                        let e = entries@[k];
                        &&& e.spec_word() == e0.spec_word()
                        &&& e.spec_counts() == e0.spec_counts()
                        &&& e.spec_mask() == e0.spec_mask()
                        &&& e.spec_len() == e0.spec_len()
                        &&& e.spec_one_word() == e0.spec_one_word()
                        &&& (match last_rank_of(popular_words@, e0.spec_word()) {
                            Some(q) => e.spec_rank() == Some(q as usize),
                            None => e.spec_rank() is None,
                        })
                        &&& (e0.wf() ==> e.wf())
                    },
            decreases n - i,
        {
            let e0 = &self.entries[i];
            let mut rank: Option<usize> = None;
            let mut j: usize = 0;
            while j < m
                invariant
                    j <= m,
                    m == popular_words@.len(),
                    e0.spec_word() == self.spec_entries()[i as int].spec_word(),
                    e0 == self.spec_entries()[i as int],
                    i < n,
                    n == self.spec_entries().len(),
                    match last_rank_of(popular_words@.take(j as int), e0.spec_word()) {
                        Some(q) => rank == Some(q as usize),
                        None => rank is None,
                    },
                decreases m - j,
            {
                proof {
                    assert(popular_words@.take(j + 1).drop_last() =~= popular_words@.take(
                        j as int,
                    ));
                }
                if popular_words[j].eq(&e0.word) {
                    rank = Some(j);
                }
                j += 1;
            }
            proof {
                assert(popular_words@.take(m as int) =~= popular_words@);
            }
            let e = Entry {
                word: e0.word.clone(),
                rank,
                mask: e0.mask,
                sorted: e0.sorted,
                len: e0.len,
                one_word: e0.one_word,
            };
            entries.push(e);
            proof {
                let ghost ee = entries@[i as int];
                let ghost eo = self.spec_entries()[i as int];
                assert(ee.spec_word() == eo.spec_word());
                assert(ee.spec_counts() == eo.spec_counts());
                assert(ee.spec_mask() == eo.spec_mask());
                assert(ee.spec_len() == eo.spec_len());
                assert(ee.spec_one_word() == eo.spec_one_word());
                assert(match last_rank_of(popular_words@, eo.spec_word()) {
                    Some(q) => ee.spec_rank() == Some(q as usize),
                    None => ee.spec_rank() is None,
                });
                assert(eo.wf() ==> ee.wf());
            }
            i += 1;
        }
        let r = Lexicon { entries, popular_threshold: threshold };
        proof {
            if self.wf() {
                assert forall|k: int|
                    0 <= k < r.spec_entries().len() implies (#[trigger] r.spec_entries()[k]).wf() by {
                    assert(self.spec_entries()[k].wf());
                }
            }
        }
        r
    }

    /// The popularity tier of an entry under this lexicon's threshold.
    pub fn rate(&self, entry: &Entry) -> (r: Popularity)
        ensures
            r == spec_rate(self.spec_threshold(), entry.spec_rank()),
    {
        match entry.rank {
            Some(rank) => {
                if rank < self.popular_threshold {
                    Popularity::High
                } else {
                    Popularity::Medium
                }
            },
            None => Popularity::Low,
        }
    }

    /// The entries, in construction order.
    pub fn entries(&self) -> (r: &Vec<Entry>)
        ensures
            r@ == self.spec_entries(),
    {
        &self.entries
    }
}

/// The words of the entries, in order.
pub open spec fn words_of(es: Seq<Entry>) -> Seq<Seq<char>> {
    es.map_values(|e: Entry| e.spec_word())
}

impl Lexicon {
    /// The words of the entries that `filter` matches, in entry order.
    pub fn matching_words(&self, filter: &crate::filter::Filter) -> (r: Vec<String>)
        ensures
            r.deep_view() == words_of(
                crate::filter::filtered_entries(self.spec_entries(), *filter),
            ),
    {
        let matched = crate::filter::filter_entries(&self.entries, filter);
        let mut out: Vec<String> = Vec::new();
        let n = matched.len();
        let mut i: usize = 0;
        while i < n
            invariant
                i <= n,
                n == matched@.len(),
                out@.len() == i as int,
                forall|k: int| 0 <= k < i ==> (#[trigger] out@[k])@ == matched@[k].spec_word(),
            decreases n - i,
        {
            out.push(matched[i].word().to_owned());
            i += 1;
        }
        proof {
            assert(out.deep_view() =~= words_of(matched@));
        }
        out
    }
}

/// The entries of `entries` whose letter multiset is exactly `m`, in order.
pub open spec fn anagram_class(entries: Seq<Entry>, m: Seq<int>) -> Seq<Entry>
    decreases entries.len(),
{
    if entries.len() == 0 {
        Seq::empty()
    } else {
        let p = anagram_class(entries.drop_last(), m);
        if entries.last().spec_counts() == m {
            p.push(entries.last())
        } else {
            p
        }
    }
}

/// Looking up the same multiset twice gives the same class both times:
/// the lexicon is immutable after construction, and the exact lookup is a
/// function of the lexicon and the multiset alone, which the contract of
/// `Lexicon::solve_anagram` pins down.
pub proof fn lemma_lookup_exact_idempotent(
    lexi: Lexicon,
    m: Seq<int>,
    r1: Seq<Entry>,
    r2: Seq<Entry>,
)
    requires
        r1 == anagram_class(lexi.spec_entries(), m),
        r2 == anagram_class(lexi.spec_entries(), m),
    ensures
        r1 == r2,
{
}

impl Lexicon {
    /// The anagram equivalence class of `letters`: every entry whose letter
    /// multiset is exactly `letters`, in entry order.
    pub fn solve_anagram(&self, letters: &SortedLetters) -> (r: Vec<Entry>)
        ensures
            r@ == anagram_class(self.spec_entries(), letters@),
    {
        let mut out: Vec<Entry> = Vec::new();
        let n = self.entries.len();
        let mut i: usize = 0;
        while i < n
            invariant
                i <= n,
                n == self.spec_entries().len(),
                out@ == anagram_class(self.spec_entries().take(i as int), letters@),
            decreases n - i,
        {
            proof {
                assert(self.spec_entries().take(i + 1).drop_last() =~= self.spec_entries().take(
                    i as int,
                ));
            }
            if self.entries[i].sorted.equals(letters) {
                out.push(self.entries[i].duplicate());
            }
            i += 1;
        }
        proof {
            assert(self.spec_entries().take(n as int) =~= self.spec_entries());
        }
        out
    }
}

} // verus!
