//! Composable predicates over lexicon entries: an ordered list of checks
//! that must all pass, built with a fluent builder that silently drops
//! absent or malformed constraints.

use crate::length_range::{range_of_text, LengthRange};
use crate::letter_mask::{text_has_letter, LetterMask};
use crate::lexi::Entry;
use crate::sorted_letters::{counts_of, ms_superset, SortedLetters};
use vstd::prelude::*;

verus! {

/// One predicate over an entry.
#[derive(Debug, Clone, Copy)]
pub enum Check {
    /// The entry's single-word flag must equal the wanted value.
    SingleWord(bool),
    /// The entry's alphabetic length must lie in the range.
    Length(LengthRange),
    /// The entry must share no letter with the mask.
    ExcludeLetters(LetterMask),
    /// The entry must have every letter of the mask.
    IncludeLetters(LetterMask),
    /// The entry's letters must contain the given multiset.
    Contains(SortedLetters),
    /// The entry's letters must fit within the given multiset.
    Contained(SortedLetters),
}

/// Whether `e` passes one check.
pub open spec fn check_passes(c: Check, e: Entry) -> bool {
    match c {
        Check::SingleWord(w) => e.spec_one_word() == w,
        Check::Length(r) => r.spec_contains(e.spec_len()),
        Check::ExcludeLetters(m) => !(exists|j: int|
            #[trigger] m.has_letter(j) && e.spec_mask().has_letter(j)),
        Check::IncludeLetters(m) => forall|j: int|
            #[trigger] m.has_letter(j) ==> e.spec_mask().has_letter(j),
        Check::Contains(s) => ms_superset(e.spec_counts(), s@),
        Check::Contained(s) => ms_superset(s@, e.spec_counts()),
    }
}

/// Whether `e` passes every check of the list.
pub open spec fn checks_pass(cs: Seq<Check>, e: Entry) -> bool {
    forall|k: int| 0 <= k < cs.len() ==> check_passes(#[trigger] cs[k], e)
}

/// An immutable, stateless list of checks; an entry matches when every
/// check passes.  An empty filter matches every entry.
#[derive(Debug)]
pub struct Filter {
    checks: Vec<Check>,
}

impl Filter {
    /// The checks, in insertion order.
    pub closed spec fn spec_checks(self) -> Seq<Check> {
        self.checks@
    }

    /// Whether `e` passes this filter.
    pub open spec fn spec_matches(self, e: Entry) -> bool {
        checks_pass(self.spec_checks(), e)
    }

    pub fn new(checks: Vec<Check>) -> (r: Self)
        ensures
            r.spec_checks() == checks@,
    {
        Self { checks }
    }

    /// No checks at all; such a filter matches everything, and callers
    /// treat it as "no query specified".
    pub fn is_empty(&self) -> (r: bool)
        ensures
            r == (self.spec_checks().len() == 0),
    {
        self.checks.len() == 0
    }

    /// Evaluate every check in insertion order, stopping at the first
    /// failure.
    pub fn matches(&self, entry: &Entry) -> (r: bool)
        ensures
            r == self.spec_matches(*entry),
    {
        let n = self.checks.len();
        let mut k: usize = 0;
        while k < n
            invariant
                k <= n,
                n == self.spec_checks().len(),
                forall|t: int| 0 <= t < k ==> check_passes(#[trigger] self.spec_checks()[t], *entry),
            decreases n - k,
        {
            let c = self.checks[k];
            let passes = match c {
                Check::SingleWord(want_single) => entry.is_single_word() == want_single,
                Check::Length(range) => range.contains(entry.num_letters()),
                Check::ExcludeLetters(mask) => !mask.intersects(entry.mask()),
                Check::IncludeLetters(mask) => mask.subset_of(entry.mask()),
                Check::Contains(sorted) => entry.letters().is_superset(&sorted),
                Check::Contained(sorted) => entry.letters().is_subset(&sorted),
            };
            if !passes {
                proof {
                    assert(!check_passes(self.spec_checks()[k as int], *entry));
                }
                return false;
            }
            k += 1;
        }
        true
    }
}

/// Appending one check to a list adds exactly that check's condition.
pub proof fn lemma_checks_pass_push(cs: Seq<Check>, c: Check, e: Entry)
    ensures
        checks_pass(cs.push(c), e) <==> (checks_pass(cs, e) && check_passes(c, e)),
{
    if checks_pass(cs.push(c), e) {
        assert forall|k: int| 0 <= k < cs.len() implies check_passes(#[trigger] cs[k], e) by {
            assert(cs.push(c)[k] == cs[k]);
        }
        assert(cs.push(c)[cs.len() as int] == c);
    }
    if checks_pass(cs, e) && check_passes(c, e) {
        assert forall|k: int| 0 <= k < cs.push(c).len() implies check_passes(
            #[trigger] cs.push(c)[k],
            e,
        ) by {
            if k < cs.len() {
                assert(cs.push(c)[k] == cs[k]);
            } else {
                assert(cs.push(c)[k] == c);
            }
        }
    }
}

/// The entries of `entries` that `f` matches, in order.
pub open spec fn filtered_entries(entries: Seq<Entry>, f: Filter) -> Seq<Entry>
    decreases entries.len(),
{
    if entries.len() == 0 {
        Seq::empty()
    } else {
        let p = filtered_entries(entries.drop_last(), f);
        if f.spec_matches(entries.last()) {
            p.push(entries.last())
        } else {
            p
        }
    }
}

/// Collect the entries that `f` matches, in order.
pub fn filter_entries(entries: &Vec<Entry>, f: &Filter) -> (r: Vec<Entry>)
    ensures
        r@ == filtered_entries(entries@, *f),
{
    let mut out: Vec<Entry> = Vec::new();
    let n = entries.len();
    let mut i: usize = 0;
    proof {
        assert(entries@.take(0) =~= Seq::<Entry>::empty());
    }
    while i < n
        invariant
            i <= n,
            n == entries@.len(),
            out@ == filtered_entries(entries@.take(i as int), *f),
        decreases n - i,
    {
        proof {
            assert(entries@.take(i + 1).drop_last() =~= entries@.take(i as int));
        }
        if f.matches(&entries[i]) {
            out.push(entries[i].duplicate());
        }
        i += 1;
    }
    proof {
        assert(entries@.take(n as int) =~= entries@);
    }
    out
}

/// Accumulates checks in call order; each method silently adds nothing when
/// its input is absent or fails to parse, mirroring optional query
/// parameters.
pub struct FilterBuilder {
    checks: Vec<Check>,
}

impl FilterBuilder {
    /// The checks accumulated so far.
    pub closed spec fn spec_checks(self) -> Seq<Check> {
        self.checks@
    }

    pub fn new() -> (r: Self)
        ensures
            r.spec_checks() == Seq::<Check>::empty(),
    {
        FilterBuilder { checks: Vec::new() }
    }

    /// Require the single-word flag to equal `want_single`, if given.
    pub fn single_word(self, want_single: Option<bool>) -> (r: Self)
        ensures
            r.spec_checks() == match want_single {
                Some(w) => self.spec_checks().push(Check::SingleWord(w)),
                None => self.spec_checks(),
            },
    {
        let mut s = self;
        if let Some(w) = want_single {
            s.checks.push(Check::SingleWord(w));
        }
        s
    }

    /// Require the length to lie in the range denoted by `range` (written
    /// `"N"` or `"N-M"`); malformed or absent text adds nothing.
    pub fn length(self, range: Option<&str>) -> (r: Self)
        ensures
            ({
                let cs = self.spec_checks();
                match range {
                    Some(t) => match range_of_text(t@) {
                        Some(p) => {
                            &&& r.spec_checks().len() == cs.len() + 1
                            &&& r.spec_checks().take(cs.len() as int) == cs
                            &&& r.spec_checks().last() matches Check::Length(lr) && lr.spec_min()
                                == p.0 && lr.spec_max() == p.1
                        },
                        None => r.spec_checks() == cs,
                    },
                    None => r.spec_checks() == cs,
                }
            }),
    {
        let mut s = self;
        if let Some(t) = range {
            if let Some(lr) = LengthRange::parse(t) {
                s.checks.push(Check::Length(lr));
                proof {
                    assert(s.spec_checks().take(s.spec_checks().len() - 1) =~= self.spec_checks());
                }
            }
        }
        s
    }

    /// Require the length to lie in `range`, if given.
    pub fn length_range(self, range: Option<LengthRange>) -> (r: Self)
        ensures
            r.spec_checks() == match range {
                Some(lr) => self.spec_checks().push(Check::Length(lr)),
                None => self.spec_checks(),
            },
    {
        let mut s = self;
        if let Some(lr) = range {
            s.checks.push(Check::Length(lr));
        }
        s
    }

    /// Exclude entries sharing any letter of `letters`; an absent or empty
    /// text adds nothing.
    pub fn exclude_letters(self, letters: Option<&str>) -> (r: Self)
        ensures
            ({
                let cs = self.spec_checks();
                match letters {
                    Some(t) => if t@.len() == 0 {
                        r.spec_checks() == cs
                    } else {
                        &&& r.spec_checks().len() == cs.len() + 1
                        &&& r.spec_checks().take(cs.len() as int) == cs
                        &&& r.spec_checks().last() matches Check::ExcludeLetters(m)
                            && forall|j: int|
                            m.has_letter(j) <==> (0 <= j < 26 && text_has_letter(t@, j))
                    },
                    None => r.spec_checks() == cs,
                }
            }),
    {
        let mut s = self;
        if let Some(t) = letters {
            if t.unicode_len() > 0 {
                s.checks.push(Check::ExcludeLetters(LetterMask::new(t)));
                proof {
                    assert(s.spec_checks().take(s.spec_checks().len() - 1) =~= self.spec_checks());
                }
            }
        }
        s
    }

    /// Keep only entries having every letter of `letters`; an absent or
    /// empty text adds nothing.
    pub fn include_letters(self, letters: Option<&str>) -> (r: Self)
        ensures
            ({
                let cs = self.spec_checks();
                match letters {
                    Some(t) => if t@.len() == 0 {
                        r.spec_checks() == cs
                    } else {
                        &&& r.spec_checks().len() == cs.len() + 1
                        &&& r.spec_checks().take(cs.len() as int) == cs
                        &&& r.spec_checks().last() matches Check::IncludeLetters(m)
                            && forall|j: int|
                            m.has_letter(j) <==> (0 <= j < 26 && text_has_letter(t@, j))
                    },
                    None => r.spec_checks() == cs,
                }
            }),
    {
        let mut s = self;
        if let Some(t) = letters {
            if t.unicode_len() > 0 {
                s.checks.push(Check::IncludeLetters(LetterMask::new(t)));
                proof {
                    assert(s.spec_checks().take(s.spec_checks().len() - 1) =~= self.spec_checks());
                }
            }
        }
        s
    }

    /// Keep only entries whose letters contain those of `letters`, if
    /// given.
    pub fn contains(self, letters: Option<&str>) -> (r: Self)
        ensures
            ({
                let cs = self.spec_checks();
                match letters {
                    Some(t) => {
                        &&& r.spec_checks().len() == cs.len() + 1
                        &&& r.spec_checks().take(cs.len() as int) == cs
                        &&& r.spec_checks().last() matches Check::Contains(m) && m@ == counts_of(
                            t@,
                        )
                    },
                    None => r.spec_checks() == cs,
                }
            }),
    {
        let mut s = self;
        if let Some(t) = letters {
            s.checks.push(Check::Contains(SortedLetters::from_word(t)));
            proof {
                assert(s.spec_checks().take(s.spec_checks().len() - 1) =~= self.spec_checks());
            }
        }
        s
    }

    /// Keep only entries whose letters fit within those of `letters`, if
    /// given.
    pub fn contained(self, letters: Option<&str>) -> (r: Self)
        ensures
            ({
                let cs = self.spec_checks();
                match letters {
                    Some(t) => {
                        &&& r.spec_checks().len() == cs.len() + 1
                        &&& r.spec_checks().take(cs.len() as int) == cs
                        &&& r.spec_checks().last() matches Check::Contained(m) && m@ == counts_of(
                            t@,
                        )
                    },
                    None => r.spec_checks() == cs,
                }
            }),
    {
        let mut s = self;
        if let Some(t) = letters {
            s.checks.push(Check::Contained(SortedLetters::from_word(t)));
            proof {
                assert(s.spec_checks().take(s.spec_checks().len() - 1) =~= self.spec_checks());
            }
        }
        s
    }

    /// Keep only entries whose letters contain the multiset `letters`.
    pub fn contains_letters(self, letters: SortedLetters) -> (r: Self)
        ensures
            r.spec_checks() == self.spec_checks().push(Check::Contains(letters)),
    {
        let mut s = self;
        s.checks.push(Check::Contains(letters));
        s
    }

    /// Keep only entries whose letters fit within the multiset `letters`.
    pub fn contained_letters(self, letters: SortedLetters) -> (r: Self)
        ensures
            r.spec_checks() == self.spec_checks().push(Check::Contained(letters)),
    {
        let mut s = self;
        s.checks.push(Check::Contained(letters));
        s
    }

    /// Freeze the accumulated checks into a filter.
    pub fn build(self) -> (r: Filter)
        ensures
            r.spec_checks() == self.spec_checks(),
    {
        Filter::new(self.checks)
    }
}

} // verus!
