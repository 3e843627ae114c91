//! A multiset of letters over the 26-letter alphabet, stored as one count
//! per letter.  Built from text by counting ASCII letters case-insensitively;
//! non-letters are ignored.  Supports subset/superset tests, subtraction, and
//! a canonical sorted-letter text form.

use vstd::prelude::*;

verus! {

/// Position of `c` in the alphabet if it is an ASCII letter (either case),
/// and -1 for every other character.
pub open spec fn letter_index(c: char) -> int {
    if 'a' <= c && c <= 'z' {
        c as int - 'a' as int
    } else if 'A' <= c && c <= 'Z' {
        c as int - 'A' as int
    } else {
        -1
    }
}

/// Number of characters of `s` that are the letter with alphabet position `j`
/// (in either case).
pub open spec fn letter_count(s: Seq<char>, j: int) -> nat
    decreases s.len(),
{
    if s.len() == 0 {
        0
    } else {
        letter_count(s.drop_last(), j) + (if letter_index(s.last()) == j {
            1nat
        } else {
            0nat
        })
    }
}

/// The letter multiset of a text: one count per alphabet position.
pub open spec fn counts_of(s: Seq<char>) -> Seq<int> {
    Seq::new(26, |j: int| letter_count(s, j) as int)
}

/// A well-formed multiset view: 26 non-negative counts.
pub open spec fn ms_wf(a: Seq<int>) -> bool {
    a.len() == 26 && forall|j: int| 0 <= j < 26 ==> a[j] >= 0
}

/// Every count of `a` is at least the matching count of `b`.
pub open spec fn ms_superset(a: Seq<int>, b: Seq<int>) -> bool {
    forall|j: int| 0 <= j < 26 ==> a[j] >= b[j]
}

/// All counts are zero.
pub open spec fn ms_empty(a: Seq<int>) -> bool {
    forall|j: int| 0 <= j < 26 ==> a[j] == 0
}

/// Element-wise difference of two multisets.
pub open spec fn ms_sub(a: Seq<int>, b: Seq<int>) -> Seq<int> {
    Seq::new(26, |j: int| a[j] - b[j])
}

/// Element-wise sum of two multisets.
pub open spec fn ms_add(a: Seq<int>, b: Seq<int>) -> Seq<int> {
    Seq::new(26, |j: int| a[j] + b[j])
}

/// The multiset with no letters.
pub open spec fn ms_zero() -> Seq<int> {
    Seq::new(26, |j: int| 0)
}

/// The lower-case character at alphabet position `j`.
pub open spec fn letter_char(j: int) -> char {
    (('a' as int) + j) as char
}

/// `n` copies of `c`.
pub open spec fn repeat_char(c: char, n: nat) -> Seq<char> {
    Seq::new(n, |i: int| c)
}

/// The canonical text of the counts `a`, from alphabet position `j` on:
/// each letter repeated by its count, in alphabet order.
pub open spec fn canonical_from(a: Seq<int>, j: int) -> Seq<char>
    decreases 26 - j,
{
    if j < 0 || j >= 26 {
        Seq::empty()
    } else {
        repeat_char(letter_char(j), a[j] as nat) + canonical_from(a, j + 1)
    }
}

/// The canonical sorted-letter text of the counts `a`.
pub open spec fn canonical_text(a: Seq<int>) -> Seq<char> {
    canonical_from(a, 0)
}

/// The canonical text up to (excluding) alphabet position `j`.
pub open spec fn canonical_prefix(a: Seq<int>, j: int) -> Seq<char>
    decreases j,
{
    if j <= 0 {
        Seq::empty()
    } else {
        canonical_prefix(a, j - 1) + repeat_char(letter_char(j - 1), a[j - 1] as nat)
    }
}

/// The canonical text splits at every alphabet position.
pub proof fn lemma_canonical_split(a: Seq<int>, j: int)
    requires
        0 <= j <= 26,
    ensures
        canonical_prefix(a, j) + canonical_from(a, j) == canonical_text(a),
    decreases j,
{
    if j == 0 {
        assert(canonical_prefix(a, 0) + canonical_from(a, 0) =~= canonical_text(a));
    } else {
        lemma_canonical_split(a, j - 1);
        assert(canonical_prefix(a, j) + canonical_from(a, j) =~= canonical_prefix(a, j - 1)
            + (repeat_char(letter_char(j - 1), a[j - 1] as nat) + canonical_from(a, j)));
    }
}

/// A count of each letter never exceeds the length of the text.
pub proof fn lemma_letter_count_le_len(s: Seq<char>, j: int)
    ensures
        letter_count(s, j) <= s.len(),
    decreases s.len(),
{
    if s.len() > 0 {
        lemma_letter_count_le_len(s.drop_last(), j);
    }
}

/// Extending a text by one character raises exactly that character's count.
pub proof fn lemma_letter_count_snoc(s: Seq<char>, c: char, j: int)
    ensures
        letter_count(s.push(c), j) == letter_count(s, j) + (if letter_index(c) == j {
            1int
        } else {
            0int
        }),
{
    assert(s.push(c).drop_last() =~= s);
}

/// Every letter multiset contains itself: the superset test is reflexive.
pub proof fn lemma_superset_refl(a: Seq<int>)
    ensures
        ms_superset(a, a),
{
}

/// Adding a subtracted multiset back restores the original counts.
pub proof fn lemma_minus_add_back(a: Seq<int>, b: Seq<int>)
    requires
        ms_wf(a),
        ms_wf(b),
        ms_superset(a, b),
    ensures
        ms_add(ms_sub(a, b), b) =~= a,
{
}

/// After subtracting `b` from `a`, the difference no longer contains `b`,
/// provided `a` does not contain two copies of `b` (in particular `b` must
/// not be empty, since every multiset contains the empty one).
pub proof fn lemma_sub_not_superset(a: Seq<int>, b: Seq<int>)
    requires
        ms_wf(a),
        ms_wf(b),
        ms_superset(a, b),
        !ms_superset(a, ms_add(b, b)),
    ensures
        !ms_superset(ms_sub(a, b), b),
{
    let j = choose|j: int| 0 <= j < 26 && !(a[j] >= ms_add(b, b)[j]);
    assert(ms_sub(a, b)[j] < b[j]);
}

#[derive(Clone, Copy, Debug, PartialEq, Eq, Hash)]
pub struct SortedLetters {
    counts: [usize; 26],
}

impl View for SortedLetters {
    type V = Seq<int>;

    closed spec fn view(&self) -> Seq<int> {
        Seq::new(26, |j: int| self.counts@[j] as int)
    }
}

/// Every letter multiset holds exactly 26 non-negative counts.
pub proof fn lemma_counts_shape(s: SortedLetters)
    ensures
        s@.len() == 26,
        ms_wf(s@),
{
}

impl SortedLetters {
    /// Count the ASCII letters of `letters` case-insensitively, ignoring
    /// every other character.
    pub fn from_word(letters: &str) -> (r: Self)
        ensures
            r@ =~= counts_of(letters@),
    {
        let ghost s = letters@;
        let mut counts: [usize; 26] = [0; 26];
        let n = letters.unicode_len();
        let mut i: usize = 0;
        while i < n
            invariant
                i <= n,
                n == s.len(),
                letters@ == s,
                forall|j: int| 0 <= j < 26 ==> counts@[j] == letter_count(s.take(i as int), j),
            decreases n - i,
        {
            let ch = letters.get_char(i);
            let code = ch as u32;
            proof {
                assert(s.take(i as int).push(ch) =~= s.take(i + 1));
            }
            if 97 <= code && code <= 122 {
                let idx = (code - 97) as usize;
                let c = counts[idx];
                proof {
                    lemma_letter_count_le_len(s.take(i as int), idx as int);
                }
                counts[idx] = c + 1;
            } else if 65 <= code && code <= 90 {
                let idx = (code - 65) as usize;
                let c = counts[idx];
                proof {
                    lemma_letter_count_le_len(s.take(i as int), idx as int);
                }
                counts[idx] = c + 1;
            }
            proof {
                assert forall|j: int| 0 <= j < 26 implies counts@[j] == letter_count(
                    s.take(i + 1),
                    j,
                ) by {
                    lemma_letter_count_snoc(s.take(i as int), ch, j);
                }
            }
            i += 1;
        }
        proof {
            assert(s.take(n as int) =~= s);
        }
        let r = SortedLetters { counts };
        proof {
            assert(r@ =~= counts_of(letters@));
        }
        r
    }

    /// Every letter of `other` occurs in `self` at least as often.
    pub fn is_superset(&self, other: &Self) -> (r: bool)
        ensures
            r == ms_superset(self@, other@),
    {
        let mut j: usize = 0;
        while j < 26
            invariant
                j <= 26,
                forall|k: int| 0 <= k < j ==> self@[k] >= other@[k],
            decreases 26 - j,
        {
            if self.counts[j] < other.counts[j] {
                proof {
                    assert(self@[j as int] < other@[j as int]);
                }
                return false;
            }
            j += 1;
        }
        true
    }

    /// Every letter of `self` occurs in `other` at least as often.
    pub fn is_subset(&self, other: &Self) -> (r: bool)
        ensures
            r == ms_superset(other@, self@),
    {
        other.is_superset(self)
    }

    /// Remove the letters of `other` from `self`; yields nothing when some
    /// count would go negative, that is, exactly when `other` is not a
    /// subset of `self`.
    pub fn minus(&self, other: &Self) -> (r: Option<Self>)
        ensures
            r is Some <==> ms_superset(self@, other@),
            r matches Some(d) ==> d@ =~= ms_sub(self@, other@),
    {
        let mut counts: [usize; 26] = [0; 26];
        let mut j: usize = 0;
        while j < 26
            invariant
                j <= 26,
                forall|k: int| 0 <= k < j ==> self@[k] >= other@[k],
                forall|k: int| 0 <= k < j ==> counts@[k] == self@[k] - other@[k],
            decreases 26 - j,
        {
            let a = self.counts[j];
            let b = other.counts[j];
            if a < b {
                proof {
                    assert(self@[j as int] < other@[j as int]);
                }
                return None;
            }
            counts[j] = a - b;
            j += 1;
        }
        let d = SortedLetters { counts };
        proof {
            assert(d@ =~= ms_sub(self@, other@));
        }
        Some(d)
    }

    /// No letters at all.
    pub fn is_empty(&self) -> (r: bool)
        ensures
            r == ms_empty(self@),
    {
        let mut j: usize = 0;
        while j < 26
            invariant
                j <= 26,
                forall|k: int| 0 <= k < j ==> self@[k] == 0,
            decreases 26 - j,
        {
            if self.counts[j] != 0 {
                proof {
                    assert(self@[j as int] != 0);
                }
                return false;
            }
            j += 1;
        }
        true
    }

    /// The canonical sorted-letter text form: each letter repeated by its
    /// count, in alphabet order.
    pub fn to_text(&self) -> (r: String)
        ensures
            r@ == canonical_text(self@),
    {
        let alphabet = "abcdefghijklmnopqrstuvwxyz";
        proof {
            reveal_strlit("abcdefghijklmnopqrstuvwxyz");
            assert(alphabet.is_ascii());
        }
        let mut out = String::new();
        let mut j: usize = 0;
        while j < 26
            invariant
                j <= 26,
                alphabet.is_ascii(),
                alphabet@.len() == 26,
                forall|k: int| 0 <= k < 26 ==> alphabet@[k] == letter_char(k),
                out@ == canonical_prefix(self@, j as int),
            decreases 26 - j,
        {
            let c = self.counts[j];
            let letter = alphabet.substring_ascii(j, j + 1);
            proof {
                assert(letter@ =~= seq![letter_char(j as int)]);
            }
            let mut t: usize = 0;
            while t < c
                invariant
                    t <= c,
                    j < 26,
                    c as int == self@[j as int],
                    letter@ =~= seq![letter_char(j as int)],
                    out@ == canonical_prefix(self@, j as int) + repeat_char(
                        letter_char(j as int),
                        t as nat,
                    ),
                decreases c - t,
            {
                out.append(letter);
                proof {
                    assert(repeat_char(letter_char(j as int), (t + 1) as nat) =~= repeat_char(
                        letter_char(j as int),
                        t as nat,
                    ) + letter@);
                }
                t += 1;
            }
            proof {
                assert(out@ == canonical_prefix(self@, j + 1));
            }
            j += 1;
        }
        proof {
            lemma_canonical_split(self@, 26);
            assert(canonical_from(self@, 26) =~= Seq::empty());
            assert(out@ =~= canonical_text(self@));
        }
        out
    }

    /// Structural equality of the two count tables.
    pub fn equals(&self, other: &Self) -> (r: bool)
        ensures
            r == (self@ == other@),
    {
        let mut j: usize = 0;
        while j < 26
            invariant
                j <= 26,
                forall|k: int| 0 <= k < j ==> self@[k] == other@[k],
            decreases 26 - j,
        {
            if self.counts[j] != other.counts[j] {
                proof {
                    assert(self@[j as int] != other@[j as int]);
                }
                return false;
            }
            j += 1;
        }
        proof {
            assert(self@ =~= other@);
        }
        true
    }
}

} // verus!
