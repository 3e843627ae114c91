//! A 26-bit presence mask over the alphabet: bit `j` is set when the letter
//! with alphabet position `j` occurs in a text, in either case.  Used by
//! filters for fast include/exclude tests.

use crate::sorted_letters::letter_index;
use vstd::prelude::*;

verus! {

/// Bit `j` of `m` is set.
pub open spec fn mask_bit(m: u32, j: int) -> bool {
    0 <= j < 32 && (m >> (j as u32)) & 1u32 == 1u32
}

/// Some character of `s` is the letter with alphabet position `j`.
pub open spec fn text_has_letter(s: Seq<char>, j: int) -> bool {
    exists|i: int| 0 <= i < s.len() && letter_index(s[i]) == j
}

/// Setting one bit leaves exactly that bit and the already-set ones.
proof fn lemma_or_bit(m: u32, k: u32, j: u32)
    requires
        k < 32,
        j < 32,
    ensures
        ((m | (1u32 << k)) >> j) & 1u32 == 1u32 <==> ((m >> j) & 1u32 == 1u32 || j == k),
{
    assert(((m | (1u32 << k)) >> j) & 1u32 == 1u32 <==> ((m >> j) & 1u32 == 1u32 || j == k))
        by (bit_vector)
        requires
            k < 32 && j < 32,
    ;
}

/// The zero mask has no bits set.
proof fn lemma_zero_bit(j: u32)
    requires
        j < 32,
    ensures
        (0u32 >> j) & 1u32 != 1u32,
{
    assert((0u32 >> j) & 1u32 != 1u32) by (bit_vector)
        requires
            j < 32,
    ;
}

/// One bit of an intersection is set exactly when it is set on both sides.
proof fn lemma_and_bit(a: u32, b: u32, j: u32)
    requires
        j < 32,
    ensures
        ((a & b) >> j) & 1u32 == 1u32 <==> ((a >> j) & 1u32 == 1u32 && (b >> j) & 1u32 == 1u32),
{
    assert(((a & b) >> j) & 1u32 == 1u32 <==> ((a >> j) & 1u32 == 1u32 && (b >> j) & 1u32 == 1u32))
        by (bit_vector)
        requires
            j < 32,
    ;
}

/// One bit of `a & !b` is set exactly when it is set in `a` and not in `b`.
proof fn lemma_and_not_bit(a: u32, b: u32, j: u32)
    requires
        j < 32,
    ensures
        ((a & !b) >> j) & 1u32 == 1u32 <==> ((a >> j) & 1u32 == 1u32 && !((b >> j) & 1u32
            == 1u32)),
{
    assert(((a & !b) >> j) & 1u32 == 1u32 <==> ((a >> j) & 1u32 == 1u32 && !((b >> j) & 1u32
        == 1u32))) by (bit_vector)
        requires
            j < 32,
    ;
}

/// A non-zero word has at least one set bit.
proof fn lemma_nonzero_has_bit(m: u32) -> (j: u32)
    requires
        m != 0,
    ensures
        j < 32,
        (m >> j) & 1u32 == 1u32,
    decreases m,
{
    if m & 1u32 == 1u32 {
        assert((m >> 0u32) & 1u32 == 1u32) by (bit_vector)
            requires
                m & 1u32 == 1u32,
        ;
        0
    } else {
        assert(m >> 1u32 != 0 && m >> 1u32 < m) by (bit_vector)
            requires
                m != 0 && m & 1u32 != 1u32,
        ;
        let k = lemma_nonzero_has_bit(m >> 1u32);
        assert(k < 31) by (bit_vector)
            requires
                ((m >> 1u32) >> k) & 1u32 == 1u32 && k < 32,
        ;
        assert((m >> ((k + 1) as u32)) & 1u32 == 1u32) by (bit_vector)
            requires
                ((m >> 1u32) >> k) & 1u32 == 1u32 && k < 31,
        ;
        (k + 1) as u32
    }
}

/// `a & b == a` holds exactly when `a` has no bit outside `b`.
proof fn lemma_subset_iff(a: u32, b: u32)
    ensures
        (a & b == a) <==> (a & !b == 0),
{
    assert((a & b == a) <==> (a & !b == 0)) by (bit_vector);
}

/// Extending a text by one character adds exactly that character's letter.
proof fn lemma_has_letter_snoc(s: Seq<char>, c: char, j: int)
    ensures
        text_has_letter(s.push(c), j) <==> (text_has_letter(s, j) || letter_index(c) == j),
{
    if text_has_letter(s, j) {
        let i = choose|i: int| 0 <= i < s.len() && letter_index(s[i]) == j;
        assert(s.push(c)[i] == s[i]);
    }
    if letter_index(c) == j {
        assert(s.push(c)[s.len() as int] == c);
    }
    if text_has_letter(s.push(c), j) {
        let i = choose|i: int| 0 <= i < s.push(c).len() && letter_index(s.push(c)[i]) == j;
        if i < s.len() {
            assert(s[i] == s.push(c)[i]);
        } else {
            assert(s.push(c)[i] == c);
        }
    }
}

#[derive(Clone, Copy, Debug, PartialEq, Eq)]
pub struct LetterMask(u32);

impl LetterMask {
    /// The raw bits of the mask.
    pub closed spec fn spec_bits(self) -> u32 {
        self.0
    }

    /// The letter with alphabet position `j` is present in the mask.
    pub open spec fn has_letter(self, j: int) -> bool {
        mask_bit(self.spec_bits(), j)
    }

    /// Mask of the letters occurring in `letters`, case-insensitively;
    /// non-letter characters contribute nothing.
    pub fn new(letters: &str) -> (r: Self)
        ensures
            forall|j: int| r.has_letter(j) <==> (0 <= j < 26 && text_has_letter(letters@, j)),
    {
        let ghost s = letters@;
        let mut mask: u32 = 0;
        let n = letters.unicode_len();
        let mut i: usize = 0;
        proof {
            assert forall|j: int| !mask_bit(0u32, j) by {
                if 0 <= j < 32 {
                    lemma_zero_bit(j as u32);
                }
            }
            assert(s.take(0) =~= Seq::empty());
        }
        while i < n
            invariant
                i <= n,
                n == s.len(),
                letters@ == s,
                forall|j: int| mask_bit(mask, j) <==> (0 <= j < 26 && text_has_letter(
                    s.take(i as int),
                    j,
                )),
            decreases n - i,
        {
            let ch = letters.get_char(i);
            let code = ch as u32;
            proof {
                assert(s.take(i as int).push(ch) =~= s.take(i + 1));
            }
            let old_mask = mask;
            if 97 <= code && code <= 122 {
                let k = code - 97;
                mask = mask | (1u32 << k);
                proof {
                    assert(letter_index(ch) == k as int);
                    assert forall|j: int| mask_bit(mask, j) <==> (mask_bit(old_mask, j) || j
                        == k as int) by {
                        if 0 <= j < 32 {
                            lemma_or_bit(old_mask, k, j as u32);
                        }
                    }
                }
            } else if 65 <= code && code <= 90 {
                let k = code - 65;
                mask = mask | (1u32 << k);
                proof {
                    assert(letter_index(ch) == k as int);
                    assert forall|j: int| mask_bit(mask, j) <==> (mask_bit(old_mask, j) || j
                        == k as int) by {
                        if 0 <= j < 32 {
                            lemma_or_bit(old_mask, k, j as u32);
                        }
                    }
                }
            } else {
                proof {
                    assert(letter_index(ch) == -1);
                }
            }
            proof {
                assert forall|j: int| mask_bit(mask, j) <==> (0 <= j < 26 && text_has_letter(
                    s.take(i + 1),
                    j,
                )) by {
                    lemma_has_letter_snoc(s.take(i as int), ch, j);
                }
            }
            i += 1;
        }
        proof {
            assert(s.take(n as int) =~= s);
        }
        LetterMask(mask)
    }

    /// The two masks share at least one letter.
    pub fn intersects(&self, other: &Self) -> (r: bool)
        ensures
            r == exists|j: int| #[trigger] self.has_letter(j) && other.has_letter(j),
    {
        let r = self.0 & other.0 != 0;
        proof {
            if r {
                let j = lemma_nonzero_has_bit(self.0 & other.0);
                lemma_and_bit(self.0, other.0, j);
                assert(self.has_letter(j as int) && other.has_letter(j as int));
            } else {
                assert forall|j: int| !(#[trigger] self.has_letter(j) && other.has_letter(j)) by {
                    if 0 <= j < 32 {
                        lemma_and_bit(self.0, other.0, j as u32);
                        lemma_zero_bit(j as u32);
                    }
                }
            }
        }
        r
    }

    /// Every letter of `self` is also a letter of `other`.
    pub fn subset_of(&self, other: &Self) -> (r: bool)
        ensures
            r == forall|j: int| #[trigger] self.has_letter(j) ==> other.has_letter(j),
    {
        let r = self.0 & other.0 == self.0;
        proof {
            lemma_subset_iff(self.0, other.0);
            if r {
                assert forall|j: int| #[trigger] self.has_letter(j) implies other.has_letter(
                    j,
                ) by {
                    lemma_and_not_bit(self.0, other.0, j as u32);
                    lemma_zero_bit(j as u32);
                }
            } else {
                let j = lemma_nonzero_has_bit(self.0 & !other.0);
                lemma_and_not_bit(self.0, other.0, j);
                assert(self.has_letter(j as int) && !other.has_letter(j as int));
            }
        }
        r
    }
}

} // verus!
