//! An inclusive range of word lengths with a compact textual form:
//! `"N"` means the single length N, `"N-M"` the lengths N through M.

use vstd::prelude::*;

verus! {

/// `c` is an ASCII decimal digit.
pub open spec fn is_digit(c: char) -> bool {
    '0' <= c && c <= '9'
}

/// Every character of `s` is a digit, and there is at least one.
pub open spec fn all_digits(s: Seq<char>) -> bool {
    s.len() > 0 && forall|i: int| 0 <= i < s.len() ==> is_digit(#[trigger] s[i])
}

/// The number denoted by a digit string, most significant digit first.
pub open spec fn digits_value(s: Seq<char>) -> int
    decreases s.len(),
{
    if s.len() == 0 {
        0
    } else {
        digits_value(s.drop_last()) * 10 + (s.last() as int - '0' as int)
    }
}

/// Position of the first `'-'` in `s`, or `s.len()` if there is none.
pub open spec fn dash_index(s: Seq<char>) -> int
    decreases s.len(),
{
    if s.len() == 0 {
        0
    } else if s[0] == '-' {
        0
    } else {
        1 + dash_index(s.drop_first())
    }
}

/// What a range text denotes, if anything: the part before the first `'-'`
/// is the minimum; with no `'-'` it is also the maximum, otherwise the
/// maximum is the part between the first and second `'-'` (anything after a
/// second `'-'` is ignored).  Both parts must be plain digit strings whose
/// values fit in `usize`, and the minimum must not exceed the maximum.
pub open spec fn range_of_text(s: Seq<char>) -> Option<(int, int)> {
    let d1 = dash_index(s);
    if d1 == s.len() {
        if all_digits(s) && digits_value(s) <= usize::MAX {
            Some((digits_value(s), digits_value(s)))
        } else {
            None
        }
    } else {
        let m = s.take(d1);
        let r = s.skip(d1 + 1);
        let x = r.take(dash_index(r));
        if all_digits(m) && digits_value(m) <= usize::MAX && all_digits(x) && digits_value(x)
            <= usize::MAX && digits_value(m) <= digits_value(x) {
            Some((digits_value(m), digits_value(x)))
        } else {
            None
        }
    }
}

/// An inclusive range of word lengths.
#[derive(Clone, Copy, Debug, PartialEq, Eq)]
pub struct LengthRange {
    min: usize,
    max: usize,
}

impl LengthRange {
    /// The lower bound.
    pub closed spec fn spec_min(self) -> int {
        self.min as int
    }

    /// The upper bound.
    pub closed spec fn spec_max(self) -> int {
        self.max as int
    }

    /// The bounds are ordered.
    pub open spec fn wf(self) -> bool {
        self.spec_min() <= self.spec_max()
    }

    /// `n` lies within the range.
    pub open spec fn spec_contains(self, n: int) -> bool {
        self.spec_min() <= n && n <= self.spec_max()
    }

    pub fn new(min: usize, max: usize) -> (r: Self)
        requires
            min <= max,
        ensures
            r.spec_min() == min,
            r.spec_max() == max,
            r.wf(),
    {
        Self { min, max }
    }

    pub fn contains(&self, n: usize) -> (r: bool)
        ensures
            r == self.spec_contains(n as int),
    {
        self.min <= n && n <= self.max
    }

    /// Parse `"N"` or `"N-M"`; yields nothing on any malformed text, on a
    /// value too large for `usize`, or on an empty or inverted range.
    pub fn parse(s: &str) -> (r: Option<Self>)
        ensures
            r is Some <==> range_of_text(s@) is Some,
            r matches Some(lr) ==> {
                &&& range_of_text(s@) matches Some(p) && lr.spec_min() == p.0 && lr.spec_max()
                    == p.1
                &&& lr.wf()
            },
    {
        let n = s.unicode_len();
        let d1 = find_dash(s, 0);
        if d1 == n {
            proof {
                lemma_dash_index_characterization(s@, n as int);
                assert(s@.subrange(0, n as int) =~= s@);
            }
            match parse_digits(s, 0, n) {
                Some(v) => Some(LengthRange { min: v, max: v }),
                None => None,
            }
        } else {
            let d2 = find_dash(s, d1 + 1);
            proof {
                lemma_dash_split(s@, d1 as int, d2 as int);
                assert(s@.subrange(0, d1 as int) =~= s@.take(d1 as int));
            }
            let min = match parse_digits(s, 0, d1) {
                Some(v) => v,
                None => {
                    return None;
                },
            };
            let max = match parse_digits(s, d1 + 1, d2) {
                Some(v) => v,
                None => {
                    return None;
                },
            };
            if min <= max {
                Some(LengthRange { min, max })
            } else {
                None
            }
        }
    }
}

/// The first dash at or after `from` marks the split positions that
/// `range_of_text` speaks of.
proof fn lemma_dash_split(s: Seq<char>, d1: int, d2: int)
    requires
        0 <= d1 < s.len(),
        s[d1] == '-',
        forall|i: int| 0 <= i < d1 ==> s[i] != '-',
        d1 + 1 <= d2 <= s.len(),
        d2 < s.len() ==> s[d2] == '-',
        forall|i: int| d1 + 1 <= i < d2 ==> s[i] != '-',
    ensures
        dash_index(s) == d1,
        dash_index(s.skip(d1 + 1)) == d2 - d1 - 1,
        s.skip(d1 + 1).take(d2 - d1 - 1) =~= s.subrange(d1 + 1, d2),
{
    lemma_dash_index_characterization(s, d1);
    let r = s.skip(d1 + 1);
    lemma_dash_index_characterization(r, d2 - d1 - 1);
}

/// `dash_index` is the unique position d such that everything before d is
/// not a dash and d is either a dash or the end.
proof fn lemma_dash_index_characterization(s: Seq<char>, d: int)
    requires
        0 <= d <= s.len(),
        d < s.len() ==> s[d] == '-',
        forall|i: int| 0 <= i < d ==> s[i] != '-',
    ensures
        dash_index(s) == d,
    decreases s.len(),
{
    if s.len() == 0 {
    } else if s[0] == '-' {
    } else {
        lemma_dash_index_characterization(s.drop_first(), d - 1);
    }
}

/// The value of a digit string is never negative.
proof fn lemma_digits_value_nonneg(s: Seq<char>)
    requires
        forall|i: int| 0 <= i < s.len() ==> is_digit(#[trigger] s[i]),
    ensures
        digits_value(s) >= 0,
    decreases s.len(),
{
    if s.len() > 0 {
        lemma_digits_value_nonneg(s.drop_last());
    }
}

/// Extending a digit string only increases its value.
proof fn lemma_digits_value_monotone(s: Seq<char>, i: int, j: int)
    requires
        forall|k: int| 0 <= k < s.len() ==> is_digit(#[trigger] s[k]),
        0 <= i <= j <= s.len(),
    ensures
        digits_value(s.take(i)) <= digits_value(s.take(j)),
    decreases j - i,
{
    if i < j {
        lemma_digits_value_monotone(s, i, j - 1);
        let t = s.take(j);
        assert(t.drop_last() =~= s.take(j - 1));
        lemma_digits_value_nonneg(s.take(j - 1));
    }
}

/// Find the first `'-'` at or after `from`; yields the text length if none.
fn find_dash(s: &str, from: usize) -> (r: usize)
    requires
        from <= s@.len(),
    ensures
        from <= r <= s@.len(),
        r < s@.len() ==> s@[r as int] == '-',
        forall|i: int| from <= i < r ==> s@[i] != '-',
{
    let n = s.unicode_len();
    let mut i = from;
    while i < n
        invariant
            from <= i <= n,
            n == s@.len(),
            forall|k: int| from <= k < i ==> s@[k] != '-',
        decreases n - i,
    {
        if s.get_char(i) == '-' {
            return i;
        }
        i += 1;
    }
    n
}

/// Parse the digits of `s` between `from` and `to`; yields nothing when the
/// piece is empty, holds a non-digit, or denotes a value above `usize::MAX`.
fn parse_digits(s: &str, from: usize, to: usize) -> (r: Option<usize>)
    requires
        from <= to <= s@.len(),
    ensures
        ({
            let part = s@.subrange(from as int, to as int);
            &&& r is Some <==> (all_digits(part) && digits_value(part) <= usize::MAX)
            &&& r matches Some(v) ==> v as int == digits_value(part)
        }),
{
    let ghost part = s@.subrange(from as int, to as int);
    if from == to {
        return None;
    }
    let mut acc: usize = 0;
    let mut i = from;
    while i < to
        invariant
            from <= i <= to <= s@.len(),
            part == s@.subrange(from as int, to as int),
            forall|k: int| 0 <= k < i - from ==> is_digit(#[trigger] part[k]),
            acc as int == digits_value(part.take(i - from)),
        decreases to - i,
    {
        let ch = s.get_char(i);
        let code = ch as u32;
        proof {
            assert(part[i - from] == s@[i as int]);
            assert(part.take(i - from + 1).drop_last() =~= part.take(i - from));
        }
        if code < 48 || code > 57 {
            proof {
                assert(!is_digit(part[i - from]));
            }
            return None;
        }
        let d = (code - 48) as usize;
        if acc > (usize::MAX - d) / 10 {
            proof {
                if all_digits(part) {
                    lemma_digits_value_monotone(part, i - from + 1, part.len() as int);
                    assert(part.take(part.len() as int) =~= part);
                }
            }
            return None;
        }
        acc = acc * 10 + d;
        i += 1;
    }
    proof {
        assert(part.take(to - from) =~= part);
    }
    Some(acc)
}

} // verus!
