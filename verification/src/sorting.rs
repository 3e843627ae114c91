//! A stable insertion sort over items tagged with a compound key: three
//! integer components in ascending order, then a text compared
//! lexicographically.  The result is pinned exactly by a recursive
//! insertion spec, which makes stability (equal keys keep their input
//! order) part of the definition.

use vstd::prelude::*;

verus! {

/// `a` is lexicographically at most `b`, comparing characters by code
/// point; a prefix comes before every extension of it.
pub open spec fn lex_le(a: Seq<char>, b: Seq<char>) -> bool
    decreases a.len(),
{
    if a.len() == 0 {
        true
    } else if b.len() == 0 {
        false
    } else if (a[0] as int) < (b[0] as int) {
        true
    } else if (a[0] as int) > (b[0] as int) {
        false
    } else {
        lex_le(a.drop_first(), b.drop_first())
    }
}

/// `a` comes strictly before `b` lexicographically.
pub open spec fn lex_lt(a: Seq<char>, b: Seq<char>) -> bool {
    !lex_le(b, a)
}

/// `a` is lexicographically at most `b`.
pub fn str_lex_le(a: &str, b: &str) -> (r: bool)
    ensures
        r == lex_le(a@, b@),
{
    let na = a.unicode_len();
    let nb = b.unicode_len();
    let mut i: usize = 0;
    proof {
        assert(a@.skip(0) =~= a@);
        assert(b@.skip(0) =~= b@);
    }
    while i < na && i < nb
        invariant
            i <= na,
            i <= nb,
            na == a@.len(),
            nb == b@.len(),
            lex_le(a@, b@) == lex_le(a@.skip(i as int), b@.skip(i as int)),
        decreases na - i,
    {
        let ca = a.get_char(i);
        let cb = b.get_char(i);
        if (ca as u32) < (cb as u32) {
            return true;
        }
        if (ca as u32) > (cb as u32) {
            return false;
        }
        proof {
            assert(a@.skip(i as int).drop_first() =~= a@.skip(i + 1));
            assert(b@.skip(i as int).drop_first() =~= b@.skip(i + 1));
        }
        i += 1;
    }
    na <= nb
}

/// An item to sort: three integer key components, a text key, and the
/// carried value.
pub struct Keyed<T> {
    pub k1: usize,
    pub k2: usize,
    pub k3: usize,
    pub word: String,
    pub val: T,
}

/// Strict key order: ascending by `k1`, then `k2`, then `k3`, then the
/// text.  Items with fully equal keys are unordered, and the sort keeps
/// their input order.
pub open spec fn keyed_lt<T>(x: Keyed<T>, y: Keyed<T>) -> bool {
    ||| x.k1 < y.k1
    ||| (x.k1 == y.k1 && x.k2 < y.k2)
    ||| (x.k1 == y.k1 && x.k2 == y.k2 && x.k3 < y.k3)
    ||| (x.k1 == y.k1 && x.k2 == y.k2 && x.k3 == y.k3 && lex_lt(x.word@, y.word@))
}

/// Insert `x` into `s` from the right, moving it left past every element
/// strictly greater than it; with `s` sorted this places `x` after all
/// elements of equal key.
pub open spec fn insert_keyed<T>(s: Seq<Keyed<T>>, x: Keyed<T>) -> Seq<Keyed<T>>
    decreases s.len(),
{
    if s.len() == 0 {
        seq![x]
    } else if keyed_lt(x, s.last()) {
        insert_keyed(s.drop_last(), x).push(s.last())
    } else {
        s.push(x)
    }
}

/// Stable insertion sort of `s`, defined by inserting each element in
/// turn.
pub open spec fn sort_spec<T>(s: Seq<Keyed<T>>) -> Seq<Keyed<T>>
    decreases s.len(),
{
    if s.len() == 0 {
        Seq::empty()
    } else {
        insert_keyed(sort_spec(s.drop_last()), s.last())
    }
}

/// The carried values of a keyed sequence, in order.
pub open spec fn vals_of<T>(s: Seq<Keyed<T>>) -> Seq<T> {
    s.map_values(|k: Keyed<T>| k.val)
}

/// Insert `x` into `s` from the right, moving it left past every element
/// strictly greater under `lt`.
pub open spec fn insert_by<T>(s: Seq<T>, x: T, lt: spec_fn(T, T) -> bool) -> Seq<T>
    decreases s.len(),
{
    if s.len() == 0 {
        seq![x]
    } else if lt(x, s.last()) {
        insert_by(s.drop_last(), x, lt).push(s.last())
    } else {
        s.push(x)
    }
}

/// Stable insertion sort under `lt`: equal elements keep their input
/// order.
pub open spec fn sort_by_lt<T>(s: Seq<T>, lt: spec_fn(T, T) -> bool) -> Seq<T>
    decreases s.len(),
{
    if s.len() == 0 {
        Seq::empty()
    } else {
        insert_by(sort_by_lt(s.drop_last(), lt), s.last(), lt)
    }
}

/// Value-level insertion adds exactly the inserted element.
proof fn lemma_insert_by_contains<T>(s: Seq<T>, x: T, lt: spec_fn(T, T) -> bool, z: T)
    ensures
        insert_by(s, x, lt).contains(z) <==> (s.contains(z) || z == x),
    decreases s.len(),
{
    if s.len() == 0 {
        assert(seq![x].contains(z) <==> z == x) by {
            assert(seq![x][0] == x);
            if seq![x].contains(z) {
                let i = choose|i: int| 0 <= i < seq![x].len() && seq![x][i] == z;
                assert(i == 0);
            }
        }
    } else if lt(x, s.last()) {
        lemma_insert_by_contains(s.drop_last(), x, lt, z);
        assert(s.contains(z) <==> (s.drop_last().contains(z) || z == s.last())) by {
            if s.contains(z) {
                let i = choose|i: int| 0 <= i < s.len() && s[i] == z;
                if i < s.len() - 1 {
                    assert(s.drop_last()[i] == z);
                }
            }
            if s.drop_last().contains(z) {
                let i = choose|i: int| 0 <= i < s.drop_last().len() && s.drop_last()[i] == z;
                assert(s[i] == z);
            }
            if z == s.last() {
                assert(s[s.len() - 1] == z);
            }
        }
        let t = insert_by(s.drop_last(), x, lt);
        assert(t.push(s.last()).contains(z) <==> (t.contains(z) || z == s.last())) by {
            if t.push(s.last()).contains(z) {
                let i = choose|i: int| 0 <= i < t.push(s.last()).len() && t.push(s.last())[i] == z;
                if i < t.len() {
                    assert(t[i] == z);
                }
            }
            if t.contains(z) {
                let i = choose|i: int| 0 <= i < t.len() && t[i] == z;
                assert(t.push(s.last())[i] == z);
            }
            assert(t.push(s.last())[t.len() as int] == s.last());
        }
    } else {
        assert(s.push(x).contains(z) <==> (s.contains(z) || z == x)) by {
            if s.push(x).contains(z) {
                let i = choose|i: int| 0 <= i < s.push(x).len() && s.push(x)[i] == z;
                if i < s.len() {
                    assert(s[i] == z);
                }
            }
            if s.contains(z) {
                let i = choose|i: int| 0 <= i < s.len() && s[i] == z;
                assert(s.push(x)[i] == z);
            }
            assert(s.push(x)[s.len() as int] == x);
        }
    }
}

/// The value-level sort keeps exactly the input's contents.
pub proof fn lemma_sort_by_lt_contains<T>(s: Seq<T>, lt: spec_fn(T, T) -> bool, z: T)
    ensures
        sort_by_lt(s, lt).contains(z) <==> s.contains(z),
    decreases s.len(),
{
    if s.len() > 0 {
        lemma_sort_by_lt_contains(s.drop_last(), lt, z);
        lemma_insert_by_contains(sort_by_lt(s.drop_last(), lt), s.last(), lt, z);
        assert(s.contains(z) <==> (s.drop_last().contains(z) || z == s.last())) by {
            if s.contains(z) {
                let i = choose|i: int| 0 <= i < s.len() && s[i] == z;
                if i < s.len() - 1 {
                    assert(s.drop_last()[i] == z);
                }
            }
            if s.drop_last().contains(z) {
                let i = choose|i: int| 0 <= i < s.drop_last().len() && s.drop_last()[i] == z;
                assert(s[i] == z);
            }
            if z == s.last() {
                assert(s[s.len() - 1] == z);
            }
        }
    }
}

/// No inversion: no later element comes strictly before an earlier one.
pub open spec fn sorted_by<T>(s: Seq<T>, lt: spec_fn(T, T) -> bool) -> bool {
    forall|i: int, j: int| 0 <= i < j < s.len() ==> !lt(#[trigger] s[j], #[trigger] s[i])
}

/// Inserting into a sorted sequence keeps it sorted, for an asymmetric
/// order whose complement is transitive (a strict weak order).
proof fn lemma_insert_by_sorted<T>(s: Seq<T>, x: T, lt: spec_fn(T, T) -> bool)
    requires
        sorted_by(s, lt),
        forall|a: T, b: T| #[trigger] lt(a, b) ==> !lt(b, a),
        forall|a: T, b: T, c: T| !(#[trigger] lt(a, b)) && !(#[trigger] lt(b, c)) ==> !lt(a, c),
    ensures
        sorted_by(insert_by(s, x, lt), lt),
    decreases s.len(),
{
    if s.len() == 0 {
    } else if lt(x, s.last()) {
        lemma_insert_by_sorted(s.drop_last(), x, lt);
        let t = insert_by(s.drop_last(), x, lt);
        lemma_insert_by_len(s.drop_last(), x, lt);
        assert forall|i: int, j: int| 0 <= i < j < t.push(s.last()).len() implies !lt(
            #[trigger] t.push(s.last())[j],
            #[trigger] t.push(s.last())[i],
        ) by {
            if j < t.len() {
                assert(t.push(s.last())[i] == t[i] && t.push(s.last())[j] == t[j]);
            } else {
                assert(t.push(s.last())[j] == s.last());
                assert(t.push(s.last())[i] == t[i]);
                lemma_insert_by_contains(s.drop_last(), x, lt, t[i]);
                if t[i] == x {
                    assert(!lt(s.last(), x));
                } else {
                    let k = choose|k: int|
                        0 <= k < s.drop_last().len() && s.drop_last()[k] == t[i];
                    assert(s[k] == t[i]);
                    assert(!lt(s.last(), s[k]));
                }
            }
        }
    } else {
        assert forall|i: int, j: int| 0 <= i < j < s.push(x).len() implies !lt(
            #[trigger] s.push(x)[j],
            #[trigger] s.push(x)[i],
        ) by {
            if j < s.len() {
                assert(s.push(x)[i] == s[i] && s.push(x)[j] == s[j]);
            } else {
                assert(s.push(x)[j] == x);
                assert(s.push(x)[i] == s[i]);
                assert(!lt(x, s.last()));
                if i < s.len() - 1 {
                    assert(!lt(s.last(), s[i]));
                }
            }
        }
    }
}

/// The stable sort leaves no inversion, for an asymmetric order whose
/// complement is transitive (a strict weak order).
pub proof fn lemma_sort_by_lt_sorted<T>(s: Seq<T>, lt: spec_fn(T, T) -> bool)
    requires
        forall|a: T, b: T| #[trigger] lt(a, b) ==> !lt(b, a),
        forall|a: T, b: T, c: T| !(#[trigger] lt(a, b)) && !(#[trigger] lt(b, c)) ==> !lt(a, c),
    ensures
        sorted_by(sort_by_lt(s, lt), lt),
    decreases s.len(),
{
    if s.len() > 0 {
        lemma_sort_by_lt_sorted(s.drop_last(), lt);
        lemma_insert_by_sorted(sort_by_lt(s.drop_last(), lt), s.last(), lt);
    }
}

/// Value-level insertion grows the sequence by one.
proof fn lemma_insert_by_len<T>(s: Seq<T>, x: T, lt: spec_fn(T, T) -> bool)
    ensures
        insert_by(s, x, lt).len() == s.len() + 1,
    decreases s.len(),
{
    if s.len() > 0 && lt(x, s.last()) {
        lemma_insert_by_len(s.drop_last(), x, lt);
    }
}

/// The value-level sort keeps the length.
pub proof fn lemma_sort_by_lt_len<T>(s: Seq<T>, lt: spec_fn(T, T) -> bool)
    ensures
        sort_by_lt(s, lt).len() == s.len(),
    decreases s.len(),
{
    if s.len() > 0 {
        lemma_sort_by_lt_len(s.drop_last(), lt);
        lemma_insert_by_len(sort_by_lt(s.drop_last(), lt), s.last(), lt);
    }
}

/// Insertion adds exactly the inserted element to the contents.
proof fn lemma_insert_keyed_contains<T>(s: Seq<Keyed<T>>, x: Keyed<T>, z: Keyed<T>)
    ensures
        insert_keyed(s, x).contains(z) <==> (s.contains(z) || z == x),
    decreases s.len(),
{
    if s.len() == 0 {
        assert(seq![x].contains(z) <==> z == x) by {
            assert(seq![x][0] == x);
            if seq![x].contains(z) {
                let i = choose|i: int| 0 <= i < seq![x].len() && seq![x][i] == z;
                assert(i == 0);
            }
        }
    } else if keyed_lt(x, s.last()) {
        lemma_insert_keyed_contains(s.drop_last(), x, z);
        assert(s.contains(z) <==> (s.drop_last().contains(z) || z == s.last())) by {
            if s.contains(z) {
                let i = choose|i: int| 0 <= i < s.len() && s[i] == z;
                if i < s.len() - 1 {
                    assert(s.drop_last()[i] == z);
                }
            }
            if s.drop_last().contains(z) {
                let i = choose|i: int| 0 <= i < s.drop_last().len() && s.drop_last()[i] == z;
                assert(s[i] == z);
            }
            if z == s.last() {
                assert(s[s.len() - 1] == z);
            }
        }
        let t = insert_keyed(s.drop_last(), x);
        assert(t.push(s.last()).contains(z) <==> (t.contains(z) || z == s.last())) by {
            if t.push(s.last()).contains(z) {
                let i = choose|i: int| 0 <= i < t.push(s.last()).len() && t.push(s.last())[i] == z;
                if i < t.len() {
                    assert(t[i] == z);
                }
            }
            if t.contains(z) {
                let i = choose|i: int| 0 <= i < t.len() && t[i] == z;
                assert(t.push(s.last())[i] == z);
            }
            assert(t.push(s.last())[t.len() as int] == s.last());
        }
    } else {
        assert(s.push(x).contains(z) <==> (s.contains(z) || z == x)) by {
            if s.push(x).contains(z) {
                let i = choose|i: int| 0 <= i < s.push(x).len() && s.push(x)[i] == z;
                if i < s.len() {
                    assert(s[i] == z);
                }
            }
            if s.contains(z) {
                let i = choose|i: int| 0 <= i < s.len() && s[i] == z;
                assert(s.push(x)[i] == z);
            }
            assert(s.push(x)[s.len() as int] == x);
        }
    }
}

/// Sorting keeps exactly the input's contents.
proof fn lemma_sort_spec_contains<T>(s: Seq<Keyed<T>>, z: Keyed<T>)
    ensures
        sort_spec(s).contains(z) <==> s.contains(z),
    decreases s.len(),
{
    if s.len() > 0 {
        lemma_sort_spec_contains(s.drop_last(), z);
        lemma_insert_keyed_contains(sort_spec(s.drop_last()), s.last(), z);
        assert(s.contains(z) <==> (s.drop_last().contains(z) || z == s.last())) by {
            if s.contains(z) {
                let i = choose|i: int| 0 <= i < s.len() && s[i] == z;
                if i < s.len() - 1 {
                    assert(s.drop_last()[i] == z);
                }
            }
            if s.drop_last().contains(z) {
                let i = choose|i: int| 0 <= i < s.drop_last().len() && s.drop_last()[i] == z;
                assert(s[i] == z);
            }
            if z == s.last() {
                assert(s[s.len() - 1] == z);
            }
        }
    }
}

/// When the keys of `x` agree with `lt` against everything in `s`,
/// keyed insertion maps to value-level insertion.
proof fn lemma_insert_commutes<T>(s: Seq<Keyed<T>>, x: Keyed<T>, lt: spec_fn(T, T) -> bool)
    requires
        forall|z: Keyed<T>| #[trigger] s.contains(z) ==> keyed_lt(x, z) == lt(x.val, z.val),
    ensures
        vals_of(insert_keyed(s, x)) == insert_by(vals_of(s), x.val, lt),
    decreases s.len(),
{
    if s.len() == 0 {
        assert(vals_of(insert_keyed(s, x)) =~= insert_by(vals_of(s), x.val, lt));
    } else {
        assert(s.contains(s.last())) by {
            assert(s[s.len() - 1] == s.last());
        }
        assert(vals_of(s).last() == s.last().val);
        assert(vals_of(s).len() == s.len());
        if keyed_lt(x, s.last()) {
            assert(forall|z: Keyed<T>| #[trigger] s.drop_last().contains(z) ==> s.contains(z)) by {
                assert forall|z: Keyed<T>| #[trigger] s.drop_last().contains(z) implies s.contains(
                    z,
                ) by {
                    let i = choose|i: int| 0 <= i < s.drop_last().len() && s.drop_last()[i] == z;
                    assert(s[i] == z);
                }
            }
            lemma_insert_commutes(s.drop_last(), x, lt);
            assert(vals_of(s.drop_last()) =~= vals_of(s).drop_last());
            assert(vals_of(insert_keyed(s.drop_last(), x).push(s.last())) =~= vals_of(
                insert_keyed(s.drop_last(), x),
            ).push(s.last().val));
            assert(vals_of(insert_keyed(s, x)) =~= insert_by(vals_of(s), x.val, lt));
        } else {
            assert(vals_of(s.push(x)) =~= vals_of(s).push(x.val));
            assert(vals_of(insert_keyed(s, x)) =~= insert_by(vals_of(s), x.val, lt));
        }
    }
}

/// When the keys agree with `lt` on every pair of items, the keyed sort
/// maps to the value-level stable sort.
pub proof fn lemma_sort_commutes<T>(s: Seq<Keyed<T>>, lt: spec_fn(T, T) -> bool)
    requires
        forall|x: Keyed<T>, z: Keyed<T>|
            #[trigger] s.contains(x) && #[trigger] s.contains(z) ==> keyed_lt(x, z) == lt(
                x.val,
                z.val,
            ),
    ensures
        vals_of(sort_spec(s)) == sort_by_lt(vals_of(s), lt),
    decreases s.len(),
{
    if s.len() > 0 {
        assert(s.contains(s.last())) by {
            assert(s[s.len() - 1] == s.last());
        }
        assert(forall|z: Keyed<T>| #[trigger] s.drop_last().contains(z) ==> s.contains(z)) by {
            assert forall|z: Keyed<T>| #[trigger] s.drop_last().contains(z) implies s.contains(
                z,
            ) by {
                let i = choose|i: int| 0 <= i < s.drop_last().len() && s.drop_last()[i] == z;
                assert(s[i] == z);
            }
        }
        lemma_sort_commutes(s.drop_last(), lt);
        assert forall|z: Keyed<T>| #[trigger] sort_spec(s.drop_last()).contains(z) implies keyed_lt(
            s.last(),
            z,
        ) == lt(s.last().val, z.val) by {
            lemma_sort_spec_contains(s.drop_last(), z);
        }
        lemma_insert_commutes(sort_spec(s.drop_last()), s.last(), lt);
        assert(vals_of(s.drop_last()) =~= vals_of(s).drop_last());
        assert(vals_of(s).last() == s.last().val);
        assert(vals_of(s).len() == s.len());
    } else {
        assert(vals_of(sort_spec(s)) =~= sort_by_lt(vals_of(s), lt));
    }
}

/// Inserting at the position `j` that the exec search finds matches the
/// recursive insertion spec.
proof fn lemma_insert_keyed_at<T>(s: Seq<Keyed<T>>, x: Keyed<T>, j: int)
    requires
        0 <= j <= s.len(),
        forall|t: int| j <= t < s.len() ==> keyed_lt(x, #[trigger] s[t]),
        j > 0 ==> !keyed_lt(x, s[j - 1]),
    ensures
        insert_keyed(s, x) == s.insert(j, x),
    decreases s.len(),
{
    if j == s.len() {
        if s.len() == 0 {
            assert(insert_keyed(s, x) =~= s.insert(j, x));
        } else {
            assert(insert_keyed(s, x) =~= s.insert(j, x));
        }
    } else {
        assert(keyed_lt(x, s.last()));
        lemma_insert_keyed_at(s.drop_last(), x, j);
        assert(insert_keyed(s, x) =~= s.insert(j, x));
    }
}

/// `x` comes strictly before `y` in the key order.
pub fn keyed_lt_exec<T>(x: &Keyed<T>, y: &Keyed<T>) -> (r: bool)
    ensures
        r == keyed_lt(*x, *y),
{
    if x.k1 != y.k1 {
        x.k1 < y.k1
    } else if x.k2 != y.k2 {
        x.k2 < y.k2
    } else if x.k3 != y.k3 {
        x.k3 < y.k3
    } else {
        !str_lex_le(y.word.as_str(), x.word.as_str())
    }
}

/// Sort the items by their keys, keeping the input order of items whose
/// keys are fully equal.
pub fn sort_keyed<T>(items: Vec<Keyed<T>>) -> (r: Vec<Keyed<T>>)
    ensures
        r@ == sort_spec(items@),
{
    let ghost orig = items@;
    let mut v = items;
    let mut out: Vec<Keyed<T>> = Vec::new();
    let mut i: usize = 0;
    let n = v.len();
    proof {
        assert(orig.take(0) =~= Seq::empty());
    }
    while i < n
        invariant
            i <= n,
            n == orig.len(),
            v@ == orig.skip(i as int),
            out@ == sort_spec(orig.take(i as int)),
        decreases n - i,
    {
        let x = v.remove(0);
        proof {
            assert(orig.skip(i as int).remove(0) =~= orig.skip(i + 1));
            assert(orig.skip(i as int)[0] == orig[i as int]);
        }
        let mut j: usize = out.len();
        while j > 0 && keyed_lt_exec(&x, &out[j - 1])
            invariant
                j <= out@.len(),
                forall|t: int| j <= t < out@.len() ==> keyed_lt(x, #[trigger] out@[t]),
            decreases j,
        {
            j -= 1;
        }
        proof {
            lemma_insert_keyed_at(out@, x, j as int);
            assert(orig.take(i + 1).drop_last() =~= orig.take(i as int));
            assert(orig.take(i + 1).last() == orig[i as int]);
        }
        out.insert(j, x);
        i += 1;
    }
    proof {
        assert(orig.take(n as int) =~= orig);
    }
    out
}

} // verus!
