//! The anagram enumerator: a backtracking stack machine that decomposes a
//! target letter multiset into ordered sequences of candidate entries.  A
//! child frame's candidate cursor starts where its parent's left off, so
//! every decomposition is produced with strictly increasing candidate
//! positions: each bag of entries is reachable in exactly one order, and no
//! bag is ever emitted twice.

use crate::lexi::{popularity_value, spec_popularity_value, spec_rate, Entry, Lexicon};
use crate::sorted_letters::{
    counts_of, ms_add, ms_empty, ms_sub, ms_superset, ms_zero, SortedLetters,
};
use crate::sorting::{
    lemma_sort_commutes, lex_lt, sort_by_lt, sort_keyed, vals_of, Keyed,
};
use vstd::arithmetic::power2::{lemma_pow2_pos, lemma_pow2_strictly_increases, lemma_pow2_unfold, pow2};
use vstd::multiset::Multiset;
use vstd::prelude::*;

verus! {

/// The combined letter multiset of a sequence of entries.
pub open spec fn sum_counts(es: Seq<Entry>) -> Seq<int>
    decreases es.len(),
{
    if es.len() == 0 {
        ms_zero()
    } else {
        ms_add(sum_counts(es.drop_last()), es.last().spec_counts())
    }
}

/// A decomposition with no residue uses letters summing exactly to the
/// original target: no leftover, no overdraw.
pub proof fn lemma_complete_uses_all(words: Seq<Entry>, residue: Seq<int>, target: Seq<int>)
    requires
        residue.len() == 26,
        target.len() == 26,
        ms_add(sum_counts(words), residue) == target,
        ms_empty(residue),
    ensures
        sum_counts(words) =~= target,
{
    assert(sum_counts(words).len() == 26) by {
        if words.len() == 0 {
        }
    }
}

/// The elements of `s` grow strictly from left to right.
pub open spec fn strictly_increasing(s: Seq<int>) -> bool {
    forall|k1: int, k2: int| 0 <= k1 < k2 < s.len() ==> s[k1] < s[k2]
}

/// Every element of `s` lies in `[0, n)`.
pub open spec fn in_range(s: Seq<int>, n: int) -> bool {
    forall|k: int| 0 <= k < s.len() ==> 0 <= #[trigger] s[k] < n
}

/// Prefix-lexicographic order on index sequences: a proper prefix comes
/// before every extension of it.
pub open spec fn idx_lex_lt(a: Seq<int>, b: Seq<int>) -> bool
    decreases a.len(),
{
    if a.len() == 0 {
        b.len() > 0
    } else if b.len() == 0 {
        false
    } else if a[0] < b[0] {
        true
    } else if a[0] > b[0] {
        false
    } else {
        idx_lex_lt(a.drop_first(), b.drop_first())
    }
}

proof fn lemma_lex_irrefl(a: Seq<int>)
    ensures
        !idx_lex_lt(a, a),
    decreases a.len(),
{
    if a.len() > 0 {
        lemma_lex_irrefl(a.drop_first());
    }
}

proof fn lemma_lex_trans(a: Seq<int>, b: Seq<int>, c: Seq<int>)
    requires
        idx_lex_lt(a, b),
        idx_lex_lt(b, c),
    ensures
        idx_lex_lt(a, c),
    decreases a.len(),
{
    if a.len() == 0 {
    } else {
        if a[0] == b[0] && b[0] == c[0] {
            lemma_lex_trans(a.drop_first(), b.drop_first(), c.drop_first());
        }
    }
}

/// A strict prefix is lexicographically smaller.
proof fn lemma_lex_prefix(a: Seq<int>, b: Seq<int>)
    requires
        a.len() < b.len(),
        forall|k: int| 0 <= k < a.len() ==> a[k] == b[k],
    ensures
        idx_lex_lt(a, b),
    decreases a.len(),
{
    if a.len() > 0 {
        lemma_lex_prefix(a.drop_first(), b.drop_first());
    }
}

/// Sequences agreeing up to `p` and differing there order by that element.
proof fn lemma_lex_first_diff(a: Seq<int>, b: Seq<int>, p: int)
    requires
        0 <= p < a.len(),
        p < b.len(),
        forall|k: int| 0 <= k < p ==> a[k] == b[k],
        a[p] < b[p],
    ensures
        idx_lex_lt(a, b),
    decreases p,
{
    if p > 0 {
        lemma_lex_first_diff(a.drop_first(), b.drop_first(), p - 1);
    }
}

/// A strictly increasing sequence lies above the diagonal.
proof fn lemma_incr_ge_index(s: Seq<int>, k: int)
    requires
        strictly_increasing(s),
        forall|t: int| 0 <= t < s.len() ==> 0 <= #[trigger] s[t],
        0 <= k < s.len(),
    ensures
        s[k] >= k,
    decreases k,
{
    if k > 0 {
        lemma_incr_ge_index(s, k - 1);
    }
}

/// A strictly increasing sequence over `[0, n)` has at most `n` elements.
proof fn lemma_incr_bound(s: Seq<int>, n: int)
    requires
        strictly_increasing(s),
        in_range(s, n),
        n >= 0,
    ensures
        s.len() <= n,
{
    if s.len() > 0 {
        lemma_incr_ge_index(s, s.len() - 1);
        assert(s[s.len() - 1] >= s.len() - 1);
        assert(0 <= s[s.len() - 1] < n);
    }
}

/// One frame of the backtracking search: the letters still to place, the
/// cursor into the candidate list, and the entries chosen so far.
pub struct AnagramFrame {
    letters: SortedLetters,
    pos: usize,
    partial_result: Vec<Entry>,
    indices: Ghost<Seq<int>>,
    is_virgin: bool,
}

/// A frame is internally consistent against the candidate list and the
/// search target: its chosen entries sit at its recorded, strictly
/// increasing positions, all before the cursor, and together with the
/// remaining letters they account exactly for the target.
spec fn frame_wf(f: AnagramFrame, entries: Seq<Entry>, target: Seq<int>) -> bool {
    &&& f.pos <= entries.len()
    &&& f.indices@.len() == f.partial_result@.len()
    &&& in_range(f.indices@, entries.len() as int)
    &&& forall|k: int|
        0 <= k < f.indices@.len() ==> #[trigger] f.partial_result@[k] == entries[f.indices@[k]]
    &&& strictly_increasing(f.indices@)
    &&& (f.indices@.len() > 0 ==> f.indices@.last() < f.pos)
    &&& ms_add(sum_counts(f.partial_result@), f.letters@) == target
    &&& (ms_empty(f.letters@) ==> f.is_virgin)
    &&& no_complete_prefix(entries, target, f.indices@)
    &&& (f.is_virgin ==> forall|p: int|
        next_pos(f.indices@) <= p < f.pos ==> !ms_superset(
            f.letters@,
            #[trigger] entries[p].spec_counts(),
        ))
}

/// The frame can still produce the sequence `s`: `s` is the frame's own
/// sequence (only while the frame is untouched), or extends it starting at
/// or after the frame's cursor.
spec fn covers(f: AnagramFrame, s: Seq<int>) -> bool {
    ||| (f.is_virgin && s == f.indices@)
    ||| (s.len() > f.indices@.len() && s.take(f.indices@.len() as int) == f.indices@ && s[f.indices@.len() as int]
        >= f.pos)
}

/// Some frame of the stack can still produce `s`.
spec fn stack_covers(st: Seq<AnagramFrame>, s: Seq<int>) -> bool {
    exists|k: int| 0 <= k < st.len() && covers(#[trigger] st[k], s)
}

/// The chain property between a parent frame and its child: the child's
/// index sequence extends the parent's by the candidate the parent just
/// consumed, and only a frame that has already produced a child sits below
/// another frame.
spec fn chain_link(p: AnagramFrame, c: AnagramFrame) -> bool {
    &&& c.indices@ == p.indices@.push(p.pos - 1)
    &&& p.pos >= 1
    &&& !p.is_virgin
    &&& !ms_empty(p.letters@)
    &&& c.pos >= p.pos
}

/// Structural well-formedness of the whole stack.
spec fn stack_wf(st: Seq<AnagramFrame>, entries: Seq<Entry>, target: Seq<int>) -> bool {
    &&& forall|k: int| 0 <= k < st.len() ==> frame_wf(#[trigger] st[k], entries, target)
    &&& forall|k: int| 0 <= k < st.len() ==> (#[trigger] st[k]).indices@.len() == k
    &&& forall|k: int| 0 <= k < st.len() - 1 ==> chain_link(#[trigger] st[k], st[k + 1])
}

/// The smallest index sequence (in prefix-lexicographic order) that the
/// frame can still emit: its own sequence while untouched, else that
/// sequence extended at its cursor.
spec fn min_future(f: AnagramFrame) -> Seq<int> {
    if f.is_virgin {
        f.indices@
    } else {
        f.indices@.push(f.pos as int)
    }
}

/// Everything every frame can still emit lies strictly after `last`.
spec fn frames_above(st: Seq<AnagramFrame>, last: Seq<int>) -> bool {
    forall|k: int| 0 <= k < st.len() ==> idx_lex_lt(last, min_future(#[trigger] st[k]))
}

/// An emitted index sequence is strictly increasing over the candidates.
pub open spec fn emitted_seq_wf(s: Seq<int>, n: int) -> bool {
    strictly_increasing(s) && in_range(s, n)
}

/// The combined letter multiset of the candidates at the given positions.
pub open spec fn seq_sum(entries: Seq<Entry>, idxs: Seq<int>) -> Seq<int>
    decreases idxs.len(),
{
    if idxs.len() == 0 {
        ms_zero()
    } else {
        ms_add(seq_sum(entries, idxs.drop_last()), entries[idxs.last()].spec_counts())
    }
}

/// A position sequence the search can reach: strictly increasing
/// candidate positions whose letters all fit within the target.
pub open spec fn valid_seq(entries: Seq<Entry>, target: Seq<int>, s: Seq<int>) -> bool {
    emitted_seq_wf(s, entries.len() as int) && ms_superset(target, seq_sum(entries, s))
}

/// The first candidate position a sequence's extension may use: one past
/// its last element.
pub open spec fn next_pos(s: Seq<int>) -> int {
    if s.len() == 0 {
        0
    } else {
        s.last() + 1
    }
}

/// Some candidate at or after the sequence's next position fits within
/// its residue.
pub open spec fn fits_after(entries: Seq<Entry>, target: Seq<int>, s: Seq<int>) -> bool {
    exists|p: int|
        next_pos(s) <= p < entries.len() && ms_superset(
            ms_sub(target, seq_sum(entries, s)),
            #[trigger] entries[p].spec_counts(),
        )
}

/// No proper prefix of the sequence already covers the whole target.
pub open spec fn no_complete_prefix(entries: Seq<Entry>, target: Seq<int>, s: Seq<int>) -> bool {
    forall|j: int| 0 <= j < s.len() ==> seq_sum(entries, #[trigger] s.take(j)) != target
}

/// A sequence the search owes its caller: either a complete decomposition
/// that no shorter complete one cuts off, or a maximal partial one — a
/// valid sequence that is not complete and that no candidate at or after
/// its next position extends.
pub open spec fn emittable(entries: Seq<Entry>, target: Seq<int>, s: Seq<int>) -> bool {
    &&& valid_seq(entries, target, s)
    &&& if seq_sum(entries, s) == target {
        no_complete_prefix(entries, target, s)
    } else {
        !fits_after(entries, target, s)
    }
}

/// A sum over positions never shrinks when the sequence grows.
proof fn lemma_seq_sum_prefix_le(entries: Seq<Entry>, s: Seq<int>, j: int)
    requires
        0 <= j <= s.len(),
    ensures
        seq_sum(entries, s).len() == 26,
        seq_sum(entries, s.take(j)).len() == 26,
        forall|t: int|
            0 <= t < 26 ==> seq_sum(entries, s.take(j))[t] <= #[trigger] seq_sum(entries, s)[t],
    decreases s.len() - j,
{
    if j == s.len() {
        assert(s.take(j) =~= s);
    } else {
        lemma_seq_sum_prefix_le(entries, s.drop_last(), j);
        assert(s.drop_last().take(j) =~= s.take(j));
        crate::lexi::lemma_entry_counts_shape(entries[s.last()]);
    }
}

/// The chosen entries of a frame and its recorded positions carry the
/// same combined letters.
pub proof fn lemma_seq_sum_matches_entries(entries: Seq<Entry>, idxs: Seq<int>, words: Seq<Entry>)
    requires
        idxs.len() == words.len(),
        forall|k: int| 0 <= k < idxs.len() ==> #[trigger] words[k] == entries[idxs[k]],
    ensures
        sum_counts(words) == seq_sum(entries, idxs),
    decreases idxs.len(),
{
    if idxs.len() > 0 {
        lemma_seq_sum_matches_entries(entries, idxs.drop_last(), words.drop_last());
        assert(words.last() == entries[idxs.last()]);
    }
}

/// The termination potential of one frame: how much candidate range it can
/// still explore, weighted so that a push pays for itself.
spec fn frame_pot(f: AnagramFrame, n: nat) -> nat {
    if f.pos <= n {
        pow2((n - f.pos) as nat)
    } else {
        0
    }
}

/// The termination potential of the whole stack.
spec fn pot_frames(st: Seq<AnagramFrame>, n: nat) -> nat
    decreases st.len(),
{
    if st.len() == 0 {
        0
    } else {
        pot_frames(st.drop_last(), n) + frame_pot(st.last(), n)
    }
}

/// Everything in the chain from frame `j` up to frame `k`: the higher
/// frame's indices extend the lower one's, branching at the lower frame's
/// cursor position minus one.
proof fn lemma_chain_prefix(
    st: Seq<AnagramFrame>,
    entries: Seq<Entry>,
    target: Seq<int>,
    j: int,
    k: int,
)
    requires
        stack_wf(st, entries, target),
        0 <= j <= k < st.len(),
    ensures
        st[k].indices@.take(j) =~= st[j].indices@,
        j < k ==> st[k].indices@[j] == st[j].pos - 1,
    decreases k - j,
{
    if j == k {
        assert(st[k].indices@.take(j) =~= st[j].indices@);
    } else {
        lemma_chain_prefix(st, entries, target, j, k - 1);
        assert(chain_link(st[k - 1], st[k]));
        assert(st[k].indices@ == st[k - 1].indices@.push(st[k - 1].pos - 1));
        assert(st[k].indices@.take(j) =~= st[k - 1].indices@.take(j));
        if j < k - 1 {
            assert(st[k].indices@[j] == st[k - 1].indices@[j]);
        } else {
            assert(st[k].indices@[j] == st[k - 1].pos - 1);
        }
    }
}

/// The lazily enumerated decompositions of a target multiset: a sorted
/// candidate pool and a stack of search frames, with the ghost history of
/// what has been emitted.
pub struct Anagrams {
    entries: Vec<Entry>,
    stack: Vec<AnagramFrame>,
    target: Ghost<Seq<int>>,
    emitted: Ghost<Seq<Seq<int>>>,
}

impl Anagrams {
    /// The sorted candidate pool.
    pub closed spec fn spec_entries(self) -> Seq<Entry> {
        self.entries@
    }

    /// The target letter multiset.
    pub closed spec fn spec_target(self) -> Seq<int> {
        self.target@
    }

    /// The index sequences of the results emitted so far, in order.
    pub closed spec fn spec_emitted(self) -> Seq<Seq<int>> {
        self.emitted@
    }

    /// The termination measure: strictly decreases at every emission.
    pub closed spec fn measure(self) -> nat {
        pot_frames(self.stack@, self.entries@.len() as nat)
    }

    /// The search is exhausted: no frame is left to explore.
    pub closed spec fn spec_done(self) -> bool {
        self.stack@.len() == 0
    }

    /// The machine invariant: a well-formed frame chain, every emitted
    /// sequence strictly increasing over the candidates, the emission
    /// history strictly ascending in prefix-lexicographic order, and
    /// everything still reachable lying strictly after the last emission.
    pub closed spec fn wf(self) -> bool {
        &&& stack_wf(self.stack@, self.entries@, self.target@)
        &&& self.target@.len() == 26
        &&& forall|i: int|
            0 <= i < self.emitted@.len() ==> emitted_seq_wf(
                #[trigger] self.emitted@[i],
                self.entries@.len() as int,
            )
        &&& forall|i: int|
            0 <= i < self.emitted@.len() - 1 ==> idx_lex_lt(
                #[trigger] self.emitted@[i],
                self.emitted@[i + 1],
            )
        &&& (self.emitted@.len() > 0 ==> frames_above(self.stack@, self.emitted@.last()))
        &&& forall|s: Seq<int>|
            #[trigger] emittable(self.entries@, self.target@, s) ==> self.emitted@.contains(s)
                || stack_covers(self.stack@, s)
    }

    /// What one emitted result means: `idxs` are strictly increasing
    /// candidate positions, `words` the entries at those positions, the
    /// words' letters plus the residue account exactly for the target, no
    /// shorter prefix already covered the target, and a result with
    /// letters left over is maximal: no candidate at or after its next
    /// position fits the residue.
    pub open spec fn emission_wf(self, idxs: Seq<int>, words: Seq<Entry>, residue: Seq<int>) -> bool {
        &&& idxs.len() == words.len()
        &&& emitted_seq_wf(idxs, self.spec_entries().len() as int)
        &&& forall|k: int|
            0 <= k < idxs.len() ==> #[trigger] words[k] == self.spec_entries()[idxs[k]]
        &&& ms_add(sum_counts(words), residue) == self.spec_target()
        &&& no_complete_prefix(self.spec_entries(), self.spec_target(), idxs)
        &&& (!ms_empty(residue) ==> !fits_after(self.spec_entries(), self.spec_target(), idxs))
    }
}

/// Copy a vector of entries.
fn dup_entries(v: &Vec<Entry>) -> (r: Vec<Entry>)
    ensures
        r@ == v@,
{
    let mut out: Vec<Entry> = Vec::new();
    let n = v.len();
    let mut i: usize = 0;
    while i < n
        invariant
            i <= n,
            n == v@.len(),
            out@ =~= v@.take(i as int),
        decreases n - i,
    {
        out.push(v[i].duplicate());
        proof {
            assert(out@ =~= v@.take(i + 1));
        }
        i += 1;
    }
    proof {
        assert(v@.take(n as int) =~= v@);
    }
    out
}

/// The single-word entries whose letters fit within `m`, in order.
pub open spec fn anagrams_pool(es: Seq<Entry>, m: Seq<int>) -> Seq<Entry>
    decreases es.len(),
{
    if es.len() == 0 {
        Seq::empty()
    } else {
        let p = anagrams_pool(es.drop_last(), m);
        if ms_superset(m, es.last().spec_counts()) && es.last().spec_one_word() {
            p.push(es.last())
        } else {
            p
        }
    }
}

/// The candidate pool draws only from the given entries.
pub proof fn lemma_anagrams_pool_contains(es: Seq<Entry>, m: Seq<int>, z: Entry)
    requires
        anagrams_pool(es, m).contains(z),
    ensures
        es.contains(z),
    decreases es.len(),
{
    if es.len() > 0 {
        let p = anagrams_pool(es.drop_last(), m);
        if ms_superset(m, es.last().spec_counts()) && es.last().spec_one_word() {
            if anagrams_pool(es, m) == p.push(es.last()) {
                let i = choose|i: int| 0 <= i < p.push(es.last()).len() && p.push(es.last())[i] == z;
                if i < p.len() {
                    assert(p[i] == z);
                    lemma_anagrams_pool_contains(es.drop_last(), m, z);
                    let k = choose|k: int|
                        0 <= k < es.drop_last().len() && es.drop_last()[k] == z;
                    assert(es[k] == z);
                } else {
                    assert(es[es.len() - 1] == z);
                }
            }
        } else {
            lemma_anagrams_pool_contains(es.drop_last(), m, z);
            let k = choose|k: int| 0 <= k < es.drop_last().len() && es.drop_last()[k] == z;
            assert(es[k] == z);
        }
    }
}

/// The candidate order: more popular entries first, then longer words,
/// then alphabetically.
pub open spec fn anagrams_lt(th: int, a: Entry, b: Entry) -> bool {
    let va = spec_popularity_value(spec_rate(th, a.spec_rank()));
    let vb = spec_popularity_value(spec_rate(th, b.spec_rank()));
    ||| va > vb
    ||| (va == vb && a.spec_word().len() > b.spec_word().len())
    ||| (va == vb && a.spec_word().len() == b.spec_word().len() && lex_lt(
        a.spec_word(),
        b.spec_word(),
    ))
}

/// Start the decomposition search for `term` over `lexi`: the candidate
/// pool is the single-word entries fitting within the term's letters,
/// sorted most popular first, then longest, then alphabetically, and the
/// search begins with the whole target and an empty partial result.
pub fn anagrams(term: &str, lexi: &Lexicon) -> (r: Anagrams)
    ensures
        r.wf(),
        r.spec_target() == counts_of(term@),
        r.spec_emitted() == Seq::<Seq<int>>::empty(),
        r.spec_entries() == sort_by_lt(
            anagrams_pool(lexi.spec_entries(), counts_of(term@)),
            |a: Entry, b: Entry| anagrams_lt(lexi.spec_threshold(), a, b),
        ),
{
    let letters = SortedLetters::from_word(term);
    let all = lexi.entries();
    let mut pool: Vec<Entry> = Vec::new();
    let n = all.len();
    let mut i: usize = 0;
    proof {
        assert(all@.take(0) =~= Seq::<Entry>::empty());
    }
    while i < n
        invariant
            i <= n,
            n == all@.len(),
            letters@ == counts_of(term@),
            all@ == lexi.spec_entries(),
            pool@ == anagrams_pool(all@.take(i as int), letters@),
        decreases n - i,
    {
        proof {
            assert(all@.take(i + 1).drop_last() =~= all@.take(i as int));
            assert(all@.take(i + 1).last() == all@[i as int]);
        }
        let e = &all[i];
        if e.letters().is_subset(&letters) && e.is_single_word() {
            pool.push(e.duplicate());
        }
        i += 1;
    }
    proof {
        assert(all@.take(n as int) =~= all@);
    }
    let mut keyed: Vec<Keyed<Entry>> = Vec::new();
    let pn = pool.len();
    let mut i2: usize = 0;
    while i2 < pn
        invariant
            i2 <= pn,
            pn == pool@.len(),
            keyed@.len() == i2 as int,
            forall|k: int|
                0 <= k < i2 ==> {
                    let it = #[trigger] keyed@[k];
                    &&& it.val == pool@[k]
                    &&& it.k1 as int == 3 - spec_popularity_value(
                        spec_rate(lexi.spec_threshold(), it.val.spec_rank()),
                    )
                    &&& it.k2 as int == usize::MAX - it.val.spec_word().len()
                    &&& it.k3 == 0usize
                    &&& it.word@ == it.val.spec_word()
                },
        decreases pn - i2,
    {
        let e = pool[i2].duplicate();
        let v = popularity_value(lexi.rate(&e));
        let k1 = 3 - v;
        let wlen = e.word().unicode_len();
        let k2 = usize::MAX - wlen;
        let w = e.word().to_owned();
        keyed.push(Keyed { k1, k2, k3: 0, word: w, val: e });
        i2 += 1;
    }
    let ghost lt = |a: Entry, b: Entry| anagrams_lt(lexi.spec_threshold(), a, b);
    proof {
        assert forall|x: Keyed<Entry>, z: Keyed<Entry>|
            #[trigger] keyed@.contains(x) && #[trigger] keyed@.contains(z) implies crate::sorting::keyed_lt(
            x,
            z,
        ) == lt(x.val, z.val) by {
            let xi = choose|t: int| 0 <= t < keyed@.len() && keyed@[t] == x;
            let zi = choose|t: int| 0 <= t < keyed@.len() && keyed@[t] == z;
        }
        lemma_sort_commutes(keyed@, lt);
        assert(vals_of(keyed@) =~= pool@);
    }
    let sorted = sort_keyed(keyed);
    let mut words: Vec<Entry> = Vec::new();
    let sn = sorted.len();
    let mut j: usize = 0;
    while j < sn
        invariant
            j <= sn,
            sn == sorted@.len(),
            words@ =~= vals_of(sorted@).take(j as int),
        decreases sn - j,
    {
        words.push(sorted[j].val.duplicate());
        proof {
            assert(words@ =~= vals_of(sorted@).take(j + 1));
        }
        j += 1;
    }
    proof {
        assert(vals_of(sorted@).take(sn as int) =~= vals_of(sorted@));
    }
    let frame = AnagramFrame {
        letters,
        pos: 0,
        partial_result: Vec::new(),
        indices: Ghost(Seq::empty()),
        is_virgin: true,
    };
    let mut stack: Vec<AnagramFrame> = Vec::new();
    stack.push(frame);
    let r = Anagrams {
        entries: words,
        stack,
        target: Ghost(letters@),
        emitted: Ghost(Seq::empty()),
    };
    proof {
        assert(ms_add(sum_counts(Seq::<Entry>::empty()), letters@) =~= letters@);
        assert(frame_wf(r.stack@[0], r.entries@, r.target@));
        assert(r.stack@.drop_last() =~= Seq::<AnagramFrame>::empty());
        // the one root frame still covers every sequence the search owes
        assert forall|s: Seq<int>|
            #[trigger] emittable(r.entries@, r.target@, s) implies stack_covers(r.stack@, s) by {
            let root = r.stack@[0];
            if s.len() == 0 {
                assert(s =~= root.indices@);
                assert(covers(root, s));
            } else {
                assert(s.take(0) =~= root.indices@);
                assert(s[0] >= 0);
                assert(covers(root, s));
            }
        }
    }
    r
}

impl Anagrams {
    /// Advance the search to its next result: a sequence of entries and the
    /// residue of the target left after them.  An empty residue marks a
    /// complete decomposition; a non-empty one a maximal partial
    /// decomposition — no candidate at or after its next position fits.
    /// Every result's words sum with its residue exactly to the target,
    /// its candidate positions grow strictly, and the history of emitted
    /// position sequences grows strictly in prefix-lexicographic order, so
    /// no result is ever repeated.  The search is also exhaustive: by the
    /// time it answers `None`, every owed sequence — every complete
    /// decomposition not cut off by a shorter complete one, and every
    /// maximal partial one — already stands in the emission history, and a
    /// finished search stays finished.
    pub fn next(&mut self) -> (r: Option<(Vec<Entry>, SortedLetters)>)
        requires
            old(self).wf(),
        ensures
            final(self).wf(),
            final(self).spec_entries() == old(self).spec_entries(),
            final(self).spec_target() == old(self).spec_target(),
            old(self).spec_done() ==> r is None,
            match r {
                None => final(self).spec_emitted() == old(self).spec_emitted()
                    && final(self).spec_done() && final(self).measure() <= old(self).measure()
                    && (forall|s: Seq<int>|
                    #[trigger] emittable(
                        final(self).spec_entries(),
                        final(self).spec_target(),
                        s,
                    ) ==> final(self).spec_emitted().contains(s)),
                Some(p) => {
                    &&& final(self).spec_emitted().len() == old(self).spec_emitted().len() + 1
                    &&& final(self).spec_emitted().take(old(self).spec_emitted().len() as int)
                        == old(self).spec_emitted()
                    &&& final(self).emission_wf(final(self).spec_emitted().last(), p.0@, p.1@)
                    &&& final(self).measure() < old(self).measure()
                },
            },
    {
        let ghost entries = self.entries@;
        let ghost target = self.target@;
        let ghost n = self.entries@.len() as nat;
        loop
            invariant
                self.entries@ == entries,
                self.target@ == target,
                entries == old(self).entries@,
                target == old(self).target@,
                n == self.entries@.len(),
                self.emitted@ == old(self).emitted@,
                stack_wf(self.stack@, entries, target),
                target.len() == 26,
                forall|i: int|
                    0 <= i < self.emitted@.len() ==> emitted_seq_wf(
                        #[trigger] self.emitted@[i],
                        entries.len() as int,
                    ),
                forall|i: int|
                    0 <= i < self.emitted@.len() - 1 ==> idx_lex_lt(
                        #[trigger] self.emitted@[i],
                        self.emitted@[i + 1],
                    ),
                (self.emitted@.len() > 0 ==> frames_above(self.stack@, self.emitted@.last())),
                forall|s: Seq<int>|
                    #[trigger] emittable(entries, target, s) ==> self.emitted@.contains(s)
                        || stack_covers(self.stack@, s),
                old(self).stack@.len() == 0 ==> self.stack@.len() == 0,
                pot_frames(self.stack@, n) <= pot_frames(old(self).stack@, n),
            decreases pot_frames(self.stack@, n), n + 2 - self.stack@.len(),
        {
            let ghost st0 = self.stack@;
            if self.stack.len() == 0 {
                proof {
                    assert forall|s: Seq<int>|
                        #[trigger] emittable(entries, target, s) implies self.emitted@.contains(
                        s,
                    ) by {
                        assert(!stack_covers(self.stack@, s));
                    }
                }
                return None;
            }
            proof {
                assert(st0.len() <= n + 1) by {
                    let top = st0[st0.len() - 1];
                    assert(frame_wf(top, entries, target));
                    assert(top.indices@.len() == st0.len() - 1);
                    lemma_incr_bound(top.indices@, entries.len() as int);
                }
            }
            let frame = match self.stack.pop() {
                Some(f) => f,
                None => {
                    proof {
                        assert(false);
                    }
                    return None;
                },
            };
            let ghost rest = self.stack@;
            proof {
                assert(rest =~= st0.drop_last());
                assert(frame == st0.last());
                assert(frame_wf(frame, entries, target));
                assert forall|k: int| 0 <= k < rest.len() implies frame_wf(
                    #[trigger] rest[k],
                    entries,
                    target,
                ) && rest[k].indices@.len() == k by {
                    assert(st0[k] == rest[k]);
                }
                assert forall|k: int| 0 <= k < rest.len() - 1 implies chain_link(
                    #[trigger] rest[k],
                    rest[k + 1],
                ) by {
                    assert(st0[k] == rest[k] && st0[k + 1] == rest[k + 1]);
                }
                lemma_pow2_pos((n - frame.pos) as nat);
            }
            if frame.letters.is_empty() {
                // A complete decomposition: the whole target is covered.
                proof {
                    lemma_emit_ok(st0, entries, target, self.emitted@);
                }
                self.emitted = Ghost(self.emitted@.push(frame.indices@));
                proof {
                    lemma_emitted_extended(old(self).emitted@, frame.indices@, entries.len() as int);
                    assert(self.emitted@.take(old(self).emitted@.len() as int) =~= old(
                        self,
                    ).emitted@);
                    assert(pot_frames(st0, n) == pot_frames(st0.drop_last(), n) + frame_pot(
                        st0.last(),
                        n,
                    ));
                    assert(pot_frames(self.stack@, n) < pot_frames(old(self).stack@, n));
                }
                return Some((frame.partial_result, frame.letters));
            }
            let c = frame.pos;
            if c < self.entries.len() {
                let mut frame = frame;
                frame.pos = c + 1;
                match frame.letters.minus(self.entries[c].letters()) {
                    Some(new_letters) => {
                        let mut partial = dup_entries(&frame.partial_result);
                        partial.push(self.entries[c].duplicate());
                        let child = AnagramFrame {
                            letters: new_letters,
                            pos: c + 1,
                            partial_result: partial,
                            indices: Ghost(frame.indices@.push(c as int)),
                            is_virgin: true,
                        };
                        frame.is_virgin = false;
                        let ghost gparent = frame;
                        let ghost gchild = child;
                        proof {
                            lemma_push_child_ok(
                                st0,
                                entries,
                                target,
                                self.emitted@,
                                gparent,
                                gchild,
                                c as int,
                            );
                        }
                        self.stack.push(frame);
                        self.stack.push(child);
                        proof {
                            assert(self.stack@ =~= st0.drop_last().push(gparent).push(gchild));
                            lemma_push_child_shape(
                                st0,
                                gparent,
                                gchild,
                                entries,
                                target,
                                self.emitted@,
                                n,
                            );
                        }
                    },
                    None => {
                        proof {
                            lemma_advance_ok(st0, entries, target, self.emitted@, frame, n);
                        }
                        self.stack.push(frame);
                    },
                }
            } else {
                if frame.is_virgin {
                    // A maximal partial decomposition: no candidate fits.
                    proof {
                        lemma_emit_ok(st0, entries, target, self.emitted@);
                    }
                    self.emitted = Ghost(self.emitted@.push(frame.indices@));
                    proof {
                        lemma_emitted_extended(
                            old(self).emitted@,
                            frame.indices@,
                            entries.len() as int,
                        );
                        assert(self.emitted@.take(old(self).emitted@.len() as int) =~= old(
                            self,
                        ).emitted@);
                        assert(pot_frames(st0, n) == pot_frames(st0.drop_last(), n) + frame_pot(
                            st0.last(),
                            n,
                        ));
                        assert(pot_frames(self.stack@, n) < pot_frames(old(self).stack@, n));
                    }
                    return Some((frame.partial_result, frame.letters));
                }
                // The frame already contributed children: discard it; it
                // was exhausted, so it had nothing left to produce.
                proof {
                    assert(frame.pos == n);
                    assert forall|s: Seq<int>|
                        #[trigger] emittable(entries, target, s) implies self.emitted@.contains(
                        s,
                    ) || stack_covers(rest, s) by {
                        if !self.emitted@.contains(s) {
                            let k = choose|k: int|
                                0 <= k < st0.len() && covers(#[trigger] st0[k], s);
                            if k < st0.len() - 1 {
                                assert(rest[k] == st0[k]);
                                assert(stack_covers(rest, s));
                            } else {
                                let lm = frame.indices@.len() as int;
                                assert(s.len() > lm && s[lm] >= frame.pos);
                                assert(!in_range(s, entries.len() as int));
                            }
                        }
                    }
                }
            }
        }
    }
}

/// The words of the candidates at the given positions, as an unordered
/// bag.
pub open spec fn word_bag(entries: Seq<Entry>, idxs: Seq<int>) -> Multiset<Seq<char>> {
    idxs.map_values(|t: int| entries[t].spec_word()).to_multiset()
}

/// Earlier emissions are lexicographically below later ones.
proof fn lemma_emitted_ordered(em: Seq<Seq<int>>, i: int, j: int)
    requires
        forall|t: int| 0 <= t < em.len() - 1 ==> idx_lex_lt(#[trigger] em[t], em[t + 1]),
        0 <= i < j < em.len(),
    ensures
        idx_lex_lt(em[i], em[j]),
    decreases j - i,
{
    if j == i + 1 {
    } else {
        lemma_emitted_ordered(em, i, j - 1);
        lemma_lex_trans(em[i], em[j - 1], em[j]);
    }
}

impl Anagrams {
    /// Earlier emissions are lexicographically below later ones: the
    /// emission history is strictly ascending.
    pub proof fn lemma_emissions_ordered(self, i: int, j: int)
        requires
            self.wf(),
            0 <= i < j < self.spec_emitted().len(),
        ensures
            idx_lex_lt(self.spec_emitted()[i], self.spec_emitted()[j]),
    {
        lemma_emitted_ordered(self.emitted@, i, j);
    }

    /// No result is emitted twice: the position sequences of any two
    /// emitted results differ.
    pub proof fn lemma_emissions_distinct(self, i: int, j: int)
        requires
            self.wf(),
            0 <= i < j < self.spec_emitted().len(),
        ensures
            self.spec_emitted()[i] != self.spec_emitted()[j],
    {
        lemma_emitted_ordered(self.emitted@, i, j);
        if self.emitted@[i] == self.emitted@[j] {
            lemma_lex_irrefl(self.emitted@[i]);
        }
    }

    /// Emission is injective on bags of words: when no two candidates
    /// share a word, any two emitted results differ as unordered bags of
    /// words, not merely as sequences.
    pub proof fn lemma_no_duplicate_bags(self, i: int, j: int)
        requires
            self.wf(),
            0 <= i < j < self.spec_emitted().len(),
            forall|a: int, b: int|
                0 <= a < b < self.spec_entries().len() ==> self.spec_entries()[a].spec_word()
                    != self.spec_entries()[b].spec_word(),
        ensures
            word_bag(self.spec_entries(), self.spec_emitted()[i]) != word_bag(
                self.spec_entries(),
                self.spec_emitted()[j],
            ),
    {
        let entries = self.entries@;
        let s1 = self.emitted@[i];
        let s2 = self.emitted@[j];
        assert forall|a: int, b: int| 0 <= a < b < entries.len() implies entries[a].spec_word()
            != entries[b].spec_word() by {
            assert(self.spec_entries()[a].spec_word() != self.spec_entries()[b].spec_word());
        }
        self.lemma_emissions_distinct(i, j);
        if word_bag(entries, s1) == word_bag(entries, s2) {
            assert forall|t: int| s1.contains(t) <==> s2.contains(t) by {
                assert forall|t: int| #![auto] s1.contains(t) implies s2.contains(t) by {
                    let k = choose|k: int| 0 <= k < s1.len() && s1[k] == t;
                    lemma_bag_count(entries, s1, t);
                    lemma_bag_count(entries, s2, t);
                }
                assert forall|t: int| #![auto] s2.contains(t) implies s1.contains(t) by {
                    let k = choose|k: int| 0 <= k < s2.len() && s2[k] == t;
                    lemma_bag_count(entries, s1, t);
                    lemma_bag_count(entries, s2, t);
                }
            }
            lemma_incr_unique(s1, s2);
        }
    }
}

/// In the bag of words of strictly increasing positions, each candidate's
/// word occurs exactly once if its position occurs, and never otherwise
/// (given that no two candidates share a word).
proof fn lemma_bag_count(entries: Seq<Entry>, s: Seq<int>, t: int)
    requires
        strictly_increasing(s),
        in_range(s, entries.len() as int),
        0 <= t < entries.len(),
        forall|a: int, b: int|
            0 <= a < b < entries.len() ==> entries[a].spec_word() != entries[b].spec_word(),
    ensures
        word_bag(entries, s).count(entries[t].spec_word()) == if s.contains(t) {
            1int
        } else {
            0int
        },
    decreases s.len(),
{
    broadcast use vstd::seq_lib::group_to_multiset_ensures;

    let f = |u: int| entries[u].spec_word();
    if s.len() == 0 {
        assert(s.map_values(f) =~= Seq::<Seq<char>>::empty());
        assert(word_bag(entries, s).count(entries[t].spec_word()) == 0);
        assert(!s.contains(t));
    } else {
        let dl = s.drop_last();
        let last = s.last();
        assert(strictly_increasing(dl) && in_range(dl, entries.len() as int)) by {
            assert forall|k: int| 0 <= k < dl.len() implies 0 <= #[trigger] dl[k]
                < entries.len() by {
                assert(dl[k] == s[k]);
            }
        }
        lemma_bag_count(entries, dl, t);
        assert(s.map_values(f) =~= dl.map_values(f).push(f(last)));
        assert(word_bag(entries, s) =~= word_bag(entries, dl).insert(f(last)));
        // the last element's word equals the probed word exactly when the
        // positions coincide
        assert(f(last) == entries[t].spec_word() <==> last == t) by {
            if last != t {
                if last < t {
                    assert(entries[last].spec_word() != entries[t].spec_word());
                } else {
                    assert(entries[t].spec_word() != entries[last].spec_word());
                }
            }
        }
        // membership in s splits into membership in the prefix or being
        // the last element, never both
        assert(s.contains(t) <==> (dl.contains(t) || t == last)) by {
            if s.contains(t) {
                let k = choose|k: int| 0 <= k < s.len() && s[k] == t;
                if k < s.len() - 1 {
                    assert(dl[k] == t);
                }
            }
            if dl.contains(t) {
                let k = choose|k: int| 0 <= k < dl.len() && dl[k] == t;
                assert(s[k] == t);
            }
            assert(s[s.len() - 1] == last);
        }
        if dl.contains(t) && t == last {
            let k = choose|k: int| 0 <= k < dl.len() && dl[k] == t;
            assert(s[k] < s[s.len() - 1]);
        }
    }
}

/// Two strictly increasing sequences with the same members are equal.
proof fn lemma_incr_unique(s1: Seq<int>, s2: Seq<int>)
    requires
        strictly_increasing(s1),
        strictly_increasing(s2),
        forall|t: int| s1.contains(t) <==> s2.contains(t),
    ensures
        s1 == s2,
    decreases s1.len(),
{
    if s1.len() == 0 {
        if s2.len() > 0 {
            assert(s2.contains(s2.last())) by {
                assert(s2[s2.len() - 1] == s2.last());
            }
            assert(s1.contains(s2.last()));
            let k = choose|k: int| 0 <= k < s1.len() && s1[k] == s2.last();
            assert(false);
        }
        assert(s1 =~= s2);
    } else {
        assert(s1.contains(s1.last())) by {
            assert(s1[s1.len() - 1] == s1.last());
        }
        if s2.len() == 0 {
            assert(s2.contains(s1.last()));
            let k = choose|k: int| 0 <= k < s2.len() && s2[k] == s1.last();
            assert(false);
        }
        assert(s2.contains(s2.last())) by {
            assert(s2[s2.len() - 1] == s2.last());
        }
        // the two maxima agree
        assert(s1.last() == s2.last()) by {
            assert(s2.contains(s1.last()));
            let k1 = choose|k: int| 0 <= k < s2.len() && s2[k] == s1.last();
            assert(s1.contains(s2.last()));
            let k2 = choose|k: int| 0 <= k < s1.len() && s1[k] == s2.last();
            if k1 < s2.len() - 1 {
                assert(s2[k1] < s2.last());
            }
            if k2 < s1.len() - 1 {
                assert(s1[k2] < s1.last());
            }
        }
        let dl1 = s1.drop_last();
        let dl2 = s2.drop_last();
        assert(strictly_increasing(dl1) && strictly_increasing(dl2)) by {
            assert forall|a: int, b: int| 0 <= a < b < dl1.len() implies dl1[a] < dl1[b] by {
                assert(dl1[a] == s1[a] && dl1[b] == s1[b]);
            }
            assert forall|a: int, b: int| 0 <= a < b < dl2.len() implies dl2[a] < dl2[b] by {
                assert(dl2[a] == s2[a] && dl2[b] == s2[b]);
            }
        }
        assert forall|t: int| dl1.contains(t) <==> dl2.contains(t) by {
            lemma_drop_last_contains(s1, t);
            lemma_drop_last_contains(s2, t);
        }
        lemma_incr_unique(dl1, dl2);
        assert(s1 =~= dl1.push(s1.last()));
        assert(s2 =~= dl2.push(s2.last()));
    }
}

/// Membership in a strictly increasing sequence without its last element:
/// everything but the maximum.
proof fn lemma_drop_last_contains(s: Seq<int>, t: int)
    requires
        strictly_increasing(s),
        s.len() > 0,
    ensures
        s.drop_last().contains(t) <==> (s.contains(t) && t != s.last()),
{
    let dl = s.drop_last();
    if dl.contains(t) {
        let k = choose|k: int| 0 <= k < dl.len() && dl[k] == t;
        assert(s[k] == t);
        assert(s[k] < s[s.len() - 1]);
    }
    if s.contains(t) && t != s.last() {
        let k = choose|k: int| 0 <= k < s.len() && s[k] == t;
        assert(k < s.len() - 1);
        assert(dl[k] == t);
    }
}

/// Popping and emitting the top frame keeps the machine invariant: the
/// frames below stay well-formed and everything they can still emit lies
/// strictly after the emitted sequence.
/// A well-formed frame's letters are exactly the target minus the letters
/// of its chosen candidates, which fit within the target.
proof fn lemma_frame_residue(f: AnagramFrame, entries: Seq<Entry>, target: Seq<int>)
    requires
        frame_wf(f, entries, target),
        target.len() == 26,
    ensures
        seq_sum(entries, f.indices@) == sum_counts(f.partial_result@),
        f.letters@ == ms_sub(target, seq_sum(entries, f.indices@)),
        ms_superset(target, seq_sum(entries, f.indices@)),
        seq_sum(entries, f.indices@).len() == 26,
{
    lemma_seq_sum_matches_entries(entries, f.indices@, f.partial_result@);
    crate::sorted_letters::lemma_counts_shape(f.letters);
    lemma_seq_sum_prefix_le(entries, f.indices@, 0);
    assert(f.letters@ =~= ms_sub(target, seq_sum(entries, f.indices@)));
}

/// No extension of a complete sequence is owed: it has a complete proper
/// prefix, and if somehow still within the target it is itself complete.
proof fn lemma_complete_extension_not_emittable(
    entries: Seq<Entry>,
    target: Seq<int>,
    pre: Seq<int>,
    s: Seq<int>,
)
    requires
        target.len() == 26,
        seq_sum(entries, pre) == target,
        s.len() > pre.len(),
        s.take(pre.len() as int) == pre,
    ensures
        !emittable(entries, target, s),
{
    if emittable(entries, target, s) {
        lemma_seq_sum_prefix_le(entries, s, pre.len() as int);
        assert(seq_sum(entries, s) =~= target);
        assert(seq_sum(entries, s.take(pre.len() as int)) == target);
    }
}

/// No sequence continuing with a candidate that does not fit the residue
/// is owed: its letters would overflow the target.
proof fn lemma_unfit_extension_not_emittable(
    entries: Seq<Entry>,
    target: Seq<int>,
    pre: Seq<int>,
    c: int,
    s: Seq<int>,
)
    requires
        target.len() == 26,
        !ms_superset(ms_sub(target, seq_sum(entries, pre)), entries[c].spec_counts()),
        s.len() > pre.len(),
        s.take(pre.len() as int) == pre,
        s[pre.len() as int] == c,
    ensures
        !emittable(entries, target, s),
{
    if emittable(entries, target, s) {
        let m = pre.len() as int;
        lemma_seq_sum_prefix_le(entries, s, m + 1);
        assert(s.take(m + 1).drop_last() =~= pre);
        assert(s.take(m + 1).last() == c);
        assert(seq_sum(entries, s.take(m + 1)) == ms_add(
            seq_sum(entries, pre),
            entries[c].spec_counts(),
        ));
        let j = choose|j: int|
            0 <= j < 26 && !(ms_sub(target, seq_sum(entries, pre))[j]
                >= entries[c].spec_counts()[j]);
        assert(seq_sum(entries, s.take(m + 1))[j] > target[j]);
        assert(seq_sum(entries, s)[j] > target[j]);
    }
}

proof fn lemma_emit_ok(
    st0: Seq<AnagramFrame>,
    entries: Seq<Entry>,
    target: Seq<int>,
    emitted: Seq<Seq<int>>,
)
    requires
        stack_wf(st0, entries, target),
        st0.len() > 0,
        st0.last().is_virgin || ms_empty(st0.last().letters@),
        ms_empty(st0.last().letters@) || st0.last().pos == entries.len(),
        target.len() == 26,
        emitted.len() > 0 ==> frames_above(st0, emitted.last()),
        forall|s: Seq<int>|
            #[trigger] emittable(entries, target, s) ==> emitted.contains(s) || stack_covers(
                st0,
                s,
            ),
    ensures
        emitted.len() > 0 ==> idx_lex_lt(emitted.last(), st0.last().indices@),
        frames_above(st0.drop_last(), st0.last().indices@),
        emitted_seq_wf(st0.last().indices@, entries.len() as int),
        no_complete_prefix(entries, target, st0.last().indices@),
        !ms_empty(st0.last().letters@) ==> !fits_after(entries, target, st0.last().indices@),
        forall|s: Seq<int>|
            #[trigger] emittable(entries, target, s) ==> emitted.push(
                st0.last().indices@,
            ).contains(s) || stack_covers(st0.drop_last(), s),
{
    let top = st0.last();
    let ghost ell = top.indices@;
    assert(frame_wf(top, entries, target));
    assert(top.is_virgin) by {
        if !top.is_virgin {
            assert(ms_empty(top.letters@));
        }
    }
    assert(min_future(top) == ell);
    if emitted.len() > 0 {
        assert(idx_lex_lt(emitted.last(), min_future(top)));
    }
    lemma_frame_residue(top, entries, target);
    if !ms_empty(top.letters@) {
        // The frame scanned every candidate from its next position on and
        // none fit, so the partial result is maximal.
        assert(!fits_after(entries, target, ell)) by {
            if fits_after(entries, target, ell) {
                let p = choose|p: int|
                    next_pos(ell) <= p < entries.len() && ms_superset(
                        ms_sub(target, seq_sum(entries, ell)),
                        #[trigger] entries[p].spec_counts(),
                    );
                assert(!ms_superset(top.letters@, entries[p].spec_counts()));
            }
        }
    }
    // Everything still owed is either this very emission or remains
    // covered below: extensions of a complete frame are cut off by its
    // completeness, and an exhausted frame has no room to extend.
    assert forall|s: Seq<int>| #[trigger] emittable(entries, target, s) implies emitted.push(
        ell,
    ).contains(s) || stack_covers(st0.drop_last(), s) by {
        if emitted.contains(s) {
            let i = choose|i: int| 0 <= i < emitted.len() && emitted[i] == s;
            assert(emitted.push(ell)[i] == s);
        } else if stack_covers(st0, s) {
            let k = choose|k: int| 0 <= k < st0.len() && covers(#[trigger] st0[k], s);
            if k < st0.len() - 1 {
                assert(st0.drop_last()[k] == st0[k]);
                assert(stack_covers(st0.drop_last(), s));
            } else {
                // covered by the popped frame itself
                if top.is_virgin && s == ell {
                    assert(emitted.push(ell)[emitted.len() as int] == s);
                } else {
                    let m = ell.len() as int;
                    assert(s.len() > m && s.take(m) == ell && s[m] >= top.pos);
                    if ms_empty(top.letters@) {
                        assert(seq_sum(entries, ell) =~= target);
                        lemma_complete_extension_not_emittable(entries, target, ell, s);
                    } else {
                        assert(top.pos == entries.len());
                        assert(!in_range(s, entries.len() as int));
                    }
                }
            }
        }
    }
    assert forall|k: int| 0 <= k < st0.drop_last().len() implies idx_lex_lt(
        ell,
        min_future(#[trigger] st0.drop_last()[k]),
    ) by {
        assert(st0.drop_last()[k] == st0[k]);
        let f = st0[k];
        assert(chain_link(st0[k], st0[k + 1]));
        assert(!f.is_virgin);
        assert(min_future(f) == f.indices@.push(f.pos as int));
        lemma_chain_prefix(st0, entries, target, k, st0.len() - 1);
        assert(ell.take(k) =~= f.indices@);
        assert(ell[k] == f.pos - 1);
        assert(f.indices@.push(f.pos as int)[k] == f.pos as int);
        assert forall|t: int| 0 <= t < k implies ell[t] == f.indices@.push(f.pos as int)[t] by {
            assert(ell.take(k)[t] == ell[t]);
        }
        lemma_lex_first_diff(ell, f.indices@.push(f.pos as int), k);
    }
}

/// Appending a strictly larger sequence keeps the emission history
/// strictly ascending and well-formed.
proof fn lemma_emitted_extended(emitted: Seq<Seq<int>>, ell: Seq<int>, n: int)
    requires
        forall|i: int| 0 <= i < emitted.len() ==> emitted_seq_wf(#[trigger] emitted[i], n),
        forall|i: int|
            0 <= i < emitted.len() - 1 ==> idx_lex_lt(#[trigger] emitted[i], emitted[i + 1]),
        emitted.len() > 0 ==> idx_lex_lt(emitted.last(), ell),
        emitted_seq_wf(ell, n),
    ensures
        forall|i: int|
            0 <= i < emitted.push(ell).len() ==> emitted_seq_wf(#[trigger] emitted.push(ell)[i], n),
        forall|i: int|
            0 <= i < emitted.push(ell).len() - 1 ==> idx_lex_lt(
                #[trigger] emitted.push(ell)[i],
                emitted.push(ell)[i + 1],
            ),
{
    assert forall|i: int| 0 <= i < emitted.push(ell).len() implies emitted_seq_wf(
        #[trigger] emitted.push(ell)[i],
        n,
    ) by {
        if i < emitted.len() {
            assert(emitted.push(ell)[i] == emitted[i]);
        } else {
            assert(emitted.push(ell)[i] == ell);
        }
    }
    assert forall|i: int| 0 <= i < emitted.push(ell).len() - 1 implies idx_lex_lt(
        #[trigger] emitted.push(ell)[i],
        emitted.push(ell)[i + 1],
    ) by {
        if i < emitted.len() - 1 {
            assert(emitted.push(ell)[i] == emitted[i]);
            assert(emitted.push(ell)[i + 1] == emitted[i + 1]);
        } else {
            assert(emitted.push(ell)[i] == emitted.last());
            assert(emitted.push(ell)[i + 1] == ell);
        }
    }
}

/// Advancing the top frame's cursor past a candidate that does not fit
/// keeps the machine invariant.
proof fn lemma_advance_ok(
    st0: Seq<AnagramFrame>,
    entries: Seq<Entry>,
    target: Seq<int>,
    emitted: Seq<Seq<int>>,
    frame: AnagramFrame,
    n: nat,
)
    requires
        stack_wf(st0, entries, target),
        st0.len() > 0,
        n == entries.len(),
        frame.letters == st0.last().letters,
        frame.partial_result@ == st0.last().partial_result@,
        frame.indices == st0.last().indices,
        frame.is_virgin == st0.last().is_virgin,
        frame.pos == st0.last().pos + 1,
        st0.last().pos < entries.len(),
        !ms_empty(st0.last().letters@),
        target.len() == 26,
        !ms_superset(st0.last().letters@, entries[st0.last().pos as int].spec_counts()),
        emitted.len() > 0 ==> frames_above(st0, emitted.last()),
        forall|s: Seq<int>|
            #[trigger] emittable(entries, target, s) ==> emitted.contains(s) || stack_covers(
                st0,
                s,
            ),
    ensures
        stack_wf(st0.drop_last().push(frame), entries, target),
        emitted.len() > 0 ==> frames_above(st0.drop_last().push(frame), emitted.last()),
        pot_frames(st0.drop_last().push(frame), n) < pot_frames(st0, n),
        forall|s: Seq<int>|
            #[trigger] emittable(entries, target, s) ==> emitted.contains(s) || stack_covers(
                st0.drop_last().push(frame),
                s,
            ),
{
    let st1 = st0.drop_last().push(frame);
    let top = st0.last();
    assert(frame_wf(top, entries, target));
    assert(frame_wf(frame, entries, target)) by {
        if frame.is_virgin {
            assert forall|p: int|
                next_pos(frame.indices@) <= p < frame.pos implies !ms_superset(
                frame.letters@,
                #[trigger] entries[p].spec_counts(),
            ) by {
                if p < top.pos {
                    assert(!ms_superset(top.letters@, entries[p].spec_counts()));
                }
            }
        }
    }
    lemma_frame_residue(top, entries, target);
    assert forall|s: Seq<int>| #[trigger] emittable(entries, target, s) implies emitted.contains(
        s,
    ) || stack_covers(st1, s) by {
        if !emitted.contains(s) {
            let k = choose|k: int| 0 <= k < st0.len() && covers(#[trigger] st0[k], s);
            if k < st0.len() - 1 {
                assert(st1[k] == st0[k]);
                assert(stack_covers(st1, s));
            } else {
                let m = top.indices@.len() as int;
                if top.is_virgin && s == top.indices@ {
                    assert(covers(frame, s));
                    assert(st1[st1.len() - 1] == frame);
                    assert(stack_covers(st1, s));
                } else {
                    assert(s.len() > m && s.take(m) == top.indices@ && s[m] >= top.pos);
                    if s[m] == top.pos {
                        lemma_unfit_extension_not_emittable(
                            entries,
                            target,
                            top.indices@,
                            top.pos as int,
                            s,
                        );
                    } else {
                        assert(covers(frame, s));
                        assert(st1[st1.len() - 1] == frame);
                        assert(stack_covers(st1, s));
                    }
                }
            }
        }
    }
    assert forall|k: int| 0 <= k < st1.len() implies frame_wf(#[trigger] st1[k], entries, target)
        && st1[k].indices@.len() == k by {
        if k < st1.len() - 1 {
            assert(st1[k] == st0[k]);
        } else {
            assert(st1[k] == frame);
            assert(top.indices@.len() == st0.len() - 1);
        }
    }
    assert forall|k: int| 0 <= k < st1.len() - 1 implies chain_link(
        #[trigger] st1[k],
        st1[k + 1],
    ) by {
        assert(st1[k] == st0[k]);
        if k < st1.len() - 2 {
            assert(st1[k + 1] == st0[k + 1]);
        } else {
            assert(st1[k + 1] == frame);
            assert(chain_link(st0[k], st0[k + 1]));
            assert(st0[k + 1] == top);
        }
    }
    if emitted.len() > 0 {
        let last = emitted.last();
        assert forall|k: int| 0 <= k < st1.len() implies idx_lex_lt(
            last,
            min_future(#[trigger] st1[k]),
        ) by {
            if k < st1.len() - 1 {
                assert(st1[k] == st0[k]);
            } else {
                assert(st1[k] == frame);
                assert(idx_lex_lt(last, min_future(top)));
                if frame.is_virgin {
                    assert(min_future(frame) == min_future(top));
                } else {
                    assert(min_future(top) == top.indices@.push(top.pos as int));
                    assert(min_future(frame) == top.indices@.push(top.pos + 1));
                    assert forall|t: int|
                        0 <= t < top.indices@.len() implies top.indices@.push(top.pos as int)[t]
                        == top.indices@.push(top.pos + 1)[t] by {}
                    lemma_lex_first_diff(
                        top.indices@.push(top.pos as int),
                        top.indices@.push(top.pos + 1),
                        top.indices@.len() as int,
                    );
                    lemma_lex_trans(
                        last,
                        top.indices@.push(top.pos as int),
                        top.indices@.push(top.pos + 1),
                    );
                }
            }
        }
    }
    assert(st1.drop_last() =~= st0.drop_last());
    assert(frame_pot(frame, n) < frame_pot(top, n)) by {
        lemma_pow2_strictly_increases((n - frame.pos) as nat, (n - top.pos) as nat);
    }
}

/// Pushing a child frame after consuming the candidate at `c` keeps the
/// machine invariant on the parent and yields a well-formed child.
proof fn lemma_push_child_ok(
    st0: Seq<AnagramFrame>,
    entries: Seq<Entry>,
    target: Seq<int>,
    emitted: Seq<Seq<int>>,
    parent: AnagramFrame,
    child: AnagramFrame,
    c: int,
)
    requires
        stack_wf(st0, entries, target),
        st0.len() > 0,
        c == st0.last().pos,
        c < entries.len(),
        !ms_empty(st0.last().letters@),
        parent.letters == st0.last().letters,
        parent.partial_result@ == st0.last().partial_result@,
        parent.indices == st0.last().indices,
        parent.is_virgin == false,
        parent.pos == c + 1,
        child.letters@ == ms_sub(st0.last().letters@, entries[c].spec_counts()),
        ms_superset(st0.last().letters@, entries[c].spec_counts()),
        child.partial_result@ == st0.last().partial_result@.push(entries[c]),
        child.indices@ == st0.last().indices@.push(c),
        child.is_virgin == true,
        child.pos == c + 1,
        target.len() == 26,
        emitted.len() > 0 ==> frames_above(st0, emitted.last()),
    ensures
        frame_wf(parent, entries, target),
        frame_wf(child, entries, target),
        chain_link(parent, child),
        !emittable(entries, target, st0.last().indices@),
        emitted.len() > 0 ==> idx_lex_lt(emitted.last(), min_future(parent)) && idx_lex_lt(
            emitted.last(),
            min_future(child),
        ),
{
    let top = st0.last();
    assert(frame_wf(top, entries, target));
    // parent well-formedness: only the cursor moved.
    assert(frame_wf(parent, entries, target));
    lemma_frame_residue(top, entries, target);
    // the frame's own sequence is no longer owed: it is incomplete, and
    // the candidate just consumed fits its residue
    let ghost pre = top.indices@;
    assert(seq_sum(entries, pre) != target) by {
        let t = choose|t: int| 0 <= t < 26 && top.letters@[t] != 0;
        crate::sorted_letters::lemma_counts_shape(top.letters);
        assert(seq_sum(entries, pre)[t] != target[t]);
    }
    assert(!emittable(entries, target, pre)) by {
        assert(next_pos(pre) <= c < entries.len());
        assert(ms_superset(ms_sub(target, seq_sum(entries, pre)), entries[c].spec_counts()));
        assert(fits_after(entries, target, pre));
    }
    // the child's sequence has no complete proper prefix either
    assert(no_complete_prefix(entries, target, child.indices@)) by {
        assert forall|j: int| 0 <= j < child.indices@.len() implies seq_sum(
            entries,
            #[trigger] child.indices@.take(j),
        ) != target by {
            if j < pre.len() {
                assert(child.indices@.take(j) =~= pre.take(j));
            } else {
                assert(child.indices@.take(j) =~= pre);
            }
        }
    }
    // child well-formedness.
    assert(child.partial_result@.drop_last() =~= top.partial_result@);
    assert(sum_counts(child.partial_result@) == ms_add(
        sum_counts(top.partial_result@),
        entries[c].spec_counts(),
    ));
    assert(ms_add(sum_counts(child.partial_result@), child.letters@) =~= ms_add(
        sum_counts(top.partial_result@),
        top.letters@,
    ));
    assert forall|k: int| 0 <= k < child.indices@.len() implies 0 <= #[trigger] child.indices@[k]
        < entries.len() by {
        if k < top.indices@.len() {
            assert(child.indices@[k] == top.indices@[k]);
        } else {
            assert(child.indices@[k] == c);
        }
    }
    assert forall|k: int| 0 <= k < child.indices@.len() implies #[trigger] child.partial_result@[k]
        == entries[child.indices@[k]] by {
        if k < top.indices@.len() {
            assert(child.indices@[k] == top.indices@[k]);
            assert(child.partial_result@[k] == top.partial_result@[k]);
        } else {
            assert(child.indices@[k] == c);
            assert(child.partial_result@[k] == entries[c]);
        }
    }
    assert(strictly_increasing(child.indices@)) by {
        assert forall|k1: int, k2: int|
            0 <= k1 < k2 < child.indices@.len() implies child.indices@[k1]
            < child.indices@[k2] by {
            if k2 < top.indices@.len() {
                assert(child.indices@[k1] == top.indices@[k1]);
                assert(child.indices@[k2] == top.indices@[k2]);
            } else {
                assert(child.indices@[k2] == c);
                assert(child.indices@[k1] == top.indices@[k1]);
                if top.indices@.len() > 0 {
                    if k1 < top.indices@.len() - 1 {
                        assert(top.indices@[k1] < top.indices@.last());
                    }
                    assert(top.indices@.last() < top.pos);
                }
            }
        }
    }
    assert(frame_wf(child, entries, target));
    assert(chain_link(parent, child));
    if emitted.len() > 0 {
        let last = emitted.last();
        assert(idx_lex_lt(last, min_future(top)));
        if top.is_virgin {
            // min_future(top) == top.indices
            assert(min_future(top) == top.indices@);
            lemma_lex_prefix(top.indices@, child.indices@);
            lemma_lex_trans(last, top.indices@, child.indices@);
            assert(idx_lex_lt(last, min_future(child)));
            lemma_lex_prefix(top.indices@, min_future(parent));
            lemma_lex_trans(last, top.indices@, min_future(parent));
        } else {
            assert(min_future(top) == top.indices@.push(c));
            assert(min_future(child) == child.indices@);
            assert(child.indices@ == top.indices@.push(c));
            assert(idx_lex_lt(last, min_future(child)));
            assert(min_future(parent) == top.indices@.push(c + 1));
            assert forall|t: int|
                0 <= t < top.indices@.len() implies top.indices@.push(c)[t] == top.indices@.push(
                c + 1,
            )[t] by {}
            lemma_lex_first_diff(
                top.indices@.push(c),
                top.indices@.push(c + 1),
                top.indices@.len() as int,
            );
            lemma_lex_trans(last, top.indices@.push(c), top.indices@.push(c + 1));
        }
    }
}

/// The stack after replacing the top frame by the advanced parent and its
/// new child is well-formed, everything it can still emit stays above the
/// last emission, and the potential is unchanged: the parent released
/// exactly what the child carries.
proof fn lemma_push_child_shape(
    st0: Seq<AnagramFrame>,
    parent: AnagramFrame,
    child: AnagramFrame,
    entries: Seq<Entry>,
    target: Seq<int>,
    emitted: Seq<Seq<int>>,
    n: nat,
)
    requires
        st0.len() > 0,
        n == entries.len(),
        stack_wf(st0, entries, target),
        frame_wf(parent, entries, target),
        frame_wf(child, entries, target),
        chain_link(parent, child),
        parent.indices@ == st0.last().indices@,
        parent.pos == st0.last().pos + 1,
        child.pos == st0.last().pos + 1,
        parent.is_virgin == false,
        child.is_virgin == true,
        st0.last().pos < entries.len(),
        !emittable(entries, target, st0.last().indices@),
        emitted.len() > 0 ==> idx_lex_lt(emitted.last(), min_future(parent)) && idx_lex_lt(
            emitted.last(),
            min_future(child),
        ) && frames_above(st0, emitted.last()),
        forall|s: Seq<int>|
            #[trigger] emittable(entries, target, s) ==> emitted.contains(s) || stack_covers(
                st0,
                s,
            ),
    ensures
        stack_wf(st0.drop_last().push(parent).push(child), entries, target),
        emitted.len() > 0 ==> frames_above(
            st0.drop_last().push(parent).push(child),
            emitted.last(),
        ),
        pot_frames(st0.drop_last().push(parent).push(child), n) == pot_frames(st0, n),
        forall|s: Seq<int>|
            #[trigger] emittable(entries, target, s) ==> emitted.contains(s) || stack_covers(
                st0.drop_last().push(parent).push(child),
                s,
            ),
{
    let st2 = st0.drop_last().push(parent).push(child);
    let m = st0.len() as int;
    let top = st0.last();
    assert(top.indices@.len() == m - 1);
    assert(child.indices@ == parent.indices@.push(parent.pos - 1));
    let c = st0.last().pos as int;
    assert forall|s: Seq<int>| #[trigger] emittable(entries, target, s) implies emitted.contains(
        s,
    ) || stack_covers(st2, s) by {
        if !emitted.contains(s) {
            let k = choose|k: int| 0 <= k < st0.len() && covers(#[trigger] st0[k], s);
            if k < m - 1 {
                assert(st2[k] == st0[k]);
                assert(stack_covers(st2, s));
            } else {
                let lm = top.indices@.len() as int;
                // the frame's own sequence is not owed, so `s` extends it
                assert(s.len() > lm && s.take(lm) == top.indices@ && s[lm] >= top.pos);
                if s[lm] == c {
                    assert(s.take(lm + 1) =~= child.indices@);
                    if s.len() == lm + 1 {
                        assert(s =~= child.indices@);
                        assert(covers(child, s));
                    } else {
                        // strictly increasing positions continue past the
                        // child's cursor
                        assert(s[lm + 1] > s[lm]);
                        assert(s.take(child.indices@.len() as int) == child.indices@);
                        assert(covers(child, s));
                    }
                    assert(st2[m] == child);
                    assert(stack_covers(st2, s));
                } else {
                    assert(s[lm] >= parent.pos);
                    assert(covers(parent, s));
                    assert(st2[m - 1] == parent);
                    assert(stack_covers(st2, s));
                }
            }
        }
    }
    assert forall|k: int| 0 <= k < st2.len() implies frame_wf(#[trigger] st2[k], entries, target)
        && st2[k].indices@.len() == k by {
        if k < m - 1 {
            assert(st2[k] == st0[k]);
        } else if k == m - 1 {
            assert(st2[k] == parent);
        } else {
            assert(st2[k] == child);
        }
    }
    assert forall|k: int| 0 <= k < st2.len() - 1 implies chain_link(
        #[trigger] st2[k],
        st2[k + 1],
    ) by {
        if k < m - 2 {
            assert(st2[k] == st0[k] && st2[k + 1] == st0[k + 1]);
            assert(chain_link(st0[k], st0[k + 1]));
        } else if k == m - 2 {
            assert(st2[k] == st0[k]);
            assert(st2[k + 1] == parent);
            assert(chain_link(st0[k], st0[k + 1]));
            assert(st0[k + 1] == top);
            assert(chain_link(st2[k], parent));
        } else {
            assert(st2[k] == parent && st2[k + 1] == child);
        }
    }
    if emitted.len() > 0 {
        let last = emitted.last();
        assert forall|k: int| 0 <= k < st2.len() implies idx_lex_lt(
            last,
            min_future(#[trigger] st2[k]),
        ) by {
            if k < m - 1 {
                assert(st2[k] == st0[k]);
            } else if k == m - 1 {
                assert(st2[k] == parent);
            } else {
                assert(st2[k] == child);
            }
        }
    }
    let mid = st0.drop_last().push(parent);
    assert(st2.drop_last() =~= mid);
    assert(mid.drop_last() =~= st0.drop_last());
    assert(st2.last() == child);
    assert(mid.last() == parent);
    assert(pot_frames(st2, n) == pot_frames(st2.drop_last(), n) + frame_pot(st2.last(), n));
    assert(pot_frames(mid, n) == pot_frames(mid.drop_last(), n) + frame_pot(mid.last(), n));
    assert(pot_frames(st2, n) == pot_frames(st0.drop_last(), n) + frame_pot(parent, n)
        + frame_pot(child, n));
    assert(pot_frames(st0, n) == pot_frames(st0.drop_last(), n) + frame_pot(top, n));
    assert(frame_pot(parent, n) + frame_pot(child, n) == frame_pot(top, n)) by {
        assert(parent.pos == top.pos + 1 && child.pos == top.pos + 1);
        assert(top.pos < n);
        lemma_pow2_unfold((n - top.pos) as nat);
    }
}

} // verus!
