//! Choice of the discriminating bits that index the first-path table.
use vstd::prelude::*;

use crate::matched_field::{bit_of, bits_in_range, MatchedField, WORD_BITS};
use crate::table::{atoms_view, Atom};

verus! {

/// The most bits a vector selects: a table index is a `u16`.
pub const VECTOR_MASK_SIZE_MAX: usize = 16;

/// The fewest bits a vector selects.
pub const VECTOR_MASK_SIZE_MIN: usize = 4;

/// `|a - b|`.
pub open spec fn abs_diff_spec(a: int, b: int) -> int {
    if a > b {
        a - b
    } else {
        b - a
    }
}

/// How badly a bit splits `base` atoms, `matched_0` of which need it clear
/// and `matched_1` set: 0 for an even split of all atoms, `base` for a bit
/// that no atom cares about.
pub open spec fn calc_index_spec(matched_0: int, matched_1: int, base: int) -> int {
    if matched_0 == 0 && matched_1 == 0 {
        base
    } else {
        abs_diff_spec(matched_0, matched_1) + (base - (matched_0 + matched_1))
    }
}

/// The score of a bit: `calc_index_spec`, with values above `i16::MAX`
/// folded many-to-one into the upper half of the `u16` range.
pub open spec fn sort_index_spec(matched_0: int, matched_1: int, base: int) -> int {
    let index = calc_index_spec(matched_0, matched_1, base);
    if index > 0x7fff {
        index / (base / 0x8000 + 1) + 0x7fff
    } else {
        index
    }
}

/// `|a - b|`.
pub fn abs_diff(a: usize, b: usize) -> (r: usize)
    ensures
        r == abs_diff_spec(a as int, b as int),
{
    if a > b {
        a - b
    } else {
        b - a
    }
}

/// How badly a bit splits the atoms; see `calc_index_spec`.
pub fn calc_index(matched_0: usize, matched_1: usize, base: usize) -> (r: usize)
    requires
        matched_0 + matched_1 <= base,
    ensures
        r == calc_index_spec(matched_0 as int, matched_1 as int, base as int),
        r <= base,
{
    if matched_0 == 0 && matched_1 == 0 {
        return base;
    }
    abs_diff(matched_0, matched_1) + (base - (matched_0 + matched_1))
}

/// The score of a bit; see `sort_index_spec`.
pub fn sort_table_index(matched_0: usize, matched_1: usize, base: usize) -> (r: usize)
    requires
        matched_0 + matched_1 <= base,
    ensures
        r == sort_index_spec(matched_0 as int, matched_1 as int, base as int),
        r < 0xffff,
{
    let index = calc_index(matched_0, matched_1, base);
    if index > 0x7fff {
        let n = base / 0x8000 + 1;
        proof {
            assert(index / n < 0x8000) by (nonlinear_arith)
                requires
                    index <= base,
                    n == base / 0x8000 + 1,
                    n >= 1,
            {
                assert(base < 0x8000 * n);
            }
        }
        index / n + 0x7fff
    } else {
        index
    }
}

/// Atoms (field, mask pairs `fields[i]`, `masks[i]`), the first `n` of them,
/// whose mask cares about bit `p` and whose field has it set (`one`) or
/// clear (not `one`).
pub open spec fn count_bit(fields: Seq<Seq<u64>>, masks: Seq<Seq<u64>>, p: int, one: bool, n: nat) -> nat
    decreases n,
{
    if n == 0 {
        0
    } else {
        let i = n - 1;
        count_bit(fields, masks, p, one, (n - 1) as nat) + if bit_of(masks[i], p) && bit_of(fields[i], p)
            == one {
            1nat
        } else {
            0nat
        }
    }
}

/// Whether bit `p` ranks before bit `q`: a lower score first, then the lower
/// position.
pub open spec fn ranks_before(scores: Seq<usize>, p: int, q: int) -> bool {
    scores[p] < scores[q] || (scores[p] == scores[q] && p < q)
}

/// `bits` holds the `k` best-ranked positions of `scores`.
pub open spec fn best_bits(scores: Seq<usize>, bits: Seq<usize>, k: nat) -> bool {
    &&& bits.len() == k
    &&& bits.no_duplicates()
    &&& forall|j: int| 0 <= j < bits.len() ==> (#[trigger] bits[j]) < scores.len()
    &&& forall|j: int, q: int|
        0 <= j < bits.len() && 0 <= q < scores.len() && !bits.contains(q as usize)
            ==> #[trigger] ranks_before(scores, bits[j] as int, q)
}

/// The largest vector size in `[min, max]` with `2^size <= total`, or `min`.
pub open spec fn vector_size_spec(total: int, size: int) -> int
    decreases size,
{
    if size <= VECTOR_MASK_SIZE_MIN {
        VECTOR_MASK_SIZE_MIN as int
    } else if total >= crate::matched_field::pow2(size as nat) {
        size
    } else {
        vector_size_spec(total, size - 1)
    }
}

/// Counts, for bit `p`, the atoms that need it clear and those that need it
/// set.
fn count_bit_values(atoms: &Vec<Atom>, p: usize) -> (r: (usize, usize))
    requires
        forall|i: int| 0 <= i < atoms.len() ==> p < (#[trigger] atoms@[i]).field.words.len() * 64,
        forall|i: int| 0 <= i < atoms.len() ==> p < (#[trigger] atoms@[i]).mask.words.len() * 64,
    ensures
        r.0 == count_bit(atoms@.map_values(|a: Atom| a.field.words@), atoms@.map_values(|a: Atom| a.mask.words@), p as int, false, atoms.len() as nat),
        r.1 == count_bit(atoms@.map_values(|a: Atom| a.field.words@), atoms@.map_values(|a: Atom| a.mask.words@), p as int, true, atoms.len() as nat),
        r.0 + r.1 <= atoms.len(),
{
    let ghost fw = atoms@.map_values(|a: Atom| a.field.words@);
    let ghost mw = atoms@.map_values(|a: Atom| a.mask.words@);
    let mut m0: usize = 0;
    let mut m1: usize = 0;
    let mut i: usize = 0;
    while i < atoms.len()
        invariant
                fw == atoms@.map_values(|a: Atom| a.field.words@),
            mw == atoms@.map_values(|a: Atom| a.mask.words@),
            forall|i: int| 0 <= i < atoms.len() ==> p < (#[trigger] atoms@[i]).field.words.len() * 64,
            forall|i: int| 0 <= i < atoms.len() ==> p < (#[trigger] atoms@[i]).mask.words.len() * 64,
            i <= atoms.len(),
            m0 == count_bit(fw, mw, p as int, false, i as nat),
            m1 == count_bit(fw, mw, p as int, true, i as nat),
            m0 + m1 <= i,
        decreases atoms.len() - i,
    {
        assert(fw[i as int] == atoms@[i as int].field.words@);
        assert(mw[i as int] == atoms@[i as int].mask.words@);
        if !atoms[i].mask.is_bit_zero(p) {
            if atoms[i].field.is_bit_zero(p) {
                m0 += 1;
            } else {
                m1 += 1;
            }
        }
        i += 1;
    }
    (m0, m1)
}

/// The score of every bit position below `nbits`.
pub fn generate_sort_table(atoms: &Vec<Atom>, nbits: usize) -> (r: Vec<usize>)
    requires
        forall|i: int| 0 <= i < atoms.len() ==> nbits <= (#[trigger] atoms@[i]).field.words.len() * 64,
        forall|i: int| 0 <= i < atoms.len() ==> nbits <= (#[trigger] atoms@[i]).mask.words.len() * 64,
    ensures
        r.len() == nbits,
        forall|p: int|
            0 <= p < nbits ==> #[trigger] r@[p] == sort_index_spec(
                count_bit(atoms@.map_values(|a: Atom| a.field.words@), atoms@.map_values(|a: Atom| a.mask.words@), p, false, atoms.len() as nat) as int,
                count_bit(atoms@.map_values(|a: Atom| a.field.words@), atoms@.map_values(|a: Atom| a.mask.words@), p, true, atoms.len() as nat) as int,
                atoms.len() as int,
            ),
{
    let base = atoms.len();
    let mut scores: Vec<usize> = Vec::new();
    let mut p: usize = 0;
    while p < nbits
        invariant
                base == atoms.len(),
            forall|i: int| 0 <= i < atoms.len() ==> nbits <= (#[trigger] atoms@[i]).field.words.len() * 64,
            forall|i: int| 0 <= i < atoms.len() ==> nbits <= (#[trigger] atoms@[i]).mask.words.len() * 64,
            p <= nbits,
            scores.len() == p,
            forall|q: int|
                0 <= q < p ==> #[trigger] scores@[q] == sort_index_spec(
                    count_bit(atoms@.map_values(|a: Atom| a.field.words@), atoms@.map_values(|a: Atom| a.mask.words@), q, false, atoms.len() as nat) as int,
                    count_bit(atoms@.map_values(|a: Atom| a.field.words@), atoms@.map_values(|a: Atom| a.mask.words@), q, true, atoms.len() as nat) as int,
                    atoms.len() as int,
                ),
        decreases nbits - p,
    {
        let (m0, m1) = count_bit_values(atoms, p);
        scores.push(sort_table_index(m0, m1, base));
        p += 1;
    }
    scores
}

/// The `k` best-ranked positions of `scores`, best first.
pub fn select_bits(scores: &Vec<usize>, k: usize) -> (r: Vec<usize>)
    requires
        k <= scores.len(),
    ensures
        best_bits(scores@, r@, k as nat),
        strictly_sorted(r@),
{
    let n = scores.len();
    let mut chosen: Vec<bool> = Vec::new();
    let mut c: usize = 0;
    while c < n
        invariant
            c <= n,
            chosen.len() == c,
            forall|q: int| 0 <= q < c ==> !chosen@[q],
        decreases n - c,
    {
        chosen.push(false);
        c += 1;
    }
    let mut bits: Vec<usize> = Vec::new();
    while bits.len() < k
        invariant
            n == scores.len(),
            k <= n,
            bits.len() <= k,
            chosen.len() == n,
            forall|q: int| 0 <= q < n ==> (#[trigger] chosen@[q] <==> bits@.contains(q as usize)),
            bits@.no_duplicates(),
            forall|j: int| 0 <= j < bits.len() ==> (#[trigger] bits@[j]) < n,
            forall|j: int, q: int|
                0 <= j < bits.len() && 0 <= q < n && !bits@.contains(q as usize)
                    ==> #[trigger] ranks_before(scores@, bits@[j] as int, q),
        decreases k - bits.len(),
    {
        // Some position is still free: fewer than n are chosen.
        proof {
            if forall|q: usize| (q as int) < n ==> #[trigger] bits@.contains(q) {
                lemma_full_cover(bits@, n as nat);
            }
        }
        let mut best: usize = n;
        let mut q: usize = 0;
        while q < n
            invariant
                n == scores.len(),
                chosen.len() == n,
                q <= n,
                best == n || (best < q && !chosen@[best as int]),
                best < n ==> forall|t: int| 0 <= t < q && !chosen@[t] ==> ranks_before(scores@, best as int, t) || t == best,
                best == n ==> forall|t: int| 0 <= t < q ==> chosen@[t],
            decreases n - q,
        {
            if !chosen[q] {
                if best == n || scores[q] < scores[best] {
                    best = q;
                }
            }
            q += 1;
        }
        proof {
            if best == n {
                let f = choose|q: usize| (q as int) < n && !#[trigger] bits@.contains(q);
                assert(chosen@[f as int]);
            }
        }
        let ghost old_bits = bits@;
        chosen.set(best, true);
        bits.push(best);
        proof {
            assert forall|q: int| 0 <= q < n implies (#[trigger] chosen@[q] <==> bits@.contains(q as usize)) by {
                if q == best {
                    assert(bits@[bits.len() - 1] == best);
                } else {
                    if old_bits.contains(q as usize) {
                        let j = choose|j: int| 0 <= j < old_bits.len() && old_bits[j] == q as usize;
                        assert(bits@[j] == q as usize);
                    }
                    if bits@.contains(q as usize) {
                        let j = choose|j: int| 0 <= j < bits.len() && bits@[j] == q as usize;
                        assert(j < old_bits.len());
                        assert(old_bits[j] == q as usize);
                    }
                }
            }
            assert forall|a: int, b: int| 0 <= a < bits.len() && 0 <= b < bits.len() && a != b implies bits@[a] != bits@[b] by {
                if a < old_bits.len() && b < old_bits.len() {
                } else if a < old_bits.len() {
                    assert(old_bits.contains(bits@[a]));
                } else {
                    assert(old_bits.contains(bits@[b]));
                }
            }
            assert forall|j: int, q: int|
                0 <= j < bits.len() && 0 <= q < n && !bits@.contains(q as usize)
                    implies #[trigger] ranks_before(scores@, bits@[j] as int, q) by {
                assert(!old_bits.contains(q as usize)) by {
                    if old_bits.contains(q as usize) {
                        let i = choose|i: int| 0 <= i < old_bits.len() && old_bits[i] == q as usize;
                        assert(bits@[i] == q as usize);
                    }
                }
                if j < old_bits.len() {
                    assert(bits@[j] == old_bits[j]);
                } else {
                    assert(bits@[j] == best);
                    assert(q != best);
                    assert(!chosen@[q] || q == best) by {
                        assert(bits@[bits.len() - 1] == best);
                    }
                }
            }
        }
    }
    // List the chosen positions in ascending order.
    let mut sorted: Vec<usize> = Vec::new();
    let mut q: usize = 0;
    while q < n
        invariant
            n == scores.len(),
            chosen.len() == n,
            q <= n,
            forall|p: int| 0 <= p < n ==> (#[trigger] chosen@[p] <==> bits@.contains(p as usize)),
            strictly_sorted(sorted@),
            forall|j: int| 0 <= j < sorted.len() ==> (#[trigger] sorted@[j]) < q,
            forall|x: usize| #[trigger] sorted@.contains(x) <==> ((x as int) < q && chosen@[x as int]),
        decreases n - q,
    {
        if chosen[q] {
            let ghost before = sorted@;
            sorted.push(q);
            proof {
                assert forall|x: usize| #[trigger] sorted@.contains(x) <==> ((x as int) < q + 1 && chosen@[x as int]) by {
                    if before.contains(x) {
                        let j = choose|j: int| 0 <= j < before.len() && before[j] == x;
                        assert(sorted@[j] == x);
                    }
                    if x == q {
                        assert(sorted@[before.len() as int] == x);
                    }
                    if sorted@.contains(x) {
                        let j = choose|j: int| 0 <= j < sorted@.len() && sorted@[j] == x;
                        if j < before.len() {
                            assert(before[j] == x);
                        }
                    }
                }
            }
        } else {
            proof {
                assert forall|x: usize| #[trigger] sorted@.contains(x) <==> ((x as int) < q + 1 && chosen@[x as int]) by {
                    if x == q {
                        if sorted@.contains(x) {
                            let j = choose|j: int| 0 <= j < sorted@.len() && sorted@[j] == x;
                        }
                    }
                }
            }
        }
        q += 1;
    }
    proof {
        broadcast use vstd::seq_lib::seq_to_set_is_finite;

        assert(sorted@.no_duplicates()) by {
            assert forall|i: int, j: int| 0 <= i < sorted@.len() && 0 <= j < sorted@.len() && i != j implies sorted@[i] != sorted@[j] by {
                if i < j {
                    assert(sorted@[i] < sorted@[j]);
                } else {
                    assert(sorted@[j] < sorted@[i]);
                }
            }
        }
        assert forall|x: usize| #[trigger] sorted@.contains(x) <==> bits@.contains(x) by {
            if bits@.contains(x) {
                let j = choose|j: int| 0 <= j < bits@.len() && bits@[j] == x;
                assert(bits@[j] < n);
                assert(chosen@[x as int]);
            }
        }
        assert(sorted@.to_set() =~= bits@.to_set());
        sorted@.unique_seq_to_set();
        bits@.unique_seq_to_set();
        assert forall|j: int, p: int|
            0 <= j < sorted@.len() && 0 <= p < n && !sorted@.contains(p as usize)
                implies #[trigger] ranks_before(scores@, sorted@[j] as int, p) by {
            assert(sorted@.contains(sorted@[j]));
            assert(bits@.contains(sorted@[j]));
            let i = choose|i: int| 0 <= i < bits@.len() && bits@[i] == sorted@[j];
            assert(!bits@.contains(p as usize));
            assert(ranks_before(scores@, bits@[i] as int, p));
        }
        assert forall|j: int| 0 <= j < sorted@.len() implies (#[trigger] sorted@[j]) < scores@.len() by {
        }
    }
    sorted
}

/// Every element is smaller than those after it.
pub open spec fn strictly_sorted(s: Seq<usize>) -> bool {
    forall|i: int, j: int| 0 <= i < j < s.len() ==> s[i] < s[j]
}

/// The `k` best-ranked positions of `scores`, in ascending order.
pub open spec fn chosen_bits(scores: Seq<usize>, k: nat) -> Seq<usize> {
    choose|b: Seq<usize>| best_bits(scores, b, k) && strictly_sorted(b)
}

/// Every position of one best set lies in any other.
proof fn lemma_best_subset(scores: Seq<usize>, a: Seq<usize>, b: Seq<usize>, k: nat)
    requires
        best_bits(scores, a, k),
        best_bits(scores, b, k),
    ensures
        forall|x: usize| a.contains(x) ==> b.contains(x),
{
    broadcast use vstd::seq_lib::seq_to_set_is_finite;

    assert forall|x: usize| a.contains(x) implies b.contains(x) by {
        if !b.contains(x) {
            if forall|y: usize| b.contains(y) ==> a.contains(y) {
                a.unique_seq_to_set();
                b.unique_seq_to_set();
                assert(b.to_set().subset_of(a.to_set()));
                vstd::set_lib::lemma_subset_equality(b.to_set(), a.to_set());
                assert(a.to_set().contains(x));
            }
            let y = choose|y: usize| b.contains(y) && !a.contains(y);
            let i = choose|i: int| 0 <= i < a.len() && a[i] == x;
            let j = choose|j: int| 0 <= j < b.len() && b[j] == y;
            assert(ranks_before(scores, a[i] as int, y as int));
            assert(ranks_before(scores, b[j] as int, x as int));
        }
    }
}

/// Two ascending sequences of the same elements are equal.
proof fn lemma_sorted_unique(a: Seq<usize>, b: Seq<usize>)
    requires
        strictly_sorted(a),
        strictly_sorted(b),
        forall|x: usize| a.contains(x) <==> b.contains(x),
    ensures
        a == b,
    decreases a.len(),
{
    if a.len() == 0 {
        if b.len() > 0 {
            assert(b.contains(b[0]));
        }
        assert(a =~= b);
    } else {
        assert(a.contains(a[0]));
        let j = choose|j: int| 0 <= j < b.len() && b[j] == a[0];
        assert(b.contains(b[0]));
        let i = choose|i: int| 0 <= i < a.len() && a[i] == b[0];
        if i > 0 {
            assert(a[0] < a[i]);
        }
        if j > 0 {
            assert(b[0] < b[j]);
        }
        assert(a[0] == b[0]);
        let a1 = a.drop_first();
        let b1 = b.drop_first();
        assert forall|x: usize| a1.contains(x) <==> b1.contains(x) by {
            if a1.contains(x) {
                let t = choose|t: int| 0 <= t < a1.len() && a1[t] == x;
                assert(a[t + 1] == x);
                assert(a[0] < a[t + 1]);
                assert(b.contains(x));
                let u = choose|u: int| 0 <= u < b.len() && b[u] == x;
                assert(u != 0);
                assert(b1[u - 1] == x);
            }
            if b1.contains(x) {
                let t = choose|t: int| 0 <= t < b1.len() && b1[t] == x;
                assert(b[t + 1] == x);
                assert(b[0] < b[t + 1]);
                assert(a.contains(x));
                let u = choose|u: int| 0 <= u < a.len() && a[u] == x;
                assert(u != 0);
                assert(a1[u - 1] == x);
            }
        }
        lemma_sorted_unique(a1, b1);
        assert(a =~= seq![a[0]] + a1);
        assert(b =~= seq![b[0]] + b1);
    }
}

/// The best set, listed in ascending order, is `chosen_bits`.
pub proof fn lemma_chosen_bits(scores: Seq<usize>, bits: Seq<usize>, k: nat)
    requires
        best_bits(scores, bits, k),
        strictly_sorted(bits),
    ensures
        chosen_bits(scores, k) == bits,
{
    let c = chosen_bits(scores, k);
    lemma_best_subset(scores, c, bits, k);
    lemma_best_subset(scores, bits, c, k);
    lemma_sorted_unique(c, bits);
}

/// A sequence of distinct positions below `n` that holds every one of them
/// has `n` elements.
proof fn lemma_full_cover(bits: Seq<usize>, n: nat)
    requires
        bits.no_duplicates(),
        forall|j: int| 0 <= j < bits.len() ==> (#[trigger] bits[j]) < n,
        forall|q: usize| (q as int) < n ==> #[trigger] bits.contains(q),
        n <= usize::MAX,
    ensures
        bits.len() >= n,
{
    broadcast use vstd::seq_lib::seq_to_set_is_finite;

    let ib = bits.map_values(|u: usize| u as int);
    assert(ib.no_duplicates()) by {
        assert forall|a: int, b: int| 0 <= a < ib.len() && 0 <= b < ib.len() && a != b implies ib[a] != ib[b] by {
            assert(bits[a] != bits[b]);
        }
    }
    ib.unique_seq_to_set();
    vstd::set_lib::lemma_int_range(0, n as int);
    let r = vstd::set_lib::set_int_range(0, n as int);
    assert forall|x: int| r.contains(x) implies ib.to_set().contains(x) by {
        assert(bits.contains((x as usize)));
        let j = choose|j: int| 0 <= j < bits.len() && bits[j] == x as usize;
        assert(ib[j] == x);
    }
    vstd::set_lib::lemma_len_subset(r, ib.to_set());
}

/// The bits that index the first-path table of one address family.
#[derive(Debug)]
pub struct Vector {
    pub min_bit: usize,
    pub max_bit: usize,
    /// A field with exactly the selected bits set.
    pub mask: MatchedField,
    pub vector_bits: Vec<usize>,
}

impl Vector {
    /// A vector that selects no bit: every atom shares one bucket.
    pub fn new() -> (r: Vector)
        ensures
            r.vector_bits@.len() == 0,
    {
        Vector { min_bit: 0, max_bit: 0, mask: MatchedField { words: Vec::new() }, vector_bits: Vec::new() }
    }

    /// Holds at most 16 positions, all inside a field of `nwords` words.
    pub open spec fn wf(&self, nwords: nat) -> bool {
        &&& self.vector_bits@.len() <= VECTOR_MASK_SIZE_MAX
        &&& bits_in_range(self.vector_bits@, nwords)
    }

    /// Selects the `vector_size` best-splitting bits of `atoms`, each of
    /// `nwords` words.
    pub fn init(atoms: &Vec<Atom>, nwords: usize, vector_size: usize) -> (r: Vector)
        requires
            VECTOR_MASK_SIZE_MIN <= vector_size <= VECTOR_MASK_SIZE_MAX,
            1 <= nwords <= 8,
            forall|i: int| 0 <= i < atoms.len() ==> (#[trigger] atoms@[i]).field.words.len() == nwords,
            forall|i: int| 0 <= i < atoms.len() ==> (#[trigger] atoms@[i]).mask.words.len() == nwords,
        ensures
            r.wf(nwords as nat),
            r.vector_bits@.len() == vector_size,
            r.vector_bits@ == chosen_bits(generate_sort_table_spec(atoms_view(atoms@), nwords as nat * 64), vector_size as nat),
            best_bits(generate_sort_table_spec(atoms_view(atoms@), nwords as nat * 64), r.vector_bits@, vector_size as nat),
            strictly_sorted(r.vector_bits@),
            r.min_bit == r.vector_bits@[0],
            r.max_bit == r.vector_bits@.last(),
            r.mask.words.len() == nwords,
            forall|q: int| 0 <= q < nwords * 64 ==> (bit_of(r.mask.words@, q) <==> r.vector_bits@.contains(q as usize)),
    {
        let nbits = nwords * WORD_BITS;
        let scores = generate_sort_table(atoms, nbits);
        proof {
            let av = atoms_view(atoms@);
            assert(atoms@.map_values(|a: Atom| a.field.words@) =~= av.map_values(|a: (Seq<u64>, Seq<u64>, usize)| a.0));
            assert(atoms@.map_values(|a: Atom| a.mask.words@) =~= av.map_values(|a: (Seq<u64>, Seq<u64>, usize)| a.1));
            assert(scores@ =~= generate_sort_table_spec(av, nbits as nat));
        }
        let bits = select_bits(&scores, vector_size);
        proof {
            lemma_chosen_bits(scores@, bits@, vector_size as nat);
        }
        let min_bit = bits[0];
        let max_bit = bits[bits.len() - 1];
        let mut mask = MatchedField::zeros(nwords);
        proof {
            assert forall|q: int| 0 <= q < nwords * 64 implies !bit_of(mask.words@, q) by {
                let w = mask.words@[q / 64];
                let t = (q % 64) as u64;
                assert(w == 0);
                assert((0u64 >> t) & 1u64 == 0u64) by (bit_vector);
            }
        }
        mask.set_bits(&bits);
        Vector { min_bit, max_bit, mask, vector_bits: bits }
    }
}

/// The scores that `generate_sort_table` gives the first `nbits` bits.
pub open spec fn generate_sort_table_spec(atoms: Seq<(Seq<u64>, Seq<u64>, usize)>, nbits: nat) -> Seq<usize> {
    Seq::new(
        nbits,
        |p: int|
            sort_index_spec(
                count_bit(atoms.map_values(|a: (Seq<u64>, Seq<u64>, usize)| a.0), atoms.map_values(|a: (Seq<u64>, Seq<u64>, usize)| a.1), p, false, atoms.len() as nat) as int,
                count_bit(atoms.map_values(|a: (Seq<u64>, Seq<u64>, usize)| a.0), atoms.map_values(|a: (Seq<u64>, Seq<u64>, usize)| a.1), p, true, atoms.len() as nat) as int,
                atoms.len() as int,
            ) as usize,
    )
}

/// The vector size for `total` atoms at density `level` (clamped to
/// `[1, 16]`): the largest size in `[4, 16]` with
/// `total >> level >= 2^size`, or 4.
pub fn vector_size(total: usize, level: usize) -> (r: usize)
    ensures
        r == vector_size_spec(total as int / crate::matched_field::pow2(clamp_level(level as int) as nat) as int, VECTOR_MASK_SIZE_MAX as int),
        VECTOR_MASK_SIZE_MIN <= r <= VECTOR_MASK_SIZE_MAX,
{
    let lv: usize = if level < 1 {
        1
    } else if level > 16 {
        16
    } else {
        level
    };
    let shifted = total >> lv;
    proof {
        assert(shifted == total as int / (crate::matched_field::pow2(lv as nat) as int)) by {
            lemma_shift_is_div(total, lv);
        }
    }
    let mut size: usize = VECTOR_MASK_SIZE_MAX;
    while size > VECTOR_MASK_SIZE_MIN
        invariant
            VECTOR_MASK_SIZE_MIN <= size <= VECTOR_MASK_SIZE_MAX,
            vector_size_spec(shifted as int, size as int) == vector_size_spec(shifted as int, VECTOR_MASK_SIZE_MAX as int),
            shifted == total as int / (crate::matched_field::pow2(lv as nat) as int),
            lv == clamp_level(level as int),
        decreases size,
    {
        proof {
            crate::matched_field::lemma_pow2_values();
            lemma_pow2_le_16(size as nat);
        }
        if shifted >= (1usize << size) {
            proof { lemma_shl_is_pow2(size); }
            return size;
        }
        proof { lemma_shl_is_pow2(size); }
        size -= 1;
    }
    size
}

/// The density level actually used.
pub open spec fn clamp_level(level: int) -> int {
    if level < 1 {
        1
    } else if level > 16 {
        16
    } else {
        level
    }
}

proof fn lemma_pow2_le_16(n: nat)
    requires
        n <= 16,
    ensures
        crate::matched_field::pow2(n) <= 65536,
{
    crate::matched_field::lemma_pow2_values();
    crate::matched_field::lemma_pow2_mono(n, 16);
}

proof fn lemma_shl_is_pow2(size: usize)
    requires
        size <= 16,
    ensures
        (1usize << size) as int == crate::matched_field::pow2(size as nat),
{
    crate::matched_field::lemma_pow2_agree(size as nat);
    lemma_pow2_le_16(size as nat);
    vstd::bits::lemma_usize_shl_is_mul(1, size);
}

proof fn lemma_shift_is_div(total: usize, lv: usize)
    requires
        1 <= lv <= 16,
    ensures
        (total >> lv) as int == total as int / (crate::matched_field::pow2(lv as nat) as int),
{
    vstd::bits::lemma_usize_shr_is_div(total, lv);
    crate::matched_field::lemma_pow2_agree(lv as nat);
}

} // verus!
