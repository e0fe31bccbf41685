//! Bit-packed lookup fields, and the projection of a field onto the bits
//! that a vector selects.
use vstd::prelude::*;

verus! {

/// Number of bits in one word of a matched field.
pub const WORD_BITS: usize = 64;

/// `2^n`.
pub open spec fn pow2(n: nat) -> nat
    decreases n,
{
    if n == 0 {
        1
    } else {
        2 * pow2((n - 1) as nat)
    }
}

/// Bit `p` of a field made of 64-bit words, counted from the low bit of the
/// first word.
pub open spec fn bit_of(words: Seq<u64>, p: int) -> bool {
    (words[p / 64] >> ((p % 64) as u64)) & 1u64 == 1u64
}

/// A key `key` matches the atom `(field, mask)` when every word of the key,
/// restricted to the mask, equals the field.
pub open spec fn field_matches(key: Seq<u64>, field: Seq<u64>, mask: Seq<u64>) -> bool {
    &&& key.len() == field.len()
    &&& key.len() == mask.len()
    &&& forall|w: int| 0 <= w < key.len() ==> (#[trigger] key[w] & mask[w]) == field[w]
}

/// Every selected bit position lies inside a field of `nwords` words.
pub open spec fn bits_in_range(vbits: Seq<usize>, nwords: nat) -> bool {
    forall|j: int| 0 <= j < vbits.len() ==> (#[trigger] vbits[j]) < nwords * 64
}

/// The table index of `words`: bit `j` of the index is the bit of `words` at
/// the `j`-th selected position, for the first `n` selected positions.
pub open spec fn table_index(words: Seq<u64>, vbits: Seq<usize>, n: nat) -> nat
    decreases n,
{
    if n == 0 {
        0
    } else {
        let j = (n - 1) as nat;
        table_index(words, vbits, j) + if bit_of(words, vbits[j as int] as int) {
            pow2(j)
        } else {
            0
        }
    }
}

/// How many of the first `n` selected positions the mask cares about.
pub open spec fn care_count(mask: Seq<u64>, vbits: Seq<usize>, n: nat) -> nat
    decreases n,
{
    if n == 0 {
        0
    } else {
        care_count(mask, vbits, (n - 1) as nat) + if bit_of(mask, vbits[n - 1] as int) {
            1nat
        } else {
            0nat
        }
    }
}

/// Every table index that a key matching `(field, mask)` can have, over the
/// first `n` selected positions: a position the mask cares about fixes its
/// index bit to the field's bit, any other position doubles the set.
pub open spec fn all_table_index(field: Seq<u64>, mask: Seq<u64>, vbits: Seq<usize>, n: nat) -> Seq<
    int,
>
    decreases n,
{
    if n == 0 {
        seq![0int]
    } else {
        let j = (n - 1) as nat;
        let prev = all_table_index(field, mask, vbits, j);
        let p = vbits[j as int] as int;
        let w = pow2(j) as int;
        if bit_of(mask, p) {
            if bit_of(field, p) {
                prev.map_values(|x: int| x + w)
            } else {
                prev
            }
        } else {
            prev + prev.map_values(|x: int| x + w)
        }
    }
}

/// `2^n` is positive.
pub proof fn lemma_pow2_pos(n: nat)
    ensures
        pow2(n) >= 1,
    decreases n,
{
    if n > 0 {
        lemma_pow2_pos((n - 1) as nat);
    }
}

/// `2^15` and `2^16`.
pub proof fn lemma_pow2_values()
    ensures
        pow2(15) == 32768,
        pow2(16) == 65536,
{
    reveal_with_fuel(pow2, 17);
}

/// This `pow2` is vstd's.
pub proof fn lemma_pow2_agree(n: nat)
    ensures
        pow2(n) == vstd::arithmetic::power2::pow2(n),
    decreases n,
{
    if n > 0 {
        vstd::arithmetic::power2::lemma_pow2_unfold(n);
        lemma_pow2_agree((n - 1) as nat);
    } else {
        vstd::arithmetic::power2::lemma_pow2(0);
        assert(vstd::arithmetic::power::pow(2, 0) == 1) by {
            reveal(vstd::arithmetic::power::pow);
        }
    }
}

/// `2^n` grows with `n`.
pub proof fn lemma_pow2_mono(a: nat, b: nat)
    requires
        a <= b,
    ensures
        pow2(a) <= pow2(b),
    decreases b,
{
    if a < b {
        lemma_pow2_mono(a, (b - 1) as nat);
    }
}

proof fn lemma_care_count_le(mask: Seq<u64>, vbits: Seq<usize>, n: nat)
    ensures
        care_count(mask, vbits, n) <= n,
    decreases n,
{
    if n > 0 {
        lemma_care_count_le(mask, vbits, (n - 1) as nat);
    }
}

/// The table index of any field is below `2^n`.
pub proof fn lemma_table_index_bound(words: Seq<u64>, vbits: Seq<usize>, n: nat)
    ensures
        table_index(words, vbits, n) < pow2(n),
    decreases n,
{
    if n > 0 {
        lemma_table_index_bound(words, vbits, (n - 1) as nat);
    }
}

/// The enumeration holds `2^(n - c)` indices, where `c` counts the selected
/// positions that the mask cares about.
pub proof fn lemma_all_table_index_len(field: Seq<u64>, mask: Seq<u64>, vbits: Seq<usize>, n: nat)
    ensures
        care_count(mask, vbits, n) <= n,
        all_table_index(field, mask, vbits, n).len() == pow2((n - care_count(mask, vbits, n)) as nat),
    decreases n,
{
    lemma_care_count_le(mask, vbits, n);
    if n > 0 {
        let j = (n - 1) as nat;
        lemma_all_table_index_len(field, mask, vbits, j);
        lemma_care_count_le(mask, vbits, j);
        let c = care_count(mask, vbits, j);
        if !bit_of(mask, vbits[j as int] as int) {
            assert((n - care_count(mask, vbits, n)) as nat == ((j - c) as nat + 1) as nat);
        }
    }
}

/// Every enumerated index lies below `2^n`, and none occurs twice.
pub proof fn lemma_all_table_index_distinct(
    field: Seq<u64>,
    mask: Seq<u64>,
    vbits: Seq<usize>,
    n: nat,
)
    ensures
        forall|i: int|
            0 <= i < all_table_index(field, mask, vbits, n).len() ==> 0 <= #[trigger] all_table_index(
                field,
                mask,
                vbits,
                n,
            )[i] < pow2(n),
        all_table_index(field, mask, vbits, n).no_duplicates(),
    decreases n,
{
    if n > 0 {
        let j = (n - 1) as nat;
        lemma_all_table_index_distinct(field, mask, vbits, j);
        let prev = all_table_index(field, mask, vbits, j);
        let w = pow2(j) as int;
        let cur = all_table_index(field, mask, vbits, n);
        let shifted = prev.map_values(|x: int| x + w);
        assert(forall|i: int| 0 <= i < shifted.len() ==> shifted[i] == prev[i] + w);
        if bit_of(mask, vbits[j as int] as int) {
            if bit_of(field, vbits[j as int] as int) {
                assert(cur == shifted);
                assert forall|a: int, b: int|
                    0 <= a < cur.len() && 0 <= b < cur.len() && a != b implies cur[a] != cur[b] by {
                    assert(prev[a] != prev[b]);
                }
            }
        } else {
            assert(cur == prev + shifted);
            assert forall|i: int| 0 <= i < cur.len() implies 0 <= #[trigger] cur[i] < pow2(n) by {
                if i >= prev.len() {
                    assert(cur[i] == prev[i - prev.len()] + w);
                } else {
                    assert(cur[i] == prev[i]);
                }
            }
            assert forall|a: int, b: int|
                0 <= a < cur.len() && 0 <= b < cur.len() && a != b implies cur[a] != cur[b] by {
                if a < prev.len() && b < prev.len() {
                    assert(prev[a] != prev[b]);
                } else if a >= prev.len() && b >= prev.len() {
                    assert(prev[a - prev.len()] != prev[b - prev.len()]);
                } else if a < prev.len() {
                    assert(cur[a] == prev[a]);
                    assert(cur[b] == prev[b - prev.len()] + w);
                } else {
                    assert(cur[b] == prev[b]);
                    assert(cur[a] == prev[a - prev.len()] + w);
                }
            }
        }
    }
}

proof fn lemma_masked_bit(k: u64, m: u64, f: u64, s: u64)
    requires
        (k & m) == f,
        s < 64,
        (m >> s) & 1u64 == 1u64,
    ensures
        (k >> s) & 1u64 == (f >> s) & 1u64,
{
    assert((k >> s) & 1u64 == (f >> s) & 1u64) by (bit_vector)
        requires
            (k & m) == f,
            s < 64,
            (m >> s) & 1u64 == 1u64,
    ;
}

proof fn lemma_set_bit(w: u64, s: u64, t: u64)
    requires
        s < 64,
        t < 64,
    ensures
        ((w | (1u64 << s)) >> t) & 1u64 == 1u64 <==> ((w >> t) & 1u64 == 1u64 || t == s),
{
    assert(((w | (1u64 << s)) >> t) & 1u64 == 1u64 <==> ((w >> t) & 1u64 == 1u64 || t == s)) by (bit_vector)
        requires
            s < 64,
            t < 64,
    ;
}

/// A key that matches an atom has its table index among the atom's
/// enumerated indices: the atom is found in the bucket the key selects.
pub proof fn lemma_matching_key_in_all_table_index(
    key: Seq<u64>,
    field: Seq<u64>,
    mask: Seq<u64>,
    vbits: Seq<usize>,
    n: nat,
)
    requires
        field_matches(key, field, mask),
        n <= vbits.len(),
        bits_in_range(vbits, key.len()),
    ensures
        all_table_index(field, mask, vbits, n).contains(table_index(key, vbits, n) as int),
    decreases n,
{
    if n > 0 {
        let j = (n - 1) as nat;
        lemma_matching_key_in_all_table_index(key, field, mask, vbits, j);
        let prev = all_table_index(field, mask, vbits, j);
        let t = table_index(key, vbits, j) as int;
        let w = pow2(j) as int;
        let p = vbits[j as int] as int;
        let i = choose|i: int| 0 <= i < prev.len() && prev[i] == t;
        let shifted = prev.map_values(|x: int| x + w);
        let cur = all_table_index(field, mask, vbits, n);
        assert(0 <= p / 64 < key.len());
        if bit_of(mask, p) {
            let wi = p / 64;
            assert((key[wi] & mask[wi]) == field[wi]);
            lemma_masked_bit(key[wi], mask[wi], field[wi], (p % 64) as u64);
            assert(bit_of(key, p) == bit_of(field, p));
            if bit_of(field, p) {
                assert(cur == shifted);
                assert(cur[i] == t + w);
                assert(table_index(key, vbits, n) == t + w);
            } else {
                assert(cur == prev);
                assert(table_index(key, vbits, n) == t);
            }
        } else {
            assert(cur == prev + shifted);
            if bit_of(key, p) {
                assert(cur[prev.len() + i] == t + w);
                assert(table_index(key, vbits, n) == t + w);
            } else {
                assert(cur[i] == t);
                assert(table_index(key, vbits, n) == t);
            }
        }
    } else {
        assert(all_table_index(field, mask, vbits, n)[0] == 0);
    }
}

/// A lookup field, or one half of an atom: a sequence of 64-bit words.
#[derive(Clone, Debug, PartialEq, Eq)]
pub struct MatchedField {
    pub words: Vec<u64>,
}

impl MatchedField {
    /// Number of bits in the field.
    pub fn bit_size(&self) -> (r: usize)
        requires
            self.words.len() * 64 <= usize::MAX,
        ensures
            r == self.words.len() * 64,
    {
        self.words.len() * WORD_BITS
    }

    /// Whether bit `p` is clear.
    pub fn is_bit_zero(&self, p: usize) -> (r: bool)
        requires
            p < self.words.len() * 64,
        ensures
            r == !bit_of(self.words@, p as int),
    {
        let w = self.words[p / WORD_BITS];
        let s = (p % WORD_BITS) as u64;
        proof {
            assert(((w >> s) & 1u64 == 0u64) == !((w >> s) & 1u64 == 1u64)) by (bit_vector);
        }
        (w >> s) & 1 == 0
    }

    /// Whether this key, restricted to `mask`, equals `field`.
    pub fn matches(&self, field: &MatchedField, mask: &MatchedField) -> (r: bool)
        ensures
            r == field_matches(self.words@, field.words@, mask.words@),
    {
        let n = self.words.len();
        if field.words.len() != n || mask.words.len() != n {
            return false;
        }
        let mut w: usize = 0;
        while w < n
            invariant
                n == self.words.len(),
                n == field.words.len(),
                n == mask.words.len(),
                w <= n,
                forall|v: int| 0 <= v < w ==> (#[trigger] self.words@[v] & mask.words@[v]) == field.words@[v],
            decreases n - w,
        {
            if self.words[w] & mask.words[w] != field.words[w] {
                return false;
            }
            w += 1;
        }
        true
    }

    /// A field of `nwords` zero words.
    pub fn zeros(nwords: usize) -> (r: MatchedField)
        ensures
            r.words@.len() == nwords,
            forall|w: int| 0 <= w < nwords ==> r.words@[w] == 0,
    {
        let mut words: Vec<u64> = Vec::new();
        let mut i: usize = 0;
        while i < nwords
            invariant
                i <= nwords,
                words.len() == i,
                forall|w: int| 0 <= w < i ==> words@[w] == 0,
            decreases nwords - i,
        {
            words.push(0);
            i += 1;
        }
        MatchedField { words }
    }

    /// The word-wise AND of two fields of one length.
    pub fn and(&self, other: &MatchedField) -> (r: MatchedField)
        requires
            self.words.len() == other.words.len(),
        ensures
            r.words@.len() == self.words@.len(),
            forall|w: int| 0 <= w < r.words@.len() ==> #[trigger] r.words@[w] == self.words@[w] & other.words@[w],
    {
        let mut words: Vec<u64> = Vec::new();
        let mut i: usize = 0;
        while i < self.words.len()
            invariant
                self.words.len() == other.words.len(),
                i <= self.words.len(),
                words.len() == i,
                forall|w: int| 0 <= w < i ==> #[trigger] words@[w] == self.words@[w] & other.words@[w],
            decreases self.words.len() - i,
        {
            words.push(self.words[i] & other.words[i]);
            i += 1;
        }
        MatchedField { words }
    }

    /// Sets the bits at `positions`; every other bit keeps its value.
    pub fn set_bits(&mut self, positions: &Vec<usize>)
        requires
            bits_in_range(positions@, old(self).words.len() as nat),
            old(self).words.len() * 64 <= usize::MAX,
        ensures
            final(self).words.len() == old(self).words.len(),
            forall|q: int|
                0 <= q < old(self).words.len() * 64 ==> (bit_of(final(self).words@, q) <==> (bit_of(old(self).words@, q)
                    || positions@.contains(q as usize))),
    {
        let mut j: usize = 0;
        while j < positions.len()
            invariant
                j <= positions.len(),
                self.words.len() == old(self).words.len(),
                old(self).words.len() * 64 <= usize::MAX,
                bits_in_range(positions@, old(self).words.len() as nat),
                forall|q: int|
                    0 <= q < old(self).words.len() * 64 ==> (bit_of(self.words@, q) <==> (bit_of(old(self).words@, q)
                        || positions@.take(j as int).contains(q as usize))),
            decreases positions.len() - j,
        {
            let p = positions[j];
            let w = p / WORD_BITS;
            let s = (p % WORD_BITS) as u64;
            let ghost before = self.words@;
            let old_word = self.words[w];
            let new_word = old_word | (1u64 << s);
            self.words.set(w, new_word);
            proof {
                assert(positions@.take(j + 1) =~= positions@.take(j as int).push(p));
                assert forall|q: int| 0 <= q < old(self).words.len() * 64 implies (bit_of(self.words@, q) <==> (bit_of(before, q) || q == p)) by {
                    let t = (q % 64) as u64;
                    if q / 64 == w as int {
                        lemma_set_bit(old_word, s, t);
                    } else {
                        assert(self.words@[q / 64] == before[q / 64]);
                    }
                    if q == p {
                        assert(q / 64 == w as int);
                    }
                    if q / 64 == w as int && t == s {
                        assert(q == p);
                    }
                }
                assert forall|q: int| 0 <= q < old(self).words.len() * 64 implies (#[trigger] positions@.take(j + 1).contains(q as usize) <==> (positions@.take(j as int).contains(q as usize) || q == p)) by {
                    let prev = positions@.take(j as int);
                    if prev.contains(q as usize) {
                        let i = choose|i: int| 0 <= i < prev.len() && prev[i] == q as usize;
                        assert(positions@.take(j + 1)[i] == q as usize);
                    }
                    if q == p {
                        assert(positions@.take(j + 1)[j as int] == p);
                    }
                    let cur = positions@.take(j + 1);
                    if cur.contains(q as usize) {
                        let i = choose|i: int| 0 <= i < cur.len() && cur[i] == q as usize;
                        if i < j {
                            assert(prev[i] == q as usize);
                        }
                    }
                }
                assert forall|q: int| 0 <= q < old(self).words.len() * 64 implies (bit_of(self.words@, q) <==> (bit_of(old(self).words@, q)
                    || positions@.take(j + 1).contains(q as usize))) by {
                    assert(bit_of(before, q) <==> (bit_of(old(self).words@, q) || positions@.take(j as int).contains(q as usize)));
                    assert(bit_of(self.words@, q) <==> (bit_of(before, q) || q == p));
                    assert(positions@.take(j + 1).contains(q as usize) <==> (positions@.take(j as int).contains(q as usize) || q == p));
                }
            }
            j += 1;
        }
        assert(positions@.take(positions.len() as int) =~= positions@);
    }

    /// Packs the bits at the selected positions into a table index.
    pub fn get_table_index(&self, vector_bits: &Vec<usize>) -> (r: u16)
        requires
            vector_bits.len() <= 16,
            bits_in_range(vector_bits@, self.words.len() as nat),
        ensures
            r as nat == table_index(self.words@, vector_bits@, vector_bits.len() as nat),
    {
        let n = vector_bits.len();
        let mut index: u32 = 0;
        let mut weight: u32 = 1;
        let mut j: usize = 0;
        while j < n
            invariant
                n == vector_bits.len(),
                n <= 16,
                j <= n,
                bits_in_range(vector_bits@, self.words.len() as nat),
                index as nat == table_index(self.words@, vector_bits@, j as nat),
                weight as nat == pow2(j as nat),
                index < weight,
                weight <= 65536,
            decreases n - j,
        {
            proof {
                lemma_pow2_mono((j + 1) as nat, 16);
                lemma_pow2_values();
            }
            if !self.is_bit_zero(vector_bits[j]) {
                index = index + weight;
            }
            weight = weight * 2;
            j += 1;
        }
        index as u16
    }

    /// Every table index that a key matching the atom `(self, mask)` can
    /// have.
    pub fn get_all_table_index(&self, mask: &MatchedField, vector_bits: &Vec<usize>) -> (r: Vec<
        u16,
    >)
        requires
            vector_bits.len() <= 16,
            mask.words.len() == self.words.len(),
            bits_in_range(vector_bits@, self.words.len() as nat),
        ensures
            r@.map_values(|x: u16| x as int) == all_table_index(
                self.words@,
                mask.words@,
                vector_bits@,
                vector_bits.len() as nat,
            ),
    {
        let n = vector_bits.len();
        let mut out: Vec<u16> = vec![0u16];
        let mut weight: u32 = 1;
        let mut j: usize = 0;
        proof {
            assert(out@.map_values(|x: u16| x as int) =~= seq![0int]);
        }
        while j < n
            invariant
                n == vector_bits.len(),
                n <= 16,
                j <= n,
                mask.words.len() == self.words.len(),
                bits_in_range(vector_bits@, self.words.len() as nat),
                out@.map_values(|x: u16| x as int) == all_table_index(
                    self.words@,
                    mask.words@,
                    vector_bits@,
                    j as nat,
                ),
                weight as nat == pow2(j as nat),
                weight <= 65536,
            decreases n - j,
        {
            let ghost prev = all_table_index(self.words@, mask.words@, vector_bits@, j as nat);
            proof {
                lemma_all_table_index_distinct(self.words@, mask.words@, vector_bits@, j as nat);
                lemma_all_table_index_len(self.words@, mask.words@, vector_bits@, j as nat);
                lemma_pow2_mono((j + 1) as nat, 16);
                lemma_pow2_mono(j as nat, 15);
                lemma_pow2_values();
                assert(forall|i: int| 0 <= i < out.len() ==> out@[i] as int == prev[i]);
            }
            let p = vector_bits[j];
            let w16 = weight as u16;
            if mask.is_bit_zero(p) {
                let len = out.len();
                let mut i: usize = 0;
                while i < len
                    invariant
                        len == prev.len(),
                        i <= len,
                        out.len() == len + i,
                        forall|t: int| 0 <= t < len ==> 0 <= #[trigger] prev[t] < weight,
                        forall|t: int| 0 <= t < len ==> out@[t] as int == prev[t],
                        forall|t: int| 0 <= t < i ==> out@[len + t] as int == prev[t] + weight,
                        weight <= 32768,
                        w16 == weight,
                    decreases len - i,
                {
                    assert(out@[i as int] as int == prev[i as int]);
                    assert(prev[i as int] < weight);
                    let v = out[i] + w16;
                    out.push(v);
                    i += 1;
                }
                proof {
                    assert(out@.map_values(|x: u16| x as int) =~= prev + prev.map_values(
                        |x: int| x + weight as int,
                    ));
                }
            } else if !self.is_bit_zero(p) {
                let len = out.len();
                let mut i: usize = 0;
                while i < len
                    invariant
                        len == prev.len(),
                        i <= len,
                        out.len() == len,
                        forall|t: int| 0 <= t < len ==> 0 <= #[trigger] prev[t] < weight,
                        forall|t: int| i <= t < len ==> out@[t] as int == prev[t],
                        forall|t: int| 0 <= t < i ==> out@[t] as int == prev[t] + weight,
                        weight <= 32768,
                        w16 == weight,
                    decreases len - i,
                {
                    assert(out@[i as int] as int == prev[i as int]);
                    assert(prev[i as int] < weight);
                    let v = out[i] + w16;
                    out.set(i, v);
                    i += 1;
                }
                proof {
                    assert(out@.map_values(|x: u16| x as int) =~= prev.map_values(
                        |x: int| x + weight as int,
                    ));
                }
            }
            weight = weight * 2;
            j += 1;
        }
        out
    }
}

} // verus!
