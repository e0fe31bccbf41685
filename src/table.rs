//! The first-path table of one address family: every atom is filed in each
//! bucket whose index a matching key can have, so a lookup scans one bucket
//! and finds what a scan of all atoms would.
use vstd::prelude::*;

use crate::matched_field::{
    all_table_index, bits_in_range, field_matches, lemma_all_table_index_distinct,
    lemma_matching_key_in_all_table_index, lemma_pow2_mono, lemma_pow2_values,
    lemma_table_index_bound, table_index, MatchedField,
};
use crate::policy::{
    flip, flip_all, lemma_flip_tagged, merged, pick_acl_id, tagged, union_into, DirectionType,
    NpbAction, PolicyData, PolicyModel,
};
use crate::vector::Vector;

verus! {

broadcast use Seq::lemma_filter_push;

/// Number of buckets: one per `u16` table index.
pub const TABLE_SIZE: usize = 65536;

/// One predicate of an ACL: a key matches when, restricted to `mask`, it
/// equals `field`. `acl` is the position of the ACL's policy.
#[derive(Debug)]
pub struct Atom {
    pub field: MatchedField,
    pub mask: MatchedField,
    pub acl: usize,
}

/// What an installed ACL contributes when one of its atoms matches.
#[derive(Debug)]
pub struct AclPolicy {
    pub id: u32,
    pub npb_actions: Vec<NpbAction>,
}

/// An atom as values: field words, mask words, position of its ACL.
pub open spec fn atom_view(a: Atom) -> (Seq<u64>, Seq<u64>, usize) {
    (a.field.words@, a.mask.words@, a.acl)
}

/// Atoms as values.
pub open spec fn atoms_view(v: Seq<Atom>) -> Seq<(Seq<u64>, Seq<u64>, usize)> {
    v.map_values(|a: Atom| atom_view(a))
}

/// Atom `i` exists, points at a policy, and matches `key`.
pub open spec fn hit(key: Seq<u64>, atoms: Seq<Atom>, acls: Seq<AclPolicy>, i: int) -> bool {
    &&& 0 <= i < atoms.len()
    &&& field_matches(key, atoms[i].field.words@, atoms[i].mask.words@)
    &&& atoms[i].acl < acls.len()
}

/// `p` after visiting atom `i`: a hit merges its ACL's actions in
/// direction `d`.
pub open spec fn scan_step(
    key: Seq<u64>,
    atoms: Seq<Atom>,
    acls: Seq<AclPolicy>,
    i: int,
    d: DirectionType,
    p: PolicyModel,
) -> PolicyModel {
    if hit(key, atoms, acls, i) {
        let a = acls[atoms[i].acl as int];
        merged(p, a.npb_actions@, a.id, d)
    } else {
        p
    }
}

/// `p` after visiting the atoms `items`, in order.
pub open spec fn scan(
    key: Seq<u64>,
    atoms: Seq<Atom>,
    acls: Seq<AclPolicy>,
    items: Seq<usize>,
    d: DirectionType,
    p: PolicyModel,
) -> PolicyModel
    decreases items.len(),
{
    if items.len() == 0 {
        p
    } else {
        scan_step(key, atoms, acls, items.last() as int, d, scan(key, atoms, acls, items.drop_last(), d, p))
    }
}

/// The actions that the hits among `items` contribute, tagged `d`, in order.
pub open spec fn cands(key: Seq<u64>, atoms: Seq<Atom>, acls: Seq<AclPolicy>, items: Seq<usize>, d: DirectionType) -> Seq<NpbAction>
    decreases items.len(),
{
    if items.len() == 0 {
        Seq::empty()
    } else {
        let i = items.last() as int;
        cands(key, atoms, acls, items.drop_last(), d) + if hit(key, atoms, acls, i) {
            tagged(acls[atoms[i].acl as int].npb_actions@, d)
        } else {
            Seq::empty()
        }
    }
}

/// The ACL id that the hits among `items` decide, 0 for none.
pub open spec fn hit_id(key: Seq<u64>, atoms: Seq<Atom>, acls: Seq<AclPolicy>, items: Seq<usize>) -> u32
    decreases items.len(),
{
    if items.len() == 0 {
        0
    } else {
        let i = items.last() as int;
        let prev = hit_id(key, atoms, acls, items.drop_last());
        if hit(key, atoms, acls, i) {
            pick_acl_id(prev, acls[atoms[i].acl as int].id)
        } else {
            prev
        }
    }
}

/// `0, 1, ..., n - 1`.
pub open spec fn indices(n: nat) -> Seq<usize> {
    Seq::new(n, |i: int| i as usize)
}

/// Number of bucket entries that the first `n` atoms take.
pub open spec fn table_entries(atoms: Seq<(Seq<u64>, Seq<u64>, usize)>, vbits: Seq<usize>, n: nat) -> nat
    decreases n,
{
    if n == 0 {
        0
    } else {
        let a = atoms[n - 1];
        table_entries(atoms, vbits, (n - 1) as nat) + all_table_index(a.0, a.1, vbits, vbits.len()).len()
    }
}

proof fn lemma_table_entries_mono(atoms: Seq<(Seq<u64>, Seq<u64>, usize)>, vbits: Seq<usize>, n: nat, m: nat)
    requires
        n <= m,
    ensures
        table_entries(atoms, vbits, n) <= table_entries(atoms, vbits, m),
    decreases m,
{
    if n < m {
        lemma_table_entries_mono(atoms, vbits, n, (m - 1) as nat);
    }
}

/// Whether atom `i` is filed in bucket `b`.
pub open spec fn in_bucket(atoms: Seq<Atom>, vbits: Seq<usize>, b: int) -> spec_fn(usize) -> bool {
    |i: usize|
        (i as int) < atoms.len() && all_table_index(
            atoms[i as int].field.words@,
            atoms[i as int].mask.words@,
            vbits,
            vbits.len(),
        ).contains(b)
}

/// Merging two candidate lists one after the other merges their
/// concatenation.
pub proof fn lemma_union_assoc(list: Seq<NpbAction>, a: Seq<NpbAction>, b: Seq<NpbAction>)
    ensures
        union_into(union_into(list, a), b) == union_into(list, a + b),
    decreases b.len(),
{
    if b.len() == 0 {
        assert(a + b =~= a);
    } else {
        lemma_union_assoc(list, a, b.drop_last());
        assert((a + b).drop_last() =~= a + b.drop_last());
        assert((a + b).last() == b.last());
    }
}

/// A scan merges, in one go, the candidates and ids of all its hits.
pub proof fn lemma_scan_closed_form(
    key: Seq<u64>,
    atoms: Seq<Atom>,
    acls: Seq<AclPolicy>,
    items: Seq<usize>,
    d: DirectionType,
    p: PolicyModel,
)
    ensures
        scan(key, atoms, acls, items, d, p) == (PolicyModel {
            acl_id: pick_acl_id(p.acl_id, hit_id(key, atoms, acls, items)),
            action_flags: p.action_flags,
            npb_actions: union_into(p.npb_actions, cands(key, atoms, acls, items, d)),
        }),
    decreases items.len(),
{
    if items.len() == 0 {
        assert(union_into(p.npb_actions, Seq::empty()) == p.npb_actions);
    } else {
        let dl = items.drop_last();
        let i = items.last() as int;
        lemma_scan_closed_form(key, atoms, acls, dl, d, p);
        let c = cands(key, atoms, acls, dl, d);
        if hit(key, atoms, acls, i) {
            lemma_union_assoc(p.npb_actions, c, tagged(acls[atoms[i].acl as int].npb_actions@, d));
        } else {
            assert(c + Seq::<NpbAction>::empty() =~= c);
        }
    }
}

/// Flipping the candidates of a scan in direction `d` gives those of the
/// same scan in the opposite direction.
pub proof fn lemma_flip_cands(key: Seq<u64>, atoms: Seq<Atom>, acls: Seq<AclPolicy>, items: Seq<usize>, d: DirectionType)
    ensures
        flip_all(cands(key, atoms, acls, items, d)) == cands(key, atoms, acls, items, flip(d)),
    decreases items.len(),
{
    if items.len() == 0 {
        assert(flip_all(Seq::empty()) =~= Seq::<NpbAction>::empty());
    } else {
        let dl = items.drop_last();
        let i = items.last() as int;
        lemma_flip_cands(key, atoms, acls, dl, d);
        let c = cands(key, atoms, acls, dl, d);
        let t = if hit(key, atoms, acls, i) {
            tagged(acls[atoms[i].acl as int].npb_actions@, d)
        } else {
            Seq::empty()
        };
        assert(flip_all(c + t) =~= flip_all(c) + flip_all(t));
        if hit(key, atoms, acls, i) {
            lemma_flip_tagged(acls[atoms[i].acl as int].npb_actions@, d);
        } else {
            assert(flip_all(t) =~= Seq::<NpbAction>::empty());
        }
    }
}

/// Every candidate of a scan in direction `d` carries direction `d`.
pub proof fn lemma_cands_direction(key: Seq<u64>, atoms: Seq<Atom>, acls: Seq<AclPolicy>, items: Seq<usize>, d: DirectionType)
    ensures
        forall|j: int| 0 <= j < cands(key, atoms, acls, items, d).len() ==> (#[trigger] cands(key, atoms, acls, items, d)[j]).direction == d,
    decreases items.len(),
{
    if items.len() > 0 {
        let dl = items.drop_last();
        lemma_cands_direction(key, atoms, acls, dl, d);
        let c = cands(key, atoms, acls, dl, d);
        let whole = cands(key, atoms, acls, items, d);
        assert forall|j: int| 0 <= j < whole.len() implies (#[trigger] whole[j]).direction == d by {
            if j < c.len() {
                assert(whole[j] == c[j]);
            }
        }
    }
}

/// Leaving out atoms that cannot hit does not change a scan.
pub proof fn lemma_scan_filter(
    key: Seq<u64>,
    atoms: Seq<Atom>,
    acls: Seq<AclPolicy>,
    items: Seq<usize>,
    d: DirectionType,
    p: PolicyModel,
    pred: spec_fn(usize) -> bool,
)
    requires
        forall|t: int| 0 <= t < items.len() && hit(key, atoms, acls, items[t] as int) ==> pred(#[trigger] items[t]),
    ensures
        scan(key, atoms, acls, items.filter(pred), d, p) == scan(key, atoms, acls, items, d, p),
    decreases items.len(),
{
    if items.len() > 0 {
        let dl = items.drop_last();
        let last = items.last();
        assert forall|t: int| 0 <= t < dl.len() && hit(key, atoms, acls, dl[t] as int) implies pred(#[trigger] dl[t]) by {
            assert(dl[t] == items[t]);
        }
        lemma_scan_filter(key, atoms, acls, dl, d, p, pred);
        assert(items =~= dl.push(last));
        let f = dl.filter(pred);
        if pred(last) {
            assert(f.push(last).drop_last() =~= f);
        } else {
            assert(!hit(key, atoms, acls, items[items.len() - 1] as int));
        }
    }
}

/// The first-path table of one address family.
#[derive(Debug)]
pub struct FamilyTable {
    pub nwords: usize,
    pub vector: Vector,
    pub atoms: Vec<Atom>,
    pub buckets: Vec<Vec<usize>>,
}

impl FamilyTable {
    /// Each atom is filed exactly in the buckets of its enumerated indices.
    pub open spec fn wf(&self) -> bool {
        &&& 1 <= self.nwords <= 8
        &&& self.vector.wf(self.nwords as nat)
        &&& forall|i: int| 0 <= i < self.atoms.len() ==> (#[trigger] self.atoms@[i]).field.words.len() == self.nwords
        &&& forall|i: int| 0 <= i < self.atoms.len() ==> (#[trigger] self.atoms@[i]).mask.words.len() == self.nwords
        &&& self.buckets.len() == TABLE_SIZE
        &&& forall|b: int| 0 <= b < TABLE_SIZE ==> (#[trigger] self.buckets@[b])@ == indices(self.atoms.len() as nat).filter(
            in_bucket(self.atoms@, self.vector.vector_bits@, b),
        )
    }

    /// The policy of a scan of every atom of this family, in order.
    pub open spec fn lookup_spec(&self, key: Seq<u64>, acls: Seq<AclPolicy>, d: DirectionType, p: PolicyModel) -> PolicyModel {
        scan(key, self.atoms@, acls, indices(self.atoms.len() as nat), d, p)
    }

    /// Entries in the bucket that `key` selects; none for a key of another
    /// family.
    pub open spec fn bucket_load(&self, key: Seq<u64>) -> nat {
        if key.len() != self.nwords {
            0
        } else {
            self.buckets@[table_index(key, self.vector.vector_bits@, self.vector.vector_bits@.len()) as int]@.len()
        }
    }

    /// Entries in the first `n` buckets.
    pub open spec fn entries_upto(&self, n: nat) -> nat
        decreases n,
    {
        if n == 0 {
            0
        } else {
            self.entries_upto((n - 1) as nat) + self.buckets@[n - 1]@.len()
        }
    }

    /// Entries in all buckets.
    pub fn total_entries(&self) -> (r: u128)
        requires
            self.wf(),
        ensures
            r == self.entries_upto(TABLE_SIZE as nat),
            r <= TABLE_SIZE * 0x1_0000_0000_0000_0000,
    {
        let mut total: u128 = 0;
        let mut b: usize = 0;
        while b < TABLE_SIZE
            invariant
                self.wf(),
                b <= TABLE_SIZE,
                total == self.entries_upto(b as nat),
                total <= b * 0x1_0000_0000_0000_0000,
            decreases TABLE_SIZE - b,
        {
            total = total + self.buckets[b].len() as u128;
            b += 1;
        }
        total
    }

    /// Files each of `atoms`, of `nwords` words each, under the indices that
    /// `vector` gives it; none when that takes more than `budget` entries.
    pub fn build(atoms: Vec<Atom>, vector: Vector, nwords: usize, budget: usize) -> (r: Option<FamilyTable>)
        requires
            1 <= nwords <= 8,
            budget <= 0x7fff_0000,
            vector.wf(nwords as nat),
            forall|i: int| 0 <= i < atoms.len() ==> (#[trigger] atoms@[i]).field.words.len() == nwords,
            forall|i: int| 0 <= i < atoms.len() ==> (#[trigger] atoms@[i]).mask.words.len() == nwords,
        ensures
            r is None <==> table_entries(atoms_view(atoms@), vector.vector_bits@, atoms.len() as nat) > budget,
            r is Some ==> ({
                let t = r->0;
                &&& t.wf()
                &&& t.atoms@ == atoms@
                &&& t.nwords == nwords
                &&& t.vector == vector
            }),
    {
        let ghost vbits = vector.vector_bits@;
        let mut buckets: Vec<Vec<usize>> = Vec::new();
        let mut b: usize = 0;
        while b < TABLE_SIZE
            invariant
                b <= TABLE_SIZE,
                buckets.len() == b,
                forall|t: int| 0 <= t < b ==> (#[trigger] buckets@[t])@ == Seq::<usize>::empty(),
            decreases TABLE_SIZE - b,
        {
            buckets.push(Vec::new());
            b += 1;
        }
        proof {
            assert forall|t: int| 0 <= t < TABLE_SIZE implies (#[trigger] buckets@[t])@ == indices(0).filter(in_bucket(atoms@, vbits, t)) by {
                assert(indices(0) =~= Seq::<usize>::empty());
            }
        }
        let mut i: usize = 0;
        let mut count: usize = 0;
        while i < atoms.len()
            invariant
                i <= atoms.len(),
                count == table_entries(atoms_view(atoms@), vbits, i as nat),
                count <= budget,
                budget <= 0x7fff_0000,
                vbits == vector.vector_bits@,
                vector.wf(nwords as nat),
                forall|i: int| 0 <= i < atoms.len() ==> (#[trigger] atoms@[i]).field.words.len() == nwords,
                forall|i: int| 0 <= i < atoms.len() ==> (#[trigger] atoms@[i]).mask.words.len() == nwords,
                buckets.len() == TABLE_SIZE,
                forall|t: int| 0 <= t < TABLE_SIZE ==> (#[trigger] buckets@[t])@ == indices(i as nat).filter(in_bucket(atoms@, vbits, t)),
            decreases atoms.len() - i,
        {
            let idx = atoms[i].field.get_all_table_index(&atoms[i].mask, &vector.vector_bits);
            let ghost all = all_table_index(atoms@[i as int].field.words@, atoms@[i as int].mask.words@, vbits, vbits.len());
            proof {
                lemma_all_table_index_distinct(atoms@[i as int].field.words@, atoms@[i as int].mask.words@, vbits, vbits.len());
                lemma_pow2_mono(vbits.len(), 16);
                lemma_pow2_values();
                assert(indices((i + 1) as nat) =~= indices(i as nat).push(i));
                assert forall|j: int| 0 <= j < idx.len() implies idx@[j] as int == #[trigger] all[j] by {
                    assert(idx@.map_values(|x: u16| x as int)[j] == idx@[j] as int);
                }
                crate::matched_field::lemma_all_table_index_len(atoms@[i as int].field.words@, atoms@[i as int].mask.words@, vbits, vbits.len());
                lemma_pow2_mono((vbits.len() - crate::matched_field::care_count(atoms@[i as int].mask.words@, vbits, vbits.len())) as nat, 16);
                assert(idx@.len() == all.len()) by {
                    assert(idx@.map_values(|x: u16| x as int).len() == idx@.len());
                }
                assert(vbits.len() <= 16);
                assert(all.len() <= 65536);
                assert(idx.len() <= 65536);
            }
            if count + idx.len() > budget {
                proof {
                    lemma_table_entries_mono(atoms_view(atoms@), vbits, (i + 1) as nat, atoms.len() as nat);
                }
                return None;
            }
            count = count + idx.len();
            let mut j: usize = 0;
            while j < idx.len()
                invariant
                    i < atoms.len(),
                    j <= idx.len(),
                    idx.len() == all.len(),
                    all.no_duplicates(),
                    forall|t: int| 0 <= t < idx.len() ==> idx@[t] as int == #[trigger] all[t],
                    buckets.len() == TABLE_SIZE,
                    all == all_table_index(atoms@[i as int].field.words@, atoms@[i as int].mask.words@, vbits, vbits.len()),
                    forall|t: int| 0 <= t < TABLE_SIZE ==> (#[trigger] buckets@[t])@ == if all.take(j as int).contains(t) {
                        indices(i as nat).filter(in_bucket(atoms@, vbits, t)).push(i)
                    } else {
                        indices(i as nat).filter(in_bucket(atoms@, vbits, t))
                    },
                decreases idx.len() - j,
            {
                let k = idx[j] as usize;
                proof {
                    assert(all.take(j + 1) =~= all.take(j as int).push(all[j as int]));
                    assert(!all.take(j as int).contains(all[j as int])) by {
                        if all.take(j as int).contains(all[j as int]) {
                            let t = choose|t: int| 0 <= t < j && all.take(j as int)[t] == all[j as int];
                            assert(all[t] == all[j as int]);
                        }
                    }
                }
                let ghost before = buckets@;
                buckets[k].push(i);
                proof {
                    assert forall|t: int| 0 <= t < TABLE_SIZE implies (#[trigger] buckets@[t])@ == if all.take(j + 1).contains(t) {
                        indices(i as nat).filter(in_bucket(atoms@, vbits, t)).push(i)
                    } else {
                        indices(i as nat).filter(in_bucket(atoms@, vbits, t))
                    } by {
                        if t == k as int {
                            assert(all.take(j + 1)[j as int] == t);
                        } else {
                            assert(buckets@[t] == before[t]);
                            if all.take(j + 1).contains(t) {
                                let u = choose|u: int| 0 <= u < j + 1 && #[trigger] all.take(j + 1)[u] == t;
                                assert(all.take(j as int)[u] == t);
                            }
                            if all.take(j as int).contains(t) {
                                let u = choose|u: int| 0 <= u < j && #[trigger] all.take(j as int)[u] == t;
                                assert(all.take(j + 1)[u] == t);
                            }
                        }
                    }
                }
                j += 1;
            }
            proof {
                assert(all.take(idx.len() as int) =~= all);
                assert forall|t: int| 0 <= t < TABLE_SIZE implies (#[trigger] buckets@[t])@ == indices((i + 1) as nat).filter(in_bucket(atoms@, vbits, t)) by {
                    assert(in_bucket(atoms@, vbits, t)(i) == all.contains(t));
                }
            }
            i += 1;
        }
        Some(FamilyTable { nwords, vector, atoms, buckets })
    }

    /// Merges into `policy`, in direction `d`, the ACLs of every atom that
    /// `key` matches, in the order the atoms were installed.
    /// Returns how many bucket entries it scanned.
    pub fn get_policy(&self, acls: &Vec<AclPolicy>, key: &MatchedField, d: DirectionType, policy: &mut PolicyData) -> (r: usize)
        requires
            self.wf(),
        ensures
            final(policy)@ == self.lookup_spec(key.words@, acls@, d, old(policy)@),
            r == self.bucket_load(key.words@),
    {
        let ghost items = indices(self.atoms.len() as nat);
        if key.words.len() != self.nwords {
            proof {
                let none = |i: usize| false;
                assert(items.filter(none) =~= Seq::<usize>::empty()) by {
                    lemma_filter_none(items, none);
                }
                lemma_scan_filter(key.words@, self.atoms@, acls@, items, d, old(policy)@, none);
            }
            return 0;
        }
        let index = key.get_table_index(&self.vector.vector_bits) as usize;
        let ghost vbits = self.vector.vector_bits@;
        let bucket = &self.buckets[index];
        proof {
            lemma_table_index_bound(key.words@, vbits, vbits.len());
            lemma_pow2_mono(vbits.len(), 16);
            lemma_pow2_values();
            let pred = in_bucket(self.atoms@, vbits, index as int);
            assert forall|t: int| 0 <= t < items.len() && hit(key.words@, self.atoms@, acls@, items[t] as int) implies pred(#[trigger] items[t]) by {
                let a = self.atoms@[t];
                lemma_matching_key_in_all_table_index(key.words@, a.field.words@, a.mask.words@, vbits, vbits.len());
            }
            lemma_scan_filter(key.words@, self.atoms@, acls@, items, d, old(policy)@, pred);
        }
        let mut t: usize = 0;
        while t < bucket.len()
            invariant
                self.wf(),
                t <= bucket.len(),
                policy@ == scan(key.words@, self.atoms@, acls@, bucket@.take(t as int), d, old(policy)@),
            decreases bucket.len() - t,
        {
            let i = bucket[t];
            proof {
                assert(bucket@.take(t + 1).drop_last() =~= bucket@.take(t as int));
            }
            if i < self.atoms.len() {
                let atom = &self.atoms[i];
                if atom.acl < acls.len() && key.matches(&atom.field, &atom.mask) {
                    let acl = &acls[atom.acl];
                    policy.merge_npb_action(&acl.npb_actions, acl.id, d);
                }
            }
            t += 1;
        }
        assert(bucket@.take(bucket.len() as int) =~= bucket@);
        bucket.len()
    }
}

/// A filter that keeps nothing leaves nothing.
pub proof fn lemma_filter_none(s: Seq<usize>, pred: spec_fn(usize) -> bool)
    requires
        forall|x: usize| !#[trigger] pred(x),
    ensures
        s.filter(pred) == Seq::<usize>::empty(),
    decreases s.len(),
{
    if s.len() > 0 {
        lemma_filter_none(s.drop_last(), pred);
        assert(!pred(s.last()));
        assert(s =~= s.drop_last().push(s.last()));
        assert(s.drop_last().push(s.last()).filter(pred) == s.drop_last().filter(pred));
    } else {
        assert(s =~= Seq::<usize>::empty());
    }
}

} // verus!
