//! The policy core: first-path tables built from ACLs, looked up on a
//! fast-path miss, and the fast path that remembers their decisions.
use vstd::prelude::*;

use crate::acl::{
    acl_atoms, expand_acl, find_group, generate_group_ip_map, group_defined, group_key,
    family_words, group_nets, group_segments,
    has_group, words_of_family, Acl, GroupEntry, IpGroupData,
};
use crate::fast_path::{lemma_cached_agrees, lemma_canonical_reverse, symmetric, FastPath};
use crate::lookup_key::{
    backward_words, flow_of, forward_words, generate_matched_field, reversed_endpoints,
    reversed_flow, wants_dedup, EndpointData, FlowKey, LookupKey,
};
use crate::policy::{
    copy_actions, deduped, empty_policy, flip, flip_all, is_backward, lemma_flip_union, lemma_union_after_prefix,
    lemma_union_direction, pick_acl_id, reversed_policy, union_into, DirectionType, NpbAction,
    PolicyData, PolicyModel,
};
use crate::table::{
    cands, hit, hit_id, indices, lemma_cands_direction, lemma_flip_cands, lemma_scan_closed_form,
    lemma_union_assoc, scan, table_entries, atoms_view, AclPolicy, Atom, FamilyTable,
};
use crate::matched_field::pow2;
use crate::vector::{
    chosen_bits, clamp_level, generate_sort_table_spec, vector_size, vector_size_spec, Vector,
    VECTOR_MASK_SIZE_MAX,
};

verus! {

broadcast use Seq::lemma_filter_push;

/// Feature of the core: match ACLs at all.
pub const FEATURE_POLICY: u32 = 1;

/// Most bucket entries that the table of one address family may take.
pub const TABLE_BUDGET: usize = 0x40_0000;

/// Words of an IPv4 matched field.
pub const V4_WORDS: usize = 3;

/// Words of an IPv6 matched field.
pub const V6_WORDS: usize = 6;

/// Why a reload failed.
#[derive(Clone, Copy, Debug, PartialEq, Eq, Structural)]
pub enum PolicyError {
    /// The tables would take more entries than the budget allows; the
    /// previous tables stay in service.
    MemoryExceeded,
}

/// What the core counts.
#[derive(Clone, Copy, Debug, PartialEq, Eq, Structural)]
pub struct Counters {
    pub lookup_total: u64,
    pub fast_hit: u64,
    pub fast_miss: u64,
    pub first_path_bucket_scanned: u64,
    pub reload_total: u64,
    pub reload_rejected_acl: u64,
}

/// A counter after a saturating increase by `n`.
pub open spec fn bumped(c: u64, n: u64) -> u64 {
    if c as int + n as int > u64::MAX {
        u64::MAX
    } else {
        (c + n) as u64
    }
}

fn bump(c: u64, n: u64) -> (r: u64)
    ensures
        r == bumped(c, n),
{
    if c > u64::MAX - n {
        u64::MAX
    } else {
        c + n
    }
}

/// A counter after a saturating increase by a wide `n`.
pub open spec fn bumped_wide(c: u64, n: int) -> u64 {
    if c as int + n > u64::MAX {
        u64::MAX
    } else {
        (c + n) as u64
    }
}

fn bump_wide(c: u64, n: u128) -> (r: u64)
    ensures
        r == bumped_wide(c, n as int),
{
    if n > (u64::MAX - c) as u128 {
        u64::MAX
    } else {
        c + n as u64
    }
}

/// Whether the features ask for ACL matching.
pub open spec fn policy_enabled(features: u32) -> bool {
    features & FEATURE_POLICY != 0
}

/// The scan of both families' atoms, IPv4 first, in direction `d`.
pub open spec fn family_scan(
    key: Seq<u64>,
    a4: Seq<Atom>,
    a6: Seq<Atom>,
    acls: Seq<AclPolicy>,
    d: DirectionType,
    p: PolicyModel,
) -> PolicyModel {
    scan(key, a6, acls, indices(a6.len() as nat), d, scan(key, a4, acls, indices(a4.len() as nat), d, p))
}

/// The first-path decision for a flow with its endpoints: every atom that
/// the forward field matches merges its ACL forward, then every atom that
/// the backward field matches merges its ACL backward.
pub open spec fn decide(a4: Seq<Atom>, a6: Seq<Atom>, acls: Seq<AclPolicy>, k: FlowKey, e: EndpointData) -> PolicyModel {
    family_scan(
        backward_words(k, e),
        a4,
        a6,
        acls,
        DirectionType::Backward,
        family_scan(forward_words(k, e), a4, a6, acls, DirectionType::Forward, empty_policy()),
    )
}

/// Some atom that `words` matches belongs to an installed ACL of id `id`.
pub open spec fn some_atom_hits(words: Seq<u64>, atoms: Seq<Atom>, acls: Seq<AclPolicy>, id: u32) -> bool {
    exists|i: int| #[trigger] hit(words, atoms, acls, i) && acls[atoms[i].acl as int].id == id
}

/// Whether `acl` names a group that `map` does not hold, when asked to
/// check.
pub open spec fn acl_invalid(acl: Acl, map: Seq<GroupEntry>, check: bool) -> bool {
    check && (names_unknown_group(acl.src_groups@, map) || names_unknown_group(acl.dst_groups@, map))
}

/// Whether some id of `ids` has no group in `map`.
pub open spec fn names_unknown_group(ids: Seq<u32>, map: Seq<GroupEntry>) -> bool {
    exists|j: int| 0 <= j < ids.len() && !has_group(map, #[trigger] group_key(ids[j]))
}


/// The atoms of family `six` that the ACLs `acls`, installed in order,
/// expand to: those of the first `n`.
pub open spec fn installed_atoms(acls: Seq<Acl>, map: Seq<GroupEntry>, six: bool, n: nat) -> Seq<(Seq<u64>, Seq<u64>, usize)>
    decreases n,
{
    if n == 0 {
        Seq::empty()
    } else {
        installed_atoms(acls, map, six, (n - 1) as nat) + acl_atoms(acls[n - 1], map, (n - 1) as usize, six)
    }
}

/// The ACLs of `acls` that a reload installs: those that are not invalid.
pub open spec fn valid_acls(acls: Seq<Acl>, map: Seq<GroupEntry>, check: bool) -> Seq<Acl> {
    acls.filter(|a: Acl| !acl_invalid(a, map, check))
}

/// The atoms of family `six` that a reload of `acls` installs.
pub open spec fn planned_atoms(acls: Seq<Acl>, map: Seq<GroupEntry>, check: bool, six: bool) -> Seq<(Seq<u64>, Seq<u64>, usize)> {
    let valid = valid_acls(acls, map, check);
    installed_atoms(valid, map, six, valid.len())
}

/// The vector size that a reload of `acls` at density `level` chooses, from
/// the number of atoms of both families (saturated at `usize::MAX`).
pub open spec fn planned_size(acls: Seq<Acl>, map: Seq<GroupEntry>, check: bool, level: usize) -> int {
    let n = planned_atoms(acls, map, check, false).len() + planned_atoms(acls, map, check, true).len();
    let total = if n > usize::MAX { usize::MAX as int } else { n as int };
    vector_size_spec(total / (pow2(clamp_level(level as int) as nat) as int), VECTOR_MASK_SIZE_MAX as int)
}

/// The bits that a reload of `acls` selects for family `six`.
pub open spec fn planned_bits(acls: Seq<Acl>, map: Seq<GroupEntry>, check: bool, level: usize, six: bool) -> Seq<usize> {
    chosen_bits(
        generate_sort_table_spec(planned_atoms(acls, map, check, six), family_words(six) * 64),
        planned_size(acls, map, check, level) as nat,
    )
}

/// Whether the table of family `six` that a reload of `acls` builds stays
/// within `TABLE_BUDGET` entries.
pub open spec fn family_fits(acls: Seq<Acl>, map: Seq<GroupEntry>, check: bool, level: usize, six: bool) -> bool {
    let atoms = planned_atoms(acls, map, check, six);
    table_entries(atoms, planned_bits(acls, map, check, level, six), atoms.len()) <= TABLE_BUDGET
}

/// Whether both tables of a reload of `acls` stay within the budget.
pub open spec fn reload_fits(acls: Seq<Acl>, map: Seq<GroupEntry>, check: bool, level: usize) -> bool {
    family_fits(acls, map, check, level, false) && family_fits(acls, map, check, level, true)
}

proof fn lemma_installed_prefix(a: Seq<Acl>, b: Seq<Acl>, map: Seq<GroupEntry>, six: bool, n: nat)
    requires
        n <= a.len(),
        n <= b.len(),
        forall|i: int| 0 <= i < n ==> a[i] == b[i],
    ensures
        installed_atoms(a, map, six, n) == installed_atoms(b, map, six, n),
    decreases n,
{
    if n > 0 {
        lemma_installed_prefix(a, b, map, six, (n - 1) as nat);
        assert(a[n - 1] == b[n - 1]);
    }
}

/// What an ACL installs as its policy.
pub open spec fn acl_summary(a: Acl) -> (u32, Seq<NpbAction>) {
    (a.id, a.npb_actions@)
}

/// What an installed policy holds.
pub open spec fn policy_summary(p: AclPolicy) -> (u32, Seq<NpbAction>) {
    (p.id, p.npb_actions@)
}

/// Candidates of both families, IPv4 first.
pub open spec fn all_cands(key: Seq<u64>, a4: Seq<Atom>, a6: Seq<Atom>, acls: Seq<AclPolicy>, d: DirectionType) -> Seq<NpbAction> {
    cands(key, a4, acls, indices(a4.len() as nat), d) + cands(key, a6, acls, indices(a6.len() as nat), d)
}

/// The ACL id that the hits of both families decide.
pub open spec fn all_hit_id(key: Seq<u64>, a4: Seq<Atom>, a6: Seq<Atom>, acls: Seq<AclPolicy>) -> u32 {
    pick_acl_id(hit_id(key, a4, acls, indices(a4.len() as nat)), hit_id(key, a6, acls, indices(a6.len() as nat)))
}

proof fn lemma_family_scan_closed(key: Seq<u64>, a4: Seq<Atom>, a6: Seq<Atom>, acls: Seq<AclPolicy>, d: DirectionType, p: PolicyModel)
    ensures
        family_scan(key, a4, a6, acls, d, p) == (PolicyModel {
            acl_id: pick_acl_id(p.acl_id, all_hit_id(key, a4, a6, acls)),
            action_flags: p.action_flags,
            npb_actions: union_into(p.npb_actions, all_cands(key, a4, a6, acls, d)),
        }),
{
    let i4 = indices(a4.len() as nat);
    let i6 = indices(a6.len() as nat);
    lemma_scan_closed_form(key, a4, acls, i4, d, p);
    let q = scan(key, a4, acls, i4, d, p);
    lemma_scan_closed_form(key, a6, acls, i6, d, q);
    lemma_union_assoc(p.npb_actions, cands(key, a4, acls, i4, d), cands(key, a6, acls, i6, d));
}

proof fn lemma_all_cands_direction(key: Seq<u64>, a4: Seq<Atom>, a6: Seq<Atom>, acls: Seq<AclPolicy>, d: DirectionType)
    ensures
        forall|j: int| 0 <= j < all_cands(key, a4, a6, acls, d).len() ==> (#[trigger] all_cands(key, a4, a6, acls, d)[j]).direction == d,
{
    let c4 = cands(key, a4, acls, indices(a4.len() as nat), d);
    let c6 = cands(key, a6, acls, indices(a6.len() as nat), d);
    lemma_cands_direction(key, a4, acls, indices(a4.len() as nat), d);
    lemma_cands_direction(key, a6, acls, indices(a6.len() as nat), d);
    assert forall|j: int| 0 <= j < (c4 + c6).len() implies (#[trigger] (c4 + c6)[j]).direction == d by {
        if j < c4.len() {
            assert((c4 + c6)[j] == c4[j]);
        } else {
            assert((c4 + c6)[j] == c6[j - c4.len()]);
        }
    }
}

proof fn lemma_flip_all_cands(key: Seq<u64>, a4: Seq<Atom>, a6: Seq<Atom>, acls: Seq<AclPolicy>, d: DirectionType)
    ensures
        flip_all(all_cands(key, a4, a6, acls, d)) == all_cands(key, a4, a6, acls, flip(d)),
{
    let c4 = cands(key, a4, acls, indices(a4.len() as nat), d);
    let c6 = cands(key, a6, acls, indices(a6.len() as nat), d);
    lemma_flip_cands(key, a4, acls, indices(a4.len() as nat), d);
    lemma_flip_cands(key, a6, acls, indices(a6.len() as nat), d);
    assert(flip_all(c4 + c6) =~= flip_all(c4) + flip_all(c6));
}

/// Merging candidates of one direction into nothing gives actions of that
/// direction only.
proof fn lemma_merged_direction(c: Seq<NpbAction>, d: DirectionType)
    requires
        forall|j: int| 0 <= j < c.len() ==> (#[trigger] c[j]).direction == d,
    ensures
        forall|j: int| 0 <= j < union_into(Seq::empty(), c).len() ==> (#[trigger] union_into(Seq::empty(), c)[j]).direction == d,
{
    lemma_union_direction(Seq::empty(), c, d);
}

proof fn lemma_filter_all(s: Seq<NpbAction>, pred: spec_fn(NpbAction) -> bool)
    requires
        forall|j: int| 0 <= j < s.len() ==> pred(#[trigger] s[j]),
    ensures
        s.filter(pred) == s,
    decreases s.len(),
{
    if s.len() > 0 {
        let dl = s.drop_last();
        assert forall|j: int| 0 <= j < dl.len() implies pred(#[trigger] dl[j]) by {
            assert(dl[j] == s[j]);
        }
        lemma_filter_all(dl, pred);
        assert(pred(s[s.len() - 1]));
        assert(s =~= dl.push(s.last()));
        assert(dl.push(s.last()).filter(pred) == dl.filter(pred).push(s.last()));
    } else {
        assert(s.filter(pred) =~= s);
    }
}

proof fn lemma_filter_nothing(s: Seq<NpbAction>, pred: spec_fn(NpbAction) -> bool)
    requires
        forall|j: int| 0 <= j < s.len() ==> !pred(#[trigger] s[j]),
    ensures
        s.filter(pred) == Seq::<NpbAction>::empty(),
    decreases s.len(),
{
    if s.len() > 0 {
        let dl = s.drop_last();
        assert forall|j: int| 0 <= j < dl.len() implies !pred(#[trigger] dl[j]) by {
            assert(dl[j] == s[j]);
        }
        lemma_filter_nothing(dl, pred);
        assert(!pred(s[s.len() - 1]));
        assert(s =~= dl.push(s.last()));
        assert(dl.push(s.last()).filter(pred) == dl.filter(pred));
    } else {
        assert(s.filter(pred) =~= Seq::<NpbAction>::empty());
    }
}

/// A decision splits into its forward-tagged actions, then its
/// backward-tagged ones.
proof fn lemma_decide_closed(a4: Seq<Atom>, a6: Seq<Atom>, acls: Seq<AclPolicy>, k: FlowKey, e: EndpointData)
    ensures
        decide(a4, a6, acls, k, e) == (PolicyModel {
            acl_id: pick_acl_id(all_hit_id(forward_words(k, e), a4, a6, acls), all_hit_id(backward_words(k, e), a4, a6, acls)),
            action_flags: 0,
            npb_actions: union_into(Seq::empty(), all_cands(forward_words(k, e), a4, a6, acls, DirectionType::Forward))
                + union_into(Seq::empty(), all_cands(backward_words(k, e), a4, a6, acls, DirectionType::Backward)),
        }),
{
    let fw = forward_words(k, e);
    let bw = backward_words(k, e);
    let cf = all_cands(fw, a4, a6, acls, DirectionType::Forward);
    let cb = all_cands(bw, a4, a6, acls, DirectionType::Backward);
    lemma_family_scan_closed(fw, a4, a6, acls, DirectionType::Forward, empty_policy());
    let pf = family_scan(fw, a4, a6, acls, DirectionType::Forward, empty_policy());
    lemma_family_scan_closed(bw, a4, a6, acls, DirectionType::Backward, pf);
    let x = union_into(Seq::empty(), cf);
    lemma_all_cands_direction(fw, a4, a6, acls, DirectionType::Forward);
    lemma_all_cands_direction(bw, a4, a6, acls, DirectionType::Backward);
    lemma_merged_direction(cf, DirectionType::Forward);
    assert forall|i: int| 0 <= i < cb.len() implies !x.contains(#[trigger] cb[i]) by {
        if x.contains(cb[i]) {
            let j = choose|j: int| 0 <= j < x.len() && x[j] == cb[i];
            assert(x[j].direction == DirectionType::Forward);
        }
    }
    lemma_union_after_prefix(x, Seq::empty(), cb);
    assert(x + Seq::<NpbAction>::empty() =~= x);
}

/// The first-path decision is symmetric: the reverse flow, with its
/// endpoints turned around, gets the decision turned around.
pub proof fn lemma_decide_symmetric(a4: Seq<Atom>, a6: Seq<Atom>, acls: Seq<AclPolicy>, k: FlowKey, e: EndpointData)
    ensures
        decide(a4, a6, acls, reversed_flow(k), reversed_endpoints(e)) == reversed_policy(decide(a4, a6, acls, k, e)),
{
    let fw = forward_words(k, e);
    let bw = backward_words(k, e);
    assert(reversed_flow(reversed_flow(k)) == k);
    assert(reversed_endpoints(reversed_endpoints(e)) == e);
    assert(forward_words(reversed_flow(k), reversed_endpoints(e)) == bw);
    assert(backward_words(reversed_flow(k), reversed_endpoints(e)) == fw);
    lemma_decide_closed(a4, a6, acls, k, e);
    lemma_decide_closed(a4, a6, acls, reversed_flow(k), reversed_endpoints(e));
    let cf = all_cands(fw, a4, a6, acls, DirectionType::Forward);
    let cb = all_cands(bw, a4, a6, acls, DirectionType::Backward);
    let x = union_into(Seq::empty(), cf);
    let y = union_into(Seq::empty(), cb);
    lemma_all_cands_direction(fw, a4, a6, acls, DirectionType::Forward);
    lemma_all_cands_direction(bw, a4, a6, acls, DirectionType::Backward);
    lemma_merged_direction(cf, DirectionType::Forward);
    lemma_merged_direction(cb, DirectionType::Backward);
    let pb = |a: NpbAction| is_backward(a);
    let pn = |a: NpbAction| !is_backward(a);
    Seq::filter_distributes_over_add(x, y, pb);
    Seq::filter_distributes_over_add(x, y, pn);
    lemma_filter_nothing(x, pb);
    lemma_filter_all(y, pb);
    lemma_filter_all(x, pn);
    lemma_filter_nothing(y, pn);
    assert(Seq::<NpbAction>::empty() + y =~= y);
    assert(x + Seq::<NpbAction>::empty() =~= x);
    lemma_flip_union(Seq::empty(), cf);
    lemma_flip_union(Seq::empty(), cb);
    assert(flip_all(Seq::empty()) =~= Seq::<NpbAction>::empty());
    lemma_flip_all_cands(fw, a4, a6, acls, DirectionType::Forward);
    lemma_flip_all_cands(bw, a4, a6, acls, DirectionType::Backward);
}

/// The ACL id that a scan decides is 0 or the id of an ACL whose atom hit.
proof fn lemma_hit_id_from_hit(key: Seq<u64>, atoms: Seq<Atom>, acls: Seq<AclPolicy>, n: nat)
    ensures
        hit_id(key, atoms, acls, indices(n)) == 0 || some_atom_hits(key, atoms, acls, hit_id(key, atoms, acls, indices(n))),
    decreases n,
{
    if n > 0 {
        assert(indices(n).drop_last() =~= indices((n - 1) as nat));
        lemma_hit_id_from_hit(key, atoms, acls, (n - 1) as nat);
        let i = (n - 1) as int;
        assert(indices(n).last() == i as usize);
        if hit(key, atoms, acls, i) {
            let prev = hit_id(key, atoms, acls, indices((n - 1) as nat));
            let id = acls[atoms[i].acl as int].id;
            if pick_acl_id(prev, id) == id {
                assert(some_atom_hits(key, atoms, acls, id));
            }
        }
    }
}

/// The policy lookup core.
#[derive(Debug)]
pub struct FirstPath {
    pub group_ip_map: Vec<GroupEntry>,
    pub acls: Vec<AclPolicy>,
    pub table_4: FamilyTable,
    pub table_6: FamilyTable,
    pub level: usize,
    pub fast: FastPath,
    pub fast_disable: bool,
    pub queue_count: usize,
    pub features: u32,
    pub counters: Counters,
}

impl FirstPath {
    /// What the first path decides for a flow with its endpoints.
    pub open spec fn oracle(&self) -> spec_fn(FlowKey, EndpointData) -> PolicyModel {
        let a4 = self.table_4.atoms@;
        let a6 = self.table_6.atoms@;
        let acls = self.acls@;
        let on = policy_enabled(self.features);
        |k: FlowKey, e: EndpointData| if on {
            decide(a4, a6, acls, k, e)
        } else {
            empty_policy()
        }
    }

    /// The answer to a lookup of `key` with `e`: the first-path decision,
    /// deduplicated when the key asks for it.
    pub open spec fn answer(&self, key: LookupKey, e: EndpointData) -> PolicyModel {
        let p = (self.oracle())(flow_of(key), e);
        if wants_dedup(key.feature_flag) {
            deduped(p, key)
        } else {
            p
        }
    }

    /// What the fast path holds for `key`, if anything.
    pub open spec fn cached(&self, key: LookupKey) -> Option<(PolicyModel, EndpointData)> {
        self.fast.cached(self.fast.shard_of(key), flow_of(key))
    }

    /// Bucket entries that a first-path lookup of `k` with `e` scans.
    pub open spec fn scanned(&self, k: FlowKey, e: EndpointData) -> int {
        if policy_enabled(self.features) {
            let fw = forward_words(k, e);
            let bw = backward_words(k, e);
            (self.table_4.bucket_load(fw) + self.table_6.bucket_load(fw) + self.table_4.bucket_load(bw)
                + self.table_6.bucket_load(bw)) as int
        } else {
            0
        }
    }

    /// Tables well formed, and every fast-path entry agrees with them.
    pub open spec fn wf(&self) -> bool {
        &&& self.table_4.wf()
        &&& self.table_4.nwords == V4_WORDS
        &&& self.table_6.wf()
        &&& self.table_6.nwords == V6_WORDS
        &&& self.fast.wf()
        &&& self.fast.agrees(self.oracle())
    }

    /// The first-path decision is symmetric, whatever the tables hold.
    pub proof fn lemma_oracle_symmetric(&self)
        ensures
            symmetric(self.oracle()),
    {
        assert forall|k: FlowKey, e: EndpointData| #[trigger] (self.oracle())(reversed_flow(k), reversed_endpoints(e)) == reversed_policy((self.oracle())(k, e)) by {
            if policy_enabled(self.features) {
                lemma_decide_symmetric(self.table_4.atoms@, self.table_6.atoms@, self.acls@, k, e);
            } else {
                let none = Seq::<NpbAction>::empty();
                assert(flip_all(none) =~= none);
                assert(none.filter(|a: NpbAction| is_backward(a)) == none);
                assert(none.filter(|a: NpbAction| !is_backward(a)) == none);
                assert(none + none =~= none);
                assert(reversed_policy(empty_policy()) == empty_policy());
            }
        }
    }

    /// An empty core: no group, no ACL, empty fast path.
    pub fn new(queue_count: usize, level: usize, map_size: usize, fast_disable: bool, features: u32) -> (r: FirstPath)
        ensures
            r.wf(),
            r.fast.is_empty(),
            r.acls@.len() == 0,
            r.table_4.atoms@.len() == 0,
            r.table_6.atoms@.len() == 0,
            r.table_4.vector.vector_bits@.len() == 0,
            r.table_6.vector.vector_bits@.len() == 0,
            r.group_ip_map@.len() == 0,
            r.queue_count == queue_count,
            r.fast.shards.len() == if queue_count == 0 { 1 } else { queue_count },
            r.fast.map_size == if map_size == 0 { 1 } else { map_size },
            r.level == level && r.fast_disable == fast_disable && r.features == features,
            r.counters == (Counters { lookup_total: 0, fast_hit: 0, fast_miss: 0, first_path_bucket_scanned: 0, reload_total: 0, reload_rejected_acl: 0 }),
    {
        proof {
            crate::matched_field::lemma_pow2_values();
        }
        let t4 = FamilyTable::build(Vec::new(), Vector::new(), V4_WORDS, TABLE_BUDGET);
        let t6 = FamilyTable::build(Vec::new(), Vector::new(), V6_WORDS, TABLE_BUDGET);
        proof {
            assert(crate::table::table_entries(atoms_view(Seq::<Atom>::empty()), Seq::<usize>::empty(), 0) == 0);
        }
        let table_4 = t4.unwrap();
        let table_6 = t6.unwrap();
        FirstPath {
            group_ip_map: Vec::new(),
            acls: Vec::new(),
            table_4,
            table_6,
            level,
            fast: FastPath::new(queue_count, map_size),
            fast_disable,
            queue_count,
            features,
            counters: Counters { lookup_total: 0, fast_hit: 0, fast_miss: 0, first_path_bucket_scanned: 0, reload_total: 0, reload_rejected_acl: 0 },
        }
    }

    pub fn update_map_size(&mut self, map_size: usize)
        requires
            old(self).wf(),
        ensures
            final(self).wf(),
            final(self).fast.is_empty(),
            final(self).oracle() == old(self).oracle(),
            final(self).fast.map_size == if map_size == 0 { 1 } else { map_size },
            final(self).fast.shards.len() == old(self).fast.shards.len(),
            final(self).counters == old(self).counters,
            final(self).fast_disable == old(self).fast_disable,
            final(self).features == old(self).features,
            final(self).table_4 == old(self).table_4,
            final(self).table_6 == old(self).table_6,
            final(self).acls@ == old(self).acls@,
            final(self).group_ip_map@ == old(self).group_ip_map@,
            final(self).level == old(self).level,
            final(self).queue_count == old(self).queue_count,
    {
        self.fast.update_map_size(map_size);
    }

    /// Drops every fast-path entry.
    pub fn flush(&mut self)
        requires
            old(self).wf(),
        ensures
            final(self).wf(),
            final(self).fast.is_empty(),
            final(self).oracle() == old(self).oracle(),
            final(self).counters == old(self).counters,
            final(self).fast_disable == old(self).fast_disable,
            final(self).features == old(self).features,
            final(self).fast.map_size == old(self).fast.map_size,
            final(self).fast.shards.len() == old(self).fast.shards.len(),
            final(self).table_4 == old(self).table_4,
            final(self).table_6 == old(self).table_6,
            final(self).acls@ == old(self).acls@,
            final(self).group_ip_map@ == old(self).group_ip_map@,
            final(self).level == old(self).level,
            final(self).queue_count == old(self).queue_count,
    {
        self.fast.flush();
    }

    /// Replaces the IP groups that the next reload of ACLs resolves against
    /// (when the core matches ACLs at all).
    pub fn update_ip_group(&mut self, groups: &Vec<IpGroupData>)
        requires
            old(self).wf(),
        ensures
            final(self).wf(),
            final(self).oracle() == old(self).oracle(),
            final(self).fast == old(self).fast,
            final(self).counters == old(self).counters,
            final(self).fast_disable == old(self).fast_disable,
            final(self).features == old(self).features,
            policy_enabled(old(self).features) ==> forall|id: int| 0 <= id <= u16::MAX ==> (has_group(final(self).group_ip_map@, id) <==> group_defined(groups@, id)),
            policy_enabled(old(self).features) ==> forall|id: int| 0 <= id <= u16::MAX ==> #[trigger] group_segments(final(self).group_ip_map@, id) == group_nets(groups@, id, groups.len() as nat),
            !policy_enabled(old(self).features) ==> final(self).group_ip_map@ == old(self).group_ip_map@,
            final(self).table_4 == old(self).table_4,
            final(self).table_6 == old(self).table_6,
            final(self).acls@ == old(self).acls@,
            final(self).level == old(self).level,
            final(self).queue_count == old(self).queue_count,
    {
        if self.features & FEATURE_POLICY != 0 {
            self.group_ip_map = generate_group_ip_map(groups);
        }
    }

    /// Whether `acl` names a group that is not known, when asked to check.
    pub fn is_invalid_acl(&self, acl: &Acl, check: bool) -> (r: bool)
        ensures
            r == acl_invalid(*acl, self.group_ip_map@, check),
    {
        if !check {
            return false;
        }
        let mut j: usize = 0;
        while j < acl.src_groups.len()
            invariant
                check,
                j <= acl.src_groups.len(),
                forall|t: int| 0 <= t < j ==> has_group(self.group_ip_map@, #[trigger] group_key(acl.src_groups@[t])),
            decreases acl.src_groups.len() - j,
        {
            if find_group(&self.group_ip_map, acl.src_groups[j] as u16).is_none() {
                assert(!has_group(self.group_ip_map@, group_key(acl.src_groups@[j as int])));
                return true;
            }
            j += 1;
        }
        let mut j: usize = 0;
        while j < acl.dst_groups.len()
            invariant
                check,
                j <= acl.dst_groups.len(),
                forall|t: int| 0 <= t < acl.src_groups.len() ==> has_group(self.group_ip_map@, #[trigger] group_key(acl.src_groups@[t])),
                forall|t: int| 0 <= t < j ==> has_group(self.group_ip_map@, #[trigger] group_key(acl.dst_groups@[t])),
            decreases acl.dst_groups.len() - j,
        {
            if find_group(&self.group_ip_map, acl.dst_groups[j] as u16).is_none() {
                assert(!has_group(self.group_ip_map@, group_key(acl.dst_groups@[j as int])));
                return true;
            }
            j += 1;
        }
        false
    }

    /// Installs `acls`, leaving out (and counting) those that name an unknown
    /// group when `check` asks for it, and drops every fast-path entry. The
    /// new tables are built aside and put in place together; when one would
    /// exceed `TABLE_BUDGET` entries the reload fails and nothing changes.
    pub fn update_acl(&mut self, acls: &Vec<Acl>, check: bool) -> (r: Result<(), PolicyError>)
        requires
            old(self).wf(),
        ensures
            final(self).wf(),
            r is Err ==> *final(self) == *old(self),
            r is Err <==> policy_enabled(old(self).features) && !reload_fits(acls@, old(self).group_ip_map@, check, old(self).level),
            r is Ok ==> final(self).fast.is_empty(),
            r is Ok && policy_enabled(old(self).features) ==> final(self).acls@.map_values(|p: AclPolicy| policy_summary(p))
                == valid_acls(acls@, old(self).group_ip_map@, check).map_values(|a: Acl| acl_summary(a)),
            r is Ok && policy_enabled(old(self).features) ==> {
                &&& atoms_view(final(self).table_4.atoms@) == planned_atoms(acls@, old(self).group_ip_map@, check, false)
                &&& atoms_view(final(self).table_6.atoms@) == planned_atoms(acls@, old(self).group_ip_map@, check, true)
                &&& final(self).table_4.vector.vector_bits@ == planned_bits(acls@, old(self).group_ip_map@, check, old(self).level, false)
                &&& final(self).table_6.vector.vector_bits@ == planned_bits(acls@, old(self).group_ip_map@, check, old(self).level, true)
            },
            r is Ok && !policy_enabled(old(self).features) ==> {
                &&& final(self).table_4 == old(self).table_4
                &&& final(self).table_6 == old(self).table_6
                &&& final(self).acls@ == old(self).acls@
            },
            r is Ok ==> final(self).counters.reload_total == bumped(old(self).counters.reload_total, 1),
            r is Ok && policy_enabled(old(self).features) ==> final(self).counters.reload_rejected_acl == bumped(
                old(self).counters.reload_rejected_acl,
                (acls@.len() - valid_acls(acls@, old(self).group_ip_map@, check).len()) as u64,
            ),
            final(self).group_ip_map@ == old(self).group_ip_map@,
            final(self).features == old(self).features,
            final(self).fast_disable == old(self).fast_disable,
            final(self).level == old(self).level,
            final(self).queue_count == old(self).queue_count,
            final(self).counters.lookup_total == old(self).counters.lookup_total,
            final(self).counters.fast_hit == old(self).counters.fast_hit,
            final(self).counters.fast_miss == old(self).counters.fast_miss,
    {
        if self.features & FEATURE_POLICY != 0 {
            let ghost valid = |a: Acl| !acl_invalid(a, self.group_ip_map@, check);
            let mut policies: Vec<AclPolicy> = Vec::new();
            let mut a4: Vec<Atom> = Vec::new();
            let mut a6: Vec<Atom> = Vec::new();
            let mut rejected: usize = 0;
            let mut i: usize = 0;
            while i < acls.len()
                invariant
                    i <= acls.len(),
                    valid == (|a: Acl| !acl_invalid(a, self.group_ip_map@, check)),
                    policies@.map_values(|p: AclPolicy| policy_summary(p)) == acls@.take(i as int).filter(valid).map_values(|a: Acl| acl_summary(a)),
                    rejected == i - acls@.take(i as int).filter(valid).len(),
                    policies.len() == acls@.take(i as int).filter(valid).len(),
                    words_of_family(a4@, false),
                    words_of_family(a6@, true),
                    atoms_view(a4@) == installed_atoms(acls@.take(i as int).filter(valid), self.group_ip_map@, false, policies.len() as nat),
                    atoms_view(a6@) == installed_atoms(acls@.take(i as int).filter(valid), self.group_ip_map@, true, policies.len() as nat),
                decreases acls.len() - i,
            {
                let acl = &acls[i];
                proof {
                    assert(acls@.take(i + 1) =~= acls@.take(i as int).push(acls@[i as int]));
                    acls@.take(i as int).lemma_filter_len(valid);
                }
                if self.is_invalid_acl(acl, check) {
                    rejected += 1;
                } else {
                    let pos = policies.len();
                    let ghost vp = acls@.take(i as int).filter(valid);
                    proof {
                        assert(acls@.take(i + 1).filter(valid) == vp.push(*acl));
                        lemma_installed_prefix(vp, vp.push(*acl), self.group_ip_map@, false, pos as nat);
                        lemma_installed_prefix(vp, vp.push(*acl), self.group_ip_map@, true, pos as nat);
                        assert(vp.push(*acl)[pos as int] == *acl);
                    }
                    expand_acl(acl, &self.group_ip_map, pos, &mut a4, &mut a6);
                    let ghost before = policies@;
                    policies.push(AclPolicy { id: acl.id, npb_actions: copy_actions(&acl.npb_actions) });
                    proof {
                        assert(policies@.map_values(|p: AclPolicy| policy_summary(p)) =~= before.map_values(|p: AclPolicy| policy_summary(p)).push(acl_summary(*acl)));
                        assert(acls@.take(i + 1).filter(valid) == acls@.take(i as int).filter(valid).push(acls@[i as int]));
                        assert(acls@.take(i + 1).filter(valid).map_values(|a: Acl| acl_summary(a)) =~= acls@.take(i as int).filter(valid).map_values(|a: Acl| acl_summary(a)).push(acl_summary(*acl)));
                    }
                }
                i += 1;
            }
            proof {
                assert(acls@.take(acls.len() as int) =~= acls@);
                assert(acls@.filter(valid) == valid_acls(acls@, self.group_ip_map@, check));
                assert(atoms_view(a4@) == planned_atoms(acls@, self.group_ip_map@, check, false));
                assert(atoms_view(a6@) == planned_atoms(acls@, self.group_ip_map@, check, true));
                assert(atoms_view(a4@).len() == a4@.len());
                assert(atoms_view(a6@).len() == a6@.len());
            }
            let total = if a4.len() > usize::MAX - a6.len() {
                usize::MAX
            } else {
                a4.len() + a6.len()
            };
            let size = vector_size(total, self.level);
            let v4 = Vector::init(&a4, V4_WORDS, size);
            let v6 = Vector::init(&a6, V6_WORDS, size);
            proof {
                assert(size == planned_size(acls@, self.group_ip_map@, check, self.level));
                assert(v4.vector_bits@ == planned_bits(acls@, self.group_ip_map@, check, self.level, false));
                assert(v6.vector_bits@ == planned_bits(acls@, self.group_ip_map@, check, self.level, true));
            }
            let t4 = match FamilyTable::build(a4, v4, V4_WORDS, TABLE_BUDGET) {
                Some(t) => t,
                None => {
                    return Err(PolicyError::MemoryExceeded);
                },
            };
            let t6 = match FamilyTable::build(a6, v6, V6_WORDS, TABLE_BUDGET) {
                Some(t) => t,
                None => {
                    return Err(PolicyError::MemoryExceeded);
                },
            };
            self.table_4 = t4;
            self.table_6 = t6;
            self.acls = policies;
            self.counters.reload_rejected_acl = bump(self.counters.reload_rejected_acl, rejected as u64);
        }
        self.fast.flush();
        self.counters.reload_total = bump(self.counters.reload_total, 1);
        Ok(())
    }

    /// Merges into `policy` the first-path decision for `key` with
    /// `endpoints`: forward matches, then backward ones.
    fn get_policy_from_table(&self, key: &FlowKey, endpoints: &EndpointData, policy: &mut PolicyData) -> (r: u128)
        requires
            self.wf(),
            old(policy)@ == empty_policy(),
            policy_enabled(self.features),
        ensures
            final(policy)@ == decide(self.table_4.atoms@, self.table_6.atoms@, self.acls@, *key, *endpoints),
            r == self.scanned(*key, *endpoints),
    {
        let (forward, backward) = generate_matched_field(key, endpoints);
        let n1 = self.table_4.get_policy(&self.acls, &forward, DirectionType::Forward, policy);
        let n2 = self.table_6.get_policy(&self.acls, &forward, DirectionType::Forward, policy);
        let n3 = self.table_4.get_policy(&self.acls, &backward, DirectionType::Backward, policy);
        let n4 = self.table_6.get_policy(&self.acls, &backward, DirectionType::Backward, policy);
        n1 as u128 + n2 as u128 + n3 as u128 + n4 as u128
    }

    /// Computes the decision for `key` with `endpoints` on the first path,
    /// stores it in the fast path, and returns it (deduplicated when the
    /// key asks for it) with the endpoints.
    pub fn first_get(&mut self, key: &LookupKey, endpoints: EndpointData) -> (r: Option<(PolicyData, EndpointData)>)
        requires
            old(self).wf(),
        ensures
            final(self).wf(),
            r is Some,
            (r->0).0@ == old(self).answer(*key, endpoints),
            (r->0).1 == endpoints,
            final(self).cached(*key) is Some,
            final(self).oracle() == old(self).oracle(),
            final(self).counters == (Counters {
                first_path_bucket_scanned: bumped_wide(old(self).counters.first_path_bucket_scanned, old(self).scanned(flow_of(*key), endpoints)),
                ..old(self).counters
            }),
            final(self).fast_disable == old(self).fast_disable,
            final(self).features == old(self).features,
            final(self).fast.shards.len() == old(self).fast.shards.len(),
            final(self).fast.map_size == old(self).fast.map_size,
            final(self).table_4 == old(self).table_4,
            final(self).table_6 == old(self).table_6,
            final(self).acls@ == old(self).acls@,
            final(self).group_ip_map@ == old(self).group_ip_map@,
            final(self).level == old(self).level,
            final(self).queue_count == old(self).queue_count,
    {
        let mut policy = PolicyData::new();
        if self.features & FEATURE_POLICY != 0 {
            let flow = key.flow();
            let scanned = self.get_policy_from_table(&flow, &endpoints, &mut policy);
            self.counters.first_path_bucket_scanned = bump_wide(self.counters.first_path_bucket_scanned, scanned);
        } else {
            proof {
                assert(self.counters.first_path_bucket_scanned == bumped_wide(self.counters.first_path_bucket_scanned, 0));
            }
        }
        let ghost oracle = self.oracle();
        proof {
            self.lemma_oracle_symmetric();
        }
        self.fast.add_policy(key, &policy, endpoints);
        proof {
            assert(self.oracle() == oracle);
            assert(self.fast.agrees(oracle));
        }
        if key.has_dedup() {
            policy.dedup(key);
        }
        Some((policy, endpoints))
    }

    /// The decision that the fast path holds for `key` (deduplicated when
    /// the key asks for it), with its endpoints; none when the fast path is
    /// off or holds nothing for the key.
    pub fn fast_get(&self, key: &LookupKey) -> (r: Option<(PolicyData, EndpointData)>)
        requires
            self.wf(),
        ensures
            r is Some <==> !self.fast_disable && self.cached(*key) is Some,
            r is Some ==> (r->0).0@ == self.answer(*key, (r->0).1),
    {
        if self.fast_disable {
            return None;
        }
        match self.fast.get_policy(key) {
            Some((policy, endpoints)) => {
                proof {
                    self.lemma_oracle_symmetric();
                    lemma_cached_agrees(&self.fast, self.oracle(), self.fast.shard_of(*key), flow_of(*key));
                }
                if key.has_dedup() {
                    let mut policy = policy;
                    policy.dedup(key);
                    Some((policy, endpoints))
                } else {
                    Some((policy, endpoints))
                }
            },
            None => None,
        }
    }

    /// Answers a lookup: from the fast path when it holds the key, else
    /// from the first path, whose decision the fast path then keeps.
    pub fn lookup(&mut self, key: &LookupKey, endpoints: EndpointData) -> (r: (PolicyData, EndpointData))
        requires
            old(self).wf(),
        ensures
            final(self).wf(),
            r.0@ == old(self).answer(*key, r.1),
            !old(self).fast_disable && old(self).cached(*key) is Some ==> final(self).counters == (Counters {
                lookup_total: bumped(old(self).counters.lookup_total, 1),
                fast_hit: bumped(old(self).counters.fast_hit, 1),
                ..old(self).counters
            }),
            !(!old(self).fast_disable && old(self).cached(*key) is Some) ==> r.1 == endpoints && final(self).counters == (Counters {
                lookup_total: bumped(old(self).counters.lookup_total, 1),
                fast_miss: bumped(old(self).counters.fast_miss, 1),
                first_path_bucket_scanned: bumped_wide(old(self).counters.first_path_bucket_scanned, old(self).scanned(flow_of(*key), endpoints)),
                ..old(self).counters
            }),
            final(self).oracle() == old(self).oracle(),
            final(self).cached(*key) is Some,
            final(self).fast_disable == old(self).fast_disable,
            final(self).features == old(self).features,
            final(self).fast.shards.len() == old(self).fast.shards.len(),
            final(self).fast.map_size == old(self).fast.map_size,
            final(self).table_4 == old(self).table_4,
            final(self).table_6 == old(self).table_6,
            final(self).acls@ == old(self).acls@,
            final(self).group_ip_map@ == old(self).group_ip_map@,
            final(self).level == old(self).level,
            final(self).queue_count == old(self).queue_count,
    {
        self.counters.lookup_total = bump(self.counters.lookup_total, 1);
        match self.fast_get(key) {
            Some(hit) => {
                self.counters.fast_hit = bump(self.counters.fast_hit, 1);
                hit
            },
            None => {
                self.counters.fast_miss = bump(self.counters.fast_miss, 1);
                let r = self.first_get(key, endpoints);
                r.unwrap()
            },
        }
    }

    /// The current counters.
    pub fn counters(&self) -> (r: Counters)
        ensures
            r == self.counters,
    {
        self.counters
    }

    /// Average number of entries per bucket, over both tables.
    pub fn average_bucket_depth(&self) -> (r: u128)
        requires
            self.wf(),
        ensures
            r as int == (self.table_4.entries_upto(crate::table::TABLE_SIZE as nat) + self.table_6.entries_upto(crate::table::TABLE_SIZE as nat)) as int / (2 * crate::table::TABLE_SIZE as int),
    {
        let t4 = self.table_4.total_entries();
        let t6 = self.table_6.total_entries();
        (t4 + t6) / (2 * crate::table::TABLE_SIZE as u128)
    }

    /// How many bits index the IPv4 table.
    pub fn vector_size(&self) -> (r: usize)
        ensures
            r == self.table_4.vector.vector_bits@.len(),
    {
        self.table_4.vector.vector_bits.len()
    }
}

/// Every ACL id that the first path decides is 0, or that of an installed
/// ACL one of whose atoms the forward or backward field of the flow
/// matches.
pub proof fn lemma_decision_from_match(fp: &FirstPath, k: FlowKey, e: EndpointData)
    ensures
        ({
            let id = (fp.oracle())(k, e).acl_id;
            let fw = forward_words(k, e);
            let bw = backward_words(k, e);
            id == 0 || some_atom_hits(fw, fp.table_4.atoms@, fp.acls@, id) || some_atom_hits(fw, fp.table_6.atoms@, fp.acls@, id)
                || some_atom_hits(bw, fp.table_4.atoms@, fp.acls@, id) || some_atom_hits(bw, fp.table_6.atoms@, fp.acls@, id)
        }),
{
    if policy_enabled(fp.features) {
        let a4 = fp.table_4.atoms@;
        let a6 = fp.table_6.atoms@;
        let acls = fp.acls@;
        lemma_decide_closed(a4, a6, acls, k, e);
        let fw = forward_words(k, e);
        let bw = backward_words(k, e);
        lemma_hit_id_from_hit(fw, a4, acls, a4.len() as nat);
        lemma_hit_id_from_hit(fw, a6, acls, a6.len() as nat);
        lemma_hit_id_from_hit(bw, a4, acls, a4.len() as nat);
        lemma_hit_id_from_hit(bw, a6, acls, a6.len() as nat);
    }
}

/// What the fast path holds for a key is what the first path decides for
/// it with the held endpoints: a fast-path hit answers as a first-path
/// lookup would.
pub proof fn lemma_fast_agrees_with_first(fp: &FirstPath, key: LookupKey)
    requires
        fp.wf(),
        fp.cached(key) is Some,
    ensures
        (fp.cached(key)->0).0 == (fp.oracle())(flow_of(key), (fp.cached(key)->0).1),
{
    fp.lemma_oracle_symmetric();
    lemma_cached_agrees(&fp.fast, fp.oracle(), fp.fast.shard_of(key), flow_of(key));
}

/// After a flush nothing is held: every fast-path lookup misses until a
/// first-path lookup stores a decision again.
pub proof fn lemma_flushed_misses(fp: &FirstPath, key: LookupKey)
    requires
        fp.wf(),
        fp.fast.is_empty(),
    ensures
        fp.cached(key) is None,
{
    let s = fp.fast.shard_of(key);
    let i = crate::fast_path::slot_of(flow_of(key), fp.fast.map_size as nat);
    assert(fp.fast.shards@[s].slots@[i] is None);
}

/// Where the fast path holds a key, it holds its reverse too, with the
/// decision turned around: the actions matched forward become backward.
pub proof fn lemma_reverse_key_hits(fp: &FirstPath, key: LookupKey, rkey: LookupKey)
    requires
        fp.wf(),
        fp.cached(key) is Some,
        flow_of(rkey) == reversed_flow(flow_of(key)),
        flow_of(key) != reversed_flow(flow_of(key)),
        rkey.fast_index == key.fast_index,
    ensures
        fp.cached(rkey) is Some,
        (fp.cached(rkey)->0).0 == reversed_policy((fp.cached(key)->0).0),
        (fp.cached(rkey)->0).1 == reversed_endpoints((fp.cached(key)->0).1),
{
    let s = fp.fast.shard_of(key);
    crate::fast_path::lemma_reverse_hit(&fp.fast, s, flow_of(key));
    lemma_canonical_reverse(flow_of(key));
    fp.lemma_oracle_symmetric();
    lemma_cached_agrees(&fp.fast, fp.oracle(), s, flow_of(key));
    lemma_cached_agrees(&fp.fast, fp.oracle(), s, flow_of(rkey));
    let k = flow_of(key);
    crate::fast_path::lemma_flip_exclusive(k);
    let i = crate::fast_path::slot_of(k, fp.fast.map_size as nat);
    let entry = fp.fast.shards@[s].slots@[i]->0;
    assert(reversed_endpoints(reversed_endpoints(entry.endpoints)) == entry.endpoints);
    if crate::fast_path::is_flipped(k) {
        let o = fp.oracle();
        assert(o(reversed_flow(k), reversed_endpoints(reversed_endpoints(entry.endpoints))) == reversed_policy(o(k, reversed_endpoints(entry.endpoints))));
    }
}

/// Two cores with the same installed ACLs, atoms and features decide every
/// flow alike.
pub proof fn lemma_deterministic(a: &FirstPath, b: &FirstPath, k: FlowKey, e: EndpointData)
    requires
        a.table_4.atoms@ == b.table_4.atoms@,
        a.table_6.atoms@ == b.table_6.atoms@,
        a.acls@ == b.acls@,
        policy_enabled(a.features) == policy_enabled(b.features),
    ensures
        (a.oracle())(k, e) == (b.oracle())(k, e),
{
}

} // verus!
