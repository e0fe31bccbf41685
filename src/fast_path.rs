//! The fast path: per-shard caches of first-path decisions, keyed by flow.
//! A flow and its reverse share one entry, held in a canonical orientation.
use vstd::prelude::*;

use crate::lookup_key::{
    flow_of, reversed_endpoints, reversed_flow, EndpointData, FlowKey, IpAddress, LookupKey,
};
use crate::policy::{reversed_policy, PolicyData, PolicyModel};

verus! {

/// A decision of the first path, for a flow in canonical orientation.
#[derive(Debug)]
pub struct FastEntry {
    pub key: FlowKey,
    pub policy: PolicyData,
    pub endpoints: EndpointData,
}

/// The cache of one dispatcher: a direct-mapped table of entries.
#[derive(Debug)]
pub struct FastShard {
    pub slots: Vec<Option<FastEntry>>,
}

/// The caches of all dispatchers.
#[derive(Debug)]
pub struct FastPath {
    pub shards: Vec<FastShard>,
    pub map_size: usize,
}

/// An address as a number that orders IPv4 before IPv6.
pub open spec fn ip_rank(a: IpAddress) -> int {
    match a {
        IpAddress::V4(x) => x as int,
        IpAddress::V6(y) => y as int + 0x1_0000_0000,
    }
}

/// A flag as 0 or 1.
pub open spec fn bit(b: bool) -> int {
    if b {
        1
    } else {
        0
    }
}

/// A total order on flow keys: lexicographic over the addresses, the ports
/// and the end flags.
pub open spec fn flow_less(a: FlowKey, b: FlowKey) -> bool {
    if ip_rank(a.src_ip) != ip_rank(b.src_ip) {
        ip_rank(a.src_ip) < ip_rank(b.src_ip)
    } else if ip_rank(a.dst_ip) != ip_rank(b.dst_ip) {
        ip_rank(a.dst_ip) < ip_rank(b.dst_ip)
    } else if a.src_port != b.src_port {
        a.src_port < b.src_port
    } else if a.dst_port != b.dst_port {
        a.dst_port < b.dst_port
    } else if a.l2_end_0 != b.l2_end_0 {
        !a.l2_end_0
    } else if a.l2_end_1 != b.l2_end_1 {
        !a.l2_end_1
    } else if a.l3_end_0 != b.l3_end_0 {
        !a.l3_end_0
    } else if a.l3_end_1 != b.l3_end_1 {
        !a.l3_end_1
    } else {
        false
    }
}

/// Whether `k` is held turned around.
pub open spec fn is_flipped(k: FlowKey) -> bool {
    flow_less(reversed_flow(k), k)
}

/// The orientation in which `k` and its reverse are held.
pub open spec fn canonical(k: FlowKey) -> FlowKey {
    if is_flipped(k) {
        reversed_flow(k)
    } else {
        k
    }
}

/// A flow and its reverse are held as one.
pub proof fn lemma_canonical_reverse(k: FlowKey)
    ensures
        canonical(reversed_flow(k)) == canonical(k),
        reversed_flow(reversed_flow(k)) == k,
{
    assert(reversed_flow(reversed_flow(k)) == k);
}

/// Reversing a flow, its endpoints and the decision together is a symmetry
/// of `oracle`.
pub open spec fn symmetric(oracle: spec_fn(FlowKey, EndpointData) -> PolicyModel) -> bool {
    forall|k: FlowKey, e: EndpointData|
        #[trigger] oracle(reversed_flow(k), reversed_endpoints(e)) == reversed_policy(oracle(k, e))
}

/// Multiplier of the flow hash.
pub const HASH_MUL: u128 = 1000003;

/// Modulus of the flow hash, below `2^48`.
pub const HASH_MOD: u128 = 0xffff_ffff_fffb;

/// One step of the flow hash.
pub open spec fn mix(h: int, x: int) -> int {
    (h * HASH_MUL + x) % HASH_MOD as int
}

/// The flow hash after an address.
pub open spec fn ip_hash(h: int, a: IpAddress) -> int {
    match a {
        IpAddress::V4(x) => mix(h, x as int),
        IpAddress::V6(y) => mix(mix(h, y as int / 0x1_0000_0000_0000_0000), y as int % 0x1_0000_0000_0000_0000),
    }
}

/// The hash of a flow key.
pub open spec fn flow_hash(k: FlowKey) -> int {
    let h = ip_hash(ip_hash(0, k.src_ip), k.dst_ip);
    let h = mix(h, k.src_port as int + k.dst_port as int * 0x10000);
    let h = mix(h, k.proto as int + k.tap_type as int * 0x100);
    mix(h, bit(k.l2_end_0) + 2 * bit(k.l2_end_1) + 4 * bit(k.l3_end_0) + 8 * bit(k.l3_end_1))
}

/// The slot of a flow key in a shard of `size` slots.
pub open spec fn slot_of(k: FlowKey, size: nat) -> int {
    flow_hash(canonical(k)) % size as int
}

fn mix_exec(h: u128, x: u128) -> (r: u128)
    requires
        h < HASH_MOD,
        x <= u64::MAX,
    ensures
        r == mix(h as int, x as int),
        r < HASH_MOD,
{
    (h * HASH_MUL + x) % HASH_MOD
}

fn ip_hash_exec(h: u128, a: IpAddress) -> (r: u128)
    requires
        h < HASH_MOD,
    ensures
        r == ip_hash(h as int, a),
        r < HASH_MOD,
{
    match a {
        IpAddress::V4(x) => mix_exec(h, x as u128),
        IpAddress::V6(y) => mix_exec(mix_exec(h, y / 0x1_0000_0000_0000_0000), y % 0x1_0000_0000_0000_0000),
    }
}

fn flow_hash_exec(k: &FlowKey) -> (r: u128)
    ensures
        r == flow_hash(*k),
{
    let h = ip_hash_exec(ip_hash_exec(0, k.src_ip), k.dst_ip);
    let h = mix_exec(h, k.src_port as u128 + k.dst_port as u128 * 0x10000);
    let h = mix_exec(h, k.proto as u128 + k.tap_type as u128 * 0x100);
    let flags = (if k.l2_end_0 { 1u128 } else { 0 }) + (if k.l2_end_1 { 2u128 } else { 0 }) + (if k.l3_end_0 {
        4u128
    } else {
        0
    }) + (if k.l3_end_1 { 8u128 } else { 0 });
    mix_exec(h, flags)
}

fn ip_less(a: IpAddress, b: IpAddress) -> (r: (bool, bool))
    ensures
        r.0 == (ip_rank(a) < ip_rank(b)),
        r.1 == (ip_rank(a) == ip_rank(b)),
{
    match (a, b) {
        (IpAddress::V4(x), IpAddress::V4(y)) => (x < y, x == y),
        (IpAddress::V6(x), IpAddress::V6(y)) => (x < y, x == y),
        (IpAddress::V4(_), IpAddress::V6(_)) => (true, false),
        (IpAddress::V6(_), IpAddress::V4(_)) => (false, false),
    }
}

fn reversed(k: &FlowKey) -> (r: FlowKey)
    ensures
        r == reversed_flow(*k),
{
    FlowKey {
        src_ip: k.dst_ip,
        dst_ip: k.src_ip,
        src_port: k.dst_port,
        dst_port: k.src_port,
        proto: k.proto,
        tap_type: k.tap_type,
        l2_end_0: k.l2_end_1,
        l2_end_1: k.l2_end_0,
        l3_end_0: k.l3_end_1,
        l3_end_1: k.l3_end_0,
    }
}

fn less(a: &FlowKey, b: &FlowKey) -> (r: bool)
    ensures
        r == flow_less(*a, *b),
{
    let (lt, eq) = ip_less(a.src_ip, b.src_ip);
    if !eq {
        return lt;
    }
    let (lt, eq) = ip_less(a.dst_ip, b.dst_ip);
    if !eq {
        return lt;
    }
    if a.src_port != b.src_port {
        a.src_port < b.src_port
    } else if a.dst_port != b.dst_port {
        a.dst_port < b.dst_port
    } else if a.l2_end_0 != b.l2_end_0 {
        !a.l2_end_0
    } else if a.l2_end_1 != b.l2_end_1 {
        !a.l2_end_1
    } else if a.l3_end_0 != b.l3_end_0 {
        !a.l3_end_0
    } else if a.l3_end_1 != b.l3_end_1 {
        !a.l3_end_1
    } else {
        false
    }
}

/// The canonical orientation of `k`, and whether `k` was turned to get it.
fn canonicalize(k: &FlowKey) -> (r: (FlowKey, bool))
    ensures
        r.0 == canonical(*k),
        r.1 == is_flipped(*k),
{
    let rk = reversed(k);
    if less(&rk, k) {
        (rk, true)
    } else {
        (*k, false)
    }
}

fn empty_slots(size: usize) -> (r: Vec<Option<FastEntry>>)
    ensures
        r.len() == size,
        forall|i: int| 0 <= i < size ==> r@[i] is None,
{
    let mut v: Vec<Option<FastEntry>> = Vec::new();
    let mut i: usize = 0;
    while i < size
        invariant
            i <= size,
            v.len() == i,
            forall|j: int| 0 <= j < i ==> v@[j] is None,
        decreases size - i,
    {
        v.push(None);
        i += 1;
    }
    v
}

fn empty_shards(count: usize, size: usize) -> (r: Vec<FastShard>)
    ensures
        r.len() == count,
        forall|s: int| 0 <= s < count ==> (#[trigger] r@[s]).slots.len() == size,
        forall|s: int, i: int| 0 <= s < count && 0 <= i < size ==> (#[trigger] r@[s].slots@[i]) is None,
{
    let mut v: Vec<FastShard> = Vec::new();
    let mut s: usize = 0;
    while s < count
        invariant
            s <= count,
            v.len() == s,
            forall|t: int| 0 <= t < s ==> (#[trigger] v@[t]).slots.len() == size,
            forall|t: int, i: int| 0 <= t < s && 0 <= i < size ==> (#[trigger] v@[t].slots@[i]) is None,
        decreases count - s,
    {
        v.push(FastShard { slots: empty_slots(size) });
        s += 1;
    }
    v
}

impl FastPath {
    /// At least one shard, each with `map_size >= 1` slots.
    pub open spec fn wf(&self) -> bool {
        &&& self.shards.len() >= 1
        &&& self.map_size >= 1
        &&& forall|s: int| 0 <= s < self.shards.len() ==> (#[trigger] self.shards@[s]).slots.len() == self.map_size
    }

    /// Every held entry is canonical and holds what `oracle` decides for it.
    pub open spec fn agrees(&self, oracle: spec_fn(FlowKey, EndpointData) -> PolicyModel) -> bool {
        forall|s: int, i: int|
            0 <= s < self.shards.len() && 0 <= i < self.shards@[s].slots.len() && (#[trigger] self.shards@[s].slots@[i]) is Some
                ==> ({
                    let e = self.shards@[s].slots@[i]->0;
                    &&& e.policy@ == oracle(e.key, e.endpoints)
                    &&& canonical(e.key) == e.key
                })
    }

    /// The shard that serves `key`.
    pub open spec fn shard_of(&self, key: LookupKey) -> int {
        key.fast_index as int % self.shards.len() as int
    }

    /// What the shard `s` holds for flow `k`: the decision and endpoints,
    /// turned to `k`'s orientation.
    pub open spec fn cached(&self, s: int, k: FlowKey) -> Option<(PolicyModel, EndpointData)> {
        let slot = self.shards@[s].slots@[slot_of(k, self.map_size as nat)];
        if slot is Some && slot->0.key == canonical(k) {
            let e = slot->0;
            if is_flipped(k) {
                Some((reversed_policy(e.policy@), reversed_endpoints(e.endpoints)))
            } else {
                Some((e.policy@, e.endpoints))
            }
        } else {
            None
        }
    }

    /// Holds nothing.
    pub open spec fn is_empty(&self) -> bool {
        forall|s: int, i: int| 0 <= s < self.shards.len() && 0 <= i < self.shards@[s].slots.len() ==> (#[trigger] self.shards@[s].slots@[i]) is None
    }

    /// `queue_count` empty shards (at least one) of `map_size` slots (at
    /// least one).
    pub fn new(queue_count: usize, map_size: usize) -> (r: FastPath)
        ensures
            r.wf(),
            r.is_empty(),
            r.shards.len() == if queue_count == 0 { 1 } else { queue_count },
            r.map_size == if map_size == 0 { 1 } else { map_size },
    {
        let count = if queue_count == 0 { 1 } else { queue_count };
        let size = if map_size == 0 { 1 } else { map_size };
        FastPath { shards: empty_shards(count, size), map_size: size }
    }

    /// Drops every entry.
    pub fn flush(&mut self)
        requires
            old(self).wf(),
        ensures
            final(self).wf(),
            final(self).is_empty(),
            final(self).shards.len() == old(self).shards.len(),
            final(self).map_size == old(self).map_size,
    {
        self.shards = empty_shards(self.shards.len(), self.map_size);
    }

    /// Gives each shard `map_size` slots (at least one); entries are dropped.
    pub fn update_map_size(&mut self, map_size: usize)
        requires
            old(self).wf(),
        ensures
            final(self).wf(),
            final(self).is_empty(),
            final(self).shards.len() == old(self).shards.len(),
            final(self).map_size == if map_size == 0 { 1 } else { map_size },
    {
        let size = if map_size == 0 { 1 } else { map_size };
        self.shards = empty_shards(self.shards.len(), size);
        self.map_size = size;
    }

    /// Looks `key` up in its shard.
    pub fn get_policy(&self, key: &LookupKey) -> (r: Option<(PolicyData, EndpointData)>)
        requires
            self.wf(),
        ensures
            r is Some <==> self.cached(self.shard_of(*key), flow_of(*key)) is Some,
            r is Some ==> self.cached(self.shard_of(*key), flow_of(*key)) == Some(((r->0).0@, (r->0).1)),
    {
        let s = key.fast_index % self.shards.len();
        let k = key.flow();
        let (c, flipped) = canonicalize(&k);
        let slot = (flow_hash_exec(&c) % (self.map_size as u128)) as usize;
        proof {
            lemma_canonical_idem(k);
        }
        let shard = &self.shards[s];
        match &shard.slots[slot] {
            Some(e) => {
                if e.key == c {
                    if flipped {
                        Some((e.policy.reverse(), e.endpoints.reversed()))
                    } else {
                        Some((e.policy.duplicate(), e.endpoints))
                    }
                } else {
                    None
                }
            },
            None => None,
        }
    }

    /// Holds `policy`, the decision for `key` with `endpoints`, in the
    /// shard of `key`; it then serves `key` and its reverse.
    pub fn add_policy(&mut self, key: &LookupKey, policy: &PolicyData, endpoints: EndpointData)
        requires
            old(self).wf(),
        ensures
            final(self).wf(),
            final(self).shards.len() == old(self).shards.len(),
            final(self).map_size == old(self).map_size,
            final(self).cached(old(self).shard_of(*key), flow_of(*key)) is Some,
            final(self).shard_of(*key) == old(self).shard_of(*key),
            forall|oracle: spec_fn(FlowKey, EndpointData) -> PolicyModel|
                old(self).agrees(oracle) && symmetric(oracle) && policy@ == oracle(flow_of(*key), endpoints)
                    ==> #[trigger] final(self).agrees(oracle),
    {
        let s = key.fast_index % self.shards.len();
        let k = key.flow();
        let (c, flipped) = canonicalize(&k);
        let slot = (flow_hash_exec(&c) % (self.map_size as u128)) as usize;
        proof {
            lemma_canonical_idem(k);
            lemma_canonical_reverse(k);
        }
        let entry = if flipped {
            FastEntry { key: c, policy: policy.reverse(), endpoints: endpoints.reversed() }
        } else {
            FastEntry { key: c, policy: policy.duplicate(), endpoints }
        };
        let ghost old_self = *old(self);
        self.shards[s].slots.set(slot, Some(entry));
        proof {
            assert forall|oracle: spec_fn(FlowKey, EndpointData) -> PolicyModel|
                old_self.agrees(oracle) && symmetric(oracle) && policy@ == oracle(flow_of(*key), endpoints)
                    implies #[trigger] self.agrees(oracle) by {
                if flipped {
                    assert(oracle(reversed_flow(k), reversed_endpoints(endpoints)) == reversed_policy(oracle(k, endpoints)));
                }
                assert forall|t: int, i: int|
                    0 <= t < self.shards.len() && 0 <= i < self.shards@[t].slots.len() && (#[trigger] self.shards@[t].slots@[i]) is Some
                        implies ({
                            let e = self.shards@[t].slots@[i]->0;
                            &&& e.policy@ == oracle(e.key, e.endpoints)
                            &&& canonical(e.key) == e.key
                        }) by {
                    if t != s || i != slot {
                        assert(self.shards@[t].slots@[i] == old_self.shards@[t].slots@[i]);
                    }
                }
            }
        }
    }
}

/// What a shard that agrees with a symmetric `oracle` holds for a flow is
/// the oracle's decision for it.
pub proof fn lemma_cached_agrees(fp: &FastPath, oracle: spec_fn(FlowKey, EndpointData) -> PolicyModel, s: int, k: FlowKey)
    requires
        fp.wf(),
        fp.agrees(oracle),
        symmetric(oracle),
        0 <= s < fp.shards.len(),
        fp.cached(s, k) is Some,
    ensures
        (fp.cached(s, k)->0).0 == oracle(k, (fp.cached(s, k)->0).1),
{
    let i = slot_of(k, fp.map_size as nat);
    assert(fp.shards@[s].slots@[i] is Some);
    let e = fp.shards@[s].slots@[i]->0;
    if is_flipped(k) {
        assert(reversed_flow(reversed_flow(k)) == k);
        assert(oracle(reversed_flow(e.key), reversed_endpoints(e.endpoints)) == reversed_policy(oracle(e.key, e.endpoints)));
    }
}

/// A flow and its reverse are served by one entry: where one hits, so does
/// the other, with the decision and endpoints turned around.
pub proof fn lemma_reverse_hit(fp: &FastPath, s: int, k: FlowKey)
    requires
        fp.wf(),
        0 <= s < fp.shards.len(),
        fp.cached(s, k) is Some,
    ensures
        fp.cached(s, reversed_flow(k)) is Some,
{
    lemma_canonical_reverse(k);
}

/// A flow that is not its own reverse is held turned around exactly when
/// its reverse is not.
pub proof fn lemma_flip_exclusive(k: FlowKey)
    requires
        k != reversed_flow(k),
    ensures
        is_flipped(k) <==> !is_flipped(reversed_flow(k)),
{
    assert(reversed_flow(reversed_flow(k)) == k);
    let r = reversed_flow(k);
    if ip_rank(k.src_ip) == ip_rank(r.src_ip) {
        assert(k.src_ip == r.src_ip);
    }
    if ip_rank(k.dst_ip) == ip_rank(r.dst_ip) {
        assert(k.dst_ip == r.dst_ip);
    }
}

/// A canonical key is its own canonical form.
pub proof fn lemma_canonical_idem(k: FlowKey)
    ensures
        canonical(canonical(k)) == canonical(k),
        is_flipped(k) ==> !is_flipped(canonical(k)),
{
    assert(reversed_flow(reversed_flow(k)) == k);
}

} // verus!
