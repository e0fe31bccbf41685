//! ACLs, IP groups and port ranges, and the expansion of an ACL into atoms.
use vstd::prelude::*;

use crate::lookup_key::{build_flow_field, flow_words, IpAddress, TAP_ANY};
use crate::matched_field::{lemma_pow2_mono, pow2, MatchedField};
use crate::policy::NpbAction;
use crate::table::{atom_view, atoms_view, Atom};

verus! {

/// Protocol value that stands for every protocol.
pub const PROTOCOL_ANY: u16 = 256;

/// An inclusive range of L4 ports.
#[derive(Clone, Copy, Debug, PartialEq, Eq, Structural)]
pub struct PortRange {
    pub min: u16,
    pub max: u16,
}

impl PortRange {
    pub fn new(min: u16, max: u16) -> (r: PortRange)
        ensures
            r.min == min && r.max == max,
    {
        PortRange { min, max }
    }
}

/// An aligned block of `size` ports from `base`: a port `p` is in it when
/// `p & mask == base`.
#[derive(Clone, Copy, Debug, PartialEq, Eq, Structural)]
pub struct PortBlock {
    pub base: u16,
    pub mask: u16,
    pub size: u32,
}

/// `blocks` cut `[lo, hi]` into consecutive aligned blocks whose size is a
/// power of two.
pub open spec fn partitions(blocks: Seq<PortBlock>, lo: int, hi: int) -> bool {
    &&& blocks.len() > 0
    &&& blocks[0].base == lo
    &&& blocks.last().base + blocks.last().size - 1 == hi
    &&& forall|t: int| 0 <= t < blocks.len() - 1 ==> #[trigger] blocks[t].base + blocks[t].size == blocks[t + 1].base
    &&& forall|t: int| 0 <= t < blocks.len() ==> block_ok(#[trigger] blocks[t])
}

/// A block of `2^k` ports (`k <= 16`), aligned to its size, with the mask
/// that selects it.
pub open spec fn block_ok(b: PortBlock) -> bool {
    &&& exists|k: nat| k <= 16 && b.size == pow2(k)
    &&& b.base as int % b.size as int == 0
    &&& b.mask as int == 0x10000 - b.size
}

/// The exponent of the largest aligned block at `cur` that ends by `hi`,
/// searched upwards from `2^k`.
pub open spec fn block_exp(cur: int, hi: int, k: nat) -> nat
    decreases 16 - k,
{
    if k < 16 && cur % (pow2(k + 1) as int) == 0 && cur + pow2(k + 1) - 1 <= hi {
        block_exp(cur, hi, k + 1)
    } else {
        k
    }
}

/// `[cur, hi]` cut greedily into the largest aligned blocks.
pub open spec fn greedy_blocks(cur: int, hi: int) -> Seq<PortBlock>
    decreases hi + 1 - cur,
{
    let size = pow2(block_exp(cur, hi, 0)) as int;
    if cur > hi || size < 1 || cur + size > hi + 1 {
        Seq::empty()
    } else {
        seq![PortBlock { base: cur as u16, mask: (0x10000 - size) as u16, size: size as u32 }] + greedy_blocks(cur + size, hi)
    }
}

/// Cuts a port range into aligned blocks, each as large as possible.
pub fn port_blocks(r: &PortRange) -> (out: Vec<PortBlock>)
    requires
        r.min <= r.max,
    ensures
        partitions(out@, r.min as int, r.max as int),
        out@ == greedy_blocks(r.min as int, r.max as int),
{
    let hi = r.max as u32;
    let mut cur: u32 = r.min as u32;
    let mut out: Vec<PortBlock> = Vec::new();
    while cur <= hi
        invariant
            r.min as u32 <= cur <= hi + 1,
            hi == r.max as u32,
            hi <= 0xffff,
            out.len() == 0 ==> cur == r.min,
            out.len() > 0 ==> out@[0].base == r.min,
            out.len() > 0 ==> out@.last().base + out@.last().size == cur,
            forall|t: int| 0 <= t < out.len() - 1 ==> #[trigger] out@[t].base + out@[t].size == out@[t + 1].base,
            forall|t: int| 0 <= t < out.len() ==> block_ok(#[trigger] out@[t]),
            greedy_blocks(r.min as int, r.max as int) == out@ + greedy_blocks(cur as int, hi as int),
        decreases hi + 1 - cur,
    {
        let mut size: u32 = 1;
        let ghost mut k: nat = 0;
        proof {
            lemma_pow2_mono(0, 16);
            crate::matched_field::lemma_pow2_values();
            assert(pow2(0) == 1);
        }
        while size < 0x10000 && cur % (size * 2) == 0 && cur + size * 2 - 1 <= hi
            invariant
                size == pow2(k),
                k <= 16,
                1 <= size <= 0x10000,
                cur % size == 0,
                cur + size - 1 <= hi,
                cur <= hi,
                hi <= 0xffff,
                block_exp(cur as int, hi as int, k) == block_exp(cur as int, hi as int, 0),
            decreases 0x10000 - size,
        {
            proof {
                if k >= 16 {
                    lemma_pow2_mono(16, k);
                    crate::matched_field::lemma_pow2_values();
                }
            }
            size = size * 2;
            proof {
                k = k + 1;
                lemma_pow2_mono(k, 16);
                crate::matched_field::lemma_pow2_values();
            }
        }
        proof {
            if k < 16 {
                lemma_pow2_mono(k, 15);
                crate::matched_field::lemma_pow2_values();
            }
            assert(block_exp(cur as int, hi as int, k) == k);
        }
        let b = PortBlock { base: cur as u16, mask: (0x10000 - size) as u16, size };
        let ghost prev = out@;
        out.push(b);
        proof {
            assert(greedy_blocks(cur as int, hi as int) == seq![b] + greedy_blocks(cur + size, hi as int));
            assert(out@ + greedy_blocks(cur + size, hi as int) =~= prev + (seq![b] + greedy_blocks(cur + size, hi as int)));
            assert(block_ok(b));
            assert forall|t: int| 0 <= t < out.len() - 1 implies #[trigger] out@[t].base + out@[t].size == out@[t + 1].base by {
                if t < prev.len() - 1 {
                    assert(out@[t] == prev[t] && out@[t + 1] == prev[t + 1]);
                } else {
                    assert(out@[t] == prev.last());
                }
            }
        }
        cur = cur + size;
    }
    assert(out@ + greedy_blocks(cur as int, hi as int) =~= out@);
    out
}

/// An IP network: an address and the length of its prefix.
#[derive(Clone, Copy, Debug, PartialEq, Eq, Structural)]
pub struct IpNet {
    pub addr: IpAddress,
    pub prefix_len: u8,
}

impl IpNet {
    pub fn new(addr: IpAddress, prefix_len: u8) -> (r: IpNet)
        ensures
            r.addr == addr && r.prefix_len == prefix_len,
    {
        IpNet { addr, prefix_len }
    }
}

/// A network of an IP group, with the group's EPC id.
#[derive(Clone, Copy, Debug, PartialEq, Eq, Structural)]
pub struct IpSegment {
    pub net: IpNet,
    pub epc_id: u16,
}

/// Every IPv4 address, in any EPC.
pub open spec fn ipv4_any() -> IpSegment {
    IpSegment { net: IpNet { addr: IpAddress::V4(0), prefix_len: 0 }, epc_id: 0 }
}

/// Every IPv6 address, in any EPC.
pub open spec fn ipv6_any() -> IpSegment {
    IpSegment { net: IpNet { addr: IpAddress::V6(0), prefix_len: 0 }, epc_id: 0 }
}

/// A named set of networks in one EPC.
#[derive(Clone, Debug, PartialEq, Eq)]
pub struct IpGroupData {
    pub id: u16,
    pub epc_id: u16,
    pub ips: Vec<IpNet>,
}

impl IpGroupData {
    pub fn new(id: u16, epc_id: u16, ips: Vec<IpNet>) -> (r: IpGroupData)
        ensures
            r.id == id && r.epc_id == epc_id && r.ips@ == ips@,
    {
        IpGroupData { id, epc_id, ips }
    }
}

/// A user rule: traffic from the source groups and ports to the destination
/// groups and ports, of a protocol (`PROTOCOL_ANY` for all) on a tap type
/// (`TAP_ANY` for all), gets the NPB actions. Empty group or port lists
/// stand for any.
#[derive(Clone, Debug, PartialEq, Eq)]
pub struct Acl {
    pub id: u32,
    pub tap_type: u16,
    pub src_groups: Vec<u32>,
    pub dst_groups: Vec<u32>,
    pub src_ports: Vec<PortRange>,
    pub dst_ports: Vec<PortRange>,
    pub proto: u16,
    pub npb_actions: Vec<NpbAction>,
}

impl Acl {
    /// An ACL on any tap type and protocol with one action.
    pub fn new(
        id: u32,
        src_groups: Vec<u32>,
        dst_groups: Vec<u32>,
        src_ports: Vec<PortRange>,
        dst_ports: Vec<PortRange>,
        action: NpbAction,
    ) -> (r: Acl)
        ensures
            r.id == id,
            r.tap_type == TAP_ANY,
            r.proto == PROTOCOL_ANY,
            r.src_groups@ == src_groups@ && r.dst_groups@ == dst_groups@,
            r.src_ports@ == src_ports@ && r.dst_ports@ == dst_ports@,
            r.npb_actions@ == seq![action],
    {
        Acl {
            id,
            tap_type: TAP_ANY,
            src_groups,
            dst_groups,
            src_ports,
            dst_ports,
            proto: PROTOCOL_ANY,
            npb_actions: vec![action],
        }
    }
}

/// The networks of one group id.
#[derive(Debug)]
pub struct GroupEntry {
    pub id: u16,
    pub segments: Vec<IpSegment>,
}

/// Whether the entries hold group `id`.
pub open spec fn has_group(entries: Seq<GroupEntry>, id: int) -> bool {
    exists|i: int| 0 <= i < entries.len() && entries[i].id == id
}

/// Whether some group of `groups` with a non-zero `id` has a network.
pub open spec fn group_defined(groups: Seq<IpGroupData>, id: int) -> bool {
    id != 0 && exists|i: int| 0 <= i < groups.len() && (#[trigger] groups[i]).id == id && groups[i].ips.len() > 0
}

/// Position of the first entry of group `id` from `start` on.
pub open spec fn group_index(entries: Seq<GroupEntry>, id: int, start: int) -> Option<int>
    decreases entries.len() - start,
{
    if start < 0 || start >= entries.len() {
        None
    } else if entries[start].id == id {
        Some(start)
    } else {
        group_index(entries, id, start + 1)
    }
}

/// Position of the entry of group `id`.
pub fn find_group(entries: &Vec<GroupEntry>, id: u16) -> (r: Option<usize>)
    ensures
        r is Some <==> has_group(entries@, id as int),
        r is Some ==> r->0 < entries.len() && entries@[r->0 as int].id == id,
        r is Some ==> group_index(entries@, id as int, 0) == Some(r->0 as int),
        r is None ==> group_index(entries@, id as int, 0) is None,
{
    let mut i: usize = 0;
    while i < entries.len()
        invariant
            i <= entries.len(),
            forall|j: int| 0 <= j < i ==> entries@[j].id != id,
            group_index(entries@, id as int, 0) == group_index(entries@, id as int, i as int),
        decreases entries.len() - i,
    {
        if entries[i].id == id {
            return Some(i);
        }
        i += 1;
    }
    None
}

/// The networks that the first `n` groups give group `id`, each tagged with
/// its group's EPC id; group 0 gets none.
pub open spec fn group_nets(groups: Seq<IpGroupData>, id: int, n: nat) -> Seq<IpSegment>
    decreases n,
{
    if n == 0 {
        Seq::empty()
    } else {
        let g = groups[n - 1];
        let prev = group_nets(groups, id, (n - 1) as nat);
        if id != 0 && g.id == id {
            prev + tagged_nets(g)
        } else {
            prev
        }
    }
}

/// The networks of a group, tagged with its EPC id.
pub open spec fn tagged_nets(g: IpGroupData) -> Seq<IpSegment> {
    g.ips@.map_values(|ip: IpNet| IpSegment { net: ip, epc_id: g.epc_id })
}

/// No two entries share an id.
pub open spec fn unique_ids(entries: Seq<GroupEntry>) -> bool {
    forall|i: int, j: int| 0 <= i < j < entries.len() ==> (#[trigger] entries[i]).id != (#[trigger] entries[j]).id
}

proof fn lemma_group_index_ids(a: Seq<GroupEntry>, b: Seq<GroupEntry>, id: int, start: int)
    requires
        a.len() == b.len(),
        forall|i: int| 0 <= i < a.len() ==> (#[trigger] a[i]).id == b[i].id,
    ensures
        group_index(a, id, start) == group_index(b, id, start),
    decreases a.len() - start,
{
    if 0 <= start < a.len() && a[start].id != id {
        lemma_group_index_ids(a, b, id, start + 1);
    }
}

proof fn lemma_group_index_push(a: Seq<GroupEntry>, x: GroupEntry, id: int, start: int)
    requires
        0 <= start <= a.len(),
    ensures
        group_index(a.push(x), id, start) == if group_index(a, id, start) is Some {
            group_index(a, id, start)
        } else if x.id == id {
            Some(a.len() as int)
        } else {
            None
        },
    decreases a.len() - start,
{
    if start < a.len() && a[start].id != id {
        lemma_group_index_push(a, x, id, start + 1);
        assert(a.push(x)[start] == a[start]);
    } else if start < a.len() {
        assert(a.push(x)[start] == a[start]);
    } else {
        assert(a.push(x)[start] == x);
        assert(group_index(a.push(x), id, start + 1) is None);
        assert(group_index(a, id, start) is None);
    }
}

proof fn lemma_group_index_found(a: Seq<GroupEntry>, id: int, start: int)
    ensures
        group_index(a, id, start) is Some ==> ({
            let i = group_index(a, id, start)->0;
            0 <= i < a.len() && a[i].id == id
        }),
    decreases a.len() - start,
{
    if 0 <= start < a.len() && a[start].id != id {
        lemma_group_index_found(a, id, start + 1);
    }
}

/// Gathers the networks of each non-zero group id, tagged with the group's
/// EPC id.
pub fn generate_group_ip_map(groups: &Vec<IpGroupData>) -> (r: Vec<GroupEntry>)
    ensures
        forall|id: int| 0 <= id <= u16::MAX ==> (has_group(r@, id) <==> group_defined(groups@, id)),
        forall|id: int| 0 <= id <= u16::MAX ==> #[trigger] group_segments(r@, id) == group_nets(groups@, id, groups.len() as nat),
{
    let mut entries: Vec<GroupEntry> = Vec::new();
    let mut g: usize = 0;
    while g < groups.len()
        invariant
            g <= groups.len(),
            forall|id: int| 0 <= id <= u16::MAX ==> (has_group(entries@, id) <==> group_defined(groups@.take(g as int), id)),
            forall|id: int| 0 <= id <= u16::MAX ==> #[trigger] group_segments(entries@, id) == group_nets(groups@, id, g as nat),
            unique_ids(entries@),
        decreases groups.len() - g,
    {
        let group = &groups[g];
        let ghost before = entries@;
        let ghost gid = group.id as int;
        if group.id != 0 {
            let mut t: usize = 0;
            while t < group.ips.len()
                invariant
                    t <= group.ips.len(),
                    group == &groups@[g as int],
                    gid == group.id as int,
                    group.id != 0,
                    t > 0 ==> has_group(entries@, gid),
                    forall|id: int| 0 <= id <= u16::MAX && id != gid ==> (has_group(entries@, id) <==> has_group(before, id)),
                    t == 0 ==> entries@ == before,
                    unique_ids(entries@),
                    forall|id: int| 0 <= id <= u16::MAX && id != gid ==> #[trigger] group_segments(entries@, id) == group_nets(groups@, id, g as nat),
                    group_segments(entries@, gid) == group_nets(groups@, gid, g as nat) + tagged_nets(*group).take(t as int),
                decreases group.ips.len() - t,
            {
                let seg = IpSegment { net: group.ips[t], epc_id: group.epc_id };
                let ghost pre = entries@;
                proof {
                    assert(tagged_nets(*group).take(t + 1) =~= tagged_nets(*group).take(t as int).push(seg));
                }
                match find_group(&entries, group.id) {
                    Some(e) => {
                        entries[e].segments.push(seg);
                        proof {
                            assert forall|i: int| 0 <= i < pre.len() implies (#[trigger] pre[i]).id == entries@[i].id by {
                                if i != e {
                                    assert(entries@[i] == pre[i]);
                                }
                            }
                            assert forall|id: int| #[trigger] has_group(entries@, id) == has_group(pre, id) by {
                                if has_group(pre, id) {
                                    let i = choose|i: int| 0 <= i < pre.len() && pre[i].id == id;
                                    assert(entries@[i].id == id);
                                }
                                if has_group(entries@, id) {
                                    let i = choose|i: int| 0 <= i < entries@.len() && entries@[i].id == id;
                                    assert(pre[i].id == id);
                                }
                            }
                            assert forall|i: int, j: int| 0 <= i < j < entries@.len() implies (#[trigger] entries@[i]).id != (#[trigger] entries@[j]).id by {
                                assert(pre[i].id != pre[j].id);
                            }
                            assert forall|id: int| 0 <= id <= u16::MAX implies #[trigger] group_segments(entries@, id) == if id == gid {
                                group_segments(pre, id).push(seg)
                            } else {
                                group_segments(pre, id)
                            } by {
                                lemma_group_index_ids(entries@, pre, id, 0);
                                lemma_group_index_found(pre, id, 0);
                                if let Some(i) = group_index(pre, id, 0) {
                                    if i != e {
                                        assert(entries@[i] == pre[i]);
                                    }
                                }
                            }
                            assert(group_segments(entries@, gid) =~= group_nets(groups@, gid, g as nat) + tagged_nets(*group).take(t + 1));
                        }
                    },
                    None => {
                        entries.push(GroupEntry { id: group.id, segments: vec![seg] });
                        proof {
                            assert(entries@ == pre.push(entries@[pre.len() as int]));
                            assert(entries@[entries.len() - 1].id == group.id);
                            assert forall|id: int| id != gid implies #[trigger] has_group(entries@, id) == has_group(pre, id) by {
                                if has_group(pre, id) {
                                    let i = choose|i: int| 0 <= i < pre.len() && pre[i].id == id;
                                    assert(entries@[i].id == id);
                                }
                                if has_group(entries@, id) {
                                    let i = choose|i: int| 0 <= i < entries@.len() && entries@[i].id == id;
                                    assert(i < pre.len());
                                    assert(pre[i].id == id);
                                }
                            }
                            assert forall|i: int, j: int| 0 <= i < j < entries@.len() implies (#[trigger] entries@[i]).id != (#[trigger] entries@[j]).id by {
                                if j == pre.len() {
                                    assert(entries@[i] == pre[i]);
                                    if pre[i].id == group.id {
                                        assert(has_group(pre, gid));
                                    }
                                } else {
                                    assert(pre[i].id != pre[j].id);
                                }
                            }
                            assert forall|id: int| 0 <= id <= u16::MAX implies #[trigger] group_segments(entries@, id) == if id == gid {
                                seq![seg]
                            } else {
                                group_segments(pre, id)
                            } by {
                                lemma_group_index_push(pre, entries@[pre.len() as int], id, 0);
                                lemma_group_index_found(pre, id, 0);
                                if let Some(i) = group_index(pre, id, 0) {
                                    assert(entries@[i] == pre[i]);
                                    if id == gid {
                                        assert(has_group(pre, gid));
                                    }
                                }
                            }
                            assert(t == 0);
                            assert(group_segments(pre, gid) == Seq::<IpSegment>::empty()) by {
                                lemma_group_index_push(pre, entries@[pre.len() as int], gid, 0);
                            }
                            assert(group_segments(entries@, gid) =~= group_nets(groups@, gid, g as nat) + tagged_nets(*group).take(t + 1));
                        }
                    },
                }
                t += 1;
            }
            proof {
                assert(tagged_nets(*group).take(group.ips.len() as int) =~= tagged_nets(*group));
            }
        }
        proof {
            let tk = groups@.take(g as int);
            let tk1 = groups@.take(g + 1);
            assert(tk1 =~= tk.push(groups@[g as int]));
            let gg = groups@[g as int];
            assert(tk1[g as int] == gg);
            assert forall|id: int| 0 <= id <= u16::MAX implies (has_group(entries@, id) <==> group_defined(tk1, id)) by {
                assert(group_defined(tk1, id) <==> (group_defined(tk, id) || (id != 0 && gg.id == id && gg.ips.len() > 0))) by {
                    if group_defined(tk1, id) {
                        let i = choose|i: int| 0 <= i < tk1.len() && (#[trigger] tk1[i]).id == id && tk1[i].ips.len() > 0;
                        if i < tk.len() {
                            assert(tk[i] == tk1[i]);
                        }
                    }
                    if group_defined(tk, id) {
                        let i = choose|i: int| 0 <= i < tk.len() && (#[trigger] tk[i]).id == id && tk[i].ips.len() > 0;
                        assert(tk1[i] == tk[i]);
                    }
                }
                if id == gg.id && gg.id != 0 {
                    if gg.ips.len() > 0 {
                        assert(has_group(entries@, id));
                    } else {
                        assert(entries@ == before);
                    }
                } else {
                    assert(has_group(entries@, id) == has_group(before, id));
                }
            }
            assert forall|id: int| 0 <= id <= u16::MAX implies #[trigger] group_segments(entries@, id) == group_nets(groups@, id, (g + 1) as nat) by {
                if id == gg.id && gg.id != 0 {
                    if gg.ips.len() == 0 {
                        assert(tagged_nets(gg) =~= Seq::<IpSegment>::empty());
                        assert(group_nets(groups@, id, g as nat) + tagged_nets(gg) =~= group_nets(groups@, id, g as nat));
                    }
                }
            }
        }
        g += 1;
    }
    assert(groups@.take(groups.len() as int) =~= groups@);
    entries
}

/// `2^n` for `n <= 127`.
fn pow2_u128(n: u32) -> (r: u128)
    requires
        n <= 127,
    ensures
        r as nat == pow2(n as nat),
{
    let mut r: u128 = 1;
    let mut i: u32 = 0;
    proof {
        lemma_pow2_mono(0, 127);
        assert(pow2(0) == 1);
    }
    while i < n
        invariant
            i <= n <= 127,
            r as nat == pow2(i as nat),
            r as nat <= pow2(127),
        decreases n - i,
    {
        proof {
            lemma_pow2_mono((i + 1) as nat, 127);
            lemma_pow2_127();
        }
        r = r * 2;
        i += 1;
    }
    r
}

proof fn lemma_pow2_127()
    ensures
        pow2(127) == 0x8000_0000_0000_0000_0000_0000_0000_0000,
        pow2(32) == 0x1_0000_0000,
{
    crate::matched_field::lemma_pow2_agree(127);
    crate::matched_field::lemma_pow2_agree(64);
    crate::matched_field::lemma_pow2_agree(63);
    crate::matched_field::lemma_pow2_agree(32);
    vstd::arithmetic::power2::lemma2_to64();
    vstd::arithmetic::power2::lemma2_to64_rest();
    vstd::arithmetic::power2::lemma_pow2_adds(64, 63);
}

/// The network part of an address of `bits` bits under a prefix of `len`
/// bits, and the mask of the prefix.
pub open spec fn prefix_parts(addr: int, bits: int, len: int) -> (int, int) {
    if len <= 0 {
        (0, 0)
    } else if len >= bits {
        (addr, pow2(bits as nat) - 1)
    } else {
        let unit = pow2((bits - len) as nat) as int;
        (addr - addr % unit, pow2(bits as nat) - unit)
    }
}

/// The value and mask addresses that a segment contributes to an atom.
pub open spec fn segment_parts(s: IpSegment) -> (IpAddress, IpAddress) {
    match s.net.addr {
        IpAddress::V4(a) => {
            let (v, m) = prefix_parts(a as int, 32, s.net.prefix_len as int);
            (IpAddress::V4(v as u32), IpAddress::V4(m as u32))
        },
        IpAddress::V6(a) => {
            let (v, m) = prefix_parts(a as int, 128, s.net.prefix_len as int);
            (IpAddress::V6(v as u128), IpAddress::V6(m as u128))
        },
    }
}

fn v4_value_mask(a: u32, prefix_len: u8) -> (r: (IpAddress, IpAddress))
    ensures
        r == segment_parts(IpSegment { net: IpNet { addr: IpAddress::V4(a), prefix_len }, epc_id: 0 }),
{
    let len = prefix_len as u32;
    if len == 0 {
        (IpAddress::V4(0), IpAddress::V4(0))
    } else if len >= 32 {
        proof {
            lemma_pow2_127();
        }
        (IpAddress::V4(a), IpAddress::V4(0xffff_ffff))
    } else {
        let unit = pow2_u128(32 - len);
        proof {
            lemma_pow2_127();
            lemma_pow2_mono((32 - len) as nat, 32);
            crate::matched_field::lemma_pow2_pos((32 - len) as nat);
            assert((a as u128) % unit <= a as u128) by (nonlinear_arith)
                requires
                    unit > 0,
            ;
        }
        let v = (a as u128) - (a as u128) % unit;
        let m = 0x1_0000_0000u128 - unit;
        (IpAddress::V4(v as u32), IpAddress::V4(m as u32))
    }
}

fn v6_value_mask(a: u128, prefix_len: u8) -> (r: (IpAddress, IpAddress))
    ensures
        r == segment_parts(IpSegment { net: IpNet { addr: IpAddress::V6(a), prefix_len }, epc_id: 0 }),
{
    let len = prefix_len as u32;
    if len == 0 {
        (IpAddress::V6(0), IpAddress::V6(0))
    } else if len >= 128 {
        proof {
            lemma_pow2_127();
            assert(pow2(128) == 2 * pow2(127));
        }
        (IpAddress::V6(a), IpAddress::V6(u128::MAX))
    } else {
        let unit = pow2_u128(128 - len);
        proof {
            lemma_pow2_127();
            assert(pow2(128) == 2 * pow2(127));
            crate::matched_field::lemma_pow2_pos((128 - len) as nat);
            lemma_pow2_mono((128 - len) as nat, 127);
            assert(a % unit <= a) by (nonlinear_arith)
                requires
                    unit > 0,
            ;
        }
        let v = a - a % unit;
        let m = (u128::MAX - unit) + 1;
        (IpAddress::V6(v), IpAddress::V6(m))
    }
}

fn segment_value_mask(s: &IpSegment) -> (r: (IpAddress, IpAddress))
    ensures
        r == segment_parts(*s),
{
    match s.net.addr {
        IpAddress::V4(a) => v4_value_mask(a, s.net.prefix_len),
        IpAddress::V6(a) => v6_value_mask(a, s.net.prefix_len),
    }
}

/// The field and mask words of the atom for one combination of an ACL's
/// parts.
pub open spec fn atom_words(
    s: IpSegment,
    d: IpSegment,
    sp: PortBlock,
    dp: PortBlock,
    proto: u16,
    tap: u16,
) -> (Seq<u64>, Seq<u64>) {
    let (sv, sm) = segment_parts(s);
    let (dv, dm) = segment_parts(d);
    let (pv, pm) = if proto < 256 { (proto as u8, 0xffu8) } else { (0u8, 0u8) };
    let (tv, tm) = if tap != TAP_ANY { (tap, 0xffffu16) } else { (0u16, 0u16) };
    let (se, sem) = if s.epc_id != 0 { (s.epc_id, 0xffffu16) } else { (0u16, 0u16) };
    let (de, dem) = if d.epc_id != 0 { (d.epc_id, 0xffffu16) } else { (0u16, 0u16) };
    (
        flow_words(se, de, sv, dv, sp.base, dp.base, pv, tv),
        flow_words(sem, dem, sm, dm, sp.mask, dp.mask, pm, tm),
    )
}

/// Builds the atom of one combination, for the ACL at position `acl`.
pub fn build_atom(
    s: &IpSegment,
    d: &IpSegment,
    sp: &PortBlock,
    dp: &PortBlock,
    proto: u16,
    tap: u16,
    acl: usize,
) -> (r: Atom)
    ensures
        (r.field.words@, r.mask.words@) == atom_words(*s, *d, *sp, *dp, proto, tap),
        r.acl == acl,
{
    let (sv, sm) = segment_value_mask(s);
    let (dv, dm) = segment_value_mask(d);
    let (pv, pm) = if proto < 256 { (proto as u8, 0xffu8) } else { (0u8, 0u8) };
    let (tv, tm) = if tap != TAP_ANY { (tap, 0xffffu16) } else { (0u16, 0u16) };
    let (se, sem) = if s.epc_id != 0 { (s.epc_id, 0xffffu16) } else { (0u16, 0u16) };
    let (de, dem) = if d.epc_id != 0 { (d.epc_id, 0xffffu16) } else { (0u16, 0u16) };
    let field = build_flow_field(se, de, sv, dv, sp.base, dp.base, pv, tv);
    let mask = build_flow_field(sem, dem, sm, dm, sp.mask, dp.mask, pm, tm);
    Atom { field, mask, acl }
}


/// The block that stands for "any port".
pub open spec fn any_port_block() -> PortBlock {
    PortBlock { base: 0, mask: 0, size: 0x10000 }
}

/// The blocks of a range; none for a range whose ends are swapped.
pub open spec fn range_blocks(r: PortRange) -> Seq<PortBlock> {
    if r.min <= r.max {
        greedy_blocks(r.min as int, r.max as int)
    } else {
        Seq::empty()
    }
}

/// The blocks of the first `n` ranges, in order.
pub open spec fn ranges_blocks(ports: Seq<PortRange>, n: nat) -> Seq<PortBlock>
    decreases n,
{
    if n == 0 {
        Seq::empty()
    } else {
        ranges_blocks(ports, (n - 1) as nat) + range_blocks(ports[n - 1])
    }
}

/// The port blocks of an ACL side: any port when it lists no range.
pub open spec fn side_blocks(ports: Seq<PortRange>) -> Seq<PortBlock> {
    if ports.len() == 0 {
        seq![any_port_block()]
    } else {
        ranges_blocks(ports, ports.len())
    }
}

/// The networks of group `id`: those of its first entry.
pub open spec fn group_segments(map: Seq<GroupEntry>, id: int) -> Seq<IpSegment> {
    match group_index(map, id, 0) {
        Some(i) => map[i].segments@,
        None => Seq::empty(),
    }
}

/// The key under which a group id is looked up.
pub open spec fn group_key(id: u32) -> int {
    (id as u16) as int
}

/// The networks of the first `n` group ids, in order.
pub open spec fn ids_segments(ids: Seq<u32>, map: Seq<GroupEntry>, n: nat) -> Seq<IpSegment>
    decreases n,
{
    if n == 0 {
        Seq::empty()
    } else {
        ids_segments(ids, map, (n - 1) as nat) + group_segments(map, group_key(ids[n - 1]))
    }
}

/// The networks of an ACL side: every address when it names no group.
pub open spec fn side_segments(ids: Seq<u32>, map: Seq<GroupEntry>) -> Seq<IpSegment> {
    if ids.len() == 0 {
        seq![ipv4_any(), ipv6_any()]
    } else {
        ids_segments(ids, map, ids.len())
    }
}

/// An atom as values: field words, mask words, position of its ACL.
pub open spec fn atom_model(s: IpSegment, d: IpSegment, sp: PortBlock, dp: PortBlock, proto: u16, tap: u16, pos: usize) -> (Seq<u64>, Seq<u64>, usize) {
    (atom_words(s, d, sp, dp, proto, tap).0, atom_words(s, d, sp, dp, proto, tap).1, pos)
}

/// Atoms of a source segment, destination segment and source block, one
/// per destination block among the first `n`.
pub open spec fn atoms_by_dst_block(s: IpSegment, d: IpSegment, sp: PortBlock, dps: Seq<PortBlock>, proto: u16, tap: u16, pos: usize, n: nat) -> Seq<(Seq<u64>, Seq<u64>, usize)>
    decreases n,
{
    if n == 0 {
        Seq::empty()
    } else {
        atoms_by_dst_block(s, d, sp, dps, proto, tap, pos, (n - 1) as nat).push(atom_model(s, d, sp, dps[n - 1], proto, tap, pos))
    }
}

/// Atoms of a segment pair, for the first `n` source blocks.
pub open spec fn atoms_by_src_block(s: IpSegment, d: IpSegment, sps: Seq<PortBlock>, dps: Seq<PortBlock>, proto: u16, tap: u16, pos: usize, n: nat) -> Seq<(Seq<u64>, Seq<u64>, usize)>
    decreases n,
{
    if n == 0 {
        Seq::empty()
    } else {
        atoms_by_src_block(s, d, sps, dps, proto, tap, pos, (n - 1) as nat) + atoms_by_dst_block(s, d, sps[n - 1], dps, proto, tap, pos, dps.len())
    }
}

/// Whether a segment is an IPv6 network.
pub open spec fn is_v6(s: IpSegment) -> bool {
    s.net.addr is V6
}

/// Atoms of a source segment of family `six`, for the first `n`
/// destination segments (those of another family give none).
pub open spec fn atoms_by_dst(s: IpSegment, dsts: Seq<IpSegment>, sps: Seq<PortBlock>, dps: Seq<PortBlock>, proto: u16, tap: u16, pos: usize, six: bool, n: nat) -> Seq<(Seq<u64>, Seq<u64>, usize)>
    decreases n,
{
    if n == 0 {
        Seq::empty()
    } else {
        let d = dsts[n - 1];
        atoms_by_dst(s, dsts, sps, dps, proto, tap, pos, six, (n - 1) as nat) + if is_v6(s) == six && is_v6(d) == six {
            atoms_by_src_block(s, d, sps, dps, proto, tap, pos, sps.len())
        } else {
            Seq::empty()
        }
    }
}

/// Atoms of family `six` for the first `n` source segments.
pub open spec fn atoms_by_src(srcs: Seq<IpSegment>, dsts: Seq<IpSegment>, sps: Seq<PortBlock>, dps: Seq<PortBlock>, proto: u16, tap: u16, pos: usize, six: bool, n: nat) -> Seq<(Seq<u64>, Seq<u64>, usize)>
    decreases n,
{
    if n == 0 {
        Seq::empty()
    } else {
        atoms_by_src(srcs, dsts, sps, dps, proto, tap, pos, six, (n - 1) as nat) + atoms_by_dst(srcs[n - 1], dsts, sps, dps, proto, tap, pos, six, dsts.len())
    }
}

/// The atoms of family `six` (IPv6 when set) that `acl`, installed at
/// position `pos`, expands to with the groups of `map`: one per source
/// network, destination network of the same family, source port block and
/// destination port block, in that nesting order.
pub open spec fn acl_atoms(acl: Acl, map: Seq<GroupEntry>, pos: usize, six: bool) -> Seq<(Seq<u64>, Seq<u64>, usize)> {
    let srcs = side_segments(acl.src_groups@, map);
    let dsts = side_segments(acl.dst_groups@, map);
    atoms_by_src(srcs, dsts, side_blocks(acl.src_ports@), side_blocks(acl.dst_ports@), acl.proto, acl.tap_type, pos, six, srcs.len())
}

/// Number of words of a matched field of family `six`.
pub open spec fn family_words(six: bool) -> nat {
    if six {
        6
    } else {
        3
    }
}

/// Every atom has the words of family `six`.
pub open spec fn words_of_family(v: Seq<Atom>, six: bool) -> bool {
    forall|i: int| 0 <= i < v.len() ==> (#[trigger] v[i]).field.words.len() == family_words(six) && v[i].mask.words.len() == family_words(six)
}

fn blocks_of(ports: &Vec<PortRange>) -> (r: Vec<PortBlock>)
    ensures
        r@ == side_blocks(ports@),
{
    if ports.len() == 0 {
        return vec![PortBlock { base: 0, mask: 0, size: 0x10000 }];
    }
    let mut out: Vec<PortBlock> = Vec::new();
    let mut i: usize = 0;
    while i < ports.len()
        invariant
            i <= ports.len(),
            out@ == ranges_blocks(ports@, i as nat),
        decreases ports.len() - i,
    {
        let ghost before = out@;
        if ports[i].min <= ports[i].max {
            let blocks = port_blocks(&ports[i]);
            let mut j: usize = 0;
            while j < blocks.len()
                invariant
                    j <= blocks.len(),
                    out@ == before + blocks@.take(j as int),
                decreases blocks.len() - j,
            {
                out.push(blocks[j]);
                j += 1;
                assert(out@ =~= before + blocks@.take(j as int));
            }
            assert(blocks@.take(blocks.len() as int) =~= blocks@);
        } else {
            assert(before + range_blocks(ports@[i as int]) =~= before);
        }
        i += 1;
    }
    out
}

fn segments_of(ids: &Vec<u32>, map: &Vec<GroupEntry>) -> (r: Vec<IpSegment>)
    ensures
        r@ == side_segments(ids@, map@),
{
    let mut out: Vec<IpSegment> = Vec::new();
    if ids.len() == 0 {
        out.push(IpSegment { net: IpNet { addr: IpAddress::V4(0), prefix_len: 0 }, epc_id: 0 });
        out.push(IpSegment { net: IpNet { addr: IpAddress::V6(0), prefix_len: 0 }, epc_id: 0 });
        assert(out@ =~= seq![ipv4_any(), ipv6_any()]);
        return out;
    }
    let mut i: usize = 0;
    while i < ids.len()
        invariant
            i <= ids.len(),
            out@ == ids_segments(ids@, map@, i as nat),
        decreases ids.len() - i,
    {
        let ghost before = out@;
        if let Some(e) = find_group(map, ids[i] as u16) {
            let segs = &map[e].segments;
            let mut j: usize = 0;
            while j < segs.len()
                invariant
                    j <= segs.len(),
                    out@ == before + segs@.take(j as int),
                decreases segs.len() - j,
            {
                out.push(segs[j]);
                j += 1;
                assert(out@ =~= before + segs@.take(j as int));
            }
            assert(segs@.take(segs.len() as int) =~= segs@);
        } else {
            assert(before + group_segments(map@, group_key(ids@[i as int])) =~= before);
        }
        i += 1;
    }
    out
}

fn push_by_dst_block(
    s: &IpSegment,
    d: &IpSegment,
    sp: &PortBlock,
    dps: &Vec<PortBlock>,
    proto: u16,
    tap: u16,
    pos: usize,
    out: &mut Vec<Atom>,
)
    requires
        is_v6(*s) == is_v6(*d),
    ensures
        atoms_view(final(out)@) == atoms_view(old(out)@) + atoms_by_dst_block(*s, *d, *sp, dps@, proto, tap, pos, dps.len() as nat),
        final(out)@.len() >= old(out)@.len(),
        words_of_family(old(out)@, is_v6(*s)) ==> words_of_family(final(out)@, is_v6(*s)),
{
    let ghost start = atoms_view(out@);
    let mut e: usize = 0;
    while e < dps.len()
        invariant
            is_v6(*s) == is_v6(*d),
            e <= dps.len(),
            out@.len() >= old(out)@.len(),
            atoms_view(out@) == start + atoms_by_dst_block(*s, *d, *sp, dps@, proto, tap, pos, e as nat),
            start == atoms_view(old(out)@),
            words_of_family(old(out)@, is_v6(*s)) ==> words_of_family(out@, is_v6(*s)),
        decreases dps.len() - e,
    {
        let atom = build_atom(s, d, sp, &dps[e], proto, tap, pos);
        let ghost before = out@;
        out.push(atom);
        proof {
            assert(atoms_view(out@) =~= atoms_view(before).push(atom_view(atom)));
            assert(start + atoms_by_dst_block(*s, *d, *sp, dps@, proto, tap, pos, (e + 1) as nat) =~= (start + atoms_by_dst_block(*s, *d, *sp, dps@, proto, tap, pos, e as nat)).push(atom_model(*s, *d, *sp, dps@[e as int], proto, tap, pos)));
            if words_of_family(old(out)@, is_v6(*s)) {
                assert forall|i: int| 0 <= i < out@.len() implies (#[trigger] out@[i]).field.words.len() == family_words(is_v6(*s)) && out@[i].mask.words.len() == family_words(is_v6(*s)) by {
                    if i < before.len() {
                        assert(out@[i] == before[i]);
                    }
                }
            }
        }
        e += 1;
    }
}

fn push_by_src_block(
    s: &IpSegment,
    d: &IpSegment,
    sps: &Vec<PortBlock>,
    dps: &Vec<PortBlock>,
    proto: u16,
    tap: u16,
    pos: usize,
    out: &mut Vec<Atom>,
)
    requires
        is_v6(*s) == is_v6(*d),
    ensures
        atoms_view(final(out)@) == atoms_view(old(out)@) + atoms_by_src_block(*s, *d, sps@, dps@, proto, tap, pos, sps.len() as nat),
        words_of_family(old(out)@, is_v6(*s)) ==> words_of_family(final(out)@, is_v6(*s)),
{
    let ghost start = atoms_view(out@);
    let mut c: usize = 0;
    while c < sps.len()
        invariant
            is_v6(*s) == is_v6(*d),
            c <= sps.len(),
            atoms_view(out@) == start + atoms_by_src_block(*s, *d, sps@, dps@, proto, tap, pos, c as nat),
            start == atoms_view(old(out)@),
            words_of_family(old(out)@, is_v6(*s)) ==> words_of_family(out@, is_v6(*s)),
        decreases sps.len() - c,
    {
        let ghost before = atoms_view(out@);
        push_by_dst_block(s, d, &sps[c], dps, proto, tap, pos, out);
        proof {
            assert(start + atoms_by_src_block(*s, *d, sps@, dps@, proto, tap, pos, (c + 1) as nat) =~= before + atoms_by_dst_block(*s, *d, sps@[c as int], dps@, proto, tap, pos, dps.len() as nat));
        }
        c += 1;
    }
}

fn push_by_dst(
    s: &IpSegment,
    dsts: &Vec<IpSegment>,
    sps: &Vec<PortBlock>,
    dps: &Vec<PortBlock>,
    proto: u16,
    tap: u16,
    pos: usize,
    six: bool,
    out: &mut Vec<Atom>,
)
    ensures
        atoms_view(final(out)@) == atoms_view(old(out)@) + atoms_by_dst(*s, dsts@, sps@, dps@, proto, tap, pos, six, dsts.len() as nat),
        words_of_family(old(out)@, six) ==> words_of_family(final(out)@, six),
{
    let ghost start = atoms_view(out@);
    let mut b: usize = 0;
    while b < dsts.len()
        invariant
            b <= dsts.len(),
            atoms_view(out@) == start + atoms_by_dst(*s, dsts@, sps@, dps@, proto, tap, pos, six, b as nat),
            start == atoms_view(old(out)@),
            words_of_family(old(out)@, six) ==> words_of_family(out@, six),
        decreases dsts.len() - b,
    {
        let ghost before = atoms_view(out@);
        let d = &dsts[b];
        if s.net.addr.is_ipv6() == six && d.net.addr.is_ipv6() == six {
            push_by_src_block(s, d, sps, dps, proto, tap, pos, out);
            proof {
                assert(start + atoms_by_dst(*s, dsts@, sps@, dps@, proto, tap, pos, six, (b + 1) as nat) =~= before + atoms_by_src_block(*s, *d, sps@, dps@, proto, tap, pos, sps.len() as nat));
            }
        } else {
            proof {
                assert(start + atoms_by_dst(*s, dsts@, sps@, dps@, proto, tap, pos, six, (b + 1) as nat) =~= before);
            }
        }
        b += 1;
    }
}

/// Appends the atoms of `acl`, installed at position `pos`, to `v4` and
/// `v6`, as `acl_atoms` states them.
pub fn expand_acl(acl: &Acl, map: &Vec<GroupEntry>, pos: usize, v4: &mut Vec<Atom>, v6: &mut Vec<Atom>)
    ensures
        atoms_view(final(v4)@) == atoms_view(old(v4)@) + acl_atoms(*acl, map@, pos, false),
        atoms_view(final(v6)@) == atoms_view(old(v6)@) + acl_atoms(*acl, map@, pos, true),
        words_of_family(old(v4)@, false) ==> words_of_family(final(v4)@, false),
        words_of_family(old(v6)@, true) ==> words_of_family(final(v6)@, true),
{
    let srcs = segments_of(&acl.src_groups, map);
    let dsts = segments_of(&acl.dst_groups, map);
    let sps = blocks_of(&acl.src_ports);
    let dps = blocks_of(&acl.dst_ports);
    let ghost s4 = atoms_view(v4@);
    let ghost s6 = atoms_view(v6@);
    let mut a: usize = 0;
    while a < srcs.len()
        invariant
            a <= srcs.len(),
            srcs@ == side_segments(acl.src_groups@, map@),
            dsts@ == side_segments(acl.dst_groups@, map@),
            sps@ == side_blocks(acl.src_ports@),
            dps@ == side_blocks(acl.dst_ports@),
            s4 == atoms_view(old(v4)@),
            s6 == atoms_view(old(v6)@),
            atoms_view(v4@) == s4 + atoms_by_src(srcs@, dsts@, sps@, dps@, acl.proto, acl.tap_type, pos, false, a as nat),
            atoms_view(v6@) == s6 + atoms_by_src(srcs@, dsts@, sps@, dps@, acl.proto, acl.tap_type, pos, true, a as nat),
            words_of_family(old(v4)@, false) ==> words_of_family(v4@, false),
            words_of_family(old(v6)@, true) ==> words_of_family(v6@, true),
        decreases srcs.len() - a,
    {
        let ghost b4 = atoms_view(v4@);
        let ghost b6 = atoms_view(v6@);
        push_by_dst(&srcs[a], &dsts, &sps, &dps, acl.proto, acl.tap_type, pos, false, v4);
        push_by_dst(&srcs[a], &dsts, &sps, &dps, acl.proto, acl.tap_type, pos, true, v6);
        proof {
            assert(s4 + atoms_by_src(srcs@, dsts@, sps@, dps@, acl.proto, acl.tap_type, pos, false, (a + 1) as nat) =~= b4 + atoms_by_dst(srcs@[a as int], dsts@, sps@, dps@, acl.proto, acl.tap_type, pos, false, dsts.len() as nat));
            assert(s6 + atoms_by_src(srcs@, dsts@, sps@, dps@, acl.proto, acl.tap_type, pos, true, (a + 1) as nat) =~= b6 + atoms_by_dst(srcs@[a as int], dsts@, sps@, dps@, acl.proto, acl.tap_type, pos, true, dsts.len() as nat));
        }
        a += 1;
    }
}

} // verus!
