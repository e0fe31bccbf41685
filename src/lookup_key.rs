//! The per-packet lookup key, the endpoints resolved for it, and the matched
//! fields built from the two.
use vstd::prelude::*;

use crate::matched_field::MatchedField;

verus! {

/// Tap type that stands for every capture interface.
pub const TAP_ANY: u16 = 0;

/// Tap type of traffic captured inside a cloud.
pub const TAP_CLOUD: u16 = 3;

/// No per-packet feature.
pub const FEATURE_NONE: u32 = 0;

/// Per-packet feature: keep one copy of a packet seen at both of its ends.
pub const FEATURE_DEDUP: u32 = 1;

/// Whether the feature bitmap asks for deduplication.
pub open spec fn wants_dedup(flags: u32) -> bool {
    flags & FEATURE_DEDUP != 0
}

/// An IPv4 or IPv6 address, held as its number.
#[derive(Clone, Copy, Debug, PartialEq, Eq, Structural)]
pub enum IpAddress {
    V4(u32),
    V6(u128),
}

impl IpAddress {
    /// The IPv4 address `a.b.c.d`.
    pub fn v4(a: u8, b: u8, c: u8, d: u8) -> (r: IpAddress)
        ensures
            r == IpAddress::V4((a * 0x1000000 + b * 0x10000 + c * 0x100 + d) as u32),
    {
        IpAddress::V4((a as u32) * 0x1000000 + (b as u32) * 0x10000 + (c as u32) * 0x100 + d as u32)
    }

    pub fn is_ipv6(&self) -> (r: bool)
        ensures
            r == (*self is V6),
    {
        matches!(self, IpAddress::V6(_))
    }
}

/// What the fast path is keyed by: the flow tuple and where its ends are
/// local.
#[derive(Clone, Copy, Debug, PartialEq, Eq, Structural)]
pub struct FlowKey {
    pub src_ip: IpAddress,
    pub dst_ip: IpAddress,
    pub src_port: u16,
    pub dst_port: u16,
    pub proto: u8,
    pub tap_type: u16,
    pub l2_end_0: bool,
    pub l2_end_1: bool,
    pub l3_end_0: bool,
    pub l3_end_1: bool,
}

/// The same flow seen from its other end.
pub open spec fn reversed_flow(k: FlowKey) -> FlowKey {
    FlowKey {
        src_ip: k.dst_ip,
        dst_ip: k.src_ip,
        src_port: k.dst_port,
        dst_port: k.src_port,
        proto: k.proto,
        tap_type: k.tap_type,
        l2_end_0: k.l2_end_1,
        l2_end_1: k.l2_end_0,
        l3_end_0: k.l3_end_1,
        l3_end_1: k.l3_end_0,
    }
}

/// The input of every lookup.
#[derive(Clone, Copy, Debug, PartialEq, Eq, Structural)]
pub struct LookupKey {
    pub src_ip: IpAddress,
    pub dst_ip: IpAddress,
    pub src_port: u16,
    pub dst_port: u16,
    pub proto: u8,
    pub tap_type: u16,
    pub l2_end_0: bool,
    pub l2_end_1: bool,
    pub l3_end_0: bool,
    pub l3_end_1: bool,
    pub feature_flag: u32,
    /// The fast-path shard that serves this packet.
    pub fast_index: usize,
}

/// The flow part of a lookup key.
pub open spec fn flow_of(k: LookupKey) -> FlowKey {
    FlowKey {
        src_ip: k.src_ip,
        dst_ip: k.dst_ip,
        src_port: k.src_port,
        dst_port: k.dst_port,
        proto: k.proto,
        tap_type: k.tap_type,
        l2_end_0: k.l2_end_0,
        l2_end_1: k.l2_end_1,
        l3_end_0: k.l3_end_0,
        l3_end_1: k.l3_end_1,
    }
}

impl LookupKey {
    /// A key for the flow `src_ip:src_port -> dst_ip:dst_port`, with no
    /// end marked local and no feature asked for.
    pub fn new(
        src_ip: IpAddress,
        dst_ip: IpAddress,
        src_port: u16,
        dst_port: u16,
        proto: u8,
        tap_type: u16,
    ) -> (r: LookupKey)
        ensures
            r.src_ip == src_ip && r.dst_ip == dst_ip,
            r.src_port == src_port && r.dst_port == dst_port,
            r.proto == proto && r.tap_type == tap_type,
            !r.l2_end_0 && !r.l2_end_1 && !r.l3_end_0 && !r.l3_end_1,
            r.feature_flag == FEATURE_NONE,
            r.fast_index == 0,
    {
        LookupKey {
            src_ip,
            dst_ip,
            src_port,
            dst_port,
            proto,
            tap_type,
            l2_end_0: false,
            l2_end_1: false,
            l3_end_0: false,
            l3_end_1: false,
            feature_flag: FEATURE_NONE,
            fast_index: 0,
        }
    }

    pub fn flow(&self) -> (r: FlowKey)
        ensures
            r == flow_of(*self),
    {
        FlowKey {
            src_ip: self.src_ip,
            dst_ip: self.dst_ip,
            src_port: self.src_port,
            dst_port: self.dst_port,
            proto: self.proto,
            tap_type: self.tap_type,
            l2_end_0: self.l2_end_0,
            l2_end_1: self.l2_end_1,
            l3_end_0: self.l3_end_0,
            l3_end_1: self.l3_end_1,
        }
    }

    /// Turns the key around: source and destination change places.
    pub fn reverse(&mut self)
        ensures
            flow_of(*final(self)) == reversed_flow(flow_of(*old(self))),
            final(self).feature_flag == old(self).feature_flag,
            final(self).fast_index == old(self).fast_index,
    {
        let k = *self;
        self.src_ip = k.dst_ip;
        self.dst_ip = k.src_ip;
        self.src_port = k.dst_port;
        self.dst_port = k.src_port;
        self.l2_end_0 = k.l2_end_1;
        self.l2_end_1 = k.l2_end_0;
        self.l3_end_0 = k.l3_end_1;
        self.l3_end_1 = k.l3_end_0;
    }

    pub fn has_dedup(&self) -> (r: bool)
        ensures
            r == wants_dedup(self.feature_flag),
    {
        self.feature_flag & FEATURE_DEDUP != 0
    }
}

/// What is known of one end of a packet.
#[derive(Clone, Copy, Debug, PartialEq, Eq, Structural, Default)]
pub struct EndpointInfo {
    pub l2_epc_id: i32,
    pub l3_epc_id: i32,
    pub l2_end: bool,
    pub l3_end: bool,
    pub is_device: bool,
    pub is_vip: bool,
    pub host_id: u16,
}

impl EndpointInfo {
    /// An end whose only known fact is its L3 EPC id.
    pub fn with_l3_epc(epc: i32) -> (r: EndpointInfo)
        ensures
            r.l3_epc_id == epc,
    {
        EndpointInfo {
            l2_epc_id: 0,
            l3_epc_id: epc,
            l2_end: false,
            l3_end: false,
            is_device: false,
            is_vip: false,
            host_id: 0,
        }
    }
}

/// Both ends of a packet.
#[derive(Clone, Copy, Debug, PartialEq, Eq, Structural, Default)]
pub struct EndpointData {
    pub src_info: EndpointInfo,
    pub dst_info: EndpointInfo,
}

/// The endpoints as seen from the other end of the packet.
pub open spec fn reversed_endpoints(e: EndpointData) -> EndpointData {
    EndpointData { src_info: e.dst_info, dst_info: e.src_info }
}

impl EndpointData {
    /// Endpoints whose only known facts are the two L3 EPC ids.
    pub fn with_epc(src_epc: i32, dst_epc: i32) -> (r: EndpointData)
        ensures
            r.src_info.l3_epc_id == src_epc,
            r.dst_info.l3_epc_id == dst_epc,
    {
        EndpointData { src_info: EndpointInfo::with_l3_epc(src_epc), dst_info: EndpointInfo::with_l3_epc(dst_epc) }
    }

    pub fn reversed(&self) -> (r: EndpointData)
        ensures
            r == reversed_endpoints(*self),
    {
        EndpointData { src_info: self.dst_info, dst_info: self.src_info }
    }
}

/// The 16-bit EPC id that a matched field carries.
pub open spec fn epc16(epc: i32) -> u16 {
    (epc as u32 % 0x10000) as u16
}

fn epc_of(epc: i32) -> (r: u16)
    ensures
        r == epc16(epc),
{
    (epc as u32 % 0x10000) as u16
}

/// The two words that every matched field starts with: EPC ids and ports,
/// then protocol and tap type.
pub open spec fn head_words(src_epc: u16, dst_epc: u16, sport: u16, dport: u16, proto: u8, tap: u16) -> Seq<u64> {
    seq![
        (src_epc as int + dst_epc as int * 0x10000 + sport as int * 0x1_0000_0000 + dport as int * 0x1_0000_0000_0000) as u64,
        (proto as int + tap as int * 0x100) as u64,
    ]
}

/// Words of an IPv4 pair.
pub open spec fn v4_words(src: u32, dst: u32) -> Seq<u64> {
    seq![(src as int + dst as int * 0x1_0000_0000) as u64]
}

/// Words of an IPv6 pair: each address as its high, then its low 64 bits.
pub open spec fn v6_words(src: u128, dst: u128) -> Seq<u64> {
    seq![
        (src as int / 0x1_0000_0000_0000_0000) as u64,
        (src as int % 0x1_0000_0000_0000_0000) as u64,
        (dst as int / 0x1_0000_0000_0000_0000) as u64,
        (dst as int % 0x1_0000_0000_0000_0000) as u64,
    ]
}

/// Words of a flow seen from its source: the first matched field is the
/// forward one, the same function with the ends swapped the backward one.
pub open spec fn flow_words(
    src_epc: u16,
    dst_epc: u16,
    src_ip: IpAddress,
    dst_ip: IpAddress,
    sport: u16,
    dport: u16,
    proto: u8,
    tap: u16,
) -> Seq<u64> {
    let head = head_words(src_epc, dst_epc, sport, dport, proto, tap);
    match (src_ip, dst_ip) {
        (IpAddress::V4(s), IpAddress::V4(d)) => head + v4_words(s, d),
        (IpAddress::V6(s), IpAddress::V6(d)) => head + v6_words(s, d),
        _ => Seq::empty(),
    }
}

/// The forward matched field of a key with its endpoints.
pub open spec fn forward_words(k: FlowKey, e: EndpointData) -> Seq<u64> {
    flow_words(
        epc16(e.src_info.l3_epc_id),
        epc16(e.dst_info.l3_epc_id),
        k.src_ip,
        k.dst_ip,
        k.src_port,
        k.dst_port,
        k.proto,
        k.tap_type,
    )
}

/// The backward matched field: the flow as its destination sends it.
pub open spec fn backward_words(k: FlowKey, e: EndpointData) -> Seq<u64> {
    forward_words(reversed_flow(k), reversed_endpoints(e))
}

fn head_fields(src_epc: u16, dst_epc: u16, sport: u16, dport: u16, proto: u8, tap: u16) -> (r: (u64, u64))
    ensures
        seq![r.0, r.1] == head_words(src_epc, dst_epc, sport, dport, proto, tap),
{
    let w0 = (src_epc as u64) + (dst_epc as u64) * 0x10000 + (sport as u64) * 0x1_0000_0000
        + (dport as u64) * 0x1_0000_0000_0000;
    let w1 = (proto as u64) + (tap as u64) * 0x100;
    (w0, w1)
}

fn high_word(v: u128) -> (r: u64)
    ensures
        r == (v as int / 0x1_0000_0000_0000_0000) as u64,
{
    (v / 0x1_0000_0000_0000_0000) as u64
}

fn low_word(v: u128) -> (r: u64)
    ensures
        r == (v as int % 0x1_0000_0000_0000_0000) as u64,
{
    (v % 0x1_0000_0000_0000_0000) as u64
}

/// Builds the matched field of a flow seen from its source; empty when the
/// two addresses are of different families.
pub fn build_flow_field(
    src_epc: u16,
    dst_epc: u16,
    src_ip: IpAddress,
    dst_ip: IpAddress,
    sport: u16,
    dport: u16,
    proto: u8,
    tap: u16,
) -> (r: MatchedField)
    ensures
        r.words@ == flow_words(src_epc, dst_epc, src_ip, dst_ip, sport, dport, proto, tap),
{
    let (w0, w1) = head_fields(src_epc, dst_epc, sport, dport, proto, tap);
    match (src_ip, dst_ip) {
        (IpAddress::V4(s), IpAddress::V4(d)) => {
            let w2 = (s as u64) + (d as u64) * 0x1_0000_0000;
            let r = MatchedField { words: vec![w0, w1, w2] };
            assert(r.words@ =~= flow_words(src_epc, dst_epc, src_ip, dst_ip, sport, dport, proto, tap));
            r
        },
        (IpAddress::V6(s), IpAddress::V6(d)) => {
            let r = MatchedField {
                words: vec![w0, w1, high_word(s), low_word(s), high_word(d), low_word(d)],
            };
            assert(r.words@ =~= flow_words(src_epc, dst_epc, src_ip, dst_ip, sport, dport, proto, tap));
            r
        },
        _ => {
            let r = MatchedField { words: Vec::new() };
            assert(r.words@ =~= flow_words(src_epc, dst_epc, src_ip, dst_ip, sport, dport, proto, tap));
            r
        },
    }
}

/// The forward and backward matched fields of a key with its endpoints.
pub fn generate_matched_field(k: &FlowKey, e: &EndpointData) -> (r: (MatchedField, MatchedField))
    ensures
        r.0.words@ == forward_words(*k, *e),
        r.1.words@ == backward_words(*k, *e),
{
    let src_epc = epc_of(e.src_info.l3_epc_id);
    let dst_epc = epc_of(e.dst_info.l3_epc_id);
    let f = build_flow_field(
        src_epc,
        dst_epc,
        k.src_ip,
        k.dst_ip,
        k.src_port,
        k.dst_port,
        k.proto,
        k.tap_type,
    );
    let b = build_flow_field(
        dst_epc,
        src_epc,
        k.dst_ip,
        k.src_ip,
        k.dst_port,
        k.src_port,
        k.proto,
        k.tap_type,
    );
    (f, b)
}

} // verus!
