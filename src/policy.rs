//! The result of a lookup: the ACL that decided it and the NPB actions to
//! take, with how actions of several ACLs and directions are merged.
use vstd::prelude::*;

use crate::lookup_key::{IpAddress, LookupKey};

verus! {

broadcast use Seq::lemma_filter_push;

/// How a mirrored packet is carried to the broker.
#[derive(Clone, Copy, Debug, PartialEq, Eq, Structural)]
pub enum NpbTunnelType {
    VxLan,
    GreErspan,
    Pcap,
}

/// Which end of the ACL's flow an action captures at.
#[derive(Clone, Copy, Debug, PartialEq, Eq, Structural)]
pub enum TapSide {
    SRC,
    DST,
    BOTH,
}

/// The direction in which a packet matched an ACL.
#[derive(Clone, Copy, Debug, PartialEq, Eq, Structural)]
pub enum DirectionType {
    Forward,
    Backward,
    Both,
}

/// One NPB action: where to send a copy of the packet.
#[derive(Clone, Copy, Debug, PartialEq, Eq, Structural)]
pub struct NpbAction {
    pub acl_gid: u32,
    pub tunnel_id: u32,
    pub tunnel_ip: IpAddress,
    pub tunnel_type: NpbTunnelType,
    pub tap_side: TapSide,
    pub direction: DirectionType,
    pub payload_slice: u16,
}

impl NpbAction {
    /// An action of ACL group `acl_gid`, valid in both directions until a
    /// lookup tags it.
    pub fn new(
        acl_gid: u32,
        tunnel_id: u32,
        tunnel_ip: IpAddress,
        tunnel_type: NpbTunnelType,
        tap_side: TapSide,
        payload_slice: u16,
    ) -> (r: NpbAction)
        ensures
            r == (NpbAction {
                acl_gid,
                tunnel_id,
                tunnel_ip,
                tunnel_type,
                tap_side,
                direction: DirectionType::Both,
                payload_slice,
            }),
    {
        NpbAction {
            acl_gid,
            tunnel_id,
            tunnel_ip,
            tunnel_type,
            tap_side,
            direction: DirectionType::Both,
            payload_slice,
        }
    }

    pub fn tunnel_id(&self) -> (r: u32)
        ensures
            r == self.tunnel_id,
    {
        self.tunnel_id
    }

    pub fn tap_side(&self) -> (r: TapSide)
        ensures
            r == self.tap_side,
    {
        self.tap_side
    }

    pub fn direction(&self) -> (r: DirectionType)
        ensures
            r == self.direction,
    {
        self.direction
    }
}

/// `a` tagged with direction `d`.
pub open spec fn with_direction(a: NpbAction, d: DirectionType) -> NpbAction {
    NpbAction { direction: d, ..a }
}

/// Every action of `s` tagged with direction `d`.
pub open spec fn tagged(s: Seq<NpbAction>, d: DirectionType) -> Seq<NpbAction> {
    s.map_values(|a: NpbAction| with_direction(a, d))
}

/// `list` extended, in order, by each candidate that it does not yet hold.
pub open spec fn union_into(list: Seq<NpbAction>, cands: Seq<NpbAction>) -> Seq<NpbAction>
    decreases cands.len(),
{
    if cands.len() == 0 {
        list
    } else {
        let u = union_into(list, cands.drop_last());
        if u.contains(cands.last()) {
            u
        } else {
            u.push(cands.last())
        }
    }
}

/// The ACL id that wins when a match of ACL `id` joins a result decided so
/// far by `cur`: the lowest non-zero id.
pub open spec fn pick_acl_id(cur: u32, id: u32) -> u32 {
    if cur == 0 {
        id
    } else if id == 0 {
        cur
    } else if id < cur {
        id
    } else {
        cur
    }
}

/// A lookup result as values.
pub struct PolicyModel {
    pub acl_id: u32,
    pub action_flags: u32,
    pub npb_actions: Seq<NpbAction>,
}

/// The result of no match.
pub open spec fn empty_policy() -> PolicyModel {
    PolicyModel { acl_id: 0, action_flags: 0, npb_actions: Seq::empty() }
}

/// `p` after merging the actions of ACL `id`, matched in direction `d`.
pub open spec fn merged(p: PolicyModel, actions: Seq<NpbAction>, id: u32, d: DirectionType) -> PolicyModel {
    PolicyModel {
        acl_id: pick_acl_id(p.acl_id, id),
        action_flags: p.action_flags,
        npb_actions: union_into(p.npb_actions, tagged(actions, d)),
    }
}

/// The opposite direction.
pub open spec fn flip(d: DirectionType) -> DirectionType {
    match d {
        DirectionType::Forward => DirectionType::Backward,
        DirectionType::Backward => DirectionType::Forward,
        DirectionType::Both => DirectionType::Both,
    }
}

/// `a` with its direction flipped.
pub open spec fn flip_action(a: NpbAction) -> NpbAction {
    with_direction(a, flip(a.direction))
}

/// Every action of `s` with its direction flipped.
pub open spec fn flip_all(s: Seq<NpbAction>) -> Seq<NpbAction> {
    s.map_values(|a: NpbAction| flip_action(a))
}

/// Whether `a` was matched backward.
pub open spec fn is_backward(a: NpbAction) -> bool {
    a.direction == DirectionType::Backward
}

/// The actions as the other end of the flow sees them: directions flipped,
/// and what was matched backward listed first, as a lookup from that end
/// lists its forward matches first.
pub open spec fn reversed_actions(s: Seq<NpbAction>) -> Seq<NpbAction> {
    flip_all(s.filter(|a: NpbAction| is_backward(a))) + flip_all(s.filter(|a: NpbAction| !is_backward(a)))
}

/// A decision as the other end of the flow sees it.
pub open spec fn reversed_policy(p: PolicyModel) -> PolicyModel {
    PolicyModel {
        acl_id: p.acl_id,
        action_flags: p.action_flags,
        npb_actions: reversed_actions(p.npb_actions),
    }
}

/// The packet end (0 for the source, 1 for the destination) at which an
/// action captures, or none when it captures at both.
pub open spec fn action_end(a: NpbAction) -> Option<int> {
    match (a.tap_side, a.direction) {
        (TapSide::SRC, DirectionType::Forward) => Some(0),
        (TapSide::DST, DirectionType::Forward) => Some(1),
        (TapSide::SRC, DirectionType::Backward) => Some(1),
        (TapSide::DST, DirectionType::Backward) => Some(0),
        _ => None,
    }
}

/// The end at which the packet is local, the source first.
pub open spec fn local_end(l2_end_0: bool, l3_end_0: bool, l2_end_1: bool, l3_end_1: bool) -> Option<int> {
    if l2_end_0 && l3_end_0 {
        Some(0)
    } else if l2_end_1 && l3_end_1 {
        Some(1)
    } else {
        None
    }
}

/// Whether an action survives deduplication: one that captures only at the
/// end away from the local one is dropped.
pub open spec fn kept_by_dedup(a: NpbAction, local: Option<int>) -> bool {
    match (local, action_end(a)) {
        (Some(l), Some(e)) => l == e,
        _ => true,
    }
}

/// `p` without the actions that deduplication drops for key `k`.
pub open spec fn deduped(p: PolicyModel, k: LookupKey) -> PolicyModel {
    let local = local_end(k.l2_end_0, k.l3_end_0, k.l2_end_1, k.l3_end_1);
    PolicyModel {
        acl_id: p.acl_id,
        action_flags: p.action_flags,
        npb_actions: p.npb_actions.filter(|a: NpbAction| kept_by_dedup(a, local)),
    }
}

/// The decision of a lookup.
#[derive(Debug)]
pub struct PolicyData {
    pub acl_id: u32,
    pub action_flags: u32,
    pub npb_actions: Vec<NpbAction>,
}

impl View for PolicyData {
    type V = PolicyModel;

    open spec fn view(&self) -> PolicyModel {
        PolicyModel {
            acl_id: self.acl_id,
            action_flags: self.action_flags,
            npb_actions: self.npb_actions@,
        }
    }
}

fn contains_action(list: &Vec<NpbAction>, a: &NpbAction) -> (r: bool)
    ensures
        r == list@.contains(*a),
{
    let mut i: usize = 0;
    while i < list.len()
        invariant
            i <= list.len(),
            forall|j: int| 0 <= j < i ==> list@[j] != *a,
        decreases list.len() - i,
    {
        if list[i] == *a {
            return true;
        }
        i += 1;
    }
    false
}

/// A copy of an action list.
pub fn copy_actions(s: &Vec<NpbAction>) -> (r: Vec<NpbAction>)
    ensures
        r@ == s@,
{
    let mut r: Vec<NpbAction> = Vec::new();
    let mut i: usize = 0;
    while i < s.len()
        invariant
            i <= s.len(),
            r@ == s@.take(i as int),
        decreases s.len() - i,
    {
        r.push(s[i]);
        i += 1;
        assert(r@ =~= s@.take(i as int));
    }
    assert(s@.take(s.len() as int) =~= s@);
    r
}

fn flip_direction(d: DirectionType) -> (r: DirectionType)
    ensures
        r == flip(d),
{
    match d {
        DirectionType::Forward => DirectionType::Backward,
        DirectionType::Backward => DirectionType::Forward,
        DirectionType::Both => DirectionType::Both,
    }
}

fn end_of(a: &NpbAction) -> (r: Option<u8>)
    ensures
        r is Some <==> action_end(*a) is Some,
        r is Some ==> r->0 as int == action_end(*a)->0,
{
    match (a.tap_side, a.direction) {
        (TapSide::SRC, DirectionType::Forward) => Some(0),
        (TapSide::DST, DirectionType::Forward) => Some(1),
        (TapSide::SRC, DirectionType::Backward) => Some(1),
        (TapSide::DST, DirectionType::Backward) => Some(0),
        _ => None,
    }
}

impl PolicyData {
    /// The result of no match.
    pub fn new() -> (r: PolicyData)
        ensures
            r@ == empty_policy(),
    {
        PolicyData { acl_id: 0, action_flags: 0, npb_actions: Vec::new() }
    }

    /// A copy of this result.
    pub fn duplicate(&self) -> (r: PolicyData)
        ensures
            r@ == self@,
    {
        PolicyData {
            acl_id: self.acl_id,
            action_flags: self.action_flags,
            npb_actions: copy_actions(&self.npb_actions),
        }
    }

    /// Merges the actions of ACL `acl_id`, matched in `direction`: each
    /// action, tagged with the direction, joins the list unless it is there
    /// already, and the lowest non-zero ACL id wins.
    pub fn merge_npb_action(&mut self, actions: &Vec<NpbAction>, acl_id: u32, direction: DirectionType)
        ensures
            final(self)@ == merged(old(self)@, actions@, acl_id, direction),
    {
        if self.acl_id == 0 || (acl_id != 0 && acl_id < self.acl_id) {
            self.acl_id = acl_id;
        }
        let ghost start = old(self)@.npb_actions;
        let ghost cands = tagged(actions@, direction);
        let mut i: usize = 0;
        while i < actions.len()
            invariant
                i <= actions.len(),
                cands == tagged(actions@, direction),
                self.npb_actions@ == union_into(start, cands.take(i as int)),
                self.acl_id == pick_acl_id(old(self).acl_id, acl_id),
                self.action_flags == old(self).action_flags,
            decreases actions.len() - i,
        {
            let mut a = actions[i];
            a.direction = direction;
            proof {
                assert(cands.take(i + 1).drop_last() =~= cands.take(i as int));
                assert(cands.take(i + 1).last() == a);
            }
            if !contains_action(&self.npb_actions, &a) {
                self.npb_actions.push(a);
            }
            i += 1;
        }
        assert(cands.take(actions.len() as int) =~= cands);
    }

    /// This result as the other end of the flow sees it.
    pub fn reverse(&self) -> (r: PolicyData)
        ensures
            r@ == reversed_policy(self@),
    {
        let ghost s = self.npb_actions@;
        let ghost back = s.filter(|a: NpbAction| is_backward(a));
        let ghost rest = s.filter(|a: NpbAction| !is_backward(a));
        let mut first: Vec<NpbAction> = Vec::new();
        let mut second: Vec<NpbAction> = Vec::new();
        let mut i: usize = 0;
        while i < self.npb_actions.len()
            invariant
                i <= s.len(),
                s == self.npb_actions@,
                back == s.filter(|a: NpbAction| is_backward(a)),
                rest == s.filter(|a: NpbAction| !is_backward(a)),
                first@ == flip_all(s.take(i as int).filter(|a: NpbAction| is_backward(a))),
                second@ == flip_all(s.take(i as int).filter(|a: NpbAction| !is_backward(a))),
            decreases s.len() - i,
        {
            let a = self.npb_actions[i];
            let mut f = a;
            f.direction = flip_direction(a.direction);
            proof {
                assert(s.take(i + 1) =~= s.take(i as int).push(a));
            }
            if a.direction == DirectionType::Backward {
                first.push(f);
            } else {
                second.push(f);
            }
            i += 1;
            assert(first@ =~= flip_all(s.take(i as int).filter(|a: NpbAction| is_backward(a))));
            assert(second@ =~= flip_all(s.take(i as int).filter(|a: NpbAction| !is_backward(a))));
        }
        assert(s.take(s.len() as int) =~= s);
        let mut j: usize = 0;
        let ghost first_part = first@;
        while j < second.len()
            invariant
                j <= second.len(),
                first@ == first_part + second@.take(j as int),
            decreases second.len() - j,
        {
            first.push(second[j]);
            j += 1;
            assert(first@ =~= first_part + second@.take(j as int));
        }
        assert(second@.take(second.len() as int) =~= second@);
        PolicyData { acl_id: self.acl_id, action_flags: self.action_flags, npb_actions: first }
    }

    /// Drops the actions that would send a second copy of a packet seen at
    /// both of its ends: with the source end local (`l2_end_0` and
    /// `l3_end_0`), those that capture only at the destination, else with
    /// the destination end local, those that capture only at the source.
    pub fn dedup(&mut self, key: &LookupKey)
        ensures
            final(self)@ == deduped(old(self)@, *key),
    {
        let ghost local = local_end(key.l2_end_0, key.l3_end_0, key.l2_end_1, key.l3_end_1);
        let local_exec: Option<u8> = if key.l2_end_0 && key.l3_end_0 {
            Some(0)
        } else if key.l2_end_1 && key.l3_end_1 {
            Some(1)
        } else {
            None
        };
        let ghost s = self.npb_actions@;
        let mut kept: Vec<NpbAction> = Vec::new();
        let mut i: usize = 0;
        while i < self.npb_actions.len()
            invariant
                i <= s.len(),
                s == self.npb_actions@,
                local_exec is Some <==> local is Some,
                local_exec is Some ==> local_exec->0 as int == local->0,
                kept@ == s.take(i as int).filter(|a: NpbAction| kept_by_dedup(a, local)),
            decreases s.len() - i,
        {
            let a = self.npb_actions[i];
            proof {
                assert(s.take(i + 1) =~= s.take(i as int).push(a));
            }
            let keep = match (local_exec, end_of(&a)) {
                (Some(l), Some(e)) => l == e,
                _ => true,
            };
            if keep {
                kept.push(a);
            }
            i += 1;
        }
        assert(s.take(s.len() as int) =~= s);
        self.npb_actions = kept;
    }
}

/// Flipping directions commutes with merging candidates into a list.
pub proof fn lemma_flip_union(list: Seq<NpbAction>, cands: Seq<NpbAction>)
    ensures
        flip_all(union_into(list, cands)) == union_into(flip_all(list), flip_all(cands)),
    decreases cands.len(),
{
    if cands.len() > 0 {
        let rest = cands.drop_last();
        let c = cands.last();
        lemma_flip_union(list, rest);
        assert(flip_all(cands).drop_last() =~= flip_all(rest));
        let u = union_into(list, rest);
        let fu = flip_all(u);
        if u.contains(c) {
            let i = choose|i: int| 0 <= i < u.len() && u[i] == c;
            assert(fu[i] == flip_action(c));
        } else {
            assert forall|i: int| 0 <= i < fu.len() implies fu[i] != flip_action(c) by {
                if fu[i] == flip_action(c) {
                    assert(flip_action(fu[i]) == u[i]);
                    assert(flip_action(flip_action(c)) == c);
                }
            }
            assert(flip_all(u.push(c)) =~= fu.push(flip_action(c)));
        }
    } else {
        assert(flip_all(cands) =~= Seq::<NpbAction>::empty());
    }
}

/// Flipping the direction of actions tagged `d` tags them with the opposite
/// direction.
pub proof fn lemma_flip_tagged(s: Seq<NpbAction>, d: DirectionType)
    ensures
        flip_all(tagged(s, d)) == tagged(s, flip(d)),
{
    assert(flip_all(tagged(s, d)) =~= tagged(s, flip(d)));
}

/// Candidates that a prefix of the list cannot hold are merged after it.
pub proof fn lemma_union_after_prefix(x: Seq<NpbAction>, z: Seq<NpbAction>, cands: Seq<NpbAction>)
    requires
        forall|i: int| 0 <= i < cands.len() ==> !x.contains(#[trigger] cands[i]),
    ensures
        union_into(x + z, cands) == x + union_into(z, cands),
    decreases cands.len(),
{
    if cands.len() > 0 {
        let rest = cands.drop_last();
        assert forall|i: int| 0 <= i < rest.len() implies !x.contains(#[trigger] rest[i]) by {
            assert(rest[i] == cands[i]);
        }
        lemma_union_after_prefix(x, z, rest);
        let v = union_into(z, rest);
        let c = cands.last();
        assert(!x.contains(c));
        if v.contains(c) {
            let i = choose|i: int| 0 <= i < v.len() && v[i] == c;
            assert((x + v)[x.len() + i] == c);
        } else {
            assert forall|i: int| 0 <= i < (x + v).len() implies (x + v)[i] != c by {
                if i < x.len() {
                    assert((x + v)[i] == x[i]);
                } else {
                    assert((x + v)[i] == v[i - x.len()]);
                }
            }
            assert((x + v).push(c) =~= x + v.push(c));
        }
    } else {
    }
}

/// Merging candidates all of direction `d` into a list all of direction
/// `d` keeps every action of direction `d`.
pub proof fn lemma_union_direction(list: Seq<NpbAction>, cands: Seq<NpbAction>, d: DirectionType)
    requires
        forall|i: int| 0 <= i < list.len() ==> (#[trigger] list[i]).direction == d,
        forall|i: int| 0 <= i < cands.len() ==> (#[trigger] cands[i]).direction == d,
    ensures
        forall|i: int|
            0 <= i < union_into(list, cands).len() ==> (#[trigger] union_into(list, cands)[i]).direction
                == d,
    decreases cands.len(),
{
    if cands.len() > 0 {
        let rest = cands.drop_last();
        assert forall|i: int| 0 <= i < rest.len() implies (#[trigger] rest[i]).direction == d by {
            assert(rest[i] == cands[i]);
        }
        lemma_union_direction(list, rest, d);
        let u = union_into(list, rest);
        if !u.contains(cands.last()) {
            assert forall|i: int| 0 <= i < u.push(cands.last()).len() implies (#[trigger] u.push(
                cands.last(),
            )[i]).direction == d by {
                if i < u.len() {
                    assert(u.push(cands.last())[i] == u[i]);
                }
            }
        }
    }
}

} // verus!
