use agent_policy::lookup_key::{IpAddress, LookupKey, TAP_CLOUD};
use agent_policy::policy::{DirectionType, NpbAction, NpbTunnelType, PolicyData, TapSide};

fn action(id: u32, side: TapSide) -> NpbAction {
    NpbAction::new(0, id, IpAddress::v4(10, 0, 0, 1), NpbTunnelType::GreErspan, side, 0)
}

#[test]
fn merge_unions_actions_and_keeps_lowest_acl() {
    let mut p = PolicyData::new();
    p.merge_npb_action(&vec![action(1, TapSide::SRC)], 5, DirectionType::Forward);
    assert_eq!(p.acl_id, 5);
    p.merge_npb_action(&vec![action(1, TapSide::SRC), action(2, TapSide::DST)], 3, DirectionType::Forward);
    assert_eq!(p.acl_id, 3);
    assert_eq!(p.npb_actions.len(), 2);
    p.merge_npb_action(&vec![action(1, TapSide::SRC)], 9, DirectionType::Backward);
    assert_eq!(p.acl_id, 3);
    assert_eq!(p.npb_actions.len(), 3);
    assert_eq!(p.npb_actions[2].direction, DirectionType::Backward);
    p.merge_npb_action(&vec![], 0, DirectionType::Forward);
    assert_eq!(p.acl_id, 3);
}

#[test]
fn reverse_flips_directions_backward_first() {
    let mut p = PolicyData::new();
    p.merge_npb_action(&vec![action(1, TapSide::SRC)], 1, DirectionType::Forward);
    p.merge_npb_action(&vec![action(2, TapSide::SRC)], 1, DirectionType::Backward);
    let r = p.reverse();
    assert_eq!(r.acl_id, 1);
    assert_eq!(r.npb_actions[0].tunnel_id, 2);
    assert_eq!(r.npb_actions[0].direction, DirectionType::Forward);
    assert_eq!(r.npb_actions[1].tunnel_id, 1);
    assert_eq!(r.npb_actions[1].direction, DirectionType::Backward);
    let d = p.duplicate();
    assert_eq!(d.npb_actions, p.npb_actions);
}

#[test]
fn dedup_keeps_local_end_actions() {
    let mut p = PolicyData::new();
    p.merge_npb_action(&vec![action(1, TapSide::SRC), action(2, TapSide::DST), action(3, TapSide::BOTH)], 1, DirectionType::Forward);
    let mut key = LookupKey::new(IpAddress::v4(1, 1, 1, 1), IpAddress::v4(2, 2, 2, 2), 1, 2, 6, TAP_CLOUD);
    let mut none_local = p.duplicate();
    none_local.dedup(&key);
    assert_eq!(none_local.npb_actions.len(), 3);
    key.l2_end_0 = true;
    key.l3_end_0 = true;
    let mut src_local = p.duplicate();
    src_local.dedup(&key);
    let ids: Vec<u32> = src_local.npb_actions.iter().map(|a| a.tunnel_id).collect();
    assert_eq!(ids, vec![1, 3]);
    key.l2_end_0 = false;
    key.l2_end_1 = true;
    key.l3_end_1 = true;
    let mut dst_local = p.duplicate();
    dst_local.dedup(&key);
    let ids: Vec<u32> = dst_local.npb_actions.iter().map(|a| a.tunnel_id()).collect();
    assert_eq!(ids, vec![2, 3]);
}
