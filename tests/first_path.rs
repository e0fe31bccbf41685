use agent_policy::acl::{Acl, IpGroupData, IpNet, PortRange};
use agent_policy::first_path::{FirstPath, PolicyError, FEATURE_POLICY};
use agent_policy::lookup_key::{EndpointData, IpAddress, LookupKey, FEATURE_DEDUP, FEATURE_NONE, TAP_CLOUD};
use agent_policy::policy::{DirectionType, NpbAction, NpbTunnelType, TapSide};

fn tunnel_action() -> NpbAction {
    NpbAction::new(0, 100, IpAddress::v4(192, 168, 1, 100), NpbTunnelType::VxLan, TapSide::SRC, 0)
}

fn example_acl() -> Acl {
    Acl::new(
        1,
        vec![10],
        vec![20],
        vec![PortRange::new(80, 80)],
        vec![PortRange::new(100, 100)],
        tunnel_action(),
    )
}

fn example_groups() -> Vec<IpGroupData> {
    vec![
        IpGroupData::new(10, 2, vec![IpNet::new(IpAddress::v4(192, 168, 2, 1), 32)]),
        IpGroupData::new(20, 20, vec![IpNet::new(IpAddress::v4(192, 168, 2, 5), 31)]),
    ]
}

fn generate_table() -> Result<FirstPath, PolicyError> {
    let mut first = FirstPath::new(1, 8, 1 << 16, false, FEATURE_POLICY);
    first.update_ip_group(&example_groups());
    first.update_acl(&vec![example_acl()], true)?;
    Ok(first)
}

fn example_key(feature_flag: u32) -> LookupKey {
    let mut key = LookupKey::new(
        IpAddress::v4(192, 168, 2, 1),
        IpAddress::v4(192, 168, 2, 5),
        80,
        100,
        0,
        TAP_CLOUD,
    );
    key.feature_flag = feature_flag;
    key
}

#[test]
fn test_first() {
    let mut first = generate_table().unwrap();
    let endpotins = EndpointData::with_epc(2, 20);
    let key = example_key(FEATURE_NONE);

    let result = first.first_get(&key, endpotins);
    assert_eq!(result.is_some(), true);

    let (_policy, endpoints) = result.unwrap();
    assert_eq!(endpoints.src_info.l3_epc_id, 2);
    assert_eq!(endpoints.dst_info.l3_epc_id, 20);
    assert_eq!(key.src_port, 80);
    assert_eq!(key.dst_port, 100);
}

#[test]
fn test_dedup() {
    let mut first = generate_table().unwrap();
    let mut endpotins = EndpointData::with_epc(2, 20);

    let mut key = example_key(FEATURE_DEDUP);
    let (_policy, _) = first.first_get(&key, endpotins).unwrap();

    key.l2_end_0 = true;
    key.l3_end_0 = true;
    let (policy, _) = first.first_get(&key, endpotins).unwrap();
    assert_eq!(policy.npb_actions.len(), 1);

    // A fast-path hit answers as the first path does.
    let (policy, _) = first.fast_get(&key).unwrap();
    assert_eq!(policy.npb_actions.len(), 1);
    assert_eq!(policy.acl_id, 1);

    key.reverse();
    endpotins.src_info.l3_epc_id = 20;
    endpotins.dst_info.l3_epc_id = 2;
    let (policy, _) = first.first_get(&key, endpotins).unwrap();
    assert_eq!(policy.npb_actions.len(), 1);
    assert_eq!(policy.acl_id, 1);

    key.l2_end_1 = false;
    key.l3_end_1 = false;
    let (policy, _) = first.first_get(&key, endpotins).unwrap();
    assert_eq!(policy.npb_actions.len(), 1);
    assert_eq!(policy.acl_id, 1);

    let (policy, _) = first.fast_get(&key).unwrap();
    assert_eq!(policy.npb_actions.len(), 1);
    assert_eq!(policy.acl_id, 1);
}

#[test]
fn exact_five_tuple_match() {
    let mut first = generate_table().unwrap();
    let (policy, _) = first.first_get(&example_key(FEATURE_NONE), EndpointData::with_epc(2, 20)).unwrap();
    assert_eq!(policy.acl_id, 1);
    assert_eq!(policy.npb_actions.len(), 1);
    assert_eq!(policy.npb_actions[0].direction, DirectionType::Forward);
    assert_eq!(policy.npb_actions[0].tunnel_id, 100);
    assert_eq!(policy.npb_actions[0].tunnel_ip, IpAddress::v4(192, 168, 1, 100));
    assert_eq!(policy.npb_actions[0].tap_side, TapSide::SRC);
}

#[test]
fn other_port_does_not_match() {
    let mut first = generate_table().unwrap();
    let mut key = example_key(FEATURE_NONE);
    key.dst_port = 101;
    let (policy, _) = first.first_get(&key, EndpointData::with_epc(2, 20)).unwrap();
    assert_eq!(policy.acl_id, 0);
    assert!(policy.npb_actions.is_empty());
}

#[test]
fn other_epc_does_not_match() {
    let mut first = generate_table().unwrap();
    let (policy, _) = first.first_get(&example_key(FEATURE_NONE), EndpointData::with_epc(3, 20)).unwrap();
    assert_eq!(policy.acl_id, 0);
}

#[test]
fn second_lookup_hits_fast_path() {
    let mut first = generate_table().unwrap();
    let key = example_key(FEATURE_NONE);
    let (first_answer, _) = first.lookup(&key, EndpointData::with_epc(2, 20));
    let (second_answer, _) = first.lookup(&key, EndpointData::with_epc(2, 20));
    let c = first.counters();
    assert_eq!(c.lookup_total, 2);
    assert_eq!(c.fast_hit, 1);
    assert_eq!(c.fast_miss, 1);
    assert_eq!(first_answer.acl_id, 1);
    assert_eq!(second_answer.acl_id, 1);
    assert_eq!(second_answer.npb_actions, first_answer.npb_actions);
}

#[test]
fn dedup_on_local_endpoint() {
    let mut first = generate_table().unwrap();
    let mut key = example_key(FEATURE_DEDUP);
    key.l2_end_0 = true;
    key.l3_end_0 = true;
    let (policy, _) = first.lookup(&key, EndpointData::with_epc(2, 20));
    assert_eq!(policy.acl_id, 1);
    assert_eq!(policy.npb_actions.len(), 1);
    assert_eq!(policy.npb_actions[0].direction, DirectionType::Forward);
}

#[test]
fn dedup_drops_action_at_remote_end() {
    let mut first = generate_table().unwrap();
    // The destination end is local; the action captures at the source only.
    let mut key = example_key(FEATURE_DEDUP);
    key.l2_end_1 = true;
    key.l3_end_1 = true;
    let (policy, _) = first.first_get(&key, EndpointData::with_epc(2, 20)).unwrap();
    assert_eq!(policy.acl_id, 1);
    assert!(policy.npb_actions.is_empty());
}

#[test]
fn reverse_flow_gets_backward_action() {
    let mut first = generate_table().unwrap();
    let key = example_key(FEATURE_NONE);
    first.lookup(&key, EndpointData::with_epc(2, 20));
    let mut rkey = key;
    rkey.reverse();
    assert_eq!(rkey.src_ip, IpAddress::v4(192, 168, 2, 5));
    assert_eq!(rkey.src_port, 100);
    let (policy, endpoints) = first.fast_get(&rkey).unwrap();
    assert_eq!(policy.acl_id, 1);
    assert_eq!(policy.npb_actions.len(), 1);
    assert_eq!(policy.npb_actions[0].direction, DirectionType::Backward);
    assert_eq!(endpoints.src_info.l3_epc_id, 20);
    assert_eq!(endpoints.dst_info.l3_epc_id, 2);
    let (policy, _) = first.lookup(&rkey, EndpointData::with_epc(20, 2));
    assert_eq!(first.counters().fast_hit, 1);
    assert_eq!(policy.npb_actions[0].direction, DirectionType::Backward);
    // The first path agrees with the fast path.
    let (policy, _) = first.first_get(&rkey, EndpointData::with_epc(20, 2)).unwrap();
    assert_eq!(policy.acl_id, 1);
    assert_eq!(policy.npb_actions[0].direction, DirectionType::Backward);
}

#[test]
fn reload_invalidates_fast_path() {
    let mut first = generate_table().unwrap();
    let key = example_key(FEATURE_NONE);
    let (policy, _) = first.lookup(&key, EndpointData::with_epc(2, 20));
    assert_eq!(policy.acl_id, 1);
    assert_eq!(first.update_acl(&vec![], true), Ok(()));
    assert!(first.fast_get(&key).is_none());
    let (policy, _) = first.lookup(&key, EndpointData::with_epc(2, 20));
    assert_eq!(policy.acl_id, 0);
    assert!(policy.npb_actions.is_empty());
    assert_eq!(first.counters().reload_total, 2);
}

#[test]
fn flush_empties_fast_path() {
    let mut first = generate_table().unwrap();
    let key = example_key(FEATURE_NONE);
    first.first_get(&key, EndpointData::with_epc(2, 20));
    assert!(first.fast_get(&key).is_some());
    first.flush();
    assert!(first.fast_get(&key).is_none());
    first.first_get(&key, EndpointData::with_epc(2, 20));
    assert!(first.fast_get(&key).is_some());
}

#[test]
fn fast_path_disabled_never_hits() {
    let mut first = FirstPath::new(1, 8, 1024, true, FEATURE_POLICY);
    first.update_ip_group(&example_groups());
    first.update_acl(&vec![example_acl()], true).unwrap();
    let key = example_key(FEATURE_NONE);
    first.lookup(&key, EndpointData::with_epc(2, 20));
    let (policy, _) = first.lookup(&key, EndpointData::with_epc(2, 20));
    assert_eq!(policy.acl_id, 1);
    assert_eq!(first.counters().fast_miss, 2);
    assert_eq!(first.counters().fast_hit, 0);
}

#[test]
fn policy_feature_off_matches_nothing() {
    let mut first = FirstPath::new(1, 8, 1024, false, 0);
    first.update_ip_group(&example_groups());
    first.update_acl(&vec![example_acl()], true).unwrap();
    let (policy, _) = first.first_get(&example_key(FEATURE_NONE), EndpointData::with_epc(2, 20)).unwrap();
    assert_eq!(policy.acl_id, 0);
}

#[test]
fn unknown_group_acl_is_rejected() {
    let mut first = FirstPath::new(1, 8, 1 << 16, false, FEATURE_POLICY);
    first.update_ip_group(&example_groups());
    let acl = Acl::new(
        1,
        vec![9999],
        vec![20],
        vec![PortRange::new(80, 80)],
        vec![PortRange::new(100, 100)],
        tunnel_action(),
    );
    assert_eq!(first.update_acl(&vec![acl], true), Ok(()));
    assert_eq!(first.counters().reload_rejected_acl, 1);
    let (policy, _) = first.lookup(&example_key(FEATURE_NONE), EndpointData::with_epc(2, 20));
    assert_eq!(policy.acl_id, 0);
}

#[test]
fn lowest_acl_id_wins() {
    let mut first = FirstPath::new(1, 8, 1 << 16, false, FEATURE_POLICY);
    first.update_ip_group(&example_groups());
    let wide = Acl::new(7, vec![], vec![], vec![], vec![], NpbAction::new(0, 7, IpAddress::v4(10, 0, 0, 7), NpbTunnelType::Pcap, TapSide::DST, 0));
    assert_eq!(first.update_acl(&vec![wide, example_acl()], true), Ok(()));
    let (policy, _) = first.first_get(&example_key(FEATURE_NONE), EndpointData::with_epc(2, 20)).unwrap();
    assert_eq!(policy.acl_id, 1);
    // The wide ACL matches both ways; the exact one forward only.
    assert_eq!(policy.npb_actions.len(), 3);
    assert_eq!(policy.npb_actions[0].tunnel_id, 7);
    assert_eq!(policy.npb_actions[0].direction, DirectionType::Forward);
    assert_eq!(policy.npb_actions[1].tunnel_id, 100);
    assert_eq!(policy.npb_actions[2].tunnel_id, 7);
    assert_eq!(policy.npb_actions[2].direction, DirectionType::Backward);
}

#[test]
fn ipv6_flow_matches_any_acl() {
    let mut first = FirstPath::new(2, 8, 64, false, FEATURE_POLICY);
    let wide = Acl::new(3, vec![], vec![], vec![], vec![PortRange::new(443, 443)], tunnel_action());
    assert_eq!(first.update_acl(&vec![wide], false), Ok(()));
    let mut key = LookupKey::new(IpAddress::V6(1), IpAddress::V6(2), 5000, 443, 6, TAP_CLOUD);
    key.fast_index = 1;
    let (policy, _) = first.lookup(&key, EndpointData::with_epc(1, 1));
    assert_eq!(policy.acl_id, 3);
    assert_eq!(policy.npb_actions[0].direction, DirectionType::Forward);
    key.dst_port = 444;
    let (policy, _) = first.lookup(&key, EndpointData::with_epc(1, 1));
    assert_eq!(policy.acl_id, 0);
}

#[test]
fn mixed_family_key_matches_nothing() {
    let mut first = FirstPath::new(1, 8, 64, false, FEATURE_POLICY);
    let wide = Acl::new(3, vec![], vec![], vec![], vec![], tunnel_action());
    first.update_acl(&vec![wide], false).unwrap();
    let key = LookupKey::new(IpAddress::v4(1, 2, 3, 4), IpAddress::V6(2), 1, 2, 6, TAP_CLOUD);
    let (policy, _) = first.first_get(&key, EndpointData::with_epc(1, 1)).unwrap();
    assert_eq!(policy.acl_id, 0);
}

#[test]
fn oversized_tables_fail_the_reload() {
    let mut first = FirstPath::new(1, 1, 64, false, FEATURE_POLICY);
    first.update_ip_group(&example_groups());
    first.update_acl(&vec![example_acl()], true).unwrap();
    let mut acls = Vec::new();
    for i in 0..4096u32 {
        acls.push(Acl::new(i + 2, vec![], vec![], vec![], vec![], tunnel_action()));
    }
    assert_eq!(first.update_acl(&acls, false), Err(PolicyError::MemoryExceeded));
    // The previous tables stay in service.
    let (policy, _) = first.first_get(&example_key(FEATURE_NONE), EndpointData::with_epc(2, 20)).unwrap();
    assert_eq!(policy.acl_id, 1);
    assert_eq!(first.counters().reload_total, 1);
}

#[test]
fn map_size_change_drops_entries() {
    let mut first = generate_table().unwrap();
    let key = example_key(FEATURE_NONE);
    first.first_get(&key, EndpointData::with_epc(2, 20));
    first.update_map_size(16);
    assert!(first.fast_get(&key).is_none());
}

#[test]
fn acl_expands_per_network_and_port_block() {
    let mut first = FirstPath::new(1, 8, 64, false, FEATURE_POLICY);
    first.update_ip_group(&vec![
        IpGroupData::new(1, 0, vec![IpNet::new(IpAddress::v4(10, 0, 0, 0), 8), IpNet::new(IpAddress::v4(11, 0, 0, 0), 8)]),
        IpGroupData::new(2, 0, vec![IpNet::new(IpAddress::v4(12, 0, 0, 0), 8), IpNet::new(IpAddress::V6(5), 64)]),
    ]);
    let acl = Acl::new(4, vec![1], vec![2], vec![PortRange::new(1, 6)], vec![], tunnel_action());
    first.update_acl(&vec![acl], true).unwrap();
    // 2 source networks x 1 IPv4 destination network x 4 source port blocks
    assert_eq!(first.table_4.atoms.len(), 8);
    assert_eq!(first.table_6.atoms.len(), 0);
    let mut key = LookupKey::new(IpAddress::v4(11, 1, 2, 3), IpAddress::v4(12, 9, 9, 9), 5, 7777, 17, TAP_CLOUD);
    let (policy, _) = first.first_get(&key, EndpointData::with_epc(8, 9)).unwrap();
    assert_eq!(policy.acl_id, 4);
    key.src_port = 7;
    let (policy, _) = first.first_get(&key, EndpointData::with_epc(8, 9)).unwrap();
    assert_eq!(policy.acl_id, 0);
    key.src_port = 1;
    key.src_ip = IpAddress::v4(13, 0, 0, 1);
    let (policy, _) = first.first_get(&key, EndpointData::with_epc(8, 9)).unwrap();
    assert_eq!(policy.acl_id, 0);
}

#[test]
fn scanned_buckets_are_counted() {
    let mut first = generate_table().unwrap();
    assert_eq!(first.vector_size(), 4);
    first.lookup(&example_key(FEATURE_NONE), EndpointData::with_epc(2, 20));
    assert_eq!(first.counters().first_path_bucket_scanned, 1);
    first.lookup(&example_key(FEATURE_NONE), EndpointData::with_epc(2, 20));
    assert_eq!(first.counters().first_path_bucket_scanned, 1);
}

#[test]
fn average_bucket_depth_counts_entries() {
    let mut first = FirstPath::new(1, 1, 64, false, FEATURE_POLICY);
    assert_eq!(first.average_bucket_depth(), 0);
    let mut acls = Vec::new();
    for i in 0..512u32 {
        acls.push(Acl::new(i + 1, vec![], vec![], vec![], vec![], tunnel_action()));
    }
    first.update_acl(&acls, false).unwrap();
    // 1024 atoms select 9 bits; each atom cares about none of them and
    // fills 512 buckets.
    assert_eq!(first.vector_size(), 9);
    assert_eq!(first.average_bucket_depth(), 4);
}
