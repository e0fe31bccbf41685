use agent_policy::acl::{generate_group_ip_map, port_blocks, find_group, IpGroupData, IpNet, PortRange};
use agent_policy::lookup_key::IpAddress;

#[test]
fn single_port_is_one_block() {
    let b = port_blocks(&PortRange::new(80, 80));
    assert_eq!(b.len(), 1);
    assert_eq!((b[0].base, b[0].mask, b[0].size), (80, 0xffff, 1));
}

#[test]
fn range_is_cut_into_aligned_blocks() {
    let b = port_blocks(&PortRange::new(1, 6));
    let parts: Vec<(u16, u32)> = b.iter().map(|x| (x.base, x.size)).collect();
    assert_eq!(parts, vec![(1, 1), (2, 2), (4, 2), (6, 1)]);
    let all = port_blocks(&PortRange::new(0, 65535));
    assert_eq!(all.len(), 1);
    assert_eq!((all[0].base, all[0].mask, all[0].size), (0, 0, 65536));
}

#[test]
fn group_map_skips_group_zero_and_empty_groups() {
    let groups = vec![
        IpGroupData::new(0, 1, vec![IpNet::new(IpAddress::v4(1, 1, 1, 1), 32)]),
        IpGroupData::new(5, 1, vec![]),
        IpGroupData::new(6, 2, vec![IpNet::new(IpAddress::v4(1, 1, 1, 0), 24)]),
        IpGroupData::new(6, 3, vec![IpNet::new(IpAddress::V6(9), 128)]),
    ];
    let map = generate_group_ip_map(&groups);
    assert!(find_group(&map, 0).is_none());
    assert!(find_group(&map, 5).is_none());
    let e = find_group(&map, 6).unwrap();
    assert_eq!(map[e].segments.len(), 2);
    assert_eq!(map[e].segments[1].epc_id, 3);
}
