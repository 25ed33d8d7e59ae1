use smartdns_core::rule_group::{contains, select_rule_group, ClientRule, ClientSubnet, IpAddress, IpNetwork};

fn rules() -> Vec<ClientRule> {
    vec![
        ClientRule { client: IpNetwork::V4(0x0a00_0000, 8), group: "internal".to_string() },
        ClientRule { client: IpNetwork::V4(0, 0), group: "default".to_string() },
    ]
}

#[test]
fn client_subnet_picks_first_matching_rule() {
    let subnet = ClientSubnet { addr: IpAddress::V4(0x0a01_0200), source_prefix: 24 };
    let g = select_rule_group(&rules(), Some(subnet), IpAddress::V4(0xc000_0201));
    assert_eq!(g, Some("internal".to_string()));
}

#[test]
fn source_address_used_without_client_subnet() {
    let g = select_rule_group(&rules(), None, IpAddress::V4(0xc000_0201));
    assert_eq!(g, Some("default".to_string()));
}

#[test]
fn mapped_ipv6_source_is_matched_as_ipv4() {
    let mapped = 0xffff_0000_0000u128 | 0x0a00_0001;
    let g = select_rule_group(&rules(), None, IpAddress::V6(mapped));
    assert_eq!(g, Some("internal".to_string()));
}

#[test]
fn malformed_subnet_falls_back_to_source() {
    let subnet = ClientSubnet { addr: IpAddress::V4(0x0a01_0200), source_prefix: 40 };
    let g = select_rule_group(&rules()[..1].iter().map(|r| ClientRule { client: r.client, group: r.group.clone() }).collect(), Some(subnet), IpAddress::V4(0xc000_0201));
    assert_eq!(g, None);
    let g = select_rule_group(&rules(), Some(subnet), IpAddress::V4(0x0a00_0009));
    assert_eq!(g, Some("internal".to_string()));
}

#[test]
fn no_matching_rule_gives_no_group() {
    let only = vec![ClientRule { client: IpNetwork::V4(0x0a00_0000, 8), group: "internal".to_string() }];
    assert_eq!(select_rule_group(&only, None, IpAddress::V4(0xc000_0201)), None);
    assert_eq!(select_rule_group(&only, None, IpAddress::V6(1)), None);
}

#[test]
fn network_containment() {
    assert!(contains(&IpNetwork::V4(0x0a00_0000, 8), &IpNetwork::V4(0x0a01_0200, 24)));
    assert!(!contains(&IpNetwork::V4(0x0a01_0200, 24), &IpNetwork::V4(0x0a00_0000, 8)));
    assert!(!contains(&IpNetwork::V4(0x0a00_0000, 8), &IpNetwork::V4(0x0b00_0000, 32)));
    assert!(contains(&IpNetwork::V6(0x2001_0db8u128 << 96, 32), &IpNetwork::V6((0x2001_0db8u128 << 96) | 5, 128)));
    assert!(!contains(&IpNetwork::V4(0, 0), &IpNetwork::V6(0, 0)));
    assert!(!contains(&IpNetwork::V4(0, 33), &IpNetwork::V4(0, 32)));
}
