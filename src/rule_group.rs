use vstd::prelude::*;

verus! {

/// An IP address.
#[derive(Clone, Copy, Debug, PartialEq, Eq, Structural)]
pub enum IpAddress {
    V4(u32),
    V6(u128),
}

/// An IP network: an address and the length of its prefix.
#[derive(Clone, Copy, Debug, PartialEq, Eq, Structural)]
pub enum IpNetwork {
    V4(u32, u8),
    V6(u128, u8),
}

/// The EDNS Client-Subnet option of a request.
#[derive(Clone, Copy, Debug, PartialEq, Eq, Structural)]
pub struct ClientSubnet {
    pub addr: IpAddress,
    pub source_prefix: u8,
}

/// Clients in `client` belong to the rule group `group`.
#[derive(Debug)]
pub struct ClientRule {
    pub client: IpNetwork,
    pub group: String,
}

/// The first address of a network of `width` bits.
pub open spec fn net_low(addr: int, prefix: int, width: int) -> int {
    let size = vstd::arithmetic::power2::pow2((width - prefix) as nat) as int;
    (addr / size) * size
}

/// The last address of a network of `width` bits.
pub open spec fn net_high(addr: int, prefix: int, width: int) -> int {
    net_low(addr, prefix, width) + vstd::arithmetic::power2::pow2((width - prefix) as nat) - 1
}

/// The range of `inner` lies within the range of `outer`, both networks of
/// `width` bits with a prefix no longer than `width`.
pub open spec fn range_within(outer: int, outer_prefix: int, inner: int, inner_prefix: int, width: int) -> bool {
    &&& outer_prefix <= width
    &&& inner_prefix <= width
    &&& net_low(outer, outer_prefix, width) <= net_low(inner, inner_prefix, width)
    &&& net_high(inner, inner_prefix, width) <= net_high(outer, outer_prefix, width)
}

/// Network `outer` holds all of network `inner` (of the same family).
pub open spec fn net_contains(outer: IpNetwork, inner: IpNetwork) -> bool {
    match (outer, inner) {
        (IpNetwork::V4(a, p), IpNetwork::V4(b, q)) => range_within(a as int, p as int, b as int, q as int, 32),
        (IpNetwork::V6(a, p), IpNetwork::V6(b, q)) => range_within(a as int, p as int, b as int, q as int, 128),
        _ => false,
    }
}

/// Relies on ipnet::Ipv4Net::new, an error exactly when a prefix is longer
/// than 32, and on `Contains<&Ipv4Net> for Ipv4Net`: the network and broadcast
/// addresses (address with the host bits cleared / set) of `inner` lie within
/// those of `outer`.
#[verifier::external_body]
fn v4_contains(outer: u32, outer_prefix: u8, inner: u32, inner_prefix: u8) -> (r: bool)
    ensures
        r == range_within(outer as int, outer_prefix as int, inner as int, inner_prefix as int, 32),
{
    match (ipnet::Ipv4Net::new(outer.into(), outer_prefix), ipnet::Ipv4Net::new(inner.into(), inner_prefix)) {
        (Ok(a), Ok(b)) => a.contains(&b),
        _ => false,
    }
}

/// Relies on ipnet::Ipv6Net::new, an error exactly when a prefix is longer
/// than 128, and on `Contains<&Ipv6Net> for Ipv6Net`, as for IPv4.
#[verifier::external_body]
fn v6_contains(outer: u128, outer_prefix: u8, inner: u128, inner_prefix: u8) -> (r: bool)
    ensures
        r == range_within(outer as int, outer_prefix as int, inner as int, inner_prefix as int, 128),
{
    match (ipnet::Ipv6Net::new(outer.into(), outer_prefix), ipnet::Ipv6Net::new(inner.into(), inner_prefix)) {
        (Ok(a), Ok(b)) => a.contains(&b),
        _ => false,
    }
}

/// Whether network `outer` holds all of network `inner`.
pub fn contains(outer: &IpNetwork, inner: &IpNetwork) -> (r: bool)
    ensures
        r == net_contains(*outer, *inner),
{
    match (outer, inner) {
        (IpNetwork::V4(a, p), IpNetwork::V4(b, q)) => v4_contains(*a, *p, *b, *q),
        (IpNetwork::V6(a, p), IpNetwork::V6(b, q)) => v6_contains(*a, *p, *b, *q),
        _ => false,
    }
}

/// An IPv4-mapped IPv6 address (`::ffff:a.b.c.d`) as the IPv4 address it
/// maps; any other address as it is.
pub open spec fn normalize(a: IpAddress) -> IpAddress {
    match a {
        IpAddress::V6(x) => if x / 0x1_0000_0000 == 0xffff {
            IpAddress::V4((x % 0x1_0000_0000) as u32)
        } else {
            a
        },
        _ => a,
    }
}

/// The address `a` after IPv4-mapped IPv6 addresses are turned to IPv4.
pub fn normalize_addr(a: IpAddress) -> (r: IpAddress)
    ensures
        r == normalize(a),
{
    match a {
        IpAddress::V6(x) => if x / 0x1_0000_0000 == 0xffff {
            IpAddress::V4((x % 0x1_0000_0000) as u32)
        } else {
            a
        },
        _ => a,
    }
}

/// The network that a Client-Subnet option names, after normalisation, or
/// `None` when its prefix is too long for its address family.
pub open spec fn subnet_network(s: ClientSubnet) -> Option<IpNetwork> {
    match normalize(s.addr) {
        IpAddress::V4(a) => if s.source_prefix <= 32 {
            Some(IpNetwork::V4(a, s.source_prefix))
        } else {
            None
        },
        IpAddress::V6(a) => if s.source_prefix <= 128 {
            Some(IpNetwork::V6(a, s.source_prefix))
        } else {
            None
        },
    }
}

/// The single-address network of `a`, after normalisation.
pub open spec fn host_network(a: IpAddress) -> IpNetwork {
    match normalize(a) {
        IpAddress::V4(x) => IpNetwork::V4(x, 32),
        IpAddress::V6(x) => IpNetwork::V6(x, 128),
    }
}

/// What rule groups are matched against: the Client-Subnet network when the
/// request carries a well-formed one, else the source address.
pub open spec fn client_key(subnet: Option<ClientSubnet>, src: IpAddress) -> IpNetwork {
    match subnet {
        Some(s) => match subnet_network(s) {
            Some(n) => n,
            None => host_network(src),
        },
        None => host_network(src),
    }
}

/// Rule `i` is the first rule whose network holds `key`.
pub open spec fn is_first_match(rules: Seq<ClientRule>, key: IpNetwork, i: int) -> bool {
    0 <= i < rules.len() && net_contains(rules[i].client, key) && forall|j: int|
        0 <= j < i ==> !net_contains(rules[j].client, key)
}

/// The network named by a Client-Subnet option, if it is well formed.
pub fn subnet_to_network(s: &ClientSubnet) -> (r: Option<IpNetwork>)
    ensures
        r == subnet_network(*s),
{
    match normalize_addr(s.addr) {
        IpAddress::V4(a) => if s.source_prefix <= 32 {
            Some(IpNetwork::V4(a, s.source_prefix))
        } else {
            None
        },
        IpAddress::V6(a) => if s.source_prefix <= 128 {
            Some(IpNetwork::V6(a, s.source_prefix))
        } else {
            None
        },
    }
}

/// The group of the first client rule that holds the request's client:
/// its Client-Subnet network when it has a well-formed one, else its source
/// address; `None` when no rule holds it.
pub fn select_rule_group(client_rules: &Vec<ClientRule>, subnet: Option<ClientSubnet>, src: IpAddress) -> (r: Option<String>)
    ensures
        match r {
            Some(g) => exists|i: int| is_first_match(client_rules@, client_key(subnet, src), i) && g@ == client_rules@[i].group@,
            None => forall|i: int| 0 <= i < client_rules@.len() ==> !net_contains(client_rules@[i].client, client_key(subnet, src)),
        },
{
    let key = match subnet {
        Some(s) => match subnet_to_network(&s) {
            Some(n) => n,
            None => match normalize_addr(src) {
                IpAddress::V4(x) => IpNetwork::V4(x, 32),
                IpAddress::V6(x) => IpNetwork::V6(x, 128),
            },
        },
        None => match normalize_addr(src) {
            IpAddress::V4(x) => IpNetwork::V4(x, 32),
            IpAddress::V6(x) => IpNetwork::V6(x, 128),
        },
    };
    assert(key == client_key(subnet, src));
    let mut k: usize = 0;
    while k < client_rules.len()
        invariant
            k <= client_rules@.len(),
            key == client_key(subnet, src),
            forall|j: int| 0 <= j < k ==> !net_contains(client_rules@[j].client, key),
        decreases client_rules@.len() - k,
    {
        if contains(&client_rules[k].client, &key) {
            assert(is_first_match(client_rules@, key, k as int));
            return Some(client_rules[k].group.clone());
        }
        k = k + 1;
    }
    None
}

} // verus!
