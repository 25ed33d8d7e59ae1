use smartdns_core::config::{
    AddressRule, ConfigForDomain, Domain, DomainAddress, DomainRule, DomainSet, ForwardRule,
    RuleField, SrvRecord,
};
use smartdns_core::dns_rule::DomainRuleMap;
use smartdns_core::name::WildcardName;

fn wn(s: &str) -> WildcardName {
    WildcardName::from_labels(s.split('.').map(|l| l.to_string()).collect())
}

fn localhost() -> DomainAddress {
    DomainAddress::IPv4(0x7f00_0001)
}

fn address_rule(name: &str) -> AddressRule {
    AddressRule { domain: Domain::Name(wn(name)), address: localhost() }
}

#[test]
fn test_zone_rule() {
    let map = DomainRuleMap::create(
        &vec![],
        &vec![
            address_rule("a.b.c.www.example.com"),
            address_rule("www.example.com"),
            address_rule("example.com"),
        ],
        &vec![],
        &vec![],
        &vec![],
        &vec![],
        &vec![],
    );

    let rule1 = map.find(&wn("z.a.b.c.www.example.com"));
    assert!(rule1.is_some());
    assert_eq!(rule1.map(|o| o.name()), Some(&wn("a.b.c.www.example.com")));

    let rule2 = map.find(&wn("www.example.com"));
    assert_eq!(rule2.map(|o| o.name()), Some(&wn("www.example.com")));

    let rule2_index = map.find_index(&wn("www.example.com"));
    assert!(rule2_index.is_some());
    assert_eq!(rule1.unwrap().zone(), rule2_index);
    assert!(std::ptr::eq(map.node(rule1.unwrap().zone().unwrap()), rule2.unwrap()));
}

#[test]
fn zone_of_top_configured_name_is_none() {
    let map = DomainRuleMap::create(
        &vec![],
        &vec![address_rule("www.example.com"), address_rule("example.com")],
        &vec![],
        &vec![],
        &vec![],
        &vec![],
        &vec![],
    );
    let top = map.find(&wn("example.com")).unwrap();
    assert_eq!(top.zone(), None);
    assert!(map.find(&wn("example.org")).is_none());
    assert!(map.find(&wn("com")).is_none());
}

#[test]
fn field_falls_back_to_nearest_ancestor() {
    let map = DomainRuleMap::create(
        &vec![],
        &vec![address_rule("www.example.com")],
        &vec![ForwardRule { domain: Domain::Name(wn("example.com")), nameserver: "office".to_string() }],
        &vec![],
        &vec![],
        &vec![],
        &vec![],
    );
    let node = map.find(&wn("a.www.example.com")).unwrap();
    assert_eq!(node.name(), &wn("www.example.com"));
    let ns = node.get(&map, RuleField::Nameserver).unwrap();
    assert_eq!(ns.nameserver, Some("office".to_string()));
    let addr = node.get(&map, RuleField::Address).unwrap();
    assert_eq!(addr.address, Some(localhost()));
    assert!(node.get(&map, RuleField::Cname).is_none());
}

#[test]
fn domain_set_expands_to_each_member() {
    let sets = vec![DomainSet { name: "ads".to_string(), members: vec![wn("x.com"), wn("y.com")] }];
    let map = DomainRuleMap::create(
        &vec![],
        &vec![AddressRule { domain: Domain::InSet("ads".to_string()), address: DomainAddress::Soa }],
        &vec![],
        &sets,
        &vec![],
        &vec![],
        &vec![],
    );
    assert_eq!(map.len(), 2);
    for n in ["x.com", "y.com", "www.x.com"] {
        let node = map.find(&wn(n)).unwrap();
        assert_eq!(node.rule.address, Some(DomainAddress::Soa));
    }
    assert!(map.find(&wn("z.com")).is_none());
}

#[test]
fn unknown_domain_set_expands_to_nothing() {
    let map = DomainRuleMap::create(
        &vec![],
        &vec![AddressRule { domain: Domain::InSet("missing".to_string()), address: DomainAddress::Soa }],
        &vec![],
        &vec![],
        &vec![],
        &vec![],
        &vec![],
    );
    assert_eq!(map.len(), 0);
}

#[test]
fn disjoint_fields_from_two_sources_merge() {
    let map = DomainRuleMap::create(
        &vec![],
        &vec![address_rule("example.com")],
        &vec![ForwardRule { domain: Domain::Name(wn("example.com")), nameserver: "office".to_string() }],
        &vec![],
        &vec![ConfigForDomain { domain: Domain::Name(wn("example.com")), config: "alias.example.net".to_string() }],
        &vec![ConfigForDomain {
            domain: Domain::Name(wn("example.com")),
            config: SrvRecord { target: "srv.example.com".to_string(), port: 443, priority: 1, weight: 2 },
        }],
        &vec![ConfigForDomain { domain: Domain::Name(wn("example.com")), config: "inet#filter#set4".to_string() }],
    );
    assert_eq!(map.len(), 1);
    let node = map.find(&wn("example.com")).unwrap();
    assert_eq!(node.rule.address, Some(localhost()));
    assert_eq!(node.rule.nameserver, Some("office".to_string()));
    assert_eq!(node.rule.cname, Some("alias.example.net".to_string()));
    assert_eq!(node.rule.srv.as_ref().map(|s| s.port), Some(443));
    assert_eq!(node.rule.nftset, Some("inet#filter#set4".to_string()));
}

#[test]
fn later_sources_override_per_field() {
    let mut first = DomainRule::empty();
    first.address = Some(DomainAddress::Ignore);
    first.nameserver = Some("a".to_string());
    let mut second = DomainRule::empty();
    second.nameserver = Some("b".to_string());
    let map = DomainRuleMap::create(
        &vec![
            ConfigForDomain { domain: Domain::Name(wn("example.com")), config: first },
            ConfigForDomain { domain: Domain::Name(wn("example.com")), config: second },
        ],
        &vec![],
        &vec![],
        &vec![],
        &vec![],
        &vec![],
        &vec![],
    );
    let node = map.find(&wn("example.com")).unwrap();
    assert_eq!(node.rule.address, Some(DomainAddress::Ignore));
    assert_eq!(node.rule.nameserver, Some("b".to_string()));

    let map = DomainRuleMap::create(
        &vec![ConfigForDomain { domain: Domain::Name(wn("example.com")), config: {
            let mut r = DomainRule::empty();
            r.address = Some(DomainAddress::Ignore);
            r
        } }],
        &vec![address_rule("example.com")],
        &vec![],
        &vec![],
        &vec![],
        &vec![],
        &vec![],
    );
    assert_eq!(map.find(&wn("example.com")).unwrap().rule.address, Some(localhost()));
}

#[test]
fn name_helpers() {
    let n = wn("www.example.com");
    assert_eq!(n.label_count(), 3);
    assert_eq!(n.base_name(), wn("example.com"));
    assert!(wn("example.com").is_ancestor_or_self_of(&n));
    assert!(!wn("example.org").is_ancestor_or_self_of(&n));
    assert!(n.same_name(&n.duplicate()));
    assert_eq!(WildcardName::root().base_name(), WildcardName::root());
}

#[test]
fn trie_keys_run_from_name_to_root() {
    let keys = wn("www.example.com").trie_keys();
    assert_eq!(keys, vec![wn("www.example.com"), wn("example.com"), wn("com"), WildcardName::root()]);
    assert_eq!(WildcardName::root().trie_keys(), vec![WildcardName::root()]);
}

#[test]
fn default_index_is_empty() {
    let map = DomainRuleMap::default();
    assert_eq!(map.len(), 0);
    assert!(map.find(&wn("example.com")).is_none());
}
