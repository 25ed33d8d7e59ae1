use vstd::prelude::*;

use crate::config::{
    combine, empty_rule, has_field, AddressRule, AddressRules, CNameRules, ConfigForDomain,
    Domain, DomainAddress, DomainRule, DomainRules, DomainSet, DomainSets, DomainSpec,
    ForwardRule, ForwardRules, NftsetRules, RuleField, SrvRecord, SrvRecords,
};
use crate::domain_map::{
    is_longest_match, key_matches, keys_unique, lemma_longest_match_unique, DomainMap,
};
use crate::name::{
    is_ancestor_or_self, is_strict_ancestor, lemma_ancestor_self, lemma_ancestor_trans,
    lemma_ancestors_nest, lemma_same_length_ancestor, lemma_strict_ancestor_of_parent, parent,
    Labels, WildcardName,
};

verus! {

/// The member names of a domain set.
pub open spec fn set_views(s: DomainSet) -> Seq<Labels> {
    s.members@.map_values(|m: WildcardName| m@)
}

/// `sets[i]` is the first set called `name`.
pub open spec fn is_first_set(sets: Seq<DomainSet>, name: Seq<char>, i: int) -> bool {
    0 <= i < sets.len() && sets[i].name@ == name && forall|j: int|
        0 <= j < i ==> sets[j].name@ != name
}

/// A rule for `d` applies to the name `n`: `d` is `n`, or a set whose
/// members include `n` (a set that does not exist has no member).
pub open spec fn expands_to(d: DomainSpec, sets: Seq<DomainSet>, n: Labels) -> bool {
    match d {
        DomainSpec::Name(m) => m == n,
        DomainSpec::InSet(s) => in_set(sets, s, n),
    }
}

/// `n` is a member of the first set called `s`.
pub open spec fn in_set(sets: Seq<DomainSet>, s: Seq<char>, n: Labels) -> bool {
    exists|i: int| #[trigger] is_first_set(sets, s, i) && set_views(sets[i]).contains(n)
}

/// The rule of `n` after every contribution in `cs` that applies to it, in
/// order, has set its fields.
pub open spec fn merged(cs: Seq<(DomainSpec, DomainRule)>, sets: Seq<DomainSet>, n: Labels) -> DomainRule
    decreases cs.len(),
{
    if cs.len() == 0 {
        empty_rule()
    } else {
        let prev = merged(cs.drop_last(), sets, n);
        if expands_to(cs.last().0, sets, n) {
            combine(prev, cs.last().1)
        } else {
            prev
        }
    }
}

/// Some contribution in `cs` applies to `n`.
pub open spec fn configured(cs: Seq<(DomainSpec, DomainRule)>, sets: Seq<DomainSet>, n: Labels) -> bool {
    exists|j: int| 0 <= j < cs.len() && expands_to(cs[j].0, sets, n)
}

pub open spec fn address_only(a: DomainAddress) -> DomainRule {
    DomainRule { address: Some(a), nameserver: None, cname: None, srv: None, nftset: None }
}

pub open spec fn nameserver_only(s: String) -> DomainRule {
    DomainRule { address: None, nameserver: Some(s), cname: None, srv: None, nftset: None }
}

pub open spec fn cname_only(s: String) -> DomainRule {
    DomainRule { address: None, nameserver: None, cname: Some(s), srv: None, nftset: None }
}

pub open spec fn srv_only(s: SrvRecord) -> DomainRule {
    DomainRule { address: None, nameserver: None, cname: None, srv: Some(s), nftset: None }
}

pub open spec fn nftset_only(s: String) -> DomainRule {
    DomainRule { address: None, nameserver: None, cname: None, srv: None, nftset: Some(s) }
}

/// Every rule source as one sequence of (target, fields), in the order in
/// which they are applied.
pub open spec fn contributions(
    domain_rules: Seq<ConfigForDomain<DomainRule>>,
    address_rules: Seq<AddressRule>,
    forward_rules: Seq<ForwardRule>,
    cnames: Seq<ConfigForDomain<String>>,
    srv_records: Seq<ConfigForDomain<SrvRecord>>,
    nftsets: Seq<ConfigForDomain<String>>,
) -> Seq<(DomainSpec, DomainRule)> {
    domain_rules.map_values(|r: ConfigForDomain<DomainRule>| (r.domain@, r.config))
        + address_rules.map_values(|r: AddressRule| (r.domain@, address_only(r.address)))
        + forward_rules.map_values(|r: ForwardRule| (r.domain@, nameserver_only(r.nameserver)))
        + cnames.map_values(|r: ConfigForDomain<String>| (r.domain@, cname_only(r.config)))
        + srv_records.map_values(|r: ConfigForDomain<SrvRecord>| (r.domain@, srv_only(r.config)))
        + nftsets.map_values(|r: ConfigForDomain<String>| (r.domain@, nftset_only(r.config)))
}

spec fn partial(
    cs: Seq<(DomainSpec, DomainRule)>,
    sets: Seq<DomainSet>,
    n: Labels,
    rule: DomainRule,
    done: Seq<Labels>,
) -> DomainRule {
    if done.contains(n) {
        combine(merged(cs, sets, n), rule)
    } else {
        merged(cs, sets, n)
    }
}

spec fn covered(cs: Seq<(DomainSpec, DomainRule)>, sets: Seq<DomainSet>, n: Labels, done: Seq<Labels>) -> bool {
    configured(cs, sets, n) || done.contains(n)
}

/// `acc` holds the rules after `cs`, and `rule` applied to the names in `done`.
spec fn holds_partial(
    acc: Seq<(Labels, DomainRule)>,
    cs: Seq<(DomainSpec, DomainRule)>,
    sets: Seq<DomainSet>,
    rule: DomainRule,
    done: Seq<Labels>,
) -> bool {
    &&& keys_unique(acc)
    &&& forall|i: int|
        0 <= i < acc.len() ==> covered(cs, sets, acc[i].0, done) && acc[i].1 == partial(
            cs,
            sets,
            acc[i].0,
            rule,
            done,
        )
    &&& forall|n: Labels| #[trigger]
        covered(cs, sets, n, done) ==> exists|i: int| 0 <= i < acc.len() && acc[i].0 == n
}

spec fn holds(acc: Seq<(Labels, DomainRule)>, cs: Seq<(DomainSpec, DomainRule)>, sets: Seq<DomainSet>) -> bool {
    holds_partial(acc, cs, sets, empty_rule(), Seq::empty())
}

proof fn lemma_unconfigured(cs: Seq<(DomainSpec, DomainRule)>, sets: Seq<DomainSet>, n: Labels)
    requires
        !configured(cs, sets, n),
    ensures
        merged(cs, sets, n) == empty_rule(),
    decreases cs.len(),
{
    if cs.len() > 0 {
        assert forall|j: int| 0 <= j < cs.drop_last().len() implies !expands_to(cs.drop_last()[j].0, sets, n) by {
            assert(cs.drop_last()[j] == cs[j]);
        }
        lemma_unconfigured(cs.drop_last(), sets, n);
        assert(!expands_to(cs[cs.len() - 1].0, sets, n));
    }
}

proof fn lemma_start(acc: Seq<(Labels, DomainRule)>, cs: Seq<(DomainSpec, DomainRule)>, sets: Seq<DomainSet>, rule: DomainRule)
    requires
        holds(acc, cs, sets),
    ensures
        holds_partial(acc, cs, sets, rule, Seq::empty()),
{
}

proof fn lemma_finish(
    acc: Seq<(Labels, DomainRule)>,
    cs: Seq<(DomainSpec, DomainRule)>,
    sets: Seq<DomainSet>,
    d: DomainSpec,
    rule: DomainRule,
    done: Seq<Labels>,
)
    requires
        holds_partial(acc, cs, sets, rule, done),
        forall|n: Labels| done.contains(n) <==> expands_to(d, sets, n),
    ensures
        holds(acc, cs.push((d, rule)), sets),
{
    let cs2 = cs.push((d, rule));
    assert(cs2.drop_last() =~= cs);
    assert forall|n: Labels| configured(cs2, sets, n) <==> covered(cs, sets, n, done) by {
        if configured(cs2, sets, n) {
            let j = choose|j: int| 0 <= j < cs2.len() && expands_to(cs2[j].0, sets, n);
            if j < cs.len() {
                assert(cs2[j] == cs[j]);
            } else {
                assert(done.contains(n));
            }
        }
        if configured(cs, sets, n) {
            let j = choose|j: int| 0 <= j < cs.len() && expands_to(cs[j].0, sets, n);
            assert(cs2[j] == cs[j]);
        }
        if done.contains(n) {
            assert(cs2[cs.len() as int] == (d, rule));
        }
    }
    assert forall|i: int| 0 <= i < acc.len() implies acc[i].1 == merged(cs2, sets, acc[i].0) by {}
    assert forall|n: Labels| #[trigger] covered(cs2, sets, n, Seq::empty()) implies exists|i: int|
        0 <= i < acc.len() && acc[i].0 == n by {
        assert(covered(cs, sets, n, done));
    }
}

fn merge_name(
    acc: &mut DomainMap<DomainRule>,
    name: &WildcardName,
    rule: &DomainRule,
    Ghost(cs): Ghost<Seq<(DomainSpec, DomainRule)>>,
    Ghost(sets): Ghost<Seq<DomainSet>>,
    Ghost(done): Ghost<Seq<Labels>>,
)
    requires
        holds_partial(old(acc)@, cs, sets, *rule, done),
    ensures
        holds_partial(final(acc)@, cs, sets, *rule, done.push(name@)),
{
    let ghost before = acc@;
    let ghost done2 = done.push(name@);
    assert forall|n: Labels| done2.contains(n) <==> (done.contains(n) || n == name@) by {
        if done.contains(n) {
            let k = choose|k: int| 0 <= k < done.len() && done[k] == n;
            assert(done2[k] == n);
        }
        if n == name@ {
            assert(done2[done.len() as int] == n);
        }
    }
    match acc.position(name) {
        Some(i) => {
            let mut r = acc.value(i).duplicate();
            r.merge(rule);
            acc.set_value(i, r);
            assert forall|n: Labels| #[trigger] covered(cs, sets, n, done2) implies exists|j: int|
                0 <= j < acc@.len() && acc@[j].0 == n by {
                if covered(cs, sets, n, done) {
                    let j = choose|j: int| 0 <= j < before.len() && before[j].0 == n;
                    assert(acc@[j].0 == before[j].0);
                } else {
                    assert(acc@[i as int].0 == n);
                }
            }
        },
        None => {
            proof {
                if configured(cs, sets, name@) || done.contains(name@) {
                    assert(covered(cs, sets, name@, done));
                }
                lemma_unconfigured(cs, sets, name@);
            }
            let mut r = DomainRule::empty();
            r.merge(rule);
            acc.insert(name.duplicate(), r);
            assert(acc@[before.len() as int] == (name@, r));
            assert forall|n: Labels| #[trigger] covered(cs, sets, n, done2) implies exists|j: int|
                0 <= j < acc@.len() && acc@[j].0 == n by {
                if covered(cs, sets, n, done) {
                    let j = choose|j: int| 0 <= j < before.len() && before[j].0 == n;
                    assert(acc@[j] == before[j]);
                } else {
                    assert(acc@[before.len() as int].0 == n);
                }
            }
            assert forall|x: int, y: int|
                0 <= x < acc@.len() && 0 <= y < acc@.len() && x != y implies acc@[x].0 != acc@[y].0 by {
                if x < before.len() {
                    assert(acc@[x] == before[x]);
                }
                if y < before.len() {
                    assert(acc@[y] == before[y]);
                }
            }
            assert forall|j: int| 0 <= j < acc@.len() implies covered(cs, sets, acc@[j].0, done2)
                && acc@[j].1 == partial(cs, sets, acc@[j].0, *rule, done2) by {
                if j < before.len() {
                    assert(acc@[j] == before[j]);
                }
            }
        },
    }
}

/// The first set called `name`.
fn find_set(sets: &Vec<DomainSet>, name: &String) -> (r: Option<usize>)
    ensures
        match r {
            Some(i) => is_first_set(sets@, name@, i as int),
            None => forall|i: int| 0 <= i < sets@.len() ==> sets@[i].name@ != name@,
        },
{
    let mut k: usize = 0;
    while k < sets.len()
        invariant
            k <= sets@.len(),
            forall|i: int| 0 <= i < k ==> sets@[i].name@ != name@,
        decreases sets@.len() - k,
    {
        if sets[k].name == *name {
            return Some(k);
        }
        k = k + 1;
    }
    None
}

fn merge_contribution(
    acc: &mut DomainMap<DomainRule>,
    target: &Domain,
    sets: &Vec<DomainSet>,
    rule: &DomainRule,
    Ghost(cs): Ghost<Seq<(DomainSpec, DomainRule)>>,
)
    requires
        holds(old(acc)@, cs, sets@),
    ensures
        holds(final(acc)@, cs.push((target@, *rule)), sets@),
{
    proof {
        lemma_start(acc@, cs, sets@, *rule);
    }
    match target {
        Domain::Name(n) => {
            merge_name(acc, n, rule, Ghost(cs), Ghost(sets@), Ghost(Seq::empty()));
            proof {
                let done = Seq::<Labels>::empty().push(n@);
                assert forall|m: Labels| done.contains(m) <==> expands_to(target@, sets@, m) by {
                    if m == n@ {
                        assert(done[0] == m);
                    }
                }
                lemma_finish(acc@, cs, sets@, target@, *rule, done);
            }
        },
        Domain::InSet(s) => {
            match find_set(sets, s) {
                Some(i) => {
                    let members = &sets[i].members;
                    let ghost views = set_views(sets@[i as int]);
                    let mut k: usize = 0;
                    assert(views.take(0) =~= Seq::<Labels>::empty());
                    while k < members.len()
                        invariant
                            k <= members@.len(),
                            views == members@.map_values(|m: WildcardName| m@),
                            holds_partial(acc@, cs, sets@, *rule, views.take(k as int)),
                        decreases members@.len() - k,
                    {
                        merge_name(acc, &members[k], rule, Ghost(cs), Ghost(sets@), Ghost(views.take(k as int)));
                        assert(views.take(k as int).push(members@[k as int]@) =~= views.take(k + 1));
                        k = k + 1;
                    }
                    proof {
                        assert(target@ == DomainSpec::InSet(s@));
                        assert(views.take(k as int) =~= views);
                        assert forall|m: Labels| views.contains(m) <==> expands_to(target@, sets@, m) by {
                            if views.contains(m) {
                                assert(is_first_set(sets@, s@, i as int));
                                assert(set_views(sets@[i as int]).contains(m));
                                assert(in_set(sets@, s@, m));
                            }
                            if expands_to(target@, sets@, m) {
                                let x = choose|x: int| is_first_set(sets@, s@, x) && set_views(sets@[x]).contains(m);
                                if x < i {
                                    assert(sets@[x].name@ != s@);
                                }
                                if i < x {
                                    assert(sets@[i as int].name@ != s@);
                                }
                                assert(x == i);
                            }
                        }
                        lemma_finish(acc@, cs, sets@, target@, *rule, views);
                    }
                },
                None => {
                    proof {
                        lemma_finish(acc@, cs, sets@, target@, *rule, Seq::empty());
                    }
                },
            }
        },
    }
}


/// Entry `i` of `s` links to `zone`: the entry of its nearest strict
/// ancestor, or nothing when it has none.
pub open spec fn zone_ok<V>(s: Seq<(Labels, V)>, i: int, zone: Option<usize>) -> bool {
    match zone {
        Some(z) => s[i].0.len() > 0 && is_longest_match(s, parent(s[i].0), z as int),
        None => s[i].0.len() == 0 || forall|j: int| !key_matches(s, parent(s[i].0), j),
    }
}

/// One node of the rule index: a name, its own merged rule, and the index of
/// the node of its nearest configured ancestor.
#[derive(Debug)]
pub struct DomainRuleTreeNode {
    pub name: WildcardName,
    pub rule: DomainRule,
    pub zone: Option<usize>,
}

/// The rules that apply to names, built once from every rule source.
pub struct DomainRuleMap {
    rules: DomainMap<DomainRuleTreeNode>,
}

/// Keys are unique, each node carries its key, and each zone link is right.
pub open spec fn index_wf(s: Seq<(Labels, DomainRuleTreeNode)>) -> bool {
    &&& keys_unique(s)
    &&& forall|i: int| 0 <= i < s.len() ==> #[trigger] s[i].1.name@ == s[i].0 && zone_ok(s, i, s[i].1.zone)
}

/// The rule of the nearest node, from `node` along its zone links, that sets
/// field `f`.
pub open spec fn resolve(s: Seq<(Labels, DomainRuleTreeNode)>, node: DomainRuleTreeNode, f: RuleField) -> Option<DomainRule>
    decreases node.name@.len(),
{
    if has_field(node.rule, f) {
        Some(node.rule)
    } else {
        match node.zone {
            Some(z) => if z < s.len() && s[z as int].1.name@.len() < node.name@.len() {
                resolve(s, s[z as int].1, f)
            } else {
                None
            },
            None => None,
        }
    }
}

proof fn lemma_same_keys<A, B>(s1: Seq<(Labels, A)>, s2: Seq<(Labels, B)>)
    requires
        s1.len() == s2.len(),
        forall|j: int| 0 <= j < s1.len() ==> s1[j].0 == s2[j].0,
    ensures
        forall|q: Labels, x: int| key_matches(s1, q, x) == key_matches(s2, q, x),
        forall|q: Labels, x: int| is_longest_match(s1, q, x) == is_longest_match(s2, q, x),
        keys_unique(s1) ==> keys_unique(s2),
{
    assert forall|q: Labels, x: int| key_matches(s1, q, x) == key_matches(s2, q, x) by {}
    assert forall|q: Labels, x: int| is_longest_match(s1, q, x) == is_longest_match(s2, q, x) by {
        if is_longest_match(s1, q, x) {
            assert forall|j: int| key_matches(s2, q, j) implies s2[j].0.len() <= s2[x].0.len() by {
                assert(key_matches(s1, q, j));
            }
        }
        if is_longest_match(s2, q, x) {
            assert forall|j: int| key_matches(s1, q, j) implies s1[j].0.len() <= s1[x].0.len() by {
                assert(key_matches(s2, q, j));
            }
        }
    }
}

impl View for DomainRuleMap {
    type V = Seq<(Labels, DomainRuleTreeNode)>;

    closed spec fn view(&self) -> Seq<(Labels, DomainRuleTreeNode)> {
        self.rules@
    }
}

impl Default for DomainRuleMap {
    /// An index with no rule.
    fn default() -> (r: Self)
        ensures
            r@ == Seq::<(Labels, DomainRuleTreeNode)>::empty(),
            r.wf(),
    {
        DomainRuleMap { rules: DomainMap::new() }
    }
}

impl DomainRuleMap {
    pub open spec fn wf(&self) -> bool {
        index_wf(self@)
    }

    /// Builds the index: every name that some rule reaches (directly or
    /// through a domain set) gets one node, holding the fields that the rules
    /// for it set, the later rule winning per field, in the order domain
    /// rules, address, forward, cname, srv, nftset; and linked to the node of
    /// its nearest configured ancestor.
    pub fn create(
        domain_rules: &DomainRules,
        address_rules: &AddressRules,
        forward_rules: &ForwardRules,
        domain_sets: &DomainSets,
        cnames: &CNameRules,
        srv_records: &SrvRecords,
        nftsets: &NftsetRules,
    ) -> (r: Self)
        ensures
            r.wf(),
            forall|n: Labels|
                (exists|i: int| 0 <= i < r@.len() && r@[i].0 == n) <==> configured(
                    contributions(domain_rules@, address_rules@, forward_rules@, cnames@, srv_records@, nftsets@),
                    domain_sets@,
                    n,
                ),
            forall|i: int|
                0 <= i < r@.len() ==> r@[i].1.rule == merged(
                    contributions(domain_rules@, address_rules@, forward_rules@, cnames@, srv_records@, nftsets@),
                    domain_sets@,
                    r@[i].0,
                ),
    {
        let ghost cs = contributions(domain_rules@, address_rules@, forward_rules@, cnames@, srv_records@, nftsets@);
        let ghost sets = domain_sets@;
        let ghost b1 = domain_rules@.len() as int;
        let ghost b2 = b1 + address_rules@.len();
        let ghost b3 = b2 + forward_rules@.len();
        let ghost b4 = b3 + cnames@.len();
        let ghost b5 = b4 + srv_records@.len();
        assert(cs.len() == b5 + nftsets@.len());
        let mut acc: DomainMap<DomainRule> = DomainMap::new();
        assert(holds(acc@, cs.take(0), sets)) by {
            assert(cs.take(0).len() == 0);
        }
        let mut k: usize = 0;
        while k < domain_rules.len()
            invariant
                sets == domain_sets@,
                cs == contributions(domain_rules@, address_rules@, forward_rules@, cnames@, srv_records@, nftsets@),
                b1 == domain_rules@.len(),
                b2 == b1 + address_rules@.len(),
                b3 == b2 + forward_rules@.len(),
                b4 == b3 + cnames@.len(),
                b5 == b4 + srv_records@.len(),
                cs.len() == b5 + nftsets@.len(),
                k <= domain_rules@.len(),
                holds(acc@, cs.take(k as int), sets),
            decreases domain_rules@.len() - k,
        {
            let rule = &domain_rules[k];
            assert(cs[k as int] == (rule.domain@, rule.config));
            assert(cs.take(k as int).push(cs[k as int]) =~= cs.take(k + 1));
            merge_contribution(&mut acc, &rule.domain, domain_sets, &rule.config, Ghost(cs.take(k as int)));
            k = k + 1;
        }
        let mut k: usize = 0;
        while k < address_rules.len()
            invariant
                sets == domain_sets@,
                cs == contributions(domain_rules@, address_rules@, forward_rules@, cnames@, srv_records@, nftsets@),
                b1 == domain_rules@.len(),
                b2 == b1 + address_rules@.len(),
                b3 == b2 + forward_rules@.len(),
                b4 == b3 + cnames@.len(),
                b5 == b4 + srv_records@.len(),
                cs.len() == b5 + nftsets@.len(),
                k <= address_rules@.len(),
                holds(acc@, cs.take(b1 + k), sets),
            decreases address_rules@.len() - k,
        {
            let rule = &address_rules[k];
            let part = DomainRule { address: Some(rule.address), nameserver: None, cname: None, srv: None, nftset: None };
            assert(cs[b1 + k] == (rule.domain@, part));
            assert(cs.take(b1 + k).push(cs[b1 + k]) =~= cs.take(b1 + k + 1));
            merge_contribution(&mut acc, &rule.domain, domain_sets, &part, Ghost(cs.take(b1 + k)));
            k = k + 1;
        }
        let mut k: usize = 0;
        while k < forward_rules.len()
            invariant
                sets == domain_sets@,
                cs == contributions(domain_rules@, address_rules@, forward_rules@, cnames@, srv_records@, nftsets@),
                b1 == domain_rules@.len(),
                b2 == b1 + address_rules@.len(),
                b3 == b2 + forward_rules@.len(),
                b4 == b3 + cnames@.len(),
                b5 == b4 + srv_records@.len(),
                cs.len() == b5 + nftsets@.len(),
                k <= forward_rules@.len(),
                holds(acc@, cs.take(b2 + k), sets),
            decreases forward_rules@.len() - k,
        {
            let rule = &forward_rules[k];
            let part = DomainRule { address: None, nameserver: Some(rule.nameserver.clone()), cname: None, srv: None, nftset: None };
            assert(cs[b2 + k] == (rule.domain@, part));
            assert(cs.take(b2 + k).push(cs[b2 + k]) =~= cs.take(b2 + k + 1));
            merge_contribution(&mut acc, &rule.domain, domain_sets, &part, Ghost(cs.take(b2 + k)));
            k = k + 1;
        }
        let mut k: usize = 0;
        while k < cnames.len()
            invariant
                sets == domain_sets@,
                cs == contributions(domain_rules@, address_rules@, forward_rules@, cnames@, srv_records@, nftsets@),
                b1 == domain_rules@.len(),
                b2 == b1 + address_rules@.len(),
                b3 == b2 + forward_rules@.len(),
                b4 == b3 + cnames@.len(),
                b5 == b4 + srv_records@.len(),
                cs.len() == b5 + nftsets@.len(),
                k <= cnames@.len(),
                holds(acc@, cs.take(b3 + k), sets),
            decreases cnames@.len() - k,
        {
            let rule = &cnames[k];
            let part = DomainRule { address: None, nameserver: None, cname: Some(rule.config.clone()), srv: None, nftset: None };
            assert(cs[b3 + k] == (rule.domain@, part));
            assert(cs.take(b3 + k).push(cs[b3 + k]) =~= cs.take(b3 + k + 1));
            merge_contribution(&mut acc, &rule.domain, domain_sets, &part, Ghost(cs.take(b3 + k)));
            k = k + 1;
        }
        let mut k: usize = 0;
        while k < srv_records.len()
            invariant
                sets == domain_sets@,
                cs == contributions(domain_rules@, address_rules@, forward_rules@, cnames@, srv_records@, nftsets@),
                b1 == domain_rules@.len(),
                b2 == b1 + address_rules@.len(),
                b3 == b2 + forward_rules@.len(),
                b4 == b3 + cnames@.len(),
                b5 == b4 + srv_records@.len(),
                cs.len() == b5 + nftsets@.len(),
                k <= srv_records@.len(),
                holds(acc@, cs.take(b4 + k), sets),
            decreases srv_records@.len() - k,
        {
            let rule = &srv_records[k];
            let part = DomainRule { address: None, nameserver: None, cname: None, srv: Some(rule.config.duplicate()), nftset: None };
            assert(cs[b4 + k] == (rule.domain@, part));
            assert(cs.take(b4 + k).push(cs[b4 + k]) =~= cs.take(b4 + k + 1));
            merge_contribution(&mut acc, &rule.domain, domain_sets, &part, Ghost(cs.take(b4 + k)));
            k = k + 1;
        }
        let mut k: usize = 0;
        while k < nftsets.len()
            invariant
                sets == domain_sets@,
                cs == contributions(domain_rules@, address_rules@, forward_rules@, cnames@, srv_records@, nftsets@),
                b1 == domain_rules@.len(),
                b2 == b1 + address_rules@.len(),
                b3 == b2 + forward_rules@.len(),
                b4 == b3 + cnames@.len(),
                b5 == b4 + srv_records@.len(),
                cs.len() == b5 + nftsets@.len(),
                k <= nftsets@.len(),
                holds(acc@, cs.take(b5 + k), sets),
            decreases nftsets@.len() - k,
        {
            let rule = &nftsets[k];
            let part = DomainRule { address: None, nameserver: None, cname: None, srv: None, nftset: Some(rule.config.clone()) };
            assert(cs[b5 + k] == (rule.domain@, part));
            assert(cs.take(b5 + k).push(cs[b5 + k]) =~= cs.take(b5 + k + 1));
            merge_contribution(&mut acc, &rule.domain, domain_sets, &part, Ghost(cs.take(b5 + k)));
            k = k + 1;
        }
        assert(cs.take(cs.len() as int) =~= cs);
        let mut rules: DomainMap<DomainRuleTreeNode> = DomainMap::new();
        let mut i: usize = 0;
        while i < acc.len()
            invariant
                i <= acc@.len(),
                rules@.len() == i,
                holds(acc@, cs, sets),
                forall|j: int|
                    0 <= j < i ==> rules@[j].0 == acc@[j].0 && rules@[j].1.name@ == acc@[j].0
                        && rules@[j].1.rule == acc@[j].1 && zone_ok(acc@, j, rules@[j].1.zone),
            decreases acc@.len() - i,
        {
            let name = acc.key(i);
            let zone = if name.label_count() == 0 {
                None
            } else {
                acc.find_index(&name.base_name())
            };
            let node = DomainRuleTreeNode { name: name.duplicate(), rule: acc.value(i).duplicate(), zone };
            assert forall|j: int| 0 <= j < rules@.len() implies rules@[j].0 != name@ by {
                assert(acc@[j].0 != acc@[i as int].0);
            }
            let ghost before = rules@;
            rules.insert(name.duplicate(), node);
            assert forall|j: int| 0 <= j < i implies rules@[j] == before[j] by {}
            i = i + 1;
        }
        proof {
            lemma_same_keys(acc@, rules@);
            assert forall|j: int| 0 <= j < rules@.len() implies #[trigger] rules@[j].1.name@ == rules@[j].0
                && zone_ok(rules@, j, rules@[j].1.zone) by {
                assert(zone_ok(acc@, j, rules@[j].1.zone));
            }
            assert forall|n: Labels|
                (exists|i: int| 0 <= i < rules@.len() && rules@[i].0 == n) <==> configured(cs, sets, n) by {
                if configured(cs, sets, n) {
                    assert(covered(cs, sets, n, Seq::empty()));
                }
            }
        }
        DomainRuleMap { rules }
    }

    /// The number of nodes.
    pub fn len(&self) -> (r: usize)
        ensures
            r == self@.len(),
    {
        self.rules.len()
    }

    /// Node `i`.
    pub fn node(&self, i: usize) -> (r: &DomainRuleTreeNode)
        requires
            i < self@.len(),
        ensures
            *r == self@[i as int].1,
    {
        self.rules.value(i)
    }

    /// The index of the node of the longest configured name that is `q` or a
    /// zone above it.
    pub fn find_index(&self, q: &WildcardName) -> (r: Option<usize>)
        ensures
            match r {
                Some(i) => is_longest_match(self@, q@, i as int),
                None => forall|i: int| !key_matches(self@, q@, i),
            },
    {
        self.rules.find_index(q)
    }

    /// The node of the longest configured name that is `q` or a zone above it.
    pub fn find(&self, q: &WildcardName) -> (r: Option<&DomainRuleTreeNode>)
        ensures
            match r {
                Some(v) => exists|i: int| is_longest_match(self@, q@, i) && *v == self@[i].1,
                None => forall|i: int| !key_matches(self@, q@, i),
            },
    {
        match self.rules.find_index(q) {
            Some(i) => {
                let v = self.rules.value(i);
                assert(is_longest_match(self@, q@, i as int) && *v == self@[i as int].1);
                Some(v)
            },
            None => None,
        }
    }
}

impl DomainRuleTreeNode {
    /// The name this node was configured for.
    pub fn name(&self) -> (r: &WildcardName)
        ensures
            r == &self.name,
    {
        &self.name
    }

    /// The index of the node of the nearest configured ancestor.
    pub fn zone(&self) -> (r: Option<usize>)
        ensures
            r == self.zone,
    {
        self.zone
    }

    /// The rule of the nearest node, from this one up along the zone links,
    /// that sets `field`; `None` when none does.
    pub fn get(&self, map: &DomainRuleMap, field: RuleField) -> (r: Option<DomainRule>)
        requires
            map.wf(),
            exists|i: int| 0 <= i < map@.len() && map@[i].1 == *self,
        ensures
            r == resolve(map@, *self, field),
    {
        let mut cur: &DomainRuleTreeNode = self;
        loop
            invariant
                map.wf(),
                exists|i: int| 0 <= i < map@.len() && map@[i].1 == *cur,
                resolve(map@, *cur, field) == resolve(map@, *self, field),
            decreases cur.name@.len(),
        {
            if cur.rule.has(field) {
                return Some(cur.rule.duplicate());
            }
            match cur.zone {
                Some(z) => {
                    proof {
                        let i = choose|i: int| 0 <= i < map@.len() && map@[i].1 == *cur;
                        assert(map@[i].1.name@ == map@[i].0);
                        assert(zone_ok(map@, i, cur.zone));
                        assert(map@[z as int].1.name@ == map@[z as int].0);
                    }
                    cur = map.node(z);
                },
                None => {
                    return None;
                },
            }
        }
    }
}


/// Querying any name below a configured name `B` (with no configured name in
/// between) finds `B`'s node, and when `A` is the nearest configured ancestor
/// of `B`, the zone link of that node is the very node that querying `A`
/// finds.
pub proof fn lemma_zone_inheritance(m: DomainRuleMap, q: Labels, a: int, b: int)
    requires
        m.wf(),
        0 <= a < m@.len(),
        is_longest_match(m@, q, b),
        is_strict_ancestor(m@[a].0, m@[b].0),
        forall|j: int| key_matches(m@, parent(m@[b].0), j) ==> m@[j].0.len() <= m@[a].0.len(),
    ensures
        m@[b].1.zone == Some(a as usize),
        is_longest_match(m@, m@[a].0, a),
{
    let s = m@;
    lemma_strict_ancestor_of_parent(s[a].0, s[b].0);
    assert(key_matches(s, parent(s[b].0), a));
    assert(s[b].1.name@ == s[b].0);
    assert(zone_ok(s, b, s[b].1.zone));
    match s[b].1.zone {
        Some(z) => {
            lemma_longest_match_unique(s, parent(s[b].0), z as int, a);
        },
        None => {},
    }
    lemma_ancestor_self(s[a].0);
}

/// Entry `k` is the longest configured name, among `q` and its ancestors,
/// whose own rule sets `f`.
pub open spec fn nearest_with(s: Seq<(Labels, DomainRuleTreeNode)>, q: Labels, f: RuleField, k: int) -> bool {
    &&& key_matches(s, q, k)
    &&& has_field(s[k].1.rule, f)
    &&& forall|j: int| key_matches(s, q, j) && has_field(s[j].1.rule, f) ==> s[j].0.len() <= s[k].0.len()
}

/// Field lookup from a node gives the value set on the nearest configured
/// ancestor-or-self that sets the field, and nothing when none sets it.
pub proof fn lemma_field_inheritance(m: DomainRuleMap, i: int, f: RuleField)
    requires
        m.wf(),
        0 <= i < m@.len(),
    ensures
        match resolve(m@, m@[i].1, f) {
            Some(r) => exists|k: int| nearest_with(m@, m@[i].0, f, k) && r == m@[k].1.rule,
            None => forall|j: int| !(key_matches(m@, m@[i].0, j) && has_field(m@[j].1.rule, f)),
        },
    decreases m@[i].0.len(),
{
    let s = m@;
    let ki = s[i].0;
    assert(s[i].1.name@ == ki && zone_ok(s, i, s[i].1.zone));
    if has_field(s[i].1.rule, f) {
        lemma_ancestor_self(ki);
        assert(nearest_with(s, ki, f, i));
    } else {
        assert forall|j: int| key_matches(s, ki, j) && j != i implies is_strict_ancestor(s[j].0, ki) by {
            if s[j].0.len() == ki.len() {
                lemma_same_length_ancestor(s[j].0, ki);
            }
        }
        match s[i].1.zone {
            Some(z) => {
                let kz = s[z as int].0;
                assert(s[z as int].1.name@ == kz);
                lemma_field_inheritance(m, z as int, f);
                assert(is_ancestor_or_self(parent(ki), ki)) by {
                    assert(ki.subrange(0, parent(ki).len() as int) =~= parent(ki));
                }
                lemma_ancestor_trans(kz, parent(ki), ki);
                assert forall|j: int| key_matches(s, ki, j) && has_field(s[j].1.rule, f) implies key_matches(s, kz, j) by {
                    lemma_strict_ancestor_of_parent(s[j].0, ki);
                    assert(key_matches(s, parent(ki), j));
                    lemma_ancestors_nest(s[j].0, kz, parent(ki));
                }
                assert forall|j: int| key_matches(s, kz, j) implies key_matches(s, ki, j) by {
                    lemma_ancestor_trans(s[j].0, kz, ki);
                }
                match resolve(s, s[z as int].1, f) {
                    Some(r) => {
                        let k = choose|k: int| nearest_with(s, kz, f, k) && r == s[k].1.rule;
                        assert(nearest_with(s, ki, f, k));
                    },
                    None => {},
                }
            },
            None => {
                assert forall|j: int| !(key_matches(s, ki, j) && has_field(s[j].1.rule, f)) by {
                    if key_matches(s, ki, j) && has_field(s[j].1.rule, f) {
                        lemma_strict_ancestor_of_parent(s[j].0, ki);
                        assert(key_matches(s, parent(ki), j));
                    }
                }
            },
        }
    }
}

/// A rule for a domain set whose members are exactly `x` and `y` has the same
/// effect as a rule for `x` followed by the same rule for `y`.
pub proof fn lemma_set_expansion(
    cs: Seq<(DomainSpec, DomainRule)>,
    sets: Seq<DomainSet>,
    set_name: Seq<char>,
    x: Labels,
    y: Labels,
    rule: DomainRule,
)
    requires
        forall|n: Labels| in_set(sets, set_name, n) <==> (n == x || n == y),
    ensures
        forall|n: Labels|
            merged(cs.push((DomainSpec::InSet(set_name), rule)), sets, n) == merged(
                cs.push((DomainSpec::Name(x), rule)).push((DomainSpec::Name(y), rule)),
                sets,
                n,
            ),
        forall|n: Labels|
            configured(cs.push((DomainSpec::InSet(set_name), rule)), sets, n) == configured(
                cs.push((DomainSpec::Name(x), rule)).push((DomainSpec::Name(y), rule)),
                sets,
                n,
            ),
{
    let c1 = cs.push((DomainSpec::InSet(set_name), rule));
    let c2a = cs.push((DomainSpec::Name(x), rule));
    let c2 = c2a.push((DomainSpec::Name(y), rule));
    assert(c1.drop_last() =~= cs);
    assert(c2.drop_last() =~= c2a);
    assert(c2a.drop_last() =~= cs);
    assert forall|n: Labels| merged(c1, sets, n) == merged(c2, sets, n) by {
        let base = merged(cs, sets, n);
        assert(merged(c2a, sets, n) == if n == x { combine(base, rule) } else { base });
        assert(expands_to(DomainSpec::InSet(set_name), sets, n) == in_set(sets, set_name, n));
    }
    assert forall|n: Labels| configured(c1, sets, n) == configured(c2, sets, n) by {
        if configured(c1, sets, n) {
            let j = choose|j: int| 0 <= j < c1.len() && expands_to(c1[j].0, sets, n);
            if j < cs.len() {
                assert(c2[j] == c1[j]);
            } else if n == x {
                assert(expands_to(c2[cs.len() as int].0, sets, n));
            } else {
                assert(expands_to(c2[cs.len() as int + 1].0, sets, n));
            }
        }
        if configured(c2, sets, n) {
            let j = choose|j: int| 0 <= j < c2.len() && expands_to(c2[j].0, sets, n);
            if j < cs.len() {
                assert(c1[j] == c2[j]);
            } else {
                assert(expands_to(c1[cs.len() as int].0, sets, n));
            }
        }
    }
}

/// Two rules for one name that set different fields both take effect: each
/// field comes from the later rule when it sets it, else from the earlier.
pub proof fn lemma_field_merge(
    cs: Seq<(DomainSpec, DomainRule)>,
    sets: Seq<DomainSet>,
    n: Labels,
    d1: DomainSpec,
    r1: DomainRule,
    d2: DomainSpec,
    r2: DomainRule,
)
    requires
        expands_to(d1, sets, n),
        expands_to(d2, sets, n),
    ensures
        merged(cs.push((d1, r1)).push((d2, r2)), sets, n) == combine(combine(merged(cs, sets, n), r1), r2),
        r1.address.is_some() && r2.address.is_none() && r2.nameserver.is_some() ==> {
            let m = merged(cs.push((d1, r1)).push((d2, r2)), sets, n);
            m.address == r1.address && m.nameserver == r2.nameserver
        },
{
    let c1 = cs.push((d1, r1));
    assert(c1.drop_last() =~= cs);
    assert(c1.push((d2, r2)).drop_last() =~= c1);
    assert(merged(c1, sets, n) == combine(merged(cs, sets, n), r1));
}

} // verus!
