use vstd::prelude::*;

use crate::name::{Labels, WildcardName};

verus! {

/// A static answer for a domain.
#[derive(Clone, Copy, Debug, PartialEq, Eq, Structural)]
pub enum DomainAddress {
    IPv4(u32),
    IPv6(u128),
    Soa,
    Ignore,
}

/// A synthetic SRV record.
#[derive(Debug, PartialEq, Eq)]
pub struct SrvRecord {
    pub target: String,
    pub port: u16,
    pub priority: u16,
    pub weight: u16,
}

impl SrvRecord {
    /// A copy of this record.
    pub fn duplicate(&self) -> (r: SrvRecord)
        ensures
            r == *self,
    {
        SrvRecord {
            target: self.target.clone(),
            port: self.port,
            priority: self.priority,
            weight: self.weight,
        }
    }
}

fn copy_text(o: &Option<String>) -> (r: Option<String>)
    ensures
        r == *o,
{
    match o {
        Some(s) => Some(s.clone()),
        None => None,
    }
}

/// The configuration of one domain; every field may be left unset.
#[derive(Debug, PartialEq, Eq)]
pub struct DomainRule {
    pub address: Option<DomainAddress>,
    pub nameserver: Option<String>,
    pub cname: Option<String>,
    pub srv: Option<SrvRecord>,
    pub nftset: Option<String>,
}

/// The fields of a `DomainRule`.
#[derive(Clone, Copy, Debug, PartialEq, Eq, Structural)]
pub enum RuleField {
    Address,
    Nameserver,
    Cname,
    Srv,
    Nftset,
}

/// A rule with no field set.
pub open spec fn empty_rule() -> DomainRule {
    DomainRule { address: None, nameserver: None, cname: None, srv: None, nftset: None }
}

/// `a` with each field that `b` sets taken from `b`.
pub open spec fn combine(a: DomainRule, b: DomainRule) -> DomainRule {
    DomainRule {
        address: if b.address.is_some() { b.address } else { a.address },
        nameserver: if b.nameserver.is_some() { b.nameserver } else { a.nameserver },
        cname: if b.cname.is_some() { b.cname } else { a.cname },
        srv: if b.srv.is_some() { b.srv } else { a.srv },
        nftset: if b.nftset.is_some() { b.nftset } else { a.nftset },
    }
}

/// Whether `r` sets field `f`.
pub open spec fn has_field(r: DomainRule, f: RuleField) -> bool {
    match f {
        RuleField::Address => r.address.is_some(),
        RuleField::Nameserver => r.nameserver.is_some(),
        RuleField::Cname => r.cname.is_some(),
        RuleField::Srv => r.srv.is_some(),
        RuleField::Nftset => r.nftset.is_some(),
    }
}

impl DomainRule {
    /// A rule with no field set.
    pub fn empty() -> (r: DomainRule)
        ensures
            r == empty_rule(),
    {
        DomainRule { address: None, nameserver: None, cname: None, srv: None, nftset: None }
    }

    /// A copy of this rule.
    pub fn duplicate(&self) -> (r: DomainRule)
        ensures
            r == *self,
    {
        DomainRule {
            address: self.address,
            nameserver: copy_text(&self.nameserver),
            cname: copy_text(&self.cname),
            srv: match &self.srv {
                Some(s) => Some(s.duplicate()),
                None => None,
            },
            nftset: copy_text(&self.nftset),
        }
    }

    /// Sets each field that `other` sets to `other`'s value, keeping the rest.
    pub fn merge(&mut self, other: &DomainRule)
        ensures
            *final(self) == combine(*old(self), *other),
    {
        if other.address.is_some() {
            self.address = other.address;
        }
        if other.nameserver.is_some() {
            self.nameserver = copy_text(&other.nameserver);
        }
        if other.cname.is_some() {
            self.cname = copy_text(&other.cname);
        }
        if other.srv.is_some() {
            self.srv = match &other.srv {
                Some(s) => Some(s.duplicate()),
                None => None,
            };
        }
        if other.nftset.is_some() {
            self.nftset = copy_text(&other.nftset);
        }
    }

    /// Whether field `f` is set.
    pub fn has(&self, f: RuleField) -> (r: bool)
        ensures
            r == has_field(*self, f),
    {
        match f {
            RuleField::Address => self.address.is_some(),
            RuleField::Nameserver => self.nameserver.is_some(),
            RuleField::Cname => self.cname.is_some(),
            RuleField::Srv => self.srv.is_some(),
            RuleField::Nftset => self.nftset.is_some(),
        }
    }
}

/// What a rule applies to, as a value.
pub enum DomainSpec {
    Name(Labels),
    InSet(Seq<char>),
}

/// What a rule applies to: one name, or every member of a named domain set.
#[derive(Debug, PartialEq, Eq)]
pub enum Domain {
    Name(WildcardName),
    InSet(String),
}

impl View for Domain {
    type V = DomainSpec;

    open spec fn view(&self) -> DomainSpec {
        match self {
            Domain::Name(n) => DomainSpec::Name(n@),
            Domain::InSet(s) => DomainSpec::InSet(s@),
        }
    }
}

/// A named list of domains that rules may refer to.
#[derive(Debug)]
pub struct DomainSet {
    pub name: String,
    pub members: Vec<WildcardName>,
}

/// A per-domain setting of type `T`.
#[derive(Debug)]
pub struct ConfigForDomain<T> {
    pub domain: Domain,
    pub config: T,
}

/// A static answer for a domain.
#[derive(Debug)]
pub struct AddressRule {
    pub domain: Domain,
    pub address: DomainAddress,
}

/// The nameserver group a domain is forwarded to.
#[derive(Debug)]
pub struct ForwardRule {
    pub domain: Domain,
    pub nameserver: String,
}

pub type DomainRules = Vec<ConfigForDomain<DomainRule>>;

pub type AddressRules = Vec<AddressRule>;

pub type ForwardRules = Vec<ForwardRule>;

pub type DomainSets = Vec<DomainSet>;

pub type CNameRules = Vec<ConfigForDomain<String>>;

pub type SrvRecords = Vec<ConfigForDomain<SrvRecord>>;

pub type NftsetRules = Vec<ConfigForDomain<String>>;

} // verus!
