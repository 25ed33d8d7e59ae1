pub mod name;
pub mod domain_map;
pub mod config;
pub mod dns_rule;
pub mod rule_group;
pub mod dns_mw;
