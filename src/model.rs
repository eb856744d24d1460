use vstd::prelude::*;

verus! {

/// A typed configuration document.
#[derive(Debug)]
pub struct SysmonConfig {
    pub schema_version: String,
    pub event_filtering: Option<EventFiltering>,
    pub hash_algorithms: Option<String>,
    pub check_revocation: Option<bool>,
    pub dns_lookup: Option<bool>,
}

/// The section that holds the rule groups.
#[derive(Debug)]
pub struct EventFiltering {
    pub rule_groups: Vec<RuleGroup>,
}

/// A named group of rules, with its event blocks keyed by event type.
#[derive(Debug)]
pub struct RuleGroup {
    pub name: String,
    pub group_relation: String,
    pub events: Vec<(String, EventRules)>,
}

/// The rules of one event type, keyed by field.
#[derive(Debug)]
pub struct EventRules {
    pub onmatch: String,
    pub rules: Vec<(String, Vec<Rule>)>,
}

/// One condition on a field.
#[derive(Debug)]
pub struct Rule {
    pub condition: String,
    pub value: String,
}

} // verus!
