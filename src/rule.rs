use vstd::prelude::*;
use crate::hierarchy::{table_view, slot_id, Hierarchy, Rule, RuleStep, RuleType};
use crate::augment::{augment, augment_post, ascending, fresh_id, floor_of, AugmentError};
use crate::partition::{partition, candidates, domains_match, FailureDomain, NodeFact};

verus! {

/// Opcode of the step that starts selection at a bucket.
pub const OP_TAKE: u16 = 1;

/// Opcode of the step that emits what was selected.
pub const OP_EMIT: u16 = 4;

/// Opcode of the step that picks leaves below distinct items of a type.
pub const OP_CHOOSELEAF_FIRSTN: u16 = 6;

/// The replaceable parameters of the placement rule.
pub struct RulePolicy {
    pub ruleset: u8,
    pub min_size: u8,
    pub max_size: u8,
    /// How many replicas to choose; 0 means as many as the pool asks for.
    pub replicas: i32,
    /// The type code of the items below which leaves are chosen.
    pub leaf_type: i32,
    pub name: String,
}

pub open spec fn replicated_name() -> Seq<char> {
    seq!['r', 'e', 'p', 'l', 'i', 'c', 'a', 't', 'e', 'd', '_', 'r', 'u', 'l', 'e', 's', 'e', 't']
}

impl RulePolicy {
    /// The standard replicated rule: ruleset 0, between 1 and 10 replicas,
    /// leaves chosen below distinct hosts.
    pub fn replicated() -> (r: RulePolicy)
        ensures
            r.ruleset == 0,
            r.min_size == 1,
            r.max_size == 10,
            r.replicas == 0,
            r.leaf_type == 1,
            r.name@ == replicated_name(),
    {
        proof {
            reveal_strlit("replicated_ruleset");
        }
        RulePolicy {
            ruleset: 0,
            min_size: 1,
            max_size: 10,
            replicas: 0,
            leaf_type: 1,
            name: "replicated_ruleset".to_string(),
        }
    }
}

/// The steps of the rule: take `root`, choose leaves, emit.
pub open spec fn rule_steps_match(steps: Seq<RuleStep>, root: i32, policy: RulePolicy) -> bool {
    &&& steps.len() == 3
    &&& steps[0].op == OP_TAKE && steps[0].arg1 == (root, None::<String>) && steps[0].arg2 == (0i32, None::<String>)
    &&& steps[1].op == OP_CHOOSELEAF_FIRSTN && steps[1].arg1 == (policy.replicas, None::<String>)
        && steps[1].arg2 == (policy.leaf_type, None::<String>)
    &&& steps[2].op == OP_EMIT && steps[2].arg1 == (0i32, None::<String>) && steps[2].arg2 == (0i32, None::<String>)
}

/// What `bind_rule` returns for `h`, `root` and `policy`.
pub open spec fn bind_post(h: Hierarchy, root: i32, policy: RulePolicy, r: Hierarchy) -> bool {
    &&& r.rules@.len() == 1
    &&& r.rules@[0] matches Some(rule) && {
        &&& rule.ruleset == policy.ruleset
        &&& rule.rule_type is Replicated
        &&& rule.min_size == policy.min_size
        &&& rule.max_size == policy.max_size
        &&& rule_steps_match(rule.steps@, root, policy)
    }
    &&& r.max_rules == 1
    &&& table_view(r.rule_name_map@) == seq![(policy.ruleset as i32, policy.name@)]
    &&& r.magic == h.magic && r.max_buckets == h.max_buckets && r.max_devices == h.max_devices
    &&& r.buckets == h.buckets && r.type_map == h.type_map && r.name_map == h.name_map
    &&& r.tunables == h.tunables
}

/// Replaces the rules of `h` by the one replicated rule of `policy`,
/// rooted at bucket `root`, registered under the policy's name.
pub fn bind_rule(h: Hierarchy, root: i32, policy: &RulePolicy) -> (r: Hierarchy)
    ensures
        bind_post(h, root, *policy, r),
{
    let mut steps: Vec<RuleStep> = Vec::new();
    steps.push(RuleStep { op: OP_TAKE, arg1: (root, None), arg2: (0, None) });
    steps.push(RuleStep { op: OP_CHOOSELEAF_FIRSTN, arg1: (policy.replicas, None), arg2: (policy.leaf_type, None) });
    steps.push(RuleStep { op: OP_EMIT, arg1: (0, None), arg2: (0, None) });
    let rule = Rule {
        ruleset: policy.ruleset,
        rule_type: RuleType::Replicated,
        min_size: policy.min_size,
        max_size: policy.max_size,
        steps,
    };
    let mut rules: Vec<Option<Rule>> = Vec::new();
    rules.push(Some(rule));
    let mut rule_names: Vec<(i32, String)> = Vec::new();
    rule_names.push((policy.ruleset as i32, policy.name.clone()));
    assert(table_view(rule_names@) =~= seq![(policy.ruleset as i32, policy.name@)]);
    Hierarchy {
        magic: h.magic,
        max_buckets: h.max_buckets,
        max_rules: 1,
        max_devices: h.max_devices,
        buckets: h.buckets,
        rules,
        type_map: h.type_map,
        name_map: h.name_map,
        rule_name_map: rule_names,
        tunables: h.tunables,
    }
}

/// The identifier of the last bucket slot, where that slot holds a bucket.
pub fn last_bucket_id(h: &Hierarchy) -> (r: Option<i32>)
    ensures
        h.buckets@.len() == 0 ==> r is None,
        h.buckets@.len() > 0 ==> r == slot_id(h.buckets@.last()),
{
    let n = h.buckets.len();
    if n == 0 {
        None
    } else {
        match &h.buckets[n - 1] {
            Some(b) => Some(b.id),
            None => None,
        }
    }
}

/// The whole pass: groups the facts into failure domains, adds their
/// buckets and the aggregation bucket to `h`, and roots the policy's rule at
/// the new aggregation bucket.
pub fn rebuild(facts: &Vec<NodeFact>, h: Hierarchy, policy: &RulePolicy) -> (r: Result<Hierarchy, AugmentError>)
    ensures
        exists|d: Seq<FailureDomain>| #[trigger] domains_match(d, candidates(facts@)) && {
            &&& r is Err ==> augment_post(h, d, r)
            &&& r matches Ok(g) ==> exists|g1: Hierarchy| #[trigger] augment_post(h, d, Ok(g1))
                && bind_post(g1, fresh_id(floor_of(h), d.len() as int) as i32, *policy, g)
        },
{
    let domains = partition(facts);
    assert(ascending(domains@)) by {
        assert forall|i: int, j: int| 0 <= i < j < domains@.len() implies domains@[i].id < domains@[j].id by {
            assert(domains@[i].id == i && domains@[j].id == j);
        }
    }
    let ghost d = domains@;
    match augment(h, &domains) {
        Err(e) => {
            assert(domains_match(d, candidates(facts@)));
            Err(e)
        },
        Ok(g1) => {
            let root = match last_bucket_id(&g1) {
                Some(id) => id,
                None => {
                    assert(false);
                    0
                },
            };
            assert(root == fresh_id(floor_of(h), d.len() as int) as i32);
            let g = bind_rule(g1, root, policy);
            assert(augment_post(h, d, Ok(g1)));
            assert(domains_match(d, candidates(facts@)));
            Ok(g)
        },
    }
}

} // verus!
