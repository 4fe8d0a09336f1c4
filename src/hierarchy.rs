use vstd::prelude::*;

verus! {

/// The placement algorithm of a bucket, with the data that only it carries.
pub enum BucketAlg {
    Uniform { item_weight: u32 },
    List { item_weights: Vec<(u32, u32)> },
    Tree { num_nodes: u8, node_weights: Vec<u32> },
    Straw { item_weights: Vec<(u32, u32)> },
}

/// A non-leaf node of the hierarchy. Items are (identifier, optional name).
pub struct Bucket {
    pub struct_size: u32,
    pub id: i32,
    pub type_code: u16,
    pub hash: u8,
    pub weight: u32,
    pub items: Vec<(i32, Option<String>)>,
    pub perm_n: u32,
    pub perm: u32,
    pub alg: BucketAlg,
}

impl Bucket {
    /// The bucket's identifier, whatever its algorithm.
    pub fn id(&self) -> (r: i32)
        ensures
            r == self.id,
    {
        self.id
    }

    /// The bucket's type code, whatever its algorithm.
    pub fn type_code(&self) -> (r: u16)
        ensures
            r == self.type_code,
    {
        self.type_code
    }

    /// The bucket's weight, whatever its algorithm.
    pub fn weight(&self) -> (r: u32)
        ensures
            r == self.weight,
    {
        self.weight
    }
}

/// What a placement rule is for.
pub enum RuleType {
    Replicated,
    Raid4,
    Erasure,
}

/// One step of a placement rule: an opcode and two arguments.
pub struct RuleStep {
    pub op: u16,
    pub arg1: (i32, Option<String>),
    pub arg2: (i32, Option<String>),
}

/// A placement rule: its mask and its ordered steps.
pub struct Rule {
    pub ruleset: u8,
    pub rule_type: RuleType,
    pub min_size: u8,
    pub max_size: u8,
    pub steps: Vec<RuleStep>,
}

/// Scalar tunables of a hierarchy; absent ones are left out when encoded.
pub struct Tunables {
    pub choose_local_tries: Option<u32>,
    pub choose_local_fallback_tries: Option<u32>,
    pub choose_total_tries: Option<u32>,
    pub chooseleaf_descend_once: Option<u32>,
    pub chooseleaf_vary_r: Option<u8>,
    pub straw_calc_version: Option<u8>,
    pub choose_tries: Option<u32>,
}

/// A placement hierarchy. A bucket slot holds `None` where the encoded
/// form has an empty slot; a rule slot likewise.
pub struct Hierarchy {
    pub magic: u32,
    pub max_buckets: i32,
    pub max_rules: u32,
    pub max_devices: i32,
    pub buckets: Vec<Option<Bucket>>,
    pub rules: Vec<Option<Rule>>,
    pub type_map: Vec<(i32, String)>,
    pub name_map: Vec<(i32, String)>,
    pub rule_name_map: Vec<(i32, String)>,
    pub tunables: Tunables,
}

/// An identifier table as (identifier, name text) pairs.
pub open spec fn table_view(t: Seq<(i32, String)>) -> Seq<(i32, Seq<char>)> {
    t.map_values(|e: (i32, String)| (e.0, e.1@))
}

/// The identifiers of the items of a bucket.
pub open spec fn item_ids(items: Seq<(i32, Option<String>)>) -> Seq<i32> {
    items.map_values(|e: (i32, Option<String>)| e.0)
}

/// The identifier of a bucket slot, if it holds a bucket.
pub open spec fn slot_id(s: Option<Bucket>) -> Option<i32> {
    match s {
        Some(b) => Some(b.id),
        None => None,
    }
}

pub open spec fn slot_ids(s: Seq<Option<Bucket>>) -> Seq<Option<i32>> {
    s.map_values(|b: Option<Bucket>| slot_id(b))
}

} // verus!
