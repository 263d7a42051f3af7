//! The shapes of the commands and queries the library answers, and of
//! their results.
use vstd::prelude::*;

use crate::codec::{concat_bytes, encode, string_key, string_key_of, str_bytes, IndexValue};
use crate::index::RangeQueryBound;

verus! {

/// How the outcomes of several selectors combine into one answer.
pub enum BooleanTest {
    And,
    Or,
    Xor,
}

/// Whether an update removes an entry or puts (adds or replaces) one.
pub enum UpdateOperation {
    Remove,
    Put,
}

pub struct WeightedTag {
    pub tag: String,
    pub weight: u16,
}

pub struct TagUpdate {
    pub op: UpdateOperation,
    pub tag: String,
    pub weight: Option<u16>,
}

pub struct IndexUpdate {
    pub name: String,
    pub value: IndexValue,
}

pub struct RelationUpdate {
    pub op: UpdateOperation,
    pub name: String,
    pub value: Option<IndexValue>,
    pub address: String,
}

/// Names a record by address, id or name.
pub enum ContractSelector {
    Address(String),
    Id(u32),
    Name(String),
}

pub struct UpdateMsg {
    pub contract: Option<ContractSelector>,
    pub indices: Option<Vec<IndexUpdate>>,
    pub relations: Option<Vec<RelationUpdate>>,
    pub tags: Option<Vec<TagUpdate>>,
}

/// A built-in index, or a custom index by name.
pub enum IndexSelector {
    Custom(String),
    CreatedBy,
    CreatedAt,
    UpdatedAt,
    CodeId,
    Admin,
    Tag,
}

/// A tag, with optional inclusive bounds on its weight.
pub struct TagSelector {
    pub tag: String,
    pub min_weight: Option<u16>,
    pub max_weight: Option<u16>,
}

/// A relation label with an optional attached value.
pub struct NameValue {
    pub name: String,
    pub value: Option<IndexValue>,
}

/// The edge bytes of a label and optional value: the label's string key,
/// followed by the value's key bytes when there is a value.
pub open spec fn edge_bytes(name: Seq<char>, value: Option<IndexValue>) -> Seq<u8> {
    match value {
        None => string_key(str_bytes(name)),
        Some(v) => string_key(str_bytes(name)) + encode(v),
    }
}

impl NameValue {
    pub fn as_edge_bytes(&self) -> (r: Vec<u8>)
        ensures
            r@ == edge_bytes(self.name@, self.value),
    {
        let label = string_key_of(&self.name);
        match &self.value {
            None => label,
            Some(v) => {
                let vb = v.to_bytes();
                concat_bytes(label.as_slice(), vb.as_slice())
            },
        }
    }
}

pub enum IndexRangeBound {
    Exclusive(IndexValue),
    Inclusive(IndexValue),
}

pub enum TagWeightRangeBound {
    Exclusive(u16),
    Inclusive(u16),
}

pub struct ContractsInRangeQueryParams {
    pub cursor: Option<(Vec<u8>, u32)>,
    pub index: IndexSelector,
    pub start: Option<IndexRangeBound>,
    pub stop: Option<IndexRangeBound>,
    pub limit: Option<u16>,
    pub desc: Option<bool>,
}

pub struct ContractsByIndexResponse {
    pub addresses: Vec<String>,
    pub cursor: Option<(Vec<u8>, u32)>,
}

pub struct ContractsByTagQueryParams {
    pub cursor: Option<(Vec<u8>, u16, u32)>,
    pub tag: String,
    pub min_weight: Option<TagWeightRangeBound>,
    pub max_weight: Option<TagWeightRangeBound>,
    pub limit: Option<u16>,
    pub desc: Option<bool>,
}

pub struct ContractsByTagResponse {
    pub addresses: Vec<String>,
    pub weights: Vec<u16>,
    pub cursor: Option<(Vec<u8>, u16, u32)>,
}

pub struct ContractsRelatedToParams {
    pub cursor: Option<(u32, Vec<u8>)>,
    pub limit: Option<u16>,
    pub desc: Option<bool>,
    pub address: String,
    pub start: Option<RangeQueryBound<NameValue>>,
    pub stop: Option<RangeQueryBound<NameValue>>,
}

pub struct ContractsRelatedToResponse {
    pub addresses: Vec<String>,
    pub values: Vec<Option<IndexValue>>,
    pub cursor: Option<(u32, Vec<u8>)>,
}

pub struct ContractTagsQueryParams {
    pub contract: String,
    pub cursor: Option<String>,
    pub start: Option<RangeQueryBound<String>>,
    pub stop: Option<RangeQueryBound<String>>,
    pub limit: Option<u16>,
    pub desc: Option<bool>,
}

pub struct ContractTagsResponse {
    pub cursor: Option<String>,
    pub tags: Vec<WeightedTag>,
}

pub struct ContractHasTagsQueryParams {
    pub contract: String,
    pub test: BooleanTest,
    pub tags: Vec<TagSelector>,
}

pub struct ContractHasRelationsQueryParams {
    pub test: BooleanTest,
    pub relations: Vec<NameValue>,
    pub contract_address: String,
    pub address: String,
}

pub struct ContractRelationsQueryParams {
    pub contract: String,
    pub cursor: Option<(Vec<u8>, String)>,
    pub start: Option<RangeQueryBound<NameValue>>,
    pub stop: Option<RangeQueryBound<NameValue>>,
    pub limit: Option<u16>,
    pub desc: Option<bool>,
}

pub struct RelatedAddress {
    pub address: String,
    pub name: String,
    pub value: Option<IndexValue>,
}

pub struct ContractRelationsResponse {
    pub cursor: Option<(Vec<u8>, String)>,
    pub relations: Vec<RelatedAddress>,
}

pub struct ContractMetadataResponse {
    pub created_at: u64,
    pub created_by: String,
    pub updated_at: u64,
    pub name: Option<String>,
    pub code_id: u64,
    pub admin: String,
}

pub enum MigrationsQueryMsg {
    Session(String),
}

pub enum PresetsQueryMsg {
    Get { name: String },
    Paginate { cursor: Option<String> },
}

pub struct MigrateMsg {}

} // verus!
