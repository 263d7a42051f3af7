//! The record directory: id allocation, the creation workflow's two
//! phases, the id/address/name maps and the built-in metadata indices.
use vstd::prelude::*;
use vstd::string::*;

use crate::attributes::AttributeIndex;
use crate::codec::{concat_bytes, le_bytes, le_bytes_of, string_key, string_key_of, str_bytes, IndexValue};
use crate::error::ContractError;
use crate::index::{bound_view, keys_view, scan_spec, IndexKey, KeyBound, OrderedIndex, RangeQueryBound};
use crate::keys::{KeyView, MAX_SIZEOF_STRING_KEY};
use crate::msg::{edge_bytes, ContractSelector, IndexSelector, NameValue};
use crate::relations::RelationIndex;
use crate::tags::TagIndex;

verus! {

pub struct Config {
    pub managed_by: String,
    pub default_code_id: Option<u64>,
    pub allowed_code_ids: Vec<u64>,
}

/// What the creation of a record remembers until its reply arrives.
pub struct SubMsgContext {
    pub code_id: u64,
    pub contract_id: u32,
    pub created_by: String,
    pub name: Option<String>,
    pub admin: String,
}

pub struct PendingCreation {
    pub reply_id: u64,
    pub context: SubMsgContext,
}

/// A request to create a record from a code template.
pub struct CreateMsg {
    pub code_id: Option<u64>,
    pub instantiate_msg: Vec<u8>,
    pub name: Option<String>,
    pub label: String,
    pub admin: Option<String>,
}

/// The command that instantiates a new record; its reply carries the new
/// record's address.
pub struct InstantiateCommand {
    pub code_id: u64,
    pub msg: Vec<u8>,
    pub label: String,
    pub admin: String,
    pub reply_id: u64,
}

/// The metadata of a registered record.
pub struct RecordMeta {
    pub id: u32,
    pub created_at: u64,
    pub created_by: String,
    pub updated_at: u64,
    pub name: Option<String>,
    pub code_id: u64,
    pub admin: String,
}

/// A custom index and its name.
pub struct CustomIndex {
    pub name: String,
    pub index: AttributeIndex,
}

/// The state of the registry.
pub struct Factory {
    pub(crate) config: Config,
    pub(crate) contract_id_counter: u32,
    pub(crate) reply_id_counter: u64,
    pub(crate) contract_counter: u32,
    pub(crate) pending: Vec<PendingCreation>,
    pub(crate) directory: OrderedIndex,
    pub(crate) by_address: OrderedIndex,
    pub(crate) by_name: OrderedIndex,
    pub(crate) code_ids: OrderedIndex,
    pub(crate) created_at: OrderedIndex,
    pub(crate) created_by: OrderedIndex,
    pub(crate) admins: OrderedIndex,
    pub(crate) updated_at: AttributeIndex,
    pub(crate) custom: Vec<CustomIndex>,
    pub(crate) tags: TagIndex,
    pub(crate) relations: RelationIndex,
    pub(crate) meta: Vec<RecordMeta>,
}

/// The key of an optional name.
pub open spec fn name_key_of(n: Option<String>) -> Seq<u8> {
    match n {
        Some(x) => string_key(str_bytes(x@)),
        None => Seq::empty(),
    }
}

/// A record's metadata after record `id` was updated at `now`.
pub open spec fn stamped(m: RecordMeta, id: u32, now: u64) -> RecordMeta {
    if m.id == id {
        RecordMeta { updated_at: now, ..m }
    } else {
        m
    }
}

pub open spec fn weight_or_zero(w: Option<u16>) -> u16 {
    match w {
        Some(x) => x,
        None => 0,
    }
}

pub open spec fn is_address_value(v: Option<IndexValue>) -> bool {
    v matches Some(IndexValue::String(_))
}

/// The bound that resumes a directory scan strictly after `after`.
pub open spec fn after_bound(after: Option<u32>) -> KeyBound {
    match after {
        None => None,
        Some(c) => Some(((Seq::<u8>::empty(), c), false)),
    }
}

/// The directory key of a record id.
pub open spec fn dir_key(id: u32) -> KeyView {
    (Seq::<u8>::empty(), id)
}

/// The key bytes of a code id.
pub open spec fn code_key(code_id: u64) -> Seq<u8> {
    le_bytes(code_id as nat, 8)
}

impl Factory {
    /// The configuration.
    pub closed spec fn configuration(&self) -> Config {
        self.config
    }

    pub fn config(&self) -> (r: &Config)
        ensures
            *r == self.configuration(),
    {
        &self.config
    }

    /// The next record id to be handed out.
    pub closed spec fn next_id(&self) -> u32 {
        self.contract_id_counter
    }

    /// The next correlation id to be handed out.
    pub closed spec fn next_reply_id(&self) -> u64 {
        self.reply_id_counter
    }

    /// The number of records registered.
    pub closed spec fn record_count(&self) -> u32 {
        self.contract_counter
    }

    /// The registered record ids, ascending, as directory keys.
    pub closed spec fn directory(&self) -> Seq<KeyView> {
        self.directory@
    }

    /// The address of a registered record.
    pub closed spec fn address_of(&self, id: u32) -> Option<Seq<char>> {
        if self.directory.keys().contains(dir_key(id)) {
            match self.directory.values()[dir_key(id)] {
                Some(IndexValue::String(s)) => Some(s@),
                _ => None,
            }
        } else {
            None
        }
    }

    /// The code-id index, ascending.
    pub closed spec fn code_index(&self) -> Seq<KeyView> {
        self.code_ids@
    }

    pub closed spec fn code_index_keys(&self) -> Set<KeyView> {
        self.code_ids.keys()
    }

    pub closed spec fn tag_index(&self) -> TagIndex {
        self.tags
    }

    pub closed spec fn relation_index(&self) -> RelationIndex {
        self.relations
    }

    pub closed spec fn updated_at_index(&self) -> AttributeIndex {
        self.updated_at
    }

    /// The metadata of the registered records, in order of registration.
    pub closed spec fn records_meta(&self) -> Seq<RecordMeta> {
        self.meta@
    }

    pub closed spec fn pending_creations(&self) -> Seq<PendingCreation> {
        self.pending@
    }

    pub closed spec fn wf(&self) -> bool {
        &&& self.directory.wf()
        &&& self.by_address.wf()
        &&& self.by_name.wf()
        &&& self.code_ids.wf()
        &&& self.created_at.wf()
        &&& self.created_by.wf()
        &&& self.admins.wf()
        &&& self.updated_at.wf()
        &&& self.tags.wf()
        &&& self.relations.wf()
        &&& forall|i: int| 0 <= i < self.custom@.len() ==> (#[trigger] self.custom@[i]).index.wf()
        &&& forall|a: int, b: int|
            0 <= a < b < self.custom@.len() ==> (#[trigger] self.custom@[a]).name@ != (
            #[trigger] self.custom@[b]).name@
        &&& forall|k: KeyView| #[trigger]
            self.by_address.keys().contains(k) ==> k.0.len() == MAX_SIZEOF_STRING_KEY
        &&& forall|k: KeyView| #[trigger]
            self.by_name.keys().contains(k) ==> k.0.len() == MAX_SIZEOF_STRING_KEY
        &&& forall|a: KeyView, b: KeyView|
            #[trigger] self.by_address.keys().contains(a) && #[trigger] self.by_address.keys().contains(b)
                && a.0 == b.0 ==> a.1 == b.1
        &&& forall|a: KeyView, b: KeyView|
            #[trigger] self.by_name.keys().contains(a) && #[trigger] self.by_name.keys().contains(b)
                && a.0 == b.0 ==> a.1 == b.1
        &&& forall|k: KeyView| #[trigger]
            self.directory.keys().contains(k) ==> k.0 == Seq::<u8>::empty() && k.1
                < self.contract_id_counter && is_address_value(self.directory.values()[k])
        &&& forall|i: int|
            0 <= i < self.pending@.len() ==> (#[trigger] self.pending@[i]).context.contract_id
                < self.contract_id_counter
    }

    /// An empty registry with the given configuration.
    pub fn new(config: Config) -> (r: Factory)
        ensures
            r.wf(),
            r.next_id() == 0,
            r.next_reply_id() == 0,
            r.record_count() == 0,
            r.directory() == Seq::<KeyView>::empty(),
            r.tag_index().weights() == Map::<(u32, Seq<u8>), u16>::empty(),
            r.relation_index().edges().is_empty(),
    {
        Factory {
            config,
            contract_id_counter: 0,
            reply_id_counter: 0,
            contract_counter: 0,
            pending: Vec::new(),
            directory: OrderedIndex::new(),
            by_address: OrderedIndex::new(),
            by_name: OrderedIndex::new(),
            code_ids: OrderedIndex::new(),
            created_at: OrderedIndex::new(),
            created_by: OrderedIndex::new(),
            admins: OrderedIndex::new(),
            updated_at: AttributeIndex::new(),
            custom: Vec::new(),
            tags: TagIndex::new(),
            relations: RelationIndex::new(),
            meta: Vec::new(),
        }
    }

    /// Hands out the next record id.
    pub fn allocate_id(&mut self) -> (r: Result<u32, ContractError>)
        requires
            old(self).wf(),
        ensures
            final(self).wf(),
            old(self).next_id() == u32::MAX <==> r is Err,
            r matches Err(e) ==> e == ContractError::Overflow && *final(self) == *old(self),
            r matches Ok(id) ==> id == old(self).next_id() && final(self).next_id() == id + 1
                && final(self).directory() == old(self).directory() && final(self).next_reply_id()
                == old(self).next_reply_id(),
    {
        if self.contract_id_counter == u32::MAX {
            return Err(ContractError::Overflow);
        }
        let id = self.contract_id_counter;
        self.contract_id_counter = id + 1;
        Ok(id)
    }

    pub fn next_reply_id_exec(&self) -> (r: u64)
        ensures
            r == self.next_reply_id(),
    {
        self.reply_id_counter
    }

    /// Hands out the next correlation id.
    pub fn allocate_reply_id(&mut self) -> (r: Result<u64, ContractError>)
        requires
            old(self).wf(),
        ensures
            final(self).wf(),
            old(self).next_reply_id() == u64::MAX <==> r is Err,
            r matches Err(e) ==> e == ContractError::Overflow && *final(self) == *old(self),
            r matches Ok(id) ==> id == old(self).next_reply_id() && final(self).next_reply_id()
                == id + 1 && final(self).next_id() == old(self).next_id() && final(self).directory()
                == old(self).directory() && final(self).code_index() == old(self).code_index()
                && final(self).code_index_keys() == old(self).code_index_keys() && (forall|j: u32|
                #[trigger] final(self).address_of(j) == old(self).address_of(j)),
    {
        if self.reply_id_counter == u64::MAX {
            return Err(ContractError::Overflow);
        }
        let id = self.reply_id_counter;
        self.reply_id_counter = id + 1;
        Ok(id)
    }

    /// The address key index.
    pub closed spec fn address_index_keys(&self) -> Set<KeyView> {
        self.by_address.keys()
    }

    /// The name key index.
    pub closed spec fn name_index_keys(&self) -> Set<KeyView> {
        self.by_name.keys()
    }

    /// Whether a record is registered under address `a`.
    pub open spec fn address_taken(&self, a: Seq<char>) -> bool {
        exists|id: u32| #[trigger] self.address_index_keys().contains((string_key(str_bytes(a)), id))
    }

    /// Whether a record is registered under name `n`.
    pub open spec fn name_taken(&self, n: Seq<char>) -> bool {
        exists|id: u32| #[trigger] self.name_index_keys().contains((string_key(str_bytes(n)), id))
    }

    /// The name the pending creation with correlation id `reply_id` asks for.
    pub open spec fn pending_name(&self, reply_id: u64) -> Option<String> {
        self.pending_creations()[self.pending_index(reply_id)].context.name
    }

    /// Whether the pending creation's address or name is already taken.
    pub open spec fn registration_clashes(&self, reply_id: u64, address: Seq<char>) -> bool {
        self.address_taken(address) || (self.pending_name(reply_id) matches Some(n) && self.name_taken(
            n@,
        ))
    }

    /// Whether `sel` names the record `id`.
    pub open spec fn resolves(&self, sel: ContractSelector, id: u32) -> bool {
        match sel {
            ContractSelector::Address(a) => self.address_index_keys().contains(
                (string_key(str_bytes(a@)), id),
            ),
            ContractSelector::Id(i) => i == id && self.directory().contains(dir_key(i)),
            ContractSelector::Name(n) => self.name_index_keys().contains(
                (string_key(str_bytes(n@)), id),
            ),
        }
    }

    /// The id of the record a selector names; `NotFound` when there is none.
    pub fn resolve(&self, sel: &ContractSelector) -> (r: Result<u32, ContractError>)
        requires
            self.wf(),
        ensures
            r matches Ok(id) ==> self.resolves(*sel, id),
            r is Err ==> r == Err::<u32, ContractError>(ContractError::NotFound) && forall|id: u32|
                !self.resolves(*sel, id),
    {
        match sel {
            ContractSelector::Id(i) => {
                let no_bytes: Vec<u8> = Vec::new();
                if self.directory.contains(no_bytes.as_slice(), *i) {
                    Ok(*i)
                } else {
                    Err(ContractError::NotFound)
                }
            },
            ContractSelector::Address(a) => {
                let k = string_key_of(a);
                match self.by_address.first_with_prefix(k.as_slice()) {
                    Some(e) => {
                        assert(e.bytes@ =~= k@);
                        Ok(e.id)
                    },
                    None => {
                        assert forall|id: u32| !self.resolves(*sel, id) by {
                            assert(k@.is_prefix_of(k@));
                        }
                        Err(ContractError::NotFound)
                    },
                }
            },
            ContractSelector::Name(n) => {
                let k = string_key_of(n);
                match self.by_name.first_with_prefix(k.as_slice()) {
                    Some(e) => {
                        assert(e.bytes@ =~= k@);
                        Ok(e.id)
                    },
                    None => {
                        assert forall|id: u32| !self.resolves(*sel, id) by {
                            assert(k@.is_prefix_of(k@));
                        }
                        Err(ContractError::NotFound)
                    },
                }
            },
        }
    }

    /// Whether a custom index named `name` exists.
    pub closed spec fn has_custom(&self, name: Seq<char>) -> bool {
        exists|i: int| 0 <= i < self.custom@.len() && (#[trigger] self.custom@[i]).name@ == name
    }

    /// The custom index named `name`, when it exists.
    pub closed spec fn custom_index(&self, name: Seq<char>) -> AttributeIndex {
        self.custom@[choose|i: int|
            0 <= i < self.custom@.len() && (#[trigger] self.custom@[i]).name@ == name].index
    }

    /// The current value bytes of each record in the custom index `name`.
    pub open spec fn custom_current(&self, name: Seq<char>) -> Map<u32, Seq<u8>> {
        if self.has_custom(name) {
            self.custom_index(name).current()
        } else {
            Map::empty()
        }
    }

    fn find_custom(&self, name: &String) -> (r: Option<usize>)
        requires
            self.wf(),
        ensures
            r matches Some(i) ==> i < self.custom@.len() && self.custom@[i as int].name@ == name@
                && self.has_custom(name@) && self.custom_index(name@) == self.custom@[i as int].index,
            r is None ==> !self.has_custom(name@),
    {
        let mut i: usize = 0;
        while i < self.custom.len()
            invariant
                self.wf(),
                i <= self.custom@.len(),
                forall|j: int| 0 <= j < i ==> (#[trigger] self.custom@[j]).name@ != name@,
            decreases self.custom@.len() - i,
        {
            if self.custom[i].name == *name {
                proof {
                    assert(self.custom@[i as int].name@ == name@);
                    assert(self.has_custom(name@));
                    let c = choose|j: int|
                        0 <= j < self.custom@.len() && (#[trigger] self.custom@[j]).name@ == name@;
                    if c < i {
                        assert(self.custom@[c].name@ != self.custom@[i as int].name@);
                    } else if c > i {
                        assert(self.custom@[i as int].name@ != self.custom@[c].name@);
                    }
                }
                return Some(i);
            }
            i = i + 1;
        }
        None
    }

    /// Makes `bytes` the current value of record `id` in the custom index
    /// `name`, creating the index if needed.
    pub fn set_index_value(&mut self, id: u32, name: &String, bytes: &[u8])
        requires
            old(self).wf(),
        ensures
            final(self).wf(),
            forall|n: Seq<char>| #[trigger]
                final(self).custom_current(n) == if n == name@ {
                    old(self).custom_current(n).insert(id, bytes@)
                } else {
                    old(self).custom_current(n)
                },
            final(self).tag_index() == old(self).tag_index(),
            final(self).relation_index() == old(self).relation_index(),
            final(self).updated_at_index() == old(self).updated_at_index(),
            final(self).directory() == old(self).directory(),
            final(self).configuration() == old(self).configuration(),
    {
        let ghost before = *self;
        let found = self.find_custom(name);
        match found {
            Some(i) => {
                let mut c = self.custom.remove(i);
                c.index.update(id, bytes);
                self.custom.insert(i, c);
                proof {
                    assert forall|a: int, b: int|
                        0 <= a < b < self.custom@.len() implies (#[trigger] self.custom@[a]).name@
                        != (#[trigger] self.custom@[b]).name@ by {
                        assert(before.custom@[a].name@ != before.custom@[b].name@);
                    }
                    assert forall|j: int| 0 <= j < self.custom@.len() implies (
                    #[trigger] self.custom@[j]).index.wf() by {
                        if j != i {
                            assert(self.custom@[j] == before.custom@[j]);
                        }
                    }
                    assert forall|n: Seq<char>| #[trigger]
                        self.custom_current(n) == if n == name@ {
                            before.custom_current(n).insert(id, bytes@)
                        } else {
                            before.custom_current(n)
                        } by {
                        if before.has_custom(n) {
                            let j = choose|j: int|
                                0 <= j < before.custom@.len() && (#[trigger] before.custom@[j]).name@
                                    == n;
                            assert(self.custom@[j].name@ == n);
                            let c2 = choose|k: int|
                                0 <= k < self.custom@.len() && (#[trigger] self.custom@[k]).name@
                                    == n;
                            if c2 != j {
                                assert(self.custom@[c2].name@ != self.custom@[j].name@);
                            }
                        } else {
                            if self.has_custom(n) {
                                let k = choose|k: int|
                                    0 <= k < self.custom@.len() && (#[trigger] self.custom@[k]).name@
                                        == n;
                                assert(before.custom@[k].name@ == n);
                            }
                        }
                    }
                }
            },
            None => {
                let mut ix = AttributeIndex::new();
                ix.update(id, bytes);
                self.custom.push(CustomIndex { name: name.clone(), index: ix });
                proof {
                    let last = self.custom@.len() - 1;
                    assert forall|a: int, b: int|
                        0 <= a < b < self.custom@.len() implies (#[trigger] self.custom@[a]).name@
                        != (#[trigger] self.custom@[b]).name@ by {
                        if b == last {
                            assert(before.custom@[a].name@ != name@);
                        } else {
                            assert(before.custom@[a].name@ != before.custom@[b].name@);
                        }
                    }
                    assert forall|j: int| 0 <= j < self.custom@.len() implies (
                    #[trigger] self.custom@[j]).index.wf() by {
                        if j != last {
                            assert(self.custom@[j] == before.custom@[j]);
                        }
                    }
                    assert forall|n: Seq<char>| #[trigger]
                        self.custom_current(n) == if n == name@ {
                            before.custom_current(n).insert(id, bytes@)
                        } else {
                            before.custom_current(n)
                        } by {
                        if n == name@ {
                            assert(self.custom@[last].name@ == n);
                            let c2 = choose|k: int|
                                0 <= k < self.custom@.len() && (#[trigger] self.custom@[k]).name@
                                    == n;
                            if c2 != last {
                                assert(before.custom@[c2].name@ == n);
                            }
                            assert(Map::<u32, Seq<u8>>::empty().insert(id, bytes@) =~= before.custom_current(n).insert(id, bytes@));
                        } else if before.has_custom(n) {
                            let j = choose|j: int|
                                0 <= j < before.custom@.len() && (#[trigger] before.custom@[j]).name@
                                    == n;
                            assert(self.custom@[j].name@ == n);
                            let c2 = choose|k: int|
                                0 <= k < self.custom@.len() && (#[trigger] self.custom@[k]).name@
                                    == n;
                            if c2 != j {
                                assert(self.custom@[c2].name@ != self.custom@[j].name@);
                            }
                        } else {
                            if self.has_custom(n) {
                                let k = choose|k: int|
                                    0 <= k < self.custom@.len() && (#[trigger] self.custom@[k]).name@
                                        == n;
                                if k != last {
                                    assert(before.custom@[k].name@ == n);
                                }
                            }
                        }
                    }
                }
            },
        }
    }

    /// The parts of the registry other than the tags are unchanged.
    pub open spec fn same_but_tags(&self, other: &Factory) -> bool {
        &&& self.relation_index().edges() == other.relation_index().edges()
        &&& self.updated_at_index().current() == other.updated_at_index().current()
        &&& (forall|n: Seq<char>| #[trigger] self.custom_current(n) == other.custom_current(n))
        &&& self.directory() == other.directory()
        &&& self.configuration() == other.configuration()
        &&& self.next_id() == other.next_id()
        &&& self.next_reply_id() == other.next_reply_id()
    }

    /// The parts of the registry other than the relations are unchanged.
    pub open spec fn same_but_relations(&self, other: &Factory) -> bool {
        &&& self.tag_index().weights() == other.tag_index().weights()
        &&& self.updated_at_index().current() == other.updated_at_index().current()
        &&& (forall|n: Seq<char>| #[trigger] self.custom_current(n) == other.custom_current(n))
        &&& self.directory() == other.directory()
        &&& self.configuration() == other.configuration()
        &&& self.next_id() == other.next_id()
        &&& self.next_reply_id() == other.next_reply_id()
    }

    /// Sets `tag` on record `id` with the given weight (zero when none).
    pub fn set_tag(&mut self, id: u32, tag: &String, weight: Option<u16>)
        requires
            old(self).wf(),
        ensures
            final(self).wf(),
            final(self).tag_index().weights() == old(self).tag_index().weights().insert(
                (id, string_key(str_bytes(tag@))),
                weight_or_zero(weight),
            ),
            final(self).same_but_tags(old(self)),
    {
        let t = string_key_of(tag);
        let w = match weight {
            Some(w) => w,
            None => 0,
        };
        let ghost before = *self;
        self.tags.set_tag(id, t.as_slice(), w);
        proof {
            assert forall|n: Seq<char>| #[trigger] self.custom_current(n) == before.custom_current(n) by {
                assert(self.custom@ == before.custom@);
                assert(self.has_custom(n) == before.has_custom(n));
                assert(self.custom_index(n) == before.custom_index(n));
            }
        }
    }

    /// Removes `tag` from record `id`, if it is set.
    pub fn remove_tag(&mut self, id: u32, tag: &String)
        requires
            old(self).wf(),
        ensures
            final(self).wf(),
            final(self).tag_index().weights() == old(self).tag_index().weights().remove(
                (id, string_key(str_bytes(tag@))),
            ),
            final(self).same_but_tags(old(self)),
    {
        let t = string_key_of(tag);
        let ghost before = *self;
        self.tags.remove_tag(id, t.as_slice());
        proof {
            assert forall|n: Seq<char>| #[trigger] self.custom_current(n) == before.custom_current(n) by {
                assert(self.custom@ == before.custom@);
                assert(self.has_custom(n) == before.has_custom(n));
                assert(self.custom_index(n) == before.custom_index(n));
            }
        }
    }

    /// Sets the relation `name` (with `value`) from record `id` to `address`.
    pub fn set_relation(&mut self, id: u32, name: &String, address: &String, value: Option<IndexValue>)
        requires
            old(self).wf(),
        ensures
            final(self).wf(),
            final(self).relation_index().edges() == old(self).relation_index().edges().insert(
                (id, edge_bytes(name@, value), string_key(str_bytes(address@))),
                value,
            ),
            final(self).same_but_relations(old(self)),
    {
        let nv = NameValue { name: name.clone(), value };
        let edge = nv.as_edge_bytes();
        let a = string_key_of(address);
        let ghost before = *self;
        self.relations.set_relation(id, edge.as_slice(), a.as_slice(), nv.value);
        proof {
            assert forall|n: Seq<char>| #[trigger] self.custom_current(n) == before.custom_current(n) by {
                assert(self.custom@ == before.custom@);
                assert(self.has_custom(n) == before.has_custom(n));
                assert(self.custom_index(n) == before.custom_index(n));
            }
        }
    }

    /// Removes the relation `name` (with `value`) from record `id` to
    /// `address`, if it exists.
    pub fn remove_relation(&mut self, id: u32, name: &String, value: &Option<IndexValue>, address: &String)
        requires
            old(self).wf(),
        ensures
            final(self).wf(),
            final(self).relation_index().edges() == old(self).relation_index().edges().remove(
                (id, edge_bytes(name@, *value), string_key(str_bytes(address@))),
            ),
            final(self).same_but_relations(old(self)),
    {
        let label = string_key_of(name);
        let edge = match value {
            None => label,
            Some(v) => {
                let vb = v.to_bytes();
                concat_bytes(label.as_slice(), vb.as_slice())
            },
        };
        let a = string_key_of(address);
        let ghost before = *self;
        self.relations.remove_relation(id, edge.as_slice(), a.as_slice());
        proof {
            assert forall|n: Seq<char>| #[trigger] self.custom_current(n) == before.custom_current(n) by {
                assert(self.custom@ == before.custom@);
                assert(self.has_custom(n) == before.has_custom(n));
                assert(self.custom_index(n) == before.custom_index(n));
            }
        }
    }

    /// Records `now` as the time record `id` was last updated.
    pub fn touch_updated(&mut self, id: u32, now: u64)
        requires
            old(self).wf(),
        ensures
            final(self).wf(),
            final(self).updated_at_index().current() == old(self).updated_at_index().current().insert(
                id,
                le_bytes(now as nat, 8),
            ),
            final(self).tag_index().weights() == old(self).tag_index().weights(),
            final(self).relation_index().edges() == old(self).relation_index().edges(),
            forall|n: Seq<char>| #[trigger] final(self).custom_current(n) == old(self).custom_current(n),
            final(self).directory() == old(self).directory(),
            final(self).configuration() == old(self).configuration(),
            final(self).records_meta().len() == old(self).records_meta().len(),
            forall|j: int| 0 <= j < old(self).records_meta().len() ==> #[trigger] final(self).records_meta()[j]
                == stamped(old(self).records_meta()[j], id, now),
    {
        let ghost m0 = self.meta@;
        let mut j: usize = 0;
        while j < self.meta.len()
            invariant
                self.meta@.len() == m0.len(),
                j <= m0.len(),
                forall|k: int| 0 <= k < j ==> #[trigger] self.meta@[k] == stamped(m0[k], id, now),
                forall|k: int| j <= k < m0.len() ==> #[trigger] self.meta@[k] == m0[k],
                self.directory == old(self).directory,
                self.updated_at == old(self).updated_at,
                self.tags == old(self).tags,
                self.relations == old(self).relations,
                self.custom == old(self).custom,
                self.config == old(self).config,
                self.contract_id_counter == old(self).contract_id_counter,
                self.reply_id_counter == old(self).reply_id_counter,
                self.contract_counter == old(self).contract_counter,
                self.pending == old(self).pending,
                self.by_address == old(self).by_address,
                self.by_name == old(self).by_name,
                self.code_ids == old(self).code_ids,
                self.created_at == old(self).created_at,
                self.created_by == old(self).created_by,
                self.admins == old(self).admins,
            decreases m0.len() - j,
        {
            if self.meta[j].id == id {
                self.meta[j].updated_at = now;
            }
            j = j + 1;
        }
        let t = le_bytes_of(now as u128, 8);
        let ghost before = *self;
        self.updated_at.update(id, t.as_slice());
        proof {
            assert forall|n: Seq<char>| #[trigger] self.custom_current(n) == before.custom_current(n) by {
                assert(self.custom@ == before.custom@);
                assert(self.has_custom(n) == before.has_custom(n));
                assert(self.custom_index(n) == before.custom_index(n));
            }
        }
    }

    /// Up to `limit` registered record ids after `after`, ascending.
    pub fn scan_directory(&self, after: Option<u32>, limit: usize) -> (r: Vec<u32>)
        requires
            self.wf(),
        ensures
            r@ == scan_spec(self.directory(), Seq::empty(), after_bound(after), None, false, limit as nat).map_values(|k: KeyView| k.1),
    {
        let lo: Option<RangeQueryBound<IndexKey>> = match after {
            None => None,
            Some(c) => Some(RangeQueryBound::Exclusive(IndexKey::new(Vec::new(), c))),
        };
        let no_bytes: Vec<u8> = Vec::new();
        let keys = self.directory.scan(no_bytes.as_slice(), &lo, &None, false, limit);
        proof {
            assert(bound_view(lo) == after_bound(after));
        }
        let mut ids: Vec<u32> = Vec::new();
        let mut i: usize = 0;
        while i < keys.len()
            invariant
                i <= keys@.len(),
                ids@ == keys_view(keys@).take(i as int).map_values(|k: KeyView| k.1),
            decreases keys@.len() - i,
        {
            ids.push(keys[i].id);
            assert(ids@ =~= keys_view(keys@).take(i + 1).map_values(|k: KeyView| k.1));
            i = i + 1;
        }
        assert(keys_view(keys@).take(i as int) =~= keys_view(keys@));
        ids
    }

    /// Whether record `id` was created from code `code_id`.
    pub fn code_matches(&self, id: u32, code_id: u64) -> (r: bool)
        requires
            self.wf(),
        ensures
            r == self.code_index_keys().contains((code_key(code_id), id)),
    {
        let code = le_bytes_of(code_id as u128, 8);
        self.code_ids.contains(code.as_slice(), id)
    }

    /// The address of record `id`, if it is registered.
    pub fn address_of_id(&self, id: u32) -> (r: Option<String>)
        requires
            self.wf(),
        ensures
            r matches Some(a) ==> self.address_of(id) == Some(a@),
            r is None ==> self.address_of(id) is None,
            self.directory().contains(dir_key(id)) ==> r is Some,
    {
        let no_bytes: Vec<u8> = Vec::new();
        if !self.directory.contains(no_bytes.as_slice(), id) {
            return None;
        }
        assert(no_bytes@ =~= Seq::<u8>::empty());
        match self.directory.value_of(no_bytes.as_slice(), id) {
            Some(IndexValue::String(a)) => Some(a),
            _ => None,
        }
    }

    /// The entries of the index a selector names, ascending.
    pub closed spec fn index_entries(&self, sel: IndexSelector) -> Seq<KeyView> {
        match sel {
            IndexSelector::CreatedBy => self.created_by@,
            IndexSelector::CreatedAt => self.created_at@,
            IndexSelector::UpdatedAt => self.updated_at.entries(),
            IndexSelector::CodeId => self.code_ids@,
            IndexSelector::Admin => self.admins@,
            IndexSelector::Tag => self.tags.tag_index_seq(),
            IndexSelector::Custom(n) => if self.has_custom(n@) {
                self.custom_index(n@).entries()
            } else {
                Seq::empty()
            },
        }
    }

    /// Scans the index a selector names.
    pub fn scan_index(
        &self,
        sel: &IndexSelector,
        prefix: &[u8],
        lo: &Option<RangeQueryBound<IndexKey>>,
        hi: &Option<RangeQueryBound<IndexKey>>,
        desc: bool,
        limit: usize,
    ) -> (r: Vec<IndexKey>)
        requires
            self.wf(),
        ensures
            keys_view(r@) == scan_spec(self.index_entries(*sel), prefix@, bound_view(*lo), bound_view(*hi), desc, limit as nat),
    {
        match sel {
            IndexSelector::CreatedBy => self.created_by.scan(prefix, lo, hi, desc, limit),
            IndexSelector::CreatedAt => self.created_at.scan(prefix, lo, hi, desc, limit),
            IndexSelector::UpdatedAt => self.updated_at.scan(prefix, lo, hi, desc, limit),
            IndexSelector::CodeId => self.code_ids.scan(prefix, lo, hi, desc, limit),
            IndexSelector::Admin => self.admins.scan(prefix, lo, hi, desc, limit),
            IndexSelector::Tag => self.tags.scan_tag_index(prefix, lo, hi, desc, limit),
            IndexSelector::Custom(n) => match self.find_custom(n) {
                Some(i) => self.custom[i].index.scan(prefix, lo, hi, desc, limit),
                None => {
                    let r: Vec<IndexKey> = Vec::new();
                    assert(keys_view(r@) =~= Seq::<KeyView>::empty());
                    r
                },
            },
        }
    }

    /// The tags.
    pub fn tags(&self) -> (r: &TagIndex)
        requires
            self.wf(),
        ensures
            *r == self.tag_index(),
            r.wf(),
    {
        &self.tags
    }

    /// The relations.
    pub fn relations(&self) -> (r: &RelationIndex)
        requires
            self.wf(),
        ensures
            *r == self.relation_index(),
            r.wf(),
    {
        &self.relations
    }

    /// Replaces the configuration; only the manager may.
    pub fn exec_set_config(&mut self, sender: &String, config: Config) -> (r: Result<(), ContractError>)
        requires
            old(self).wf(),
        ensures
            final(self).wf(),
            sender@ != old(self).configuration().managed_by@ <==> r is Err,
            r matches Err(e) ==> e is NotAuthorized && *final(self) == *old(self),
            r is Ok ==> final(self).configuration() == config && final(self).directory()
                == old(self).directory() && final(self).next_id() == old(self).next_id()
                && final(self).next_reply_id() == old(self).next_reply_id(),
    {
        if *sender != self.config.managed_by {
            return Err(
                ContractError::NotAuthorized {
                    reason: String::from_str("only the manager can update the configuration"),
                },
            );
        }
        self.config = config;
        Ok(())
    }

    /// The metadata of record `id`, if it was registered.
    pub fn meta_of(&self, id: u32) -> (r: Option<&RecordMeta>)
        ensures
            r matches Some(m) ==> exists|j: int|
                0 <= j < self.records_meta().len() && #[trigger] self.records_meta()[j] == *m && m.id == id,
            r is None ==> forall|j: int|
                0 <= j < self.records_meta().len() ==> (#[trigger] self.records_meta()[j]).id != id,
    {
        let mut j: usize = 0;
        while j < self.meta.len()
            invariant
                j <= self.meta@.len(),
                forall|k: int| 0 <= k < j ==> (#[trigger] self.meta@[k]).id != id,
            decreases self.meta@.len() - j,
        {
            if self.meta[j].id == id {
                return Some(&self.meta[j]);
            }
            j = j + 1;
        }
        None
    }

    /// The code id a creation request asks for: its own, or else the
    /// configured default.
    pub open spec fn chosen_code_id(&self, msg: &CreateMsg) -> Option<u64> {
        match msg.code_id {
            Some(c) => Some(c),
            None => self.configuration().default_code_id,
        }
    }

    /// Whether a creation request names a code id it may use: an allowed
    /// one, or none when a default is configured.
    pub open spec fn code_id_acceptable(&self, msg: &CreateMsg) -> bool {
        match msg.code_id {
            Some(c) => self.configuration().allowed_code_ids@.contains(c),
            None => self.configuration().default_code_id is Some,
        }
    }

    /// Phase one of creating a record: checks the code id, allocates the
    /// record id and a correlation id, remembers the context, and returns the
    /// command to send.
    pub fn exec_create(&mut self, sender: &String, factory_address: &String, msg: CreateMsg) -> (r:
        Result<InstantiateCommand, ContractError>)
        requires
            old(self).wf(),
        ensures
            final(self).wf(),
            final(self).configuration() == old(self).configuration(),
            msg.code_id matches Some(c) && !old(self).configuration().allowed_code_ids@.contains(c) ==> r
                matches Err(ContractError::NotAuthorized { .. }),
            msg.code_id is None && old(self).configuration().default_code_id is None ==> r matches Err(
                ContractError::ValidationError { .. },
            ),
            r matches Err(e) ==> *final(self) == *old(self),
            r matches Err(ContractError::NotAuthorized { .. }) ==> msg.code_id matches Some(c)
                && !old(self).configuration().allowed_code_ids@.contains(c),
            r matches Err(ContractError::ValidationError { .. }) ==> msg.code_id is None
                && old(self).configuration().default_code_id is None,
            r matches Err(e) ==> e is NotAuthorized || e is ValidationError || e is Overflow,
            r matches Err(ContractError::Overflow) ==> old(self).code_id_acceptable(&msg) && (
            old(self).next_id() == u32::MAX || old(self).next_reply_id() == u64::MAX),
            old(self).code_id_acceptable(&msg) && old(self).next_id() < u32::MAX
                && old(self).next_reply_id() < u64::MAX ==> r is Ok,
            r matches Ok(cmd) ==> {
                &&& Some(cmd.code_id) == old(self).chosen_code_id(&msg)
                &&& cmd.reply_id == old(self).next_reply_id()
                &&& cmd.msg == msg.instantiate_msg
                &&& cmd.label == msg.label
                &&& cmd.admin == (match msg.admin {
                    Some(a) => a,
                    None => *factory_address,
                })
                &&& final(self).next_id() == old(self).next_id() + 1
                &&& final(self).next_reply_id() == old(self).next_reply_id() + 1
                &&& final(self).directory() == old(self).directory()
                &&& final(self).pending_creations() == old(self).pending_creations().push(
                    PendingCreation {
                        reply_id: cmd.reply_id,
                        context: SubMsgContext {
                            code_id: cmd.code_id,
                            contract_id: old(self).next_id(),
                            created_by: *sender,
                            name: msg.name,
                            admin: cmd.admin,
                        },
                    },
                )
            },
    {
        let code_id = match msg.code_id {
            Some(c) => {
                if !contains_u64(&self.config.allowed_code_ids, c) {
                    return Err(
                        ContractError::NotAuthorized {
                            reason: String::from_str("code id is not allowed"),
                        },
                    );
                }
                c
            },
            None => match self.config.default_code_id {
                Some(c) => c,
                None => {
                    return Err(
                        ContractError::ValidationError {
                            reason: String::from_str("no default code id is set"),
                        },
                    );
                },
            },
        };
        if self.contract_id_counter == u32::MAX || self.reply_id_counter == u64::MAX {
            return Err(ContractError::Overflow);
        }
        let reply_id = self.reply_id_counter;
        self.reply_id_counter = reply_id + 1;
        let contract_id = self.contract_id_counter;
        self.contract_id_counter = contract_id + 1;
        let admin = match msg.admin {
            Some(a) => a,
            None => factory_address.clone(),
        };
        let ctx = SubMsgContext {
            code_id,
            contract_id,
            created_by: sender.clone(),
            name: msg.name,
            admin: admin.clone(),
        };
        self.pending.push(PendingCreation { reply_id, context: ctx });
        proof {
            assert forall|i: int| 0 <= i < self.pending@.len() implies (
            #[trigger] self.pending@[i]).context.contract_id < self.contract_id_counter by {}
            assert forall|k: KeyView| #[trigger]
                self.directory.keys().contains(k) implies k.0 == Seq::<u8>::empty() && k.1
                < self.contract_id_counter by {}
        }
        Ok(InstantiateCommand { code_id, msg: msg.instantiate_msg, label: msg.label, admin, reply_id })
    }

    /// Whether a creation with correlation id `reply_id` awaits its reply.
    pub open spec fn has_pending(&self, reply_id: u64) -> bool {
        exists|i: int|
            0 <= i < self.pending_creations().len() && (#[trigger] self.pending_creations()[i]).reply_id
                == reply_id
    }

    /// The position of the first pending creation with correlation id
    /// `reply_id`.
    pub open spec fn pending_index(&self, reply_id: u64) -> int {
        choose|i: int|
            0 <= i < self.pending_creations().len() && (#[trigger] self.pending_creations()[i]).reply_id
                == reply_id && forall|j: int|
                0 <= j < i ==> (#[trigger] self.pending_creations()[j]).reply_id != reply_id
    }

    /// The position of the pending creation with correlation id `reply_id`.
    fn find_pending(&self, reply_id: u64) -> (r: Option<usize>)
        ensures
            r matches Some(i) ==> i < self.pending@.len() && self.pending@[i as int].reply_id
                == reply_id && forall|j: int|
                0 <= j < i ==> (#[trigger] self.pending@[j]).reply_id != reply_id,
            r is None ==> forall|i: int|
                0 <= i < self.pending@.len() ==> (#[trigger] self.pending@[i]).reply_id != reply_id,
    {
        let mut i: usize = 0;
        while i < self.pending.len()
            invariant
                i <= self.pending@.len(),
                forall|j: int| 0 <= j < i ==> (#[trigger] self.pending@[j]).reply_id != reply_id,
            decreases self.pending@.len() - i,
        {
            if self.pending[i].reply_id == reply_id {
                return Some(i);
            }
            i = i + 1;
        }
        None
    }

    /// Phase two of creating a record: its reply arrived with the new
    /// record's address, at time `now`. Registers the record under the id
    /// allocated in phase one and writes its built-in index entries.
    pub fn handle_creation_reply(&mut self, reply_id: u64, address: String, now: u64) -> (r: Result<
        u32,
        ContractError,
    >)
        requires
            old(self).wf(),
        ensures
            final(self).wf(),
            final(self).configuration() == old(self).configuration(),
            !old(self).has_pending(reply_id) ==> r == Err::<u32, ContractError>(
                ContractError::InvalidReply { reply_id },
            ),
            r matches Err(e) ==> *final(self) == *old(self),
            r matches Err(e) ==> e is InvalidReply || e is Overflow || e is AlreadyRegistered,
            r matches Err(ContractError::Overflow) ==> old(self).has_pending(reply_id) && old(
                self,
            ).record_count() == u32::MAX,
            r matches Err(ContractError::AlreadyRegistered) ==> old(self).has_pending(reply_id) && old(
                self,
            ).registration_clashes(reply_id, address@),
            old(self).has_pending(reply_id) && old(self).record_count() < u32::MAX && !old(
                self,
            ).registration_clashes(reply_id, address@) ==> r is Ok,
            r matches Ok(id) ==> {
                &&& old(self).has_pending(reply_id)
                &&& final(self).resolves(ContractSelector::Address(address), id)
                &&& forall|j: u32| #[trigger]
                    final(self).resolves(ContractSelector::Address(address), j) ==> j == id
                &&& old(self).pending_creations()[old(self).pending_index(reply_id)].context.contract_id == id
                &&& final(self).pending_creations() == old(self).pending_creations().remove(
                    old(self).pending_index(reply_id),
                )
                &&& final(self).code_index_keys() == old(self).code_index_keys().insert(
                    (
                        code_key(
                            old(self).pending_creations()[old(self).pending_index(
                                reply_id,
                            )].context.code_id,
                        ),
                        id,
                    ),
                )
                &&& final(self).directory().to_set() == old(self).directory().to_set().insert(
                    dir_key(id),
                )
                &&& final(self).address_of(id) == Some(address@)
                &&& forall|j: u32| j != id ==> final(self).address_of(j) == old(self).address_of(j)
                &&& final(self).record_count() == old(self).record_count() + 1
                &&& final(self).updated_at_index().current() == old(
                    self,
                ).updated_at_index().current().insert(id, le_bytes(now as nat, 8))
                &&& final(self).next_id() == old(self).next_id()
                &&& final(self).next_reply_id() == old(self).next_reply_id()
                &&& final(self).records_meta() == old(self).records_meta().push(
                    RecordMeta {
                        id,
                        created_at: now,
                        created_by: old(self).pending_creations()[old(self).pending_index(
                            reply_id,
                        )].context.created_by,
                        updated_at: now,
                        name: old(self).pending_creations()[old(self).pending_index(
                            reply_id,
                        )].context.name,
                        code_id: old(self).pending_creations()[old(self).pending_index(
                            reply_id,
                        )].context.code_id,
                        admin: old(self).pending_creations()[old(self).pending_index(
                            reply_id,
                        )].context.admin,
                    },
                )
            },
    {
        let found = self.find_pending(reply_id);
        let i = match found {
            None => {
                return Err(ContractError::InvalidReply { reply_id });
            },
            Some(i) => i,
        };
        if self.contract_counter == u32::MAX {
            return Err(ContractError::Overflow);
        }
        proof {
            assert(self.pending@[i as int].reply_id == reply_id);
            assert(self.has_pending(reply_id));
            let pi = self.pending_index(reply_id);
            if pi < i {
                assert(self.pending@[pi].reply_id != reply_id);
            } else if pi > i {
                assert(self.pending@[i as int].reply_id != reply_id);
            }
            assert(pi == i);
        }
        let addr_key = string_key_of(&address);
        if let Some(e) = self.by_address.first_with_prefix(addr_key.as_slice()) {
            proof {
                assert(e.bytes@ =~= addr_key@);
                assert(self.address_index_keys().contains((string_key(str_bytes(address@)), e.id)));
            }
            return Err(ContractError::AlreadyRegistered);
        }
        proof {
            assert(addr_key@.is_prefix_of(addr_key@));
        }
        if let Some(name) = &self.pending[i].context.name {
            let nk = string_key_of(name);
            if let Some(e) = self.by_name.first_with_prefix(nk.as_slice()) {
                proof {
                    assert(e.bytes@ =~= nk@);
                    assert(self.name_index_keys().contains((string_key(str_bytes(name@)), e.id)));
                }
                return Err(ContractError::AlreadyRegistered);
            }
            proof {
                assert(nk@.is_prefix_of(nk@));
            }
        }
        let ghost before = *self;
        let p = self.pending.remove(i);
        let ctx = p.context;
        let id = ctx.contract_id;
        self.contract_counter = self.contract_counter + 1;
        let ghost addr_key_view = addr_key@;
        let ghost address_view = address;
        let no_bytes: Vec<u8> = Vec::new();
        self.directory.insert(IndexKey::new(no_bytes, id), Some(IndexValue::String(address)));
        self.by_address.insert(IndexKey::new(addr_key, id), None);
        let ghost name_key = name_key_of(ctx.name);
        if let Some(name) = &ctx.name {
            let nk = string_key_of(name);
            self.by_name.insert(IndexKey::new(nk, id), None);
        }
        let t = le_bytes_of(now as u128, 8);
        let code = le_bytes_of(ctx.code_id as u128, 8);
        self.code_ids.insert(IndexKey::new(code, id), None);
        self.created_at.insert(IndexKey::new(le_bytes_of(now as u128, 8), id), None);
        self.created_by.insert(IndexKey::new(string_key_of(&ctx.created_by), id), None);
        self.admins.insert(IndexKey::new(string_key_of(&ctx.admin), id), None);
        self.updated_at.update(id, t.as_slice());
        self.meta.push(
            RecordMeta {
                id,
                created_at: now,
                created_by: ctx.created_by,
                updated_at: now,
                name: ctx.name,
                code_id: ctx.code_id,
                admin: ctx.admin,
            },
        );
        proof {
            assert(self.directory@.to_set() == self.directory.keys());
            assert forall|k: KeyView| #[trigger]
                self.by_address.keys().contains(k) implies k.0.len() == MAX_SIZEOF_STRING_KEY by {
                if k.1 != id || k.0 != addr_key_view {
                    assert(before.by_address.keys().contains(k));
                }
            }
            assert forall|k: KeyView| #[trigger]
                self.by_name.keys().contains(k) implies k.0.len() == MAX_SIZEOF_STRING_KEY by {
                if before.by_name.keys().contains(k) {
                }
            }
            assert forall|a: KeyView, b: KeyView|
                #[trigger] self.by_address.keys().contains(a) && #[trigger] self.by_address.keys().contains(b)
                    && a.0 == b.0 implies a.1 == b.1 by {
                if a.0 == addr_key_view {
                    if a.1 != id {
                        assert(before.by_address.keys().contains(a));
                        assert(addr_key_view.is_prefix_of(a.0));
                    }
                    if b.1 != id {
                        assert(before.by_address.keys().contains(b));
                        assert(addr_key_view.is_prefix_of(b.0));
                    }
                } else {
                    assert(before.by_address.keys().contains(a));
                    assert(before.by_address.keys().contains(b));
                }
            }
            assert forall|a: KeyView, b: KeyView|
                #[trigger] self.by_name.keys().contains(a) && #[trigger] self.by_name.keys().contains(b)
                    && a.0 == b.0 implies a.1 == b.1 by {
                if before.by_name.keys().contains(a) && before.by_name.keys().contains(b) {
                } else if !before.by_name.keys().contains(a) {
                    if before.by_name.keys().contains(b) {
                        assert(name_key.is_prefix_of(b.0));
                    }
                } else {
                    assert(name_key.is_prefix_of(a.0));
                }
            }
            assert forall|j: u32| #[trigger]
                self.resolves(ContractSelector::Address(address_view), j) implies j == id by {
                if j != id {
                    assert(before.by_address.keys().contains((addr_key_view, j)));
                    assert(addr_key_view.is_prefix_of(addr_key_view));
                }
            }
            assert forall|k: KeyView| #[trigger]
                self.directory.keys().contains(k) implies k.0 == Seq::<u8>::empty() && k.1
                < self.contract_id_counter by {
                if k != dir_key(id) {
                    assert(before.directory.keys().contains(k));
                }
            }
            assert forall|j: int| 0 <= j < self.pending@.len() implies (
            #[trigger] self.pending@[j]).context.contract_id < self.contract_id_counter by {
                if j < i {
                    assert(self.pending@[j] == before.pending@[j]);
                } else {
                    assert(self.pending@[j] == before.pending@[j + 1]);
                }
            }
            assert(before.pending@[i as int].reply_id == reply_id);
            assert(before.has_pending(reply_id));
            let pi = before.pending_index(reply_id);
            if pi < i {
                assert(before.pending@[pi].reply_id != reply_id);
            } else if pi > i {
                assert(before.pending@[i as int].reply_id != reply_id);
            }
            assert(pi == i);
        }
        Ok(id)
    }
}

/// Whether `x` occurs in `v`.
pub fn contains_u64(v: &Vec<u64>, x: u64) -> (r: bool)
    ensures
        r == v@.contains(x),
{
    let mut i: usize = 0;
    while i < v.len()
        invariant
            i <= v@.len(),
            forall|j: int| 0 <= j < i ==> v@[j] != x,
        decreases v@.len() - i,
    {
        if v[i] == x {
            assert(v@[i as int] == x);
            return true;
        }
        i = i + 1;
    }
    false
}

/// The directory lists record ids in ascending order, and every key in it
/// is the key of its record id.
pub proof fn lemma_directory_keys(f: &Factory)
    requires
        f.wf(),
    ensures
        forall|k: KeyView| #[trigger] f.directory().contains(k) ==> k == dir_key(k.1),
        crate::index::sorted(f.directory()),
        forall|i: int| 0 <= i < f.directory().len() ==> (#[trigger] f.directory()[i]).0 == Seq::<u8>::empty(),
{
    assert forall|k: KeyView| #[trigger] f.directory().contains(k) implies k == dir_key(k.1) by {
        assert(f.directory.keys().contains(k));
    }
    assert forall|i: int| 0 <= i < f.directory().len() implies (#[trigger] f.directory()[i]).0 == Seq::<u8>::empty() by {
        assert(f.directory().contains(f.directory()[i]));
    }
}

/// A selector names at most one record: addresses, names and ids are each
/// registered once.
pub proof fn lemma_resolves_unique(f: &Factory, sel: ContractSelector, a: u32, b: u32)
    requires
        f.wf(),
        f.resolves(sel, a),
        f.resolves(sel, b),
    ensures
        a == b,
{
    match sel {
        ContractSelector::Address(x) => {
            assert(f.by_address.keys().contains((string_key(str_bytes(x@)), a)));
            assert(f.by_address.keys().contains((string_key(str_bytes(x@)), b)));
        },
        ContractSelector::Name(x) => {
            assert(f.by_name.keys().contains((string_key(str_bytes(x@)), a)));
            assert(f.by_name.keys().contains((string_key(str_bytes(x@)), b)));
        },
        ContractSelector::Id(_) => {},
    }
}

/// Every index the queries scan lists its keys in ascending order, without
/// repeats.
pub proof fn lemma_indices_sorted(f: &Factory, sel: IndexSelector)
    requires
        f.wf(),
    ensures
        crate::index::sorted(f.index_entries(sel)),
        crate::index::sorted(f.directory()),
        crate::index::sorted(f.tag_index().weight_entry_seq()),
        crate::index::sorted(f.tag_index().tag_index_seq()),
        crate::index::sorted(f.tag_index().weighted_index_seq()),
        crate::index::sorted(f.relation_index().forward_seq()),
        crate::index::sorted(f.relation_index().inverse_seq()),
{
    f.tags.lemma_sorted();
    f.relations.lemma_sorted();
    f.updated_at.lemma_sorted();
    match sel {
        IndexSelector::Custom(n) => {
            if f.has_custom(n@) {
                let c = choose|i: int|
                    0 <= i < f.custom@.len() && (#[trigger] f.custom@[i]).name@ == n@;
                assert(f.custom@[c].index.wf());
                f.custom@[c].index.lemma_sorted();
            }
        },
        _ => {},
    }
}

/// Ids are handed out by a counter: the id handed out is above every id
/// already registered, so ids strictly increase and none is reused.
pub proof fn lemma_allocated_id_is_fresh(f: &Factory, id: u32)
    requires
        f.wf(),
        id == f.next_id(),
    ensures
        forall|k: KeyView| #[trigger] f.directory().contains(k) ==> k.1 < id,
        !f.directory().contains(dir_key(id)),
{
    assert forall|k: KeyView| #[trigger] f.directory().contains(k) implies k.1 < id by {
        assert(f.directory.keys().contains(k));
    }
}

} // verus!
