//! An updatable attribute index: the index of `(value bytes, record)`
//! entries together with the reverse map from each record to its current
//! value, so that an update can find and remove the stale entry.
use vstd::prelude::*;

use crate::codec::{be32, be32_of, concat_bytes, copy_bytes, lemma_be32_round_trip};
use crate::index::{bound_view, keys_view, scan_spec, IndexKey, OrderedIndex, RangeQueryBound};
use crate::keys::KeyView;

verus! {

/// Key bytes of a reverse entry: record, then the value bytes.
pub open spec fn reverse_bytes(record: u32, value: Seq<u8>) -> Seq<u8> {
    be32(record) + value
}

/// An index whose records each hold at most one current value.
pub struct AttributeIndex {
    index: OrderedIndex,
    reverse: OrderedIndex,
    current: Ghost<Map<u32, Seq<u8>>>,
}

impl AttributeIndex {
    /// The current value bytes of each record in the index.
    pub closed spec fn current(&self) -> Map<u32, Seq<u8>> {
        self.current@
    }

    /// The index entries in ascending key order.
    pub closed spec fn entries(&self) -> Seq<KeyView> {
        self.index@
    }

    pub closed spec fn index_keys(&self) -> Set<KeyView> {
        self.index.keys()
    }

    pub closed spec fn reverse_keys(&self) -> Set<KeyView> {
        self.reverse.keys()
    }

    /// There is exactly one index entry and one reverse entry for each
    /// record's current value, and no other.
    pub closed spec fn wf(&self) -> bool {
        &&& self.index.wf()
        &&& self.reverse.wf()
        &&& forall|k: KeyView| #[trigger]
            self.index.keys().contains(k) <==> (self.current@.contains_key(k.1)
                && self.current@[k.1] == k.0)
        &&& forall|k: KeyView| #[trigger]
            self.reverse.keys().contains(k) <==> (k.0.len() >= 4 && k.0.take(4) == be32(k.1)
                && self.current@.contains_key(k.1) && self.current@[k.1] == k.0.skip(4))
    }

    /// The index entries are listed in ascending order.
    pub proof fn lemma_sorted(&self)
        requires
            self.wf(),
        ensures
            crate::index::sorted(self.entries()),
    {
    }

    pub fn new() -> (r: AttributeIndex)
        ensures
            r.wf(),
            r.current() == Map::<u32, Seq<u8>>::empty(),
    {
        AttributeIndex {
            index: OrderedIndex::new(),
            reverse: OrderedIndex::new(),
            current: Ghost(Map::empty()),
        }
    }

    /// The current value bytes of `record`, if it has one.
    pub fn value_of(&self, record: u32) -> (r: Option<Vec<u8>>)
        requires
            self.wf(),
        ensures
            r matches Some(v) ==> self.current().contains_key(record) && v@ == self.current()[record],
            r is None ==> !self.current().contains_key(record),
    {
        let prefix = be32_of(record);
        let found = self.reverse.first_with_prefix(prefix.as_slice());
        proof {
            lemma_be32_round_trip(record);
        }
        match found {
            None => {
                proof {
                    if self.current@.contains_key(record) {
                        let b = reverse_bytes(record, self.current@[record]);
                        assert(b.take(4) =~= be32(record));
                        assert(b.skip(4) =~= self.current@[record]);
                        assert(self.reverse.keys().contains((b, record)));
                    }
                }
                None
            },
            Some(k) => {
                proof {
                    lemma_be32_round_trip(k.id);
                    assert(k.bytes@.take(4) =~= be32(record));
                }
                let n = k.bytes.len();
                let mut v: Vec<u8> = Vec::new();
                let mut i: usize = 4;
                while i < n
                    invariant
                        4 <= i <= n,
                        n == k.bytes@.len(),
                        v@ == k.bytes@.subrange(4, i as int),
                    decreases n - i,
                {
                    v.push(k.bytes[i]);
                    assert(v@ =~= k.bytes@.subrange(4, i + 1));
                    i = i + 1;
                }
                assert(v@ =~= k.bytes@.skip(4));
                Some(v)
            },
        }
    }

    /// Scans the index entries.
    pub fn scan(
        &self,
        prefix: &[u8],
        lo: &Option<RangeQueryBound<IndexKey>>,
        hi: &Option<RangeQueryBound<IndexKey>>,
        desc: bool,
        limit: usize,
    ) -> (r: Vec<IndexKey>)
        requires
            self.wf(),
        ensures
            keys_view(r@) == scan_spec(self.entries(), prefix@, bound_view(*lo), bound_view(*hi), desc, limit as nat),
    {
        self.index.scan(prefix, lo, hi, desc, limit)
    }

    /// Makes `value` the current value of `record`, removing the entries of
    /// its previous value.
    pub fn update(&mut self, record: u32, value: &[u8])
        requires
            old(self).wf(),
        ensures
            final(self).wf(),
            final(self).current() == old(self).current().insert(record, value@),
    {
        let ghost before = self.current@;
        let old_value = self.value_of(record);
        let rb = be32_of(record);
        if let Some(ov) = old_value {
            let old_rev = concat_bytes(rb.as_slice(), ov.as_slice());
            self.index.remove(ov.as_slice(), record);
            self.reverse.remove(old_rev.as_slice(), record);
        }
        let ghost mid_index = self.index.keys();
        let ghost mid_reverse = self.reverse.keys();
        let rev = concat_bytes(rb.as_slice(), value);
        let ghost rk = (rev@, record);
        self.index.insert(IndexKey::new(copy_bytes(value), record), None);
        self.reverse.insert(IndexKey::new(rev, record), None);
        self.current = Ghost(before.insert(record, value@));
        proof {
            lemma_be32_round_trip(record);
            assert(rk.0.take(4) =~= be32(record));
            assert(rk.0.skip(4) =~= value@);
            assert forall|k: KeyView| #[trigger] mid_index.contains(k) <==> (k.1 != record
                && before.contains_key(k.1) && before[k.1] == k.0) by {}
            assert forall|k: KeyView| #[trigger] mid_reverse.contains(k) <==> (k.1 != record
                && k.0.len() >= 4 && k.0.take(4) == be32(k.1) && before.contains_key(k.1)
                && before[k.1] == k.0.skip(4)) by {
                if k.1 == record && k.0.len() >= 4 && k.0.take(4) == be32(k.1) && before.contains_key(k.1)
                    && before[k.1] == k.0.skip(4) {
                    assert(k.0 =~= reverse_bytes(record, before[record]));
                }
            }
            assert forall|k: KeyView| #[trigger] self.reverse.keys().contains(k) <==> (k.0.len()
                >= 4 && k.0.take(4) == be32(k.1) && self.current@.contains_key(k.1)
                && self.current@[k.1] == k.0.skip(4)) by {
                if k.1 == record && k.0.len() >= 4 && k.0.take(4) == be32(k.1) && k.0.skip(4)
                    == value@ {
                    assert(k.0 =~= rk.0);
                }
            }
        }
    }
}

} // verus!
