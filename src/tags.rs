//! Weighted tags: each (record, tag) pair carries a weight, kept in three
//! matching index entries (the weight entry, the tag membership index and
//! the weight-ordered index).
use vstd::prelude::*;

use crate::codec::{
    be16, be16_of, be32, be32_of, concat_bytes, from_be32, lemma_be16_round_trip,
    lemma_be32_round_trip, read_be16,
};
use crate::index::{bound_view, keys_view, scan_spec, IndexKey, OrderedIndex, RangeQueryBound};
use crate::keys::{KeyView, MAX_SIZEOF_STRING_KEY};

verus! {

/// Key bytes of a weight entry: record, tag, weight.
pub open spec fn weight_entry_bytes(record: u32, tag: Seq<u8>, w: u16) -> Seq<u8> {
    be32(record) + tag + be16(w)
}

/// Key bytes of the weight-ordered index: tag, then weight.
pub open spec fn weighted_tag_bytes(tag: Seq<u8>, w: u16) -> Seq<u8> {
    tag + be16(w)
}

/// The tags of all records with their weights.
pub struct TagIndex {
    weight_entries: OrderedIndex,
    tag_index: OrderedIndex,
    weighted_index: OrderedIndex,
    weights: Ghost<Map<(u32, Seq<u8>), u16>>,
}

impl TagIndex {
    /// The weight of each (record, tag) pair that is set.
    pub closed spec fn weights(&self) -> Map<(u32, Seq<u8>), u16> {
        self.weights@
    }

    /// The keys of the weight entries.
    pub closed spec fn weight_entry_keys(&self) -> Set<KeyView> {
        self.weight_entries.keys()
    }

    /// The keys of the tag membership index.
    pub closed spec fn tag_index_keys(&self) -> Set<KeyView> {
        self.tag_index.keys()
    }

    /// The keys of the weight-ordered index.
    pub closed spec fn weighted_index_keys(&self) -> Set<KeyView> {
        self.weighted_index.keys()
    }

    /// The weight entries in ascending key order.
    pub closed spec fn weight_entry_seq(&self) -> Seq<KeyView> {
        self.weight_entries@
    }

    /// The weight-ordered index in ascending key order.
    pub closed spec fn weighted_index_seq(&self) -> Seq<KeyView> {
        self.weighted_index@
    }

    /// The tag membership index in ascending key order.
    pub closed spec fn tag_index_seq(&self) -> Seq<KeyView> {
        self.tag_index@
    }

    /// Each index holds exactly the entries that the weights call for.
    pub closed spec fn wf(&self) -> bool {
        &&& self.weight_entries.wf()
        &&& self.tag_index.wf()
        &&& self.weighted_index.wf()
        &&& forall|p: (u32, Seq<u8>)| #[trigger]
            self.weights@.contains_key(p) ==> p.1.len() == MAX_SIZEOF_STRING_KEY
        &&& forall|k: KeyView| #[trigger]
            self.tag_index.keys().contains(k) <==> (k.0.len() == MAX_SIZEOF_STRING_KEY
                && self.weights@.contains_key((k.1, k.0)))
        &&& forall|k: KeyView| #[trigger]
            self.weighted_index.keys().contains(k) <==> (k.0.len() == MAX_SIZEOF_STRING_KEY + 2
                && self.weights@.contains_key((k.1, k.0.take(MAX_SIZEOF_STRING_KEY as int)))
                && k.0 == weighted_tag_bytes(
                k.0.take(MAX_SIZEOF_STRING_KEY as int),
                self.weights@[(k.1, k.0.take(MAX_SIZEOF_STRING_KEY as int))],
            ))
        &&& forall|k: KeyView| #[trigger]
            self.weight_entries.keys().contains(k) <==> (k.0.len() == MAX_SIZEOF_STRING_KEY + 6
                && self.weights@.contains_key((k.1, k.0.subrange(4, MAX_SIZEOF_STRING_KEY + 4)))
                && k.0 == weight_entry_bytes(
                k.1,
                k.0.subrange(4, MAX_SIZEOF_STRING_KEY + 4),
                self.weights@[(k.1, k.0.subrange(4, MAX_SIZEOF_STRING_KEY + 4))],
            ))
    }

    /// Each of the three indices lists its keys in ascending order.
    pub proof fn lemma_sorted(&self)
        requires
            self.wf(),
        ensures
            crate::index::sorted(self.weight_entry_seq()),
            crate::index::sorted(self.tag_index_seq()),
            crate::index::sorted(self.weighted_index_seq()),
    {
    }

    pub fn new() -> (r: TagIndex)
        ensures
            r.wf(),
            r.weights() == Map::<(u32, Seq<u8>), u16>::empty(),
    {
        TagIndex {
            weight_entries: OrderedIndex::new(),
            tag_index: OrderedIndex::new(),
            weighted_index: OrderedIndex::new(),
            weights: Ghost(Map::empty()),
        }
    }

    /// The weight of `tag` on `record`, if the tag is set.
    pub fn weight_of(&self, record: u32, tag: &[u8]) -> (r: Option<u16>)
        requires
            self.wf(),
        ensures
            r == if self.weights().contains_key((record, tag@)) {
                Some(self.weights()[(record, tag@)])
            } else {
                None::<u16>
            },
    {
        if tag.len() != MAX_SIZEOF_STRING_KEY {
            return None;
        }
        let rb = be32_of(record);
        let prefix = concat_bytes(rb.as_slice(), tag);
        let found = self.weight_entries.first_with_prefix(prefix.as_slice());
        proof {
            lemma_be32_round_trip(record);
        }
        match found {
            None => {
                proof {
                    if self.weights@.contains_key((record, tag@)) {
                        let w = self.weights@[(record, tag@)];
                        let b = weight_entry_bytes(record, tag@, w);
                        lemma_be16_round_trip(w);
                        assert(b.subrange(4, MAX_SIZEOF_STRING_KEY + 4) =~= tag@);
                        assert(self.weight_entries.keys().contains((b, record)));
                        assert(prefix@.is_prefix_of(b)) by {
                            assert(b.take(prefix@.len() as int) =~= prefix@);
                        }
                    }
                }
                None
            },
            Some(k) => {
                let n = k.bytes.len();
                let ghost kb = k.bytes@;
                let ghost t = kb.subrange(4, MAX_SIZEOF_STRING_KEY + 4);
                let ghost w = self.weights@[(k.id, t)];
                proof {
                    lemma_be16_round_trip(w);
                    lemma_be32_round_trip(k.id);
                    assert(kb.take(prefix@.len() as int) == prefix@);
                    assert(kb.take(4) =~= prefix@.take(4));
                    assert(prefix@.take(4) =~= be32(record));
                    assert(kb.take(4) =~= be32(k.id));
                    assert(from_be32(be32(k.id)) == from_be32(be32(record)));
                    assert(self.weight_entries.keys().contains(k@));
                    assert(kb.len() == MAX_SIZEOF_STRING_KEY + 6);
                    assert(t =~= prefix@.subrange(4, MAX_SIZEOF_STRING_KEY + 4));
                    assert(t =~= tag@);
                    assert(kb.subrange(n - 2, n as int) =~= be16(w));
                }
                let wb = k.bytes.as_slice();
                let mut last: Vec<u8> = Vec::new();
                last.push(wb[n - 2]);
                last.push(wb[n - 1]);
                assert(last@ =~= be16(w));
                Some(read_be16(last.as_slice()))
            },
        }
    }

    /// Scans the weight entries.
    pub fn scan_weight_entries(
        &self,
        prefix: &[u8],
        lo: &Option<RangeQueryBound<IndexKey>>,
        hi: &Option<RangeQueryBound<IndexKey>>,
        desc: bool,
        limit: usize,
    ) -> (r: Vec<IndexKey>)
        requires
            self.wf(),
        ensures
            keys_view(r@) == scan_spec(self.weight_entry_seq(), prefix@, bound_view(*lo), bound_view(*hi), desc, limit as nat),
    {
        self.weight_entries.scan(prefix, lo, hi, desc, limit)
    }

    /// Scans the weight-ordered index.
    pub fn scan_weighted(
        &self,
        prefix: &[u8],
        lo: &Option<RangeQueryBound<IndexKey>>,
        hi: &Option<RangeQueryBound<IndexKey>>,
        desc: bool,
        limit: usize,
    ) -> (r: Vec<IndexKey>)
        requires
            self.wf(),
        ensures
            keys_view(r@) == scan_spec(self.weighted_index_seq(), prefix@, bound_view(*lo), bound_view(*hi), desc, limit as nat),
    {
        self.weighted_index.scan(prefix, lo, hi, desc, limit)
    }

    /// Scans the tag membership index.
    pub fn scan_tag_index(
        &self,
        prefix: &[u8],
        lo: &Option<RangeQueryBound<IndexKey>>,
        hi: &Option<RangeQueryBound<IndexKey>>,
        desc: bool,
        limit: usize,
    ) -> (r: Vec<IndexKey>)
        requires
            self.wf(),
        ensures
            keys_view(r@) == scan_spec(self.tag_index_seq(), prefix@, bound_view(*lo), bound_view(*hi), desc, limit as nat),
    {
        self.tag_index.scan(prefix, lo, hi, desc, limit)
    }

    /// Sets `tag` on `record` with weight `w`, replacing any earlier weight.
    pub fn set_tag(&mut self, record: u32, tag: &[u8], w: u16)
        requires
            old(self).wf(),
            tag@.len() == MAX_SIZEOF_STRING_KEY,
        ensures
            final(self).wf(),
            final(self).weights() == old(self).weights().insert((record, tag@), w),
    {
        self.remove_tag(record, tag);
        let ghost t = tag@;
        let ghost before = self.weights@;
        let rb = be32_of(record);
        let wb = be16_of(w);
        let head = concat_bytes(rb.as_slice(), tag);
        let entry = concat_bytes(head.as_slice(), wb.as_slice());
        let weighted = concat_bytes(tag, wb.as_slice());
        let plain = concat_bytes(tag, &[]);
        proof {
            assert(plain@ =~= t);
        }
        self.weight_entries.insert(IndexKey::new(entry, record), None);
        self.tag_index.insert(IndexKey::new(plain, record), None);
        self.weighted_index.insert(IndexKey::new(weighted, record), None);
        self.weights = Ghost(before.insert((record, t), w));
        proof {
            let wm = self.weights@;
            let wk = weighted_tag_bytes(t, w);
            let ek = weight_entry_bytes(record, t, w);
            assert(wk.take(MAX_SIZEOF_STRING_KEY as int) =~= t);
            assert(ek.subrange(4, MAX_SIZEOF_STRING_KEY + 4) =~= t);
            assert forall|k: KeyView| #[trigger]
                self.weighted_index.keys().contains(k) <==> (k.0.len() == MAX_SIZEOF_STRING_KEY + 2
                    && wm.contains_key((k.1, k.0.take(MAX_SIZEOF_STRING_KEY as int)))
                    && k.0 == weighted_tag_bytes(
                    k.0.take(MAX_SIZEOF_STRING_KEY as int),
                    wm[(k.1, k.0.take(MAX_SIZEOF_STRING_KEY as int))],
                )) by {
                let kt = k.0.take(MAX_SIZEOF_STRING_KEY as int);
                if k.1 == record && kt == t && k.0.len() == MAX_SIZEOF_STRING_KEY + 2 {
                    if k.0 == weighted_tag_bytes(kt, w) {
                        assert(k == (wk, record));
                    }
                }
            }
            assert forall|k: KeyView| #[trigger]
                self.weight_entries.keys().contains(k) <==> (k.0.len() == MAX_SIZEOF_STRING_KEY + 6
                    && wm.contains_key((k.1, k.0.subrange(4, MAX_SIZEOF_STRING_KEY + 4)))
                    && k.0 == weight_entry_bytes(
                    k.1,
                    k.0.subrange(4, MAX_SIZEOF_STRING_KEY + 4),
                    wm[(k.1, k.0.subrange(4, MAX_SIZEOF_STRING_KEY + 4))],
                )) by {
                let kt = k.0.subrange(4, MAX_SIZEOF_STRING_KEY + 4);
                if k.1 == record && kt == t && k.0.len() == MAX_SIZEOF_STRING_KEY + 6 {
                    if k.0 == weight_entry_bytes(record, kt, w) {
                        assert(k == (ek, record));
                    }
                }
            }
        }
    }

    /// Removes `tag` from `record`, with its three entries; nothing happens
    /// when the tag is not set.
    pub fn remove_tag(&mut self, record: u32, tag: &[u8])
        requires
            old(self).wf(),
        ensures
            final(self).wf(),
            final(self).weights() == old(self).weights().remove((record, tag@)),
    {
        let found = self.weight_of(record, tag);
        match found {
            None => {
                proof {
                    assert(self.weights@ =~= self.weights@.remove((record, tag@)));
                }
            },
            Some(w) => {
                let ghost t = tag@;
                let ghost before = self.weights@;
                let ghost old_weighted = self.weighted_index.keys();
                let ghost old_entries = self.weight_entries.keys();
                let rb = be32_of(record);
                let wb = be16_of(w);
                let head = concat_bytes(rb.as_slice(), tag);
                let entry = concat_bytes(head.as_slice(), wb.as_slice());
                let weighted = concat_bytes(tag, wb.as_slice());
                self.weight_entries.remove(entry.as_slice(), record);
                self.tag_index.remove(tag, record);
                self.weighted_index.remove(weighted.as_slice(), record);
                self.weights = Ghost(before.remove((record, t)));
                proof {
                    let wm = self.weights@;
                    assert(weighted@.take(MAX_SIZEOF_STRING_KEY as int) =~= t);
                    assert(entry@.subrange(4, MAX_SIZEOF_STRING_KEY + 4) =~= t);
                    assert(self.weighted_index.keys() == old_weighted.remove((weighted@, record)));
                    assert(self.weight_entries.keys() == old_entries.remove((entry@, record)));
                    assert forall|k: KeyView| #[trigger]
                        self.weighted_index.keys().contains(k) <==> (k.0.len()
                            == MAX_SIZEOF_STRING_KEY + 2 && wm.contains_key(
                            (k.1, k.0.take(MAX_SIZEOF_STRING_KEY as int)),
                        ) && k.0 == weighted_tag_bytes(
                            k.0.take(MAX_SIZEOF_STRING_KEY as int),
                            wm[(k.1, k.0.take(MAX_SIZEOF_STRING_KEY as int))],
                        )) by {
                        let kt = k.0.take(MAX_SIZEOF_STRING_KEY as int);
                        if k.1 == record && kt == t && k.0.len() == MAX_SIZEOF_STRING_KEY + 2 {
                            if old_weighted.contains(k) {
                                assert(k.0 == weighted_tag_bytes(kt, w));
                                assert(k == (weighted@, record));
                            }
                        }
                    }
                    assert forall|k: KeyView| #[trigger]
                        self.weight_entries.keys().contains(k) <==> (k.0.len()
                            == MAX_SIZEOF_STRING_KEY + 6 && wm.contains_key(
                            (k.1, k.0.subrange(4, MAX_SIZEOF_STRING_KEY + 4)),
                        ) && k.0 == weight_entry_bytes(
                            k.1,
                            k.0.subrange(4, MAX_SIZEOF_STRING_KEY + 4),
                            wm[(k.1, k.0.subrange(4, MAX_SIZEOF_STRING_KEY + 4))],
                        )) by {
                        let kt = k.0.subrange(4, MAX_SIZEOF_STRING_KEY + 4);
                        if k.1 == record && kt == t && k.0.len() == MAX_SIZEOF_STRING_KEY + 6 {
                            if old_entries.contains(k) {
                                assert(k.0 == weight_entry_bytes(record, kt, w));
                                assert(entry@ =~= weight_entry_bytes(record, t, w));
                                assert(k == (entry@, record));
                            }
                        }
                    }
                }
            },
        }
    }
}

/// The three entries of a (record, tag) pair agree: the membership entry,
/// and the weight entry and weight-ordered entry of a weight, are each held
/// exactly when the tag is set on the record (with that weight).
pub proof fn lemma_tag_entries_agree(ix: &TagIndex, record: u32, tag: Seq<u8>, w: u16)
    requires
        ix.wf(),
        tag.len() == MAX_SIZEOF_STRING_KEY,
    ensures
        ix.tag_index_keys().contains((tag, record)) <==> ix.weights().contains_key((record, tag)),
        ix.weighted_index_keys().contains((weighted_tag_bytes(tag, w), record)) <==> (
        ix.weights().contains_key((record, tag)) && ix.weights()[(record, tag)] == w),
        ix.weight_entry_keys().contains((weight_entry_bytes(record, tag, w), record)) <==> (
        ix.weights().contains_key((record, tag)) && ix.weights()[(record, tag)] == w),
{
    let wk = weighted_tag_bytes(tag, w);
    let ek = weight_entry_bytes(record, tag, w);
    assert(wk.take(MAX_SIZEOF_STRING_KEY as int) =~= tag);
    assert(ek.subrange(4, MAX_SIZEOF_STRING_KEY + 4) =~= tag);
    if ix.weights().contains_key((record, tag)) {
        let v = ix.weights()[(record, tag)];
        lemma_be16_round_trip(v);
        lemma_be16_round_trip(w);
        if weighted_tag_bytes(tag, v) == wk {
            assert(wk.skip(MAX_SIZEOF_STRING_KEY as int) =~= be16(w));
            assert(weighted_tag_bytes(tag, v).skip(MAX_SIZEOF_STRING_KEY as int) =~= be16(v));
        }
        if weight_entry_bytes(record, tag, v) == ek {
            assert(ek.skip(MAX_SIZEOF_STRING_KEY + 4) =~= be16(w));
            assert(weight_entry_bytes(record, tag, v).skip(MAX_SIZEOF_STRING_KEY + 4) =~= be16(v));
        }
    }
}

} // verus!
