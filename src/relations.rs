//! The relation graph: directed, optionally valued edges from a record to
//! an address, kept as a forward entry and an inverse entry.
use vstd::prelude::*;

use crate::codec::{be32, be32_of, concat_bytes, lemma_be32_round_trip, same_opt_value, IndexValue};
use crate::index::{bound_view, keys_view, scan_spec, IndexKey, OrderedIndex, RangeQueryBound};
use crate::keys::{KeyView, MAX_SIZEOF_STRING_KEY};

verus! {

/// An edge: the record it starts from, its edge bytes (label, then value)
/// and the address key it points to.
pub type EdgeView = (u32, Seq<u8>, Seq<u8>);

/// Key bytes of a forward entry: record, edge, address.
pub open spec fn forward_bytes(record: u32, edge: Seq<u8>, addr: Seq<u8>) -> Seq<u8> {
    be32(record) + edge + addr
}

/// Key bytes of an inverse entry: address, then edge.
pub open spec fn inverse_bytes(addr: Seq<u8>, edge: Seq<u8>) -> Seq<u8> {
    addr + edge
}

/// The edge that a forward key stands for.
pub open spec fn forward_edge(k: KeyView) -> EdgeView {
    (
        k.1,
        k.0.subrange(4, k.0.len() - MAX_SIZEOF_STRING_KEY),
        k.0.subrange(k.0.len() - MAX_SIZEOF_STRING_KEY, k.0.len() as int),
    )
}

/// The edge that an inverse key stands for.
pub open spec fn inverse_edge(k: KeyView) -> EdgeView {
    (
        k.1,
        k.0.subrange(MAX_SIZEOF_STRING_KEY as int, k.0.len() as int),
        k.0.take(MAX_SIZEOF_STRING_KEY as int),
    )
}

/// All edges with their attached values.
pub struct RelationIndex {
    forward: OrderedIndex,
    inverse: OrderedIndex,
    edges: Ghost<Map<EdgeView, Option<IndexValue>>>,
}

impl RelationIndex {
    /// Each edge with its attached value.
    pub closed spec fn edges(&self) -> Map<EdgeView, Option<IndexValue>> {
        self.edges@
    }

    pub closed spec fn forward_keys(&self) -> Set<KeyView> {
        self.forward.keys()
    }

    pub closed spec fn inverse_keys(&self) -> Set<KeyView> {
        self.inverse.keys()
    }

    pub closed spec fn forward_seq(&self) -> Seq<KeyView> {
        self.forward@
    }

    pub closed spec fn inverse_seq(&self) -> Seq<KeyView> {
        self.inverse@
    }

    /// The forward and inverse entries are exactly the edges, and each
    /// forward entry carries its edge's value.
    pub closed spec fn wf(&self) -> bool {
        &&& self.forward.wf()
        &&& self.inverse.wf()
        &&& forall|e: EdgeView| #[trigger]
            self.edges@.contains_key(e) ==> e.2.len() == MAX_SIZEOF_STRING_KEY
        &&& forall|k: KeyView| #[trigger]
            self.forward.keys().contains(k) <==> (k.0.len() >= MAX_SIZEOF_STRING_KEY + 4
                && k.0.take(4) == be32(k.1) && self.edges@.contains_key(forward_edge(k)))
        &&& forall|k: KeyView| #[trigger]
            self.forward.keys().contains(k) ==> self.forward.values()[k] == self.edges@[forward_edge(
                k,
            )]
        &&& forall|k: KeyView| #[trigger]
            self.inverse.keys().contains(k) <==> (k.0.len() >= MAX_SIZEOF_STRING_KEY
                && self.edges@.contains_key(inverse_edge(k)))
    }

    /// The forward and inverse entries are listed in ascending order.
    pub proof fn lemma_sorted(&self)
        requires
            self.wf(),
        ensures
            crate::index::sorted(self.forward_seq()),
            crate::index::sorted(self.inverse_seq()),
    {
    }

    pub fn new() -> (r: RelationIndex)
        ensures
            r.wf(),
            r.edges() == Map::<EdgeView, Option<IndexValue>>::empty(),
    {
        RelationIndex {
            forward: OrderedIndex::new(),
            inverse: OrderedIndex::new(),
            edges: Ghost(Map::empty()),
        }
    }

    /// Whether the edge `(record, edge, addr)` exists.
    pub fn has_edge(&self, record: u32, edge: &[u8], addr: &[u8]) -> (r: bool)
        requires
            self.wf(),
            addr@.len() == MAX_SIZEOF_STRING_KEY,
        ensures
            r == self.edges().contains_key((record, edge@, addr@)),
    {
        let rb = be32_of(record);
        let head = concat_bytes(rb.as_slice(), edge);
        let fwd = concat_bytes(head.as_slice(), addr);
        proof {
            let k = (fwd@, record);
            assert(fwd@.take(4) =~= be32(record));
            assert(forward_edge(k).1 =~= edge@);
            assert(forward_edge(k).2 =~= addr@);
        }
        self.forward.contains(fwd.as_slice(), record)
    }

    /// Scans the forward entries.
    pub fn scan_forward(
        &self,
        prefix: &[u8],
        lo: &Option<RangeQueryBound<IndexKey>>,
        hi: &Option<RangeQueryBound<IndexKey>>,
        desc: bool,
        limit: usize,
    ) -> (r: Vec<IndexKey>)
        requires
            self.wf(),
        ensures
            keys_view(r@) == scan_spec(self.forward_seq(), prefix@, bound_view(*lo), bound_view(*hi), desc, limit as nat),
    {
        self.forward.scan(prefix, lo, hi, desc, limit)
    }

    /// Scans the inverse entries.
    pub fn scan_inverse(
        &self,
        prefix: &[u8],
        lo: &Option<RangeQueryBound<IndexKey>>,
        hi: &Option<RangeQueryBound<IndexKey>>,
        desc: bool,
        limit: usize,
    ) -> (r: Vec<IndexKey>)
        requires
            self.wf(),
        ensures
            keys_view(r@) == scan_spec(self.inverse_seq(), prefix@, bound_view(*lo), bound_view(*hi), desc, limit as nat),
    {
        self.inverse.scan(prefix, lo, hi, desc, limit)
    }

    /// The value attached to an edge that exists.
    pub fn edge_value(&self, record: u32, edge: &[u8], addr: &[u8]) -> (r: Option<IndexValue>)
        requires
            self.wf(),
            addr@.len() == MAX_SIZEOF_STRING_KEY,
            self.edges().contains_key((record, edge@, addr@)),
        ensures
            same_opt_value(r, self.edges()[(record, edge@, addr@)]),
    {
        let rb = be32_of(record);
        let head = concat_bytes(rb.as_slice(), edge);
        let fwd = concat_bytes(head.as_slice(), addr);
        proof {
            let k = (fwd@, record);
            assert(fwd@.take(4) =~= be32(record));
            assert(forward_edge(k).1 =~= edge@);
            assert(forward_edge(k).2 =~= addr@);
            assert(forward_edge(k) == (record, edge@, addr@));
            assert(self.forward.keys().contains(k));
            assert(self.forward.values()[k] == self.edges@[(record, edge@, addr@)]);
        }
        self.forward.value_of(fwd.as_slice(), record)
    }

    /// Removes the edge `(record, edge, addr)` and both of its entries, if it
    /// exists.
    pub fn remove_relation(&mut self, record: u32, edge: &[u8], addr: &[u8])
        requires
            old(self).wf(),
            addr@.len() == MAX_SIZEOF_STRING_KEY,
        ensures
            final(self).wf(),
            final(self).edges() == old(self).edges().remove((record, edge@, addr@)),
    {
        let ghost e = (record, edge@, addr@);
        let ghost before = self.edges@;
        let ghost old_fwd = self.forward.keys();
        let rb = be32_of(record);
        let head = concat_bytes(rb.as_slice(), edge);
        let fwd = concat_bytes(head.as_slice(), addr);
        let inv = concat_bytes(addr, edge);
        self.forward.remove(fwd.as_slice(), record);
        self.inverse.remove(inv.as_slice(), record);
        self.edges = Ghost(before.remove(e));
        proof {
            lemma_be32_round_trip(record);
            let fk = (fwd@, record);
            let ik = (inv@, record);
            assert(fwd@.take(4) =~= be32(record));
            assert(forward_edge(fk).1 =~= edge@);
            assert(forward_edge(fk).2 =~= addr@);
            assert(inverse_edge(ik).1 =~= edge@);
            assert(inverse_edge(ik).2 =~= addr@);
            assert forall|k: KeyView| #[trigger] self.forward.keys().contains(k) <==> (k.0.len()
                >= MAX_SIZEOF_STRING_KEY + 4 && k.0.take(4) == be32(k.1)
                && self.edges@.contains_key(forward_edge(k))) by {
                if k.0.len() >= MAX_SIZEOF_STRING_KEY + 4 && k.0.take(4) == be32(k.1)
                    && forward_edge(k) == e {
                    assert(k.0 =~= forward_bytes(k.1, forward_edge(k).1, forward_edge(k).2));
                    assert(k == fk);
                }
            }
            assert forall|k: KeyView| #[trigger] self.inverse.keys().contains(k) <==> (k.0.len()
                >= MAX_SIZEOF_STRING_KEY && self.edges@.contains_key(inverse_edge(k))) by {
                if k.0.len() >= MAX_SIZEOF_STRING_KEY && inverse_edge(k) == e {
                    assert(k.0 =~= inverse_bytes(inverse_edge(k).2, inverse_edge(k).1));
                    assert(k == ik);
                }
            }
            assert forall|k: KeyView| #[trigger]
                self.forward.keys().contains(k) implies self.forward.values()[k]
                == self.edges@[forward_edge(k)] by {
                assert(old_fwd.contains(k));
            }
        }
    }

    /// Sets the edge `(record, edge, addr)` with its attached value, first
    /// removing an edge with the same bytes and address.
    pub fn set_relation(&mut self, record: u32, edge: &[u8], addr: &[u8], value: Option<IndexValue>)
        requires
            old(self).wf(),
            addr@.len() == MAX_SIZEOF_STRING_KEY,
        ensures
            final(self).wf(),
            final(self).edges() == old(self).edges().insert((record, edge@, addr@), value),
    {
        self.remove_relation(record, edge, addr);
        let ghost e = (record, edge@, addr@);
        let ghost before = self.edges@;
        let ghost old_fwd = self.forward.keys();
        let rb = be32_of(record);
        let head = concat_bytes(rb.as_slice(), edge);
        let fwd = concat_bytes(head.as_slice(), addr);
        let inv = concat_bytes(addr, edge);
        let ghost fk = (fwd@, record);
        let ghost ik = (inv@, record);
        let ghost v = value;
        self.forward.insert(IndexKey::new(fwd, record), value);
        self.inverse.insert(IndexKey::new(inv, record), None);
        self.edges = Ghost(before.insert(e, v));
        proof {
            lemma_be32_round_trip(record);
            assert(fk.0.take(4) =~= be32(record));
            assert(forward_edge(fk).1 =~= edge@);
            assert(forward_edge(fk).2 =~= addr@);
            assert(inverse_edge(ik).1 =~= edge@);
            assert(inverse_edge(ik).2 =~= addr@);
            assert forall|k: KeyView| #[trigger] self.forward.keys().contains(k) <==> (k.0.len()
                >= MAX_SIZEOF_STRING_KEY + 4 && k.0.take(4) == be32(k.1)
                && self.edges@.contains_key(forward_edge(k))) by {
                if k.0.len() >= MAX_SIZEOF_STRING_KEY + 4 && k.0.take(4) == be32(k.1)
                    && forward_edge(k) == e {
                    assert(k.0 =~= forward_bytes(k.1, forward_edge(k).1, forward_edge(k).2));
                    assert(k == fk);
                }
            }
            assert forall|k: KeyView| #[trigger] self.inverse.keys().contains(k) <==> (k.0.len()
                >= MAX_SIZEOF_STRING_KEY && self.edges@.contains_key(inverse_edge(k))) by {
                if k.0.len() >= MAX_SIZEOF_STRING_KEY && inverse_edge(k) == e {
                    assert(k.0 =~= inverse_bytes(inverse_edge(k).2, inverse_edge(k).1));
                    assert(k == ik);
                }
            }
            assert forall|k: KeyView| #[trigger]
                self.forward.keys().contains(k) implies self.forward.values()[k]
                == self.edges@[forward_edge(k)] by {
                if k != fk {
                    assert(old_fwd.contains(k));
                }
            }
        }
    }
}

/// An inverse entry stands for an edge that exists.
pub proof fn lemma_inverse_key_edge(ix: &RelationIndex, k: KeyView)
    requires
        ix.wf(),
        ix.inverse_seq().contains(k),
    ensures
        k.0.len() >= MAX_SIZEOF_STRING_KEY,
        ix.edges().contains_key(inverse_edge(k)),
{
    assert(ix.inverse.keys().contains(k));
}

/// A forward entry stands for an edge that exists.
pub proof fn lemma_forward_key_edge(ix: &RelationIndex, k: KeyView)
    requires
        ix.wf(),
        ix.forward_seq().contains(k),
    ensures
        k.0.len() >= MAX_SIZEOF_STRING_KEY + 4,
        ix.edges().contains_key(forward_edge(k)),
{
    assert(ix.forward.keys().contains(k));
}

/// The forward and inverse entries of an edge agree: each is held exactly
/// when the edge exists.
pub proof fn lemma_relation_entries_agree(ix: &RelationIndex, record: u32, edge: Seq<u8>, addr: Seq<u8>)
    requires
        ix.wf(),
        addr.len() == MAX_SIZEOF_STRING_KEY,
    ensures
        ix.forward_keys().contains((forward_bytes(record, edge, addr), record))
            <==> ix.edges().contains_key((record, edge, addr)),
        ix.inverse_keys().contains((inverse_bytes(addr, edge), record))
            <==> ix.edges().contains_key((record, edge, addr)),
{
    let fk = (forward_bytes(record, edge, addr), record);
    let ik = (inverse_bytes(addr, edge), record);
    assert(fk.0.take(4) =~= be32(record));
    assert(forward_edge(fk).1 =~= edge);
    assert(forward_edge(fk).2 =~= addr);
    assert(inverse_edge(ik).1 =~= edge);
    assert(inverse_edge(ik).2 =~= addr);
}

} // verus!
