//! Paginated range queries over the indices, and membership tests over
//! tags and relations.
use vstd::prelude::*;

use crate::codec::{
    be16, be16_of, be32, be32_of, concat_bytes, copy_bytes, encode, from_be16, read_be16,
    same_opt_value, str_bytes, string_from_utf8, string_key, string_key_of, text_of, IndexValue,
};
use crate::error::ContractError;
use crate::index::{keys_view, lemma_scan_member, scan_spec, IndexKey, KeyBound, RangeQueryBound};
use crate::keys::{KeyView, MAX_SIZEOF_STRING_KEY};
use crate::msg::{
    edge_bytes, BooleanTest, ContractHasRelationsQueryParams, ContractHasTagsQueryParams,
    ContractMetadataResponse, ContractRelationsQueryParams, ContractRelationsResponse,
    ContractSelector, ContractTagsQueryParams, ContractTagsResponse, ContractsByIndexResponse,
    ContractsByTagQueryParams, ContractsByTagResponse, ContractsInRangeQueryParams,
    ContractsRelatedToParams, ContractsRelatedToResponse, IndexRangeBound, NameValue,
    RelatedAddress, TagSelector, TagWeightRangeBound, WeightedTag,
};
use crate::registry::Factory;
use crate::relations::{forward_edge, inverse_edge};
use crate::util::{limit_of, prepare_limit_and_desc, unpad_vec, unpadded_len};

verus! {

/// A bound on the bytes of the lower end of a range, as a bound on keys:
/// an inclusive bound takes every id, an exclusive one none.
pub open spec fn lower_key_bound(b: Seq<u8>, inclusive: bool) -> (KeyView, bool) {
    if inclusive {
        ((b, 0u32), true)
    } else {
        ((b, u32::MAX), false)
    }
}

/// A bound on the bytes of the upper end of a range, as a bound on keys.
pub open spec fn upper_key_bound(b: Seq<u8>, inclusive: bool) -> (KeyView, bool) {
    if inclusive {
        ((b, u32::MAX), true)
    } else {
        ((b, 0u32), false)
    }
}

/// The key bounds of a scan that starts at `start` (or strictly after the
/// cursor, which takes its place) and stops at `stop`, in either direction:
/// descending scans start at the upper end.
pub open spec fn range_bounds(
    cursor: Option<KeyView>,
    start: Option<(Seq<u8>, bool)>,
    stop: Option<(Seq<u8>, bool)>,
    desc: bool,
) -> (KeyBound, KeyBound) {
    let from: KeyBound = match cursor {
        Some(c) => Some((c, false)),
        None => match start {
            None => None,
            Some((b, incl)) => Some(
                if desc {
                    upper_key_bound(b, incl)
                } else {
                    lower_key_bound(b, incl)
                },
            ),
        },
    };
    let to: KeyBound = match stop {
        None => None,
        Some((b, incl)) => Some(
            if desc {
                lower_key_bound(b, incl)
            } else {
                upper_key_bound(b, incl)
            },
        ),
    };
    if desc {
        (to, from)
    } else {
        (from, to)
    }
}

pub open spec fn bytes_bound(b: Option<(Vec<u8>, bool)>) -> Option<(Seq<u8>, bool)> {
    match b {
        None => None,
        Some((v, incl)) => Some((v@, incl)),
    }
}

pub open spec fn key_opt(k: Option<IndexKey>) -> Option<KeyView> {
    match k {
        None => None,
        Some(x) => Some(x@),
    }
}

pub open spec fn view_bound(b: Option<RangeQueryBound<IndexKey>>) -> KeyBound {
    crate::index::bound_view(b)
}

fn key_bound(b: Vec<u8>, id: u32, inclusive: bool) -> (r: RangeQueryBound<IndexKey>)
    ensures
        view_bound(Some(r)) == Some(((b@, id), inclusive)),
{
    if inclusive {
        RangeQueryBound::Inclusive(IndexKey::new(b, id))
    } else {
        RangeQueryBound::Exclusive(IndexKey::new(b, id))
    }
}

fn side_bound(b: Vec<u8>, inclusive: bool, upper: bool) -> (r: RangeQueryBound<IndexKey>)
    ensures
        view_bound(Some(r)) == Some(
            if upper {
                upper_key_bound(b@, inclusive)
            } else {
                lower_key_bound(b@, inclusive)
            },
        ),
{
    if upper == inclusive {
        key_bound(b, u32::MAX, inclusive)
    } else {
        key_bound(b, 0, inclusive)
    }
}

/// The key bounds of a scan; see `range_bounds`.
pub fn build_bounds(
    cursor: Option<IndexKey>,
    start: Option<(Vec<u8>, bool)>,
    stop: Option<(Vec<u8>, bool)>,
    desc: bool,
) -> (r: (Option<RangeQueryBound<IndexKey>>, Option<RangeQueryBound<IndexKey>>))
    ensures
        (view_bound(r.0), view_bound(r.1)) == range_bounds(
            key_opt(cursor),
            bytes_bound(start),
            bytes_bound(stop),
            desc,
        ),
{
    let from = match cursor {
        Some(c) => Some(RangeQueryBound::Exclusive(c)),
        None => match start {
            None => None,
            Some((b, incl)) => Some(side_bound(b, incl, desc)),
        },
    };
    let to = match stop {
        None => None,
        Some((b, incl)) => Some(side_bound(b, incl, !desc)),
    };
    if desc {
        (to, from)
    } else {
        (from, to)
    }
}

pub open spec fn value_bound(b: Option<IndexRangeBound>) -> Option<(Seq<u8>, bool)> {
    match b {
        None => None,
        Some(IndexRangeBound::Inclusive(v)) => Some((encode(v), true)),
        Some(IndexRangeBound::Exclusive(v)) => Some((encode(v), false)),
    }
}

fn value_bound_bytes(b: &Option<IndexRangeBound>) -> (r: Option<(Vec<u8>, bool)>)
    ensures
        bytes_bound(r) == value_bound(*b),
{
    match b {
        None => None,
        Some(IndexRangeBound::Inclusive(v)) => Some((v.to_bytes(), true)),
        Some(IndexRangeBound::Exclusive(v)) => Some((v.to_bytes(), false)),
    }
}

pub open spec fn cursor_key(c: Option<(Vec<u8>, u32)>) -> Option<KeyView> {
    match c {
        None => None,
        Some((b, id)) => Some((b@, id)),
    }
}

/// The keys a records-in-range query selects.
pub open spec fn in_range_keys(f: &Factory, p: ContractsInRangeQueryParams) -> Seq<KeyView> {
    let (lo, hi) = range_bounds(
        cursor_key(p.cursor),
        value_bound(p.start),
        value_bound(p.stop),
        p.desc == Some(true),
    );
    scan_spec(
        f.index_entries(p.index),
        Seq::empty(),
        lo,
        hi,
        p.desc == Some(true),
        limit_of(p.limit) as nat,
    )
}

/// The addresses of the records whose ids are the keys' ids, failing with
/// `NotFound` on an id that is not registered.
fn addresses_of(f: &Factory, keys: &Vec<IndexKey>) -> (r: Result<Vec<String>, ContractError>)
    requires
        f.wf(),
    ensures
        r matches Ok(a) ==> a@.len() == keys@.len() && forall|i: int|
            0 <= i < a@.len() ==> f.address_of(#[trigger] keys@[i].id) == Some(a@[i]@),
        r is Err ==> r == Err::<Vec<String>, ContractError>(ContractError::NotFound) && exists|i: int|
            0 <= i < keys@.len() && (#[trigger] f.address_of(keys@[i].id)) is None,
{
    let mut out: Vec<String> = Vec::new();
    let mut i: usize = 0;
    while i < keys.len()
        invariant
            f.wf(),
            i <= keys@.len(),
            out@.len() == i,
            forall|j: int| 0 <= j < i ==> f.address_of(#[trigger] keys@[j].id) == Some(out@[j]@),
        decreases keys@.len() - i,
    {
        match f.address_of_id(keys[i].id) {
            Some(a) => out.push(a),
            None => {
                return Err(ContractError::NotFound);
            },
        }
        i = i + 1;
    }
    Ok(out)
}

/// The last key of a full page, which resumes the next page.
fn page_cursor(keys: &Vec<IndexKey>, limit: usize) -> (r: Option<IndexKey>)
    ensures
        keys@.len() == limit && limit > 0 ==> key_opt(r) == Some(keys_view(keys@).last()),
        keys@.len() != limit || limit == 0 ==> r is None,
{
    if keys.len() == limit && limit > 0 {
        Some(keys[limit - 1].copy())
    } else {
        None
    }
}

/// Records whose value in an index lies in a range, a page at a time:
/// their addresses in index order, and the key to resume from when the page
/// is full.
pub fn query_contracts_in_range(f: &Factory, params: ContractsInRangeQueryParams) -> (r: Result<
    ContractsByIndexResponse,
    ContractError,
>)
    requires
        f.wf(),
    ensures
        ({
            let keys = in_range_keys(f, params);
            &&& r matches Ok(resp) ==> {
                &&& resp.addresses@.len() == keys.len()
                &&& forall|i: int|
                    0 <= i < keys.len() ==> f.address_of(#[trigger] keys[i].1) == Some(
                        resp.addresses@[i]@,
                    )
                &&& keys.len() == limit_of(params.limit) ==> cursor_key(resp.cursor) == Some(keys.last())
                &&& keys.len() != limit_of(params.limit) ==> resp.cursor is None
            }
            &&& r is Err ==> r == Err::<ContractsByIndexResponse, ContractError>(ContractError::NotFound)
                && exists|i: int| 0 <= i < keys.len() && (#[trigger] f.address_of(keys[i].1)) is None
        }),
{
    let ghost p = params;
    let (limit, desc) = prepare_limit_and_desc(params.limit, params.desc);
    let cursor = match params.cursor {
        None => None,
        Some((b, id)) => Some(IndexKey::new(b, id)),
    };
    let start = value_bound_bytes(&params.start);
    let stop = value_bound_bytes(&params.stop);
    let (lo, hi) = build_bounds(cursor, start, stop, desc);
    let no_bytes: Vec<u8> = Vec::new();
    let keys = f.scan_index(&params.index, no_bytes.as_slice(), &lo, &hi, desc, limit);
    proof {
        assert(no_bytes@ =~= Seq::<u8>::empty());
        assert(keys_view(keys@) == in_range_keys(f, p));
    }
    let addresses = match addresses_of(f, &keys) {
        Ok(a) => a,
        Err(e) => {
            proof {
                let i = choose|i: int| 0 <= i < keys@.len() && (#[trigger] f.address_of(keys@[i].id)) is None;
                assert(keys_view(keys@)[i].1 == keys@[i].id);
            }
            return Err(e);
        },
    };
    let page = page_cursor(&keys, limit);
    let cursor = match page {
        None => None,
        Some(k) => Some((k.bytes, k.id)),
    };
    proof {
        assert forall|i: int| 0 <= i < keys@.len() implies f.address_of(#[trigger] keys_view(keys@)[i].1)
            == Some(addresses@[i]@) by {
            assert(keys_view(keys@)[i].1 == keys@[i].id);
        }
    }
    Ok(ContractsByIndexResponse { addresses, cursor })
}

pub open spec fn weight_bound(tag: Seq<u8>, b: Option<TagWeightRangeBound>) -> Option<(Seq<u8>, bool)> {
    match b {
        None => None,
        Some(TagWeightRangeBound::Inclusive(w)) => Some((tag + be16(w), true)),
        Some(TagWeightRangeBound::Exclusive(w)) => Some((tag + be16(w), false)),
    }
}

fn weight_bound_bytes(tag: &Vec<u8>, b: &Option<TagWeightRangeBound>) -> (r: Option<(Vec<u8>, bool)>)
    ensures
        bytes_bound(r) == weight_bound(tag@, *b),
{
    match b {
        None => None,
        Some(TagWeightRangeBound::Inclusive(w)) => {
            let wb = be16_of(*w);
            Some((concat_bytes(tag.as_slice(), wb.as_slice()), true))
        },
        Some(TagWeightRangeBound::Exclusive(w)) => {
            let wb = be16_of(*w);
            Some((concat_bytes(tag.as_slice(), wb.as_slice()), false))
        },
    }
}

/// The weight held in a key of the weight-ordered index.
pub open spec fn weight_in_key(b: Seq<u8>) -> u16 {
    if b.len() >= MAX_SIZEOF_STRING_KEY + 2 {
        from_be16(b.subrange(MAX_SIZEOF_STRING_KEY as int, MAX_SIZEOF_STRING_KEY + 2))
    } else {
        0
    }
}

fn read_weight(b: &Vec<u8>) -> (r: u16)
    ensures
        r == weight_in_key(b@),
{
    if b.len() >= MAX_SIZEOF_STRING_KEY + 2 {
        let mut two: Vec<u8> = Vec::new();
        two.push(b[MAX_SIZEOF_STRING_KEY]);
        two.push(b[MAX_SIZEOF_STRING_KEY + 1]);
        assert(two@ =~= b@.subrange(MAX_SIZEOF_STRING_KEY as int, MAX_SIZEOF_STRING_KEY + 2));
        read_be16(two.as_slice())
    } else {
        0
    }
}

pub open spec fn tag_cursor_key(c: Option<(Vec<u8>, u16, u32)>) -> Option<KeyView> {
    match c {
        None => None,
        Some((b, w, id)) => Some((b@ + be16(w), id)),
    }
}

/// The keys a records-by-tag query selects: the tag's entries of the
/// weight-ordered index between the weight bounds.
pub open spec fn by_tag_keys(f: &Factory, p: ContractsByTagQueryParams) -> Seq<KeyView> {
    let t = string_key(str_bytes(p.tag@));
    let desc = p.desc == Some(true);
    let (lo, hi) = range_bounds(
        tag_cursor_key(p.cursor),
        weight_bound(t, if desc { p.max_weight } else { p.min_weight }),
        weight_bound(t, if desc { p.min_weight } else { p.max_weight }),
        desc,
    );
    scan_spec(f.tag_index().weighted_index_seq(), t, lo, hi, desc, limit_of(p.limit) as nat)
}

/// Records carrying a tag with a weight between the bounds, a page at a
/// time, ordered by weight then id: their addresses and weights, and the
/// key to resume from when the page is full.
pub fn query_contracts_by_tag(f: &Factory, params: ContractsByTagQueryParams) -> (r: Result<
    ContractsByTagResponse,
    ContractError,
>)
    requires
        f.wf(),
    ensures
        ({
            let keys = by_tag_keys(f, params);
            &&& r matches Ok(resp) ==> {
                &&& resp.addresses@.len() == keys.len()
                &&& resp.weights@.len() == keys.len()
                &&& forall|i: int|
                    0 <= i < keys.len() ==> f.address_of(#[trigger] keys[i].1) == Some(
                        resp.addresses@[i]@,
                    ) && resp.weights@[i] == weight_in_key(keys[i].0)
                &&& keys.len() == limit_of(params.limit) ==> (resp.cursor matches Some(c) && c.0@
                    == keys.last().0.take(MAX_SIZEOF_STRING_KEY as int) && c.1 == weight_in_key(
                    keys.last().0,
                ) && c.2 == keys.last().1)
                &&& keys.len() != limit_of(params.limit) ==> resp.cursor is None
            }
            &&& r is Err ==> r == Err::<ContractsByTagResponse, ContractError>(ContractError::NotFound)
                && exists|i: int| 0 <= i < keys.len() && (#[trigger] f.address_of(keys[i].1)) is None
        }),
{
    let ghost p = params;
    let (limit, desc) = prepare_limit_and_desc(params.limit, params.desc);
    let t = string_key_of(&params.tag);
    let cursor = match params.cursor {
        None => None,
        Some((b, w, id)) => {
            let wb = be16_of(w);
            Some(IndexKey::new(concat_bytes(b.as_slice(), wb.as_slice()), id))
        },
    };
    let (sb, eb) = if desc {
        (&params.max_weight, &params.min_weight)
    } else {
        (&params.min_weight, &params.max_weight)
    };
    let start = weight_bound_bytes(&t, sb);
    let stop = weight_bound_bytes(&t, eb);
    let (lo, hi) = build_bounds(cursor, start, stop, desc);
    let keys = f.tags().scan_weighted(t.as_slice(), &lo, &hi, desc, limit);
    proof {
        assert(keys_view(keys@) == by_tag_keys(f, p));
    }
    let addresses = match addresses_of(f, &keys) {
        Ok(a) => a,
        Err(e) => {
            proof {
                let i = choose|i: int| 0 <= i < keys@.len() && (#[trigger] f.address_of(keys@[i].id)) is None;
                assert(keys_view(keys@)[i].1 == keys@[i].id);
            }
            return Err(e);
        },
    };
    let mut weights: Vec<u16> = Vec::new();
    let mut i: usize = 0;
    while i < keys.len()
        invariant
            i <= keys@.len(),
            weights@.len() == i,
            forall|j: int| 0 <= j < i ==> weights@[j] == weight_in_key(#[trigger] keys@[j].bytes@),
        decreases keys@.len() - i,
    {
        weights.push(read_weight(&keys[i].bytes));
        i = i + 1;
    }
    let cursor = if keys.len() == limit {
        let last = &keys[limit - 1];
        let mut tb: Vec<u8> = Vec::new();
        let n = if last.bytes.len() < MAX_SIZEOF_STRING_KEY { last.bytes.len() } else { MAX_SIZEOF_STRING_KEY };
        let mut j: usize = 0;
        while j < n
            invariant
                j <= n,
                n <= last.bytes@.len(),
                n == if last.bytes@.len() < MAX_SIZEOF_STRING_KEY { last.bytes@.len() } else { MAX_SIZEOF_STRING_KEY as nat },
                tb@ == last.bytes@.take(j as int),
            decreases n - j,
        {
            tb.push(last.bytes[j]);
            assert(tb@ =~= last.bytes@.take(j + 1));
            j = j + 1;
        }
        proof {
            lemma_scan_member(f.tag_index().weighted_index_seq(), t@, view_bound(lo), view_bound(hi), desc, limit as nat, (limit - 1) as int);
            assert(keys_view(keys@)[limit - 1] == last@);
            assert(t@.is_prefix_of(last.bytes@));
            assert(t@.len() == MAX_SIZEOF_STRING_KEY);
        }
        Some((tb, read_weight(&last.bytes), last.id))
    } else {
        None
    };
    proof {
        assert forall|i: int| 0 <= i < keys@.len() implies f.address_of(#[trigger] keys_view(keys@)[i].1)
            == Some(addresses@[i]@) && weights@[i] == weight_in_key(keys_view(keys@)[i].0) by {
            assert(keys_view(keys@)[i] == keys@[i]@);
        }
    }
    Ok(ContractsByTagResponse { addresses, weights, cursor })
}

pub open spec fn edge_bound(addr: Seq<u8>, b: Option<RangeQueryBound<NameValue>>) -> Option<(Seq<u8>, bool)> {
    match b {
        None => None,
        Some(RangeQueryBound::Inclusive(nv)) => Some((addr + edge_bytes(nv.name@, nv.value), true)),
        Some(RangeQueryBound::Exclusive(nv)) => Some((addr + edge_bytes(nv.name@, nv.value), false)),
    }
}

fn edge_bound_bytes(addr: &Vec<u8>, b: &Option<RangeQueryBound<NameValue>>) -> (r: Option<(Vec<u8>, bool)>)
    ensures
        bytes_bound(r) == edge_bound(addr@, *b),
{
    match b {
        None => None,
        Some(RangeQueryBound::Inclusive(nv)) => {
            let e = nv.as_edge_bytes();
            Some((concat_bytes(addr.as_slice(), e.as_slice()), true))
        },
        Some(RangeQueryBound::Exclusive(nv)) => {
            let e = nv.as_edge_bytes();
            Some((concat_bytes(addr.as_slice(), e.as_slice()), false))
        },
    }
}

pub open spec fn related_cursor_key(addr: Seq<u8>, c: Option<(u32, Vec<u8>)>) -> Option<KeyView> {
    match c {
        None => None,
        Some((id, e)) => Some((addr + e@, id)),
    }
}

/// The keys a records-related-to query selects: the address's inverse
/// entries between the edge bounds.
pub open spec fn related_to_keys(f: &Factory, p: ContractsRelatedToParams) -> Seq<KeyView> {
    let a = string_key(str_bytes(p.address@));
    let desc = p.desc == Some(true);
    let (lo, hi) = range_bounds(
        related_cursor_key(a, p.cursor),
        edge_bound(a, p.start),
        edge_bound(a, p.stop),
        desc,
    );
    scan_spec(f.relation_index().inverse_seq(), a, lo, hi, desc, limit_of(p.limit) as nat)
}

/// Records with an edge to an address, a page at a time, ordered by edge
/// then id: their addresses and the values attached to the edges, and the
/// id and edge to resume from when the page is full.
pub fn query_contracts_related_to(f: &Factory, params: ContractsRelatedToParams) -> (r: Result<
    ContractsRelatedToResponse,
    ContractError,
>)
    requires
        f.wf(),
    ensures
        ({
            let keys = related_to_keys(f, params);
            &&& r matches Ok(resp) ==> {
                &&& resp.addresses@.len() == keys.len()
                &&& resp.values@.len() == keys.len()
                &&& forall|i: int|
                    0 <= i < keys.len() ==> f.address_of(#[trigger] keys[i].1) == Some(
                        resp.addresses@[i]@,
                    ) && same_opt_value(resp.values@[i], f.relation_index().edges()[inverse_edge(keys[i])])
                &&& keys.len() == limit_of(params.limit) ==> (resp.cursor matches Some(c) && c.0
                    == keys.last().1 && c.1@ == inverse_edge(keys.last()).1)
                &&& keys.len() != limit_of(params.limit) ==> resp.cursor is None
            }
            &&& r is Err ==> r == Err::<ContractsRelatedToResponse, ContractError>(ContractError::NotFound)
                && exists|i: int| 0 <= i < keys.len() && (#[trigger] f.address_of(keys[i].1)) is None
        }),
{
    let ghost p = params;
    let (limit, desc) = prepare_limit_and_desc(params.limit, params.desc);
    let a = string_key_of(&params.address);
    let cursor = match params.cursor {
        None => None,
        Some((id, e)) => Some(IndexKey::new(concat_bytes(a.as_slice(), e.as_slice()), id)),
    };
    let start = edge_bound_bytes(&a, &params.start);
    let stop = edge_bound_bytes(&a, &params.stop);
    let (lo, hi) = build_bounds(cursor, start, stop, desc);
    let rel = f.relations();
    let keys = rel.scan_inverse(a.as_slice(), &lo, &hi, desc, limit);
    proof {
        assert(keys_view(keys@) == related_to_keys(f, p));
    }
    let addresses = match addresses_of(f, &keys) {
        Ok(x) => x,
        Err(e) => {
            proof {
                let i = choose|i: int| 0 <= i < keys@.len() && (#[trigger] f.address_of(keys@[i].id)) is None;
                assert(keys_view(keys@)[i].1 == keys@[i].id);
            }
            return Err(e);
        },
    };
    let mut values: Vec<Option<IndexValue>> = Vec::new();
    let mut edges: Vec<Vec<u8>> = Vec::new();
    let mut i: usize = 0;
    while i < keys.len()
        invariant
            rel.wf(),
            *rel == f.relation_index(),
            a@.len() == MAX_SIZEOF_STRING_KEY,
            keys_view(keys@) == scan_spec(rel.inverse_seq(), a@, view_bound(lo), view_bound(hi), desc, limit as nat),
            i <= keys@.len(),
            values@.len() == i,
            edges@.len() == i,
            forall|j: int| 0 <= j < i ==> same_opt_value(#[trigger] values@[j], rel.edges()[inverse_edge(keys@[j]@)]) && edges@[j]@ == inverse_edge(keys@[j]@).1,
        decreases keys@.len() - i,
    {
        let key = &keys[i];
        proof {
            lemma_scan_member(rel.inverse_seq(), a@, view_bound(lo), view_bound(hi), desc, limit as nat, i as int);
            assert(keys_view(keys@)[i as int] == key@);
            crate::relations::lemma_inverse_key_edge(rel, key@);
            assert(a@.is_prefix_of(key.bytes@));
            assert(key.bytes@.take(MAX_SIZEOF_STRING_KEY as int) =~= a@);
        }
        let n = key.bytes.len();
        let mut e: Vec<u8> = Vec::new();
        let mut j: usize = MAX_SIZEOF_STRING_KEY;
        while j < n
            invariant
                MAX_SIZEOF_STRING_KEY <= j <= n,
                n == key.bytes@.len(),
                e@ == key.bytes@.subrange(MAX_SIZEOF_STRING_KEY as int, j as int),
            decreases n - j,
        {
            e.push(key.bytes[j]);
            assert(e@ =~= key.bytes@.subrange(MAX_SIZEOF_STRING_KEY as int, j + 1));
            j = j + 1;
        }
        assert(inverse_edge(key@) == (key.id, e@, a@));
        values.push(rel.edge_value(key.id, e.as_slice(), a.as_slice()));
        edges.push(e);
        i = i + 1;
    }
    let cursor = if keys.len() == limit && limit > 0 {
        Some((keys[limit - 1].id, copy_bytes(edges[limit - 1].as_slice())))
    } else {
        None
    };
    proof {
        assert forall|i: int| 0 <= i < keys@.len() implies f.address_of(#[trigger] keys_view(keys@)[i].1)
            == Some(addresses@[i]@) && same_opt_value(values@[i], f.relation_index().edges()[inverse_edge(keys_view(keys@)[i])]) by {
            assert(keys_view(keys@)[i] == keys@[i]@);
        }
        if keys.len() == limit && limit > 0 {
            assert(keys_view(keys@).last() == keys@[limit - 1]@);
        }
    }
    Ok(ContractsRelatedToResponse { addresses, values, cursor })
}

/// The number of `true` entries.
pub open spec fn count_true(s: Seq<bool>) -> nat
    decreases s.len(),
{
    if s.len() == 0 {
        0
    } else {
        count_true(s.drop_last()) + if s.last() {
            1nat
        } else {
            0nat
        }
    }
}

/// The outcomes of several selectors combined: all hold, some holds, or
/// exactly one holds.
///
/// `Or` holds when at least one selector holds, for tags and for relations
/// alike. For relation selectors the intended meaning of `Or` is an open
/// question (a reading where it holds only when no selector holds has been
/// proposed); this one is provisional.
pub open spec fn combine(test: BooleanTest, s: Seq<bool>) -> bool {
    match test {
        BooleanTest::And => forall|i: int| 0 <= i < s.len() ==> #[trigger] s[i],
        BooleanTest::Or => exists|i: int| 0 <= i < s.len() && #[trigger] s[i],
        BooleanTest::Xor => count_true(s) == 1,
    }
}

proof fn lemma_count_true_zero(s: Seq<bool>)
    ensures
        count_true(s) == 0 <==> forall|i: int| 0 <= i < s.len() ==> !#[trigger] s[i],
    decreases s.len(),
{
    if s.len() > 0 {
        lemma_count_true_zero(s.drop_last());
        if !s.last() && count_true(s) != 0 {
        }
        assert(forall|i: int| 0 <= i < s.drop_last().len() ==> s.drop_last()[i] == s[i]);
    }
}

/// Combines the outcomes `s` under `test`.
pub fn combine_results(test: &BooleanTest, s: &Vec<bool>) -> (r: bool)
    ensures
        r == combine(*test, s@),
{
    let mut all = true;
    let mut any = false;
    let mut count: usize = 0;
    let mut i: usize = 0;
    while i < s.len()
        invariant
            i <= s@.len(),
            all == (forall|j: int| 0 <= j < i ==> #[trigger] s@[j]),
            any == (exists|j: int| 0 <= j < i && #[trigger] s@[j]),
            count == if count_true(s@.take(i as int)) > 2 { 2 } else { count_true(s@.take(i as int)) },
        decreases s@.len() - i,
    {
        assert(s@.take(i + 1).drop_last() =~= s@.take(i as int));
        if s[i] {
            any = true;
            if count < 2 {
                count = count + 1;
            }
        } else {
            all = false;
        }
        i = i + 1;
    }
    assert(s@.take(i as int) =~= s@);
    match test {
        BooleanTest::And => all,
        BooleanTest::Or => any,
        BooleanTest::Xor => count == 1,
    }
}

/// Whether a selector holds of record `id`: the tag is set, and its weight
/// is within the selector's bounds.
pub open spec fn tag_satisfied(w: Map<(u32, Seq<u8>), u16>, id: u32, s: TagSelector) -> bool {
    let k = (id, string_key(str_bytes(s.tag@)));
    &&& w.contains_key(k)
    &&& (s.min_weight matches Some(lo) ==> lo <= w[k])
    &&& (s.max_weight matches Some(hi) ==> w[k] <= hi)
}

/// Whether a tag selector holds of record `id`.
pub fn has_tag(f: &Factory, id: u32, s: &TagSelector) -> (r: bool)
    requires
        f.wf(),
    ensures
        r == tag_satisfied(f.tag_index().weights(), id, *s),
{
    let t = string_key_of(&s.tag);
    match f.tags().weight_of(id, t.as_slice()) {
        None => false,
        Some(w) => {
            let above = match s.min_weight {
                Some(lo) => lo <= w,
                None => true,
            };
            let below = match s.max_weight {
                Some(hi) => w <= hi,
                None => true,
            };
            above && below
        },
    }
}

/// Whether a record has tags: the selectors' outcomes combined by the test.
pub fn query_contract_has_tags(f: &Factory, msg: ContractHasTagsQueryParams) -> (r: Result<bool, ContractError>)
    requires
        f.wf(),
    ensures
        r matches Ok(b) ==> exists|id: u32| #[trigger] f.resolves(ContractSelector::Address(msg.contract), id)
            && b == combine(msg.test, msg.tags@.map_values(|s: TagSelector| tag_satisfied(f.tag_index().weights(), id, s))),
        r is Err ==> r == Err::<bool, ContractError>(ContractError::NotFound) && forall|id: u32| !#[trigger] f.resolves(ContractSelector::Address(msg.contract), id),
{
    let ghost m = msg;
    let ContractHasTagsQueryParams { contract, test, tags } = msg;
    let id = match f.resolve(&ContractSelector::Address(contract)) {
        Ok(id) => id,
        Err(e) => {
            return Err(e);
        },
    };
    let mut results: Vec<bool> = Vec::new();
    let mut i: usize = 0;
    while i < tags.len()
        invariant
            f.wf(),
            i <= tags@.len(),
            results@ == tags@.take(i as int).map_values(|s: TagSelector| tag_satisfied(f.tag_index().weights(), id, s)),
        decreases tags@.len() - i,
    {
        let b = has_tag(f, id, &tags[i]);
        results.push(b);
        assert(results@ =~= tags@.take(i + 1).map_values(|s: TagSelector| tag_satisfied(f.tag_index().weights(), id, s)));
        i = i + 1;
    }
    assert(tags@.take(i as int) =~= tags@);
    Ok(combine_results(&test, &results))
}

/// Whether record `id` has an edge to `address` with the label and value.
pub open spec fn relation_holds(f: &Factory, id: u32, address: Seq<char>, nv: NameValue) -> bool {
    f.relation_index().edges().contains_key(
        (id, edge_bytes(nv.name@, nv.value), string_key(str_bytes(address))),
    )
}

fn relation_results(f: &Factory, id: u32, address: &String, rels: &Vec<NameValue>) -> (r: Vec<bool>)
    requires
        f.wf(),
    ensures
        r@ == rels@.map_values(|nv: NameValue| relation_holds(f, id, address@, nv)),
{
    let a = string_key_of(address);
    let rel = f.relations();
    let mut results: Vec<bool> = Vec::new();
    let mut i: usize = 0;
    while i < rels.len()
        invariant
            rel.wf(),
            *rel == f.relation_index(),
            a@ == string_key(str_bytes(address@)),
            a@.len() == MAX_SIZEOF_STRING_KEY,
            i <= rels@.len(),
            results@ == rels@.take(i as int).map_values(
                |nv: NameValue| relation_holds(f, id, address@, nv),
            ),
        decreases rels@.len() - i,
    {
        let nv = &rels[i];
        let edge = nv.as_edge_bytes();
        let b = rel.has_edge(id, edge.as_slice(), a.as_slice());
        results.push(b);
        assert(results@ =~= rels@.take(i + 1).map_values(
            |nv: NameValue| relation_holds(f, id, address@, nv),
        ));
        i = i + 1;
    }
    assert(rels@.take(i as int) =~= rels@);
    results
}

/// Whether a record is related to an address by edges with the given labels
/// and values, combined by the test.
pub fn query_contract_is_related_to(f: &Factory, msg: ContractHasRelationsQueryParams) -> (r: Result<bool, ContractError>)
    requires
        f.wf(),
    ensures
        r matches Ok(b) ==> exists|id: u32| #[trigger] f.resolves(ContractSelector::Address(msg.contract_address), id)
            && b == combine(msg.test, msg.relations@.map_values(|nv: NameValue| relation_holds(f, id, msg.address@, nv))),
        r is Err ==> r == Err::<bool, ContractError>(ContractError::NotFound) && forall|id: u32| !#[trigger] f.resolves(ContractSelector::Address(msg.contract_address), id),
{
    let ContractHasRelationsQueryParams { test, relations, contract_address, address } = msg;
    let id = match f.resolve(&ContractSelector::Address(contract_address)) {
        Ok(id) => id,
        Err(e) => {
            return Err(e);
        },
    };
    let results = relation_results(f, id, &address, &relations);
    Ok(combine_results(&test, &results))
}

/// Whether a record has relations to an address: each selector names an
/// edge by its label and optional value, as `set_relation` builds it, and
/// the outcomes are combined by the test.
pub fn query_contract_has_relations(f: &Factory, msg: ContractHasRelationsQueryParams) -> (r: Result<bool, ContractError>)
    requires
        f.wf(),
    ensures
        r matches Ok(b) ==> exists|id: u32| #[trigger] f.resolves(ContractSelector::Address(msg.contract_address), id)
            && b == combine(msg.test, msg.relations@.map_values(|nv: NameValue| relation_holds(f, id, msg.address@, nv))),
        r is Err ==> r == Err::<bool, ContractError>(ContractError::NotFound) && forall|id: u32| !#[trigger] f.resolves(ContractSelector::Address(msg.contract_address), id),
{
    let ContractHasRelationsQueryParams { test, relations, contract_address, address } = msg;
    let id = match f.resolve(&ContractSelector::Address(contract_address)) {
        Ok(id) => id,
        Err(e) => {
            return Err(e);
        },
    };
    let results = relation_results(f, id, &address, &relations);
    Ok(combine_results(&test, &results))
}

/// A bound on keys whose bytes start with `b`: an inclusive upper or an
/// exclusive lower bound reaches past every key that extends `b` by up to
/// `fill`'s length, as `fill` is all 0xff bytes.
pub open spec fn filled_side(b: Seq<u8>, incl: bool, upper: bool, fill: Seq<u8>) -> (KeyView, bool) {
    let bytes = if incl == upper {
        b + fill
    } else {
        b
    };
    if upper {
        upper_key_bound(bytes, incl)
    } else {
        lower_key_bound(bytes, incl)
    }
}

/// The key bounds of a scan from `start` (or from `from`, which takes its
/// place) to `stop`, in either direction.
pub open spec fn filled_bounds(
    from: KeyBound,
    start: Option<(Seq<u8>, bool)>,
    stop: Option<(Seq<u8>, bool)>,
    desc: bool,
    fill: Seq<u8>,
) -> (KeyBound, KeyBound) {
    let f: KeyBound = if from is Some {
        from
    } else {
        match start {
            None => None,
            Some((b, incl)) => Some(filled_side(b, incl, desc, fill)),
        }
    };
    let t: KeyBound = match stop {
        None => None,
        Some((b, incl)) => Some(filled_side(b, incl, !desc, fill)),
    };
    if desc {
        (t, f)
    } else {
        (f, t)
    }
}

fn filled_bound(b: Vec<u8>, incl: bool, upper: bool, fill: &[u8]) -> (r: RangeQueryBound<IndexKey>)
    ensures
        view_bound(Some(r)) == Some(filled_side(b@, incl, upper, fill@)),
{
    let bytes = if incl == upper {
        concat_bytes(b.as_slice(), fill)
    } else {
        b
    };
    side_bound(bytes, incl, upper)
}

fn build_filled_bounds(
    from: Option<RangeQueryBound<IndexKey>>,
    start: Option<(Vec<u8>, bool)>,
    stop: Option<(Vec<u8>, bool)>,
    desc: bool,
    fill: &[u8],
) -> (r: (Option<RangeQueryBound<IndexKey>>, Option<RangeQueryBound<IndexKey>>))
    ensures
        (view_bound(r.0), view_bound(r.1)) == filled_bounds(
            view_bound(from),
            bytes_bound(start),
            bytes_bound(stop),
            desc,
            fill@,
        ),
{
    let f = match from {
        Some(b) => Some(b),
        None => match start {
            None => None,
            Some((b, incl)) => Some(filled_bound(b, incl, desc, fill)),
        },
    };
    let t = match stop {
        None => None,
        Some((b, incl)) => Some(filled_bound(b, incl, !desc, fill)),
    };
    if desc {
        (t, f)
    } else {
        (f, t)
    }
}

fn ff_bytes(n: usize) -> (r: Vec<u8>)
    ensures
        r@ == Seq::new(n as nat, |i: int| 0xffu8),
{
    let mut r: Vec<u8> = Vec::new();
    let mut i: usize = 0;
    while i < n
        invariant
            i <= n,
            r@ == Seq::new(i as nat, |j: int| 0xffu8),
        decreases n - i,
    {
        r.push(0xffu8);
        assert(r@ =~= Seq::new((i + 1) as nat, |j: int| 0xffu8));
        i = i + 1;
    }
    r
}

fn sub_bytes(b: &[u8], from: usize, to: usize) -> (r: Vec<u8>)
    requires
        from <= to <= b@.len(),
    ensures
        r@ == b@.subrange(from as int, to as int),
{
    let mut r: Vec<u8> = Vec::new();
    let mut i: usize = from;
    while i < to
        invariant
            from <= i <= to,
            to <= b@.len(),
            r@ == b@.subrange(from as int, i as int),
        decreases to - i,
    {
        r.push(b[i]);
        assert(r@ =~= b@.subrange(from as int, i + 1));
        i = i + 1;
    }
    r
}

/// The text of a fixed-width string key: its bytes without the trailing
/// zero padding, decoded.
pub open spec fn key_text(b: Seq<u8>) -> Option<Seq<char>> {
    if b.len() == 0 {
        Some(Seq::empty())
    } else {
        text_of(b.take(unpadded_len(b) as int))
    }
}

fn text_of_key(b: Vec<u8>) -> (r: Option<String>)
    ensures
        r matches Some(s) ==> key_text(b@) == Some(s@),
        r is None ==> key_text(b@) is None,
{
    if b.len() == 0 {
        return Some(String::new());
    }
    string_from_utf8(unpad_vec(b))
}

/// The tag bytes of a weight entry: the entry's bytes after the record id,
/// before the weight.
pub open spec fn entry_tag(b: Seq<u8>) -> Seq<u8> {
    if b.len() >= MAX_SIZEOF_STRING_KEY + 6 {
        b.subrange(4, MAX_SIZEOF_STRING_KEY + 4)
    } else {
        Seq::empty()
    }
}

/// The weight of a weight entry: its last two bytes.
pub open spec fn entry_weight(b: Seq<u8>) -> u16 {
    if b.len() >= MAX_SIZEOF_STRING_KEY + 6 {
        from_be16(b.subrange(MAX_SIZEOF_STRING_KEY + 4, MAX_SIZEOF_STRING_KEY + 6))
    } else {
        0
    }
}

pub open spec fn tag_bound(prefix: Seq<u8>, b: Option<RangeQueryBound<String>>) -> Option<(Seq<u8>, bool)> {
    match b {
        None => None,
        Some(RangeQueryBound::Inclusive(t)) => Some((prefix + string_key(str_bytes(t@)), true)),
        Some(RangeQueryBound::Exclusive(t)) => Some((prefix + string_key(str_bytes(t@)), false)),
    }
}

fn tag_bound_bytes(prefix: &Vec<u8>, b: &Option<RangeQueryBound<String>>) -> (r: Option<(Vec<u8>, bool)>)
    ensures
        bytes_bound(r) == tag_bound(prefix@, *b),
{
    match b {
        None => None,
        Some(RangeQueryBound::Inclusive(t)) => {
            let k = string_key_of(t);
            Some((concat_bytes(prefix.as_slice(), k.as_slice()), true))
        },
        Some(RangeQueryBound::Exclusive(t)) => {
            let k = string_key_of(t);
            Some((concat_bytes(prefix.as_slice(), k.as_slice()), false))
        },
    }
}

/// The weight entries a record-tags query selects, for the record `id`.
pub open spec fn contract_tags_keys(f: &Factory, id: u32, p: ContractTagsQueryParams) -> Seq<KeyView> {
    let prefix = be32(id);
    let desc = p.desc == Some(true);
    let fill = Seq::new(2, |i: int| 0xffu8);
    let from: KeyBound = match p.cursor {
        None => None,
        Some(c) => Some(filled_side(prefix + string_key(str_bytes(c@)), false, desc, fill)),
    };
    let (lo, hi) = filled_bounds(from, tag_bound(prefix, p.start), tag_bound(prefix, p.stop), desc, fill);
    scan_spec(f.tag_index().weight_entry_seq(), prefix, lo, hi, desc, limit_of(p.limit) as nat)
}

/// A record's tags with their weights, a page at a time in tag order, and
/// the last tag returned, to resume after.
pub fn query_contract_tags(f: &Factory, params: ContractTagsQueryParams) -> (r: Result<ContractTagsResponse, ContractError>)
    requires
        f.wf(),
    ensures
        r matches Ok(resp) ==> exists|id: u32| #[trigger] f.resolves(ContractSelector::Address(params.contract), id) && {
            let keys = contract_tags_keys(f, id, params);
            &&& resp.tags@.len() == keys.len()
            &&& forall|i: int| 0 <= i < keys.len() ==> (#[trigger] resp.tags@[i]).weight == entry_weight(keys[i].0)
                && key_text(entry_tag(keys[i].0)) == Some(resp.tags@[i].tag@)
            &&& keys.len() == limit_of(params.limit) ==> (resp.cursor matches Some(c) && c@ == resp.tags@.last().tag@)
            &&& keys.len() != limit_of(params.limit) ==> resp.cursor is None
        },
        r matches Err(e) ==> (e is NotFound && forall|id: u32| !#[trigger] f.resolves(ContractSelector::Address(params.contract), id)) || e is InvalidUtf8,
        r matches Err(ContractError::InvalidUtf8) ==> exists|id: u32| #[trigger] f.resolves(ContractSelector::Address(params.contract), id)
            && exists|i: int| 0 <= i < contract_tags_keys(f, id, params).len()
                && (#[trigger] key_text(entry_tag(contract_tags_keys(f, id, params)[i].0))) is None,
{
    let ghost p = params;
    let id = match f.resolve(&ContractSelector::Address(params.contract.clone())) {
        Ok(id) => id,
        Err(e) => {
            return Err(e);
        },
    };
    let (limit, desc) = prepare_limit_and_desc(params.limit, params.desc);
    let prefix = be32_of(id);
    let fill = ff_bytes(2);
    let from = match &params.cursor {
        None => None,
        Some(c) => {
            let k = string_key_of(c);
            Some(filled_bound(concat_bytes(prefix.as_slice(), k.as_slice()), false, desc, fill.as_slice()))
        },
    };
    let start = tag_bound_bytes(&prefix, &params.start);
    let stop = tag_bound_bytes(&prefix, &params.stop);
    let (lo, hi) = build_filled_bounds(from, start, stop, desc, fill.as_slice());
    let keys = f.tags().scan_weight_entries(prefix.as_slice(), &lo, &hi, desc, limit);
    proof {
        assert(fill@ =~= Seq::new(2, |i: int| 0xffu8));
        assert(keys_view(keys@) == contract_tags_keys(f, id, p));
    }
    let mut tags: Vec<WeightedTag> = Vec::new();
    let mut i: usize = 0;
    while i < keys.len()
        invariant
            i <= keys@.len(),
            keys_view(keys@) == contract_tags_keys(f, id, p),
            p == params,
            f.resolves(ContractSelector::Address(p.contract), id),
            tags@.len() == i,
            forall|j: int| 0 <= j < i ==> (#[trigger] tags@[j]).weight == entry_weight(keys@[j].bytes@)
                && key_text(entry_tag(keys@[j].bytes@)) == Some(tags@[j].tag@),
        decreases keys@.len() - i,
    {
        let b = &keys[i].bytes;
        let (tb, w) = if b.len() >= MAX_SIZEOF_STRING_KEY + 6 {
            let two = sub_bytes(b.as_slice(), MAX_SIZEOF_STRING_KEY + 4, MAX_SIZEOF_STRING_KEY + 6);
            (sub_bytes(b.as_slice(), 4, MAX_SIZEOF_STRING_KEY + 4), read_be16(two.as_slice()))
        } else {
            (Vec::new(), 0)
        };
        assert(tb@ == entry_tag(b@));
        let tag = match text_of_key(tb) {
            Some(t) => t,
            None => {
                proof {
                    assert(keys_view(keys@)[i as int] == keys@[i as int]@);
                    assert(key_text(entry_tag(contract_tags_keys(f, id, p)[i as int].0)) is None);
                    assert(exists|j: int| 0 <= j < contract_tags_keys(f, id, p).len()
                        && (#[trigger] key_text(entry_tag(contract_tags_keys(f, id, p)[j].0))) is None);
                }
                return Err(ContractError::InvalidUtf8);
            },
        };
        tags.push(WeightedTag { tag, weight: w });
        i = i + 1;
    }
    let cursor = if tags.len() == limit && limit > 0 {
        Some(tags[tags.len() - 1].tag.clone())
    } else {
        None
    };
    proof {
        assert forall|i: int| 0 <= i < keys@.len() implies (#[trigger] tags@[i]).weight == entry_weight(keys_view(keys@)[i].0)
            && key_text(entry_tag(keys_view(keys@)[i].0)) == Some(tags@[i].tag@) by {
            assert(keys_view(keys@)[i] == keys@[i]@);
        }
    }
    Ok(ContractTagsResponse { cursor, tags })
}

/// The label bytes of an edge: its first key width of bytes.
pub open spec fn edge_label(e: Seq<u8>) -> Seq<u8> {
    if e.len() >= MAX_SIZEOF_STRING_KEY {
        e.take(MAX_SIZEOF_STRING_KEY as int)
    } else {
        e
    }
}

pub open spec fn prefixed_edge_bound(prefix: Seq<u8>, b: Option<RangeQueryBound<NameValue>>) -> Option<(Seq<u8>, bool)> {
    edge_bound(prefix, b)
}

pub open spec fn relation_cursor(id: u32, c: Option<(Vec<u8>, String)>) -> KeyBound {
    match c {
        None => None,
        Some((e, a)) => Some(((be32(id) + e@ + string_key(str_bytes(a@)), id), false)),
    }
}

/// The forward entries a record-relations query selects, for record `id`.
pub open spec fn contract_relations_keys(f: &Factory, id: u32, p: ContractRelationsQueryParams) -> Seq<KeyView> {
    let prefix = be32(id);
    let desc = p.desc == Some(true);
    let fill = Seq::new(MAX_SIZEOF_STRING_KEY as nat, |i: int| 0xffu8);
    let (lo, hi) = filled_bounds(
        relation_cursor(id, p.cursor),
        edge_bound(prefix, p.start),
        edge_bound(prefix, p.stop),
        desc,
        fill,
    );
    scan_spec(f.relation_index().forward_seq(), prefix, lo, hi, desc, limit_of(p.limit) as nat)
}

/// A record's relations, a page at a time in edge then address order: the
/// address, the label and the attached value of each, and the edge and
/// address of the last, to resume after.
pub fn query_contract_relations(f: &Factory, params: ContractRelationsQueryParams) -> (r: Result<ContractRelationsResponse, ContractError>)
    requires
        f.wf(),
    ensures
        r matches Ok(resp) ==> exists|id: u32| #[trigger] f.resolves(ContractSelector::Address(params.contract), id) && {
            let keys = contract_relations_keys(f, id, params);
            &&& resp.relations@.len() == keys.len()
            &&& forall|i: int| 0 <= i < keys.len() ==> key_text(forward_edge(keys[i]).2) == Some((#[trigger] resp.relations@[i]).address@)
                && key_text(edge_label(forward_edge(keys[i]).1)) == Some(resp.relations@[i].name@)
                && same_opt_value(resp.relations@[i].value, f.relation_index().edges()[forward_edge(keys[i])])
            &&& keys.len() == limit_of(params.limit) ==> (resp.cursor matches Some(c) && c.0@ == forward_edge(keys.last()).1 && c.1@ == resp.relations@.last().address@)
            &&& keys.len() != limit_of(params.limit) ==> resp.cursor is None
        },
        r matches Err(e) ==> (e is NotFound && forall|id: u32| !#[trigger] f.resolves(ContractSelector::Address(params.contract), id)) || e is InvalidUtf8,
        r matches Err(ContractError::InvalidUtf8) ==> exists|id: u32| #[trigger] f.resolves(ContractSelector::Address(params.contract), id)
            && exists|i: int| 0 <= i < contract_relations_keys(f, id, params).len()
                && (key_text(forward_edge(#[trigger] contract_relations_keys(f, id, params)[i]).2) is None
                || key_text(edge_label(forward_edge(contract_relations_keys(f, id, params)[i]).1)) is None),
{
    let ghost p = params;
    let id = match f.resolve(&ContractSelector::Address(params.contract.clone())) {
        Ok(id) => id,
        Err(e) => {
            return Err(e);
        },
    };
    let (limit, desc) = prepare_limit_and_desc(params.limit, params.desc);
    let prefix = be32_of(id);
    let fill = ff_bytes(MAX_SIZEOF_STRING_KEY);
    let from = match &params.cursor {
        None => None,
        Some((e, a)) => {
            let head = concat_bytes(prefix.as_slice(), e.as_slice());
            let ak = string_key_of(a);
            Some(RangeQueryBound::Exclusive(IndexKey::new(concat_bytes(head.as_slice(), ak.as_slice()), id)))
        },
    };
    let start = edge_bound_bytes(&prefix, &params.start);
    let stop = edge_bound_bytes(&prefix, &params.stop);
    let (lo, hi) = build_filled_bounds(from, start, stop, desc, fill.as_slice());
    let rel = f.relations();
    let keys = rel.scan_forward(prefix.as_slice(), &lo, &hi, desc, limit);
    proof {
        assert(fill@ =~= Seq::new(MAX_SIZEOF_STRING_KEY as nat, |i: int| 0xffu8));
        assert(keys_view(keys@) == contract_relations_keys(f, id, p));
    }
    let mut relations: Vec<RelatedAddress> = Vec::new();
    let mut last_edge: Vec<u8> = Vec::new();
    let mut i: usize = 0;
    while i < keys.len()
        invariant
            rel.wf(),
            *rel == f.relation_index(),
            keys_view(keys@) == scan_spec(rel.forward_seq(), prefix@, view_bound(lo), view_bound(hi), desc, limit as nat),
            i <= keys@.len(),
            relations@.len() == i,
            i > 0 ==> last_edge@ == forward_edge(keys@[i - 1]@).1,
            keys_view(keys@) == contract_relations_keys(f, id, p),
            p == params,
            f.resolves(ContractSelector::Address(p.contract), id),
            forall|j: int| 0 <= j < i ==> key_text(forward_edge(keys@[j]@).2) == Some((#[trigger] relations@[j]).address@)
                && key_text(edge_label(forward_edge(keys@[j]@).1)) == Some(relations@[j].name@)
                && same_opt_value(relations@[j].value, rel.edges()[forward_edge(keys@[j]@)]),
        decreases keys@.len() - i,
    {
        let key = &keys[i];
        proof {
            lemma_scan_member(rel.forward_seq(), prefix@, view_bound(lo), view_bound(hi), desc, limit as nat, i as int);
            assert(keys_view(keys@)[i as int] == key@);
            crate::relations::lemma_forward_key_edge(rel, key@);
        }
        let n = key.bytes.len();
        let edge = sub_bytes(key.bytes.as_slice(), 4, n - MAX_SIZEOF_STRING_KEY);
        let addr = sub_bytes(key.bytes.as_slice(), n - MAX_SIZEOF_STRING_KEY, n);
        let label = if edge.len() >= MAX_SIZEOF_STRING_KEY {
            sub_bytes(edge.as_slice(), 0, MAX_SIZEOF_STRING_KEY)
        } else {
            copy_bytes(edge.as_slice())
        };
        assert(label@ =~= edge_label(edge@));
        assert(forward_edge(key@) == (key.id, edge@, addr@));
        let value = rel.edge_value(key.id, edge.as_slice(), addr.as_slice());
        proof {
            assert(contract_relations_keys(f, id, p)[i as int] == key@);
        }
        let ghost ks = contract_relations_keys(f, id, p);
        let address = match text_of_key(addr) {
            Some(t) => t,
            None => {
                proof {
                    assert(key_text(forward_edge(ks[i as int]).2) is None);
                    assert(exists|j: int| 0 <= j < ks.len() && (key_text(forward_edge(#[trigger] ks[j]).2) is None
                        || key_text(edge_label(forward_edge(ks[j]).1)) is None));
                }
                return Err(ContractError::InvalidUtf8);
            },
        };
        let name = match text_of_key(label) {
            Some(t) => t,
            None => {
                proof {
                    assert(key_text(edge_label(forward_edge(ks[i as int]).1)) is None);
                    assert(exists|j: int| 0 <= j < ks.len() && (key_text(forward_edge(#[trigger] ks[j]).2) is None
                        || key_text(edge_label(forward_edge(ks[j]).1)) is None));
                }
                return Err(ContractError::InvalidUtf8);
            },
        };
        relations.push(RelatedAddress { address, name, value });
        last_edge = edge;
        i = i + 1;
    }
    let cursor = if relations.len() == limit && limit > 0 {
        Some((last_edge, relations[relations.len() - 1].address.clone()))
    } else {
        None
    };
    proof {
        assert forall|i: int| 0 <= i < keys@.len() implies key_text(forward_edge(keys_view(keys@)[i]).2) == Some((#[trigger] relations@[i]).address@)
            && key_text(edge_label(forward_edge(keys_view(keys@)[i]).1)) == Some(relations@[i].name@)
            && same_opt_value(relations@[i].value, f.relation_index().edges()[forward_edge(keys_view(keys@)[i])]) by {
            assert(keys_view(keys@)[i] == keys@[i]@);
        }
        if keys@.len() > 0 {
            assert(keys_view(keys@).last() == keys@[keys@.len() - 1]@);
        }
    }
    Ok(ContractRelationsResponse { cursor, relations })
}

/// The metadata of the record at an address.
pub fn query_contract_metadata(f: &Factory, contract: &String) -> (r: Result<ContractMetadataResponse, ContractError>)
    requires
        f.wf(),
    ensures
        r matches Ok(resp) ==> exists|id: u32, j: int| #[trigger] f.resolves(ContractSelector::Address(*contract), id)
            && 0 <= j < f.records_meta().len() && #[trigger] f.records_meta()[j].id == id && {
                let m = f.records_meta()[j];
                &&& resp.created_at == m.created_at
                &&& resp.created_by == m.created_by
                &&& resp.updated_at == m.updated_at
                &&& resp.name == m.name
                &&& resp.code_id == m.code_id
                &&& resp.admin == m.admin
            },
        r is Err ==> r == Err::<ContractMetadataResponse, ContractError>(ContractError::NotFound),
{
    let id = match f.resolve(&ContractSelector::Address(contract.clone())) {
        Ok(id) => id,
        Err(e) => {
            return Err(e);
        },
    };
    match f.meta_of(id) {
        None => Err(ContractError::NotFound),
        Some(m) => {
            let name = match &m.name {
                Some(n) => Some(n.clone()),
                None => None,
            };
            Ok(ContractMetadataResponse {
                created_at: m.created_at,
                created_by: m.created_by.clone(),
                updated_at: m.updated_at,
                name,
                code_id: m.code_id,
                admin: m.admin.clone(),
            })
        },
    }
}

} // verus!
