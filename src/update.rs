//! Applying a record's index, tag and relation updates in order.
use vstd::prelude::*;

use crate::codec::{encode, le_bytes, string_key, str_bytes};
use crate::error::ContractError;
use crate::msg::{
    edge_bytes, ContractSelector, IndexUpdate, RelationUpdate, TagUpdate, UpdateMsg, UpdateOperation,
};
use crate::registry::{weight_or_zero, Factory};
use crate::relations::EdgeView;
use crate::codec::IndexValue;

verus! {

/// The tag weights after one tag update on record `id`.
pub open spec fn tag_update_effect(w: Map<(u32, Seq<u8>), u16>, id: u32, u: TagUpdate) -> Map<
    (u32, Seq<u8>),
    u16,
> {
    match u.op {
        UpdateOperation::Put => w.insert(
            (id, string_key(str_bytes(u.tag@))),
            weight_or_zero(u.weight),
        ),
        UpdateOperation::Remove => w.remove((id, string_key(str_bytes(u.tag@)))),
    }
}

/// The tag weights after the updates, applied in order.
pub open spec fn apply_tag_updates(w: Map<(u32, Seq<u8>), u16>, id: u32, ups: Seq<TagUpdate>) -> Map<
    (u32, Seq<u8>),
    u16,
>
    decreases ups.len(),
{
    if ups.len() == 0 {
        w
    } else {
        tag_update_effect(apply_tag_updates(w, id, ups.drop_last()), id, ups.last())
    }
}

/// The edges after one relation update on record `id`.
pub open spec fn relation_update_effect(
    e: Map<EdgeView, Option<IndexValue>>,
    id: u32,
    u: RelationUpdate,
) -> Map<EdgeView, Option<IndexValue>> {
    match u.op {
        UpdateOperation::Put => e.insert(
            (id, edge_bytes(u.name@, u.value), string_key(str_bytes(u.address@))),
            u.value,
        ),
        UpdateOperation::Remove => e.remove(
            (id, edge_bytes(u.name@, u.value), string_key(str_bytes(u.address@))),
        ),
    }
}

/// The edges after the updates, applied in order.
pub open spec fn apply_relation_updates(
    e: Map<EdgeView, Option<IndexValue>>,
    id: u32,
    ups: Seq<RelationUpdate>,
) -> Map<EdgeView, Option<IndexValue>>
    decreases ups.len(),
{
    if ups.len() == 0 {
        e
    } else {
        relation_update_effect(apply_relation_updates(e, id, ups.drop_last()), id, ups.last())
    }
}

/// The current value of record `id` in the custom index `name` after the
/// index updates, applied in order to the values `cur`.
pub open spec fn apply_index_updates(
    cur: spec_fn(Seq<char>) -> Map<u32, Seq<u8>>,
    id: u32,
    ups: Seq<IndexUpdate>,
    name: Seq<char>,
) -> Map<u32, Seq<u8>>
    decreases ups.len(),
{
    if ups.len() == 0 {
        cur(name)
    } else if ups.last().name@ == name {
        apply_index_updates(cur, id, ups.drop_last(), name).insert(id, encode(ups.last().value))
    } else {
        apply_index_updates(cur, id, ups.drop_last(), name)
    }
}

pub open spec fn opt_seq<A>(v: Option<Vec<A>>) -> Seq<A> {
    match v {
        Some(x) => x@,
        None => Seq::empty(),
    }
}

/// Whether `sender` may update the record `id` through `selector`: the
/// manager through a selector naming it, or the record itself.
pub open spec fn may_update(f: &Factory, sender: String, selector: Option<ContractSelector>, id: u32) -> bool {
    match selector {
        Some(sel) => sender@ == f.configuration().managed_by@ && f.resolves(sel, id),
        None => f.resolves(ContractSelector::Address(sender), id),
    }
}

/// Applies an update message from `sender` at time `now`: resolves the
/// record, stamps its update time, then applies the index, tag and relation
/// updates in order. Returns the record's id.
pub fn exec_update(f: &mut Factory, sender: &String, msg: UpdateMsg, now: u64) -> (r: Result<u32, ContractError>)
    requires
        old(f).wf(),
    ensures
        final(f).wf(),
        r is Err ==> *final(f) == *old(f),
        msg.contract is Some && sender@ != old(f).configuration().managed_by@ ==> r matches Err(
            ContractError::NotAuthorized { .. },
        ),
        r matches Err(ContractError::NotFound) ==> forall|id: u32| !#[trigger] may_update(&*old(f), *sender, msg.contract, id),
        r matches Err(e) ==> (e is NotFound || e is NotAuthorized),
        r matches Err(ContractError::NotAuthorized { .. }) ==> msg.contract is Some && sender@
            != old(f).configuration().managed_by@,
        (exists|id: u32| #[trigger] may_update(&*old(f), *sender, msg.contract, id)) ==> r is Ok,
        (msg.contract is None || sender@ == old(f).configuration().managed_by@) && (forall|id: u32|
            !#[trigger] may_update(&*old(f), *sender, msg.contract, id)) ==> r
            == Err::<u32, ContractError>(ContractError::NotFound),
        r matches Ok(id) ==> {
            &&& may_update(&*old(f), *sender, msg.contract, id)
            &&& final(f).updated_at_index().current() == old(f).updated_at_index().current().insert(
                id,
                le_bytes(now as nat, 8),
            )
            &&& final(f).tag_index().weights() == apply_tag_updates(
                old(f).tag_index().weights(),
                id,
                opt_seq(msg.tags),
            )
            &&& final(f).relation_index().edges() == apply_relation_updates(
                old(f).relation_index().edges(),
                id,
                opt_seq(msg.relations),
            )
            &&& forall|n: Seq<char>| #[trigger] final(f).custom_current(n) == apply_index_updates(
                |m: Seq<char>| old(f).custom_current(m),
                id,
                opt_seq(msg.indices),
                n,
            )
            &&& final(f).directory() == old(f).directory()
            &&& final(f).configuration() == old(f).configuration()
        },
{
    let ghost mc = msg.contract;
    let UpdateMsg { contract, indices, relations, tags } = msg;
    let id = match contract {
        Some(sel) => {
            if *sender != f.config().managed_by {
                return Err(
                    ContractError::NotAuthorized {
                        reason: String::from_str("only the manager can name a record to update"),
                    },
                );
            }
            match f.resolve(&sel) {
                Ok(id) => id,
                Err(e) => {
                    return Err(e);
                },
            }
        },
        None => match f.resolve(&ContractSelector::Address(sender.clone())) {
            Ok(id) => id,
            Err(e) => {
                return Err(e);
            },
        },
    };
    let ghost f0 = *f;
    assert(may_update(&f0, *sender, mc, id));
    f.touch_updated(id, now);
    let ghost f1 = *f;

    let mut iv: Vec<IndexUpdate> = match indices {
        Some(v) => v,
        None => Vec::new(),
    };
    let ghost k0 = iv@;
    assert(k0.len() <= usize::MAX) by {
        assert(iv@.len() == iv.len());
    }
    let mut k: usize = 0;
    assert(k0.skip(0) =~= k0);
    while iv.len() > 0
        invariant
            f.wf(),
            iv@ == k0.skip(k as int),
            k <= k0.len(),
            k0.len() <= usize::MAX,
            forall|n: Seq<char>| #[trigger] f.custom_current(n) == apply_index_updates(
                |m: Seq<char>| f1.custom_current(m),
                id,
                k0.take(k as int),
                n,
            ),
            f.tag_index().weights() == f1.tag_index().weights(),
            f.relation_index().edges() == f1.relation_index().edges(),
            f.updated_at_index().current() == f1.updated_at_index().current(),
            f.directory() == f1.directory(),
            f.configuration() == f1.configuration(),
        decreases iv@.len(),
    {
        let u = iv.remove(0);
        assert(u == k0[k as int]);
        let bytes = u.value.to_bytes();
        let ghost fb = *f;
        f.set_index_value(id, &u.name, bytes.as_slice());
        proof {
            assert(k0.take(k + 1).drop_last() =~= k0.take(k as int));
            assert(k0.take(k + 1).last() == u);
            assert(iv@ =~= k0.skip(k + 1));
            assert forall|n: Seq<char>| #[trigger] f.custom_current(n) == apply_index_updates(
                |m: Seq<char>| f1.custom_current(m),
                id,
                k0.take(k + 1),
                n,
            ) by {
                assert(fb.custom_current(n) == apply_index_updates(
                    |m: Seq<char>| f1.custom_current(m),
                    id,
                    k0.take(k as int),
                    n,
                ));
            }
        }
        k = k + 1;
    }
    assert(k0.take(k as int) =~= k0);
    let ghost f2 = *f;

    let mut tv: Vec<TagUpdate> = match tags {
        Some(v) => v,
        None => Vec::new(),
    };
    let ghost t0 = tv@;
    assert(t0.len() <= usize::MAX) by {
        assert(tv@.len() == tv.len());
    }
    let mut k: usize = 0;
    assert(t0.skip(0) =~= t0);
    assert(t0.take(0) =~= Seq::<TagUpdate>::empty());
    while tv.len() > 0
        invariant
            f.wf(),
            tv@ == t0.skip(k as int),
            k <= t0.len(),
            t0.len() <= usize::MAX,
            f.tag_index().weights() == apply_tag_updates(f2.tag_index().weights(), id, t0.take(k as int)),
            forall|n: Seq<char>| #[trigger] f.custom_current(n) == f2.custom_current(n),
            f.relation_index().edges() == f2.relation_index().edges(),
            f.updated_at_index().current() == f2.updated_at_index().current(),
            f.directory() == f2.directory(),
            f.configuration() == f2.configuration(),
        decreases tv@.len(),
    {
        let u = tv.remove(0);
        assert(u == t0[k as int]);
        match u.op {
            UpdateOperation::Put => f.set_tag(id, &u.tag, u.weight),
            UpdateOperation::Remove => f.remove_tag(id, &u.tag),
        }
        proof {
            assert(t0.take(k + 1).drop_last() =~= t0.take(k as int));
            assert(t0.take(k + 1).last() == u);
            assert(tv@ =~= t0.skip(k + 1));
        }
        k = k + 1;
    }
    assert(t0.take(k as int) =~= t0);
    let ghost f3 = *f;

    let mut rv: Vec<RelationUpdate> = match relations {
        Some(v) => v,
        None => Vec::new(),
    };
    let ghost r0 = rv@;
    assert(r0.len() <= usize::MAX) by {
        assert(rv@.len() == rv.len());
    }
    let mut k: usize = 0;
    assert(r0.skip(0) =~= r0);
    assert(r0.take(0) =~= Seq::<RelationUpdate>::empty());
    while rv.len() > 0
        invariant
            f.wf(),
            rv@ == r0.skip(k as int),
            k <= r0.len(),
            r0.len() <= usize::MAX,
            f.relation_index().edges() == apply_relation_updates(
                f3.relation_index().edges(),
                id,
                r0.take(k as int),
            ),
            forall|n: Seq<char>| #[trigger] f.custom_current(n) == f3.custom_current(n),
            f.tag_index().weights() == f3.tag_index().weights(),
            f.updated_at_index().current() == f3.updated_at_index().current(),
            f.directory() == f3.directory(),
            f.configuration() == f3.configuration(),
        decreases rv@.len(),
    {
        let u = rv.remove(0);
        assert(u == r0[k as int]);
        let ghost ug = u;
        match u.op {
            UpdateOperation::Put => f.set_relation(id, &u.name, &u.address, u.value),
            UpdateOperation::Remove => f.remove_relation(id, &u.name, &u.value, &u.address),
        }
        proof {
            assert(r0.take(k + 1).drop_last() =~= r0.take(k as int));
            assert(r0.take(k + 1).last() == ug);
            assert(rv@ =~= r0.skip(k + 1));
        }
        k = k + 1;
    }
    assert(r0.take(k as int) =~= r0);
    proof {
        assert((|m: Seq<char>| f1.custom_current(m)) =~= (|m: Seq<char>| f0.custom_current(m)));
    }
    Ok(id)
}

} // verus!
