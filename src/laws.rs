//! Properties that relate several operations of the library.
use vstd::prelude::*;

use vstd::arithmetic::div_mod::{lemma_fundamental_div_mod, lemma_mod_pos_bound};

use crate::codec::{lemma_string_key_len, str_bytes, string_key, IndexValue};
use crate::index::{
    first_n, lemma_desc_scan_reverses_asc, lemma_sel_fwd_len, lemma_sel_fwd_resume, sel_fwd, sorted,
};
use crate::keys::KeyView;
use crate::migrate::{
    after_reply, batch_of, dir_visit, retried, run_steps, steps_visited, Migration, MigrationStatus,
};
use crate::msg::{
    edge_bytes, ContractsByTagQueryParams, ContractsInRangeQueryParams, NameValue, RelationUpdate,
    TagSelector, TagUpdate, UpdateOperation,
};
use crate::query::{
    by_tag_keys, in_range_keys, range_bounds, tag_satisfied, value_bound, weight_bound,
};
use crate::registry::{after_bound, Factory};
use crate::relations::{
    forward_bytes, inverse_bytes, lemma_relation_entries_agree, EdgeView, RelationIndex,
};
use crate::tags::{lemma_tag_entries_agree, weight_entry_bytes, weighted_tag_bytes, TagIndex};
use crate::update::{apply_relation_updates, apply_tag_updates};
use crate::util::limit_of;

verus! {

/// Setting a tag and then removing it leaves it unset: none of its three
/// entries remains, and no selector of the tag holds of the record.
pub proof fn lemma_tag_set_then_removed(
    ix: &TagIndex,
    before: Map<(u32, Seq<u8>), u16>,
    id: u32,
    s: TagSelector,
    weight: u16,
)
    requires
        ix.wf(),
        ix.weights() == before.insert((id, string_key(str_bytes(s.tag@))), weight).remove(
            (id, string_key(str_bytes(s.tag@))),
        ),
    ensures
        !tag_satisfied(ix.weights(), id, s),
        !ix.tag_index_keys().contains((string_key(str_bytes(s.tag@)), id)),
        forall|w: u16|
            !#[trigger] ix.weighted_index_keys().contains(
                (weighted_tag_bytes(string_key(str_bytes(s.tag@)), w), id),
            ),
        forall|w: u16|
            !#[trigger] ix.weight_entry_keys().contains(
                (weight_entry_bytes(id, string_key(str_bytes(s.tag@)), w), id),
            ),
{
    let t = string_key(str_bytes(s.tag@));
    lemma_string_key_len(str_bytes(s.tag@));
    lemma_tag_entries_agree(ix, id, t, 0);
    assert forall|w: u16|
        !#[trigger] ix.weighted_index_keys().contains((weighted_tag_bytes(t, w), id)) by {
        lemma_tag_entries_agree(ix, id, t, w);
    }
    assert forall|w: u16|
        !#[trigger] ix.weight_entry_keys().contains((weight_entry_bytes(id, t, w), id)) by {
        lemma_tag_entries_agree(ix, id, t, w);
    }
}

/// Setting a relation and then removing it with the same label, value and
/// address removes both its forward and its inverse entry, and the record
/// is no longer related to the address by it.
pub proof fn lemma_relation_set_then_removed(
    ix: &RelationIndex,
    before: Map<EdgeView, Option<IndexValue>>,
    id: u32,
    nv: NameValue,
    address: Seq<char>,
)
    requires
        ix.wf(),
        ix.edges() == before.insert(
            (id, edge_bytes(nv.name@, nv.value), string_key(str_bytes(address))),
            nv.value,
        ).remove((id, edge_bytes(nv.name@, nv.value), string_key(str_bytes(address)))),
    ensures
        !ix.edges().contains_key(
            (id, edge_bytes(nv.name@, nv.value), string_key(str_bytes(address))),
        ),
        !ix.forward_keys().contains(
            (
                forward_bytes(id, edge_bytes(nv.name@, nv.value), string_key(str_bytes(address))),
                id,
            ),
        ),
        !ix.inverse_keys().contains(
            (inverse_bytes(string_key(str_bytes(address)), edge_bytes(nv.name@, nv.value)), id),
        ),
{
    lemma_string_key_len(str_bytes(address));
    lemma_relation_entries_agree(
        ix,
        id,
        edge_bytes(nv.name@, nv.value),
        string_key(str_bytes(address)),
    );
}

proof fn lemma_sel_all(s: Seq<KeyView>)
    ensures
        sel_fwd(s, Seq::empty(), None, None) == s,
    decreases s.len(),
{
    if s.len() > 0 {
        lemma_sel_all(s.drop_first());
        assert(Seq::<u8>::empty().is_prefix_of(s[0].0));
        assert(s =~= seq![s[0]] + s.drop_first());
    }
}

/// Where a walk of the directory in batches of `b` stands after `j` full
/// steps.
pub open spec fn cursor_at(dir: Seq<KeyView>, j: int, b: int) -> Option<u32> {
    if j == 0 {
        None
    } else {
        Some(dir[j * b - 1].1)
    }
}

proof fn lemma_visit_at(dir: Seq<KeyView>, j: int, b: int)
    requires
        sorted(dir),
        forall|i: int| 0 <= i < dir.len() ==> (#[trigger] dir[i]).0 == Seq::<u8>::empty(),
        b > 0,
        j >= 0,
        j * b <= dir.len(),
        j > 0 ==> j * b >= 1,
    ensures
        dir_visit(dir, cursor_at(dir, j, b), b as nat) == dir.subrange(
            j * b,
            if j * b + b <= dir.len() {
                j * b + b
            } else {
                dir.len() as int
            },
        ).map_values(|k: KeyView| k.1),
{
    lemma_sel_all(dir);
    let end = if j * b + b <= dir.len() {
        j * b + b
    } else {
        dir.len() as int
    };
    if j == 0 {
        assert(first_n(dir, b as nat) =~= dir.subrange(0, end));
    } else {
        let c = dir[j * b - 1];
        assert(c == (Seq::<u8>::empty(), c.1));
        assert(after_bound(cursor_at(dir, j, b)) == Some((c, false)));
        lemma_sel_fwd_resume(dir, Seq::empty(), None, None, j * b - 1);
        assert(first_n(dir.skip(j * b), b as nat) =~= dir.subrange(j * b, end));
    }
}

proof fn lemma_run(dir: Seq<KeyView>, m: Migration, j: int, q: int)
    requires
        sorted(dir),
        forall|i: int| 0 <= i < dir.len() ==> (#[trigger] dir[i]).0 == Seq::<u8>::empty(),
        m.cursor is None,
        m.status == MigrationStatus::Running,
        0 <= j <= q,
        q * (batch_of(m.params.batch_size) as int) <= dir.len(),
    ensures
        run_steps(dir, m, j as nat) == (Migration {
            params: m.params,
            status: MigrationStatus::Running,
            cursor: cursor_at(dir, j, batch_of(m.params.batch_size) as int),
            retry_cursor: m.retry_cursor,
            n_success: m.n_success,
            n_error: m.n_error,
        }),
        steps_visited(dir, m, j as nat) == dir.take(j * (batch_of(m.params.batch_size) as int)).map_values(
            |k: KeyView| k.1,
        ),
    decreases j,
{
    let b = batch_of(m.params.batch_size) as int;
    if j == 0 {
        assert(j * b == 0) by (nonlinear_arith)
            requires
                j == 0,
        ;
        assert(dir.take(0).map_values(|k: KeyView| k.1) =~= Seq::<u32>::empty());
        assert(run_steps(dir, m, 0) =~= m);
    } else {
        lemma_run(dir, m, j - 1, q);
        assert((j - 1) * b + b == j * b) by (nonlinear_arith);
        assert(j * b <= q * b) by (nonlinear_arith)
            requires
                j <= q,
                b > 0,
        ;
        assert((j - 1) * b >= 0) by (nonlinear_arith)
            requires
                j >= 1,
                b > 0,
        ;
        assert(j - 1 > 0 ==> (j - 1) * b >= 1) by (nonlinear_arith)
            requires
                b > 0,
        ;
        lemma_visit_at(dir, j - 1, b);
        let v = dir_visit(dir, cursor_at(dir, j - 1, b), b as nat);
        assert(v.len() == b);
        assert(v.last() == dir[j * b - 1].1);
        assert(dir.take(j * b).map_values(|k: KeyView| k.1) =~= dir.take((j - 1) * b).map_values(
            |k: KeyView| k.1,
        ) + v);
        let prev = run_steps(dir, m, (j - 1) as nat);
        assert(prev.cursor == cursor_at(dir, j - 1, b));
        assert(steps_visited(dir, m, j as nat) == steps_visited(dir, m, (j - 1) as nat) + dir_visit(
            dir,
            prev.cursor,
            batch_of(prev.params.batch_size) as nat,
        ));
    }
}

/// A session that walks a directory of `K` records in batches of `B`
/// completes in exactly `K / B + 1` steps: `ceil(K / B)` when `B` does not
/// divide `K`, and one more, empty, step when it does (a full last batch
/// cannot tell that nothing follows). It runs until then, ends complete
/// with no cursor, and its steps visit every record once, in id order; with
/// no source-code filter each visited record's upgrade is dispatched once.
pub proof fn lemma_steps_walk_directory(dir: Seq<KeyView>, m: Migration)
    requires
        sorted(dir),
        forall|i: int| 0 <= i < dir.len() ==> (#[trigger] dir[i]).0 == Seq::<u8>::empty(),
        m.cursor is None,
        m.status == MigrationStatus::Running,
    ensures
        ({
            let n = dir.len() / (batch_of(m.params.batch_size) as nat) + 1;
            &&& run_steps(dir, m, n).status == MigrationStatus::Complete
            &&& run_steps(dir, m, n).cursor is None
            &&& forall|j: nat| j < n ==> (#[trigger] run_steps(dir, m, j)).status == MigrationStatus::Running
            &&& steps_visited(dir, m, n) == dir.map_values(|k: KeyView| k.1)
        }),
{
    let b = batch_of(m.params.batch_size) as int;
    let k = dir.len() as int;
    let q = k / b;
    let r = k % b;
    lemma_fundamental_div_mod(k, b);
    lemma_mod_pos_bound(k, b);
    assert(q >= 0) by (nonlinear_arith)
        requires
            k >= 0,
            b > 0,
            q == k / b,
    ;
    assert(q * b == b * q) by (nonlinear_arith);
    lemma_run(dir, m, q, q);
    assert forall|j: nat| j < q + 1 implies (#[trigger] run_steps(dir, m, j)).status
        == MigrationStatus::Running by {
        lemma_run(dir, m, j as int, q);
    }
    assert(q > 0 ==> q * b >= 1) by (nonlinear_arith)
        requires
            b > 0,
    ;
    lemma_visit_at(dir, q, b);
    let v = dir_visit(dir, cursor_at(dir, q, b), b as nat);
    assert(v.len() == r);
    assert(dir.map_values(|x: KeyView| x.1) =~= dir.take(q * b).map_values(|x: KeyView| x.1) + v);
}

/// Under the retry policy, a failed upgrade adds exactly one error entry for
/// the record and one error to the count; a retry that re-dispatches that
/// entry, followed by a successful reply, removes the entry and leaves one
/// error less and one success more than after the failure.
pub proof fn lemma_retry_recovers(m0: Migration, errs0: Set<KeyView>, name: Seq<char>, id: u32)
    requires
        !errs0.contains((str_bytes(name), id)),
        m0.n_error < u32::MAX,
        m0.n_success < u32::MAX,
    ensures
        ({
            let k = (str_bytes(name), id);
            let m1 = after_reply(m0, false, false);
            let errs1 = errs0.insert(k);
            let m2 = retried(m1, seq![k]);
            let errs2 = errs1.difference(seq![k].to_set());
            let m3 = after_reply(m2, errs2.contains(k), true);
            let errs3 = errs2.remove(k);
            &&& errs1.contains(k)
            &&& errs1.remove(k) == errs0
            &&& m1.n_error == m0.n_error + 1
            &&& !errs3.contains(k)
            &&& errs3 == errs0
            &&& m3.n_error == m1.n_error - 1
            &&& m3.n_success == m1.n_success + 1
        }),
{
    let k = (str_bytes(name), id);
    let errs1 = errs0.insert(k);
    assert(seq![k].to_set() =~= Set::empty().insert(k)) by {
        assert(seq![k][0] == k);
        assert(seq![k].contains(k));
    }
    assert(errs1.remove(k) =~= errs0);
    assert(errs1.difference(seq![k].to_set()).remove(k) =~= errs0);
}

/// The first reply for a record, success or failure under the retry
/// policy, adds exactly one to the sum of the success and error counts; so
/// once the reply for each of the `K` records a walk dispatched has
/// arrived, the counts of a fresh session sum to `K`.
pub proof fn lemma_first_reply_counts_once(m: Migration, ok: bool)
    requires
        m.n_success < u32::MAX,
        m.n_error < u32::MAX,
    ensures
        after_reply(m, false, ok).n_success + after_reply(m, false, ok).n_error == m.n_success
            + m.n_error + 1,
{
}

/// A records-by-tag query in descending order returns the ascending
/// query's keys reversed, for the same tag and weight bounds, when the
/// limit does not cut either short.
pub proof fn lemma_by_tag_desc_reverses_asc(
    f: &Factory,
    asc: ContractsByTagQueryParams,
    desc: ContractsByTagQueryParams,
)
    requires
        asc.cursor is None,
        desc.cursor is None,
        asc.tag@ == desc.tag@,
        asc.min_weight == desc.min_weight,
        asc.max_weight == desc.max_weight,
        asc.desc != Some(true),
        desc.desc == Some(true),
        limit_of(asc.limit) >= f.tag_index().weighted_index_seq().len(),
        limit_of(desc.limit) >= f.tag_index().weighted_index_seq().len(),
    ensures
        by_tag_keys(f, desc) == by_tag_keys(f, asc).reverse(),
{
    let t = string_key(str_bytes(asc.tag@));
    let s = f.tag_index().weighted_index_seq();
    let (lo, hi) = range_bounds(
        None,
        weight_bound(t, asc.min_weight),
        weight_bound(t, asc.max_weight),
        false,
    );
    lemma_sel_fwd_len(s, t, lo, hi);
    lemma_desc_scan_reverses_asc(s, t, lo, hi, limit_of(asc.limit) as nat);
    lemma_desc_scan_reverses_asc(s, t, lo, hi, limit_of(desc.limit) as nat);
}

/// A records-in-range query in descending order, which starts at the upper
/// bound, returns the ascending query's keys reversed when its start and
/// stop are the ascending query's stop and start, and the limit does not
/// cut either short.
pub proof fn lemma_in_range_desc_reverses_asc(
    f: &Factory,
    asc: ContractsInRangeQueryParams,
    desc: ContractsInRangeQueryParams,
)
    requires
        asc.cursor is None,
        desc.cursor is None,
        asc.index == desc.index,
        value_bound(desc.start) == value_bound(asc.stop),
        value_bound(desc.stop) == value_bound(asc.start),
        asc.desc != Some(true),
        desc.desc == Some(true),
        limit_of(asc.limit) >= f.index_entries(asc.index).len(),
        limit_of(desc.limit) >= f.index_entries(asc.index).len(),
    ensures
        in_range_keys(f, desc) == in_range_keys(f, asc).reverse(),
{
    let s = f.index_entries(asc.index);
    let (lo, hi) = range_bounds(None, value_bound(asc.start), value_bound(asc.stop), false);
    lemma_sel_fwd_len(s, Seq::empty(), lo, hi);
    lemma_desc_scan_reverses_asc(s, Seq::empty(), lo, hi, limit_of(asc.limit) as nat);
    lemma_desc_scan_reverses_asc(s, Seq::empty(), lo, hi, limit_of(desc.limit) as nat);
}

/// Putting a tag and then removing it in one update leaves it unset.
pub proof fn lemma_tag_update_round_trip(
    w: Map<(u32, Seq<u8>), u16>,
    id: u32,
    put: TagUpdate,
    remove: TagUpdate,
)
    requires
        put.op == UpdateOperation::Put,
        remove.op == UpdateOperation::Remove,
        put.tag@ == remove.tag@,
    ensures
        !apply_tag_updates(w, id, seq![put, remove]).contains_key(
            (id, string_key(str_bytes(put.tag@))),
        ),
{
    assert(seq![put, remove].drop_last() =~= seq![put]);
    assert(seq![put].drop_last() =~= Seq::<TagUpdate>::empty());
}

/// Putting a relation and then removing it, with the same label, value and
/// address, in one update leaves no such edge.
pub proof fn lemma_relation_update_round_trip(
    e: Map<EdgeView, Option<IndexValue>>,
    id: u32,
    put: RelationUpdate,
    remove: RelationUpdate,
)
    requires
        put.op == UpdateOperation::Put,
        remove.op == UpdateOperation::Remove,
        put.name@ == remove.name@,
        put.value == remove.value,
        put.address@ == remove.address@,
    ensures
        !apply_relation_updates(e, id, seq![put, remove]).contains_key(
            (id, edge_bytes(put.name@, put.value), string_key(str_bytes(put.address@))),
        ),
{
    assert(seq![put, remove].drop_last() =~= seq![put]);
    assert(seq![put].drop_last() =~= Seq::<RelationUpdate>::empty());
}

} // verus!
