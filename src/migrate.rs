//! The batch-migration state machine: named sessions that walk the record
//! directory in pages, dispatch upgrade commands, and reconcile the replies
//! that arrive later under an abort or retry policy.
use vstd::prelude::*;
use vstd::string::*;

use crate::codec::{copy_bytes, str_bytes, IndexValue};
use crate::error::ContractError;
use crate::math::{add_u32, sub_u32};
use crate::index::{
    bound_view, keys_view, lemma_scan_member, lemma_sel_fwd_len, lemma_sel_fwd_member, lemma_sel_fwd_sorted, scan_spec, sel_fwd, sorted, IndexKey,
    KeyBound, OrderedIndex, RangeQueryBound,
};
use crate::keys::{compare_bytes, key_lt, lemma_key_lt_irreflexive, KeyView};
use crate::registry::{after_bound, code_key, dir_key, lemma_directory_keys, Factory};

verus! {

pub const DEFAULT_BATCH: u16 = 50;

pub const MAX_BATCH: u16 = 100;

#[derive(Debug, PartialEq, Eq, Structural)]
pub enum MigrationStatus {
    Running,
    Complete,
    Aborted,
}

/// What a failed upgrade does: fail the reply's handling, or record the
/// failure for a later retry.
#[derive(PartialEq, Eq, Structural)]
pub enum MigrationErrorStrategy {
    Abort,
    Retry,
}

pub struct MigrationParams {
    pub name: String,
    pub batch_size: Option<u16>,
    pub error_strategy: MigrationErrorStrategy,
    pub migrate_msg: Option<Vec<u8>>,
    pub from_code_id: Option<u64>,
    pub to_code_id: u64,
}

pub struct Migration {
    pub params: MigrationParams,
    pub status: MigrationStatus,
    pub cursor: Option<u32>,
    pub retry_cursor: Option<u32>,
    pub n_success: u32,
    pub n_error: u32,
}

pub struct MigrationError {
    pub contract: String,
    pub error: String,
    pub reply_id: u64,
}

pub struct ErrorEntry {
    pub session: String,
    pub id: u32,
    pub error: MigrationError,
}

pub struct ReplyEntry {
    pub reply_id: u64,
    pub session: String,
    pub id: u32,
}

/// A session's state and its recorded errors.
pub struct MigrationSessionResponse {
    pub errors: Vec<MigrationError>,
    pub params: MigrationParams,
    pub status: MigrationStatus,
    pub cursor: Option<u32>,
    pub retry_cursor: Option<u32>,
    pub n_success: u32,
    pub n_error: u32,
}

/// An upgrade of one record, whose reply is always delivered.
pub struct UpgradeCommand {
    pub contract: String,
    pub new_code_id: u64,
    pub msg: Option<Vec<u8>>,
    pub reply_id: u64,
}

/// The batch size asked for, or the default, clamped to `1..=MAX_BATCH`.
pub open spec fn batch_of(b: Option<u16>) -> u16 {
    let x = match b {
        Some(x) => x,
        None => DEFAULT_BATCH,
    };
    if x < 1 {
        1
    } else if x > MAX_BATCH {
        MAX_BATCH
    } else {
        x
    }
}

pub fn normalize_batch(b: Option<u16>) -> (r: u16)
    ensures
        r == batch_of(b),
{
    let x = match b {
        Some(x) => x,
        None => DEFAULT_BATCH,
    };
    if x < 1 {
        1
    } else if x > MAX_BATCH {
        MAX_BATCH
    } else {
        x
    }
}

fn copy_status(s: &MigrationStatus) -> (r: MigrationStatus)
    ensures
        r == *s,
{
    match s {
        MigrationStatus::Running => MigrationStatus::Running,
        MigrationStatus::Complete => MigrationStatus::Complete,
        MigrationStatus::Aborted => MigrationStatus::Aborted,
    }
}

pub open spec fn opt_bytes(v: Option<Vec<u8>>) -> Option<Seq<u8>> {
    match v {
        Some(b) => Some(b@),
        None => None,
    }
}

fn copy_opt_bytes(v: &Option<Vec<u8>>) -> (r: Option<Vec<u8>>)
    ensures
        opt_bytes(r) == opt_bytes(*v),
{
    match v {
        Some(b) => Some(copy_bytes(b.as_slice())),
        None => None,
    }
}

/// Whether record `id` passes the session's source-code filter.
pub open spec fn matches_code(f: &Factory, id: u32, from: Option<u64>) -> bool {
    match from {
        None => true,
        Some(c) => f.code_index_keys().contains((code_key(c), id)),
    }
}

/// The ids among `ids` that pass the source-code filter, in order.
pub open spec fn code_filter(f: &Factory, ids: Seq<u32>, from: Option<u64>) -> Seq<u32>
    decreases ids.len(),
{
    if ids.len() == 0 {
        Seq::empty()
    } else if matches_code(f, ids.last(), from) {
        code_filter(f, ids.drop_last(), from).push(ids.last())
    } else {
        code_filter(f, ids.drop_last(), from)
    }
}

/// The record ids a step of session `m` visits: the next batch of the
/// directory after the session's cursor.
pub open spec fn visited_ids(f: &Factory, m: Migration) -> Seq<u32> {
    dir_visit(f.directory(), m.cursor, batch_of(m.params.batch_size) as nat)
}

/// The ids of the directory `dir` after `cursor`, at most `batch` of them.
pub open spec fn dir_visit(dir: Seq<KeyView>, cursor: Option<u32>, batch: nat) -> Seq<u32> {
    scan_spec(dir, Seq::empty(), after_bound(cursor), None, false, batch).map_values(
        |k: KeyView| k.1,
    )
}

/// The session after `n` steps over the directory `dir`.
pub open spec fn run_steps(dir: Seq<KeyView>, m: Migration, n: nat) -> Migration
    decreases n,
{
    if n == 0 {
        m
    } else {
        let prev = run_steps(dir, m, (n - 1) as nat);
        stepped(prev, dir_visit(dir, prev.cursor, batch_of(prev.params.batch_size) as nat))
    }
}

/// The ids the first `n` steps over the directory `dir` visit, in order.
pub open spec fn steps_visited(dir: Seq<KeyView>, m: Migration, n: nat) -> Seq<u32>
    decreases n,
{
    if n == 0 {
        Seq::empty()
    } else {
        let prev = run_steps(dir, m, (n - 1) as nat);
        steps_visited(dir, m, (n - 1) as nat) + dir_visit(
            dir,
            prev.cursor,
            batch_of(prev.params.batch_size) as nat,
        )
    }
}

/// The session after a step that visited `visited`: complete when the
/// batch was not full, else resuming after the last id visited.
pub open spec fn stepped(m: Migration, visited: Seq<u32>) -> Migration {
    if visited.len() < batch_of(m.params.batch_size) {
        Migration {
            params: m.params,
            status: MigrationStatus::Complete,
            cursor: None,
            retry_cursor: m.retry_cursor,
            n_success: m.n_success,
            n_error: m.n_error,
        }
    } else {
        Migration {
            params: m.params,
            status: m.status,
            cursor: Some(visited.last()),
            retry_cursor: m.retry_cursor,
            n_success: m.n_success,
            n_error: m.n_error,
        }
    }
}

/// A new session: running, with the batch size normalised, no cursors
/// and zero counts.
pub open spec fn fresh_session(p: MigrationParams) -> Migration {
    Migration {
        params: MigrationParams {
            name: p.name,
            batch_size: Some(batch_of(p.batch_size)),
            error_strategy: p.error_strategy,
            migrate_msg: p.migrate_msg,
            from_code_id: p.from_code_id,
            to_code_id: p.to_code_id,
        },
        status: MigrationStatus::Running,
        cursor: None,
        retry_cursor: None,
        n_success: 0,
        n_error: 0,
    }
}

/// The session after the reply for one of its records: a success counts
/// one more upgrade and, when the record had an error entry, one error
/// less; a failure counts one more error.
pub open spec fn after_reply(m: Migration, had_error: bool, ok: bool) -> Migration {
    Migration {
        params: m.params,
        status: m.status,
        cursor: m.cursor,
        retry_cursor: m.retry_cursor,
        n_success: if ok {
            (m.n_success + 1) as u32
        } else {
            m.n_success
        },
        n_error: if ok {
            if had_error {
                (m.n_error - 1) as u32
            } else {
                m.n_error
            }
        } else {
            (m.n_error + 1) as u32
        },
    }
}

/// The reply table after correlating ids `first`, `first + 1`, ... with
/// the records `ids` of session `name`.
pub open spec fn add_replies(
    r: Map<u64, (Seq<char>, u32)>,
    first: u64,
    name: Seq<char>,
    ids: Seq<u32>,
) -> Map<u64, (Seq<char>, u32)>
    decreases ids.len(),
{
    if ids.len() == 0 {
        r
    } else {
        add_replies(r, first, name, ids.drop_last()).insert(
            (first + ids.len() - 1) as u64,
            (name, ids.last()),
        )
    }
}

/// The lower bound of a retry's scan of the error entries of the session
/// whose name has the bytes `nb`.
pub open spec fn error_lo(nb: Seq<u8>, c: Option<u32>) -> KeyBound {
    match c {
        None => Some(((nb, 0u32), true)),
        Some(x) => Some(((nb, x), false)),
    }
}

pub open spec fn error_hi(nb: Seq<u8>) -> KeyBound {
    Some(((nb, u32::MAX), true))
}

/// The session's parameters after a retry that may override them: the
/// override keeps the session's name and has its batch size normalised.
pub open spec fn retry_params(m: Migration, p: Option<MigrationParams>) -> Migration {
    match p {
        None => m,
        Some(q) => Migration {
            params: MigrationParams {
                name: m.params.name,
                batch_size: Some(batch_of(q.batch_size)),
                error_strategy: q.error_strategy,
                migrate_msg: q.migrate_msg,
                from_code_id: q.from_code_id,
                to_code_id: q.to_code_id,
            },
            status: m.status,
            cursor: m.cursor,
            retry_cursor: m.retry_cursor,
            n_success: m.n_success,
            n_error: m.n_error,
        },
    }
}

/// The session after a retry that re-dispatched the error entries `keys`:
/// their count leaves the error count, and the retry cursor moves on, or the
/// session completes when the batch was not full.
pub open spec fn retried(m: Migration, keys: Seq<KeyView>) -> Migration {
    let ne = if m.n_error >= keys.len() {
        (m.n_error - keys.len()) as u32
    } else {
        0u32
    };
    if keys.len() < batch_of(m.params.batch_size) {
        Migration {
            params: m.params,
            status: MigrationStatus::Complete,
            cursor: m.cursor,
            retry_cursor: None,
            n_success: m.n_success,
            n_error: ne,
        }
    } else {
        Migration {
            params: m.params,
            status: m.status,
            cursor: m.cursor,
            retry_cursor: Some(keys.last().1),
            n_success: m.n_success,
            n_error: ne,
        }
    }
}

/// Parameters of a migration of one record.
pub struct SingletonMigrationParams {
    pub to_code_id: u64,
    pub from_code_id: Option<u64>,
    pub migrate_msg: Option<Vec<u8>>,
    pub contract: String,
}

/// An upgrade of one record outside any session; no reply is asked for.
pub struct MigrateCommand {
    pub contract: String,
    pub new_code_id: u64,
    pub msg: Option<Vec<u8>>,
}

/// Migrates one record: nothing to do when it was not created from the
/// required source code, else the upgrade command to send.
pub fn exec_migrate_one(f: &Factory, params: SingletonMigrationParams) -> (r: Result<Option<MigrateCommand>, ContractError>)
    requires
        f.wf(),
    ensures
        r is Err ==> r == Err::<Option<MigrateCommand>, ContractError>(ContractError::NotFound)
            && forall|id: u32| !#[trigger] f.resolves(crate::msg::ContractSelector::Address(params.contract), id),
        r matches Ok(c) ==> exists|id: u32| #[trigger] f.resolves(crate::msg::ContractSelector::Address(params.contract), id)
            && (c is Some <==> matches_code(f, id, params.from_code_id))
            && (c matches Some(cmd) ==> cmd.contract == params.contract && cmd.new_code_id == params.to_code_id
                && cmd.msg == params.migrate_msg),
{
    let id = match f.resolve(&crate::msg::ContractSelector::Address(params.contract.clone())) {
        Ok(id) => id,
        Err(e) => {
            return Err(e);
        },
    };
    if let Some(c) = params.from_code_id {
        if !f.code_matches(id, c) {
            return Ok(None);
        }
    }
    Ok(Some(MigrateCommand { contract: params.contract, new_code_id: params.to_code_id, msg: params.migrate_msg }))
}

/// The sessions, the reply-correlation table and the error table.
pub struct Migrations {
    sessions: Vec<Migration>,
    session_map: Ghost<Map<Seq<char>, Migration>>,
    errors: OrderedIndex,
    error_details: Vec<ErrorEntry>,
    replies: Vec<ReplyEntry>,
    reply_map: Ghost<Map<u64, (Seq<char>, u32)>>,
}

impl Migrations {
    /// Each session by name.
    pub closed spec fn sessions(&self) -> Map<Seq<char>, Migration> {
        self.session_map@
    }

    /// The session and record each correlation id was handed out for.
    pub closed spec fn replies(&self) -> Map<u64, (Seq<char>, u32)> {
        self.reply_map@
    }

    /// The error entries, as keys of a session name's bytes and a record id.
    pub closed spec fn error_keys(&self) -> Set<KeyView> {
        self.errors.keys()
    }

    /// The error entries in ascending key order.
    pub closed spec fn error_seq(&self) -> Seq<KeyView> {
        self.errors@
    }

    /// The error entries of session `name`, in record-id order.
    pub open spec fn session_error_keys(&self, name: Seq<char>) -> Seq<KeyView> {
        sel_fwd(self.error_seq(), Seq::empty(), error_lo(str_bytes(name), None), error_hi(str_bytes(name)))
    }

    /// Whether record `id` has an error entry in session `name`.
    pub open spec fn has_error(&self, name: Seq<char>, id: u32) -> bool {
        self.error_keys().contains((str_bytes(name), id))
    }

    /// The tables agree with their models, and every correlation id in use
    /// is below `next_reply`.
    pub closed spec fn wf(&self, next_reply: u64) -> bool {
        &&& forall|i: int|
            0 <= i < self.sessions@.len() ==> self.session_map@.contains_key(
                (#[trigger] self.sessions@[i]).params.name@,
            ) && self.session_map@[self.sessions@[i].params.name@] == self.sessions@[i]
        &&& forall|n: Seq<char>| #[trigger]
            self.session_map@.contains_key(n) ==> exists|i: int|
                0 <= i < self.sessions@.len() && (#[trigger] self.sessions@[i]).params.name@ == n
        &&& forall|a: int, b: int|
            0 <= a < b < self.sessions@.len() ==> (#[trigger] self.sessions@[a]).params.name@ != (
            #[trigger] self.sessions@[b]).params.name@
        &&& forall|i: int|
            0 <= i < self.replies@.len() ==> self.reply_map@.contains_key(
                (#[trigger] self.replies@[i]).reply_id,
            ) && self.reply_map@[self.replies@[i].reply_id] == (
                self.replies@[i].session@,
                self.replies@[i].id,
            )
        &&& forall|r: u64| #[trigger]
            self.reply_map@.contains_key(r) ==> r < next_reply && exists|i: int|
                0 <= i < self.replies@.len() && (#[trigger] self.replies@[i]).reply_id == r
        &&& forall|a: int, b: int|
            0 <= a < b < self.replies@.len() ==> (#[trigger] self.replies@[a]).reply_id != (
            #[trigger] self.replies@[b]).reply_id
        &&& self.errors.wf()
        &&& forall|k: KeyView| #[trigger]
            self.errors.keys().contains(k) ==> self.errors.values()[k] matches Some(
                IndexValue::String(_),
            )
    }

    pub fn new() -> (r: Migrations)
        ensures
            r.wf(0),
            r.sessions().is_empty(),
            r.replies().is_empty(),
            r.error_keys().is_empty(),
    {
        let r = Migrations {
            sessions: Vec::new(),
            session_map: Ghost(Map::empty()),
            errors: OrderedIndex::new(),
            error_details: Vec::new(),
            replies: Vec::new(),
            reply_map: Ghost(Map::empty()),
        };
        assert(r.errors.keys() =~= Set::<KeyView>::empty());
        r
    }

    fn find_session(&self, name: &String, Ghost(next_reply): Ghost<u64>) -> (r: Option<usize>)
        requires
            self.wf(next_reply),
        ensures
            r matches Some(i) ==> i < self.sessions@.len() && self.sessions().contains_key(name@)
                && self.sessions()[name@] == self.sessions@[i as int],
            r is None ==> !self.sessions().contains_key(name@),
    {
        let mut i: usize = 0;
        while i < self.sessions.len()
            invariant
                self.wf(next_reply),
                i <= self.sessions@.len(),
                forall|j: int| 0 <= j < i ==> (#[trigger] self.sessions@[j]).params.name@ != name@,
            decreases self.sessions@.len() - i,
        {
            if self.sessions[i].params.name == *name {
                return Some(i);
            }
            i = i + 1;
        }
        proof {
            if self.session_map@.contains_key(name@) {
                let j = choose|j: int|
                    0 <= j < self.sessions@.len() && (#[trigger] self.sessions@[j]).params.name@
                        == name@;
            }
        }
        None
    }

    /// Replaces the session at position `i` by `m` of the same name.
    fn replace_session(&mut self, i: usize, m: Migration, Ghost(next_reply): Ghost<u64>)
        requires
            old(self).wf(next_reply),
            i < old(self).sessions@.len(),
            m.params.name@ == old(self).sessions@[i as int].params.name@,
        ensures
            final(self).wf(next_reply),
            final(self).sessions() == old(self).sessions().insert(m.params.name@, m),
            final(self).replies() == old(self).replies(),
            final(self).error_keys() == old(self).error_keys(),
            final(self).error_seq() == old(self).error_seq(),
    {
        let ghost before = *self;
        let ghost n = m.params.name@;
        self.sessions.remove(i);
        self.sessions.insert(i, m);
        self.session_map = Ghost(before.session_map@.insert(n, m));
        proof {
            assert(self.sessions@ =~= before.sessions@.update(i as int, m));
            assert(self.replies == before.replies);
            assert(self.reply_map == before.reply_map);
            assert(self.errors == before.errors);
            assert(before.wf(next_reply));
            assert forall|j: int|
                0 <= j < self.sessions@.len() implies self.session_map@.contains_key(
                (#[trigger] self.sessions@[j]).params.name@,
            ) && self.session_map@[self.sessions@[j].params.name@] == self.sessions@[j] by {
                if j != i {
                    assert(self.sessions@[j] == before.sessions@[j]);
                    if j < i {
                        assert(before.sessions@[j].params.name@ != before.sessions@[i as int].params.name@);
                    } else {
                        assert(before.sessions@[i as int].params.name@ != before.sessions@[j].params.name@);
                    }
                }
            }
            assert forall|x: Seq<char>| #[trigger]
                self.session_map@.contains_key(x) implies exists|j: int|
                0 <= j < self.sessions@.len() && (#[trigger] self.sessions@[j]).params.name@ == x by {
                if x == n {
                    assert(self.sessions@[i as int].params.name@ == x);
                } else {
                    let j = choose|j: int|
                        0 <= j < before.sessions@.len() && (#[trigger] before.sessions@[j]).params.name@
                            == x;
                    assert(self.sessions@[j].params.name@ == x);
                }
            }
            assert forall|a: int, b: int|
                0 <= a < b < self.sessions@.len() implies (#[trigger] self.sessions@[a]).params.name@
                != (#[trigger] self.sessions@[b]).params.name@ by {
                if a != i && b != i {
                    assert(before.sessions@[a].params.name@ != before.sessions@[b].params.name@);
                } else if a == i {
                    assert(before.sessions@[i as int].params.name@ != before.sessions@[b].params.name@);
                } else {
                    assert(before.sessions@[a].params.name@ != before.sessions@[i as int].params.name@);
                }
            }
        }
    }

    /// Records that correlation id `reply_id`, fresh, belongs to record `id`
    /// of session `name`.
    fn add_reply(&mut self, reply_id: u64, name: &String, id: u32, Ghost(next_reply): Ghost<u64>)
        requires
            old(self).wf(next_reply),
            reply_id == next_reply,
            next_reply < u64::MAX,
        ensures
            final(self).wf((next_reply + 1) as u64),
            final(self).replies() == old(self).replies().insert(reply_id, (name@, id)),
            final(self).errors == old(self).errors,
            final(self).sessions() == old(self).sessions(),
            final(self).sessions@ == old(self).sessions@,
            final(self).error_keys() == old(self).error_keys(),
            final(self).error_seq() == old(self).error_seq(),
    {
        let ghost before = *self;
        self.replies.push(ReplyEntry { reply_id, session: name.clone(), id });
        self.reply_map = Ghost(before.reply_map@.insert(reply_id, (name@, id)));
        proof {
            let last = self.replies@.len() - 1;
            assert forall|i: int|
                0 <= i < self.replies@.len() implies self.reply_map@.contains_key(
                (#[trigger] self.replies@[i]).reply_id,
            ) && self.reply_map@[self.replies@[i].reply_id] == (
                self.replies@[i].session@,
                self.replies@[i].id,
            ) by {
                if i != last {
                    assert(self.replies@[i] == before.replies@[i]);
                    assert(before.reply_map@.contains_key(before.replies@[i].reply_id));
                }
            }
            assert forall|r: u64| #[trigger]
                self.reply_map@.contains_key(r) implies r < next_reply + 1 && exists|i: int|
                0 <= i < self.replies@.len() && (#[trigger] self.replies@[i]).reply_id == r by {
                if r == reply_id {
                    assert(self.replies@[last].reply_id == r);
                } else {
                    let i = choose|i: int|
                        0 <= i < before.replies@.len() && (#[trigger] before.replies@[i]).reply_id == r;
                    assert(self.replies@[i].reply_id == r);
                }
            }
            assert forall|a: int, b: int|
                0 <= a < b < self.replies@.len() implies (#[trigger] self.replies@[a]).reply_id != (
                #[trigger] self.replies@[b]).reply_id by {
                if b == last {
                    assert(before.reply_map@.contains_key(before.replies@[a].reply_id));
                } else {
                    assert(before.replies@[a].reply_id != before.replies@[b].reply_id);
                }
            }
        }
    }
    /// Sets everything but the parameters of the session at position `i`.
    fn set_progress(
        &mut self,
        i: usize,
        status: MigrationStatus,
        cursor: Option<u32>,
        retry_cursor: Option<u32>,
        n_success: u32,
        n_error: u32,
        Ghost(next_reply): Ghost<u64>,
    )
        requires
            old(self).wf(next_reply),
            i < old(self).sessions@.len(),
        ensures
            final(self).wf(next_reply),
            final(self).sessions() == old(self).sessions().insert(
                old(self).sessions@[i as int].params.name@,
                Migration {
                    params: old(self).sessions@[i as int].params,
                    status,
                    cursor,
                    retry_cursor,
                    n_success,
                    n_error,
                },
            ),
            final(self).replies() == old(self).replies(),
            final(self).error_keys() == old(self).error_keys(),
            final(self).error_seq() == old(self).error_seq(),
            final(self).sessions@.len() == old(self).sessions@.len(),
    {
        let ghost before = *self;
        let ghost n = self.sessions@[i as int].params.name@;
        self.sessions[i].status = status;
        self.sessions[i].cursor = cursor;
        self.sessions[i].retry_cursor = retry_cursor;
        self.sessions[i].n_success = n_success;
        self.sessions[i].n_error = n_error;
        let ghost m = self.sessions@[i as int];
        self.session_map = Ghost(before.session_map@.insert(n, m));
        proof {
            assert(self.sessions@ =~= before.sessions@.update(i as int, m));
            assert(m.params == before.sessions@[i as int].params);
            assert(self.replies == before.replies);
            assert(self.reply_map == before.reply_map);
            assert(self.errors == before.errors);
            assert forall|j: int|
                0 <= j < self.sessions@.len() implies self.session_map@.contains_key(
                (#[trigger] self.sessions@[j]).params.name@,
            ) && self.session_map@[self.sessions@[j].params.name@] == self.sessions@[j] by {
                if j != i {
                    assert(self.sessions@[j] == before.sessions@[j]);
                    if j < i {
                        assert(before.sessions@[j].params.name@ != before.sessions@[i as int].params.name@);
                    } else {
                        assert(before.sessions@[i as int].params.name@ != before.sessions@[j].params.name@);
                    }
                }
            }
            assert forall|x: Seq<char>| #[trigger]
                self.session_map@.contains_key(x) implies exists|j: int|
                0 <= j < self.sessions@.len() && (#[trigger] self.sessions@[j]).params.name@ == x by {
                if x == n {
                    assert(self.sessions@[i as int].params.name@ == x);
                } else {
                    let j = choose|j: int|
                        0 <= j < before.sessions@.len() && (#[trigger] before.sessions@[j]).params.name@
                            == x;
                    assert(self.sessions@[j].params.name@ == x);
                }
            }
            assert forall|a: int, b: int|
                0 <= a < b < self.sessions@.len() implies (#[trigger] self.sessions@[a]).params.name@
                != (#[trigger] self.sessions@[b]).params.name@ by {
                assert(before.sessions@[a].params.name@ != before.sessions@[b].params.name@);
            }
        }
    }

    /// Adds a session whose name is not taken.
    fn add_session(&mut self, m: Migration, Ghost(next_reply): Ghost<u64>)
        requires
            old(self).wf(next_reply),
            !old(self).sessions().contains_key(m.params.name@),
        ensures
            final(self).wf(next_reply),
            final(self).sessions() == old(self).sessions().insert(m.params.name@, m),
            final(self).replies() == old(self).replies(),
            final(self).error_keys() == old(self).error_keys(),
    {
        let ghost before = *self;
        let ghost n = m.params.name@;
        self.sessions.push(m);
        self.session_map = Ghost(before.session_map@.insert(n, m));
        proof {
            let last = self.sessions@.len() - 1;
            assert(self.replies == before.replies);
            assert(self.reply_map == before.reply_map);
            assert(self.errors == before.errors);
            assert forall|j: int|
                0 <= j < self.sessions@.len() implies self.session_map@.contains_key(
                (#[trigger] self.sessions@[j]).params.name@,
            ) && self.session_map@[self.sessions@[j].params.name@] == self.sessions@[j] by {
                if j != last {
                    assert(self.sessions@[j] == before.sessions@[j]);
                    assert(before.session_map@.contains_key(before.sessions@[j].params.name@));
                }
            }
            assert forall|x: Seq<char>| #[trigger]
                self.session_map@.contains_key(x) implies exists|j: int|
                0 <= j < self.sessions@.len() && (#[trigger] self.sessions@[j]).params.name@ == x by {
                if x == n {
                    assert(self.sessions@[last].params.name@ == x);
                } else {
                    let j = choose|j: int|
                        0 <= j < before.sessions@.len() && (#[trigger] before.sessions@[j]).params.name@
                            == x;
                    assert(self.sessions@[j].params.name@ == x);
                }
            }
            assert forall|a: int, b: int|
                0 <= a < b < self.sessions@.len() implies (#[trigger] self.sessions@[a]).params.name@
                != (#[trigger] self.sessions@[b]).params.name@ by {
                if b == last {
                    assert(before.session_map@.contains_key(before.sessions@[a].params.name@));
                } else {
                    assert(before.sessions@[a].params.name@ != before.sessions@[b].params.name@);
                }
            }
        }
    }

    /// Starts a session named by its parameters, with the batch size
    /// normalised; fails when a session of that name exists.
    pub fn exec_begin_migration(&mut self, f: &Factory, params: MigrationParams) -> (r: Result<
        (),
        ContractError,
    >)
        requires
            old(self).wf(f.next_reply_id()),
        ensures
            final(self).wf(f.next_reply_id()),
            old(self).sessions().contains_key(params.name@) <==> r is Err,
            r matches Err(e) ==> e is MigrationExists && *final(self) == *old(self),
            r is Ok ==> final(self).sessions() == old(self).sessions().insert(
                params.name@,
                fresh_session(params),
            ),
            final(self).replies() == old(self).replies(),
            final(self).error_keys() == old(self).error_keys(),
    {
        let found = self.find_session(&params.name, Ghost(f.next_reply_id()));
        if found.is_some() {
            return Err(ContractError::MigrationExists { name: params.name });
        }
        let b = normalize_batch(params.batch_size);
        let m = Migration {
            params: MigrationParams {
                name: params.name,
                batch_size: Some(b),
                error_strategy: params.error_strategy,
                migrate_msg: params.migrate_msg,
                from_code_id: params.from_code_id,
                to_code_id: params.to_code_id,
            },
            status: MigrationStatus::Running,
            cursor: None,
            retry_cursor: None,
            n_success: 0,
            n_error: 0,
        };
        self.add_session(m, Ghost(f.next_reply_id()));
        Ok(())
    }

    /// Runs the next step of session `name`: visits the next batch of the
    /// directory after the session's cursor, dispatches an upgrade to each
    /// visited record that passes the source-code filter (correlating
    /// consecutive reply ids with them), and moves the cursor on, completing
    /// the session when the batch was not full.
    pub fn exec_step_migration(&mut self, f: &mut Factory, name: &String) -> (r: Result<
        Vec<UpgradeCommand>,
        ContractError,
    >)
        requires
            old(self).wf(old(f).next_reply_id()),
            old(f).wf(),
        ensures
            final(self).wf(final(f).next_reply_id()),
            final(f).wf(),
            !old(self).sessions().contains_key(name@) ==> r == Err::<Vec<UpgradeCommand>, ContractError>(ContractError::NotFound),
            old(self).sessions().contains_key(name@) && old(self).sessions()[name@].status
                == MigrationStatus::Complete ==> r matches Err(ContractError::MigrationComplete { .. }),
            r matches Err(e) ==> *final(self) == *old(self) && *final(f) == *old(f),
            r matches Err(ContractError::Overflow) ==> old(f).next_reply_id() > u64::MAX - batch_of(
                old(self).sessions()[name@].params.batch_size,
            ),
            r matches Err(ContractError::MigrationComplete { name: n }) ==> n == *name
                && old(self).sessions().contains_key(name@) && old(self).sessions()[name@].status
                == MigrationStatus::Complete,
            r matches Err(e) ==> e is NotFound || e is MigrationComplete || e is Overflow,
            old(self).sessions().contains_key(name@) && old(self).sessions()[name@].status
                != MigrationStatus::Complete && old(f).next_reply_id() <= u64::MAX - batch_of(
                old(self).sessions()[name@].params.batch_size,
            ) ==> r is Ok,
            r matches Ok(cmds) ==> {
                let m = old(self).sessions()[name@];
                let visited = visited_ids(&*old(f), m);
                let targets = code_filter(&*old(f), visited, m.params.from_code_id);
                &&& old(self).sessions().contains_key(name@)
                &&& m.status != MigrationStatus::Complete
                &&& cmds@.len() == targets.len()
                &&& forall|i: int|
                    0 <= i < cmds@.len() ==> (#[trigger] cmds@[i]).reply_id == old(f).next_reply_id()
                        + i && old(f).address_of(targets[i]) == Some(cmds@[i].contract@)
                        && cmds@[i].new_code_id == m.params.to_code_id && opt_bytes(cmds@[i].msg)
                        == opt_bytes(m.params.migrate_msg)
                &&& final(f).next_reply_id() == old(f).next_reply_id() + targets.len()
                &&& final(f).directory() == old(f).directory()
                &&& final(f).next_id() == old(f).next_id()
                &&& final(self).sessions() == old(self).sessions().insert(name@, stepped(m, visited))
                &&& final(self).replies() == add_replies(
                    old(self).replies(),
                    old(f).next_reply_id(),
                    name@,
                    targets,
                )
                &&& final(self).error_keys() == old(self).error_keys()
            },
    {
        let ghost f0 = *f;
        let ghost s0 = *self;
        let found = self.find_session(name, Ghost(f.next_reply_id()));
        let i = match found {
            None => {
                return Err(ContractError::NotFound);
            },
            Some(i) => i,
        };
        if self.sessions[i].status == MigrationStatus::Complete {
            return Err(ContractError::MigrationComplete { name: name.clone() });
        }
        let batch = normalize_batch(self.sessions[i].params.batch_size);
        if f.next_reply_id_exec() > u64::MAX - batch as u64 {
            return Err(ContractError::Overflow);
        }
        let ghost m = self.sessions@[i as int];
        let cursor = self.sessions[i].cursor;
        let from = self.sessions[i].params.from_code_id;
        let to = self.sessions[i].params.to_code_id;
        let ids = f.scan_directory(cursor, batch as usize);
        let ghost visited = ids@;
        assert(visited == visited_ids(&f0, m));
        let mut cmds: Vec<UpgradeCommand> = Vec::new();
        let mut k: usize = 0;
        proof {
            lemma_directory_keys(&f0);
            assert(visited.take(0) =~= Seq::<u32>::empty());
            let lo = after_bound(m.cursor);
            let sel = sel_fwd(f0.directory(), Seq::empty(), lo, None);
            assert forall|x: u32| visited.contains(x) implies f0.directory().contains(dir_key(x)) by {
                let j = choose|j: int| 0 <= j < visited.len() && visited[j] == x;
                lemma_sel_fwd_member(f0.directory(), Seq::empty(), lo, None, j);
                assert(f0.directory().contains(sel[j]));
            }
        }
        while k < ids.len()
            invariant
                f.wf(),
                self.wf(f.next_reply_id()),
                k <= ids@.len(),
                ids@ == visited,
                visited.len() <= batch,
                f0.next_reply_id() <= u64::MAX - batch,
                i < self.sessions@.len(),
                self.sessions@[i as int] == m,
                self.sessions() == s0.sessions(),
                self.error_keys() == s0.error_keys(),
                self.error_seq() == s0.error_seq(),
                m == s0.sessions()[name@],
                s0.sessions().contains_key(name@),
                from == m.params.from_code_id,
                to == m.params.to_code_id,
                f.directory() == f0.directory(),
                f.next_id() == f0.next_id(),
                f.code_index_keys() == f0.code_index_keys(),
                forall|j: u32| #[trigger] f.address_of(j) == f0.address_of(j),
                forall|x: u32| visited.contains(x) ==> f0.directory().contains(dir_key(x)),
                cmds@.len() == code_filter(&f0, visited.take(k as int), from).len(),
                cmds@.len() <= k,
                f.next_reply_id() == f0.next_reply_id() + cmds@.len(),
                self.replies() == add_replies(
                    s0.replies(),
                    f0.next_reply_id(),
                    name@,
                    code_filter(&f0, visited.take(k as int), from),
                ),
                forall|j: int|
                    0 <= j < cmds@.len() ==> (#[trigger] cmds@[j]).reply_id == f0.next_reply_id() + j
                        && f0.address_of(code_filter(&f0, visited.take(k as int), from)[j]) == Some(
                        cmds@[j].contract@,
                    ) && cmds@[j].new_code_id == to && opt_bytes(cmds@[j].msg) == opt_bytes(
                        m.params.migrate_msg,
                    ),
            decreases ids@.len() - k,
        {
            let id = ids[k];
            let ghost prev = code_filter(&f0, visited.take(k as int), from);
            assert(visited.take(k + 1).drop_last() =~= visited.take(k as int));
            assert(visited.take(k + 1).last() == id);
            let pass = match from {
                None => true,
                Some(c) => f.code_matches(id, c),
            };
            if pass {
                assert(visited.contains(id));
                let addr = match f.address_of_id(id) {
                    Some(a) => a,
                    None => {
                        assert(false);
                        String::new()
                    },
                };
                let rid = match f.allocate_reply_id() {
                    Ok(r) => r,
                    Err(_) => {
                        assert(false);
                        0
                    },
                };
                self.add_reply(rid, name, id, Ghost(rid));
                let msg = copy_opt_bytes(&self.sessions[i].params.migrate_msg);
                cmds.push(UpgradeCommand { contract: addr, new_code_id: to, msg, reply_id: rid });
                proof {
                    let cur = code_filter(&f0, visited.take(k + 1), from);
                    assert(cur == prev.push(id));
                    assert(cur.drop_last() =~= prev);
                    assert(rid == f0.next_reply_id() + prev.len());
                    assert(add_replies(s0.replies(), f0.next_reply_id(), name@, cur) == add_replies(
                        s0.replies(),
                        f0.next_reply_id(),
                        name@,
                        prev,
                    ).insert(rid, (name@, id)));
                    assert forall|j: int|
                        0 <= j < cmds@.len() implies (#[trigger] cmds@[j]).reply_id == f0.next_reply_id()
                            + j && f0.address_of(cur[j]) == Some(cmds@[j].contract@)
                            && cmds@[j].new_code_id == to && opt_bytes(cmds@[j].msg) == opt_bytes(
                            m.params.migrate_msg,
                        ) by {
                        if j < cmds@.len() - 1 {
                            assert(cur[j] == prev[j]);
                        }
                    }
                }
            }
            k = k + 1;
        }
        assert(visited.take(k as int) =~= visited);
        let ghost targets = code_filter(&f0, visited, from);
        if ids.len() < batch as usize {
            let rc = self.sessions[i].retry_cursor;
            let ns = self.sessions[i].n_success;
            let ne = self.sessions[i].n_error;
            self.set_progress(i, MigrationStatus::Complete, None, rc, ns, ne, Ghost(f.next_reply_id()));
        } else {
            let last = ids[ids.len() - 1];
            let st = copy_status(&self.sessions[i].status);
            let rc = self.sessions[i].retry_cursor;
            let ns = self.sessions[i].n_success;
            let ne = self.sessions[i].n_error;
            self.set_progress(i, st, Some(last), rc, ns, ne, Ghost(f.next_reply_id()));
        }
        Ok(cmds)
    }
    fn find_reply(&self, reply_id: u64, Ghost(next_reply): Ghost<u64>) -> (r: Option<usize>)
        requires
            self.wf(next_reply),
        ensures
            r matches Some(i) ==> i < self.replies@.len() && self.replies().contains_key(reply_id)
                && self.replies()[reply_id] == (self.replies@[i as int].session@, self.replies@[i as int].id),
            r is None ==> !self.replies().contains_key(reply_id),
    {
        let mut i: usize = 0;
        while i < self.replies.len()
            invariant
                self.wf(next_reply),
                i <= self.replies@.len(),
                forall|j: int| 0 <= j < i ==> (#[trigger] self.replies@[j]).reply_id != reply_id,
            decreases self.replies@.len() - i,
        {
            if self.replies[i].reply_id == reply_id {
                return Some(i);
            }
            i = i + 1;
        }
        proof {
            if self.reply_map@.contains_key(reply_id) {
                let j = choose|j: int|
                    0 <= j < self.replies@.len() && (#[trigger] self.replies@[j]).reply_id == reply_id;
            }
        }
        None
    }

    /// Reconciles the reply to correlation id `reply_id`. A success counts
    /// one more upgraded record and clears the record's error entry, if any.
    /// A failure fails the call under the abort policy, and under the retry
    /// policy counts one more error and records the record's error entry. A
    /// reply for a session that no longer exists is dropped.
    pub fn handle_migration_reply(
        &mut self,
        f: &Factory,
        reply_id: u64,
        outcome: Result<(), String>,
    ) -> (r: Result<(), ContractError>)
        requires
            old(self).wf(f.next_reply_id()),
            f.wf(),
        ensures
            final(self).wf(f.next_reply_id()),
            final(self).replies() == old(self).replies(),
            !old(self).replies().contains_key(reply_id) ==> r == Err::<(), ContractError>(
                ContractError::InvalidReply { reply_id },
            ),
            r is Err ==> *final(self) == *old(self),
            old(self).replies().contains_key(reply_id) ==> {
                let (name, id) = old(self).replies()[reply_id];
                let m = old(self).sessions()[name];
                &&& !old(self).sessions().contains_key(name) ==> r is Ok && *final(self) == *old(self)
                &&& old(self).sessions().contains_key(name) && outcome is Err
                    && m.params.error_strategy == MigrationErrorStrategy::Abort ==> (r matches Err(
                    ContractError::UpgradeFailed { .. },
                ))
                &&& old(self).sessions().contains_key(name) && r is Ok ==> {
                    &&& final(self).sessions() == old(self).sessions().insert(
                        name,
                        after_reply(m, old(self).has_error(name, id), outcome is Ok),
                    )
                    &&& outcome is Err ==> m.params.error_strategy == MigrationErrorStrategy::Retry
                    &&& final(self).error_keys() == if outcome is Ok {
                        old(self).error_keys().remove((str_bytes(name), id))
                    } else {
                        old(self).error_keys().insert((str_bytes(name), id))
                    }
                }
                &&& old(self).sessions().contains_key(name) && r is Err ==> (r matches Err(e) && (
                e is UpgradeFailed || e is Overflow || e is NotFound))
                &&& r matches Err(ContractError::UpgradeFailed { .. }) ==> old(self).sessions().contains_key(name)
                    && outcome is Err && m.params.error_strategy == MigrationErrorStrategy::Abort
                &&& r matches Err(ContractError::Overflow) ==> old(self).sessions().contains_key(name) && (
                    (outcome is Ok && (m.n_success == u32::MAX || (old(self).has_error(name, id)
                    && m.n_error == 0))) || (outcome is Err && m.params.error_strategy
                    == MigrationErrorStrategy::Retry && m.n_error == u32::MAX))
                &&& r matches Err(ContractError::NotFound) ==> old(self).sessions().contains_key(name)
                    && outcome is Err && m.params.error_strategy == MigrationErrorStrategy::Retry
                    && f.address_of(id) is None
                &&& r matches Err(ContractError::InvalidReply { .. }) ==> false
            },
    {
        let ghost nr = f.next_reply_id();
        let ri = match self.find_reply(reply_id, Ghost(nr)) {
            None => {
                return Err(ContractError::InvalidReply { reply_id });
            },
            Some(ri) => ri,
        };
        let name = self.replies[ri].session.clone();
        let id = self.replies[ri].id;
        let i = match self.find_session(&name, Ghost(nr)) {
            None => {
                return Ok(());
            },
            Some(i) => i,
        };
        let ghost before = *self;
        let ghost m = self.sessions@[i as int];
        let nb = copy_bytes(name.as_str().as_bytes());
        let status = copy_status(&self.sessions[i].status);
        let cursor = self.sessions[i].cursor;
        let rc = self.sessions[i].retry_cursor;
        let ns = self.sessions[i].n_success;
        let ne = self.sessions[i].n_error;
        match outcome {
            Ok(()) => {
                let ns2 = match add_u32(ns, 1) {
                    Ok(x) => x,
                    Err(e) => {
                        return Err(e);
                    },
                };
                let had = self.errors.contains(nb.as_slice(), id);
                let ne2 = if had {
                    match sub_u32(ne, 1) {
                        Ok(x) => x,
                        Err(e) => {
                            return Err(e);
                        },
                    }
                } else {
                    ne
                };
                self.remove_error(nb.as_slice(), id, Ghost(nr));
                self.set_progress(i, status, cursor, rc, ns2, ne2, Ghost(nr));
                proof {
                    assert(before.session_map@.contains_key(name@));
                }
            },
            Err(msg) => {
                if self.sessions[i].params.error_strategy == MigrationErrorStrategy::Abort {
                    return Err(ContractError::UpgradeFailed { error: msg });
                }
                let ne2 = match add_u32(ne, 1) {
                    Ok(x) => x,
                    Err(e) => {
                        return Err(e);
                    },
                };
                let addr = match f.address_of_id(id) {
                    Some(a) => a,
                    None => {
                        return Err(ContractError::NotFound);
                    },
                };
                let detail = ErrorEntry {
                    session: name.clone(),
                    id,
                    error: MigrationError { contract: addr.clone(), error: msg, reply_id },
                };
                self.insert_error(nb, id, addr, detail, Ghost(nr));
                self.set_progress(i, status, cursor, rc, ns, ne2, Ghost(nr));
            },
        }
        Ok(())
    }

    /// Adds or replaces the error entry of record `id` in the session whose
    /// name has the bytes `nb`.
    fn insert_error(&mut self, nb: Vec<u8>, id: u32, addr: String, detail: ErrorEntry, Ghost(next_reply): Ghost<u64>)
        requires
            old(self).wf(next_reply),
        ensures
            final(self).wf(next_reply),
            final(self).error_keys() == old(self).error_keys().insert((nb@, id)),
            final(self).sessions() == old(self).sessions(),
            final(self).sessions@ == old(self).sessions@,
            final(self).replies() == old(self).replies(),
    {
        let ghost before = *self;
        self.drop_details(nb.as_slice(), id);
        self.errors.insert(IndexKey::new(nb, id), Some(IndexValue::String(addr)));
        self.error_details.push(detail);
        proof {
            assert(self.sessions == before.sessions);
            assert(self.session_map == before.session_map);
            assert(self.replies == before.replies);
            assert(self.reply_map == before.reply_map);
            assert forall|k: KeyView| #[trigger] self.errors.keys().contains(k) implies self.errors.values()[k] matches Some(
                IndexValue::String(_),
            ) by {
                if before.errors.keys().contains(k) {
                }
            }
        }
    }

    /// Removes the error entry of record `id` in the session whose name has
    /// the bytes `nb`, if there is one.
    fn remove_error(&mut self, nb: &[u8], id: u32, Ghost(next_reply): Ghost<u64>)
        requires
            old(self).wf(next_reply),
        ensures
            final(self).wf(next_reply),
            final(self).error_keys() == old(self).error_keys().remove((nb@, id)),
            forall|x: KeyView| #[trigger] final(self).error_keys().contains(x) ==> final(self).error_address(x) == old(self).error_address(x),
            final(self).sessions() == old(self).sessions(),
            final(self).sessions@ == old(self).sessions@,
            final(self).replies() == old(self).replies(),
    {
        let ghost before = *self;
        self.errors.remove(nb, id);
        self.drop_details(nb, id);
        proof {
            assert(self.sessions == before.sessions);
            assert(self.session_map == before.session_map);
            assert(self.replies == before.replies);
            assert(self.reply_map == before.reply_map);
            assert forall|k: KeyView| #[trigger] self.errors.keys().contains(k) implies self.errors.values()[k] matches Some(
                IndexValue::String(_),
            ) by {
                assert(before.errors.keys().contains(k));
            }
        }
    }
    /// The address recorded in the error entry `k`.
    pub closed spec fn error_address(&self, k: KeyView) -> Option<Seq<char>> {
        match self.errors.values()[k] {
            Some(IndexValue::String(a)) => Some(a@),
            _ => None,
        }
    }

    /// Replaces the parameters of the session at position `i`, keeping its
    /// name.
    fn set_params(&mut self, i: usize, p: MigrationParams, Ghost(next_reply): Ghost<u64>)
        requires
            old(self).wf(next_reply),
            i < old(self).sessions@.len(),
            p.name@ == old(self).sessions@[i as int].params.name@,
        ensures
            final(self).wf(next_reply),
            final(self).sessions() == old(self).sessions().insert(
                p.name@,
                Migration {
                    params: p,
                    status: old(self).sessions@[i as int].status,
                    cursor: old(self).sessions@[i as int].cursor,
                    retry_cursor: old(self).sessions@[i as int].retry_cursor,
                    n_success: old(self).sessions@[i as int].n_success,
                    n_error: old(self).sessions@[i as int].n_error,
                },
            ),
            final(self).sessions@.len() == old(self).sessions@.len(),
            final(self).sessions@[i as int].params == p,
            final(self).replies() == old(self).replies(),
            final(self).error_keys() == old(self).error_keys(),
            final(self).error_seq() == old(self).error_seq(),
            forall|k: KeyView| #[trigger] final(self).error_address(k) == old(self).error_address(k),
    {
        let ghost before = *self;
        let ghost n = p.name@;
        self.sessions[i].params = p;
        let ghost m = self.sessions@[i as int];
        self.session_map = Ghost(before.session_map@.insert(n, m));
        proof {
            assert(self.sessions@ =~= before.sessions@.update(i as int, m));
            assert(self.replies == before.replies);
            assert(self.reply_map == before.reply_map);
            assert(self.errors == before.errors);
            assert forall|j: int|
                0 <= j < self.sessions@.len() implies self.session_map@.contains_key(
                (#[trigger] self.sessions@[j]).params.name@,
            ) && self.session_map@[self.sessions@[j].params.name@] == self.sessions@[j] by {
                if j != i {
                    assert(self.sessions@[j] == before.sessions@[j]);
                    if j < i {
                        assert(before.sessions@[j].params.name@ != before.sessions@[i as int].params.name@);
                    } else {
                        assert(before.sessions@[i as int].params.name@ != before.sessions@[j].params.name@);
                    }
                }
            }
            assert forall|x: Seq<char>| #[trigger]
                self.session_map@.contains_key(x) implies exists|j: int|
                0 <= j < self.sessions@.len() && (#[trigger] self.sessions@[j]).params.name@ == x by {
                if x == n {
                    assert(self.sessions@[i as int].params.name@ == x);
                } else {
                    let j = choose|j: int|
                        0 <= j < before.sessions@.len() && (#[trigger] before.sessions@[j]).params.name@
                            == x;
                    assert(self.sessions@[j].params.name@ == x);
                }
            }
            assert forall|a: int, b: int|
                0 <= a < b < self.sessions@.len() implies (#[trigger] self.sessions@[a]).params.name@
                != (#[trigger] self.sessions@[b]).params.name@ by {
                assert(before.sessions@[a].params.name@ != before.sessions@[b].params.name@);
            }
        }
    }

    /// Retries the session's failed upgrades: optionally replaces its
    /// parameters (never its name), then re-dispatches the next batch of its
    /// error entries after the retry cursor in record-id order, removing each
    /// entry as it goes (a new failure adds it back) and uncounting its error.
    pub fn exec_retry_migration(&mut self, f: &mut Factory, name: &String, params: Option<MigrationParams>) -> (r: Result<
        Vec<UpgradeCommand>,
        ContractError,
    >)
        requires
            old(self).wf(old(f).next_reply_id()),
            old(f).wf(),
        ensures
            final(self).wf(final(f).next_reply_id()),
            final(f).wf(),
            !old(self).sessions().contains_key(name@) ==> r == Err::<Vec<UpgradeCommand>, ContractError>(ContractError::NotFound),
            old(self).sessions().contains_key(name@) && old(self).sessions()[name@].status
                == MigrationStatus::Complete ==> (r matches Err(ContractError::MigrationComplete { .. })),
            r matches Err(e) ==> *final(self) == *old(self) && *final(f) == *old(f),
            r matches Err(e) ==> e is NotFound || e is MigrationComplete || e is Overflow,
            r matches Err(ContractError::MigrationComplete { name: n }) ==> n == *name
                && old(self).sessions().contains_key(name@) && old(self).sessions()[name@].status
                == MigrationStatus::Complete,
            r matches Err(ContractError::Overflow) ==> old(self).sessions().contains_key(name@)
                && old(f).next_reply_id() > u64::MAX - batch_of(
                retry_params(old(self).sessions()[name@], params).params.batch_size,
            ),
            old(self).sessions().contains_key(name@) && old(self).sessions()[name@].status
                != MigrationStatus::Complete && old(f).next_reply_id() <= u64::MAX - batch_of(
                retry_params(old(self).sessions()[name@], params).params.batch_size,
            ) ==> r is Ok,
            r matches Ok(cmds) ==> {
                let m = retry_params(old(self).sessions()[name@], params);
                let keys = scan_spec(
                    old(self).error_seq(),
                    Seq::empty(),
                    error_lo(str_bytes(name@), m.retry_cursor),
                    error_hi(str_bytes(name@)),
                    false,
                    batch_of(m.params.batch_size) as nat,
                );
                &&& old(self).sessions().contains_key(name@)
                &&& old(self).sessions()[name@].status != MigrationStatus::Complete
                &&& cmds@.len() == keys.len()
                &&& forall|i: int|
                    0 <= i < cmds@.len() ==> (#[trigger] cmds@[i]).reply_id == old(f).next_reply_id()
                        + i && old(self).error_address(keys[i]) == Some(cmds@[i].contract@)
                        && cmds@[i].new_code_id == m.params.to_code_id && opt_bytes(cmds@[i].msg)
                        == opt_bytes(m.params.migrate_msg)
                &&& final(f).next_reply_id() == old(f).next_reply_id() + keys.len()
                &&& final(f).directory() == old(f).directory()
                &&& final(self).sessions() == old(self).sessions().insert(name@, retried(m, keys))
                &&& final(self).replies() == add_replies(
                    old(self).replies(),
                    old(f).next_reply_id(),
                    name@,
                    keys.map_values(|k: KeyView| k.1),
                )
                &&& final(self).error_keys() == old(self).error_keys().difference(keys.to_set())
            },
    {
        let ghost f0 = *f;
        let ghost s0 = *self;
        let i = match self.find_session(name, Ghost(f.next_reply_id())) {
            None => {
                return Err(ContractError::NotFound);
            },
            Some(i) => i,
        };
        if self.sessions[i].status == MigrationStatus::Complete {
            return Err(ContractError::MigrationComplete { name: name.clone() });
        }
        let batch = match &params {
            Some(p) => normalize_batch(p.batch_size),
            None => normalize_batch(self.sessions[i].params.batch_size),
        };
        if f.next_reply_id_exec() > u64::MAX - batch as u64 {
            return Err(ContractError::Overflow);
        }
        if let Some(p) = params {
            let q = MigrationParams {
                name: self.sessions[i].params.name.clone(),
                batch_size: Some(normalize_batch(p.batch_size)),
                error_strategy: p.error_strategy,
                migrate_msg: p.migrate_msg,
                from_code_id: p.from_code_id,
                to_code_id: p.to_code_id,
            };
            self.set_params(i, q, Ghost(f.next_reply_id()));
        }
        let ghost m = self.sessions@[i as int];
        let ghost s1 = *self;
        assert(m == retry_params(s0.sessions()[name@], params));
        let nb = copy_bytes(name.as_str().as_bytes());
        let lo = match self.sessions[i].retry_cursor {
            None => RangeQueryBound::Inclusive(IndexKey::new(copy_bytes(nb.as_slice()), 0)),
            Some(c) => RangeQueryBound::Exclusive(IndexKey::new(copy_bytes(nb.as_slice()), c)),
        };
        let hi = RangeQueryBound::Inclusive(IndexKey::new(copy_bytes(nb.as_slice()), u32::MAX));
        let lo = Some(lo);
        let hi = Some(hi);
        let no_bytes: Vec<u8> = Vec::new();
        let keys = self.errors.scan(no_bytes.as_slice(), &lo, &hi, false, batch as usize);
        let ghost ks = keys_view(keys@);
        proof {
            assert(bound_view(lo) == error_lo(str_bytes(name@), m.retry_cursor));
            assert(bound_view(hi) == error_hi(str_bytes(name@)));
            assert(no_bytes@ =~= Seq::<u8>::empty());
            let sel = sel_fwd(s1.errors@, Seq::empty(), bound_view(lo), bound_view(hi));
            lemma_sel_fwd_sorted(s1.errors@, Seq::empty(), bound_view(lo), bound_view(hi));
            assert forall|j: int| 0 <= j < ks.len() implies s1.errors@.contains(#[trigger] ks[j]) by {
                lemma_sel_fwd_member(s1.errors@, Seq::empty(), bound_view(lo), bound_view(hi), j);
            }
            assert(ks.take(0) =~= Seq::<KeyView>::empty());
            assert(ks.take(0).to_set() =~= Set::<KeyView>::empty());
            assert(s1.error_keys().difference(Set::<KeyView>::empty()) =~= s1.error_keys());
        }
        let to = self.sessions[i].params.to_code_id;
        let mut cmds: Vec<UpgradeCommand> = Vec::new();
        let mut k: usize = 0;
        while k < keys.len()
            invariant
                f.wf(),
                self.wf(f.next_reply_id()),
                k <= keys@.len(),
                ks == keys_view(keys@),
                ks.len() <= batch,
                sorted(ks),
                forall|j: int| 0 <= j < ks.len() ==> s1.errors@.contains(#[trigger] ks[j]),
                f0.next_reply_id() <= u64::MAX - batch,
                i < self.sessions@.len(),
                self.sessions@[i as int] == m,
                self.sessions() == s1.sessions(),
                to == m.params.to_code_id,
                f.directory() == f0.directory(),
                cmds@.len() == k,
                f.next_reply_id() == f0.next_reply_id() + k,
                self.error_keys() == s1.error_keys().difference(ks.take(k as int).to_set()),
                forall|x: KeyView| #[trigger] self.error_keys().contains(x) ==> self.error_address(x) == s1.error_address(x),
                self.replies() == add_replies(
                    s1.replies(),
                    f0.next_reply_id(),
                    name@,
                    ks.take(k as int).map_values(|x: KeyView| x.1),
                ),
                forall|j: int|
                    0 <= j < cmds@.len() ==> (#[trigger] cmds@[j]).reply_id == f0.next_reply_id() + j
                        && s1.error_address(ks[j]) == Some(cmds@[j].contract@)
                        && cmds@[j].new_code_id == to && opt_bytes(cmds@[j].msg) == opt_bytes(
                        m.params.migrate_msg,
                    ),
            decreases keys@.len() - k,
        {
            let key = &keys[k];
            let ghost kv = key@;
            assert(kv == ks[k as int]);
            proof {
                assert(s1.error_keys().contains(kv));
                assert(!ks.take(k as int).to_set().contains(kv)) by {
                    if ks.take(k as int).to_set().contains(kv) {
                        let j = choose|j: int| 0 <= j < k && ks.take(k as int)[j] == kv;
                        assert(key_lt(ks[j], ks[k as int]));
                        lemma_key_lt_irreflexive(kv);
                    }
                }
                assert(self.error_keys().contains(kv));
            }
            let addr = match self.errors.value_of(key.bytes.as_slice(), key.id) {
                Some(IndexValue::String(a)) => a,
                _ => {
                    assert(false);
                    String::new()
                },
            };
            let rid = match f.allocate_reply_id() {
                Ok(r) => r,
                Err(_) => {
                    assert(false);
                    0
                },
            };
            self.add_reply(rid, name, key.id, Ghost(rid));
            self.remove_error(key.bytes.as_slice(), key.id, Ghost((rid + 1) as u64));
            let msg = copy_opt_bytes(&self.sessions[i].params.migrate_msg);
            cmds.push(UpgradeCommand { contract: addr, new_code_id: to, msg, reply_id: rid });
            proof {
                let prev = ks.take(k as int);
                let cur = ks.take(k + 1);
                assert(cur =~= prev.push(kv));
                prev.lemma_push_to_set_commute(kv);
                assert(cur.to_set() =~= prev.to_set().insert(kv));
                assert(self.error_keys() =~= s1.error_keys().difference(cur.to_set()));
                let pm = prev.map_values(|x: KeyView| x.1);
                let cm = cur.map_values(|x: KeyView| x.1);
                assert(cm =~= pm.push(kv.1));
                assert(cm.drop_last() =~= pm);
                assert(add_replies(s1.replies(), f0.next_reply_id(), name@, cm) == add_replies(
                    s1.replies(),
                    f0.next_reply_id(),
                    name@,
                    pm,
                ).insert(rid, (name@, kv.1)));
            }
            k = k + 1;
        }
        assert(ks.take(k as int) =~= ks);
        let status = copy_status(&self.sessions[i].status);
        let cursor = self.sessions[i].cursor;
        let ns = self.sessions[i].n_success;
        let ne = self.sessions[i].n_error;
        let ne2 = if ne as usize >= keys.len() {
            ne - keys.len() as u32
        } else {
            0
        };
        if keys.len() < batch as usize {
            self.set_progress(i, MigrationStatus::Complete, cursor, None, ns, ne2, Ghost(f.next_reply_id()));
        } else {
            let last = keys[keys.len() - 1].id;
            self.set_progress(i, status, cursor, Some(last), ns, ne2, Ghost(f.next_reply_id()));
        }
        proof {
            assert(s1.sessions() == s0.sessions().insert(name@, m));
            assert(s1.error_keys() == s0.error_keys());
            assert(s1.errors@ == s0.errors@);
            assert(s1.replies() == s0.replies());
            assert forall|x: KeyView| #[trigger] s1.error_address(x) == s0.error_address(x) by {}
        }
        Ok(cmds)
    }

    /// Ends session `name`: removes it and all of its error entries. Replies
    /// that arrive later for it are dropped.
    pub fn exec_cancel_migration(&mut self, f: &Factory, name: &String) -> (r: Result<(), ContractError>)
        requires
            old(self).wf(f.next_reply_id()),
        ensures
            final(self).wf(f.next_reply_id()),
            r is Ok,
            final(self).sessions() == old(self).sessions().remove(name@),
            forall|k: KeyView| #[trigger] final(self).error_keys().contains(k) <==> (old(self).error_keys().contains(k) && k.0 != str_bytes(name@)),
            final(self).replies() == old(self).replies(),
    {
        let ghost nr = f.next_reply_id();
        let ghost s0 = *self;
        if let Some(i) = self.find_session(name, Ghost(nr)) {
            self.remove_session(i, Ghost(nr));
        } else {
            assert(self.session_map@ =~= self.session_map@.remove(name@));
        }
        let ghost s1 = *self;
        let nb = copy_bytes(name.as_str().as_bytes());
        let all = self.errors.all_keys();
        let ghost ks = keys_view(all@);
        let mut k: usize = 0;
        while k < all.len()
            invariant
                self.wf(nr),
                k <= all@.len(),
                ks == keys_view(all@),
                ks == s1.errors@,
                nb@ == str_bytes(name@),
                self.sessions() == s1.sessions(),
                self.replies() == s1.replies(),
                forall|x: KeyView| #[trigger] self.error_keys().contains(x) <==> (s1.error_keys().contains(x)
                    && !(x.0 == nb@ && ks.take(k as int).contains(x))),
            decreases all@.len() - k,
        {
            let key = &all[k];
            let ghost kv = key@;
            assert(kv == ks[k as int]);
            assert(ks.take(k + 1) =~= ks.take(k as int).push(kv));
            proof {
                assert forall|x: KeyView| #[trigger] ks.take(k + 1).contains(x) <==> (ks.take(
                    k as int,
                ).contains(x) || x == kv) by {
                    if ks.take(k + 1).contains(x) {
                        let j = choose|j: int| 0 <= j < k + 1 && #[trigger] ks.take(k + 1)[j] == x;
                        if j < k {
                            assert(ks.take(k as int)[j] == x);
                        }
                    }
                    if ks.take(k as int).contains(x) {
                        let j = choose|j: int| 0 <= j < k && #[trigger] ks.take(k as int)[j] == x;
                        assert(ks.take(k + 1)[j] == x);
                    }
                    if x == kv {
                        assert(ks.take(k + 1)[k as int] == x);
                    }
                }
            }
            if compare_bytes(key.bytes.as_slice(), nb.as_slice()) == 0 {
                self.remove_error(key.bytes.as_slice(), key.id, Ghost(nr));
            }
            k = k + 1;
        }
        proof {
            assert(ks.take(k as int) =~= ks);
            assert forall|x: KeyView| #[trigger] self.error_keys().contains(x) <==> (s0.error_keys().contains(x)
                && x.0 != str_bytes(name@)) by {
                assert(s1.error_keys() == s0.error_keys());
                if s1.error_keys().contains(x) {
                    assert(ks.contains(x));
                }
            }
        }
        Ok(())
    }

    /// Removes the session at position `i`.
    fn remove_session(&mut self, i: usize, Ghost(next_reply): Ghost<u64>)
        requires
            old(self).wf(next_reply),
            i < old(self).sessions@.len(),
        ensures
            final(self).wf(next_reply),
            final(self).sessions() == old(self).sessions().remove(old(self).sessions@[i as int].params.name@),
            final(self).replies() == old(self).replies(),
            final(self).error_keys() == old(self).error_keys(),
            final(self).error_seq() == old(self).error_seq(),
    {
        let ghost before = *self;
        let ghost n = self.sessions@[i as int].params.name@;
        self.sessions.remove(i);
        self.session_map = Ghost(before.session_map@.remove(n));
        proof {
            assert(self.sessions@ =~= before.sessions@.remove(i as int));
            assert(self.replies == before.replies);
            assert(self.reply_map == before.reply_map);
            assert(self.errors == before.errors);
            assert forall|j: int|
                0 <= j < self.sessions@.len() implies self.session_map@.contains_key(
                (#[trigger] self.sessions@[j]).params.name@,
            ) && self.session_map@[self.sessions@[j].params.name@] == self.sessions@[j] by {
                let oj = if j < i { j } else { j + 1 };
                assert(self.sessions@[j] == before.sessions@[oj]);
                if oj < i {
                    assert(before.sessions@[oj].params.name@ != before.sessions@[i as int].params.name@);
                } else {
                    assert(before.sessions@[i as int].params.name@ != before.sessions@[oj].params.name@);
                }
            }
            assert forall|x: Seq<char>| #[trigger]
                self.session_map@.contains_key(x) implies exists|j: int|
                0 <= j < self.sessions@.len() && (#[trigger] self.sessions@[j]).params.name@ == x by {
                let j = choose|j: int|
                    0 <= j < before.sessions@.len() && (#[trigger] before.sessions@[j]).params.name@
                        == x;
                if j < i {
                    assert(self.sessions@[j].params.name@ == x);
                } else {
                    assert(j != i);
                    assert(self.sessions@[j - 1].params.name@ == x);
                }
            }
            assert forall|a: int, b: int|
                0 <= a < b < self.sessions@.len() implies (#[trigger] self.sessions@[a]).params.name@
                != (#[trigger] self.sessions@[b]).params.name@ by {
                let oa = if a < i { a } else { a + 1 };
                let ob = if b < i { b } else { b + 1 };
                assert(self.sessions@[a] == before.sessions@[oa]);
                assert(self.sessions@[b] == before.sessions@[ob]);
                assert(before.sessions@[oa].params.name@ != before.sessions@[ob].params.name@);
            }
        }
    }
    /// Drops the error details of record `id` in the session whose name has
    /// the bytes `nb`.
    fn drop_details(&mut self, nb: &[u8], id: u32)
        ensures
            final(self).sessions == old(self).sessions,
            final(self).session_map == old(self).session_map,
            final(self).replies == old(self).replies,
            final(self).reply_map == old(self).reply_map,
            final(self).errors == old(self).errors,
    {
        let mut kept: Vec<ErrorEntry> = Vec::new();
        while self.error_details.len() > 0
            invariant
                self.sessions == old(self).sessions,
                self.session_map == old(self).session_map,
                self.replies == old(self).replies,
                self.reply_map == old(self).reply_map,
                self.errors == old(self).errors,
            decreases self.error_details@.len(),
        {
            let e = self.error_details.remove(0);
            let same = e.id == id && compare_bytes(e.session.as_str().as_bytes(), nb) == 0;
            if !same {
                kept.push(e);
            }
        }
        self.error_details = kept;
    }

    /// The session named `name`.
    pub fn session(&self, f: &Factory, name: &String) -> (r: Option<&Migration>)
        requires
            self.wf(f.next_reply_id()),
        ensures
            r matches Some(m) ==> self.sessions().contains_key(name@) && *m == self.sessions()[name@],
            r is None ==> !self.sessions().contains_key(name@),
    {
        match self.find_session(name, Ghost(f.next_reply_id())) {
            Some(i) => Some(&self.sessions[i]),
            None => None,
        }
    }

    /// A session's state and its recorded errors.
    pub fn query_migration_session(&self, f: &Factory, name: &String) -> (r: Result<MigrationSessionResponse, ContractError>)
        requires
            self.wf(f.next_reply_id()),
        ensures
            !self.sessions().contains_key(name@) <==> r is Err,
            r is Err ==> r == Err::<MigrationSessionResponse, ContractError>(ContractError::NotFound),
            r matches Ok(resp) ==> {
                let m = self.sessions()[name@];
                &&& resp.params.name == m.params.name
                &&& resp.params.batch_size == m.params.batch_size
                &&& resp.params.error_strategy == m.params.error_strategy
                &&& opt_bytes(resp.params.migrate_msg) == opt_bytes(m.params.migrate_msg)
                &&& resp.params.from_code_id == m.params.from_code_id
                &&& resp.params.to_code_id == m.params.to_code_id
                &&& resp.status == m.status
                &&& resp.cursor == m.cursor
                &&& resp.retry_cursor == m.retry_cursor
                &&& resp.n_success == m.n_success
                &&& resp.n_error == m.n_error
                &&& resp.errors@.len() == self.session_error_keys(name@).len()
                &&& forall|j: int|
                    0 <= j < resp.errors@.len() ==> self.error_address(
                        #[trigger] self.session_error_keys(name@)[j],
                    ) == Some(resp.errors@[j].contract@)
            },
    {
        let i = match self.find_session(name, Ghost(f.next_reply_id())) {
            Some(i) => i,
            None => {
                return Err(ContractError::NotFound);
            },
        };
        let m = &self.sessions[i];
        let strategy = match m.params.error_strategy {
            MigrationErrorStrategy::Abort => MigrationErrorStrategy::Abort,
            MigrationErrorStrategy::Retry => MigrationErrorStrategy::Retry,
        };
        let params = MigrationParams {
            name: m.params.name.clone(),
            batch_size: m.params.batch_size,
            error_strategy: strategy,
            migrate_msg: copy_opt_bytes(&m.params.migrate_msg),
            from_code_id: m.params.from_code_id,
            to_code_id: m.params.to_code_id,
        };
        let nb = copy_bytes(name.as_str().as_bytes());
        let lo = Some(RangeQueryBound::Inclusive(IndexKey::new(copy_bytes(nb.as_slice()), 0)));
        let hi = Some(RangeQueryBound::Inclusive(IndexKey::new(copy_bytes(nb.as_slice()), u32::MAX)));
        let no_bytes: Vec<u8> = Vec::new();
        let n = self.errors.len();
        let keys = self.errors.scan(no_bytes.as_slice(), &lo, &hi, false, n);
        let ghost ks = self.session_error_keys(name@);
        proof {
            assert(no_bytes@ =~= Seq::<u8>::empty());
            assert(bound_view(lo) == error_lo(str_bytes(name@), None));
            assert(bound_view(hi) == error_hi(str_bytes(name@)));
            lemma_sel_fwd_len(self.errors@, Seq::empty(), bound_view(lo), bound_view(hi));
            assert(keys_view(keys@) == ks);
        }
        let mut errors: Vec<MigrationError> = Vec::new();
        let mut j: usize = 0;
        while j < keys.len()
            invariant
                self.wf(f.next_reply_id()),
                keys_view(keys@) == ks,
                ks == scan_spec(self.errors@, Seq::empty(), bound_view(lo), bound_view(hi), false, n as nat),
                j <= keys@.len(),
                errors@.len() == j,
                forall|k: int| 0 <= k < j ==> self.error_address(#[trigger] ks[k]) == Some(errors@[k].contract@),
            decreases keys@.len() - j,
        {
            let key = &keys[j];
            proof {
                lemma_scan_member(self.errors@, Seq::empty(), bound_view(lo), bound_view(hi), false, n as nat, j as int);
                assert(keys_view(keys@)[j as int] == key@);
                assert(self.errors.keys().contains(key@));
            }
            let contract = match self.errors.value_of(key.bytes.as_slice(), key.id) {
                Some(IndexValue::String(a)) => a,
                _ => {
                    assert(false);
                    String::new()
                },
            };
            let (error, reply_id) = self.detail_of(name, key.id);
            errors.push(MigrationError { contract, error, reply_id });
            j = j + 1;
        }
        Ok(MigrationSessionResponse {
            errors,
            params,
            status: copy_status(&m.status),
            cursor: m.cursor,
            retry_cursor: m.retry_cursor,
            n_success: m.n_success,
            n_error: m.n_error,
        })
    }
    /// The message and correlation id recorded with the error of record `id`
    /// in session `name`.
    fn detail_of(&self, name: &String, id: u32) -> (String, u64) {
        let mut j: usize = 0;
        while j < self.error_details.len()
            invariant
                j <= self.error_details@.len(),
            decreases self.error_details@.len() - j,
        {
            let e = &self.error_details[j];
            if e.id == id && e.session == *name {
                return (e.error.error.clone(), e.error.reply_id);
            }
            j = j + 1;
        }
        (String::new(), 0)
    }

    /// Whether correlation id `reply_id` was handed out for a migration.
    pub fn has_reply(&self, f: &Factory, reply_id: u64) -> (r: bool)
        requires
            self.wf(f.next_reply_id()),
        ensures
            r == self.replies().contains_key(reply_id),
    {
        self.find_reply(reply_id, Ghost(f.next_reply_id())).is_some()
    }
}

} // verus!
