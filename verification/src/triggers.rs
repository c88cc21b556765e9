//! The trigger collection: a write-through cache of message-matching
//! rules. The cache is the authoritative in-memory mapping from id to
//! trigger; every mutation goes to the store first and to the cache only
//! after the store reported success, so a store failure leaves the cache
//! untouched.

use vstd::prelude::*;
use crate::headers::DecodeError;
use crate::headers::Headers;
use crate::headers::HeaderPair;
use crate::headers::build_headers;
use crate::headers::decode_headers_spec;
use crate::headers::headers_wf;
use crate::headers::unbuild_headers;
use crate::store::StoreError;
use crate::store::TriggerRow;
use crate::store::exec_insert_trigger;
use crate::store::exec_remove_trigger;
use crate::store::exec_update_trigger;
use crate::store::last_insert_id;
use crate::store::query_trigger_rows;

verus! {

/// A message-matching rule with its response headers.
#[derive(Debug, Clone)]
pub struct Trigger {
    /// Assigned by the store on creation; never client-supplied on add.
    pub id: u32,
    pub msg_type: String,
    pub expression: String,
    pub description: String,
    pub is_active: bool,
    pub headers: Headers,
}

/// The mathematical value of a trigger.
pub struct TriggerV {
    pub id: u32,
    pub msg_type: Seq<char>,
    pub expression: Seq<char>,
    pub description: Seq<char>,
    pub is_active: bool,
    pub headers: Seq<HeaderPair>,
}

impl View for Trigger {
    type V = TriggerV;

    open spec fn view(&self) -> TriggerV {
        TriggerV {
            id: self.id,
            msg_type: self.msg_type@,
            expression: self.expression@,
            description: self.description@,
            is_active: self.is_active,
            headers: self.headers@,
        }
    }
}

impl Trigger {
    /// The held header mapping is well-formed.
    pub open spec fn wf(&self) -> bool {
        self.headers.wf()
    }
}

/// The same trigger under another id.
pub open spec fn with_id(t: TriggerV, id: u32) -> TriggerV {
    TriggerV {
        id,
        msg_type: t.msg_type,
        expression: t.expression,
        description: t.description,
        is_active: t.is_active,
        headers: t.headers,
    }
}

/// Whether some entry of `s` carries the id.
pub open spec fn has_id(s: Seq<TriggerV>, id: u32) -> bool {
    exists|i: int| 0 <= i < s.len() && s[i].id == id
}

/// The position of the entry carrying `id`.
pub open spec fn idx_of(s: Seq<TriggerV>, id: u32) -> int {
    choose|i: int| 0 <= i < s.len() && s[i].id == id
}

/// Ids pairwise distinct and every entry's header mapping well-formed.
pub open spec fn cache_wf(s: Seq<TriggerV>) -> bool {
    &&& forall|i: int, j: int| 0 <= i < j < s.len() ==> s[i].id != s[j].id
    &&& forall|i: int| 0 <= i < s.len() ==> headers_wf(#[trigger] s[i].headers)
}

/// Replace the entry carrying `t.id`, or append `t` when none does.
pub open spec fn upsert(s: Seq<TriggerV>, t: TriggerV) -> Seq<TriggerV> {
    if has_id(s, t.id) {
        s.update(idx_of(s, t.id), t)
    } else {
        s.push(t)
    }
}

/// Drop the entry carrying `id`, if any.
pub open spec fn remove_id(s: Seq<TriggerV>, id: u32) -> Seq<TriggerV> {
    if has_id(s, id) {
        s.remove(idx_of(s, id))
    } else {
        s
    }
}

/// What one persisted row decodes to; `None` on a malformed header field.
pub open spec fn decode_row_spec(row: TriggerRow) -> Option<TriggerV> {
    match decode_headers_spec(row.headers@) {
        Some(hs) => Some(
            TriggerV {
                id: row.id,
                msg_type: row.msg_type@,
                expression: row.expression@,
                description: row.description@,
                is_active: row.is_active,
                headers: hs,
            },
        ),
        None => None,
    }
}

/// What a full load of the table yields: every row decoded, in order,
/// folded by id so that a later row under the same id replaces an earlier
/// one; `None` as soon as any row is malformed.
pub open spec fn load_spec(rows: Seq<TriggerRow>) -> Option<Seq<TriggerV>>
    decreases rows.len(),
{
    if rows.len() == 0 {
        Some(Seq::empty())
    } else {
        match (load_spec(rows.drop_last()), decode_row_spec(rows.last())) {
            (Some(acc), Some(t)) => Some(upsert(acc, t)),
            _ => None,
        }
    }
}

/// The views of an executable trigger list.
pub open spec fn triggers_view(v: Seq<Trigger>) -> Seq<TriggerV> {
    Seq::new(v.len(), |i: int| v[i]@)
}

/// Why an update was refused.
#[derive(Debug)]
pub enum UpdateError {
    /// No cached entity carries the given id; the store was not touched.
    NotFound,
    /// The store refused the statement; the cache is unchanged.
    Store(StoreError),
}

/// Why a load from the store failed.
#[derive(Debug)]
pub enum LoadError {
    /// The store refused the query.
    Store(StoreError),
    /// A persisted row is malformed: fatal, the cache is not replaced.
    Decode(DecodeError),
}

/// Upserting keeps ids unique and header mappings well-formed.
pub proof fn lemma_upsert_wf(s: Seq<TriggerV>, t: TriggerV)
    requires
        cache_wf(s),
        headers_wf(t.headers),
    ensures
        cache_wf(upsert(s, t)),
        has_id(upsert(s, t), t.id),
{
    let r = upsert(s, t);
    if has_id(s, t.id) {
        let k = idx_of(s, t.id);
        assert(0 <= k < s.len() && s[k].id == t.id);
        assert forall|i: int, j: int| 0 <= i < j < r.len() implies r[i].id != r[j].id by {
            if i != k && j != k {
                assert(r[i] == s[i] && r[j] == s[j]);
            } else if i == k {
                assert(s[i].id == t.id && r[j] == s[j]);
            } else {
                assert(s[j].id == t.id && r[i] == s[i]);
            }
        }
        assert(r[k].id == t.id);
    } else {
        assert forall|i: int, j: int| 0 <= i < j < r.len() implies r[i].id != r[j].id by {
            if j == s.len() {
                assert(r[j] == t);
                assert(!(s[i].id == t.id));
            }
        }
        assert(r[s.len() as int].id == t.id);
    }
    assert forall|i: int| 0 <= i < r.len() implies headers_wf(#[trigger] r[i].headers) by {
        if r[i] != t {
            assert(r[i] == s[i]);
        }
    }
}

/// Dropping an id keeps ids unique and header mappings well-formed.
pub proof fn lemma_remove_id_wf(s: Seq<TriggerV>, id: u32)
    requires
        cache_wf(s),
    ensures
        cache_wf(remove_id(s, id)),
        !has_id(remove_id(s, id), id),
{
    let r = remove_id(s, id);
    if has_id(s, id) {
        let k = idx_of(s, id);
        assert(0 <= k < s.len() && s[k].id == id);
        assert forall|i: int, j: int| 0 <= i < j < r.len() implies r[i].id != r[j].id by {
            let i0 = if i < k {
                i
            } else {
                i + 1
            };
            let j0 = if j < k {
                j
            } else {
                j + 1
            };
            assert(r[i] == s[i0] && r[j] == s[j0]);
        }
        assert forall|i: int| 0 <= i < r.len() implies headers_wf(#[trigger] r[i].headers) by {
            let i0 = if i < k {
                i
            } else {
                i + 1
            };
            assert(r[i] == s[i0]);
        }
        assert forall|i: int| 0 <= i < r.len() implies r[i].id != id by {
            let i0 = if i < k {
                i
            } else {
                i + 1
            };
            assert(r[i] == s[i0]);
            if i0 != k {
                assert(s[i0].id != s[k].id);
            }
        }
    }
}

/// In a cache with unique ids, the entry carrying an id is the only one:
/// after a successful `add` or `update` of `t`, a lookup of `t.id` meets
/// exactly one entity, and it is `t`.
pub proof fn lemma_unique_entry(s: Seq<TriggerV>, id: u32)
    requires
        cache_wf(s),
        has_id(s, id),
    ensures
        0 <= idx_of(s, id) < s.len(),
        s[idx_of(s, id)].id == id,
        forall|j: int| 0 <= j < s.len() && s[j].id == id ==> j == idx_of(s, id),
{
    let k = idx_of(s, id);
    assert(0 <= k < s.len() && s[k].id == id);
    assert forall|j: int| 0 <= j < s.len() && s[j].id == id implies j == k by {
        if j < k {
            assert(s[j].id != s[k].id);
        } else if j > k {
            assert(s[k].id != s[j].id);
        }
    }
}

/// Upserting `t` places `t` at the entry carrying `t.id` and leaves every
/// other entry as it stands.
pub proof fn lemma_upsert_entries(s: Seq<TriggerV>, t: TriggerV)
    requires
        cache_wf(s),
    ensures
        has_id(upsert(s, t), t.id),
        forall|i: int|
            0 <= i < upsert(s, t).len() && upsert(s, t)[i].id == t.id ==> upsert(s, t)[i] == t,
        forall|i: int|
            0 <= i < upsert(s, t).len() && upsert(s, t)[i].id != t.id ==> has_id(
                s,
                upsert(s, t)[i].id,
            ),
        forall|x: u32| x != t.id ==> (has_id(upsert(s, t), x) <==> has_id(s, x)),
{
    let r = upsert(s, t);
    if has_id(s, t.id) {
        let k = idx_of(s, t.id);
        lemma_unique_entry(s, t.id);
        assert(r[k] == t);
        assert forall|i: int| 0 <= i < r.len() && r[i].id == t.id implies r[i] == t by {
            if i != k {
                assert(r[i] == s[i]);
            }
        }
        assert forall|i: int| 0 <= i < r.len() && r[i].id != t.id implies has_id(s, r[i].id) by {
            assert(i != k);
            assert(r[i] == s[i]);
        }
        assert forall|x: u32| x != t.id implies (has_id(r, x) <==> has_id(s, x)) by {
            if has_id(r, x) {
                let i = choose|i: int| 0 <= i < r.len() && r[i].id == x;
                assert(i != k);
                assert(s[i].id == x);
            }
            if has_id(s, x) {
                let i = choose|i: int| 0 <= i < s.len() && s[i].id == x;
                assert(i != k);
                assert(r[i].id == x);
            }
        }
    } else {
        let n = s.len() as int;
        assert(r[n] == t);
        assert forall|i: int| 0 <= i < r.len() && r[i].id == t.id implies r[i] == t by {
            if i < n {
                assert(r[i] == s[i]);
                assert(has_id(s, t.id));
            }
        }
        assert forall|i: int| 0 <= i < r.len() && r[i].id != t.id implies has_id(s, r[i].id) by {
            assert(i != n);
            assert(r[i] == s[i]);
        }
        assert forall|x: u32| x != t.id implies (has_id(r, x) <==> has_id(s, x)) by {
            if has_id(r, x) {
                let i = choose|i: int| 0 <= i < r.len() && r[i].id == x;
                assert(i != n);
                assert(s[i].id == x);
            }
            if has_id(s, x) {
                let i = choose|i: int| 0 <= i < s.len() && s[i].id == x;
                assert(r[i].id == x);
            }
        }
    }
}

/// A committed add under a fresh id grows the collection by exactly one
/// entry and loses none: after N adds under pairwise distinct fresh ids,
/// the collection holds its starting entries plus the N new ones.
pub proof fn lemma_fresh_add_grows(s: Seq<TriggerV>, t: TriggerV)
    requires
        !has_id(s, t.id),
    ensures
        upsert(s, t).len() == s.len() + 1,
        upsert(s, t)[s.len() as int] == t,
        forall|i: int| 0 <= i < s.len() ==> upsert(s, t)[i] == s[i],
{
}

/// Dropping an id drops that entry alone: every other id is kept, with
/// its entry as it stands.
pub proof fn lemma_remove_id_entries(s: Seq<TriggerV>, id: u32)
    requires
        cache_wf(s),
    ensures
        !has_id(remove_id(s, id), id),
        forall|x: u32| x != id ==> (has_id(remove_id(s, id), x) <==> has_id(s, x)),
{
    lemma_remove_id_wf(s, id);
    let r = remove_id(s, id);
    if has_id(s, id) {
        let k = idx_of(s, id);
        lemma_unique_entry(s, id);
        assert forall|x: u32| x != id implies (has_id(r, x) <==> has_id(s, x)) by {
            if has_id(r, x) {
                let i = choose|i: int| 0 <= i < r.len() && r[i].id == x;
                let i0 = if i < k {
                    i
                } else {
                    i + 1
                };
                assert(r[i] == s[i0]);
                assert(s[i0].id == x);
            }
            if has_id(s, x) {
                let i = choose|i: int| 0 <= i < s.len() && s[i].id == x;
                assert(i != k);
                let i0 = if i < k {
                    i
                } else {
                    i - 1
                };
                assert(r[i0] == s[i]);
                assert(r[i0].id == x);
            }
        }
    }
}

/// Find the position of the entry carrying `id`, if any.
fn find_index(v: &Vec<Trigger>, id: u32) -> (r: Option<usize>)
    ensures
        match r {
            Some(j) => j < v@.len() && triggers_view(v@)[j as int].id == id && has_id(
                triggers_view(v@),
                id,
            ),
            None => !has_id(triggers_view(v@), id),
        },
{
    let n = v.len();
    let mut i: usize = 0;
    while i < n
        invariant
            i <= n,
            n == v@.len(),
            forall|j: int| 0 <= j < i ==> triggers_view(v@)[j].id != id,
        decreases n - i,
    {
        if v[i].id == id {
            proof {
                assert(triggers_view(v@)[i as int] == v@[i as int]@);
            }
            return Some(i);
        }
        proof {
            assert(triggers_view(v@)[i as int] == v@[i as int]@);
        }
        i = i + 1;
    }
    None
}

/// Apply a committed write to the cache: replace the entry carrying
/// `t.id`, or append `t` when none does.
fn cache_put(v: &mut Vec<Trigger>, t: Trigger)
    requires
        cache_wf(triggers_view(old(v)@)),
        t.wf(),
    ensures
        triggers_view(final(v)@) == upsert(triggers_view(old(v)@), t@),
        cache_wf(triggers_view(final(v)@)),
{
    let ghost s = triggers_view(v@);
    proof {
        lemma_upsert_wf(s, t@);
    }
    match find_index(v, t.id) {
        Some(j) => {
            proof {
                lemma_unique_entry(s, t@.id);
                assert(idx_of(s, t@.id) == j as int);
            }
            let ghost before = v@;
            v.remove(j);
            v.insert(j, t);
            proof {
                assert forall|i: int| 0 <= i < v@.len() implies triggers_view(v@)[i] == upsert(
                    s,
                    t@,
                )[i] by {
                    assert(triggers_view(v@)[i] == v@[i]@);
                    if i != j as int {
                        assert(v@[i] == before[i]);
                        assert(triggers_view(before)[i] == before[i]@);
                    }
                }
                assert(triggers_view(v@) =~= upsert(s, t@));
            }
        },
        None => {
            let ghost before = v@;
            v.push(t);
            proof {
                assert forall|i: int| 0 <= i < v@.len() implies triggers_view(v@)[i] == upsert(
                    s,
                    t@,
                )[i] by {
                    assert(triggers_view(v@)[i] == v@[i]@);
                    if i < before.len() {
                        assert(v@[i] == before[i]);
                        assert(triggers_view(before)[i] == before[i]@);
                    }
                }
                assert(triggers_view(v@) =~= upsert(s, t@));
            }
        },
    }
}

/// Apply a committed delete to the cache: drop the entry carrying `id`.
fn cache_drop(v: &mut Vec<Trigger>, id: u32)
    requires
        cache_wf(triggers_view(old(v)@)),
    ensures
        triggers_view(final(v)@) == remove_id(triggers_view(old(v)@), id),
        cache_wf(triggers_view(final(v)@)),
{
    let ghost s = triggers_view(v@);
    proof {
        lemma_remove_id_wf(s, id);
    }
    match find_index(v, id) {
        Some(j) => {
            proof {
                lemma_unique_entry(s, id);
                assert(idx_of(s, id) == j as int);
            }
            let ghost before = v@;
            v.remove(j);
            proof {
                assert forall|i: int| 0 <= i < v@.len() implies triggers_view(v@)[i] == remove_id(
                    s,
                    id,
                )[i] by {
                    assert(triggers_view(v@)[i] == v@[i]@);
                    let i0 = if i < j as int {
                        i
                    } else {
                        i + 1
                    };
                    assert(v@[i] == before[i0]);
                    assert(triggers_view(before)[i0] == before[i0]@);
                }
                assert(triggers_view(v@) =~= remove_id(s, id));
            }
        },
        None => {
        },
    }
}

/// A malformed prefix makes the whole load malformed.
proof fn lemma_load_spec_prefix_none(rows: Seq<TriggerRow>, k: int)
    requires
        0 <= k <= rows.len(),
        load_spec(rows.take(k)) is None,
    ensures
        load_spec(rows) is None,
    decreases rows.len() - k,
{
    if k < rows.len() {
        assert(rows.take(k + 1).drop_last() =~= rows.take(k));
        lemma_load_spec_prefix_none(rows, k + 1);
    } else {
        assert(rows.take(k) =~= rows);
    }
}

/// The in-memory side of the trigger collection: the authoritative cache
/// of every persisted trigger, keyed by id.
pub struct TriggerService {
    triggers: Vec<Trigger>,
}

impl View for TriggerService {
    type V = Seq<TriggerV>;

    closed spec fn view(&self) -> Seq<TriggerV> {
        triggers_view(self.triggers@)
    }
}

impl TriggerService {
    /// Ids pairwise distinct, header mappings well-formed.
    pub open spec fn wf(&self) -> bool {
        cache_wf(self@)
    }

    /// Build the cache from a full read of the table: every row decoded,
    /// in order, a later duplicate id replacing an earlier one. Any row
    /// whose header field is malformed fails the whole load: the service
    /// refuses to start on partially decoded data.
    #[verifier::loop_isolation(false)]
    pub fn from_rows(rows: Vec<TriggerRow>) -> (r: Result<TriggerService, DecodeError>)
        ensures
            match r {
                Ok(s) => load_spec(rows@) == Some(s@) && s.wf(),
                Err(_) => load_spec(rows@) is None,
            },
    {
        let ghost all = rows@;
        let mut rows = rows;
        let mut cache: Vec<Trigger> = Vec::new();
        let ghost mut k: int = 0;
        proof {
            assert(rows@ =~= all.skip(0));
            assert(all.take(0) =~= Seq::<TriggerRow>::empty());
            assert(triggers_view(cache@) =~= Seq::<TriggerV>::empty());
        }
        while rows.len() > 0
            invariant
                0 <= k <= all.len(),
                rows@ == all.skip(k),
                load_spec(all.take(k)) == Some(triggers_view(cache@)),
                cache_wf(triggers_view(cache@)),
            decreases rows@.len(),
        {
            proof {
                assert(all.skip(k).len() == all.len() - k);
            }
            let ghost old_rows = rows@;
            let row = rows.remove(0);
            proof {
                assert(old_rows[0] == all.skip(k)[0]);
                assert(all.skip(k)[0] == all[k]);
            }
            let h = match build_headers(row.headers.as_str()) {
                Ok(h) => h,
                Err(e) => {
                    proof {
                        assert(decode_row_spec(all[k]) is None);
                        assert(all.take(k + 1).drop_last() =~= all.take(k));
                        assert(all.take(k + 1).last() == all[k]);
                        assert(load_spec(all.take(k + 1)) is None);
                        lemma_load_spec_prefix_none(all, k + 1);
                    }
                    return Err(e);
                },
            };
            let t = Trigger {
                id: row.id,
                msg_type: row.msg_type,
                expression: row.expression,
                description: row.description,
                is_active: row.is_active,
                headers: h,
            };
            proof {
                assert(decode_row_spec(all[k]) == Some(t@));
                assert(all.take(k + 1).drop_last() =~= all.take(k));
                assert(all.take(k + 1).last() == all[k]);
            }
            cache_put(&mut cache, t);
            proof {
                k = k + 1;
                assert(rows@ =~= all.skip(k));
            }
        }
        proof {
            assert(all.take(k) =~= all);
        }
        Ok(TriggerService { triggers: cache })
    }

    /// Load the collection from the store. A store failure or a malformed
    /// row is a fatal startup error: no partially loaded service is
    /// handed out.
    pub fn new(conn: &rusqlite::Connection) -> (r: Result<TriggerService, LoadError>)
        ensures
            r is Ok ==> r->Ok_0.wf(),
    {
        let rows = match query_trigger_rows(conn) {
            Ok(rows) => rows,
            Err(e) => {
                return Err(LoadError::Store(e));
            },
        };
        match TriggerService::from_rows(rows) {
            Ok(s) => Ok(s),
            Err(e) => Err(LoadError::Decode(e)),
        }
    }

    /// Reload the whole cache from the store, discarding in-memory state;
    /// the corrective operation after an external store change. On any
    /// failure the held cache stands unchanged.
    pub fn refresh(&mut self, conn: &rusqlite::Connection) -> (r: Result<(), LoadError>)
        requires
            old(self).wf(),
        ensures
            final(self).wf(),
            r is Err ==> final(self)@ == old(self)@,
    {
        let rows = match query_trigger_rows(conn) {
            Ok(rows) => rows,
            Err(e) => {
                return Err(LoadError::Store(e));
            },
        };
        match TriggerService::from_rows(rows) {
            Ok(s) => {
                self.triggers = s.triggers;
                Ok(())
            },
            Err(e) => Err(LoadError::Decode(e)),
        }
    }

    /// The cached triggers: a consistent snapshot of the collection.
    pub fn list(&self) -> (r: &Vec<Trigger>)
        ensures
            triggers_view(r@) == self@,
    {
        &self.triggers
    }

    /// Add a trigger: store first, cache second. The store assigns the
    /// id, which is returned; the candidate's own id is ignored. On a
    /// store failure the cache is untouched and the error is surfaced.
    pub fn add_trigger(&mut self, conn: &rusqlite::Connection, trigger: Trigger) -> (r: Result<
        u32,
        StoreError,
    >)
        requires
            old(self).wf(),
            trigger.wf(),
        ensures
            final(self).wf(),
            match r {
                Ok(id) => final(self)@ == upsert(old(self)@, with_id(trigger@, id)),
                Err(_) => final(self)@ == old(self)@,
            },
    {
        let ghost tv = trigger@;
        let encoded = unbuild_headers(&trigger.headers);
        match exec_insert_trigger(
            conn,
            trigger.msg_type.as_str(),
            trigger.expression.as_str(),
            encoded.as_str(),
            trigger.description.as_str(),
            trigger.is_active,
        ) {
            Ok(_) => {
                let id = last_insert_id(conn);
                let mut t = trigger;
                t.id = id;
                proof {
                    assert(t@ == with_id(tv, id));
                }
                cache_put(&mut self.triggers, t);
                Ok(id)
            },
            Err(e) => Err(e),
        }
    }

    /// Remove a trigger by id: store first, cache second. An id absent
    /// from the store deletes zero rows, which the store reports as
    /// success, and the cache removal proceeds: the operation is
    /// idempotent.
    pub fn remove_trigger(&mut self, conn: &rusqlite::Connection, id: u32) -> (r: Result<
        (),
        StoreError,
    >)
        requires
            old(self).wf(),
        ensures
            final(self).wf(),
            match r {
                Ok(_) => final(self)@ == remove_id(old(self)@, id),
                Err(_) => final(self)@ == old(self)@,
            },
    {
        match exec_remove_trigger(conn, id) {
            Ok(_) => {
                cache_drop(&mut self.triggers, id);
                Ok(())
            },
            Err(e) => Err(e),
        }
    }

    /// Update a trigger under its existing id. An id absent from the
    /// cache fails with `NotFound` before any store statement is issued,
    /// leaving cache and store as they stand; otherwise the store is
    /// written first and the cache entry replaced wholesale after.
    pub fn update_trigger(&mut self, conn: &rusqlite::Connection, trigger: Trigger) -> (r: Result<
        (),
        UpdateError,
    >)
        requires
            old(self).wf(),
            trigger.wf(),
        ensures
            final(self).wf(),
            match r {
                Ok(_) => has_id(old(self)@, trigger@.id) && final(self)@ == upsert(
                    old(self)@,
                    trigger@,
                ),
                Err(UpdateError::NotFound) => !has_id(old(self)@, trigger@.id) && final(self)@
                    == old(self)@,
                Err(UpdateError::Store(_)) => has_id(old(self)@, trigger@.id) && final(self)@
                    == old(self)@,
            },
    {
        if find_index(&self.triggers, trigger.id).is_none() {
            return Err(UpdateError::NotFound);
        }
        let encoded = unbuild_headers(&trigger.headers);
        match exec_update_trigger(
            conn,
            trigger.msg_type.as_str(),
            trigger.expression.as_str(),
            encoded.as_str(),
            trigger.description.as_str(),
            trigger.is_active,
            trigger.id,
        ) {
            Ok(_) => {
                cache_put(&mut self.triggers, trigger);
                Ok(())
            },
            Err(e) => Err(UpdateError::Store(e)),
        }
    }
}

} // verus!
