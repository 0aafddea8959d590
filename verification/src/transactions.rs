//! Buffered transaction operations and their replay into a dataset.
use vstd::prelude::*;
use dashmap::DashMap;
use std::time::{Duration, Instant};
use crate::store::{
    Quad, QuadModel, QuadStore, quads_view, insert_all, remove_all,
    lemma_insert_all_contains, lemma_remove_all_contains, lemma_filter_contains,
};
use crate::text::push_str;
use crate::cdc::{instant_now, new_uuid_text, is_uuid_v4_text};

verus! {

/// A buffered operation within a transaction.
#[derive(Clone, Debug)]
pub enum BufferedOp {
    InsertQuads(Vec<Quad>),
    RemoveQuads(Vec<Quad>),
    SparqlUpdate(String),
}

/// Plain-value model of a buffered operation.
pub enum OpModel {
    InsertQuads(Seq<QuadModel>),
    RemoveQuads(Seq<QuadModel>),
    SparqlUpdate(Seq<char>),
}

impl View for BufferedOp {
    type V = OpModel;

    open spec fn view(&self) -> OpModel {
        match self {
            BufferedOp::InsertQuads(qs) => OpModel::InsertQuads(quads_view(qs@)),
            BufferedOp::RemoveQuads(qs) => OpModel::RemoveQuads(quads_view(qs@)),
            BufferedOp::SparqlUpdate(s) => OpModel::SparqlUpdate(s@),
        }
    }
}

/// Plain-value model of a sequence of operations.
pub open spec fn ops_view(ops: Seq<BufferedOp>) -> Seq<OpModel> {
    ops.map_values(|op: BufferedOp| op@)
}

/// Result of committing a transaction.
pub struct CommitResult {
    pub txn_id: String,
    pub ops: Vec<BufferedOp>,
}

/// Why a transaction operation failed.
#[derive(Debug)]
pub enum TransactionError {
    NotFound,
    Parse(String),
    Storage(String),
    Query(String),
}

/// Plain-value model of a transaction error.
pub enum TransactionErrorModel {
    NotFound,
    Parse(Seq<char>),
    Storage(Seq<char>),
    Query(Seq<char>),
}

impl View for TransactionError {
    type V = TransactionErrorModel;

    open spec fn view(&self) -> TransactionErrorModel {
        match self {
            TransactionError::NotFound => TransactionErrorModel::NotFound,
            TransactionError::Parse(e) => TransactionErrorModel::Parse(e@),
            TransactionError::Storage(e) => TransactionErrorModel::Storage(e@),
            TransactionError::Query(e) => TransactionErrorModel::Query(e@),
        }
    }
}

/// The message of a transaction error.
pub open spec fn transaction_error_text(e: TransactionErrorModel) -> Seq<char> {
    match e {
        TransactionErrorModel::NotFound => "Transaction not found or already committed/rolled back"@,
        TransactionErrorModel::Parse(m) => "RDF parse error: "@ + m,
        TransactionErrorModel::Storage(m) => "Storage error: "@ + m,
        TransactionErrorModel::Query(m) => "Query error: "@ + m,
    }
}

impl TransactionError {
    /// The message shown for this error.
    pub fn message(&self) -> (r: String)
        ensures
            r@ == transaction_error_text(self@),
    {
        let mut out = String::new();
        match self {
            TransactionError::NotFound => push_str(&mut out, "Transaction not found or already committed/rolled back"),
            TransactionError::Parse(e) => {
                push_str(&mut out, "RDF parse error: ");
                push_str(&mut out, e.as_str());
            }
            TransactionError::Storage(e) => {
                push_str(&mut out, "Storage error: ");
                push_str(&mut out, e.as_str());
            }
            TransactionError::Query(e) => {
                push_str(&mut out, "Query error: ");
                push_str(&mut out, e.as_str());
            }
        }
        out
    }
}

/// The dataset after applying one insert or remove operation (an update
/// leaves it unchanged here: it is run by the caller).
pub open spec fn apply_op(s: Seq<QuadModel>, op: OpModel) -> Seq<QuadModel> {
    match op {
        OpModel::InsertQuads(qs) => insert_all(s, qs),
        OpModel::RemoveQuads(qs) => remove_all(s, qs),
        OpModel::SparqlUpdate(_) => s,
    }
}

/// The dataset after applying the operations in order.
pub open spec fn apply_ops(s: Seq<QuadModel>, ops: Seq<OpModel>) -> Seq<QuadModel>
    decreases ops.len(),
{
    if ops.len() == 0 {
        s
    } else {
        apply_ops(apply_op(s, ops[0]), ops.drop_first())
    }
}

/// Index of the first SPARQL update among `ops[from..]`, or the length.
pub open spec fn next_update(ops: Seq<OpModel>, from: int) -> int
    decreases ops.len() - from,
{
    if from >= ops.len() {
        ops.len() as int
    } else if ops[from] is SparqlUpdate {
        from
    } else {
        next_update(ops, from + 1)
    }
}

/// Replays the insert and remove operations from `from` up to the first
/// SPARQL update (which the caller runs before replaying on from the next
/// index); returns the index where it stopped (the length when done).
pub fn replay_ops(store: &mut QuadStore, ops: &[BufferedOp], from: usize) -> (r: usize)
    requires
        from <= ops@.len(),
    ensures
        r == next_update(ops_view(ops@), from as int),
        final(store)@ == apply_ops(old(store)@, ops_view(ops@).subrange(from as int, r as int)),
{
    let ghost all = ops_view(ops@);
    let mut i = from;
    assert(all.subrange(from as int, from as int) =~= Seq::<OpModel>::empty());
    while i < ops.len()
        invariant
            from <= i <= ops@.len(),
            all == ops_view(ops@),
            next_update(all, from as int) == next_update(all, i as int),
            forall|j: int| from <= j < i ==> !(#[trigger] all[j] is SparqlUpdate),
            self_applied(old(store)@, all, from as int, i as int, store@),
        decreases ops@.len() - i,
    {
        let ghost before = store@;
        match &ops[i] {
            BufferedOp::InsertQuads(qs) => store.insert_quads(qs.as_slice()),
            BufferedOp::RemoveQuads(qs) => store.remove_quads(qs.as_slice()),
            BufferedOp::SparqlUpdate(_) => {
                return i;
            }
        }
        proof {
            lemma_apply_ops_push(old(store)@, all.subrange(from as int, i as int), all[i as int]);
            assert(all.subrange(from as int, i + 1) =~= all.subrange(from as int, i as int).push(all[i as int]));
        }
        i = i + 1;
    }
    i
}

/// `now` is the dataset `s` after the operations `ops[from..to]`.
pub open spec fn self_applied(s: Seq<QuadModel>, ops: Seq<OpModel>, from: int, to: int, now: Seq<QuadModel>) -> bool {
    now == apply_ops(s, ops.subrange(from, to))
}

/// Applying one more operation at the end.
pub proof fn lemma_apply_ops_push(s: Seq<QuadModel>, ops: Seq<OpModel>, op: OpModel)
    ensures
        apply_ops(s, ops.push(op)) == apply_op(apply_ops(s, ops), op),
    decreases ops.len(),
{
    if ops.len() == 0 {
        assert(ops.push(op).drop_first() =~= Seq::<OpModel>::empty());
        assert(ops.push(op)[0] == op);
        assert(apply_ops(apply_op(s, op), Seq::<OpModel>::empty()) == apply_op(s, op));
    } else {
        assert(ops.push(op).drop_first() =~= ops.drop_first().push(op));
        assert(ops.push(op)[0] == ops[0]);
        lemma_apply_ops_push(apply_op(s, ops[0]), ops.drop_first(), op);
    }
}

/// Index of the first SPARQL update among the operations, or their count.
pub fn first_update(ops: &[BufferedOp]) -> (r: usize)
    ensures
        r == next_update(ops_view(ops@), 0),
        r <= ops@.len(),
{
    let ghost all = ops_view(ops@);
    let mut i: usize = 0;
    while i < ops.len()
        invariant
            i <= ops@.len(),
            all == ops_view(ops@),
            next_update(all, 0) == next_update(all, i as int),
        decreases ops@.len() - i,
    {
        if let BufferedOp::SparqlUpdate(_) = &ops[i] {
            return i;
        }
        i = i + 1;
    }
    i
}

#[verifier::external_type_specification]
#[verifier::external_body]
#[verifier::reject_recursive_types(K)]
#[verifier::reject_recursive_types(V)]
#[verifier::reject_recursive_types(S)]
pub struct ExDashMap<K, V, S>(DashMap<K, V, S>);

/// Server-side state of one open transaction: its buffered operations and
/// when it was last used.
pub struct ActiveTransaction {
    ops: Vec<BufferedOp>,
    last_active: Instant,
}

/// What a table of open transactions holds: each transaction id mapped to
/// its buffered operations.
pub uninterp spec fn txn_table(m: DashMap<String, ActiveTransaction>) -> Map<Seq<char>, Seq<OpModel>>;

/// When each transaction of a table was last used: each transaction id
/// mapped to the instant stored with it.
pub uninterp spec fn txn_last_used(m: DashMap<String, ActiveTransaction>) -> Map<Seq<char>, Instant>;

/// An empty table (dashmap's `DashMap::new`).
#[verifier::external_body]
fn txn_table_new() -> (r: DashMap<String, ActiveTransaction>)
    ensures
        txn_table(r).is_empty(),
        txn_last_used(r).is_empty(),
{
    DashMap::new()
}

/// Inserts a transaction under an id, replacing any transaction held under
/// it (dashmap's `DashMap::insert`).
#[verifier::external_body]
fn txn_table_insert(m: &mut DashMap<String, ActiveTransaction>, id: String, t: ActiveTransaction)
    ensures
        txn_table(*final(m)) == txn_table(*old(m)).insert(id@, ops_view(t.ops@)),
        txn_last_used(*final(m)) == txn_last_used(*old(m)).insert(id@, t.last_active),
{
    m.insert(id, t);
}

/// Takes the transaction held under an id out of the table, if there is
/// one (dashmap's `DashMap::remove`).
#[verifier::external_body]
fn txn_table_remove(m: &mut DashMap<String, ActiveTransaction>, id: &str) -> (r: Option<ActiveTransaction>)
    ensures
        txn_table(*final(m)) == txn_table(*old(m)).remove(id@),
        txn_last_used(*final(m)) == txn_last_used(*old(m)).remove(id@),
        match r {
            Some(t) => txn_table(*old(m)).contains_key(id@) && ops_view(t.ops@) == txn_table(*old(m))[id@]
                && t.last_active == txn_last_used(*old(m))[id@],
            None => !txn_table(*old(m)).contains_key(id@) && !txn_last_used(*old(m)).contains_key(id@),
        },
{
    m.remove(id).map(|(_, t)| t)
}

/// When the transaction held under an id was last used, if there is one
/// (dashmap's `DashMap::get`, reading the field).
#[verifier::external_body]
fn txn_table_last_active(m: &DashMap<String, ActiveTransaction>, id: &str) -> (r: Option<Instant>)
    ensures
        r is Some <==> txn_table(*m).contains_key(id@),
        r matches Some(t) ==> txn_last_used(*m).contains_key(id@) && t == txn_last_used(*m)[id@],
{
    m.get(id).map(|t| t.last_active)
}

/// The ids held in the table, each once, in the table's own order
/// (dashmap's `DashMap::iter`, reading the keys).
#[verifier::external_body]
fn txn_table_ids(m: &DashMap<String, ActiveTransaction>) -> (r: Vec<String>)
    ensures
        r@.map_values(|s: String| s@).no_duplicates(),
        r@.map_values(|s: String| s@).to_set() == txn_table(*m).dom(),
        r@.map_values(|s: String| s@).to_set() == txn_last_used(*m).dom(),
{
    m.iter().map(|e| e.key().clone()).collect()
}

/// The nanoseconds of a duration (std's `Duration::as_nanos`).
pub uninterp spec fn duration_nanos(d: Duration) -> u128;

/// The nanoseconds of a duration (std's `Duration::as_nanos`).
#[verifier::external_body]
fn nanos_of(d: &Duration) -> (r: u128)
    ensures
        r == duration_nanos(*d),
{
    d.as_nanos()
}

/// The time elapsed since `since` (std's `Instant::elapsed`); the reading
/// depends on the clock, so nothing is stated of it.
#[verifier::external_body]
fn elapsed_since(since: &Instant) -> (r: Duration) {
    since.elapsed()
}

/// Manages server-side HTTP transactions: operations are buffered per
/// transaction id until the transaction is committed or rolled back.
pub struct TransactionRegistry {
    txns: DashMap<String, ActiveTransaction>,
    timeout: Duration,
}

impl View for TransactionRegistry {
    type V = Map<Seq<char>, Seq<OpModel>>;

    closed spec fn view(&self) -> Map<Seq<char>, Seq<OpModel>> {
        txn_table(self.txns)
    }
}

impl TransactionRegistry {
    /// The idle time after which a transaction expires.
    pub closed spec fn idle_timeout(&self) -> Duration {
        self.timeout
    }

    /// When each open transaction was last used (begun, or given an
    /// operation).
    pub closed spec fn last_used(&self) -> Map<Seq<char>, Instant> {
        txn_last_used(self.txns)
    }

    /// A registry with no open transaction.
    pub fn new(timeout: Duration) -> (r: Self)
        ensures
            r@ == Map::<Seq<char>, Seq<OpModel>>::empty(),
            r.last_used() == Map::<Seq<char>, Instant>::empty(),
            r.idle_timeout() == timeout,
    {
        TransactionRegistry { txns: txn_table_new(), timeout }
    }

    /// Begins a new transaction with no operations; returns its id, a
    /// random version-4 UUID.
    pub fn begin(&mut self) -> (id: String)
        ensures
            is_uuid_v4_text(id@),
            final(self)@ == old(self)@.insert(id@, Seq::<OpModel>::empty()),
            exists|t: Instant| final(self).last_used() == old(self).last_used().insert(id@, t),
            final(self).idle_timeout() == old(self).idle_timeout(),
    {
        let id = new_uuid_text();
        let key = id.clone();
        let t = ActiveTransaction { ops: Vec::new(), last_active: instant_now() };
        proof {
            assert(ops_view(t.ops@) =~= Seq::<OpModel>::empty());
        }
        let ghost now = t.last_active;
        txn_table_insert(&mut self.txns, key, t);
        assert(self.last_used() == old(self).last_used().insert(id@, now));
        id
    }

    /// Appends an operation to an open transaction and marks it as used now.
    fn push_op(&mut self, txn_id: &str, op: BufferedOp) -> (r: Result<(), TransactionError>)
        ensures
            final(self).idle_timeout() == old(self).idle_timeout(),
            r is Ok ==> exists|t: Instant| final(self).last_used() == old(self).last_used().insert(txn_id@, t),
            r is Err ==> final(self).last_used() == old(self).last_used(),
            match r {
                Ok(()) => old(self)@.contains_key(txn_id@)
                    && final(self)@ == old(self)@.insert(txn_id@, old(self)@[txn_id@].push(op@)),
                Err(e) => e@ is NotFound && !old(self)@.contains_key(txn_id@) && final(self)@ == old(self)@,
            },
    {
        match txn_table_remove(&mut self.txns, txn_id) {
            None => {
                proof {
                    assert(old(self)@.remove(txn_id@) =~= old(self)@);
                    assert(old(self).last_used().remove(txn_id@) =~= old(self).last_used());
                }
                Err(TransactionError::NotFound)
            }
            Some(t) => {
                let ghost removed_used = self.last_used();
                let mut ops = t.ops;
                let ghost before = ops@;
                ops.push(op);
                proof {
                    assert(ops_view(ops@) =~= ops_view(before).push(op@));
                }
                let mut key = String::new();
                push_str(&mut key, txn_id);
                let now = instant_now();
                txn_table_insert(&mut self.txns, key, ActiveTransaction { ops, last_active: now });
                proof {
                    assert(old(self).last_used().remove(txn_id@).insert(txn_id@, now)
                        =~= old(self).last_used().insert(txn_id@, now));
                    assert(self.last_used() == old(self).last_used().insert(txn_id@, now));
                    assert(old(self)@.remove(txn_id@).insert(txn_id@, old(self)@[txn_id@].push(op@))
                        =~= old(self)@.insert(txn_id@, old(self)@[txn_id@].push(op@)));
                }
                Ok(())
            }
        }
    }

    /// Buffers the insertion of quads into an open transaction; returns how
    /// many quads were buffered.
    pub fn add(&mut self, txn_id: &str, quads: Vec<Quad>) -> (r: Result<usize, TransactionError>)
        ensures
            final(self).idle_timeout() == old(self).idle_timeout(),
            r is Ok ==> exists|t: Instant| final(self).last_used() == old(self).last_used().insert(txn_id@, t),
            r is Err ==> final(self).last_used() == old(self).last_used(),
            match r {
                Ok(n) => old(self)@.contains_key(txn_id@) && n == quads@.len()
                    && final(self)@ == old(self)@.insert(txn_id@,
                        old(self)@[txn_id@].push(OpModel::InsertQuads(quads_view(quads@)))),
                Err(e) => e@ is NotFound && !old(self)@.contains_key(txn_id@) && final(self)@ == old(self)@,
            },
    {
        let count = quads.len();
        match self.push_op(txn_id, BufferedOp::InsertQuads(quads)) {
            Ok(()) => Ok(count),
            Err(e) => Err(e),
        }
    }

    /// Buffers the removal of quads in an open transaction; returns how
    /// many quads were buffered.
    pub fn remove(&mut self, txn_id: &str, quads: Vec<Quad>) -> (r: Result<usize, TransactionError>)
        ensures
            final(self).idle_timeout() == old(self).idle_timeout(),
            r is Ok ==> exists|t: Instant| final(self).last_used() == old(self).last_used().insert(txn_id@, t),
            r is Err ==> final(self).last_used() == old(self).last_used(),
            match r {
                Ok(n) => old(self)@.contains_key(txn_id@) && n == quads@.len()
                    && final(self)@ == old(self)@.insert(txn_id@,
                        old(self)@[txn_id@].push(OpModel::RemoveQuads(quads_view(quads@)))),
                Err(e) => e@ is NotFound && !old(self)@.contains_key(txn_id@) && final(self)@ == old(self)@,
            },
    {
        let count = quads.len();
        match self.push_op(txn_id, BufferedOp::RemoveQuads(quads)) {
            Ok(()) => Ok(count),
            Err(e) => Err(e),
        }
    }

    /// Buffers a SPARQL update in an open transaction.
    pub fn update(&mut self, txn_id: &str, sparql: String) -> (r: Result<(), TransactionError>)
        ensures
            final(self).idle_timeout() == old(self).idle_timeout(),
            r is Ok ==> exists|t: Instant| final(self).last_used() == old(self).last_used().insert(txn_id@, t),
            r is Err ==> final(self).last_used() == old(self).last_used(),
            match r {
                Ok(()) => old(self)@.contains_key(txn_id@)
                    && final(self)@ == old(self)@.insert(txn_id@,
                        old(self)@[txn_id@].push(OpModel::SparqlUpdate(sparql@))),
                Err(e) => e@ is NotFound && !old(self)@.contains_key(txn_id@) && final(self)@ == old(self)@,
            },
    {
        self.push_op(txn_id, BufferedOp::SparqlUpdate(sparql))
    }

    /// Commits a transaction: takes it out of the registry and replays its
    /// operations into the store, all or nothing. This store has no SPARQL
    /// engine, so a transaction that buffered a SPARQL update is refused
    /// with a query error and leaves the store as it was. On success the
    /// committed operations are handed back for the changelog.
    pub fn commit(&mut self, txn_id: &str, store: &mut QuadStore) -> (r: Result<CommitResult, TransactionError>)
        ensures
            final(self).idle_timeout() == old(self).idle_timeout(),
            final(self)@ == old(self)@.remove(txn_id@),
            final(self).last_used() == old(self).last_used().remove(txn_id@),
            match r {
                Ok(c) => old(self)@.contains_key(txn_id@)
                    && next_update(old(self)@[txn_id@], 0) == old(self)@[txn_id@].len()
                    && c.txn_id@ == txn_id@
                    && ops_view(c.ops@) == old(self)@[txn_id@]
                    && final(store)@ == apply_ops(old(store)@, old(self)@[txn_id@]),
                Err(e) => final(store)@ == old(store)@ && if old(self)@.contains_key(txn_id@) {
                    next_update(old(self)@[txn_id@], 0) < old(self)@[txn_id@].len()
                        && e@ == TransactionErrorModel::Query(sparql_unsupported_text())
                } else {
                    e@ is NotFound
                },
            },
    {
        match txn_table_remove(&mut self.txns, txn_id) {
            None => Err(TransactionError::NotFound),
            Some(t) => {
                let ops = t.ops;
                let first = first_update(ops.as_slice());
                if first < ops.len() {
                    let mut msg = String::new();
                    push_str(&mut msg, "SPARQL UPDATE is not supported by this store");
                    return Err(TransactionError::Query(msg));
                }
                let done = replay_ops(store, ops.as_slice(), 0);
                proof {
                    assert(ops_view(ops@).len() == ops@.len());
                    assert(done == ops@.len());
                    assert(ops_view(ops@).subrange(0, done as int) =~= ops_view(ops@));
                }
                let mut id = String::new();
                push_str(&mut id, txn_id);
                Ok(CommitResult { txn_id: id, ops })
            }
        }
    }

    /// Discards an open transaction.
    pub fn rollback(&mut self, txn_id: &str) -> (r: Result<(), TransactionError>)
        ensures
            final(self).idle_timeout() == old(self).idle_timeout(),
            final(self)@ == old(self)@.remove(txn_id@),
            final(self).last_used() == old(self).last_used().remove(txn_id@),
            match r {
                Ok(()) => old(self)@.contains_key(txn_id@),
                Err(e) => e@ is NotFound && !old(self)@.contains_key(txn_id@),
            },
    {
        match txn_table_remove(&mut self.txns, txn_id) {
            None => Err(TransactionError::NotFound),
            Some(_) => Ok(()),
        }
    }

    /// Removes the transactions with the given ids (ids of no open
    /// transaction are passed over); returns how many were removed.
    pub fn expire(&mut self, ids: &[String]) -> (r: usize)
        ensures
            final(self).idle_timeout() == old(self).idle_timeout(),
            final(self)@ == old(self)@.remove_keys(strings_set(ids@)),
            final(self).last_used() == old(self).last_used().remove_keys(strings_set(ids@)),
            r == old(self)@.dom().intersect(strings_set(ids@)).len(),
    {
        let ghost keys = ids@.map_values(|s: String| s@);
        let mut removed: usize = 0;
        let mut i: usize = 0;
        assert(keys.take(0).to_set() =~= Set::<Seq<char>>::empty());
        assert(old(self)@.dom().intersect(Set::<Seq<char>>::empty()) =~= Set::<Seq<char>>::empty());
        while i < ids.len()
            invariant
                i <= ids@.len(),
                keys == ids@.map_values(|s: String| s@),
                self.timeout == old(self).timeout,
                self@ == old(self)@.remove_keys(keys.take(i as int).to_set()),
                self.last_used() == old(self).last_used().remove_keys(keys.take(i as int).to_set()),
                removed == old(self)@.dom().intersect(keys.take(i as int).to_set()).len(),
                removed <= i,
            decreases ids@.len() - i,
        {
            let ghost done = keys.take(i as int).to_set();
            let ghost k = keys[i as int];
            assert(keys.take(i + 1) =~= keys.take(i as int).push(k));
            proof {
                keys.take(i as int).lemma_push_to_set_commute(k);
                vstd::seq_lib::seq_to_set_is_finite(keys.take(i as int));
            }
            let ghost before = old(self)@.dom().intersect(done);
            assert(ids@[i as int]@ == k);
            match txn_table_remove(&mut self.txns, ids[i].as_str()) {
                Some(_) => {
                    proof {
                        assert(!done.contains(k));
                        assert(old(self)@.dom().contains(k));
                        assert(old(self)@.dom().intersect(done.insert(k)) =~= before.insert(k));
                        vstd::set_lib::lemma_set_subset_finite(done, before);
                    }
                    removed = removed + 1;
                }
                None => {
                    proof {
                        assert(old(self)@.dom().intersect(done.insert(k)) =~= before);
                    }
                }
            }
            assert(self@ =~= old(self)@.remove_keys(done.insert(k)));
            assert(self.last_used() =~= old(self).last_used().remove_keys(done.insert(k)));
            i = i + 1;
        }
        assert(keys.take(i as int) =~= keys);
        removed
    }

    /// Removes the transactions that have been idle longer than the timeout;
    /// returns how many were removed. Each transaction's idle time is read
    /// from the clock against the instant it was last used: whatever the
    /// readings, exactly the transactions whose reading exceeds the timeout
    /// are removed, and every other one is kept unchanged.
    pub fn cleanup_expired(&mut self) -> (r: usize)
        ensures
            final(self).idle_timeout() == old(self).idle_timeout(),
            exists|idle: Map<Seq<char>, u128>| {
                &&& idle.dom() == old(self)@.dom()
                &&& final(self)@ == old(self)@.restrict(
                    within_timeout(idle, duration_nanos(old(self).idle_timeout())),
                )
                &&& final(self).last_used() == old(self).last_used().restrict(
                    within_timeout(idle, duration_nanos(old(self).idle_timeout())),
                )
            },
            r == old(self)@.dom().len() - final(self)@.dom().len(),
    {
        let ids = txn_table_ids(&self.txns);
        let ghost keys = ids@.map_values(|s: String| s@);
        let limit = nanos_of(&self.timeout);
        let mut readings: Vec<u128> = Vec::new();
        let ghost mut idle: Map<Seq<char>, u128> = Map::empty();
        let mut i: usize = 0;
        assert(keys.take(0).to_set() =~= Set::<Seq<char>>::empty());
        while i < ids.len()
            invariant
                i <= ids@.len(),
                readings@.len() == i,
                keys == ids@.map_values(|s: String| s@),
                keys.no_duplicates(),
                keys.to_set() == self@.dom(),
                *self == *old(self),
                idle.dom() == keys.take(i as int).to_set(),
                forall|j: int| 0 <= j < i ==> idle[#[trigger] keys[j]] == readings@[j],
            decreases ids@.len() - i,
        {
            assert(keys[i as int] == ids@[i as int]@);
            let reading: u128 = match txn_table_last_active(&self.txns, ids[i].as_str()) {
                Some(since) => {
                    let d = elapsed_since(&since);
                    nanos_of(&d)
                }
                None => 0,
            };
            proof {
                keys.take(i as int).lemma_push_to_set_commute(keys[i as int]);
                assert(keys.take(i + 1) =~= keys.take(i as int).push(keys[i as int]));
                idle = idle.insert(keys[i as int], reading);
            }
            readings.push(reading);
            i = i + 1;
        }
        assert(keys.take(i as int) =~= keys);
        let expired = idle_ids(ids.as_slice(), readings.as_slice(), limit);
        let ghost before = self@;
        let ghost used_before = self.last_used();
        let ghost gone = strings_set(expired@);
        let ghost kept = within_timeout(idle, limit);
        proof {
            assert forall|k: Seq<char>| before.dom().contains(k) implies (gone.contains(k) <==> idle[k] > limit) by {
                assert(keys.to_set().contains(k));
                assert(keys.contains(k));
                let j = choose|j: int| 0 <= j < keys.len() && keys[j] == k;
                assert(ids@[j]@ == k);
                if gone.contains(k) {
                    let m = choose|m: int| 0 <= m < ids@.len() && ids@[m]@ == k && readings@[m] > limit;
                    assert(keys[m] == k);
                }
                if idle[k] > limit {
                    assert(readings@[j] > limit);
                }
            }
            assert forall|k: Seq<char>| gone.contains(k) implies before.dom().contains(k) by {
                let m = choose|m: int| 0 <= m < ids@.len() && ids@[m]@ == k && readings@[m] > limit;
                assert(keys[m] == k);
                assert(keys.contains(k));
            }
            vstd::seq_lib::seq_to_set_is_finite(keys);
        }
        let r = self.expire(expired.as_slice());
        proof {
            assert(self@ =~= before.restrict(kept));
            assert(used_before.dom() == before.dom());
            assert(self.last_used() =~= used_before.restrict(kept));
            assert(self@.dom() =~= before.dom().difference(gone));
            assert(before.dom().intersect(gone) =~= gone);
            vstd::set_lib::lemma_set_difference_len(before.dom(), gone);
        }
        r
    }
}

/// The transactions of `idle` whose idle time is within `limit`
/// nanoseconds: those that stay after a cleanup.
pub open spec fn within_timeout(idle: Map<Seq<char>, u128>, limit: u128) -> Set<Seq<char>> {
    Set::new(|id: Seq<char>| idle.contains_key(id) && idle[id] <= limit)
}

/// The ids whose idle time exceeds `limit`, in their order: `readings[i]`
/// is the idle time, in nanoseconds, of the transaction `ids[i]`.
pub fn idle_ids(ids: &[String], readings: &[u128], limit: u128) -> (r: Vec<String>)
    requires
        ids@.len() == readings@.len(),
    ensures
        forall|k: Seq<char>|
            #[trigger] strings_set(r@).contains(k) <==> exists|i: int|
                0 <= i < ids@.len() && ids@[i]@ == k && readings@[i] > limit,
{
    let mut r: Vec<String> = Vec::new();
    let mut i: usize = 0;
    assert(strings_set(r@) =~= Set::<Seq<char>>::empty());
    while i < ids.len()
        invariant
            i <= ids@.len(),
            ids@.len() == readings@.len(),
            forall|k: Seq<char>|
                #[trigger] strings_set(r@).contains(k) <==> exists|j: int|
                    0 <= j < i && ids@[j]@ == k && readings@[j] > limit,
        decreases ids@.len() - i,
    {
        let ghost old_r = r@;
        if readings[i] > limit {
            r.push(ids[i].clone());
            proof {
                assert(r@.map_values(|s: String| s@) =~= old_r.map_values(|s: String| s@).push(ids@[i as int]@));
                old_r.map_values(|s: String| s@).lemma_push_to_set_commute(ids@[i as int]@);
            }
        }
        proof {
            assert forall|k: Seq<char>|
                #[trigger] strings_set(r@).contains(k) <==> exists|j: int|
                    0 <= j < i + 1 && ids@[j]@ == k && readings@[j] > limit by {
                if strings_set(r@).contains(k) {
                    if !strings_set(old_r).contains(k) {
                        assert(ids@[i as int]@ == k && readings@[i as int] > limit);
                    }
                }
                if exists|j: int| 0 <= j < i + 1 && ids@[j]@ == k && readings@[j] > limit {
                    let j = choose|j: int| 0 <= j < i + 1 && ids@[j]@ == k && readings@[j] > limit;
                    if j < i {
                        assert(strings_set(old_r).contains(k));
                    }
                }
            }
        }
        i = i + 1;
    }
    r
}

/// Plain values of strings, as a set.
pub open spec fn strings_set(s: Seq<String>) -> Set<Seq<char>> {
    s.map_values(|x: String| x@).to_set()
}

/// The message of the error that refuses a SPARQL update at commit.
pub open spec fn sparql_unsupported_text() -> Seq<char> {
    "SPARQL UPDATE is not supported by this store"@
}

proof fn lemma_ids_finite(keys: Seq<Seq<char>>, m: Map<Seq<char>, Seq<OpModel>>)
    requires
        keys.to_set() == m.dom(),
    ensures
        m.dom().finite(),
{
    vstd::seq_lib::seq_to_set_is_finite(keys);
}

// ---------------------------------------------------------------------------
// Deltas of SPARQL updates
// ---------------------------------------------------------------------------

/// Dataset size above which an update is recorded by its text alone, with
/// no quad delta.
pub const MAX_DIFF_STORE_SIZE: usize = 1_000_000;

/// The quads of `after` that are not in `before`.
pub open spec fn added_quads(before: Seq<QuadModel>, after: Seq<QuadModel>) -> Seq<QuadModel> {
    after.filter(|q: QuadModel| !before.contains(q))
}

/// The quads of `before` that are not in `after`.
pub open spec fn dropped_quads(before: Seq<QuadModel>, after: Seq<QuadModel>) -> Seq<QuadModel> {
    before.filter(|q: QuadModel| !after.contains(q))
}

/// The delta from `before` to `after`: an insertion of the added quads and
/// a removal of the dropped ones, each only when there is any.
pub open spec fn diff_ops(before: Seq<QuadModel>, after: Seq<QuadModel>) -> Seq<OpModel> {
    let ins = added_quads(before, after);
    let rem = dropped_quads(before, after);
    (if ins.len() > 0 { seq![OpModel::InsertQuads(ins)] } else { Seq::empty() })
        + (if rem.len() > 0 { seq![OpModel::RemoveQuads(rem)] } else { Seq::empty() })
}

/// The quads of `xs` that `other` lacks, in order.
fn quads_missing_from(xs: &[Quad], other: &QuadStore) -> (r: Vec<Quad>)
    ensures
        quads_view(r@) == quads_view(xs@).filter(|q: QuadModel| !other@.contains(q)),
{
    let ghost pred = |q: QuadModel| !other@.contains(q);
    let ghost all = quads_view(xs@);
    let mut out: Vec<Quad> = Vec::new();
    let mut i: usize = 0;
    while i < xs.len()
        invariant
            i <= xs@.len(),
            all == quads_view(xs@),
            pred == (|q: QuadModel| !other@.contains(q)),
            quads_view(out@) == all.take(i as int).filter(pred),
        decreases xs@.len() - i,
    {
        proof {
            assert(all.take(i + 1) =~= all.take(i as int) + seq![all[i as int]]);
            Seq::filter_distributes_over_add(all.take(i as int), seq![all[i as int]], pred);
            assert(seq![all[i as int]].filter(pred) =~= (if pred(all[i as int]) { seq![all[i as int]] } else { Seq::<QuadModel>::empty() })) by {
                reveal_with_fuel(Seq::filter, 2);
                assert(seq![all[i as int]].drop_last() =~= Seq::<QuadModel>::empty());
            }
        }
        if !other.contains(&xs[i]) {
            let ghost before = quads_view(out@);
            out.push(xs[i].copy());
            assert(quads_view(out@) =~= before + seq![all[i as int]]);
        } else {
            assert(all.take(i as int).filter(pred) + Seq::<QuadModel>::empty() =~= all.take(i as int).filter(pred));
        }
        i = i + 1;
    }
    assert(all.take(i as int) =~= all);
    out
}

/// What the changelog records for a SPARQL update, given the dataset
/// before and after it: nothing when the changelog is disabled; the update
/// text alone when the dataset held more than `MAX_DIFF_STORE_SIZE` quads;
/// otherwise the quads it added and removed, or nothing when it changed
/// nothing.
pub fn update_diff_ops(changelog_enabled: bool, update: &str, before: &QuadStore, after: &QuadStore)
    -> (r: Option<Vec<BufferedOp>>)
    ensures
        !changelog_enabled ==> r is None,
        changelog_enabled && before@.len() > MAX_DIFF_STORE_SIZE
            ==> (r matches Some(ops) && ops_view(ops@) == seq![OpModel::SparqlUpdate(update@)]),
        changelog_enabled && before@.len() <= MAX_DIFF_STORE_SIZE ==> match r {
            Some(ops) => ops_view(ops@) == diff_ops(before@, after@) && diff_ops(before@, after@).len() > 0,
            None => diff_ops(before@, after@).len() == 0,
        },
{
    if !changelog_enabled {
        return None;
    }
    if before.len() > MAX_DIFF_STORE_SIZE {
        let mut text = String::new();
        push_str(&mut text, update);
        let ops = vec![BufferedOp::SparqlUpdate(text)];
        assert(ops_view(ops@) =~= seq![OpModel::SparqlUpdate(update@)]);
        return Some(ops);
    }
    let inserted = quads_missing_from(after.quads(), before);
    let removed = quads_missing_from(before.quads(), after);
    let ghost ins = added_quads(before@, after@);
    let ghost rem = dropped_quads(before@, after@);
    assert(quads_view(inserted@) =~= ins);
    assert(quads_view(removed@) =~= rem);
    if inserted.len() == 0 && removed.len() == 0 {
        assert(diff_ops(before@, after@) =~= Seq::<OpModel>::empty());
        return None;
    }
    let mut ops: Vec<BufferedOp> = Vec::new();
    let has_ins = inserted.len() > 0;
    let has_rem = removed.len() > 0;
    if has_ins {
        ops.push(BufferedOp::InsertQuads(inserted));
    }
    if has_rem {
        ops.push(BufferedOp::RemoveQuads(removed));
    }
    assert(ops_view(ops@) =~= diff_ops(before@, after@));
    Some(ops)
}

/// The recorded delta of an update, replayed onto the dataset before it,
/// gives back the dataset after it: the same quads are present.
pub proof fn lemma_diff_replays(before: Seq<QuadModel>, after: Seq<QuadModel>, q: QuadModel)
    ensures
        apply_ops(before, diff_ops(before, after)).contains(q) <==> after.contains(q),
{
    let ins = added_quads(before, after);
    let rem = dropped_quads(before, after);
    let ops = diff_ops(before, after);
    let p_ins = |x: QuadModel| !before.contains(x);
    let p_rem = |x: QuadModel| !after.contains(x);
    assert(ins.contains(q) <==> (after.contains(q) && !before.contains(q))) by {
        lemma_filter_contains(after, p_ins, q);
    }
    assert(rem.contains(q) <==> (before.contains(q) && !after.contains(q))) by {
        lemma_filter_contains(before, p_rem, q);
    }
    let mid = if ins.len() > 0 { insert_all(before, ins) } else { before };
    lemma_insert_all_contains(before, ins, q);
    if ins.len() > 0 {
        lemma_apply_ops_push(before, Seq::empty(), OpModel::InsertQuads(ins));
        assert(Seq::<OpModel>::empty().push(OpModel::InsertQuads(ins)) =~= seq![OpModel::InsertQuads(ins)]);
    }
    assert(apply_ops(before, if ins.len() > 0 { seq![OpModel::InsertQuads(ins)] } else { Seq::<OpModel>::empty() }) == mid);
    lemma_remove_all_contains(mid, rem, q);
    if rem.len() > 0 {
        let first = if ins.len() > 0 { seq![OpModel::InsertQuads(ins)] } else { Seq::<OpModel>::empty() };
        lemma_apply_ops_push(before, first, OpModel::RemoveQuads(rem));
        assert(first.push(OpModel::RemoveQuads(rem)) =~= ops);
    } else {
        assert(ops =~= (if ins.len() > 0 { seq![OpModel::InsertQuads(ins)] } else { Seq::<OpModel>::empty() }));
        if before.contains(q) && !after.contains(q) {
            assert(rem.contains(q));
        }
    }
    if ins.len() == 0 && after.contains(q) && !before.contains(q) {
        assert(ins.contains(q));
    }
}

} // verus!
