//! The coprocessor plugin: storage interface, scan/count/min-max execution
//! over Region-local key-value pairs, and request dispatch.
use vstd::prelude::*;
use std::ops::Range;
use std::time::Duration;
use crate::protocol::{
    OpType, RequestModel, decode_request, decode_request_spec, request_error_text,
    encode_scan_response, encode_count_response, encode_min_max_response, scan_response_bytes,
    min_max_response_bytes, be64, pairs_view, opt_slice_view,
};

verus! {

pub type Key = Vec<u8>;
pub type Value = Vec<u8>;
pub type KvPair = (Key, Value);
pub type RawRequest = Vec<u8>;
pub type RawResponse = Vec<u8>;
pub type PluginResult<T> = Result<T, PluginError>;

/// Errors reported by the storage or by a plugin.
#[derive(Debug)]
pub enum PluginError {
    KeyNotInRegion {
        key: Key,
        region_id: u64,
        start_key: Key,
        end_key: Key,
    },
    Timeout(Duration),
    Canceled,
    Other(String),
}

/// Storage interface that the host offers to coprocessor plugins
/// (Region-local, synchronous). A host describes its Region through
/// `scanned`, `scan_fails` and `scan_error`, which its impl defines.
pub trait RawStorage {
    /// The pairs of the Region whose keys lie in `[start, end)`, in key order.
    spec fn scanned(&self, start: Seq<u8>, end: Seq<u8>) -> Seq<(Seq<u8>, Seq<u8>)>;

    /// Whether a scan of `[start, end)` fails.
    spec fn scan_fails(&self, start: Seq<u8>, end: Seq<u8>) -> bool;

    /// The error a failing scan of `[start, end)` reports.
    spec fn scan_error(&self, start: Seq<u8>, end: Seq<u8>) -> PluginError;

    fn get(&self, key: Key) -> PluginResult<Option<Value>>;

    fn batch_get(&self, keys: Vec<Key>) -> PluginResult<Vec<KvPair>>;

    /// The pairs of a key range, or the storage's error.
    fn scan(&self, key_range: Range<Key>) -> (r: PluginResult<Vec<KvPair>>)
        ensures
            match r {
                Ok(v) => !self.scan_fails(key_range.start@, key_range.end@)
                    && pairs_view(v@) == self.scanned(key_range.start@, key_range.end@),
                Err(e) => self.scan_fails(key_range.start@, key_range.end@)
                    && e == self.scan_error(key_range.start@, key_range.end@),
            };

    fn put(&self, key: Key, value: Value) -> PluginResult<()>;

    fn batch_put(&self, kv_pairs: Vec<KvPair>) -> PluginResult<()>;

    fn delete(&self, key: Key) -> PluginResult<()>;

    fn batch_delete(&self, keys: Vec<Key>) -> PluginResult<()>;

    fn delete_range(&self, key_range: Range<Key>) -> PluginResult<()>;
}

/// Trait that coprocessor plugins implement.
pub trait CoprocessorPlugin: Send + Sync {
    fn on_raw_coprocessor_request<S: RawStorage>(
        &self,
        ranges: Vec<Range<Key>>,
        request: RawRequest,
        storage: &S,
    ) -> PluginResult<RawResponse>;
}

// ---------------------------------------------------------------------------
// Key order and prefixes
// ---------------------------------------------------------------------------

/// Lexicographic "strictly less than" on byte strings.
pub open spec fn lex_lt(a: Seq<u8>, b: Seq<u8>) -> bool
    decreases a.len(),
{
    if a.len() == 0 {
        b.len() > 0
    } else if b.len() == 0 {
        false
    } else if a[0] != b[0] {
        a[0] < b[0]
    } else {
        lex_lt(a.drop_first(), b.drop_first())
    }
}

/// Lexicographic order is irreflexive.
pub proof fn lemma_lex_irreflexive(a: Seq<u8>)
    ensures
        !lex_lt(a, a),
    decreases a.len(),
{
    if a.len() > 0 {
        lemma_lex_irreflexive(a.drop_first());
    }
}

/// Lexicographic order is transitive.
pub proof fn lemma_lex_transitive(a: Seq<u8>, b: Seq<u8>, c: Seq<u8>)
    requires
        lex_lt(a, b),
        lex_lt(b, c),
    ensures
        lex_lt(a, c),
    decreases a.len(),
{
    if a.len() > 0 && b.len() > 0 && c.len() > 0 && a[0] == b[0] && b[0] == c[0] {
        lemma_lex_transitive(a.drop_first(), b.drop_first(), c.drop_first());
    }
}

/// Lexicographic order is total.
pub proof fn lemma_lex_total(a: Seq<u8>, b: Seq<u8>)
    ensures
        a == b || lex_lt(a, b) || lex_lt(b, a),
    decreases a.len(),
{
    if a.len() > 0 && b.len() > 0 && a[0] == b[0] {
        lemma_lex_total(a.drop_first(), b.drop_first());
        if a.drop_first() == b.drop_first() {
            assert(a =~= seq![a[0]] + a.drop_first());
            assert(b =~= seq![b[0]] + b.drop_first());
        }
    } else if a.len() == 0 && b.len() == 0 {
        assert(a =~= b);
    }
}

fn lex_less(a: &[u8], b: &[u8]) -> (r: bool)
    ensures
        r == lex_lt(a@, b@),
{
    let mut i: usize = 0;
    assert(a@.skip(0) =~= a@ && b@.skip(0) =~= b@);
    while i < a.len() && i < b.len() && a[i] == b[i]
        invariant
            i <= a@.len(),
            i <= b@.len(),
            lex_lt(a@, b@) == lex_lt(a@.skip(i as int), b@.skip(i as int)),
        decreases a@.len() - i,
    {
        let ghost sa = a@.skip(i as int);
        let ghost sb = b@.skip(i as int);
        assert(sa.drop_first() =~= a@.skip(i + 1));
        assert(sb.drop_first() =~= b@.skip(i + 1));
        i = i + 1;
    }
    if i == a.len() {
        i < b.len()
    } else if i == b.len() {
        false
    } else {
        a[i] < b[i]
    }
}

/// The prefix that keys of a request's range must start with: the table
/// byte followed by the key prefix.
pub open spec fn scan_prefix(table_prefix: u8, key_prefix: Seq<u8>) -> Seq<u8> {
    seq![table_prefix] + key_prefix
}

/// Whether a pair's key starts with the scan prefix.
pub open spec fn pair_matches(prefix: Seq<u8>, p: (Seq<u8>, Seq<u8>)) -> bool {
    prefix.is_prefix_of(p.0)
}

/// The predicate "the key starts with `prefix`" on pairs.
pub open spec fn match_pred(prefix: Seq<u8>) -> spec_fn((Seq<u8>, Seq<u8>)) -> bool {
    |p: (Seq<u8>, Seq<u8>)| pair_matches(prefix, p)
}

/// The pairs whose keys start with the scan prefix, in order.
pub open spec fn matching_pairs(prefix: Seq<u8>, pairs: Seq<(Seq<u8>, Seq<u8>)>) -> Seq<(Seq<u8>, Seq<u8>)> {
    pairs.filter(match_pred(prefix))
}

fn starts_with_scan_prefix(key: &[u8], table_prefix: u8, key_prefix: &[u8]) -> (r: bool)
    ensures
        r == scan_prefix(table_prefix, key_prefix@).is_prefix_of(key@),
{
    let ghost prefix = scan_prefix(table_prefix, key_prefix@);
    if key.len() == 0 || key.len() - 1 < key_prefix.len() {
        return false;
    }
    if key[0] != table_prefix {
        assert(key@.take(prefix.len() as int)[0] != prefix[0]);
        return false;
    }
    let mut i: usize = 0;
    while i < key_prefix.len()
        invariant
            1 + key_prefix@.len() <= key@.len(),
            prefix == scan_prefix(table_prefix, key_prefix@),
            key@[0] == table_prefix,
            i <= key_prefix@.len(),
            forall|j: int| 0 <= j < i ==> key@[j + 1] == key_prefix@[j],
        decreases key_prefix@.len() - i,
    {
        if key[i + 1] != key_prefix[i] {
            assert(prefix[i + 1] == key_prefix@[i as int]);
            assert(key@.take(prefix.len() as int)[i + 1] == key@[i + 1]);
            return false;
        }
        i = i + 1;
    }
    assert(key@.take(prefix.len() as int) =~= prefix);
    true
}

// ---------------------------------------------------------------------------
// Scan execution
// ---------------------------------------------------------------------------

/// Parameters of an index scan: keys must start with the table prefix byte
/// followed by the key prefix; `limit` 0 means no limit.
pub struct IndexScanParams {
    pub table_prefix: u8,
    pub key_prefix: Vec<u8>,
    pub limit: usize,
}

/// Result of an index scan: the number of pairs examined and those kept.
pub struct ScanResult {
    pub scanned_keys: u64,
    pub pairs: Vec<(Vec<u8>, Vec<u8>)>,
}

/// Executes an index scan over the pairs of a Region: pairs are examined in
/// order, those whose keys start with the scan prefix are kept, and with a
/// positive `limit` the scan stops as soon as `limit` pairs are kept.
pub fn execute_index_scan(params: &IndexScanParams, pairs: &[(Vec<u8>, Vec<u8>)]) -> (r: ScanResult)
    ensures
        r.scanned_keys <= pairs@.len(),
        pairs_view(r.pairs@) == matching_pairs(scan_prefix(params.table_prefix, params.key_prefix@),
            pairs_view(pairs@).take(r.scanned_keys as int)),
        params.limit == 0 ==> r.scanned_keys == pairs@.len(),
        params.limit > 0 ==> r.pairs@.len() <= params.limit,
        params.limit > 0 && r.scanned_keys < pairs@.len() ==> r.pairs@.len() == params.limit,
        params.limit > 0 ==> forall|n: nat| n < r.scanned_keys ==>
            #[trigger] matching_pairs(scan_prefix(params.table_prefix, params.key_prefix@), pairs_view(pairs@).take(n as int)).len() < params.limit,
{
    let ghost prefix = scan_prefix(params.table_prefix, params.key_prefix@);
    let ghost all = pairs_view(pairs@);
    let ghost pred = match_pred(prefix);
    let mut kept: Vec<(Vec<u8>, Vec<u8>)> = Vec::new();
    let mut scanned: u64 = 0;
    let mut i: usize = 0;
    let n_pairs = pairs.len();
    proof {
        reveal(Seq::filter);
        assert(all.take(0) =~= Seq::<(Seq<u8>, Seq<u8>)>::empty());
    }
    while i < pairs.len()
        invariant_except_break
            params.limit > 0 ==> kept@.len() < params.limit,
        invariant
            i <= pairs@.len(),
            n_pairs == pairs@.len(),
            scanned == i,
            all == pairs_view(pairs@),
            prefix == scan_prefix(params.table_prefix, params.key_prefix@),
            pred == match_pred(prefix),
            pairs_view(kept@) == matching_pairs(prefix, all.take(i as int)),
            params.limit > 0 ==> kept@.len() <= params.limit,
            params.limit > 0 ==> forall|n: nat| n < i ==> #[trigger] matching_pairs(prefix, all.take(n as int)).len() < params.limit,
        ensures
            i < pairs@.len() ==> (params.limit > 0 && kept@.len() == params.limit),
        decreases pairs@.len() - i,
    {
        let key = &pairs[i].0;
        let value = &pairs[i].1;
        assert(all.take(i + 1) =~= all.take(i as int).push(all[i as int]));
        assert(all[i as int] == (key@, value@));
        proof {
            all.take(i as int).lemma_filter_push(all[i as int], pred);
            if params.limit > 0 {
                assert forall|n: nat| n < i + 1 implies #[trigger] matching_pairs(prefix, all.take(n as int)).len() < params.limit by {
                    if n == i {
                        assert(pairs_view(kept@).len() == kept@.len());
                    }
                }
            }
        }
        scanned = scanned + 1;
        let matched = starts_with_scan_prefix(key.as_slice(), params.table_prefix, params.key_prefix.as_slice());
        let ghost before = pairs_view(kept@);
        if matched {
            kept.push((key.clone(), value.clone()));
            assert(pairs_view(kept@) =~= before.push((key@, value@)));
        }
        i = i + 1;
        if matched && params.limit > 0 && kept.len() == params.limit {
            break;
        }
    }
    ScanResult { scanned_keys: scanned, pairs: kept }
}

// ---------------------------------------------------------------------------
// Aggregates
// ---------------------------------------------------------------------------

/// Result of a count scan.
pub struct CountResult {
    pub scanned_keys: u64,
    pub count: u64,
}

/// Counts the pairs whose keys start with the scan prefix.
pub fn execute_count(table_prefix: u8, key_prefix: &[u8], pairs: &[(Vec<u8>, Vec<u8>)]) -> (r: CountResult)
    requires
        pairs@.len() <= u64::MAX,
    ensures
        r.scanned_keys == pairs@.len(),
        r.count == matching_pairs(scan_prefix(table_prefix, key_prefix@), pairs_view(pairs@)).len(),
{
    let ghost prefix = scan_prefix(table_prefix, key_prefix@);
    let ghost all = pairs_view(pairs@);
    let ghost pred = match_pred(prefix);
    let mut count: u64 = 0;
    let mut i: usize = 0;
    proof {
        reveal(Seq::filter);
        assert(all.take(0) =~= Seq::<(Seq<u8>, Seq<u8>)>::empty());
    }
    while i < pairs.len()
        invariant
            i <= pairs@.len(),
            pairs@.len() <= u64::MAX,
            all == pairs_view(pairs@),
            prefix == scan_prefix(table_prefix, key_prefix@),
            pred == match_pred(prefix),
            count == matching_pairs(prefix, all.take(i as int)).len(),
            count <= i,
        decreases pairs@.len() - i,
    {
        assert(all.take(i + 1) =~= all.take(i as int).push(all[i as int]));
        proof {
            all.take(i as int).lemma_filter_push(all[i as int], pred);
        }
        assert(all[i as int] == (pairs@[i as int].0@, pairs@[i as int].1@));
        if starts_with_scan_prefix(pairs[i].0.as_slice(), table_prefix, key_prefix) {
            count = count + 1;
        }
        i = i + 1;
    }
    assert(all.take(i as int) =~= all);
    CountResult { scanned_keys: i as u64, count }
}

/// Result of a min/max scan.
pub struct MinMaxResult {
    pub scanned_keys: u64,
    pub min_key: Option<Vec<u8>>,
    pub max_key: Option<Vec<u8>>,
}

/// The lexicographically smallest key of a sequence of pairs, if any.
pub open spec fn min_key(pairs: Seq<(Seq<u8>, Seq<u8>)>) -> Option<Seq<u8>>
    decreases pairs.len(),
{
    if pairs.len() == 0 {
        None
    } else {
        match min_key(pairs.drop_last()) {
            None => Some(pairs.last().0),
            Some(m) => if lex_lt(pairs.last().0, m) { Some(pairs.last().0) } else { Some(m) },
        }
    }
}

/// The lexicographically largest key of a sequence of pairs, if any.
pub open spec fn max_key(pairs: Seq<(Seq<u8>, Seq<u8>)>) -> Option<Seq<u8>>
    decreases pairs.len(),
{
    if pairs.len() == 0 {
        None
    } else {
        match max_key(pairs.drop_last()) {
            None => Some(pairs.last().0),
            Some(m) => if lex_lt(m, pairs.last().0) { Some(pairs.last().0) } else { Some(m) },
        }
    }
}

/// Views an optional byte vector as an optional sequence.
pub open spec fn opt_vec_view(k: Option<Vec<u8>>) -> Option<Seq<u8>> {
    match k {
        Some(v) => Some(v@),
        None => None,
    }
}

/// Finds the smallest and largest keys that start with the scan prefix.
pub fn execute_min_max(table_prefix: u8, key_prefix: &[u8], pairs: &[(Vec<u8>, Vec<u8>)]) -> (r: MinMaxResult)
    requires
        pairs@.len() <= u64::MAX,
    ensures
        r.scanned_keys == pairs@.len(),
        opt_vec_view(r.min_key) == min_key(matching_pairs(scan_prefix(table_prefix, key_prefix@), pairs_view(pairs@))),
        opt_vec_view(r.max_key) == max_key(matching_pairs(scan_prefix(table_prefix, key_prefix@), pairs_view(pairs@))),
{
    let ghost prefix = scan_prefix(table_prefix, key_prefix@);
    let ghost all = pairs_view(pairs@);
    let ghost pred = match_pred(prefix);
    let mut lo: Option<Vec<u8>> = None;
    let mut hi: Option<Vec<u8>> = None;
    let mut i: usize = 0;
    proof {
        reveal(Seq::filter);
        assert(all.take(0) =~= Seq::<(Seq<u8>, Seq<u8>)>::empty());
    }
    while i < pairs.len()
        invariant
            i <= pairs@.len(),
            all == pairs_view(pairs@),
            prefix == scan_prefix(table_prefix, key_prefix@),
            pred == match_pred(prefix),
            opt_vec_view(lo) == min_key(matching_pairs(prefix, all.take(i as int))),
            opt_vec_view(hi) == max_key(matching_pairs(prefix, all.take(i as int))),
        decreases pairs@.len() - i,
    {
        let ghost m0 = matching_pairs(prefix, all.take(i as int));
        assert(all.take(i + 1) =~= all.take(i as int).push(all[i as int]));
        proof {
            all.take(i as int).lemma_filter_push(all[i as int], pred);
        }
        let key = &pairs[i].0;
        assert(all[i as int] == (pairs@[i as int].0@, pairs@[i as int].1@));
        if starts_with_scan_prefix(key.as_slice(), table_prefix, key_prefix) {
            let ghost m1 = m0.push(all[i as int]);
            assert(m1.drop_last() =~= m0);
            let new_lo = match &lo {
                None => true,
                Some(cur) => lex_less(key.as_slice(), cur.as_slice()),
            };
            if new_lo {
                lo = Some(key.clone());
            }
            let new_hi = match &hi {
                None => true,
                Some(cur) => lex_less(cur.as_slice(), key.as_slice()),
            };
            if new_hi {
                hi = Some(key.clone());
            }
        }
        i = i + 1;
    }
    assert(all.take(i as int) =~= all);
    MinMaxResult { scanned_keys: i as u64, min_key: lo, max_key: hi }
}

/// The minimum key is one of the keys and no key is smaller.
pub proof fn lemma_min_key_is_least(pairs: Seq<(Seq<u8>, Seq<u8>)>)
    ensures
        min_key(pairs) is None <==> pairs.len() == 0,
        min_key(pairs) matches Some(m) ==> (exists|i: int| 0 <= i < pairs.len() && #[trigger] pairs[i].0 == m)
            && forall|i: int| 0 <= i < pairs.len() ==> !lex_lt(#[trigger] pairs[i].0, m),
    decreases pairs.len(),
{
    if pairs.len() > 0 {
        let init = pairs.drop_last();
        lemma_min_key_is_least(init);
        let last = pairs.last().0;
        match min_key(init) {
            None => {
                assert(pairs[pairs.len() - 1].0 == last);
                assert forall|i: int| 0 <= i < pairs.len() implies !lex_lt(#[trigger] pairs[i].0, last) by {
                    lemma_lex_irreflexive(last);
                }
            }
            Some(m) => {
                let w = choose|i: int| 0 <= i < init.len() && #[trigger] init[i].0 == m;
                assert(pairs[w].0 == m);
                if lex_lt(last, m) {
                    assert(pairs[pairs.len() - 1].0 == last);
                    assert forall|i: int| 0 <= i < pairs.len() implies !lex_lt(#[trigger] pairs[i].0, last) by {
                        if i < pairs.len() - 1 {
                            assert(pairs[i] == init[i]);
                            if lex_lt(pairs[i].0, last) {
                                lemma_lex_transitive(pairs[i].0, last, m);
                            }
                        } else {
                            lemma_lex_irreflexive(last);
                        }
                    }
                } else {
                    assert forall|i: int| 0 <= i < pairs.len() implies !lex_lt(#[trigger] pairs[i].0, m) by {
                        if i < pairs.len() - 1 {
                            assert(pairs[i] == init[i]);
                        }
                    }
                }
            }
        }
    }
}

/// The maximum key is one of the keys and no key is larger.
pub proof fn lemma_max_key_is_greatest(pairs: Seq<(Seq<u8>, Seq<u8>)>)
    ensures
        max_key(pairs) is None <==> pairs.len() == 0,
        max_key(pairs) matches Some(m) ==> (exists|i: int| 0 <= i < pairs.len() && #[trigger] pairs[i].0 == m)
            && forall|i: int| 0 <= i < pairs.len() ==> !lex_lt(m, #[trigger] pairs[i].0),
    decreases pairs.len(),
{
    if pairs.len() > 0 {
        let init = pairs.drop_last();
        lemma_max_key_is_greatest(init);
        let last = pairs.last().0;
        match max_key(init) {
            None => {
                assert(pairs[pairs.len() - 1].0 == last);
                assert forall|i: int| 0 <= i < pairs.len() implies !lex_lt(last, #[trigger] pairs[i].0) by {
                    lemma_lex_irreflexive(last);
                }
            }
            Some(m) => {
                let w = choose|i: int| 0 <= i < init.len() && #[trigger] init[i].0 == m;
                assert(pairs[w].0 == m);
                if lex_lt(m, last) {
                    assert(pairs[pairs.len() - 1].0 == last);
                    assert forall|i: int| 0 <= i < pairs.len() implies !lex_lt(last, #[trigger] pairs[i].0) by {
                        if i < pairs.len() - 1 {
                            assert(pairs[i] == init[i]);
                            if lex_lt(last, pairs[i].0) {
                                lemma_lex_transitive(m, last, pairs[i].0);
                            }
                        } else {
                            lemma_lex_irreflexive(last);
                        }
                    }
                } else {
                    assert forall|i: int| 0 <= i < pairs.len() implies !lex_lt(m, #[trigger] pairs[i].0) by {
                        if i < pairs.len() - 1 {
                            assert(pairs[i] == init[i]);
                        }
                    }
                }
            }
        }
    }
}

// ---------------------------------------------------------------------------
// Dispatch
// ---------------------------------------------------------------------------

/// The response to a decoded request over the Region's pairs.
pub open spec fn response_bytes(req: RequestModel, pairs: Seq<(Seq<u8>, Seq<u8>)>) -> Seq<u8> {
    let prefix = scan_prefix(req.table_prefix, req.key_prefix);
    let matching = matching_pairs(prefix, pairs);
    match req.op_type {
        OpType::IndexScan | OpType::FilterScan => scan_response_bytes(pairs.len() as u64, matching),
        OpType::CountScan => be64(pairs.len() as u64) + be64(matching.len() as u64),
        OpType::MinMaxScan => min_max_response_bytes(pairs.len() as u64, min_key(matching), max_key(matching)),
    }
}

/// Byte order compares at the first byte where two strings differ, and a
/// proper prefix comes first.
pub proof fn lemma_lex_order_direction(a: Seq<u8>, b: Seq<u8>, i: int)
    requires
        0 <= i <= a.len(),
        i <= b.len(),
        a.take(i) == b.take(i),
    ensures
        i < a.len() && i < b.len() && a[i] < b[i] ==> lex_lt(a, b),
        i == a.len() && i < b.len() ==> lex_lt(a, b),
    decreases i,
{
    if i > 0 {
        assert(a[0] == a.take(i)[0] && b[0] == b.take(i)[0]);
        assert(a.drop_first().take(i - 1) =~= a.take(i).drop_first());
        assert(b.drop_first().take(i - 1) =~= b.take(i).drop_first());
        lemma_lex_order_direction(a.drop_first(), b.drop_first(), i - 1);
    }
}

/// The least matching key: one of the keys that match, with no matching key
/// before it in byte order.
pub open spec fn is_least_key(m: Seq<(Seq<u8>, Seq<u8>)>, k: Seq<u8>) -> bool {
    (exists|i: int| 0 <= i < m.len() && #[trigger] m[i].0 == k)
        && forall|i: int| 0 <= i < m.len() ==> !lex_lt(#[trigger] m[i].0, k)
}

/// The greatest matching key: one of the keys that match, with no matching
/// key after it in byte order.
pub open spec fn is_greatest_key(m: Seq<(Seq<u8>, Seq<u8>)>, k: Seq<u8>) -> bool {
    (exists|i: int| 0 <= i < m.len() && #[trigger] m[i].0 == k)
        && forall|i: int| 0 <= i < m.len() ==> !lex_lt(k, #[trigger] m[i].0)
}

/// A min/max scan answers, in its min slot, the least key (in byte order)
/// among the pairs that match the request's prefix and, in its max slot,
/// the greatest; with no matching pair both slots are empty. Any keys with
/// those properties are the ones answered, and the least never comes after
/// the greatest.
pub proof fn lemma_min_max_answer(
    req: RequestModel,
    pairs: Seq<(Seq<u8>, Seq<u8>)>,
    lo: Option<Seq<u8>>,
    hi: Option<Seq<u8>>,
)
    requires
        req.op_type is MinMaxScan,
        ({
            let m = matching_pairs(scan_prefix(req.table_prefix, req.key_prefix), pairs);
            &&& (lo is None <==> m.len() == 0)
            &&& (hi is None <==> m.len() == 0)
            &&& (lo matches Some(k) ==> is_least_key(m, k))
            &&& (hi matches Some(k) ==> is_greatest_key(m, k))
        }),
    ensures
        response_bytes(req, pairs) == min_max_response_bytes(pairs.len() as u64, lo, hi),
        lo is Some && hi is Some ==> !lex_lt(hi->0, lo->0),
{
    let m = matching_pairs(scan_prefix(req.table_prefix, req.key_prefix), pairs);
    lemma_min_key_is_least(m);
    lemma_max_key_is_greatest(m);
    if let Some(a) = lo {
        let mk = min_key(m)->0;
        let i = choose|i: int| 0 <= i < m.len() && #[trigger] m[i].0 == a;
        let j = choose|j: int| 0 <= j < m.len() && #[trigger] m[j].0 == mk;
        assert(!lex_lt(m[i].0, mk));
        assert(!lex_lt(m[j].0, a));
        lemma_lex_total(a, mk);
        assert(min_key(m) == lo);
    }
    if let Some(b) = hi {
        let mk = max_key(m)->0;
        let i = choose|i: int| 0 <= i < m.len() && #[trigger] m[i].0 == b;
        let j = choose|j: int| 0 <= j < m.len() && #[trigger] m[j].0 == mk;
        assert(!lex_lt(mk, m[i].0));
        assert(!lex_lt(b, m[j].0));
        lemma_lex_total(b, mk);
        assert(max_key(m) == hi);
    }
    if let (Some(a), Some(b)) = (lo, hi) {
        let i = choose|i: int| 0 <= i < m.len() && #[trigger] m[i].0 == a;
        assert(!lex_lt(b, m[i].0));
    }
}

/// The error text for a request that fails to decode.
pub open spec fn decode_failure_text(data: Seq<u8>) -> Seq<char> {
    "failed to decode request: "@ + request_error_text(decode_request_spec(data)->Err_0)
}

/// Answers a request from the pairs of the requested ranges.
pub fn respond(request: &[u8], pairs: &[(Vec<u8>, Vec<u8>)]) -> (r: PluginResult<RawResponse>)
    requires
        pairs@.len() <= u64::MAX,
    ensures
        match decode_request_spec(request@) {
            Ok(req) => r matches Ok(bytes) && bytes@ == response_bytes(req, pairs_view(pairs@)),
            Err(_) => r matches Err(PluginError::Other(msg)) && msg@ == decode_failure_text(request@),
        },
{
    let req = match decode_request(request) {
        Ok(req) => req,
        Err(e) => {
            let mut msg = String::from_str("failed to decode request: ");
            msg.append(e.as_str());
            return Err(PluginError::Other(msg));
        }
    };
    let ghost prefix = scan_prefix(req.table_prefix, req.key_prefix@);
    let scanned = pairs.len() as u64;
    match req.op_type {
        OpType::IndexScan | OpType::FilterScan => {
            let params = IndexScanParams { table_prefix: req.table_prefix, key_prefix: req.key_prefix, limit: 0 };
            let result = execute_index_scan(&params, pairs);
            assert(pairs_view(pairs@).take(pairs@.len() as int) =~= pairs_view(pairs@));
            Ok(encode_scan_response(result.scanned_keys, result.pairs.as_slice()))
        }
        OpType::CountScan => {
            let result = execute_count(req.table_prefix, req.key_prefix.as_slice(), pairs);
            Ok(encode_count_response(result.scanned_keys, result.count))
        }
        OpType::MinMaxScan => {
            let result = execute_min_max(req.table_prefix, req.key_prefix.as_slice(), pairs);
            let lo = match &result.min_key {
                Some(k) => Some(k.as_slice()),
                None => None,
            };
            let hi = match &result.max_key {
                Some(k) => Some(k.as_slice()),
                None => None,
            };
            assert(opt_slice_view(lo) == opt_vec_view(result.min_key));
            assert(opt_slice_view(hi) == opt_vec_view(result.max_key));
            Ok(encode_min_max_response(result.scanned_keys, lo, hi))
        }
    }
}

/// The coprocessor plugin that answers scan, count and min/max requests.
#[derive(Default)]
pub struct OxigraphCoprocessorPlugin;

fn clone_range(r: &Range<Key>) -> (c: Range<Key>)
    ensures
        c.start@ == r.start@,
        c.end@ == r.end@,
{
    Range { start: r.start.clone(), end: r.end.clone() }
}

impl CoprocessorPlugin for OxigraphCoprocessorPlugin {
    /// Decodes the request, collects the pairs of every range from the
    /// storage (in range order), then answers from them; the first failing
    /// scan's error is returned as it is.
    fn on_raw_coprocessor_request<S: RawStorage>(
        &self,
        ranges: Vec<Range<Key>>,
        request: RawRequest,
        storage: &S,
    ) -> (r: PluginResult<RawResponse>)
        ensures
            decode_request_spec(request@) is Err ==> (r matches Err(PluginError::Other(msg)) && msg@ == decode_failure_text(request@)),
            decode_request_spec(request@) matches Ok(req) ==> match first_failed_scan(storage, ranges@, 0) {
                None => r matches Ok(bytes) && bytes@ == response_bytes(req, ranges_pairs(storage, ranges@)),
                Some(k) => r matches Err(e) && e == range_scan_error(storage, ranges@[k]),
            },
    {
        if let Err(e) = decode_request(request.as_slice()) {
            let mut msg = String::from_str("failed to decode request: ");
            msg.append(e.as_str());
            return Err(PluginError::Other(msg));
        }
        let mut all_pairs: Vec<(Vec<u8>, Vec<u8>)> = Vec::new();
        let mut i: usize = 0;
        while i < ranges.len()
            invariant
                i <= ranges@.len(),
                decode_request_spec(request@) is Ok,
                first_failed_scan(storage, ranges@, 0) == first_failed_scan(storage, ranges@, i as int),
                pairs_view(all_pairs@) == ranges_pairs(storage, ranges@.take(i as int)),
            decreases ranges@.len() - i,
        {
            let ghost before = pairs_view(all_pairs@);
            let range = clone_range(&ranges[i]);
            let mut pairs = match storage.scan(range) {
                Ok(p) => p,
                Err(e) => {
                    assert(range_fails(storage, ranges@[i as int]));
                    return Err(e);
                }
            };
            let ghost got = pairs_view(pairs@);
            all_pairs.append(&mut pairs);
            proof {
                assert(pairs_view(all_pairs@) =~= before + got);
                assert(ranges@.take(i + 1).drop_last() =~= ranges@.take(i as int));
                assert(ranges@.take(i + 1).last() == ranges@[i as int]);
            }
            i = i + 1;
        }
        assert(ranges@.take(i as int) =~= ranges@);
        let total = all_pairs.len();
        assert(total as nat <= u64::MAX);
        respond(request.as_slice(), all_pairs.as_slice())
    }
}

/// Whether the scan of a range fails.
pub open spec fn range_fails<S: RawStorage>(storage: &S, range: Range<Key>) -> bool {
    storage.scan_fails(range.start@, range.end@)
}

/// The error a failing scan of a range reports.
pub open spec fn range_scan_error<S: RawStorage>(storage: &S, range: Range<Key>) -> PluginError {
    storage.scan_error(range.start@, range.end@)
}

/// The pairs of the ranges, range after range.
pub open spec fn ranges_pairs<S: RawStorage>(storage: &S, ranges: Seq<Range<Key>>) -> Seq<(Seq<u8>, Seq<u8>)>
    decreases ranges.len(),
{
    if ranges.len() == 0 {
        Seq::empty()
    } else {
        ranges_pairs(storage, ranges.drop_last()) + storage.scanned(ranges.last().start@, ranges.last().end@)
    }
}

/// The first range from `from` on whose scan fails, if any.
pub open spec fn first_failed_scan<S: RawStorage>(storage: &S, ranges: Seq<Range<Key>>, from: int) -> Option<int>
    decreases ranges.len() - from,
{
    if from < 0 || from >= ranges.len() {
        None
    } else if range_fails(storage, ranges[from]) {
        Some(from)
    } else {
        first_failed_scan(storage, ranges, from + 1)
    }
}

} // verus!
