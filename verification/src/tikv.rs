//! Key layout of the TiKV storage backend: every index lives under a
//! one-byte table prefix, and prefix scans use `[prefix, upper_bound)`.
use vstd::prelude::*;
use crate::plugin::{lex_lt, lemma_lex_irreflexive, lemma_lex_transitive};

verus! {

/// Default number of entries prefetched per batch during range scans.
pub const DEFAULT_SCAN_BATCH_SIZE: usize = 512;

/// Configuration for connecting to TiKV.
#[derive(Clone, Debug)]
pub struct TiKvConfig {
    /// PD (Placement Driver) endpoint addresses.
    pub pd_endpoints: Vec<String>,
    /// Number of entries to prefetch per batch during range scans.
    pub scan_batch_size: usize,
}

impl TiKvConfig {
    /// A config with the given PD endpoints and the default scan batch size.
    pub fn new(pd_endpoints: Vec<String>) -> (r: Self)
        ensures
            r.pd_endpoints@ == pd_endpoints@,
            r.scan_batch_size == DEFAULT_SCAN_BATCH_SIZE,
    {
        TiKvConfig { pd_endpoints, scan_batch_size: DEFAULT_SCAN_BATCH_SIZE }
    }

    /// Sets the scan batch size for prefetching.
    pub fn with_scan_batch_size(self, batch_size: usize) -> (r: Self)
        ensures
            r.pd_endpoints@ == self.pd_endpoints@,
            r.scan_batch_size == batch_size,
    {
        let mut c = self;
        c.scan_batch_size = batch_size;
        c
    }
}

/// The key of `key` in table `table`.
pub fn prefixed_key(table: u8, key: &[u8]) -> (r: Vec<u8>)
    ensures
        r@ == seq![table] + key@,
{
    let mut result: Vec<u8> = Vec::new();
    result.push(table);
    result.extend_from_slice(key);
    assert(result@ =~= seq![table] + key@);
    result
}

/// The exclusive upper bound of the keys that start with `prefix`: trailing
/// 0xFF bytes are dropped and the last remaining byte is incremented; there
/// is none when every byte is 0xFF (or the prefix is empty).
pub open spec fn upper_bound(prefix: Seq<u8>) -> Option<Seq<u8>>
    decreases prefix.len(),
{
    if prefix.len() == 0 {
        None
    } else if prefix.last() < 0xFF {
        Some(prefix.drop_last().push((prefix.last() + 1) as u8))
    } else {
        upper_bound(prefix.drop_last())
    }
}

/// Compute the exclusive upper bound for a prefix scan.
pub fn prefix_upper_bound(prefix: &[u8]) -> (r: Option<Vec<u8>>)
    ensures
        match r {
            Some(v) => upper_bound(prefix@) == Some(v@),
            None => upper_bound(prefix@) is None,
        },
{
    let mut upper = vstd::slice::slice_to_vec(prefix);
    while upper.len() > 0
        invariant
            upper_bound(prefix@) == upper_bound(upper@),
        decreases upper@.len(),
    {
        let ghost before = upper@;
        let last = upper.pop().unwrap();
        assert(upper@ =~= before.drop_last());
        if last < 0xFF {
            upper.push(last + 1);
            return Some(upper);
        }
    }
    None
}

/// Lexicographic comparison is decided at the first position where the two
/// sequences differ or one of them ends.
pub proof fn lemma_lex_at(a: Seq<u8>, b: Seq<u8>, i: int)
    requires
        0 <= i <= a.len(),
        i <= b.len(),
        a.take(i) == b.take(i),
    ensures
        i < a.len() && i < b.len() && a[i] != b[i] ==> (lex_lt(a, b) <==> a[i] < b[i]),
        i == a.len() ==> (lex_lt(a, b) <==> i < b.len()),
        i == b.len() && i < a.len() ==> !lex_lt(a, b),
    decreases i,
{
    if i > 0 {
        assert(a[0] == a.take(i)[0] && b[0] == b.take(i)[0]);
        assert(a.drop_first().take(i - 1) =~= a.take(i).drop_first());
        assert(b.drop_first().take(i - 1) =~= b.take(i).drop_first());
        lemma_lex_at(a.drop_first(), b.drop_first(), i - 1);
    }
}

/// Two sequences agree up to some position where they differ or one ends.
pub proof fn lemma_common_prefix(a: Seq<u8>, b: Seq<u8>) -> (i: int)
    ensures
        0 <= i <= a.len(),
        i <= b.len(),
        a.take(i) == b.take(i),
        i < a.len() && i < b.len() ==> a[i] != b[i],
    decreases a.len(),
{
    if a.len() == 0 || b.len() == 0 || a[0] != b[0] {
        assert(a.take(0) =~= b.take(0));
        0
    } else {
        let j = lemma_common_prefix(a.drop_first(), b.drop_first());
        assert(a.take(j + 1) =~= seq![a[0]] + a.drop_first().take(j));
        assert(b.take(j + 1) =~= seq![b[0]] + b.drop_first().take(j));
        j + 1
    }
}

/// A sequence is never below one of its prefixes.
pub proof fn lemma_prefix_not_less(p: Seq<u8>, k: Seq<u8>)
    requires
        p.is_prefix_of(k),
    ensures
        !lex_lt(k, p),
{
    assert(p.take(p.len() as int) =~= p);
    lemma_lex_at(k, p, p.len() as int);
}

/// The range `[prefix, upper_bound(prefix))` (unbounded above when there is
/// no upper bound) holds exactly the keys that start with `prefix`.
pub proof fn lemma_prefix_range_exact(p: Seq<u8>, k: Seq<u8>)
    ensures
        p.is_prefix_of(k) <==> (!lex_lt(k, p) && match upper_bound(p) {
            Some(u) => lex_lt(k, u),
            None => true,
        }),
    decreases p.len(),
{
    if p.len() == 0 {
        assert(k.take(0) =~= p);
        lemma_prefix_not_less(p, k);
    } else {
        let q = p.drop_last();
        let n = q.len() as int;
        let x = p.last();
        assert(p =~= q.push(x));
        if x == 0xFF {
            lemma_prefix_range_exact(q, k);
            if p.is_prefix_of(k) {
                assert(k.take(n) =~= p.take(n));
                assert(p.take(n) =~= q);
                lemma_prefix_not_less(p, k);
            } else if !lex_lt(k, p) && match upper_bound(p) { Some(u) => lex_lt(k, u), None => true } {
                // k is at least q, hence starts with q
                assert(q.take(n) =~= p.take(n));
                lemma_lex_at(q, p, n);
                if lex_lt(k, q) {
                    lemma_lex_transitive(k, q, p);
                }
                assert(q.is_prefix_of(k));
                assert(k.take(n) =~= p.take(n));
                lemma_lex_at(k, p, n);
                assert(k[n] == 0xFF);
                assert(k.take(n + 1) =~= p);
            }
        } else {
            let u = q.push((x + 1) as u8);
            assert(upper_bound(p) == Some(u));
            assert(u.take(n) =~= q);
            assert(p.take(n) =~= q);
            if p.is_prefix_of(k) {
                lemma_prefix_not_less(p, k);
                assert(k.take(n) =~= q);
                assert(k[n] == p[n]);
                lemma_lex_at(k, u, n);
            } else if !lex_lt(k, p) && lex_lt(k, u) {
                let i = lemma_common_prefix(k, q);
                if i < n && i < k.len() {
                    assert(k.take(i) =~= p.take(i));
                    assert(k.take(i) =~= u.take(i));
                    assert(p[i] == q[i] && u[i] == q[i]);
                    lemma_lex_at(k, p, i);
                    lemma_lex_at(k, u, i);
                } else if i == k.len() && i < n {
                    assert(k.take(i) =~= p.take(i));
                    lemma_lex_at(k, p, i);
                } else {
                    assert(i == n);
                    assert(k.take(n) =~= p.take(n));
                    assert(k.take(n) =~= u.take(n));
                    lemma_lex_at(k, p, n);
                    lemma_lex_at(k, u, n);
                    if k[n] == u[n] {
                        assert(k.take(n + 1) =~= u);
                        assert(u.take(n + 1) =~= u);
                        lemma_lex_at(k, u, n + 1);
                        if k.len() == n + 1 {
                            assert(k =~= u);
                            lemma_lex_irreflexive(u);
                        }
                    }
                    assert(k[n] == x);
                    assert(k.take(n + 1) =~= p);
                }
            }
        }
    }
}

// ---------------------------------------------------------------------------
// Paged prefix scans
// ---------------------------------------------------------------------------

/// Paging state of a prefix scan done in batches: the next batch scans
/// `[start, upper)` (unbounded above without `upper`), at most `batch_size`
/// keys at a time.
pub struct ScanCursor {
    pub start: Vec<u8>,
    pub upper: Option<Vec<u8>>,
    pub batch_size: usize,
    pub exhausted: bool,
}

/// Plain value of an optional key.
pub open spec fn opt_key(k: Option<Vec<u8>>) -> Option<Seq<u8>> {
    match k {
        Some(v) => Some(v@),
        None => None,
    }
}

/// The smallest key after `k`: `k` followed by a zero byte.
pub open spec fn successor(k: Seq<u8>) -> Seq<u8> {
    k.push(0)
}

impl ScanCursor {
    /// A cursor over the keys that start with `prefix`.
    pub fn new(prefix: &[u8], batch_size: usize) -> (r: Self)
        ensures
            r.start@ == prefix@,
            opt_key(r.upper) == upper_bound(prefix@),
            r.batch_size == batch_size,
            !r.exhausted,
    {
        let upper = prefix_upper_bound(prefix);
        let start = vstd::slice::slice_to_vec(prefix);
        ScanCursor { start, upper, batch_size, exhausted: false }
    }

    /// Takes in the keys that a scan of the current range returned: the scan
    /// is over when the batch is empty or short, and the next one starts just
    /// after the last key returned.
    pub fn advance(&mut self, keys: &[Vec<u8>])
        ensures
            final(self).exhausted == (old(self).exhausted || keys@.len() == 0 || keys@.len() < old(self).batch_size),
            final(self).start@ == (if keys@.len() > 0 { successor(keys@.last()@) } else { old(self).start@ }),
            opt_key(final(self).upper) == opt_key(old(self).upper),
            final(self).batch_size == old(self).batch_size,
    {
        if keys.len() == 0 || keys.len() < self.batch_size {
            self.exhausted = true;
        }
        if keys.len() > 0 {
            let mut next = vstd::slice::slice_to_vec(keys[keys.len() - 1].as_slice());
            next.push(0);
            self.start = next;
        }
    }
}

/// The next batch misses no key and repeats none: a key comes after the last
/// key returned exactly when it is not before the next start.
pub proof fn lemma_successor_is_next(last: Seq<u8>, k: Seq<u8>)
    ensures
        lex_lt(last, k) <==> !lex_lt(k, successor(last)),
    decreases last.len(),
{
    let s = successor(last);
    if last.len() == 0 {
        assert(s =~= seq![0u8]);
        assert(s.len() == 1 && s[0] == 0);
        if k.len() > 0 {
            assert(lex_lt(last, k));
            if k[0] == 0 {
                assert(s.drop_first() =~= Seq::<u8>::empty());
                assert(!lex_lt(k.drop_first(), s.drop_first()));
            }
            assert(!lex_lt(k, s));
        } else {
            assert(lex_lt(k, s));
        }
    } else if k.len() > 0 {
        assert(s[0] == last[0]);
        assert(s.drop_first() =~= successor(last.drop_first()));
        if k[0] == last[0] {
            lemma_successor_is_next(last.drop_first(), k.drop_first());
        }
    }
}

/// Keys in strictly increasing order.
pub open spec fn strictly_sorted(keys: Seq<Seq<u8>>) -> bool {
    forall|i: int, j: int| 0 <= i < j < keys.len() ==> lex_lt(keys[i], keys[j])
}

/// Paged scans tile the range: after a batch that ended with the `m`-th key
/// of a sorted range, the keys at or after the next start are exactly the
/// keys after it, so the next batch neither repeats nor skips a key.
pub proof fn lemma_next_batch_start(keys: Seq<Seq<u8>>, m: int)
    requires
        strictly_sorted(keys),
        0 < m <= keys.len(),
    ensures
        forall|j: int| 0 <= j < keys.len() ==> (!lex_lt(#[trigger] keys[j], successor(keys[m - 1])) <==> j >= m),
{
    assert forall|j: int| 0 <= j < keys.len() implies (!lex_lt(#[trigger] keys[j], successor(keys[m - 1])) <==> j >= m) by {
        lemma_successor_is_next(keys[m - 1], keys[j]);
        if j < m - 1 {
            assert(lex_lt(keys[j], keys[m - 1]));
            if lex_lt(keys[m - 1], keys[j]) {
                lemma_lex_transitive(keys[j], keys[m - 1], keys[j]);
                lemma_lex_irreflexive(keys[j]);
            }
        } else if j == m - 1 {
            lemma_lex_irreflexive(keys[j]);
        } else {
            assert(lex_lt(keys[m - 1], keys[j]));
        }
    }
}

/// Keys of one table keep their order under the table prefix.
pub proof fn lemma_prefixed_key_order(table: u8, a: Seq<u8>, b: Seq<u8>)
    ensures
        lex_lt(seq![table] + a, seq![table] + b) <==> lex_lt(a, b),
{
    let pa = seq![table] + a;
    let pb = seq![table] + b;
    assert(pa.drop_first() =~= a);
    assert(pb.drop_first() =~= b);
    assert(pa[0] == table && pb[0] == table);
}

} // verus!
