//! Index layout of the TiKV storage backend: the keys written for a quad in
//! each index table, and the prefix scans that answer a quad pattern.
use vstd::prelude::*;
use crate::term::{
    TABLE_SPOG, TABLE_POSG, TABLE_OSPG, TABLE_GSPO, TABLE_GPOS, TABLE_GOSP, TABLE_DSPO,
    TABLE_DPOS, TABLE_DOSP, TermScan, term_scan, is_complete_term, lemma_complete_term_prefix,
};
use crate::tikv::{ScanCursor, prefixed_key, opt_key, upper_bound};
use crate::backend::StorageError;
use crate::text::{push_str, push_decimal, decimal};
use crate::term::TABLE_GRAPHS;

verus! {

// ---------------------------------------------------------------------------
// Model
// ---------------------------------------------------------------------------

/// Plain model of an encoded quad: the bytes of its encoded terms, with no
/// graph bytes for the default graph.
pub struct EncodedQuadModel {
    pub subject: Seq<u8>,
    pub predicate: Seq<u8>,
    pub object: Seq<u8>,
    pub graph_name: Option<Seq<u8>>,
}

/// Plain model of a quad pattern: `None` leaves a term free; for the graph,
/// `Some(None)` asks for the default graph.
pub struct QuadPatternModel {
    pub subject: Option<Seq<u8>>,
    pub predicate: Option<Seq<u8>>,
    pub object: Option<Seq<u8>>,
    pub graph_name: Option<Option<Seq<u8>>>,
}

/// The bytes of a sequence of encoded terms, one after the other.
pub open spec fn term_concat(ts: Seq<Seq<u8>>) -> Seq<u8>
    decreases ts.len(),
{
    if ts.len() == 0 {
        Seq::empty()
    } else {
        ts[0] + term_concat(ts.drop_first())
    }
}

/// Every element is exactly one encoded term.
pub open spec fn all_complete(ts: Seq<Seq<u8>>) -> bool {
    forall|i: int| 0 <= i < ts.len() ==> is_complete_term(#[trigger] ts[i])
}

/// `k` starts with `p`.
pub open spec fn starts_with(k: Seq<u8>, p: Seq<u8>) -> bool {
    p.len() <= k.len() && k.take(p.len() as int) == p
}

/// `ps` is a leading part of `ts`.
pub open spec fn leading(ps: Seq<Seq<u8>>, ts: Seq<Seq<u8>>) -> bool {
    ps.len() <= ts.len() && forall|i: int| 0 <= i < ps.len() ==> ps[i] == ts[i]
}

/// The graph bytes of a quad (empty for the default graph).
pub open spec fn graph_bytes(q: EncodedQuadModel) -> Seq<u8> {
    match q.graph_name {
        Some(g) => g,
        None => Seq::empty(),
    }
}

/// The encoded terms of a quad in the key order of an index table.
pub open spec fn key_terms(table: u8, q: EncodedQuadModel) -> Seq<Seq<u8>> {
    let (s, p, o, g) = (q.subject, q.predicate, q.object, graph_bytes(q));
    if table == TABLE_SPOG {
        seq![s, p, o, g]
    } else if table == TABLE_POSG {
        seq![p, o, s, g]
    } else if table == TABLE_OSPG {
        seq![o, s, p, g]
    } else if table == TABLE_GSPO {
        seq![g, s, p, o]
    } else if table == TABLE_GPOS {
        seq![g, p, o, s]
    } else if table == TABLE_GOSP {
        seq![g, o, s, p]
    } else if table == TABLE_DSPO {
        seq![s, p, o]
    } else if table == TABLE_DPOS {
        seq![p, o, s]
    } else if table == TABLE_DOSP {
        seq![o, s, p]
    } else {
        Seq::empty()
    }
}

/// The index tables a quad is written to: the three default-graph tables
/// for a quad of the default graph, the six others for a named graph.
pub open spec fn quad_tables(q: EncodedQuadModel) -> Seq<u8> {
    match q.graph_name {
        None => seq![TABLE_DSPO, TABLE_DPOS, TABLE_DOSP],
        Some(_) => seq![TABLE_SPOG, TABLE_POSG, TABLE_OSPG, TABLE_GSPO, TABLE_GPOS, TABLE_GOSP],
    }
}

/// The key of a quad in an index table.
pub open spec fn index_key(table: u8, q: EncodedQuadModel) -> Seq<u8> {
    seq![table] + term_concat(key_terms(table, q))
}

/// The index keys written (and deleted) for a quad, one per table of
/// `quad_tables`, in that order.
pub open spec fn index_keys(q: EncodedQuadModel) -> Seq<Seq<u8>> {
    quad_tables(q).map_values(|t: u8| index_key(t, q))
}

/// The terms of an optional pattern term.
pub open spec fn bound(x: Option<Seq<u8>>) -> Seq<Seq<u8>> {
    match x {
        Some(t) => seq![t],
        None => Seq::empty(),
    }
}

/// For the subject, predicate and object of a pattern: the default-graph
/// table to scan, the table over all named graphs to scan with it, and the
/// leading terms of the scanned keys.
pub open spec fn triple_plan(s: Option<Seq<u8>>, p: Option<Seq<u8>>, o: Option<Seq<u8>>) -> (u8, u8, Seq<Seq<u8>>) {
    match s {
        Some(st) => if p is Some || o is None {
            (TABLE_DSPO, TABLE_SPOG, seq![st] + bound(p) + bound(o))
        } else {
            (TABLE_DOSP, TABLE_OSPG, bound(o) + seq![st])
        },
        None => if p is Some {
            (TABLE_DPOS, TABLE_POSG, bound(p) + bound(o))
        } else if o is Some {
            (TABLE_DOSP, TABLE_OSPG, bound(o))
        } else {
            (TABLE_DSPO, TABLE_GSPO, Seq::empty())
        },
    }
}

/// For a pattern on one named graph: the table to scan and the leading
/// terms of the scanned keys.
pub open spec fn named_plan(s: Option<Seq<u8>>, p: Option<Seq<u8>>, o: Option<Seq<u8>>, g: Seq<u8>) -> (u8, Seq<Seq<u8>>) {
    match s {
        Some(st) => if p is Some || o is None {
            (TABLE_GSPO, seq![g, st] + bound(p) + bound(o))
        } else {
            (TABLE_GOSP, seq![g] + bound(o) + seq![st])
        },
        None => if p is Some {
            (TABLE_GPOS, seq![g] + bound(p) + bound(o))
        } else if o is Some {
            (TABLE_GOSP, seq![g] + bound(o))
        } else {
            (TABLE_GSPO, seq![g])
        },
    }
}

/// The prefix scans that answer a pattern, as (table, leading terms): a
/// pattern on any graph scans a default-graph table and a table over all
/// named graphs; a pattern on one graph scans one table.
pub open spec fn scan_plan(pat: QuadPatternModel) -> Seq<(u8, Seq<Seq<u8>>)> {
    let (d, a, ts) = triple_plan(pat.subject, pat.predicate, pat.object);
    match pat.graph_name {
        None => seq![(d, ts), (a, ts)],
        Some(None) => seq![(d, ts)],
        Some(Some(g)) => seq![named_plan(pat.subject, pat.predicate, pat.object, g)],
    }
}

/// The key prefix of a planned scan.
pub open spec fn plan_prefix(e: (u8, Seq<Seq<u8>>)) -> Seq<u8> {
    seq![e.0] + term_concat(e.1)
}

/// Whether a quad matches a pattern.
pub open spec fn pattern_matches(pat: QuadPatternModel, q: EncodedQuadModel) -> bool {
    &&& (pat.subject matches Some(s) ==> s == q.subject)
    &&& (pat.predicate matches Some(p) ==> p == q.predicate)
    &&& (pat.object matches Some(o) ==> o == q.object)
    &&& (pat.graph_name matches Some(g) ==> g == q.graph_name)
}

/// Every term of the quad is one complete encoded term.
pub open spec fn quad_complete(q: EncodedQuadModel) -> bool {
    &&& is_complete_term(q.subject)
    &&& is_complete_term(q.predicate)
    &&& is_complete_term(q.object)
    &&& (q.graph_name matches Some(g) ==> is_complete_term(g))
}

/// Every term the pattern fixes is one complete encoded term.
pub open spec fn pattern_complete(pat: QuadPatternModel) -> bool {
    &&& (pat.subject matches Some(s) ==> is_complete_term(s))
    &&& (pat.predicate matches Some(p) ==> is_complete_term(p))
    &&& (pat.object matches Some(o) ==> is_complete_term(o))
    &&& (pat.graph_name matches Some(Some(g)) ==> is_complete_term(g))
}

/// Scan `i` of the plan finds key `j` of the quad.
pub open spec fn scan_hit(plan: Seq<(u8, Seq<Seq<u8>>)>, keys: Seq<Seq<u8>>, i: int, j: int) -> bool {
    0 <= i < plan.len() && 0 <= j < keys.len() && starts_with(keys[j], plan_prefix(plan[i]))
}

// ---------------------------------------------------------------------------
// Lemmas on encoded terms
// ---------------------------------------------------------------------------

/// A complete term is never empty.
pub proof fn lemma_complete_nonempty(t: Seq<u8>)
    requires
        is_complete_term(t),
    ensures
        t.len() >= 1,
{
    if t.len() == 0 {
        assert(term_scan(t) == TermScan::Empty);
    }
}

/// For complete terms, the bytes of `ps` start the bytes of `ts` exactly
/// when `ps` is a leading part of `ts`.
pub proof fn lemma_concat_prefix(ps: Seq<Seq<u8>>, ts: Seq<Seq<u8>>)
    requires
        all_complete(ps),
        all_complete(ts),
    ensures
        starts_with(term_concat(ts), term_concat(ps)) <==> leading(ps, ts),
    decreases ts.len(),
{
    if ps.len() == 0 {
        assert(term_concat(ps) =~= Seq::<u8>::empty());
        assert(term_concat(ts).take(0) =~= Seq::<u8>::empty());
    } else if ts.len() == 0 {
        lemma_complete_nonempty(ps[0]);
        assert(term_concat(ts).len() == 0);
    } else {
        let fp = term_concat(ps);
        let ft = term_concat(ts);
        let rp = term_concat(ps.drop_first());
        let rt = term_concat(ts.drop_first());
        assert(fp == ps[0] + rp);
        assert(ft == ts[0] + rt);
        assert(all_complete(ps.drop_first())) by {
            assert forall|i: int| 0 <= i < ps.drop_first().len() implies is_complete_term(#[trigger] ps.drop_first()[i]) by {
                assert(ps.drop_first()[i] == ps[i + 1]);
            }
        }
        assert(all_complete(ts.drop_first())) by {
            assert forall|i: int| 0 <= i < ts.drop_first().len() implies is_complete_term(#[trigger] ts.drop_first()[i]) by {
                assert(ts.drop_first()[i] == ts[i + 1]);
            }
        }
        lemma_concat_prefix(ps.drop_first(), ts.drop_first());
        if starts_with(ft, fp) {
            let rest = ft.skip(fp.len() as int);
            assert(ft =~= fp + rest);
            assert(ts[0] + rt =~= ps[0] + (rp + rest));
            lemma_complete_term_prefix(ts[0], rt, ps[0], rp + rest);
            assert(rt.take(rp.len() as int) =~= rp);
            assert(leading(ps, ts)) by {
                assert forall|i: int| 0 <= i < ps.len() implies ps[i] == ts[i] by {
                    if i > 0 {
                        assert(ps[i] == ps.drop_first()[i - 1]);
                        assert(ts[i] == ts.drop_first()[i - 1]);
                    }
                }
            }
        }
        if leading(ps, ts) {
            assert(leading(ps.drop_first(), ts.drop_first())) by {
                assert forall|i: int| 0 <= i < ps.drop_first().len() implies ps.drop_first()[i] == ts.drop_first()[i] by {
                    assert(ps[i + 1] == ts[i + 1]);
                }
            }
            assert(ps[0] == ts[0]);
            assert(rt.take(rp.len() as int) == rp);
            assert(ft.take(fp.len() as int) =~= ps[0] + rt.take(rp.len() as int));
        }
    }
}

/// Whether the key of a quad in table `t` is found by a scan.
pub proof fn lemma_hit_iff(e: (u8, Seq<Seq<u8>>), t: u8, q: EncodedQuadModel)
    requires
        all_complete(e.1),
        all_complete(key_terms(t, q)),
    ensures
        starts_with(index_key(t, q), plan_prefix(e)) <==> (t == e.0 && leading(e.1, key_terms(t, q))),
{
    let kc = term_concat(key_terms(t, q));
    let pc = term_concat(e.1);
    let k = index_key(t, q);
    let p = plan_prefix(e);
    assert(k =~= seq![t] + kc);
    assert(p =~= seq![e.0] + pc);
    lemma_concat_prefix(e.1, key_terms(t, q));
    if starts_with(k, p) {
        assert(k[0] == k.take(p.len() as int)[0]);
        assert(k[0] == t);
        assert(p[0] == e.0);
        assert(kc.take(pc.len() as int) =~= k.take(p.len() as int).drop_first());
        assert(p.drop_first() =~= pc);
        assert(starts_with(kc, pc));
    }
    if t == e.0 && starts_with(kc, pc) {
        assert(k.take(p.len() as int) =~= seq![t] + kc.take(pc.len() as int));
    }
}

/// The terms a pattern fixes are complete, and so are the leading terms of
/// each of its scans.
proof fn lemma_plan_complete(pat: QuadPatternModel)
    requires
        pattern_complete(pat),
    ensures
        forall|i: int| 0 <= i < scan_plan(pat).len() ==> all_complete(#[trigger] scan_plan(pat)[i].1),
{
    let plan = scan_plan(pat);
    assert forall|i: int| 0 <= i < plan.len() implies all_complete(#[trigger] plan[i].1) by {
        let ts = plan[i].1;
        assert forall|k: int| 0 <= k < ts.len() implies is_complete_term(#[trigger] ts[k]) by {}
    }
}

/// The key terms of a quad in each table it is written to are complete.
proof fn lemma_key_terms_complete(q: EncodedQuadModel)
    requires
        quad_complete(q),
    ensures
        forall|j: int| 0 <= j < quad_tables(q).len() ==> all_complete(#[trigger] key_terms(quad_tables(q)[j], q)),
{
    assert forall|j: int| 0 <= j < quad_tables(q).len() implies all_complete(#[trigger] key_terms(quad_tables(q)[j], q)) by {
        let ts = key_terms(quad_tables(q)[j], q);
        assert forall|k: int| 0 <= k < ts.len() implies is_complete_term(#[trigger] ts[k]) by {}
    }
}

/// Position of a table among the tables a quad is written to.
spec fn table_pos(q: EncodedQuadModel, t: u8) -> int {
    match q.graph_name {
        None => if t == TABLE_DSPO { 0 } else if t == TABLE_DPOS { 1 } else { 2 },
        Some(_) => if t == TABLE_SPOG {
            0
        } else if t == TABLE_POSG {
            1
        } else if t == TABLE_OSPG {
            2
        } else if t == TABLE_GSPO {
            3
        } else if t == TABLE_GPOS {
            4
        } else {
            5
        },
    }
}

/// Scan `i` of the plan of `pat` reaches the key of `q` in its `j`-th
/// table: same table, and the scan's terms lead the key's terms.
pub open spec fn hit_cond(pat: QuadPatternModel, q: EncodedQuadModel, i: int, j: int) -> bool {
    &&& 0 <= i < scan_plan(pat).len()
    &&& 0 <= j < quad_tables(q).len()
    &&& quad_tables(q)[j] == scan_plan(pat)[i].0
    &&& leading(scan_plan(pat)[i].1, key_terms(quad_tables(q)[j], q))
}

/// The scan terms of a pattern without graph lead the key terms of a quad
/// in the corresponding table when the quad matches.
proof fn lemma_triple_leading(s: Option<Seq<u8>>, p: Option<Seq<u8>>, o: Option<Seq<u8>>, q: EncodedQuadModel)
    requires
        s matches Some(x) ==> x == q.subject,
        p matches Some(x) ==> x == q.predicate,
        o matches Some(x) ==> x == q.object,
    ensures
        leading(triple_plan(s, p, o).2, key_terms(triple_plan(s, p, o).0, q)),
        q.graph_name is Some ==> leading(triple_plan(s, p, o).2, key_terms(triple_plan(s, p, o).1, q)),
{
    let ts = triple_plan(s, p, o).2;
    match s {
        Some(st) => {
            if p is Some || o is None {
                assert(ts =~= seq![st] + bound(p) + bound(o));
            } else {
                assert(ts =~= seq![o->0, st]);
            }
        }
        None => {
            if p is Some {
                assert(ts =~= seq![p->0] + bound(o));
            }
        }
    }
}

/// The scan terms of a pattern on a named graph lead the key terms of a
/// quad of that graph in the scanned table when the quad matches.
proof fn lemma_named_leading(s: Option<Seq<u8>>, p: Option<Seq<u8>>, o: Option<Seq<u8>>, g: Seq<u8>, q: EncodedQuadModel)
    requires
        s matches Some(x) ==> x == q.subject,
        p matches Some(x) ==> x == q.predicate,
        o matches Some(x) ==> x == q.object,
        q.graph_name == Some(g),
    ensures
        leading(named_plan(s, p, o, g).1, key_terms(named_plan(s, p, o, g).0, q)),
{
    let ts = named_plan(s, p, o, g).1;
    match s {
        Some(st) => {
            if p is Some || o is None {
                assert(ts =~= seq![g, st] + bound(p) + bound(o));
            } else {
                assert(ts =~= seq![g, o->0, st]);
            }
        }
        None => {
            if p is Some {
                assert(ts =~= seq![g, p->0] + bound(o));
            } else if o is Some {
                assert(ts =~= seq![g, o->0]);
            } else {
                assert(ts =~= seq![g]);
            }
        }
    }
}

/// A matching quad is reached by some scan of the plan.
proof fn lemma_cond_complete(pat: QuadPatternModel, q: EncodedQuadModel)
    requires
        pattern_matches(pat, q),
    ensures
        exists|i: int, j: int| hit_cond(pat, q, i, j),
{
    let plan = scan_plan(pat);
    let (d, a, ts) = triple_plan(pat.subject, pat.predicate, pat.object);
    lemma_triple_leading(pat.subject, pat.predicate, pat.object, q);
    match pat.graph_name {
        None => {
            let i: int = if q.graph_name is Some { 1 } else { 0 };
            let j = table_pos(q, plan[i].0);
            assert(hit_cond(pat, q, i, j));
        }
        Some(None) => {
            let j = table_pos(q, d);
            assert(hit_cond(pat, q, 0, j));
        }
        Some(Some(g)) => {
            lemma_named_leading(pat.subject, pat.predicate, pat.object, g, q);
            let j = table_pos(q, plan[0].0);
            assert(hit_cond(pat, q, 0, j));
        }
    }
}

/// A quad reached by a scan of the plan matches the pattern.
#[verifier::spinoff_prover]
#[verifier::rlimit(30)]
proof fn lemma_cond_sound(pat: QuadPatternModel, q: EncodedQuadModel, i: int, j: int)
    requires
        hit_cond(pat, q, i, j),
    ensures
        pattern_matches(pat, q),
{
    let plan = scan_plan(pat);
    let t = quad_tables(q)[j];
    let kt = key_terms(t, q);
    let ps = plan[i].1;
    assert(leading(ps, kt));
    let (s, p, o) = (pat.subject, pat.predicate, pat.object);
    match pat.graph_name {
        Some(Some(_)) => {
            assert(ps[0] == kt[0]);
            match s {
                Some(_) => {
                    assert(ps[1] == kt[1]);
                    if p is Some {
                        assert(ps[2] == kt[2]);
                        if o is Some {
                            assert(ps[3] == kt[3]);
                        }
                    } else if o is Some {
                        assert(ps[2] == kt[2]);
                    }
                }
                None => {
                    if p is Some {
                        assert(ps[1] == kt[1]);
                        if o is Some {
                            assert(ps[2] == kt[2]);
                        }
                    } else if o is Some {
                        assert(ps[1] == kt[1]);
                    }
                }
            }
        }
        _ => {
            match s {
                Some(_) => {
                    assert(ps[0] == kt[0]);
                    if p is Some {
                        assert(ps[1] == kt[1]);
                        if o is Some {
                            assert(ps[2] == kt[2]);
                        }
                    } else if o is Some {
                        assert(ps[1] == kt[1]);
                    }
                }
                None => {
                    if p is Some {
                        assert(ps[0] == kt[0]);
                        if o is Some {
                            assert(ps[1] == kt[1]);
                        }
                    } else if o is Some {
                        assert(ps[0] == kt[0]);
                    }
                }
            }
        }
    }
}

/// At most one scan reaches at most one key of a quad.
proof fn lemma_cond_unique(pat: QuadPatternModel, q: EncodedQuadModel, i1: int, j1: int, i2: int, j2: int)
    requires
        hit_cond(pat, q, i1, j1),
        hit_cond(pat, q, i2, j2),
    ensures
        i1 == i2,
        j1 == j2,
{
}

/// Scanning the plan of a pattern over the index keys of a quad finds the
/// quad exactly when it matches the pattern, and then through exactly one
/// scan and one key: a pattern scan misses no matching quad, returns no
/// other, and returns each one once.
#[verifier::spinoff_prover]
#[verifier::rlimit(30)]
pub proof fn lemma_scan_plan_exact(pat: QuadPatternModel, q: EncodedQuadModel)
    requires
        quad_complete(q),
        pattern_complete(pat),
    ensures
        pattern_matches(pat, q) <==> (exists|i: int, j: int| scan_hit(scan_plan(pat), index_keys(q), i, j)),
        forall|i1: int, j1: int, i2: int, j2: int|
            scan_hit(scan_plan(pat), index_keys(q), i1, j1) && scan_hit(scan_plan(pat), index_keys(q), i2, j2)
                ==> i1 == i2 && j1 == j2,
{
    let plan = scan_plan(pat);
    let keys = index_keys(q);
    lemma_plan_complete(pat);
    lemma_key_terms_complete(q);
    assert forall|i: int, j: int| #![trigger scan_hit(plan, keys, i, j)] #![trigger hit_cond(pat, q, i, j)]
        scan_hit(plan, keys, i, j) <==> hit_cond(pat, q, i, j) by {
        if 0 <= i < plan.len() && 0 <= j < keys.len() {
            assert(keys[j] == index_key(quad_tables(q)[j], q));
            lemma_hit_iff(plan[i], quad_tables(q)[j], q);
        }
    }
    if pattern_matches(pat, q) {
        lemma_cond_complete(pat, q);
        let (i, j) = choose|i: int, j: int| hit_cond(pat, q, i, j);
        assert(scan_hit(plan, keys, i, j));
    }
    assert forall|i: int, j: int| #[trigger] scan_hit(plan, keys, i, j) implies pattern_matches(pat, q) by {
        lemma_cond_sound(pat, q, i, j);
    }
    assert forall|i1: int, j1: int, i2: int, j2: int|
        scan_hit(plan, keys, i1, j1) && scan_hit(plan, keys, i2, j2) implies i1 == i2 && j1 == j2 by {
        lemma_cond_unique(pat, q, i1, j1, i2, j2);
    }
}

/// An index key identifies its quad and its table: two quads that share
/// an index key are the same quad, and the key sits at the same place among
/// their keys.
pub proof fn lemma_index_keys_injective(q1: EncodedQuadModel, q2: EncodedQuadModel, j1: int, j2: int)
    requires
        quad_complete(q1),
        quad_complete(q2),
        0 <= j1 < index_keys(q1).len(),
        0 <= j2 < index_keys(q2).len(),
        index_keys(q1)[j1] == index_keys(q2)[j2],
    ensures
        q1 == q2,
        j1 == j2,
{
    let t1 = quad_tables(q1)[j1];
    let t2 = quad_tables(q2)[j2];
    let k = index_keys(q1)[j1];
    assert(k == index_key(t1, q1));
    assert(k == index_key(t2, q2));
    assert(k[0] == t1 && k[0] == t2);
    lemma_key_terms_complete(q1);
    lemma_key_terms_complete(q2);
    let kt1 = key_terms(t1, q1);
    let kt2 = key_terms(t1, q2);
    let c = term_concat(kt1);
    assert(c =~= k.drop_first());
    assert(term_concat(kt2) =~= k.drop_first());
    assert(c.take(c.len() as int) =~= c);
    lemma_concat_prefix(kt1, kt2);
    lemma_concat_prefix(kt2, kt1);
    assert(leading(kt1, kt2) && leading(kt2, kt1));
    assert(kt1.len() == kt2.len());
    assert(q1.graph_name is Some <==> q2.graph_name is Some);
    if q1.graph_name is Some {
        assert(kt1[0] == kt2[0] && kt1[1] == kt2[1] && kt1[2] == kt2[2] && kt1[3] == kt2[3]);
    } else {
        assert(kt1[0] == kt2[0] && kt1[1] == kt2[1] && kt1[2] == kt2[2]);
    }
}

/// The bytes of two term sequences one after the other.
pub proof fn lemma_concat_append(xs: Seq<Seq<u8>>, ys: Seq<Seq<u8>>)
    ensures
        term_concat(xs + ys) == term_concat(xs) + term_concat(ys),
    decreases xs.len(),
{
    if xs.len() == 0 {
        assert(xs + ys =~= ys);
        assert(term_concat(xs) + term_concat(ys) =~= term_concat(ys));
    } else {
        assert((xs + ys).drop_first() =~= xs.drop_first() + ys);
        assert((xs + ys)[0] == xs[0]);
        lemma_concat_append(xs.drop_first(), ys);
        assert(term_concat(xs + ys) =~= xs[0] + (term_concat(xs.drop_first()) + term_concat(ys)));
    }
}

/// The bytes of one term.
pub proof fn lemma_concat_one(t: Seq<u8>)
    ensures
        term_concat(seq![t]) == t,
{
    assert(seq![t].drop_first() =~= Seq::<Seq<u8>>::empty());
    assert(term_concat(Seq::<Seq<u8>>::empty()) =~= Seq::<u8>::empty());
    assert(seq![t][0] == t);
    assert(term_concat(seq![t]) =~= t + Seq::<u8>::empty());
}

/// The bytes of an optional pattern term.
pub open spec fn opt_bytes(x: Option<Seq<u8>>) -> Seq<u8> {
    match x {
        Some(t) => t,
        None => Seq::empty(),
    }
}

proof fn lemma_concat_bound(x: Option<Seq<u8>>)
    ensures
        term_concat(bound(x)) == opt_bytes(x),
{
    match x {
        Some(t) => lemma_concat_one(t),
        None => {}
    }
}

// ---------------------------------------------------------------------------
// Executable layout
// ---------------------------------------------------------------------------

/// The graph of an encoded quad or pattern: the default graph, or the bytes
/// of a named graph's encoded term.
#[derive(Clone, Debug)]
pub enum GraphKey {
    DefaultGraph,
    Named(Vec<u8>),
}

/// The graph bytes of a graph key (`None` for the default graph).
pub open spec fn graph_key_view(g: GraphKey) -> Option<Seq<u8>> {
    match g {
        GraphKey::DefaultGraph => None,
        GraphKey::Named(b) => Some(b@),
    }
}

/// An encoded quad: the bytes of its encoded terms.
#[derive(Clone, Debug)]
pub struct EncodedQuad {
    pub subject: Vec<u8>,
    pub predicate: Vec<u8>,
    pub object: Vec<u8>,
    pub graph_name: GraphKey,
}

impl View for EncodedQuad {
    type V = EncodedQuadModel;

    open spec fn view(&self) -> EncodedQuadModel {
        EncodedQuadModel {
            subject: self.subject@,
            predicate: self.predicate@,
            object: self.object@,
            graph_name: graph_key_view(self.graph_name),
        }
    }
}

/// Plain values of byte strings.
pub open spec fn bytes_view(v: Seq<Vec<u8>>) -> Seq<Seq<u8>> {
    v.map_values(|k: Vec<u8>| k@)
}

/// `table` followed by the four byte strings.
fn table_key(table: u8, a: &[u8], b: &[u8], c: &[u8], d: &[u8]) -> (r: Vec<u8>)
    ensures
        r@ == seq![table] + a@ + b@ + c@ + d@,
{
    let mut r: Vec<u8> = Vec::new();
    r.push(table);
    r.extend_from_slice(a);
    r.extend_from_slice(b);
    r.extend_from_slice(c);
    r.extend_from_slice(d);
    assert(r@ =~= seq![table] + a@ + b@ + c@ + d@);
    r
}

/// The bytes of four and of three terms.
proof fn lemma_concat_terms(a: Seq<u8>, b: Seq<u8>, c: Seq<u8>, d: Seq<u8>)
    ensures
        term_concat(seq![a, b, c, d]) == a + b + c + d,
        term_concat(seq![a, b, c]) == a + b + c,
{
    lemma_concat_append(seq![a], seq![b, c, d]);
    assert(seq![a] + seq![b, c, d] =~= seq![a, b, c, d]);
    lemma_concat_append(seq![b], seq![c, d]);
    assert(seq![b] + seq![c, d] =~= seq![b, c, d]);
    lemma_concat_append(seq![c], seq![d]);
    assert(seq![c] + seq![d] =~= seq![c, d]);
    lemma_concat_one(a);
    lemma_concat_one(b);
    lemma_concat_one(c);
    lemma_concat_one(d);
    lemma_concat_append(seq![a], seq![b, c]);
    assert(seq![a] + seq![b, c] =~= seq![a, b, c]);
    lemma_concat_append(seq![b], seq![c]);
    assert(seq![b] + seq![c] =~= seq![b, c]);
    assert(a + (b + (c + d)) =~= a + b + c + d);
    assert(a + (b + c) =~= a + b + c);
}

/// The index keys written (and deleted) for a quad: for the default graph
/// its keys in the DSPO, DPOS and DOSP tables; for a named graph its keys
/// in the SPOG, POSG, OSPG, GSPO, GPOS and GOSP tables.
#[verifier::spinoff_prover]
#[verifier::rlimit(30)]
pub fn quad_index_keys(q: &EncodedQuad) -> (r: Vec<Vec<u8>>)
    ensures
        bytes_view(r@) == index_keys(q@),
{
    let s = q.subject.as_slice();
    let p = q.predicate.as_slice();
    let o = q.object.as_slice();
    let empty: [u8; 0] = [];
    let e = empty.as_slice();
    let mut r: Vec<Vec<u8>> = Vec::new();
    proof {
        lemma_concat_terms(s@, p@, o@, graph_bytes(q@));
        lemma_concat_terms(p@, o@, s@, graph_bytes(q@));
        lemma_concat_terms(o@, s@, p@, graph_bytes(q@));
        lemma_concat_terms(graph_bytes(q@), s@, p@, o@);
        lemma_concat_terms(graph_bytes(q@), p@, o@, s@);
        lemma_concat_terms(graph_bytes(q@), o@, s@, p@);
        assert(e@ =~= Seq::<u8>::empty());
    }
    match &q.graph_name {
        GraphKey::DefaultGraph => {
            r.push(table_key(TABLE_DSPO, s, p, o, e));
            r.push(table_key(TABLE_DPOS, p, o, s, e));
            r.push(table_key(TABLE_DOSP, o, s, p, e));
            assert(r@[0]@ =~= index_key(TABLE_DSPO, q@));
            assert(r@[1]@ =~= index_key(TABLE_DPOS, q@));
            assert(r@[2]@ =~= index_key(TABLE_DOSP, q@));
        }
        GraphKey::Named(gv) => {
            let g = gv.as_slice();
            r.push(table_key(TABLE_SPOG, s, p, o, g));
            r.push(table_key(TABLE_POSG, p, o, s, g));
            r.push(table_key(TABLE_OSPG, o, s, p, g));
            r.push(table_key(TABLE_GSPO, g, s, p, o));
            r.push(table_key(TABLE_GPOS, g, p, o, s));
            r.push(table_key(TABLE_GOSP, g, o, s, p));
            assert(r@[0]@ =~= index_key(TABLE_SPOG, q@));
            assert(r@[1]@ =~= index_key(TABLE_POSG, q@));
            assert(r@[2]@ =~= index_key(TABLE_OSPG, q@));
            assert(r@[3]@ =~= index_key(TABLE_GSPO, q@));
            assert(r@[4]@ =~= index_key(TABLE_GPOS, q@));
            assert(r@[5]@ =~= index_key(TABLE_GOSP, q@));
        }
    }
    assert(bytes_view(r@) =~= index_keys(q@));
    r
}

/// The bytes of three and of four term sequences one after the other.
proof fn lemma_concat_parts(w: Seq<Seq<u8>>, x: Seq<Seq<u8>>, y: Seq<Seq<u8>>, z: Seq<Seq<u8>>)
    ensures
        term_concat(x + y + z) == term_concat(x) + term_concat(y) + term_concat(z),
        term_concat(w + x + y + z) == term_concat(w) + term_concat(x) + term_concat(y) + term_concat(z),
{
    lemma_concat_append(x + y, z);
    lemma_concat_append(x, y);
    lemma_concat_append(w + x + y, z);
    lemma_concat_append(w + x, y);
    lemma_concat_append(w, x);
}

/// Plain value of an optional byte string.
pub open spec fn opt_slice(x: Option<&[u8]>) -> Option<Seq<u8>> {
    match x {
        Some(b) => Some(b@),
        None => None,
    }
}

/// Plain model of the pattern given to `pattern_scans`.
pub open spec fn pattern_view(
    subject: Option<&[u8]>,
    predicate: Option<&[u8]>,
    object: Option<&[u8]>,
    graph_name: Option<&GraphKey>,
) -> QuadPatternModel {
    QuadPatternModel {
        subject: opt_slice(subject),
        predicate: opt_slice(predicate),
        object: opt_slice(object),
        graph_name: match graph_name {
            Some(g) => Some(graph_key_view(*g)),
            None => None,
        },
    }
}

/// One prefix scan of an index table, with its paging state.
pub struct IndexScan {
    pub table: u8,
    pub cursor: ScanCursor,
}

/// The scan of the keys of `table` that start with `terms`.
fn index_scan(table: u8, terms: &[u8], batch_size: usize) -> (r: IndexScan)
    ensures
        r.table == table,
        r.cursor.start@ == seq![table] + terms@,
        opt_key(r.cursor.upper) == upper_bound(seq![table] + terms@),
        r.cursor.batch_size == batch_size,
        !r.cursor.exhausted,
{
    let prefix = prefixed_key(table, terms);
    IndexScan { table, cursor: ScanCursor::new(prefix.as_slice(), batch_size) }
}

/// Appends the bytes of an optional term.
fn push_opt(out: &mut Vec<u8>, x: Option<&[u8]>)
    ensures
        final(out)@ == old(out)@ + opt_bytes(opt_slice(x)),
{
    match x {
        Some(b) => out.extend_from_slice(b),
        None => {}
    }
    assert(out@ =~= old(out)@ + opt_bytes(opt_slice(x)));
}

/// A scan of the plan: its table, and the bytes of its leading terms.
pub open spec fn scan_matches_plan(r: IndexScan, e: (u8, Seq<Seq<u8>>), batch_size: usize) -> bool {
    &&& r.table == e.0
    &&& r.cursor.start@ == plan_prefix(e)
    &&& opt_key(r.cursor.upper) == upper_bound(plan_prefix(e))
    &&& r.cursor.batch_size == batch_size
    &&& !r.cursor.exhausted
}

/// The prefix scans that answer a quad pattern, in the order the results
/// are returned: for a pattern on any graph, a scan of a default-graph
/// table then one of a table over the named graphs; for a pattern on one
/// graph, one scan. The table is the one whose key order starts with the
/// fixed terms.
#[verifier::spinoff_prover]
#[verifier::rlimit(30)]
pub fn pattern_scans(
    subject: Option<&[u8]>,
    predicate: Option<&[u8]>,
    object: Option<&[u8]>,
    graph_name: Option<&GraphKey>,
    batch_size: usize,
) -> (r: Vec<IndexScan>)
    ensures
        r@.len() == scan_plan(pattern_view(subject, predicate, object, graph_name)).len(),
        forall|i: int| 0 <= i < r@.len() ==> scan_matches_plan(#[trigger] r@[i],
            scan_plan(pattern_view(subject, predicate, object, graph_name))[i], batch_size),
{
    let ghost pat = pattern_view(subject, predicate, object, graph_name);
    let ghost (sp, pp, op) = (pat.subject, pat.predicate, pat.object);
    let ghost tp = triple_plan(sp, pp, op);
    let mut bytes: Vec<u8> = Vec::new();
    let (d, a) = match subject {
        Some(st) => if predicate.is_some() || object.is_none() {
            bytes.extend_from_slice(st);
            push_opt(&mut bytes, predicate);
            push_opt(&mut bytes, object);
            (TABLE_DSPO, TABLE_SPOG)
        } else {
            push_opt(&mut bytes, object);
            bytes.extend_from_slice(st);
            (TABLE_DOSP, TABLE_OSPG)
        },
        None => if predicate.is_some() {
            push_opt(&mut bytes, predicate);
            push_opt(&mut bytes, object);
            (TABLE_DPOS, TABLE_POSG)
        } else if object.is_some() {
            push_opt(&mut bytes, object);
            (TABLE_DOSP, TABLE_OSPG)
        } else {
            (TABLE_DSPO, TABLE_GSPO)
        },
    };
    proof {
        lemma_concat_bound(sp);
        lemma_concat_bound(pp);
        lemma_concat_bound(op);
        lemma_concat_parts(Seq::empty(), bound(sp), bound(pp), bound(op));
        lemma_concat_append(bound(op), bound(sp));
        lemma_concat_append(bound(pp), bound(op));
        if sp is Some {
            assert(bound(sp) == seq![sp->0]);
        }
        assert(bytes@ =~= term_concat(tp.2));
        assert(d == tp.0 && a == tp.1);
    }
    let mut r: Vec<IndexScan> = Vec::new();
    match graph_name {
        None => {
            r.push(index_scan(d, bytes.as_slice(), batch_size));
            r.push(index_scan(a, bytes.as_slice(), batch_size));
        }
        Some(GraphKey::DefaultGraph) => {
            r.push(index_scan(d, bytes.as_slice(), batch_size));
        }
        Some(GraphKey::Named(gv)) => {
            let mut nb: Vec<u8> = Vec::new();
            nb.extend_from_slice(gv.as_slice());
            let t = match subject {
                Some(st) => if predicate.is_some() || object.is_none() {
                    nb.extend_from_slice(st);
                    push_opt(&mut nb, predicate);
                    push_opt(&mut nb, object);
                    TABLE_GSPO
                } else {
                    push_opt(&mut nb, object);
                    nb.extend_from_slice(st);
                    TABLE_GOSP
                },
                None => if predicate.is_some() {
                    push_opt(&mut nb, predicate);
                    push_opt(&mut nb, object);
                    TABLE_GPOS
                } else if object.is_some() {
                    push_opt(&mut nb, object);
                    TABLE_GOSP
                } else {
                    TABLE_GSPO
                },
            };
            proof {
                let g = gv@;
                let np = named_plan(sp, pp, op, g);
                lemma_concat_one(g);
                lemma_concat_parts(seq![g], bound(sp), bound(pp), bound(op));
                lemma_concat_parts(seq![g], bound(pp), bound(op), Seq::empty());
                lemma_concat_parts(seq![g], bound(op), bound(sp), Seq::empty());
                lemma_concat_append(seq![g], bound(op));
                assert(seq![g] + bound(pp) + bound(op) + Seq::<Seq<u8>>::empty() =~= seq![g] + bound(pp) + bound(op));
                assert(seq![g] + bound(op) + bound(sp) + Seq::<Seq<u8>>::empty() =~= seq![g] + bound(op) + bound(sp));
                assert(term_concat(Seq::<Seq<u8>>::empty()) =~= Seq::<u8>::empty());
                if sp is Some {
                    assert(bound(sp) == seq![sp->0]);
                    assert(seq![g] + bound(sp) =~= seq![g, sp->0]);
                }
                assert(nb@ =~= term_concat(np.1));
                assert(t == np.0);
            }
            r.push(index_scan(t, nb.as_slice(), batch_size));
        }
    }
    r
}

// ---------------------------------------------------------------------------
// Index consistency
// ---------------------------------------------------------------------------

/// The keys in table `t` among the index keys of a set of quads.
pub open spec fn keys_in_table(qs: Set<EncodedQuadModel>, t: u8) -> Set<Seq<u8>> {
    Set::new(|k: Seq<u8>| exists|q: EncodedQuadModel, j: int|
        #![trigger qs.contains(q), index_keys(q)[j]]
        qs.contains(q) && 0 <= j < index_keys(q).len() && index_keys(q)[j] == k && k[0] == t)
}

/// The quads of a set that are in the default graph.
pub open spec fn default_quads(qs: Set<EncodedQuadModel>) -> Set<EncodedQuadModel> {
    qs.filter(|q: EncodedQuadModel| q.graph_name is None)
}

/// The quads of a set that are in a named graph.
pub open spec fn named_quads(qs: Set<EncodedQuadModel>) -> Set<EncodedQuadModel> {
    qs.filter(|q: EncodedQuadModel| q.graph_name is Some)
}

/// The keys of a table are the keys there of the quads written to it.
proof fn lemma_table_keys_image(qs: Set<EncodedQuadModel>, t: u8, part: Set<EncodedQuadModel>)
    requires
        part == (if t == TABLE_DSPO || t == TABLE_DPOS || t == TABLE_DOSP { default_quads(qs) } else { named_quads(qs) }),
        t == TABLE_DSPO || t == TABLE_DPOS || t == TABLE_DOSP || t == TABLE_SPOG || t == TABLE_POSG
            || t == TABLE_OSPG || t == TABLE_GSPO || t == TABLE_GPOS || t == TABLE_GOSP,
    ensures
        keys_in_table(qs, t) == part.map(|q: EncodedQuadModel| index_key(t, q)),
{
    let f = |q: EncodedQuadModel| index_key(t, q);
    assert forall|k: Seq<u8>| keys_in_table(qs, t).contains(k) <==> part.map(f).contains(k) by {
        if keys_in_table(qs, t).contains(k) {
            let (q, j) = choose|q: EncodedQuadModel, j: int|
                #![trigger qs.contains(q), index_keys(q)[j]]
                qs.contains(q) && 0 <= j < index_keys(q).len() && index_keys(q)[j] == k && k[0] == t;
            assert(index_keys(q)[j] == index_key(quad_tables(q)[j], q));
            assert(index_key(quad_tables(q)[j], q)[0] == quad_tables(q)[j]);
            assert(quad_tables(q)[j] == t);
            assert(part.contains(q));
            assert(f(q) == k);
        }
        if part.map(f).contains(k) {
            let q = choose|q: EncodedQuadModel| part.contains(q) && f(q) == k;
            let j = table_pos(q, t);
            assert(quad_tables(q)[j] == t);
            assert(index_keys(q)[j] == k);
            assert(k[0] == t);
            assert(qs.contains(q));
        }
    }
    assert(keys_in_table(qs, t) =~= part.map(f));
}

/// The number of keys in each index table of a set of quads: every
/// default-graph table holds one key per quad of the default graph, every
/// other index table one key per quad of a named graph.
pub proof fn lemma_table_key_count(qs: Set<EncodedQuadModel>, t: u8)
    requires
        qs.finite(),
        forall|q: EncodedQuadModel| #[trigger] qs.contains(q) ==> quad_complete(q),
        t == TABLE_DSPO || t == TABLE_DPOS || t == TABLE_DOSP || t == TABLE_SPOG || t == TABLE_POSG
            || t == TABLE_OSPG || t == TABLE_GSPO || t == TABLE_GPOS || t == TABLE_GOSP,
    ensures
        keys_in_table(qs, t).finite(),
        keys_in_table(qs, t).len() == (if t == TABLE_DSPO || t == TABLE_DPOS || t == TABLE_DOSP {
            default_quads(qs).len()
        } else {
            named_quads(qs).len()
        }),
{
    let part = if t == TABLE_DSPO || t == TABLE_DPOS || t == TABLE_DOSP { default_quads(qs) } else { named_quads(qs) };
    let f = |q: EncodedQuadModel| index_key(t, q);
    lemma_table_keys_image(qs, t, part);
    assert(part.subset_of(qs));
    vstd::set_lib::lemma_len_subset(part, qs);
    assert(part.finite()) by {
        vstd::set_lib::lemma_set_subset_finite(qs, part);
    }
    assert(vstd::relations::injective_on(f, part)) by {
        assert forall|q1: EncodedQuadModel, q2: EncodedQuadModel|
            part.contains(q1) && part.contains(q2) && #[trigger] f(q1) == #[trigger] f(q2) implies q1 == q2 by {
            let j1 = table_pos(q1, t);
            let j2 = table_pos(q2, t);
            assert(index_keys(q1)[j1] == f(q1));
            assert(index_keys(q2)[j2] == f(q2));
            lemma_index_keys_injective(q1, q2, j1, j2);
        }
    }
    vstd::set_lib::lemma_map_size(part, keys_in_table(qs, t), f);
}

/// The key whose presence tells whether a quad is stored: its DSPO key for
/// the default graph, its GSPO key for a named graph.
pub open spec fn presence_key(q: EncodedQuadModel) -> Seq<u8> {
    match q.graph_name {
        None => index_key(TABLE_DSPO, q),
        Some(_) => index_key(TABLE_GSPO, q),
    }
}

/// The key looked up to tell whether a quad is stored.
pub fn quad_presence_key(q: &EncodedQuad) -> (r: Vec<u8>)
    ensures
        r@ == presence_key(q@),
{
    let keys = quad_index_keys(q);
    proof {
        assert(keys@.len() == bytes_view(keys@).len());
        assert(q@.graph_name is None ==> keys@[0]@ == bytes_view(keys@)[0] && index_keys(q@)[0] == presence_key(q@));
        assert(q@.graph_name is Some ==> keys@[3]@ == bytes_view(keys@)[3] && index_keys(q@)[3] == presence_key(q@));
    }
    let k = match &q.graph_name {
        GraphKey::DefaultGraph => &keys[0],
        GraphKey::Named(_) => &keys[3],
    };
    vstd::slice::slice_to_vec(k.as_slice())
}

/// Inserting a quad writes its presence key, and no other well-formed quad
/// has the same one: a lookup of the presence key answers for that quad
/// alone.
pub proof fn lemma_presence_key(q: EncodedQuadModel, other: EncodedQuadModel)
    requires
        quad_complete(q),
        quad_complete(other),
    ensures
        index_keys(q).contains(presence_key(q)),
        presence_key(q) == presence_key(other) ==> q == other,
{
    let jq: int = if q.graph_name is None { 0 } else { 3 };
    let jo: int = if other.graph_name is None { 0 } else { 3 };
    assert(index_keys(q)[jq] == presence_key(q));
    assert(index_keys(other)[jo] == presence_key(other));
    if presence_key(q) == presence_key(other) {
        lemma_index_keys_injective(q, other, jq, jo);
    }
}

/// Counting the DSPO and GSPO keys counts every stored quad once: for a
/// finite set of well-formed quads the two counts add up to its size.
pub proof fn lemma_count_quads(qs: Set<EncodedQuadModel>)
    requires
        qs.finite(),
        forall|q: EncodedQuadModel| #[trigger] qs.contains(q) ==> quad_complete(q),
    ensures
        keys_in_table(qs, TABLE_DSPO).len() + keys_in_table(qs, TABLE_GSPO).len() == qs.len(),
{
    lemma_table_key_count(qs, TABLE_DSPO);
    lemma_table_key_count(qs, TABLE_GSPO);
    let d = default_quads(qs);
    let n = named_quads(qs);
    vstd::set_lib::lemma_set_subset_finite(qs, d);
    vstd::set_lib::lemma_set_subset_finite(qs, n);
    vstd::set_lib::lemma_set_disjoint_lens(d, n);
    assert(d.disjoint(n));
    assert(d + n =~= qs);
}

/// How many keys each index table holds.
pub struct IndexCounts {
    pub dspo: usize,
    pub dpos: usize,
    pub dosp: usize,
    pub gspo: usize,
    pub gpos: usize,
    pub gosp: usize,
    pub spog: usize,
    pub posg: usize,
    pub ospg: usize,
}

/// The three default-graph tables hold as many keys each.
pub open spec fn default_counts_agree(c: IndexCounts) -> bool {
    c.dspo == c.dpos && c.dspo == c.dosp
}

/// The six named-graph tables hold as many keys each.
pub open spec fn named_counts_agree(c: IndexCounts) -> bool {
    &&& c.gspo == c.gpos
    &&& c.gspo == c.gosp
    &&& c.gspo == c.spog
    &&& c.gspo == c.posg
    &&& c.gspo == c.ospg
}

/// The message when the default-graph tables disagree.
pub open spec fn default_mismatch_text() -> Seq<char> {
    "Not the same number of triples in dspo, dpos and dosp"@
}

/// The message when the named-graph tables disagree.
pub open spec fn named_mismatch_text() -> Seq<char> {
    "Not the same number of quads across named graph indexes"@
}

/// Checks that the index tables agree on how many entries they hold: the
/// default-graph tables first, then the named-graph tables.
pub fn check_index_counts(c: &IndexCounts) -> (r: Result<(), StorageError>)
    ensures
        !default_counts_agree(*c) ==> (r matches Err(StorageError::Corruption(m)) && m@ == default_mismatch_text()),
        default_counts_agree(*c) && !named_counts_agree(*c)
            ==> (r matches Err(StorageError::Corruption(m)) && m@ == named_mismatch_text()),
        default_counts_agree(*c) && named_counts_agree(*c) ==> r is Ok,
        r is Ok <==> (c.dspo == c.dpos && c.dpos == c.dosp && c.gspo == c.gpos && c.gpos == c.gosp
            && c.gosp == c.spog && c.spog == c.posg && c.posg == c.ospg),
        c.dspo != c.dpos || c.dpos != c.dosp
            ==> (r matches Err(StorageError::Corruption(m)) && m@ == default_mismatch_text()),
{
    if c.dspo != c.dpos || c.dspo != c.dosp {
        let mut m = String::new();
        push_str(&mut m, "Not the same number of triples in dspo, dpos and dosp");
        return Err(StorageError::Corruption(m));
    }
    if c.gspo != c.gpos || c.gspo != c.gosp || c.gspo != c.spog || c.gspo != c.posg || c.gspo != c.ospg {
        let mut m = String::new();
        push_str(&mut m, "Not the same number of quads across named graph indexes");
        return Err(StorageError::Corruption(m));
    }
    Ok(())
}

/// The check's two conditions in terms of the counts: the default-graph
/// tables agree exactly when all three counts are equal, and the
/// named-graph tables exactly when all six are; a single table off by one
/// breaks the agreement of its group.
pub proof fn lemma_index_count_agreement(c: IndexCounts)
    ensures
        default_counts_agree(c) <==> (c.dspo == c.dpos && c.dpos == c.dosp),
        named_counts_agree(c) <==> (c.gspo == c.gpos && c.gpos == c.gosp && c.gosp == c.spog
            && c.spog == c.posg && c.posg == c.ospg),
        c.dpos != c.dspo ==> !default_counts_agree(c),
        c.dosp != c.dspo ==> !default_counts_agree(c),
{
}

/// Indexes written by inserting quads pass the consistency check: for any
/// finite set of well-formed quads, the counts of their index keys table by
/// table agree.
pub proof fn lemma_written_indexes_consistent(qs: Set<EncodedQuadModel>, c: IndexCounts)
    requires
        qs.finite(),
        forall|q: EncodedQuadModel| #[trigger] qs.contains(q) ==> quad_complete(q),
        c.dspo == keys_in_table(qs, TABLE_DSPO).len(),
        c.dpos == keys_in_table(qs, TABLE_DPOS).len(),
        c.dosp == keys_in_table(qs, TABLE_DOSP).len(),
        c.gspo == keys_in_table(qs, TABLE_GSPO).len(),
        c.gpos == keys_in_table(qs, TABLE_GPOS).len(),
        c.gosp == keys_in_table(qs, TABLE_GOSP).len(),
        c.spog == keys_in_table(qs, TABLE_SPOG).len(),
        c.posg == keys_in_table(qs, TABLE_POSG).len(),
        c.ospg == keys_in_table(qs, TABLE_OSPG).len(),
    ensures
        default_counts_agree(c),
        named_counts_agree(c),
{
    lemma_table_key_count(qs, TABLE_DSPO);
    lemma_table_key_count(qs, TABLE_DPOS);
    lemma_table_key_count(qs, TABLE_DOSP);
    lemma_table_key_count(qs, TABLE_GSPO);
    lemma_table_key_count(qs, TABLE_GPOS);
    lemma_table_key_count(qs, TABLE_GOSP);
    lemma_table_key_count(qs, TABLE_SPOG);
    lemma_table_key_count(qs, TABLE_POSG);
    lemma_table_key_count(qs, TABLE_OSPG);
}

// ---------------------------------------------------------------------------
// Clearing
// ---------------------------------------------------------------------------

/// What a clearing operation empties.
#[derive(Clone, Copy, Debug, PartialEq, Eq)]
pub enum ClearScope {
    /// The quads of the default graph.
    DefaultGraph,
    /// The quads of all named graphs (the graphs stay registered).
    AllNamedGraphs,
    /// The quads of all named graphs and the named graphs themselves.
    RemoveAllNamedGraphs,
    /// Everything: all quads and all named graphs.
    All,
}

/// The tables a clearing operation empties.
pub open spec fn scope_tables(scope: ClearScope) -> Seq<u8> {
    let default_tables = seq![TABLE_DSPO, TABLE_DPOS, TABLE_DOSP];
    let named_tables = seq![TABLE_GSPO, TABLE_GPOS, TABLE_GOSP, TABLE_SPOG, TABLE_POSG, TABLE_OSPG];
    match scope {
        ClearScope::DefaultGraph => default_tables,
        ClearScope::AllNamedGraphs => named_tables,
        ClearScope::RemoveAllNamedGraphs => named_tables.push(TABLE_GRAPHS),
        ClearScope::All => default_tables + named_tables.push(TABLE_GRAPHS),
    }
}

/// The tables a clearing operation empties, in the order they are emptied.
pub fn cleared_tables(scope: ClearScope) -> (r: Vec<u8>)
    ensures
        r@ == scope_tables(scope),
{
    let mut r: Vec<u8> = Vec::new();
    if let ClearScope::DefaultGraph | ClearScope::All = scope {
        r.push(TABLE_DSPO);
        r.push(TABLE_DPOS);
        r.push(TABLE_DOSP);
    }
    if let ClearScope::AllNamedGraphs | ClearScope::RemoveAllNamedGraphs | ClearScope::All = scope {
        r.push(TABLE_GSPO);
        r.push(TABLE_GPOS);
        r.push(TABLE_GOSP);
        r.push(TABLE_SPOG);
        r.push(TABLE_POSG);
        r.push(TABLE_OSPG);
    }
    if let ClearScope::RemoveAllNamedGraphs | ClearScope::All = scope {
        r.push(TABLE_GRAPHS);
    }
    assert(r@ =~= scope_tables(scope));
    r
}

/// Clearing the default graph empties exactly the tables that hold the keys
/// of default-graph quads, and clearing the named graphs exactly those that
/// hold the keys of named-graph quads: a quad's keys all go with the clear
/// of its own kind of graph and none goes with the other.
pub proof fn lemma_clear_scopes(q: EncodedQuadModel)
    ensures
        forall|j: int| 0 <= j < quad_tables(q).len() ==>
            (scope_tables(ClearScope::DefaultGraph).contains(#[trigger] quad_tables(q)[j]) <==> q.graph_name is None),
        forall|j: int| 0 <= j < quad_tables(q).len() ==>
            (scope_tables(ClearScope::AllNamedGraphs).contains(#[trigger] quad_tables(q)[j]) <==> q.graph_name is Some),
        forall|j: int| 0 <= j < quad_tables(q).len() ==> scope_tables(ClearScope::All).contains(#[trigger] quad_tables(q)[j]),
{
    let d = scope_tables(ClearScope::DefaultGraph);
    let n = scope_tables(ClearScope::AllNamedGraphs);
    let a = scope_tables(ClearScope::All);
    assert forall|j: int| 0 <= j < quad_tables(q).len() implies
        (d.contains(#[trigger] quad_tables(q)[j]) <==> q.graph_name is None)
        && (n.contains(quad_tables(q)[j]) <==> q.graph_name is Some)
        && a.contains(quad_tables(q)[j]) by {
        let t = quad_tables(q)[j];
        if q.graph_name is None {
            assert(d[j] == t);
            assert(a[j] == t);
            if n.contains(t) {
                let k = choose|k: int| 0 <= k < n.len() && n[k] == t;
                assert(false);
            }
        } else {
            let k: int = if j < 3 { j + 3 } else { j - 3 };
            assert(n[k] == t);
            assert(a[k + 3] == t);
            if d.contains(t) {
                let k2 = choose|k2: int| 0 <= k2 < d.len() && d[k2] == t;
                assert(false);
            }
        }
    }
}

// ---------------------------------------------------------------------------
// Storage version
// ---------------------------------------------------------------------------

/// The version of the key layout this code reads and writes.
pub const LATEST_STORAGE_VERSION: u64 = 1;

/// The unsigned integer whose big-endian bytes are `b`.
pub open spec fn be_value(b: Seq<u8>) -> nat
    decreases b.len(),
{
    if b.len() == 0 {
        0
    } else {
        be_value(b.drop_last()) * 256 + b.last() as nat
    }
}

/// `256` to the power `n`.
pub open spec fn pow256(n: nat) -> nat
    decreases n,
{
    if n == 0 {
        1
    } else {
        256 * pow256((n - 1) as nat)
    }
}

/// What opening the store does about the stored layout version.
#[derive(Debug)]
pub enum VersionCheck {
    /// The stored version is acceptable: nothing to write.
    Accept,
    /// No version is stored: write this one (the latest, as 8 big-endian bytes).
    Initialize(Vec<u8>),
    /// The stored version is not supported: fail with this message.
    Reject(String),
}

/// The message for an unsupported stored version.
pub open spec fn unsupported_version_text(v: nat) -> Seq<char> {
    "Unsupported TiKV storage version "@ + decimal(v) + ", expected "@ + decimal(LATEST_STORAGE_VERSION as nat)
}

/// The latest version as 8 big-endian bytes.
pub open spec fn latest_version_bytes() -> Seq<u8> {
    seq![0u8, 0u8, 0u8, 0u8, 0u8, 0u8, 0u8, 1u8]
}

/// Decides what to do with the stored version value: none stored, write
/// the latest; an 8-byte value is a big-endian version, refused unless it
/// is the latest; a value of another length is left alone.
#[verifier::spinoff_prover]
#[verifier::rlimit(30)]
pub fn check_storage_version(stored: Option<&[u8]>) -> (r: VersionCheck)
    ensures
        match stored {
            None => r matches VersionCheck::Initialize(b) && b@ == latest_version_bytes()
                && be_value(b@) == LATEST_STORAGE_VERSION,
            Some(v) => if v@.len() == 8 && be_value(v@) != LATEST_STORAGE_VERSION {
                r matches VersionCheck::Reject(m) && m@ == unsupported_version_text(be_value(v@))
            } else {
                r is Accept
            },
        },
{
    match stored {
        None => {
            let b: Vec<u8> = vec![0u8, 0u8, 0u8, 0u8, 0u8, 0u8, 0u8, 1u8];
            proof {
                assert(b@ =~= latest_version_bytes());
                reveal_with_fuel(be_value, 9);
                assert(b@.drop_last() =~= seq![0u8, 0u8, 0u8, 0u8, 0u8, 0u8, 0u8]);
                assert(be_value(b@.drop_last()) == 0) by {
                    let z = b@.drop_last();
                    assert(z.drop_last() =~= seq![0u8, 0u8, 0u8, 0u8, 0u8, 0u8]);
                    assert(z.drop_last().drop_last() =~= seq![0u8, 0u8, 0u8, 0u8, 0u8]);
                    assert(z.drop_last().drop_last().drop_last() =~= seq![0u8, 0u8, 0u8, 0u8]);
                    assert(z.drop_last().drop_last().drop_last().drop_last() =~= seq![0u8, 0u8, 0u8]);
                    assert(z.drop_last().drop_last().drop_last().drop_last().drop_last() =~= seq![0u8, 0u8]);
                    assert(z.drop_last().drop_last().drop_last().drop_last().drop_last().drop_last() =~= seq![0u8]);
                    assert(z.drop_last().drop_last().drop_last().drop_last().drop_last().drop_last().drop_last() =~= Seq::<u8>::empty());
                }
            }
            VersionCheck::Initialize(b)
        }
        Some(v) => {
            if v.len() != 8 {
                return VersionCheck::Accept;
            }
            let mut value: u64 = 0;
            let mut i: usize = 0;
            while i < 8
                invariant
                    i <= 8,
                    v@.len() == 8,
                    value == be_value(v@.take(i as int)),
                    value < pow256(i as nat),
                decreases 8 - i,
            {
                proof {
                    assert(v@.take(i + 1).drop_last() =~= v@.take(i as int));
                    assert(v@.take(i + 1).last() == v@[i as int]);
                    assert(pow256((i + 1) as nat) == 256 * pow256(i as nat));
                    lemma_pow256_eight();
                    lemma_pow256_le((i + 1) as nat, 8);
                    assert(value * 256 + v@[i as int] < 256 * pow256(i as nat)) by (nonlinear_arith)
                        requires
                            value < pow256(i as nat),
                            v@[i as int] < 256;
                }
                value = value * 256 + v[i] as u64;
                i = i + 1;
            }
            assert(v@.take(8) =~= v@);
            if value != LATEST_STORAGE_VERSION {
                let mut m = String::new();
                push_str(&mut m, "Unsupported TiKV storage version ");
                push_decimal(&mut m, value);
                push_str(&mut m, ", expected ");
                push_decimal(&mut m, LATEST_STORAGE_VERSION);
                return VersionCheck::Reject(m);
            }
            VersionCheck::Accept
        }
    }
}

/// `256` to the power 8 is `2` to the power 64.
proof fn lemma_pow256_eight()
    ensures
        pow256(8) == 0x1_0000_0000_0000_0000,
{
    reveal_with_fuel(pow256, 9);
}

/// Powers of 256 grow with the exponent.
proof fn lemma_pow256_le(a: nat, b: nat)
    requires
        a <= b,
    ensures
        pow256(a) <= pow256(b),
    decreases b,
{
    if a < b {
        lemma_pow256_le(a, (b - 1) as nat);
    }
}

} // verus!
