//! Laws of the changelog: what reading gives back of what recording wrote,
//! the order of listings, and what an undo restores.
use vstd::prelude::*;
use crate::store::{
    QuadModel, SubjectModel, TermModel, GraphModel, no_duplicates, insert_all,
    remove_all, after_insert, after_remove, other_than, in_named_graph, subject_among,
    lemma_filter_contains, lemma_filter_no_duplicates, lemma_insert_all_contains,
    lemma_remove_all_contains,
};
use crate::text::{decimal, lemma_parse_decimal};
use crate::nquads::{quad_writable, lemma_nquads_roundtrip, nquads_text};
use crate::transactions::{OpModel, apply_op, apply_ops, lemma_apply_ops_push};
use crate::changelog::{
    ChangelogState, ChangelogErrorModel, EntryModel, log_graph, entry_subject, rdf_type,
    entry_class, pred_txn_id, pred_timestamp, pred_operation, pred_undoable, pred_insert_count,
    pred_remove_count, pred_inserted, pred_removed, bool_text, log_quad, entry_quads, in_log,
    field_value, has_entry, read_entry, id_row,
    stale_subjects, pruned, inserted_of, removed_of, recorded_entry, after_record, record_outcome,
    get_outcome, insert_desc, sort_desc, page, id_rows, listed_entries, has_update, undo_outcome,
    undo_ops, MAX_UNDOABLE_QUADS,
};

verus! {

/// The predicates of an entry, its class and the two boolean words are
/// pairwise different strings.
proof fn lemma_vocabulary_distinct()
    ensures
        pred_txn_id() != pred_timestamp(),
        pred_txn_id() != pred_operation(),
        pred_txn_id() != pred_undoable(),
        pred_txn_id() != pred_insert_count(),
        pred_txn_id() != pred_remove_count(),
        pred_txn_id() != pred_inserted(),
        pred_txn_id() != pred_removed(),
        pred_txn_id() != rdf_type(),
        pred_timestamp() != pred_operation(),
        pred_timestamp() != pred_undoable(),
        pred_timestamp() != pred_insert_count(),
        pred_timestamp() != pred_remove_count(),
        pred_timestamp() != pred_inserted(),
        pred_timestamp() != pred_removed(),
        pred_timestamp() != rdf_type(),
        pred_operation() != pred_undoable(),
        pred_operation() != pred_insert_count(),
        pred_operation() != pred_remove_count(),
        pred_operation() != pred_inserted(),
        pred_operation() != pred_removed(),
        pred_operation() != rdf_type(),
        pred_undoable() != pred_insert_count(),
        pred_undoable() != pred_remove_count(),
        pred_undoable() != pred_inserted(),
        pred_undoable() != pred_removed(),
        pred_undoable() != rdf_type(),
        pred_insert_count() != pred_remove_count(),
        pred_insert_count() != pred_inserted(),
        pred_insert_count() != pred_removed(),
        pred_insert_count() != rdf_type(),
        pred_remove_count() != pred_inserted(),
        pred_remove_count() != pred_removed(),
        pred_remove_count() != rdf_type(),
        pred_inserted() != pred_removed(),
        pred_inserted() != rdf_type(),
        pred_removed() != rdf_type(),
        bool_text(true) != bool_text(false),
{
    reveal_strlit("urn:oxigraph:txnId");
    reveal_strlit("urn:oxigraph:timestamp");
    reveal_strlit("urn:oxigraph:operation");
    reveal_strlit("urn:oxigraph:undoable");
    reveal_strlit("urn:oxigraph:insertCount");
    reveal_strlit("urn:oxigraph:removeCount");
    reveal_strlit("urn:oxigraph:insertedNQuads");
    reveal_strlit("urn:oxigraph:removedNQuads");
    reveal_strlit("http://www.w3.org/1999/02/22-rdf-syntax-ns#type");
    reveal_strlit("true");
    reveal_strlit("false");
    assert(pred_txn_id().len() == 18);
    assert(pred_timestamp().len() == 22);
    assert(pred_operation().len() == 22);
    assert(pred_undoable().len() == 21);
    assert(pred_insert_count().len() == 24);
    assert(pred_remove_count().len() == 24);
    assert(pred_inserted().len() == 27);
    assert(pred_removed().len() == 26);
    assert(rdf_type().len() == 47);
    assert(pred_operation()[13] != pred_timestamp()[13]);
    assert(pred_insert_count()[13] != pred_remove_count()[13]);
    assert(bool_text(true).len() != bool_text(false).len());
}

/// Inserting quads that are all new, and distinct, appends them.
proof fn lemma_insert_all_fresh(s: Seq<QuadModel>, qs: Seq<QuadModel>)
    requires
        no_duplicates(s + qs),
    ensures
        insert_all(s, qs) == s + qs,
    decreases qs.len(),
{
    if qs.len() == 0 {
        assert(s + qs =~= s);
    } else {
        let q0 = qs[0];
        assert((s + qs)[s.len() as int] == q0);
        assert(!s.contains(q0)) by {
            if s.contains(q0) {
                let j = choose|j: int| 0 <= j < s.len() && s[j] == q0;
                assert((s + qs)[j] == q0);
            }
        }
        assert(s.push(q0) + qs.drop_first() =~= s + qs);
        lemma_insert_all_fresh(s.push(q0), qs.drop_first());
    }
}

/// The last matching literal of `s + t` is that of `t`, if any, else that of `s`.
proof fn lemma_field_value_append(s: Seq<QuadModel>, t: Seq<QuadModel>, subj: Seq<char>, pred: Seq<char>)
    ensures
        field_value(s + t, subj, pred) == (if field_value(t, subj, pred) is Some {
            field_value(t, subj, pred)
        } else {
            field_value(s, subj, pred)
        }),
    decreases t.len(),
{
    if t.len() == 0 {
        assert(s + t =~= s);
    } else {
        assert((s + t).drop_last() =~= s + t.drop_last());
        assert((s + t).last() == t.last());
        lemma_field_value_append(s, t.drop_last(), subj, pred);
    }
}

/// Without log quads of `subj` there is no value.
proof fn lemma_field_value_absent(s: Seq<QuadModel>, subj: Seq<char>, pred: Seq<char>)
    requires
        !has_entry(s, subj),
    ensures
        field_value(s, subj, pred) is None,
    decreases s.len(),
{
    if s.len() > 0 {
        assert(!in_log(s[s.len() - 1], subj));
        assert(!has_entry(s.drop_last(), subj)) by {
            if has_entry(s.drop_last(), subj) {
                let i = choose|i: int| 0 <= i < s.drop_last().len() && in_log(#[trigger] s.drop_last()[i], subj);
                assert(in_log(s[i], subj));
            }
        }
        lemma_field_value_absent(s.drop_last(), subj, pred);
    }
}

/// Filtering that keeps every log quad of `subj` keeps its values.
proof fn lemma_field_value_filter(s: Seq<QuadModel>, p: spec_fn(QuadModel) -> bool, subj: Seq<char>, pred: Seq<char>)
    requires
        forall|i: int| 0 <= i < s.len() && in_log(#[trigger] s[i], subj) ==> p(s[i]),
    ensures
        field_value(s.filter(p), subj, pred) == field_value(s, subj, pred),
    decreases s.len(),
{
    reveal(Seq::filter);
    if s.len() > 0 {
        let init = s.drop_last();
        assert forall|i: int| 0 <= i < init.len() && in_log(#[trigger] init[i], subj) implies p(init[i]) by {
            assert(init[i] == s[i]);
        }
        lemma_field_value_filter(init, p, subj, pred);
        assert(s.last() == s[s.len() - 1]);
        if p(s.last()) {
            assert(init.filter(p).push(s.last()).drop_last() =~= init.filter(p));
        }
    }
}

/// An id row of `subj`, if it is one, has an id above `cutoff`.
spec fn row_above(r: Option<(u64, Seq<char>)>, subj: Seq<char>, cutoff: u64) -> bool {
    match r {
        Some((id, x)) => x == subj ==> id > cutoff,
        None => true,
    }
}

/// No subject of a stale entry is `subj` when every id row of `subj` has an
/// id above the cutoff.
proof fn lemma_stale_excludes(t: Seq<QuadModel>, cutoff: u64, subj: Seq<char>)
    requires
        forall|i: int| 0 <= i < t.len() ==> row_above(#[trigger] id_row(t[i]), subj, cutoff),
    ensures
        forall|k: int| 0 <= k < stale_subjects(t, cutoff).len() ==> #[trigger] stale_subjects(t, cutoff)[k] != subj,
    decreases t.len(),
{
    if t.len() > 0 {
        let init = t.drop_last();
        assert forall|i: int| 0 <= i < init.len() implies row_above(#[trigger] id_row(init[i]), subj, cutoff) by {
            assert(init[i] == t[i]);
            assert(id_row(t[i]) == id_row(init[i]));
        }
        lemma_stale_excludes(init, cutoff, subj);
        assert(id_row(t.last()) == id_row(t[t.len() - 1]));
        assert(row_above(id_row(t[t.len() - 1]), subj, cutoff));
        let prev = stale_subjects(init, cutoff);
        let all = stale_subjects(t, cutoff);
        assert forall|k: int| 0 <= k < all.len() implies #[trigger] all[k] != subj by {
            if k < prev.len() {
                assert(all[k] == prev[k]);
            }
        }
    }
}

/// Whether an id row, if any, carries the id `id`.
spec fn row_is(r: Option<(u64, Seq<char>)>, id: u64) -> bool {
    match r {
        Some((j, _)) => j == id,
        None => true,
    }
}

/// What the quads of an entry hold: all are log quads of its subject, none
/// repeats, the only id row carries its id, and the last literal of each
/// field is the entry's value.
proof fn lemma_entry_quads(e: EntryModel)
    ensures
        entry_quads(e).len() > 0,
        forall|i: int| 0 <= i < entry_quads(e).len() ==> in_log(#[trigger] entry_quads(e)[i], entry_subject(e.id)),
        no_duplicates(entry_quads(e)),
        forall|i: int| 0 <= i < entry_quads(e).len() ==> row_is(#[trigger] id_row(entry_quads(e)[i]), e.id),
        field_value(entry_quads(e), entry_subject(e.id), pred_timestamp()) == Some(e.timestamp),
        field_value(entry_quads(e), entry_subject(e.id), pred_operation()) == Some(e.operation),
        field_value(entry_quads(e), entry_subject(e.id), pred_undoable()) == Some(bool_text(e.undoable)),
        field_value(entry_quads(e), entry_subject(e.id), pred_inserted())
            == (if e.inserted.len() > 0 { Some(nquads_text(e.inserted)) } else { None }),
        field_value(entry_quads(e), entry_subject(e.id), pred_removed())
            == (if e.removed.len() > 0 { Some(nquads_text(e.removed)) } else { None }),
{
    lemma_vocabulary_distinct();
    lemma_parse_decimal(e.id);
    reveal_with_fuel(field_value, 10);
    let subj = entry_subject(e.id);
    let eq = entry_quads(e);
    let q0 = QuadModel {
        subject: SubjectModel::NamedNode(subj),
        predicate: rdf_type(),
        object: TermModel::NamedNode(entry_class()),
        graph_name: GraphModel::NamedNode(log_graph()),
    };
    let head = seq![
        q0,
        log_quad(subj, pred_txn_id(), decimal(e.id as nat)),
        log_quad(subj, pred_timestamp(), e.timestamp),
        log_quad(subj, pred_operation(), e.operation),
        log_quad(subj, pred_undoable(), bool_text(e.undoable)),
        log_quad(subj, pred_insert_count(), decimal(e.inserted.len())),
        log_quad(subj, pred_remove_count(), decimal(e.removed.len())),
    ];
    let ins = if e.inserted.len() > 0 {
        seq![log_quad(subj, pred_inserted(), nquads_text(e.inserted))]
    } else {
        Seq::<QuadModel>::empty()
    };
    let rem = if e.removed.len() > 0 {
        seq![log_quad(subj, pred_removed(), nquads_text(e.removed))]
    } else {
        Seq::<QuadModel>::empty()
    };
    assert(eq == head + ins + rem);
    let preds = seq![
        rdf_type(), pred_txn_id(), pred_timestamp(), pred_operation(), pred_undoable(),
        pred_insert_count(), pred_remove_count(), pred_inserted(), pred_removed(),
    ];
    assert forall|i: int| 0 <= i < eq.len() implies in_log(#[trigger] eq[i], subj) by {
        if i < 7 {
            assert(eq[i] == head[i]);
        } else if i < 7 + ins.len() {
            assert(eq[i] == ins[i - 7]);
        } else {
            assert(eq[i] == rem[i - 7 - ins.len()]);
        }
    }
    assert forall|i: int| 0 <= i < eq.len() implies row_is(#[trigger] id_row(eq[i]), e.id) by {
        if i < 7 {
            assert(eq[i] == head[i]);
        } else if i < 7 + ins.len() {
            assert(eq[i] == ins[i - 7]);
        } else {
            assert(eq[i] == rem[i - 7 - ins.len()]);
        }
    }
    assert forall|i: int, j: int| 0 <= i < j < eq.len() implies eq[i] != eq[j] by {
        let pi = if i < 7 { i } else if i < 7 + ins.len() { 7 } else { 8 };
        let pj = if j < 7 { j } else if j < 7 + ins.len() { 7 } else { 8 };
        if i < 7 {
            assert(eq[i] == head[i]);
        } else if i < 7 + ins.len() {
            assert(eq[i] == ins[i - 7]);
        } else {
            assert(eq[i] == rem[i - 7 - ins.len()]);
        }
        if j < 7 {
            assert(eq[j] == head[j]);
        } else if j < 7 + ins.len() {
            assert(eq[j] == ins[j - 7]);
        } else {
            assert(eq[j] == rem[j - 7 - ins.len()]);
        }
        assert(eq[i].predicate == preds[pi]);
        assert(eq[j].predicate == preds[pj]);
        assert(pi != pj);
    }
    assert(head.drop_last() =~= head.take(6));
    assert(head.take(6).drop_last() =~= head.take(5));
    assert(head.take(5).drop_last() =~= head.take(4));
    assert(head.take(4).drop_last() =~= head.take(3));
    assert(head.take(3).drop_last() =~= head.take(2));
    assert(head.take(2).drop_last() =~= head.take(1));
    lemma_field_value_append(head, ins + rem, subj, pred_timestamp());
    lemma_field_value_append(head, ins + rem, subj, pred_operation());
    lemma_field_value_append(head, ins + rem, subj, pred_undoable());
    lemma_field_value_append(head, ins + rem, subj, pred_inserted());
    lemma_field_value_append(head, ins + rem, subj, pred_removed());
    lemma_field_value_append(ins, rem, subj, pred_inserted());
    lemma_field_value_append(ins, rem, subj, pred_removed());
    assert(eq =~= head + (ins + rem));
}

/// Whether `w` holds, for the subject of `e`, the last literals that the
/// quads of `e` hold.
spec fn holds_fields(w: Seq<QuadModel>, e: EntryModel) -> bool {
    let subj = entry_subject(e.id);
    let eq = entry_quads(e);
    &&& field_value(w, subj, pred_timestamp()) == field_value(eq, subj, pred_timestamp())
    &&& field_value(w, subj, pred_operation()) == field_value(eq, subj, pred_operation())
    &&& field_value(w, subj, pred_undoable()) == field_value(eq, subj, pred_undoable())
    &&& field_value(w, subj, pred_inserted()) == field_value(eq, subj, pred_inserted())
    &&& field_value(w, subj, pred_removed()) == field_value(eq, subj, pred_removed())
}

/// A dataset that holds the fields of `e` reads back as `e`.
proof fn lemma_read_back(w: Seq<QuadModel>, e: EntryModel)
    requires
        holds_fields(w, e),
        forall|i: int| 0 <= i < e.inserted.len() ==> quad_writable(#[trigger] e.inserted[i]),
        forall|i: int| 0 <= i < e.removed.len() ==> quad_writable(#[trigger] e.removed[i]),
    ensures
        read_entry(w, e.id, entry_subject(e.id), true) == e,
{
    lemma_entry_quads(e);
    lemma_vocabulary_distinct();
    let subj = entry_subject(e.id);
    if e.inserted.len() > 0 {
        lemma_nquads_roundtrip(e.inserted);
    } else {
        assert(e.inserted =~= Seq::<QuadModel>::empty());
    }
    if e.removed.len() > 0 {
        lemma_nquads_roundtrip(e.removed);
    } else {
        assert(e.removed =~= Seq::<QuadModel>::empty());
    }
    assert(field_value(w, subj, pred_undoable()) == Some(bool_text(e.undoable)));
    assert(bool_text(true) == "true"@);
    let r = read_entry(w, e.id, subj, true);
    assert(r.timestamp == e.timestamp);
    assert(r.operation == e.operation);
    assert(r.inserted == e.inserted);
    assert(r.removed == e.removed);
    assert(r.undoable == e.undoable);
}

/// Writing the quads of a fresh entry appends them, and the dataset then
/// holds its fields.
proof fn lemma_written(s: Seq<QuadModel>, e: EntryModel)
    requires
        no_duplicates(s),
        !has_entry(s, entry_subject(e.id)),
    ensures
        insert_all(s, entry_quads(e)) == s + entry_quads(e),
        holds_fields(s + entry_quads(e), e),
        has_entry(s + entry_quads(e), entry_subject(e.id)),
        in_log((s + entry_quads(e))[s.len() as int], entry_subject(e.id)),
        forall|i: int| 0 <= i < s.len() ==> !in_log(#[trigger] s[i], entry_subject(e.id)),
{
    let subj = entry_subject(e.id);
    let eq = entry_quads(e);
    let w = s + eq;
    lemma_entry_quads(e);
    assert forall|i: int| 0 <= i < s.len() implies !in_log(#[trigger] s[i], subj) by {}
    assert forall|i: int, j: int| 0 <= i < j < w.len() implies w[i] != w[j] by {
        if j < s.len() {
            assert(w[i] == s[i] && w[j] == s[j]);
        } else if i < s.len() {
            assert(w[i] == s[i]);
            assert(w[j] == eq[j - s.len()]);
            assert(in_log(eq[j - s.len()], subj));
        } else {
            assert(w[i] == eq[i - s.len()]);
            assert(w[j] == eq[j - s.len()]);
        }
    }
    lemma_insert_all_fresh(s, eq);
    lemma_field_value_append(s, eq, subj, pred_timestamp());
    lemma_field_value_append(s, eq, subj, pred_operation());
    lemma_field_value_append(s, eq, subj, pred_undoable());
    lemma_field_value_append(s, eq, subj, pred_inserted());
    lemma_field_value_append(s, eq, subj, pred_removed());
    lemma_field_value_absent(s, subj, pred_timestamp());
    lemma_field_value_absent(s, subj, pred_operation());
    lemma_field_value_absent(s, subj, pred_undoable());
    lemma_field_value_absent(s, subj, pred_inserted());
    lemma_field_value_absent(s, subj, pred_removed());
    assert(w[s.len() as int] == eq[0]);
    assert(in_log(eq[0], subj));
}

/// Pruning after writing a fresh entry keeps its log quads.
proof fn lemma_pruned_keeps(s: Seq<QuadModel>, e: EntryModel, retain: nat)
    requires
        no_duplicates(s),
        !has_entry(s, entry_subject(e.id)),
        retain > 0,
    ensures
        holds_fields(pruned(s + entry_quads(e), e.id, retain), e),
        has_entry(pruned(s + entry_quads(e), e.id, retain), entry_subject(e.id)),
{
    let subj = entry_subject(e.id);
    let eq = entry_quads(e);
    let w = s + eq;
    lemma_written(s, e);
    lemma_entry_quads(e);
    if e.id > retain {
        let cutoff = (e.id - retain) as u64;
        assert forall|i: int| 0 <= i < w.len() implies row_above(#[trigger] id_row(w[i]), subj, cutoff) by {
            if i < s.len() {
                assert(w[i] == s[i]);
                assert(!in_log(s[i], subj));
            } else {
                assert(w[i] == eq[i - s.len()]);
                assert(row_is(id_row(eq[i - s.len()]), e.id));
            }
        }
        lemma_stale_excludes(w, cutoff, subj);
        let doomed = stale_subjects(w, cutoff);
        let p = |q: QuadModel| !(in_named_graph(q, log_graph()) && subject_among(q, doomed));
        assert forall|i: int| 0 <= i < w.len() && in_log(#[trigger] w[i], subj) implies p(w[i]) by {
            if subject_among(w[i], doomed) {
                let k = choose|k: int| 0 <= k < doomed.len() && w[i].subject == SubjectModel::NamedNode(#[trigger] doomed[k]);
                assert(doomed[k] != subj);
            }
        }
        lemma_field_value_filter(w, p, subj, pred_timestamp());
        lemma_field_value_filter(w, p, subj, pred_operation());
        lemma_field_value_filter(w, p, subj, pred_undoable());
        lemma_field_value_filter(w, p, subj, pred_inserted());
        lemma_field_value_filter(w, p, subj, pred_removed());
        assert(p(w[s.len() as int]));
        w.lemma_filter_contains(p, s.len() as int);
        let k = choose|k: int| 0 <= k < w.filter(p).len() && w.filter(p)[k] == w[s.len() as int];
        assert(in_log(w.filter(p)[k], subj));
        assert(pruned(w, e.id, retain) == w.filter(p));
    }
}

/// Reading back the entry that recording just wrote gives that entry, its
/// inserted and removed quads included, when the dataset had no log quad of
/// its subject before and its quads can be written as N-Quads lines.
pub proof fn lemma_get_after_record(st: ChangelogState, s: Seq<QuadModel>, ops: Seq<OpModel>, operation: Seq<char>, secs: u64)
    requires
        st.enabled,
        no_duplicates(s),
        !has_entry(s, entry_subject(st.counter)),
        forall|i: int| 0 <= i < inserted_of(ops).len() ==> quad_writable(#[trigger] inserted_of(ops)[i]),
        forall|i: int| 0 <= i < removed_of(ops).len() ==> quad_writable(#[trigger] removed_of(ops)[i]),
    ensures
        record_outcome(st, s, ops, operation, secs).0
            == Ok::<EntryModel, ChangelogErrorModel>(recorded_entry(st.counter, secs, ops, operation)),
        get_outcome(record_outcome(st, s, ops, operation, secs).1.enabled, record_outcome(st, s, ops, operation, secs).2, st.counter)
            == Ok::<Option<EntryModel>, ChangelogErrorModel>(Some(recorded_entry(st.counter, secs, ops, operation))),
{
    let e = recorded_entry(st.counter, secs, ops, operation);
    let w = s + entry_quads(e);
    lemma_written(s, e);
    if st.retain > 0 {
        lemma_pruned_keeps(s, e, st.retain);
        lemma_read_back(pruned(w, e.id, st.retain), e);
    } else {
        lemma_read_back(w, e);
    }
}

/// Rows sorted by descending id.
pub open spec fn sorted_desc(rows: Seq<(u64, Seq<char>)>) -> bool {
    forall|i: int, j: int| 0 <= i < j < rows.len() ==> rows[i].0 >= rows[j].0
}

proof fn lemma_insert_desc(rows: Seq<(u64, Seq<char>)>, r: (u64, Seq<char>))
    requires
        sorted_desc(rows),
    ensures
        sorted_desc(insert_desc(rows, r)),
        insert_desc(rows, r).to_multiset() =~= rows.to_multiset().insert(r),
    decreases rows.len(),
{
    broadcast use vstd::seq_lib::group_to_multiset_ensures;
    if rows.len() == 0 {
        assert(seq![r] =~= Seq::<(u64, Seq<char>)>::empty().push(r));
    } else if rows.last().0 >= r.0 {
        assert(rows.drop_last().push(rows.last()) =~= rows);
    } else {
        let init = rows.drop_last();
        let last = rows.last();
        lemma_insert_desc(init, r);
        let t = insert_desc(init, r);
        assert(init.push(last) =~= rows);
        assert forall|k: int| 0 <= k < t.len() implies t[k].0 >= last.0 by {
            assert(t.to_multiset().count(t[k]) > 0);
            if t[k] != r {
                assert(init.to_multiset().count(t[k]) > 0);
                assert(init.contains(t[k]));
                let j = choose|j: int| 0 <= j < init.len() && init[j] == t[k];
                assert(rows[j] == t[k]);
                assert(rows[rows.len() - 1] == last);
            }
        }
        assert forall|i: int, j: int| 0 <= i < j < t.push(last).len() implies t.push(last)[i].0 >= t.push(last)[j].0 by {
            if j == t.len() {
                assert(t.push(last)[j] == last);
                assert(t.push(last)[i] == t[i]);
            } else {
                assert(t.push(last)[i] == t[i]);
                assert(t.push(last)[j] == t[j]);
            }
        }
        assert(rows.to_multiset() =~= init.to_multiset().insert(last));
    }
}

proof fn lemma_sort_desc(rows: Seq<(u64, Seq<char>)>)
    ensures
        sorted_desc(sort_desc(rows)),
        sort_desc(rows).to_multiset() =~= rows.to_multiset(),
    decreases rows.len(),
{
    broadcast use vstd::seq_lib::group_to_multiset_ensures;
    if rows.len() > 0 {
        lemma_sort_desc(rows.drop_last());
        lemma_insert_desc(sort_desc(rows.drop_last()), rows.last());
        assert(rows.drop_last().push(rows.last()) =~= rows);
    }
}

/// Listings show entries newest first: ids never increase along a listing;
/// and, before paging, the sorted rows are exactly the id rows of the
/// dataset, each once.
pub proof fn lemma_list_newest_first(s: Seq<QuadModel>, offset: nat, limit: nat)
    ensures
        forall|i: int, j: int| 0 <= i < j < listed_entries(s, offset, limit).len()
            ==> listed_entries(s, offset, limit)[i].id >= listed_entries(s, offset, limit)[j].id,
        sort_desc(id_rows(s)).to_multiset() == id_rows(s).to_multiset(),
{
    let sorted = sort_desc(id_rows(s));
    lemma_sort_desc(id_rows(s));
    let p = page(sorted, offset, limit);
    let l = listed_entries(s, offset, limit);
    assert forall|i: int, j: int| 0 <= i < j < l.len() implies l[i].id >= l[j].id by {
        assert(l[i].id == p[i].0);
        assert(l[j].id == p[j].0);
        assert(p[i] == sorted[offset + i]);
        assert(p[j] == sorted[offset + j]);
    }
}

/// A listing is one page of the newest-first order: it holds at most
/// `limit` entries, exactly as many as that order has from position
/// `offset` on (up to `limit`), and its `i`-th entry is the one at position
/// `offset + i` of that order.
pub proof fn lemma_list_page(s: Seq<QuadModel>, offset: nat, limit: nat)
    ensures
        listed_entries(s, offset, limit).len() <= limit,
        listed_entries(s, offset, limit).len() == if offset >= id_rows(s).len() {
            0
        } else if offset + limit >= id_rows(s).len() {
            id_rows(s).len() - offset
        } else {
            limit as int
        },
        forall|i: int| 0 <= i < listed_entries(s, offset, limit).len() ==> {
            let row = #[trigger] sort_desc(id_rows(s))[offset + i];
            listed_entries(s, offset, limit)[i] == read_entry(s, row.0, row.1, false)
        },
{
    let sorted = sort_desc(id_rows(s));
    lemma_sort_desc(id_rows(s));
    vstd::seq_lib::to_multiset_len(sorted);
    vstd::seq_lib::to_multiset_len(id_rows(s));
    assert(sorted.len() == id_rows(s).len());
    let p = page(sorted, offset, limit);
    let l = listed_entries(s, offset, limit);
    assert forall|i: int| 0 <= i < l.len() implies {
        let row = #[trigger] sort_desc(id_rows(s))[offset + i];
        l[i] == read_entry(s, row.0, row.1, false)
    } by {
        assert(p[i] == sorted[offset + i]);
    }
}

/// A concatenation holds what either part holds.
proof fn lemma_concat_contains(a: Seq<QuadModel>, b: Seq<QuadModel>, x: QuadModel)
    ensures
        (a + b).contains(x) <==> (a.contains(x) || b.contains(x)),
{
    if a.contains(x) {
        let j = choose|j: int| 0 <= j < a.len() && a[j] == x;
        assert((a + b)[j] == x);
    }
    if b.contains(x) {
        let j = choose|j: int| 0 <= j < b.len() && b[j] == x;
        assert((a + b)[a.len() + j] == x);
    }
    if (a + b).contains(x) {
        let j = choose|j: int| 0 <= j < (a + b).len() && (a + b)[j] == x;
        if j < a.len() {
            assert(a[j] == x);
        } else {
            assert(b[j - a.len()] == x);
        }
    }
}

/// Replaying inserts and removes that never touch the same quad leaves a
/// quad present when it was inserted, or was there and not removed.
proof fn lemma_apply_ops_contains(s: Seq<QuadModel>, ops: Seq<OpModel>, x: QuadModel)
    requires
        !(inserted_of(ops).contains(x) && removed_of(ops).contains(x)),
    ensures
        apply_ops(s, ops).contains(x) <==> ((s.contains(x) && !removed_of(ops).contains(x)) || inserted_of(ops).contains(x)),
    decreases ops.len(),
{
    if ops.len() == 0 {
        assert(apply_ops(s, ops) == s);
    } else {
        let init = ops.drop_last();
        let last = ops.last();
        assert(init.push(last) =~= ops);
        lemma_apply_ops_push(s, init, last);
        let ins_tail = match last { OpModel::InsertQuads(qs) => qs, _ => Seq::<QuadModel>::empty() };
        let rem_tail = match last { OpModel::RemoveQuads(qs) => qs, _ => Seq::<QuadModel>::empty() };
        assert(inserted_of(ops) == inserted_of(init) + ins_tail);
        assert(removed_of(ops) == removed_of(init) + rem_tail);
        lemma_concat_contains(inserted_of(init), ins_tail, x);
        lemma_concat_contains(removed_of(init), rem_tail, x);
        lemma_apply_ops_contains(s, init, x);
        let before = apply_ops(s, init);
        match last {
            OpModel::InsertQuads(qs) => {
                lemma_insert_all_contains(before, qs, x);
                assert(rem_tail =~= Seq::<QuadModel>::empty());
            }
            OpModel::RemoveQuads(qs) => {
                lemma_remove_all_contains(before, qs, x);
                assert(ins_tail =~= Seq::<QuadModel>::empty());
            }
            OpModel::SparqlUpdate(_) => {
                assert(ins_tail =~= Seq::<QuadModel>::empty());
                assert(rem_tail =~= Seq::<QuadModel>::empty());
            }
        }
    }
}

/// Inserting keeps a dataset free of repeats.
proof fn lemma_insert_all_distinct(s: Seq<QuadModel>, qs: Seq<QuadModel>)
    requires
        no_duplicates(s),
    ensures
        no_duplicates(insert_all(s, qs)),
    decreases qs.len(),
{
    if qs.len() > 0 {
        let s1 = after_insert(s, qs[0]);
        if !s.contains(qs[0]) {
            assert forall|i: int, j: int| 0 <= i < j < s1.len() implies s1[i] != s1[j] by {
                if j == s.len() {
                    assert(s1[i] == s[i]);
                    assert(s.contains(s[i]));
                } else {
                    assert(s1[i] == s[i] && s1[j] == s[j]);
                }
            }
        }
        lemma_insert_all_distinct(s1, qs.drop_first());
    }
}

/// Removing keeps a dataset free of repeats.
proof fn lemma_remove_all_distinct(s: Seq<QuadModel>, qs: Seq<QuadModel>)
    requires
        no_duplicates(s),
    ensures
        no_duplicates(remove_all(s, qs)),
    decreases qs.len(),
{
    if qs.len() > 0 {
        lemma_filter_no_duplicates(s, other_than(qs[0]));
        lemma_remove_all_distinct(after_remove(s, qs[0]), qs.drop_first());
    }
}

/// Replaying keeps a dataset free of repeats.
proof fn lemma_apply_ops_distinct(s: Seq<QuadModel>, ops: Seq<OpModel>)
    requires
        no_duplicates(s),
    ensures
        no_duplicates(apply_ops(s, ops)),
    decreases ops.len(),
{
    if ops.len() > 0 {
        match ops[0] {
            OpModel::InsertQuads(qs) => lemma_insert_all_distinct(s, qs),
            OpModel::RemoveQuads(qs) => lemma_remove_all_distinct(s, qs),
            OpModel::SparqlUpdate(_) => {}
        }
        lemma_apply_ops_distinct(apply_op(s, ops[0]), ops.drop_first());
    }
}

/// Recording an entry leaves the quads outside the log graph as they were.
proof fn lemma_after_record_outside_log(s: Seq<QuadModel>, e: EntryModel, retain: nat, x: QuadModel)
    requires
        !in_named_graph(x, log_graph()),
    ensures
        after_record(s, e, retain).contains(x) <==> s.contains(x),
{
    let eq = entry_quads(e);
    lemma_entry_quads(e);
    lemma_insert_all_contains(s, eq, x);
    assert(!eq.contains(x)) by {
        if eq.contains(x) {
            let j = choose|j: int| 0 <= j < eq.len() && eq[j] == x;
            assert(in_log(eq[j], entry_subject(e.id)));
        }
    }
    let w = insert_all(s, eq);
    if retain > 0 && e.id > retain {
        let doomed = stale_subjects(w, (e.id - retain) as u64);
        lemma_filter_contains(w, |q: QuadModel| !(in_named_graph(q, log_graph()) && subject_among(q, doomed)), x);
    }
}

/// Undoing a recorded transaction restores the quads outside the log graph
/// to what they were before the transaction ran. This holds when the
/// transaction had no SPARQL update and few enough quads to be undoable,
/// every quad it inserted was new and every quad it removed was present
/// (none both), none of them is in the log graph, they can be written as
/// N-Quads lines, and the log held no quad of the new entry's subject.
pub proof fn lemma_undo_restores(
    st: ChangelogState,
    s0: Seq<QuadModel>,
    ops: Seq<OpModel>,
    operation: Seq<char>,
    secs: u64,
    undo_secs: u64,
    x: QuadModel,
)
    requires
        st.enabled,
        no_duplicates(s0),
        !has_entry(s0, entry_subject(st.counter)),
        !has_update(ops),
        inserted_of(ops).len() + removed_of(ops).len() <= MAX_UNDOABLE_QUADS,
        forall|i: int| 0 <= i < inserted_of(ops).len() ==> {
            let q = #[trigger] inserted_of(ops)[i];
            quad_writable(q) && !s0.contains(q) && !removed_of(ops).contains(q) && !in_named_graph(q, log_graph())
        },
        forall|i: int| 0 <= i < removed_of(ops).len() ==> {
            let q = #[trigger] removed_of(ops)[i];
            quad_writable(q) && s0.contains(q) && !in_named_graph(q, log_graph())
        },
        !in_named_graph(x, log_graph()),
    ensures
        undo_outcome(
            record_outcome(st, apply_ops(s0, ops), ops, operation, secs).1,
            record_outcome(st, apply_ops(s0, ops), ops, operation, secs).2,
            st.counter,
            undo_secs,
        ).0 is Ok,
        undo_outcome(
            record_outcome(st, apply_ops(s0, ops), ops, operation, secs).1,
            record_outcome(st, apply_ops(s0, ops), ops, operation, secs).2,
            st.counter,
            undo_secs,
        ).2.contains(x) <==> s0.contains(x),
{
    let ins = inserted_of(ops);
    let rem = removed_of(ops);
    let s1 = apply_ops(s0, ops);
    let subj = entry_subject(st.counter);
    lemma_apply_ops_distinct(s0, ops);
    assert forall|q: QuadModel| !(#[trigger] ins.contains(q) && rem.contains(q)) by {
        if ins.contains(q) {
            let j = choose|j: int| 0 <= j < ins.len() && ins[j] == q;
        }
    }
    assert(!has_entry(s1, subj)) by {
        if has_entry(s1, subj) {
            let i = choose|i: int| 0 <= i < s1.len() && in_log(#[trigger] s1[i], subj);
            let q = s1[i];
            assert(s1.contains(q));
            lemma_apply_ops_contains(s0, ops, q);
            if ins.contains(q) {
                let j = choose|j: int| 0 <= j < ins.len() && ins[j] == q;
            } else {
                let j = choose|j: int| 0 <= j < s0.len() && s0[j] == q;
                assert(in_log(s0[j], subj));
            }
        }
    }
    lemma_get_after_record(st, s1, ops, operation, secs);
    let rec = record_outcome(st, s1, ops, operation, secs);
    let e = recorded_entry(st.counter, secs, ops, operation);
    let st1 = rec.1;
    let s2 = rec.2;
    assert(e.undoable);
    let s3pre = remove_all(insert_all(s2, e.removed), e.inserted);
    let und = undo_outcome(st1, s2, st.counter, undo_secs);
    assert(und == record_outcome(st1, s3pre, undo_ops(e), "undo:"@ + decimal(st.counter as nat), undo_secs));
    let e2 = recorded_entry(st1.counter, undo_secs, undo_ops(e), "undo:"@ + decimal(st.counter as nat));
    lemma_after_record_outside_log(s3pre, e2, st1.retain, x);
    lemma_remove_all_contains(insert_all(s2, e.removed), e.inserted, x);
    lemma_insert_all_contains(s2, e.removed, x);
    lemma_after_record_outside_log(s1, e, st.retain, x);
    lemma_apply_ops_contains(s0, ops, x);
    if rem.contains(x) {
        let j = choose|j: int| 0 <= j < rem.len() && rem[j] == x;
    }
    if ins.contains(x) {
        let j = choose|j: int| 0 <= j < ins.len() && ins[j] == x;
    }
}

/// The id of an id row.
spec fn row_id(r: Option<(u64, Seq<char>)>) -> u64 {
    match r {
        Some((id, _)) => id,
        None => 0,
    }
}

/// The subject of an id row.
spec fn row_subject(r: Option<(u64, Seq<char>)>) -> Seq<char> {
    match r {
        Some((_, x)) => x,
        None => Seq::empty(),
    }
}

/// Every id row of a stale entry puts its subject among the stale subjects.
proof fn lemma_stale_includes(t: Seq<QuadModel>, cutoff: u64, i: int)
    requires
        0 <= i < t.len(),
        id_row(t[i]) matches Some((id, _)) && id <= cutoff,
    ensures
        stale_subjects(t, cutoff).contains(row_subject(id_row(t[i]))),
    decreases t.len(),
{
    let x = row_subject(id_row(t[i]));
    let prev = stale_subjects(t.drop_last(), cutoff);
    if i < t.len() - 1 {
        assert(t.drop_last()[i] == t[i]);
        lemma_stale_includes(t.drop_last(), cutoff, i);
        let k = choose|k: int| 0 <= k < prev.len() && prev[k] == x;
        assert(stale_subjects(t, cutoff)[k] == x);
    } else {
        assert(t.last() == t[i]);
        assert(stale_subjects(t, cutoff)[prev.len() as int] == x);
    }
}

/// Retention: after recording entry `n` with a retention of `r` entries
/// (`r > 0`), every entry id left in the log is above `n - r`.
pub proof fn lemma_retention(s: Seq<QuadModel>, e: EntryModel, retain: nat, q: QuadModel)
    requires
        retain > 0,
        e.id > retain,
        after_record(s, e, retain).contains(q),
    ensures
        id_row(q) matches Some((id, _)) ==> id > e.id - retain,
{
    let w = insert_all(s, entry_quads(e));
    let cutoff = (e.id - retain) as u64;
    let doomed = stale_subjects(w, cutoff);
    let p = |x: QuadModel| !(in_named_graph(x, log_graph()) && subject_among(x, doomed));
    assert(after_record(s, e, retain) == w.filter(p));
    lemma_filter_contains(w, p, q);
    if id_row(q) is Some && row_id(id_row(q)) <= cutoff {
        let x = row_subject(id_row(q));
        let i = choose|i: int| 0 <= i < w.len() && w[i] == q;
        lemma_stale_includes(w, cutoff, i);
        let k = choose|k: int| 0 <= k < doomed.len() && doomed[k] == x;
        assert(q.subject == SubjectModel::NamedNode(doomed[k]));
        assert(in_named_graph(q, log_graph()));
    }
}

/// No two different quads of `t` are id rows carrying the same id.
pub open spec fn ids_distinct(t: Seq<QuadModel>) -> bool {
    forall|x: QuadModel, y: QuadModel|
        #![trigger t.contains(x), t.contains(y)]
        t.contains(x) && t.contains(y) && x != y && id_row(x) is Some && id_row(y) is Some
            ==> id_row(x).unwrap().0 != id_row(y).unwrap().0
}

/// Every id row of `t` carries an id in `ids`.
pub open spec fn ids_within(t: Seq<QuadModel>, ids: Set<int>) -> bool {
    forall|x: QuadModel| #[trigger] t.contains(x) && id_row(x) is Some ==> ids.contains(id_row(x).unwrap().0 as int)
}

/// A dataset without repeated quads whose id rows carry distinct ids from a
/// finite set has at most as many id rows as the set has ids.
proof fn lemma_id_rows_bounded(t: Seq<QuadModel>, ids: Set<int>)
    requires
        no_duplicates(t),
        ids_distinct(t),
        ids_within(t, ids),
        ids.finite(),
    ensures
        id_rows(t).len() <= ids.len(),
    decreases t.len(),
{
    if t.len() > 0 {
        let x = t.last();
        let u = t.drop_last();
        assert forall|y: QuadModel| u.contains(y) implies t.contains(y) && y != x by {
            let j = choose|j: int| 0 <= j < u.len() && u[j] == y;
            assert(t[j] == y);
            assert(t[t.len() - 1] == x);
        }
        assert(no_duplicates(u)) by {
            assert forall|i: int, j: int| 0 <= i < j < u.len() implies u[i] != u[j] by {
                assert(u[i] == t[i] && u[j] == t[j]);
            }
        }
        assert(t.contains(x)) by {
            assert(t[t.len() - 1] == x);
        }
        match id_row(x) {
            Some((k, _)) => {
                let rest = ids.remove(k as int);
                assert forall|y: QuadModel| #[trigger] u.contains(y) && id_row(y) is Some implies rest.contains(id_row(y).unwrap().0 as int) by {
                    assert(t.contains(y) && y != x);
                }
                lemma_id_rows_bounded(u, rest);
                assert(ids.contains(k as int));
            }
            None => {
                assert forall|y: QuadModel| #[trigger] u.contains(y) && id_row(y) is Some implies ids.contains(id_row(y).unwrap().0 as int) by {
                    assert(t.contains(y));
                }
                lemma_id_rows_bounded(u, ids);
            }
        }
    }
}

/// Of the quads of an entry, only the one giving its id is an id row.
proof fn lemma_entry_id_row(e: EntryModel, x: QuadModel)
    requires
        entry_quads(e).contains(x),
        id_row(x) is Some,
    ensures
        x == entry_quads(e)[1],
        id_row(x).unwrap().0 == e.id,
{
    lemma_vocabulary_distinct();
    lemma_entry_quads(e);
    let eq = entry_quads(e);
    let i = choose|i: int| 0 <= i < eq.len() && eq[i] == x;
    assert(row_is(id_row(eq[i]), e.id));
    assert(x.predicate == pred_txn_id());
}

/// Retention bounds the log: when the dataset's id rows carry distinct ids
/// from 1 up to below the new entry's id (as the changelog's own counter
/// gives them), recording an entry with a retention of `r` entries (`r > 0`)
/// leaves at most `r` id rows, so a listing shows at most `r` entries.
pub proof fn lemma_retention_bound(s: Seq<QuadModel>, e: EntryModel, retain: nat, offset: nat, limit: nat)
    requires
        retain > 0,
        e.id >= 1,
        no_duplicates(s),
        ids_distinct(s),
        forall|x: QuadModel| #[trigger] s.contains(x) && id_row(x) is Some
            ==> 1 <= id_row(x).unwrap().0 < e.id,
    ensures
        id_rows(after_record(s, e, retain)).len() <= retain,
        listed_entries(after_record(s, e, retain), offset, limit).len() <= retain,
{
    let eq = entry_quads(e);
    let w = insert_all(s, eq);
    let a = after_record(s, e, retain);
    lemma_insert_all_distinct(s, eq);
    let lo: int = if e.id > retain { e.id - retain } else { 0 };
    let ids = vstd::set_lib::set_int_range(lo + 1, e.id + 1);
    vstd::set_lib::lemma_int_range(lo + 1, e.id + 1);
    // what the dataset after recording holds comes from `s` or from the entry
    assert forall|x: QuadModel| #[trigger] a.contains(x) implies w.contains(x) by {
        if e.id > retain {
            let cutoff = (e.id - retain) as u64;
            let p = |q: QuadModel| !(in_named_graph(q, log_graph()) && subject_among(q, stale_subjects(w, cutoff)));
            assert(a == w.filter(p));
            lemma_filter_contains(w, p, x);
        }
    }
    assert(no_duplicates(a)) by {
        if e.id > retain {
            let cutoff = (e.id - retain) as u64;
            let p = |q: QuadModel| !(in_named_graph(q, log_graph()) && subject_among(q, stale_subjects(w, cutoff)));
            assert(a == w.filter(p));
            lemma_filter_no_duplicates(w, p);
        }
    }
    assert forall|x: QuadModel| #[trigger] w.contains(x) && id_row(x) is Some implies
        (id_row(x).unwrap().0 == e.id <==> eq.contains(x)) && 1 <= id_row(x).unwrap().0 <= e.id by {
        lemma_insert_all_contains(s, eq, x);
        if eq.contains(x) {
            lemma_entry_id_row(e, x);
        }
    }
    assert(ids_distinct(a)) by {
        assert forall|x: QuadModel, y: QuadModel|
            #![trigger a.contains(x), a.contains(y)]
            a.contains(x) && a.contains(y) && x != y && id_row(x) is Some && id_row(y) is Some
                implies id_row(x).unwrap().0 != id_row(y).unwrap().0 by {
            assert(w.contains(x) && w.contains(y));
            lemma_insert_all_contains(s, eq, x);
            lemma_insert_all_contains(s, eq, y);
            if eq.contains(x) && eq.contains(y) {
                lemma_entry_id_row(e, x);
                lemma_entry_id_row(e, y);
            } else if !eq.contains(x) && !eq.contains(y) {
                assert(s.contains(x) && s.contains(y));
            }
        }
    }
    assert(ids_within(a, ids)) by {
        assert forall|x: QuadModel| #[trigger] a.contains(x) && id_row(x) is Some implies ids.contains(id_row(x).unwrap().0 as int) by {
            assert(w.contains(x));
            if e.id > retain {
                lemma_retention(s, e, retain, x);
            }
        }
    }
    lemma_id_rows_bounded(a, ids);
    lemma_sort_desc(id_rows(a));
    vstd::seq_lib::to_multiset_len(id_rows(a));
    vstd::seq_lib::to_multiset_len(sort_desc(id_rows(a)));
    let sorted = sort_desc(id_rows(a));
    assert(page(sorted, offset, limit).len() <= sorted.len());
}

} // verus!
