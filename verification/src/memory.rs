//! The in-memory storage backend: a dataset and its named graphs, with
//! snapshot readers and transactions that publish their writes on commit.
use vstd::prelude::*;
use crate::store::{
    Subject, Term, GraphName, Quad, QuadModel, GraphModel, QuadStore, GraphScope, in_scope,
    quads_view, lemma_filter_contains,
};
use crate::backend::{
    StorageError, StorageBackendReader, StorageBackendTransaction, StorageBackendReadableTransaction,
    matches_pattern, opt_view, is_named,
};

verus! {

/// Plain values of graph names, as a set.
pub open spec fn graphs_view(gs: Seq<GraphName>) -> Set<GraphModel> {
    gs.map_values(|g: GraphName| g@).to_set()
}

/// Copies of graph names.
fn copy_graphs(gs: &[GraphName]) -> (r: Vec<GraphName>)
    ensures
        r@.map_values(|g: GraphName| g@) == gs@.map_values(|g: GraphName| g@),
{
    let mut out: Vec<GraphName> = Vec::new();
    let mut i: usize = 0;
    while i < gs.len()
        invariant
            i <= gs@.len(),
            out@.len() == i,
            forall|k: int| 0 <= k < i ==> #[trigger] out@[k]@ == gs@[k]@,
        decreases gs@.len() - i,
    {
        out.push(gs[i].copy());
        i = i + 1;
    }
    assert(out@.map_values(|g: GraphName| g@) =~= gs@.map_values(|g: GraphName| g@));
    out
}

/// Whether `g` is among the graph names.
fn has_graph(gs: &[GraphName], g: &GraphName) -> (r: bool)
    ensures
        r == graphs_view(gs@).contains(g@),
{
    let ghost vs = gs@.map_values(|x: GraphName| x@);
    let mut i: usize = 0;
    while i < gs.len()
        invariant
            i <= gs@.len(),
            vs == gs@.map_values(|x: GraphName| x@),
            forall|k: int| 0 <= k < i ==> vs[k] != g@,
        decreases gs@.len() - i,
    {
        if gs[i].same(g) {
            assert(vs[i as int] == g@);
            return true;
        }
        i = i + 1;
    }
    proof {
        if vs.to_set().contains(g@) {
            let k = choose|k: int| 0 <= k < vs.len() && vs[k] == g@;
            assert(false);
        }
    }
    false
}

/// Adds a graph name unless present.
fn add_graph(gs: &mut Vec<GraphName>, g: &GraphName)
    ensures
        graphs_view(final(gs)@) == graphs_view(old(gs)@).insert(g@),
{
    if !has_graph(gs.as_slice(), g) {
        let ghost before = gs@.map_values(|x: GraphName| x@);
        gs.push(g.copy());
        assert(gs@.map_values(|x: GraphName| x@) =~= before.push(g@));
        proof {
            before.lemma_push_to_set_commute(g@);
        }
        assert(graphs_view(gs@) =~= graphs_view(old(gs)@).insert(g@));
    } else {
        assert(graphs_view(old(gs)@).contains(g@));
        assert(gs@ == old(gs)@);
        assert(graphs_view(gs@) =~= graphs_view(old(gs)@).insert(g@));
    }
}

/// Removes a graph name.
fn drop_graph(gs: &mut Vec<GraphName>, g: &GraphName)
    ensures
        graphs_view(final(gs)@) == graphs_view(old(gs)@).remove(g@),
{
    let ghost vs = gs@.map_values(|x: GraphName| x@);
    let mut kept: Vec<GraphName> = Vec::new();
    let mut i: usize = 0;
    while i < gs.len()
        invariant
            i <= gs@.len(),
            vs == gs@.map_values(|x: GraphName| x@),
            graphs_view(kept@) == vs.take(i as int).to_set().remove(g@),
        decreases gs@.len() - i,
    {
        let ghost before = kept@.map_values(|x: GraphName| x@);
        assert(vs.take(i + 1) =~= vs.take(i as int).push(vs[i as int]));
        proof {
            vs.take(i as int).lemma_push_to_set_commute(vs[i as int]);
            before.lemma_push_to_set_commute(vs[i as int]);
        }
        if !gs[i].same(g) {
            kept.push(gs[i].copy());
            assert(kept@.map_values(|x: GraphName| x@) =~= before.push(vs[i as int]));
            assert(graphs_view(kept@) =~= vs.take(i + 1).to_set().remove(g@));
        } else {
            assert(graphs_view(kept@) =~= vs.take(i + 1).to_set().remove(g@));
        }
        i = i + 1;
    }
    assert(vs.take(i as int) =~= vs);
    *gs = kept;
}

/// Whether a quad matches a pattern; `None` matches any value.
fn quad_matches(
    q: &Quad,
    subject: Option<&Subject>,
    predicate: Option<&String>,
    object: Option<&Term>,
    graph_name: Option<&GraphName>,
) -> (r: bool)
    ensures
        r == matches_pattern(q@, opt_view(subject), opt_view(predicate), opt_view(object), opt_view(graph_name)),
{
    let s_ok = match subject {
        Some(s) => q.subject.same(s),
        None => true,
    };
    let p_ok = match predicate {
        Some(p) => q.predicate == *p,
        None => true,
    };
    let o_ok = match object {
        Some(o) => q.object.same(o),
        None => true,
    };
    let g_ok = match graph_name {
        Some(g) => q.graph_name.same(g),
        None => true,
    };
    s_ok && p_ok && o_ok && g_ok
}

/// The quads of a dataset that match a pattern, in order.
fn matching_quads(
    store: &QuadStore,
    subject: Option<&Subject>,
    predicate: Option<&String>,
    object: Option<&Term>,
    graph_name: Option<&GraphName>,
) -> (r: Vec<Quad>)
    ensures
        forall|q: QuadModel| #[trigger] quads_view(r@).contains(q) <==> (store@.contains(q)
            && matches_pattern(q, opt_view(subject), opt_view(predicate), opt_view(object), opt_view(graph_name))),
{
    let ghost pred = |q: QuadModel| matches_pattern(q, opt_view(subject), opt_view(predicate), opt_view(object), opt_view(graph_name));
    let qs = store.quads();
    let ghost s = quads_view(qs@);
    let mut out: Vec<Quad> = Vec::new();
    let mut i: usize = 0;
    assert(s.take(0).filter(pred) =~= Seq::<QuadModel>::empty()) by {
        reveal(Seq::filter);
    }
    while i < qs.len()
        invariant
            i <= qs@.len(),
            s == quads_view(qs@),
            pred == (|q: QuadModel| matches_pattern(q, opt_view(subject), opt_view(predicate), opt_view(object), opt_view(graph_name))),
            quads_view(out@) == s.take(i as int).filter(pred),
        decreases qs@.len() - i,
    {
        let q = &qs[i];
        proof {
            reveal(Seq::filter);
            assert(s.take(i + 1).drop_last() =~= s.take(i as int));
            assert(s.take(i + 1).last() == q@);
        }
        if quad_matches(q, subject, predicate, object, graph_name) {
            out.push(q.copy());
            assert(quads_view(out@) =~= s.take(i + 1).filter(pred));
        } else {
            assert(quads_view(out@) =~= s.take(i + 1).filter(pred));
        }
        i = i + 1;
    }
    assert(s.take(i as int) =~= s);
    assert forall|q: QuadModel| quads_view(out@).contains(q) <==> (store@.contains(q) && pred(q)) by {
        lemma_filter_contains(s, pred, q);
    }
    out
}

/// An in-memory dataset and its named graphs.
pub struct MemoryStorage {
    quads: QuadStore,
    graphs: Vec<GraphName>,
}

impl MemoryStorage {
    /// The quads held.
    pub closed spec fn held(&self) -> Seq<QuadModel> {
        self.quads@
    }

    /// The named graphs.
    pub closed spec fn graph_set(&self) -> Set<GraphModel> {
        graphs_view(self.graphs@)
    }

    /// An empty storage.
    pub fn new() -> (r: Self)
        ensures
            r.held() == Seq::<QuadModel>::empty(),
            r.graph_set() == Set::<GraphModel>::empty(),
    {
        let r = MemoryStorage { quads: QuadStore::new(), graphs: Vec::new() };
        assert(r.graph_set() =~= Set::<GraphModel>::empty());
        r
    }

    /// A reader over the current state, unaffected by later writes.
    pub fn snapshot(&self) -> (r: MemoryReader)
        ensures
            r.held() == self.held(),
            r.named_graph_set() == self.graph_set(),
    {
        MemoryReader { quads: self.quads.copy(), graphs: copy_graphs(self.graphs.as_slice()) }
    }

    /// A transaction over the storage: it starts from the current state and
    /// changes the storage only when committed.
    pub fn start_transaction(&mut self) -> (t: MemoryTransaction<'_>)
        ensures
            t.staged() == old(self).held(),
            t.staged_graphs() == old(self).graph_set(),
            *final(self) == *final(t.target),
            *t.target == *old(self),
    {
        let staged = self.quads.copy();
        let graphs = copy_graphs(self.graphs.as_slice());
        MemoryTransaction { target: self, staged, graphs }
    }
}

/// A point-in-time copy of an in-memory storage.
pub struct MemoryReader {
    quads: QuadStore,
    graphs: Vec<GraphName>,
}

impl StorageBackendReader for MemoryReader {
    closed spec fn held(&self) -> Seq<QuadModel> {
        self.quads@
    }

    closed spec fn named_graph_set(&self) -> Set<GraphModel> {
        graphs_view(self.graphs@)
    }

    fn len(&self) -> (r: Result<usize, StorageError>)
        ensures
            r is Ok,
    {
        Ok(self.quads.len())
    }

    fn is_empty(&self) -> (r: Result<bool, StorageError>)
        ensures
            r is Ok,
    {
        Ok(self.quads.len() == 0)
    }

    fn contains(&self, quad: &Quad) -> (r: Result<bool, StorageError>)
        ensures
            r is Ok,
    {
        Ok(self.quads.contains(quad))
    }

    fn quads_for_pattern(
        &self,
        subject: Option<&Subject>,
        predicate: Option<&String>,
        object: Option<&Term>,
        graph_name: Option<&GraphName>,
    ) -> (r: Result<Vec<Quad>, StorageError>)
        ensures
            r is Ok,
    {
        let v = matching_quads(&self.quads, subject, predicate, object, graph_name);
        assert forall|q: QuadModel| quads_view(v@).contains(q) <==> (self.held().contains(q)
            && matches_pattern(q, opt_view(subject), opt_view(predicate), opt_view(object), opt_view(graph_name))) by {
            assert(quads_view(v@).contains(q) <==> (self.quads@.contains(q)
                && matches_pattern(q, opt_view(subject), opt_view(predicate), opt_view(object), opt_view(graph_name))));
        }
        Ok(v)
    }

    fn named_graphs(&self) -> (r: Result<Vec<GraphName>, StorageError>)
        ensures
            r is Ok,
    {
        let v = copy_graphs(self.graphs.as_slice());
        Ok(v)
    }

    fn contains_named_graph(&self, graph_name: &GraphName) -> (r: Result<bool, StorageError>)
        ensures
            r is Ok,
    {
        Ok(has_graph(self.graphs.as_slice(), graph_name))
    }

    /// The in-memory dataset has no separate indexes to disagree: it always
    /// passes.
    fn validate(&self) -> (r: Result<(), StorageError>)
        ensures
            r is Ok,
    {
        Ok(())
    }
}

/// A transaction over an in-memory storage: writes are staged on a copy of
/// the state and replace the storage's state on commit; dropping the
/// transaction leaves the storage as it was.
pub struct MemoryTransaction<'a> {
    /// The storage the transaction commits to.
    pub target: &'a mut MemoryStorage,
    /// The dataset as the transaction leaves it.
    pub staged: QuadStore,
    /// The named graphs as the transaction leaves them.
    pub graphs: Vec<GraphName>,
}

impl<'a> StorageBackendTransaction for MemoryTransaction<'a> {
    closed spec fn staged(&self) -> Seq<QuadModel> {
        self.staged@
    }

    closed spec fn staged_graphs(&self) -> Set<GraphModel> {
        graphs_view(self.graphs@)
    }

    fn insert(&mut self, quad: &Quad) {
        self.staged.insert(quad.copy());
        if !matches!(quad.graph_name, GraphName::DefaultGraph) {
            add_graph(&mut self.graphs, &quad.graph_name);
        }
    }

    fn insert_named_graph(&mut self, graph_name: &GraphName) {
        add_graph(&mut self.graphs, graph_name);
    }

    fn remove(&mut self, quad: &Quad) {
        self.staged.remove(quad);
    }

    fn clear_default_graph(&mut self) {
        self.staged.remove_in_scope(&GraphScope::DefaultGraph);
        assert((|q: QuadModel| !in_scope(GraphScope::DefaultGraph, q)) =~= (|q: QuadModel| is_named(q.graph_name)));
    }

    fn clear_all_named_graphs(&mut self) {
        self.staged.remove_in_scope(&GraphScope::NamedGraphs);
        assert((|q: QuadModel| !in_scope(GraphScope::NamedGraphs, q)) =~= (|q: QuadModel| !is_named(q.graph_name)));
    }

    fn clear_all_graphs(&mut self) {
        self.staged.clear();
    }

    fn remove_all_named_graphs(&mut self) {
        self.staged.remove_in_scope(&GraphScope::NamedGraphs);
        assert((|q: QuadModel| !in_scope(GraphScope::NamedGraphs, q)) =~= (|q: QuadModel| !is_named(q.graph_name)));
        self.graphs = Vec::new();
        assert(graphs_view(self.graphs@) =~= Set::<GraphModel>::empty());
    }

    fn clear(&mut self) {
        self.staged.clear();
        self.graphs = Vec::new();
        assert(graphs_view(self.graphs@) =~= Set::<GraphModel>::empty());
    }

    fn commit(self) -> (r: Result<(), StorageError>)
        ensures
            r is Ok,
            final(self.target).held() == self.staged(),
            final(self.target).graph_set() == self.staged_graphs(),
    {
        *self.target = MemoryStorage { quads: self.staged, graphs: self.graphs };
        Ok(())
    }
}

impl<'a> StorageBackendReadableTransaction for MemoryTransaction<'a> {
    type Reader = MemoryReader;

    fn reader(&self) -> (r: MemoryReader) {
        MemoryReader { quads: self.staged.copy(), graphs: copy_graphs(self.graphs.as_slice()) }
    }

    fn clear_graph(&mut self, graph_name: &GraphName) -> (r: Result<(), StorageError>)
        ensures
            r is Ok,
    {
        let scope = GraphScope::Graph(graph_name.copy());
        self.staged.remove_in_scope(&scope);
        assert((|q: QuadModel| !in_scope(scope, q)) =~= (|q: QuadModel| q.graph_name != graph_name@));
        Ok(())
    }

    fn remove_named_graph(&mut self, graph_name: &GraphName) -> (r: Result<(), StorageError>)
        ensures
            r is Ok,
    {
        let scope = GraphScope::Graph(graph_name.copy());
        self.staged.remove_in_scope(&scope);
        assert((|q: QuadModel| !in_scope(scope, q)) =~= (|q: QuadModel| q.graph_name != graph_name@));
        drop_graph(&mut self.graphs, graph_name);
        Ok(())
    }
}

} // verus!
