//! The contract of a pluggable storage backend: snapshot readers, write
//! transactions and readable transactions, stated over the dataset they
//! hold. Backends implement these traits; what they promise is stated here.
use vstd::prelude::*;
use crate::store::{
    Subject, Term, GraphName, Quad, QuadModel, SubjectModel, TermModel, GraphModel, quads_view,
    after_insert, after_remove,
};

verus! {

/// Why a storage operation failed.
#[derive(Debug)]
pub enum StorageError {
    /// The underlying storage failed to read or write.
    Io(String),
    /// The stored data is inconsistent.
    Corruption(String),
    /// Another failure.
    Other(String),
}

/// Whether a quad matches a pattern (`None` matches anything).
pub open spec fn matches_pattern(
    q: QuadModel,
    subject: Option<SubjectModel>,
    predicate: Option<Seq<char>>,
    object: Option<TermModel>,
    graph_name: Option<GraphModel>,
) -> bool {
    &&& (subject matches Some(s) ==> q.subject == s)
    &&& (predicate matches Some(p) ==> q.predicate == p)
    &&& (object matches Some(o) ==> q.object == o)
    &&& (graph_name matches Some(g) ==> q.graph_name == g)
}

/// Plain value of an optional reference.
pub open spec fn opt_view<T: View>(x: Option<&T>) -> Option<T::V> {
    match x {
        Some(v) => Some(v@),
        None => None,
    }
}

/// Whether a graph name names a graph (the default graph does not).
pub open spec fn is_named(g: GraphModel) -> bool {
    !(g is DefaultGraph)
}

/// The named graphs after inserting a quad: its graph, when named, is added.
pub open spec fn graphs_after_insert(graphs: Set<GraphModel>, q: QuadModel) -> Set<GraphModel> {
    if is_named(q.graph_name) { graphs.insert(q.graph_name) } else { graphs }
}

/// Read-only access to a point-in-time snapshot of the dataset.
pub trait StorageBackendReader: Sized {
    /// The quads of the snapshot.
    spec fn held(&self) -> Seq<QuadModel>;

    /// The named graphs of the snapshot (a named graph may hold no quad).
    spec fn named_graph_set(&self) -> Set<GraphModel>;

    /// Total number of quads.
    fn len(&self) -> (r: Result<usize, StorageError>)
        ensures
            r matches Ok(n) ==> n == self.held().len();

    /// Whether there is no quad.
    fn is_empty(&self) -> (r: Result<bool, StorageError>)
        ensures
            r matches Ok(b) ==> b == (self.held().len() == 0);

    /// Whether the quad is held.
    fn contains(&self, quad: &Quad) -> (r: Result<bool, StorageError>)
        ensures
            r matches Ok(b) ==> b == self.held().contains(quad@);

    /// The quads matching a pattern; `None` matches any value.
    fn quads_for_pattern(
        &self,
        subject: Option<&Subject>,
        predicate: Option<&String>,
        object: Option<&Term>,
        graph_name: Option<&GraphName>,
    ) -> (r: Result<Vec<Quad>, StorageError>)
        ensures
            r matches Ok(v) ==> forall|q: QuadModel| quads_view(v@).contains(q) <==> (self.held().contains(q)
                && matches_pattern(q, opt_view(subject), opt_view(predicate), opt_view(object), opt_view(graph_name)));

    /// The named graphs.
    fn named_graphs(&self) -> (r: Result<Vec<GraphName>, StorageError>)
        ensures
            r matches Ok(v) ==> forall|g: GraphModel| v@.map_values(|x: GraphName| x@).contains(g)
                <==> self.named_graph_set().contains(g);

    /// Whether the named graph exists.
    fn contains_named_graph(&self, graph_name: &GraphName) -> (r: Result<bool, StorageError>)
        ensures
            r matches Ok(b) ==> b == self.named_graph_set().contains(graph_name@);

    /// Checks the backend's own storage invariants.
    fn validate(&self) -> (r: Result<(), StorageError>);
}

/// Buffered writes, applied atomically on commit.
pub trait StorageBackendTransaction: Sized {
    /// The quads the transaction will commit.
    spec fn staged(&self) -> Seq<QuadModel>;

    /// The named graphs the transaction will commit.
    spec fn staged_graphs(&self) -> Set<GraphModel>;

    /// Insert a quad (its named graph comes to exist).
    fn insert(&mut self, quad: &Quad)
        ensures
            final(self).staged() == after_insert(old(self).staged(), quad@),
            final(self).staged_graphs() == graphs_after_insert(old(self).staged_graphs(), quad@);

    /// Insert a named graph without quads.
    fn insert_named_graph(&mut self, graph_name: &GraphName)
        requires
            is_named(graph_name@),
        ensures
            final(self).staged() == old(self).staged(),
            final(self).staged_graphs() == old(self).staged_graphs().insert(graph_name@);

    /// Remove a quad (its graph stays).
    fn remove(&mut self, quad: &Quad)
        ensures
            final(self).staged() == after_remove(old(self).staged(), quad@),
            final(self).staged_graphs() == old(self).staged_graphs();

    /// Remove the quads of the default graph.
    fn clear_default_graph(&mut self)
        ensures
            final(self).staged() == old(self).staged().filter(|q: QuadModel| is_named(q.graph_name)),
            final(self).staged_graphs() == old(self).staged_graphs();

    /// Remove the quads of every named graph, keeping the graphs.
    fn clear_all_named_graphs(&mut self)
        ensures
            final(self).staged() == old(self).staged().filter(|q: QuadModel| !is_named(q.graph_name)),
            final(self).staged_graphs() == old(self).staged_graphs();

    /// Remove every quad, keeping the named graphs.
    fn clear_all_graphs(&mut self)
        ensures
            final(self).staged() == Seq::<QuadModel>::empty(),
            final(self).staged_graphs() == old(self).staged_graphs();

    /// Remove every named graph and its quads.
    fn remove_all_named_graphs(&mut self)
        ensures
            final(self).staged() == old(self).staged().filter(|q: QuadModel| !is_named(q.graph_name)),
            final(self).staged_graphs() == Set::<GraphModel>::empty();

    /// Remove everything.
    fn clear(&mut self)
        ensures
            final(self).staged() == Seq::<QuadModel>::empty(),
            final(self).staged_graphs() == Set::<GraphModel>::empty();

    /// Atomically commit the writes.
    fn commit(self) -> (r: Result<(), StorageError>);
}

/// A transaction that can also read what it holds, its own writes included.
pub trait StorageBackendReadableTransaction: StorageBackendTransaction {
    /// The reader over the transaction's current state.
    type Reader: StorageBackendReader;

    /// A reader that sees the committed state and this transaction's writes.
    fn reader(&self) -> (r: Self::Reader)
        ensures
            r.held() == self.staged(),
            r.named_graph_set() == self.staged_graphs();

    /// Remove the quads of one graph (default or named), keeping it.
    fn clear_graph(&mut self, graph_name: &GraphName) -> (r: Result<(), StorageError>)
        ensures
            r is Ok ==> final(self).staged() == old(self).staged().filter(|q: QuadModel| q.graph_name != graph_name@),
            r is Ok ==> final(self).staged_graphs() == old(self).staged_graphs();

    /// Remove a named graph and its quads.
    fn remove_named_graph(&mut self, graph_name: &GraphName) -> (r: Result<(), StorageError>)
        requires
            is_named(graph_name@),
        ensures
            r is Ok ==> final(self).staged() == old(self).staged().filter(|q: QuadModel| q.graph_name != graph_name@),
            r is Ok ==> final(self).staged_graphs() == old(self).staged_graphs().remove(graph_name@);
}

} // verus!
