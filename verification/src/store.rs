//! In-memory RDF dataset: quads of named nodes, blank nodes and literals,
//! kept without duplicates in insertion order.
use vstd::prelude::*;

verus! {

/// Subject of a quad.
#[derive(Clone, Debug, PartialEq, Eq)]
pub enum Subject {
    NamedNode(String),
    BlankNode(String),
}

/// Literal: plain string, language-tagged string (value, language) or typed
/// literal (value, datatype IRI).
#[derive(Clone, Debug, PartialEq, Eq)]
pub enum Literal {
    Simple(String),
    LanguageTagged(String, String),
    Typed(String, String),
}

/// Object of a quad.
#[derive(Clone, Debug, PartialEq, Eq)]
pub enum Term {
    NamedNode(String),
    BlankNode(String),
    Literal(Literal),
}

/// Graph of a quad.
#[derive(Clone, Debug, PartialEq, Eq)]
pub enum GraphName {
    DefaultGraph,
    NamedNode(String),
    BlankNode(String),
}

/// A quad; the predicate is an IRI.
#[derive(Clone, Debug, PartialEq, Eq)]
pub struct Quad {
    pub subject: Subject,
    pub predicate: String,
    pub object: Term,
    pub graph_name: GraphName,
}

/// Plain-value model of a subject.
pub enum SubjectModel {
    NamedNode(Seq<char>),
    BlankNode(Seq<char>),
}

/// Plain-value model of a literal.
pub enum LiteralModel {
    Simple(Seq<char>),
    LanguageTagged(Seq<char>, Seq<char>),
    Typed(Seq<char>, Seq<char>),
}

/// Plain-value model of an object.
pub enum TermModel {
    NamedNode(Seq<char>),
    BlankNode(Seq<char>),
    Literal(LiteralModel),
}

/// Plain-value model of a graph name.
pub enum GraphModel {
    DefaultGraph,
    NamedNode(Seq<char>),
    BlankNode(Seq<char>),
}

/// Plain-value model of a quad.
pub struct QuadModel {
    pub subject: SubjectModel,
    pub predicate: Seq<char>,
    pub object: TermModel,
    pub graph_name: GraphModel,
}

impl View for Subject {
    type V = SubjectModel;

    open spec fn view(&self) -> SubjectModel {
        match self {
            Subject::NamedNode(s) => SubjectModel::NamedNode(s@),
            Subject::BlankNode(s) => SubjectModel::BlankNode(s@),
        }
    }
}

impl View for Literal {
    type V = LiteralModel;

    open spec fn view(&self) -> LiteralModel {
        match self {
            Literal::Simple(v) => LiteralModel::Simple(v@),
            Literal::LanguageTagged(v, l) => LiteralModel::LanguageTagged(v@, l@),
            Literal::Typed(v, d) => LiteralModel::Typed(v@, d@),
        }
    }
}

impl View for Term {
    type V = TermModel;

    open spec fn view(&self) -> TermModel {
        match self {
            Term::NamedNode(s) => TermModel::NamedNode(s@),
            Term::BlankNode(s) => TermModel::BlankNode(s@),
            Term::Literal(l) => TermModel::Literal(l@),
        }
    }
}

impl View for GraphName {
    type V = GraphModel;

    open spec fn view(&self) -> GraphModel {
        match self {
            GraphName::DefaultGraph => GraphModel::DefaultGraph,
            GraphName::NamedNode(s) => GraphModel::NamedNode(s@),
            GraphName::BlankNode(s) => GraphModel::BlankNode(s@),
        }
    }
}

impl View for Quad {
    type V = QuadModel;

    open spec fn view(&self) -> QuadModel {
        QuadModel {
            subject: self.subject@,
            predicate: self.predicate@,
            object: self.object@,
            graph_name: self.graph_name@,
        }
    }
}

/// Plain-value model of a sequence of quads.
pub open spec fn quads_view(s: Seq<Quad>) -> Seq<QuadModel> {
    s.map_values(|q: Quad| q@)
}

/// The value of a literal.
pub open spec fn literal_value(l: LiteralModel) -> Seq<char> {
    match l {
        LiteralModel::Simple(v) => v,
        LiteralModel::LanguageTagged(v, _) => v,
        LiteralModel::Typed(v, _) => v,
    }
}

impl Subject {
    /// A copy with the same value.
    pub fn copy(&self) -> (r: Self)
        ensures
            r@ == self@,
    {
        match self {
            Subject::NamedNode(s) => Subject::NamedNode(s.clone()),
            Subject::BlankNode(s) => Subject::BlankNode(s.clone()),
        }
    }

    /// Whether both denote the same subject.
    pub fn same(&self, other: &Self) -> (r: bool)
        ensures
            r == (self@ == other@),
    {
        match (self, other) {
            (Subject::NamedNode(a), Subject::NamedNode(b)) => *a == *b,
            (Subject::BlankNode(a), Subject::BlankNode(b)) => *a == *b,
            _ => false,
        }
    }
}

impl Literal {
    /// A copy with the same value.
    pub fn copy(&self) -> (r: Self)
        ensures
            r@ == self@,
    {
        match self {
            Literal::Simple(v) => Literal::Simple(v.clone()),
            Literal::LanguageTagged(v, l) => Literal::LanguageTagged(v.clone(), l.clone()),
            Literal::Typed(v, d) => Literal::Typed(v.clone(), d.clone()),
        }
    }

    /// Whether both denote the same literal.
    pub fn same(&self, other: &Self) -> (r: bool)
        ensures
            r == (self@ == other@),
    {
        match (self, other) {
            (Literal::Simple(a), Literal::Simple(b)) => *a == *b,
            (Literal::LanguageTagged(a, l), Literal::LanguageTagged(b, m)) => *a == *b && *l == *m,
            (Literal::Typed(a, d), Literal::Typed(b, e)) => *a == *b && *d == *e,
            _ => false,
        }
    }

    /// The lexical value.
    pub fn value(&self) -> (r: &str)
        ensures
            r@ == literal_value(self@),
    {
        match self {
            Literal::Simple(v) => v.as_str(),
            Literal::LanguageTagged(v, _) => v.as_str(),
            Literal::Typed(v, _) => v.as_str(),
        }
    }
}

impl Term {
    /// A copy with the same value.
    pub fn copy(&self) -> (r: Self)
        ensures
            r@ == self@,
    {
        match self {
            Term::NamedNode(s) => Term::NamedNode(s.clone()),
            Term::BlankNode(s) => Term::BlankNode(s.clone()),
            Term::Literal(l) => Term::Literal(l.copy()),
        }
    }

    /// Whether both denote the same term.
    pub fn same(&self, other: &Self) -> (r: bool)
        ensures
            r == (self@ == other@),
    {
        match (self, other) {
            (Term::NamedNode(a), Term::NamedNode(b)) => *a == *b,
            (Term::BlankNode(a), Term::BlankNode(b)) => *a == *b,
            (Term::Literal(a), Term::Literal(b)) => a.same(b),
            _ => false,
        }
    }
}

impl GraphName {
    /// A copy with the same value.
    pub fn copy(&self) -> (r: Self)
        ensures
            r@ == self@,
    {
        match self {
            GraphName::DefaultGraph => GraphName::DefaultGraph,
            GraphName::NamedNode(s) => GraphName::NamedNode(s.clone()),
            GraphName::BlankNode(s) => GraphName::BlankNode(s.clone()),
        }
    }

    /// Whether both denote the same graph.
    pub fn same(&self, other: &Self) -> (r: bool)
        ensures
            r == (self@ == other@),
    {
        match (self, other) {
            (GraphName::DefaultGraph, GraphName::DefaultGraph) => true,
            (GraphName::NamedNode(a), GraphName::NamedNode(b)) => *a == *b,
            (GraphName::BlankNode(a), GraphName::BlankNode(b)) => *a == *b,
            _ => false,
        }
    }
}

impl Quad {
    /// A copy with the same value.
    pub fn copy(&self) -> (r: Self)
        ensures
            r@ == self@,
    {
        Quad {
            subject: self.subject.copy(),
            predicate: self.predicate.clone(),
            object: self.object.copy(),
            graph_name: self.graph_name.copy(),
        }
    }

    /// Whether both denote the same quad.
    pub fn same(&self, other: &Self) -> (r: bool)
        ensures
            r == (self@ == other@),
    {
        self.subject.same(&other.subject) && self.predicate == other.predicate
            && self.object.same(&other.object) && self.graph_name.same(&other.graph_name)
    }
}

/// Copies a sequence of quads.
pub fn copy_quads(qs: &[Quad]) -> (r: Vec<Quad>)
    ensures
        quads_view(r@) == quads_view(qs@),
{
    let mut out: Vec<Quad> = Vec::new();
    let mut i: usize = 0;
    while i < qs.len()
        invariant
            i <= qs@.len(),
            out@.len() == i,
            forall|k: int| 0 <= k < i ==> #[trigger] out@[k]@ == qs@[k]@,
        decreases qs@.len() - i,
    {
        out.push(qs[i].copy());
        i = i + 1;
    }
    assert(quads_view(out@) =~= quads_view(qs@));
    out
}

/// Whether a sequence of quads has no repeated element.
pub open spec fn no_duplicates(s: Seq<QuadModel>) -> bool {
    forall|i: int, j: int| 0 <= i < j < s.len() ==> s[i] != s[j]
}

/// `s` without the element at `i`.
pub open spec fn remove_at(s: Seq<QuadModel>, i: int) -> Seq<QuadModel> {
    s.take(i) + s.skip(i + 1)
}

/// The dataset after inserting `q`: unchanged when present, else appended.
pub open spec fn after_insert(s: Seq<QuadModel>, q: QuadModel) -> Seq<QuadModel> {
    if s.contains(q) { s } else { s.push(q) }
}

/// The dataset after removing `q` (without duplicates: at most one copy).
pub open spec fn after_remove(s: Seq<QuadModel>, q: QuadModel) -> Seq<QuadModel> {
    s.filter(other_than(q))
}

/// Holds of every quad but `q`.
pub open spec fn other_than(q: QuadModel) -> spec_fn(QuadModel) -> bool {
    |x: QuadModel| x != q
}

/// The dataset after inserting each quad of `qs` in turn.
pub open spec fn insert_all(s: Seq<QuadModel>, qs: Seq<QuadModel>) -> Seq<QuadModel>
    decreases qs.len(),
{
    if qs.len() == 0 {
        s
    } else {
        insert_all(after_insert(s, qs[0]), qs.drop_first())
    }
}

/// The dataset after removing each quad of `qs` in turn.
pub open spec fn remove_all(s: Seq<QuadModel>, qs: Seq<QuadModel>) -> Seq<QuadModel>
    decreases qs.len(),
{
    if qs.len() == 0 {
        s
    } else {
        remove_all(after_remove(s, qs[0]), qs.drop_first())
    }
}

/// Whether a quad is in the named graph `g`.
pub open spec fn in_named_graph(q: QuadModel, g: Seq<char>) -> bool {
    q.graph_name == GraphModel::NamedNode(g)
}

/// The graphs that a removal reaches: the default graph, every named
/// graph, or one graph.
pub enum GraphScope {
    DefaultGraph,
    NamedGraphs,
    Graph(GraphName),
}

/// Whether a quad is in a scope's graphs.
pub open spec fn in_scope(scope: GraphScope, q: QuadModel) -> bool {
    match scope {
        GraphScope::DefaultGraph => q.graph_name is DefaultGraph,
        GraphScope::NamedGraphs => !(q.graph_name is DefaultGraph),
        GraphScope::Graph(g) => q.graph_name == g@,
    }
}

/// Whether the subject of a quad is a named node among `subjects`.
pub open spec fn subject_among(q: QuadModel, subjects: Seq<Seq<char>>) -> bool {
    exists|k: int| 0 <= k < subjects.len() && q.subject == SubjectModel::NamedNode(#[trigger] subjects[k])
}

/// Plain values of a sequence of strings.
pub open spec fn strings_view(s: Seq<String>) -> Seq<Seq<char>> {
    s.map_values(|x: String| x@)
}

/// Every element of a filtered sequence comes from the sequence, and a
/// filtered sequence without repeats has none either.
pub proof fn lemma_filter_no_duplicates(s: Seq<QuadModel>, p: spec_fn(QuadModel) -> bool)
    requires
        no_duplicates(s),
    ensures
        no_duplicates(s.filter(p)),
        forall|i: int| 0 <= i < s.filter(p).len() ==> s.contains(#[trigger] s.filter(p)[i]),
    decreases s.len(),
{
    reveal(Seq::filter);
    if s.len() > 0 {
        let init = s.drop_last();
        assert(no_duplicates(init));
        lemma_filter_no_duplicates(init, p);
        let sub = init.filter(p);
        assert forall|i: int| 0 <= i < sub.len() implies s.contains(#[trigger] sub[i]) by {
            let j = choose|j: int| 0 <= j < init.len() && init[j] == sub[i];
            assert(s[j] == sub[i]);
        }
        if p(s.last()) {
            assert(!sub.contains(s.last())) by {
                if sub.contains(s.last()) {
                    let i = choose|i: int| 0 <= i < sub.len() && sub[i] == s.last();
                    let j = choose|j: int| 0 <= j < init.len() && init[j] == sub[i];
                    assert(s[j] == s[s.len() - 1]);
                }
            }
            assert forall|i: int| 0 <= i < sub.push(s.last()).len() implies s.contains(#[trigger] sub.push(s.last())[i]) by {
                if i == sub.len() {
                    assert(s[s.len() - 1] == s.last());
                } else {
                    assert(sub.push(s.last())[i] == sub[i]);
                }
            }
        }
    }
}

/// A filtered sequence holds exactly the elements that pass the filter.
pub proof fn lemma_filter_contains(s: Seq<QuadModel>, p: spec_fn(QuadModel) -> bool, x: QuadModel)
    ensures
        s.filter(p).contains(x) <==> (s.contains(x) && p(x)),
    decreases s.len(),
{
    reveal(Seq::filter);
    if s.len() > 0 {
        let init = s.drop_last();
        lemma_filter_contains(init, p, x);
        if init.contains(x) {
            let j = choose|j: int| 0 <= j < init.len() && init[j] == x;
            assert(s[j] == x);
        }
        if s.contains(x) && x != s.last() {
            let j = choose|j: int| 0 <= j < s.len() && s[j] == x;
            assert(j != s.len() - 1);
            assert(init[j] == x);
        }
        if p(s.last()) {
            let f = init.filter(p);
            if f.push(s.last()).contains(x) && x != s.last() {
                let j = choose|j: int| 0 <= j < f.push(s.last()).len() && f.push(s.last())[j] == x;
                assert(f[j] == x);
            }
            if f.contains(x) {
                let j = choose|j: int| 0 <= j < f.len() && f[j] == x;
                assert(f.push(s.last())[j] == x);
            }
            assert(f.push(s.last())[f.len() as int] == s.last());
        }
        assert(s[s.len() - 1] == s.last());
    }
}

/// After inserting `q`, the dataset holds what it held and `q`.
pub proof fn lemma_after_insert_contains(s: Seq<QuadModel>, q: QuadModel, x: QuadModel)
    ensures
        after_insert(s, q).contains(x) <==> (s.contains(x) || x == q),
{
    if !s.contains(q) {
        if s.contains(x) {
            let j = choose|j: int| 0 <= j < s.len() && s[j] == x;
            assert(s.push(q)[j] == x);
        }
        if s.push(q).contains(x) && x != q {
            let j = choose|j: int| 0 <= j < s.push(q).len() && s.push(q)[j] == x;
            assert(s[j] == x);
        }
        assert(s.push(q)[s.len() as int] == q);
    }
}

/// After removing `q`, the dataset holds what it held but `q`.
pub proof fn lemma_after_remove_contains(s: Seq<QuadModel>, q: QuadModel, y: QuadModel)
    ensures
        after_remove(s, q).contains(y) <==> (s.contains(y) && y != q),
{
    lemma_filter_contains(s, other_than(q), y);
}

/// After inserting `qs`, the dataset holds what it held and every quad of `qs`.
pub proof fn lemma_insert_all_contains(s: Seq<QuadModel>, qs: Seq<QuadModel>, x: QuadModel)
    ensures
        insert_all(s, qs).contains(x) <==> (s.contains(x) || qs.contains(x)),
    decreases qs.len(),
{
    if qs.len() > 0 {
        lemma_after_insert_contains(s, qs[0], x);
        lemma_insert_all_contains(after_insert(s, qs[0]), qs.drop_first(), x);
        if qs.drop_first().contains(x) {
            let j = choose|j: int| 0 <= j < qs.drop_first().len() && qs.drop_first()[j] == x;
            assert(qs[j + 1] == x);
        }
        if qs.contains(x) && x != qs[0] {
            let j = choose|j: int| 0 <= j < qs.len() && qs[j] == x;
            assert(qs.drop_first()[j - 1] == x);
        }
    }
}

/// After removing `qs`, the dataset holds what it held but the quads of `qs`.
pub proof fn lemma_remove_all_contains(s: Seq<QuadModel>, qs: Seq<QuadModel>, x: QuadModel)
    ensures
        remove_all(s, qs).contains(x) <==> (s.contains(x) && !qs.contains(x)),
    decreases qs.len(),
{
    if qs.len() > 0 {
        lemma_after_remove_contains(s, qs[0], x);
        lemma_remove_all_contains(after_remove(s, qs[0]), qs.drop_first(), x);
        if qs.drop_first().contains(x) {
            let j = choose|j: int| 0 <= j < qs.drop_first().len() && qs.drop_first()[j] == x;
            assert(qs[j + 1] == x);
        }
        if qs.contains(x) && x != qs[0] {
            let j = choose|j: int| 0 <= j < qs.len() && qs[j] == x;
            assert(qs.drop_first()[j - 1] == x);
        }
    }
}

/// An in-memory dataset of distinct quads, in insertion order.
pub struct QuadStore {
    quads: Vec<Quad>,
}

impl View for QuadStore {
    type V = Seq<QuadModel>;

    closed spec fn view(&self) -> Seq<QuadModel> {
        quads_view(self.quads@)
    }
}

impl QuadStore {
    /// Quads are never repeated.
    #[verifier::type_invariant]
    spec fn distinct(self) -> bool {
        no_duplicates(quads_view(self.quads@))
    }

    /// An empty dataset.
    pub fn new() -> (r: Self)
        ensures
            r@ == Seq::<QuadModel>::empty(),
            no_duplicates(r@),
    {
        let r = QuadStore { quads: Vec::new() };
        assert(r@ =~= Seq::<QuadModel>::empty());
        r
    }

    /// Number of quads.
    pub fn len(&self) -> (r: usize)
        ensures
            r == self@.len(),
    {
        self.quads.len()
    }

    fn position(&self, q: &Quad) -> (r: Option<usize>)
        ensures
            match r {
                Some(i) => i < self@.len() && self@[i as int] == q@
                    && forall|j: int| 0 <= j < i ==> self@[j] != q@,
                None => !self@.contains(q@),
            },
    {
        let mut i: usize = 0;
        while i < self.quads.len()
            invariant
                i <= self@.len(),
                forall|j: int| 0 <= j < i ==> self@[j] != q@,
            decreases self@.len() - i,
        {
            if self.quads[i].same(q) {
                return Some(i);
            }
            i = i + 1;
        }
        None
    }

    /// Whether the quad is in the dataset.
    pub fn contains(&self, q: &Quad) -> (r: bool)
        ensures
            r == self@.contains(q@),
    {
        self.position(q).is_some()
    }

    /// Adds a quad; returns whether it was absent.
    pub fn insert(&mut self, q: Quad) -> (r: bool)
        ensures
            r == !old(self)@.contains(q@),
            final(self)@ == after_insert(old(self)@, q@),
            no_duplicates(final(self)@),
    {
        proof {
            use_type_invariant(&*self);
        }
        if self.contains(&q) {
            false
        } else {
            let ghost before = self@;
            let mut v: Vec<Quad> = Vec::new();
            std::mem::swap(&mut v, &mut self.quads);
            v.push(q);
            assert(quads_view(v@) =~= before.push(q@));
            self.quads = v;
            true
        }
    }

    /// Removes a quad; returns whether it was present.
    pub fn remove(&mut self, q: &Quad) -> (r: bool)
        ensures
            r == old(self)@.contains(q@),
            final(self)@ == after_remove(old(self)@, q@),
            no_duplicates(final(self)@),
    {
        proof {
            use_type_invariant(&*self);
        }
        let ghost before = self@;
        match self.position(q) {
            Some(i) => {
                let mut v: Vec<Quad> = Vec::new();
                std::mem::swap(&mut v, &mut self.quads);
                v.remove(i);
                proof {
                    assert(quads_view(v@) =~= remove_at(before, i as int));
                    lemma_remove_at_is_filter(before, i as int, q@);
                }
                self.quads = v;
                true
            }
            None => {
                proof {
                    lemma_filter_without_absent(before, q@);
                }
                false
            }
        }
    }

    /// Inserts each quad in turn.
    pub fn insert_quads(&mut self, qs: &[Quad])
        ensures
            final(self)@ == insert_all(old(self)@, quads_view(qs@)),
            no_duplicates(final(self)@),
    {
        proof {
            use_type_invariant(&*self);
        }
        let ghost all = quads_view(qs@);
        let mut i: usize = 0;
        assert(all.skip(0) =~= all);
        while i < qs.len()
            invariant
                i <= qs@.len(),
                all == quads_view(qs@),
                no_duplicates(self@),
                insert_all(self@, all.skip(i as int)) == insert_all(old(self)@, all),
            decreases qs@.len() - i,
        {
            assert(all.skip(i as int).drop_first() =~= all.skip(i + 1));
            assert(all.skip(i as int)[0] == qs@[i as int]@);
            self.insert(qs[i].copy());
            i = i + 1;
        }
        assert(all.skip(i as int) =~= Seq::<QuadModel>::empty());
    }

    /// Removes each quad in turn.
    pub fn remove_quads(&mut self, qs: &[Quad])
        ensures
            final(self)@ == remove_all(old(self)@, quads_view(qs@)),
            no_duplicates(final(self)@),
    {
        proof {
            use_type_invariant(&*self);
        }
        let ghost all = quads_view(qs@);
        let mut i: usize = 0;
        assert(all.skip(0) =~= all);
        while i < qs.len()
            invariant
                i <= qs@.len(),
                all == quads_view(qs@),
                no_duplicates(self@),
                remove_all(self@, all.skip(i as int)) == remove_all(old(self)@, all),
            decreases qs@.len() - i,
        {
            assert(all.skip(i as int).drop_first() =~= all.skip(i + 1));
            assert(all.skip(i as int)[0] == qs@[i as int]@);
            self.remove(&qs[i]);
            i = i + 1;
        }
        assert(all.skip(i as int) =~= Seq::<QuadModel>::empty());
    }

    /// A copy of the dataset.
    pub fn copy(&self) -> (r: QuadStore)
        ensures
            r@ == self@,
    {
        proof {
            use_type_invariant(self);
        }
        let quads = copy_quads(self.quads.as_slice());
        QuadStore { quads }
    }

    /// Removes every quad.
    pub fn clear(&mut self)
        ensures
            final(self)@ == Seq::<QuadModel>::empty(),
    {
        self.quads = Vec::new();
        assert(self@ =~= Seq::<QuadModel>::empty());
    }

    /// Removes every quad of the graphs in `scope`.
    pub fn remove_in_scope(&mut self, scope: &GraphScope)
        ensures
            final(self)@ == old(self)@.filter(|q: QuadModel| !in_scope(*scope, q)),
    {
        proof {
            use_type_invariant(&*self);
        }
        let ghost s = self@;
        let ghost p = |q: QuadModel| !in_scope(*scope, q);
        let mut kept: Vec<Quad> = Vec::new();
        let mut i: usize = 0;
        assert(s.take(0).filter(p) =~= Seq::<QuadModel>::empty()) by {
            reveal(Seq::filter);
        }
        while i < self.quads.len()
            invariant
                i <= s.len(),
                s == self@,
                p == (|q: QuadModel| !in_scope(*scope, q)),
                quads_view(kept@) == s.take(i as int).filter(p),
            decreases s.len() - i,
        {
            let q = &self.quads[i];
            let hit = match scope {
                GraphScope::DefaultGraph => matches!(q.graph_name, GraphName::DefaultGraph),
                GraphScope::NamedGraphs => !matches!(q.graph_name, GraphName::DefaultGraph),
                GraphScope::Graph(g) => q.graph_name.same(g),
            };
            proof {
                reveal(Seq::filter);
                assert(s.take(i + 1).drop_last() =~= s.take(i as int));
                assert(s.take(i + 1).last() == q@);
            }
            if !hit {
                kept.push(q.copy());
                assert(quads_view(kept@) =~= s.take(i + 1).filter(p));
            } else {
                assert(quads_view(kept@) =~= s.take(i + 1).filter(p));
            }
            i = i + 1;
        }
        assert(s.take(i as int) =~= s);
        proof {
            lemma_filter_no_duplicates(s, p);
        }
        self.quads = kept;
    }

    /// Removes every quad of the named graph `graph`; returns how many.
    pub fn remove_graph(&mut self, graph: &String) -> (r: usize)
        ensures
            final(self)@ == old(self)@.filter(|q: QuadModel| !in_named_graph(q, graph@)),
            r == old(self)@.len() - final(self)@.len(),
            no_duplicates(final(self)@),
    {
        proof {
            use_type_invariant(&*self);
        }
        let ghost s = self@;
        let ghost p = |q: QuadModel| !in_named_graph(q, graph@);
        let mut kept: Vec<Quad> = Vec::new();
        let mut i: usize = 0;
        assert(s.take(0).filter(p) =~= Seq::<QuadModel>::empty()) by {
            reveal(Seq::filter);
        }
        while i < self.quads.len()
            invariant
                i <= s.len(),
                s == self@,
                p == (|q: QuadModel| !in_named_graph(q, graph@)),
                quads_view(kept@) == s.take(i as int).filter(p),
            decreases s.len() - i,
        {
            let q = &self.quads[i];
            let in_graph = match &q.graph_name {
                GraphName::NamedNode(g) => *g == *graph,
                _ => false,
            };
            proof {
                reveal(Seq::filter);
                assert(s.take(i + 1).drop_last() =~= s.take(i as int));
                assert(s.take(i + 1).last() == q@);
            }
            if !in_graph {
                kept.push(q.copy());
                assert(quads_view(kept@) =~= s.take(i + 1).filter(p));
            } else {
                assert(quads_view(kept@) =~= s.take(i + 1).filter(p));
            }
            i = i + 1;
        }
        assert(s.take(i as int) =~= s);
        proof {
            lemma_filter_no_duplicates(s, p);
            s.lemma_filter_len(p);
        }
        let removed = self.quads.len() - kept.len();
        self.quads = kept;
        removed
    }

    /// Removes every quad of the named graph `graph` whose subject is a named
    /// node among `subjects`.
    pub fn remove_subjects_in_graph(&mut self, graph: &String, subjects: &[String])
        ensures
            final(self)@ == old(self)@.filter(
                |q: QuadModel| !(in_named_graph(q, graph@) && subject_among(q, strings_view(subjects@)))),
            no_duplicates(final(self)@),
    {
        proof {
            use_type_invariant(&*self);
        }
        let ghost s = self@;
        let ghost subs = strings_view(subjects@);
        let ghost p = |q: QuadModel| !(in_named_graph(q, graph@) && subject_among(q, subs));
        let mut kept: Vec<Quad> = Vec::new();
        let mut i: usize = 0;
        assert(s.take(0).filter(p) =~= Seq::<QuadModel>::empty()) by {
            reveal(Seq::filter);
        }
        while i < self.quads.len()
            invariant
                i <= s.len(),
                s == self@,
                subs == strings_view(subjects@),
                p == (|q: QuadModel| !(in_named_graph(q, graph@) && subject_among(q, subs))),
                quads_view(kept@) == s.take(i as int).filter(p),
            decreases s.len() - i,
        {
            let q = &self.quads[i];
            let in_graph = match &q.graph_name {
                GraphName::NamedNode(g) => *g == *graph,
                _ => false,
            };
            let among = match &q.subject {
                Subject::NamedNode(x) => contains_string(subjects, x),
                Subject::BlankNode(_) => false,
            };
            proof {
                reveal(Seq::filter);
                assert(s.take(i + 1).drop_last() =~= s.take(i as int));
                assert(s.take(i + 1).last() == q@);
            }
            if !(in_graph && among) {
                kept.push(q.copy());
                assert(quads_view(kept@) =~= s.take(i + 1).filter(p));
            } else {
                assert(quads_view(kept@) =~= s.take(i + 1).filter(p));
            }
            i = i + 1;
        }
        assert(s.take(i as int) =~= s);
        proof {
            lemma_filter_no_duplicates(s, p);
        }
        self.quads = kept;
    }

    /// The quads, in order.
    pub fn quads(&self) -> (r: &[Quad])
        ensures
            quads_view(r@) == self@,
    {
        self.quads.as_slice()
    }
}

/// Whether `x` is among `items`.
pub fn contains_string(items: &[String], x: &String) -> (r: bool)
    ensures
        r == exists|k: int| 0 <= k < items@.len() && x@ == #[trigger] strings_view(items@)[k],
{
    let mut i: usize = 0;
    while i < items.len()
        invariant
            i <= items@.len(),
            forall|k: int| 0 <= k < i ==> x@ != #[trigger] strings_view(items@)[k],
        decreases items@.len() - i,
    {
        if items[i] == *x {
            assert(strings_view(items@)[i as int] == items@[i as int]@);
            return true;
        }
        i = i + 1;
    }
    false
}


/// Removing the only occurrence of `q` filters `q` out.
proof fn lemma_remove_at_is_filter(s: Seq<QuadModel>, i: int, q: QuadModel)
    requires
        no_duplicates(s),
        0 <= i < s.len(),
        s[i] == q,
    ensures
        remove_at(s, i) == after_remove(s, q),
        no_duplicates(remove_at(s, i)),
    decreases s.len(),
{
    reveal(Seq::filter);
    if i == s.len() - 1 {
        assert(s.drop_last() =~= remove_at(s, i));
        lemma_filter_without_absent(s.drop_last(), q);
    } else {
        let init = s.drop_last();
        assert(no_duplicates(init));
        lemma_remove_at_is_filter(init, i, q);
        assert(s.last() != q);
        assert(remove_at(s, i) =~= remove_at(init, i).push(s.last()));
    }
}

/// Filtering out an absent element changes nothing.
proof fn lemma_filter_without_absent(s: Seq<QuadModel>, q: QuadModel)
    requires
        !s.contains(q),
    ensures
        after_remove(s, q) == s,
    decreases s.len(),
{
    reveal(Seq::filter);
    if s.len() > 0 {
        assert(!s.drop_last().contains(q)) by {
            if s.drop_last().contains(q) {
                let k = choose|k: int| 0 <= k < s.drop_last().len() && s.drop_last()[k] == q;
                assert(s[k] == q);
            }
        }
        lemma_filter_without_absent(s.drop_last(), q);
        assert(s.last() != q) by {
            assert(s[s.len() - 1] == s.last());
        }
        assert(s.drop_last().push(s.last()) =~= s);
    } else {
        assert(s.filter(other_than(q)) =~= s);
    }
}

} // verus!
