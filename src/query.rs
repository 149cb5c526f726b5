use vstd::prelude::*;

verus! {

/// How a clause of a boolean query takes part in the match.
#[derive(Clone, Copy, PartialEq, Eq, Debug, Structural)]
pub enum Occur {
    Should,
    Must,
    MustNot,
}

/// A single indexed term: a field id and the token text the field must hold.
#[derive(Clone, Debug, PartialEq, Eq)]
pub struct Term {
    pub field: u32,
    pub text: String,
}

/// The mathematical value of a term.
pub type TermModel = (u32, Seq<char>);

impl View for Term {
    type V = TermModel;

    open spec fn view(&self) -> TermModel {
        (self.field, self.text@)
    }
}

impl Term {
    pub fn new(field: u32, text: String) -> (r: Term)
        ensures
            r@ == (field, text@),
    {
        Term { field, text }
    }

    pub fn duplicate(&self) -> (r: Term)
        ensures
            r@ == self@,
    {
        Term { field: self.field, text: self.text.clone() }
    }
}

/// The bit pattern of the boost factor `1.0`, which leaves a query unchanged.
pub const UNIT_BOOST_BITS: u32 = 0x3F80_0000;

/// A query tree. A boost factor is held as the IEEE-754 bit pattern of the
/// `f32` it stands for, so that factors compare exactly.
#[derive(Debug)]
pub enum Query {
    /// A single term.
    Term(Term),
    /// Any of the given values on one field.
    TermSet(u32, Vec<String>),
    /// Clauses labelled `Should`, `Must` or `MustNot`.
    Boolean(Vec<(Occur, Query)>),
    /// A weighted wrapper: matches what the inner query matches.
    Boost(Box<Query>, u32),
    /// A disjunction with max-scoring semantics.
    DisjunctionMax(Vec<Query>),
    /// A leaf that no term can constrain: matches every document.
    All,
}

/// The mathematical value of a query tree.
pub enum QueryModel {
    Term(TermModel),
    TermSet(u32, Seq<Seq<char>>),
    Boolean(Seq<(Occur, QueryModel)>),
    Boost(Box<QueryModel>, u32),
    DisjunctionMax(Seq<QueryModel>),
    All,
}

pub open spec fn strings_view(vs: Seq<String>) -> Seq<Seq<char>> {
    vs.map_values(|s: String| s@)
}

pub open spec fn clauses_view(cs: Seq<(Occur, Query)>) -> Seq<(Occur, QueryModel)>
    decreases cs,
{
    if cs.len() == 0 {
        Seq::empty()
    } else {
        clauses_view(cs.drop_last()).push((cs.last().0, query_view(cs.last().1)))
    }
}

pub open spec fn queries_view(qs: Seq<Query>) -> Seq<QueryModel>
    decreases qs,
{
    if qs.len() == 0 {
        Seq::empty()
    } else {
        queries_view(qs.drop_last()).push(query_view(qs.last()))
    }
}

pub open spec fn query_view(q: Query) -> QueryModel
    decreases q,
{
    match q {
        Query::Term(t) => QueryModel::Term(t@),
        Query::TermSet(f, vs) => QueryModel::TermSet(f, strings_view(vs@)),
        Query::Boolean(cs) => QueryModel::Boolean(clauses_view(cs@)),
        Query::Boost(inner, b) => QueryModel::Boost(Box::new(query_view(*inner)), b),
        Query::DisjunctionMax(qs) => QueryModel::DisjunctionMax(queries_view(qs@)),
        Query::All => QueryModel::All,
    }
}

impl View for Query {
    type V = QueryModel;

    open spec fn view(&self) -> QueryModel {
        query_view(*self)
    }
}

/// The values of a sequence of queries.
pub open spec fn views(qs: Seq<Query>) -> Seq<QueryModel> {
    qs.map_values(|q: Query| q@)
}

pub proof fn lemma_clauses_view(cs: Seq<(Occur, Query)>)
    ensures
        clauses_view(cs).len() == cs.len(),
        forall|i: int|
            0 <= i < cs.len() ==> #[trigger] clauses_view(cs)[i] == (cs[i].0, query_view(cs[i].1)),
    decreases cs.len(),
{
    if cs.len() > 0 {
        lemma_clauses_view(cs.drop_last());
    }
}

pub proof fn lemma_queries_view(qs: Seq<Query>)
    ensures
        queries_view(qs).len() == qs.len(),
        forall|i: int| 0 <= i < qs.len() ==> #[trigger] queries_view(qs)[i] == query_view(qs[i]),
    decreases qs.len(),
{
    if qs.len() > 0 {
        lemma_queries_view(qs.drop_last());
    }
}

/// Whether a query matches a document, the document given as the set of
/// terms that its analysis produced. A boolean query needs every `Must`
/// clause, no `MustNot` clause, and, when it has no `Must` clause, at least
/// one `Should` clause; a boolean query without `Must` or `Should` clauses
/// matches nothing.
pub open spec fn matches_doc(q: QueryModel, doc: Set<TermModel>) -> bool
    decreases q,
{
    match q {
        QueryModel::Term(t) => doc.contains(t),
        QueryModel::TermSet(f, vs) => exists|i: int| 0 <= i < vs.len() && doc.contains((f, vs[i])),
        QueryModel::Boolean(cs) => {
            &&& has_occur(cs, Occur::Must) || has_occur(cs, Occur::Should)
            &&& forall|i: int|
                0 <= i < cs.len() && cs[i].0 == Occur::Must ==> matches_doc(cs[i].1, doc)
            &&& forall|i: int|
                0 <= i < cs.len() && cs[i].0 == Occur::MustNot ==> !matches_doc(cs[i].1, doc)
            &&& (!has_occur(cs, Occur::Must) ==> exists|i: int|
                0 <= i < cs.len() && cs[i].0 == Occur::Should && matches_doc(cs[i].1, doc))
        },
        QueryModel::Boost(inner, _) => matches_doc(*inner, doc),
        QueryModel::DisjunctionMax(qs) => exists|i: int| 0 <= i < qs.len() && matches_doc(qs[i], doc),
        QueryModel::All => true,
    }
}

/// The definition of `matches_doc` one level down, for the disjunctive
/// variants.
pub proof fn lemma_matches_unfold(q: QueryModel, doc: Set<TermModel>)
    ensures
        q is TermSet ==> (matches_doc(q, doc) <==> exists|i: int|
            0 <= i < q->TermSet_1.len() && #[trigger] doc.contains((q->TermSet_0, q->TermSet_1[i]))),
        q is DisjunctionMax ==> (matches_doc(q, doc) <==> exists|i: int|
            0 <= i < q->DisjunctionMax_0.len() && #[trigger] matches_doc(q->DisjunctionMax_0[i], doc)),
{
    match q {
        QueryModel::TermSet(f, vs) => {
            assert(matches_doc(q, doc) == (exists|i: int| 0 <= i < vs.len() && doc.contains((f, vs[i]))));
        },
        QueryModel::DisjunctionMax(qs) => {
            assert(matches_doc(q, doc) == (exists|i: int| 0 <= i < qs.len() && matches_doc(qs[i], doc)));
        },
        _ => {},
    }
}

pub open spec fn has_occur(cs: Seq<(Occur, QueryModel)>, o: Occur) -> bool {
    exists|i: int| 0 <= i < cs.len() && cs[i].0 == o
}

impl Query {
    /// A copy of the whole tree.
    pub fn deep_clone(&self) -> (r: Query)
        ensures
            r@ == self@,
        decreases *self,
    {
        match self {
            Query::Term(t) => Query::Term(t.duplicate()),
            Query::TermSet(f, vs) => {
                let r = Query::TermSet(*f, vs.clone());
                assert(strings_view(vs@) =~= strings_view(r->TermSet_1@));
                r
            },
            Query::Boolean(cs) => {
                let mut out: Vec<(Occur, Query)> = Vec::new();
                let mut i: usize = 0;
                while i < cs.len()
                    invariant
                        i <= cs.len(),
                        *self == Query::Boolean(*cs),
                        clauses_view(out@) == clauses_view(cs@.subrange(0, i as int)),
                    decreases cs.len() - i,
                {
                    proof {
                        assert(decreases_to!(*self => self->Boolean_0));
                        assert(decreases_to!(cs => cs[i as int]));
                        assert(decreases_to!(cs[i as int] => cs[i as int].1));
                    }
                    let c = cs[i].1.deep_clone();
                    let ghost prev = out@;
                    out.push((cs[i].0, c));
                    proof {
                        assert(out@.drop_last() == prev);
                        assert(cs@.subrange(0, i + 1).drop_last() == cs@.subrange(0, i as int));
                    }
                    i = i + 1;
                }
                assert(cs@.subrange(0, cs.len() as int) == cs@);
                Query::Boolean(out)
            },
            Query::Boost(inner, b) => Query::Boost(Box::new(inner.deep_clone()), *b),
            Query::DisjunctionMax(qs) => {
                let mut out: Vec<Query> = Vec::new();
                let mut i: usize = 0;
                while i < qs.len()
                    invariant
                        i <= qs.len(),
                        *self == Query::DisjunctionMax(*qs),
                        queries_view(out@) == queries_view(qs@.subrange(0, i as int)),
                    decreases qs.len() - i,
                {
                    proof {
                        assert(decreases_to!(*self => self->DisjunctionMax_0));
                        assert(decreases_to!(qs => qs[i as int]));
                    }
                    let c = qs[i].deep_clone();
                    let ghost prev = out@;
                    out.push(c);
                    proof {
                        assert(out@.drop_last() == prev);
                        assert(qs@.subrange(0, i + 1).drop_last() == qs@.subrange(0, i as int));
                    }
                    i = i + 1;
                }
                assert(qs@.subrange(0, qs.len() as int) == qs@);
                Query::DisjunctionMax(out)
            },
            Query::All => Query::All,
        }
    }
}

} // verus!

verus! {

/// The extraction-side view of a query: which terms a matching document
/// must hold.
#[derive(Debug)]
pub enum QueryDocumentTree {
    Conjunction(Vec<QueryDocumentTree>),
    Disjunction(Vec<QueryDocumentTree>),
    Term(Term),
    /// No term constrains the documents that match.
    AnyTerm,
}

/// The mathematical value of a query-document tree.
pub enum TreeModel {
    Conjunction(Seq<TreeModel>),
    Disjunction(Seq<TreeModel>),
    Term(TermModel),
    AnyTerm,
}

pub open spec fn trees_view(ts: Seq<QueryDocumentTree>) -> Seq<TreeModel>
    decreases ts,
{
    if ts.len() == 0 {
        Seq::empty()
    } else {
        trees_view(ts.drop_last()).push(tree_view(ts.last()))
    }
}

pub open spec fn tree_view(t: QueryDocumentTree) -> TreeModel
    decreases t,
{
    match t {
        QueryDocumentTree::Conjunction(ts) => TreeModel::Conjunction(trees_view(ts@)),
        QueryDocumentTree::Disjunction(ts) => TreeModel::Disjunction(trees_view(ts@)),
        QueryDocumentTree::Term(term) => TreeModel::Term(term@),
        QueryDocumentTree::AnyTerm => TreeModel::AnyTerm,
    }
}

impl View for QueryDocumentTree {
    type V = TreeModel;

    open spec fn view(&self) -> TreeModel {
        tree_view(*self)
    }
}

pub proof fn lemma_trees_view(ts: Seq<QueryDocumentTree>)
    ensures
        trees_view(ts).len() == ts.len(),
        forall|i: int| 0 <= i < ts.len() ==> #[trigger] trees_view(ts)[i] == tree_view(ts[i]),
    decreases ts.len(),
{
    if ts.len() > 0 {
        lemma_trees_view(ts.drop_last());
    }
}

/// Whether a document, given as its set of terms, satisfies a tree.
pub open spec fn satisfies(t: TreeModel, doc: Set<TermModel>) -> bool
    decreases t,
{
    match t {
        TreeModel::Conjunction(ts) => forall|i: int| 0 <= i < ts.len() ==> satisfies(ts[i], doc),
        TreeModel::Disjunction(ts) => exists|i: int| 0 <= i < ts.len() && satisfies(ts[i], doc),
        TreeModel::Term(term) => doc.contains(term),
        TreeModel::AnyTerm => true,
    }
}

/// The definition of `satisfies` one level down.
pub proof fn lemma_satisfies_unfold(t: TreeModel, doc: Set<TermModel>)
    ensures
        t is Conjunction ==> (satisfies(t, doc) <==> forall|i: int|
            0 <= i < t->Conjunction_0.len() ==> #[trigger] satisfies(t->Conjunction_0[i], doc)),
        t is Disjunction ==> (satisfies(t, doc) <==> exists|i: int|
            0 <= i < t->Disjunction_0.len() && #[trigger] satisfies(t->Disjunction_0[i], doc)),
{
    match t {
        TreeModel::Conjunction(ts) => {
            assert(satisfies(t, doc) == (forall|i: int| 0 <= i < ts.len() ==> satisfies(ts[i], doc)));
        },
        TreeModel::Disjunction(ts) => {
            assert(satisfies(t, doc) == (exists|i: int| 0 <= i < ts.len() && satisfies(ts[i], doc)));
        },
        _ => {},
    }
}

/// The trees of the clauses with occur `o`, in order.
pub open spec fn clause_trees(cs: Seq<(Occur, QueryModel)>, o: Occur) -> Seq<TreeModel>
    decreases cs,
{
    if cs.len() == 0 {
        Seq::empty()
    } else {
        let r = clause_trees(cs.drop_last(), o);
        if cs.last().0 == o {
            r.push(tree_of(cs.last().1))
        } else {
            r
        }
    }
}

pub open spec fn query_trees(qs: Seq<QueryModel>) -> Seq<TreeModel>
    decreases qs,
{
    if qs.len() == 0 {
        Seq::empty()
    } else {
        query_trees(qs.drop_last()).push(tree_of(qs.last()))
    }
}

/// The tree of a query: a boolean query with `Must` clauses is the
/// conjunction of their trees, one without is the disjunction of its `Should`
/// clauses' trees; a term set and a max-disjunction are disjunctions; a boost
/// is its inner query's tree; `All` is `AnyTerm`.
pub open spec fn tree_of(q: QueryModel) -> TreeModel
    decreases q,
{
    match q {
        QueryModel::Term(t) => TreeModel::Term(t),
        QueryModel::TermSet(f, vs) => TreeModel::Disjunction(
            vs.map_values(|v: Seq<char>| TreeModel::Term((f, v))),
        ),
        QueryModel::Boolean(cs) => {
            if has_occur(cs, Occur::Must) {
                TreeModel::Conjunction(clause_trees(cs, Occur::Must))
            } else {
                TreeModel::Disjunction(clause_trees(cs, Occur::Should))
            }
        },
        QueryModel::Boost(inner, _) => tree_of(*inner),
        QueryModel::DisjunctionMax(qs) => TreeModel::Disjunction(query_trees(qs)),
        QueryModel::All => TreeModel::AnyTerm,
    }
}

pub proof fn lemma_clause_trees(cs: Seq<(Occur, QueryModel)>, o: Occur)
    ensures
        forall|k: int|
            0 <= k < clause_trees(cs, o).len() ==> exists|i: int|
                0 <= i < cs.len() && cs[i].0 == o && #[trigger] clause_trees(cs, o)[k] == tree_of(
                    cs[i].1,
                ),
        forall|i: int|
            0 <= i < cs.len() && #[trigger] cs[i].0 == o ==> exists|k: int|
                0 <= k < clause_trees(cs, o).len() && clause_trees(cs, o)[k] == tree_of(cs[i].1),
    decreases cs.len(),
{
    if cs.len() > 0 {
        let p = cs.drop_last();
        lemma_clause_trees(p, o);
        let r = clause_trees(p, o);
        assert forall|k: int| 0 <= k < clause_trees(cs, o).len() implies exists|i: int|
            0 <= i < cs.len() && cs[i].0 == o && #[trigger] clause_trees(cs, o)[k] == tree_of(
                cs[i].1,
            ) by {
            if k < r.len() {
                let i = choose|i: int| 0 <= i < p.len() && p[i].0 == o && r[k] == tree_of(p[i].1);
                assert(cs[i] == p[i]);
            } else {
                assert(cs[cs.len() - 1] == cs.last());
            }
        }
        assert forall|i: int| 0 <= i < cs.len() && #[trigger] cs[i].0 == o implies exists|k: int|
            0 <= k < clause_trees(cs, o).len() && clause_trees(cs, o)[k] == tree_of(cs[i].1) by {
            if i < p.len() {
                assert(p[i] == cs[i]);
                let k = choose|k: int| 0 <= k < r.len() && r[k] == tree_of(p[i].1);
                assert(clause_trees(cs, o)[k] == r[k]);
            } else {
                assert(clause_trees(cs, o)[r.len() as int] == tree_of(cs[i].1));
            }
        }
    }
}

pub proof fn lemma_query_trees(qs: Seq<QueryModel>)
    ensures
        query_trees(qs).len() == qs.len(),
        forall|i: int| 0 <= i < qs.len() ==> #[trigger] query_trees(qs)[i] == tree_of(qs[i]),
    decreases qs.len(),
{
    if qs.len() > 0 {
        lemma_query_trees(qs.drop_last());
    }
}

/// A document that matches a query satisfies the query's tree.
pub proof fn lemma_tree_of_sound(q: QueryModel, doc: Set<TermModel>)
    requires
        matches_doc(q, doc),
    ensures
        satisfies(tree_of(q), doc),
    decreases q,
{
    lemma_satisfies_unfold(tree_of(q), doc);
    match q {
        QueryModel::TermSet(f, vs) => {
            let i = choose|i: int| 0 <= i < vs.len() && doc.contains((f, vs[i]));
            let ts = tree_of(q)->Disjunction_0;
            assert(ts[i] == TreeModel::Term((f, vs[i])));
            assert(satisfies(ts[i], doc));
        },
        QueryModel::Boolean(cs) => {
            lemma_clause_trees(cs, Occur::Must);
            lemma_clause_trees(cs, Occur::Should);
            if has_occur(cs, Occur::Must) {
                let ts = clause_trees(cs, Occur::Must);
                assert forall|k: int| 0 <= k < ts.len() implies satisfies(ts[k], doc) by {
                    let i = choose|i: int|
                        0 <= i < cs.len() && cs[i].0 == Occur::Must && ts[k] == tree_of(cs[i].1);
                    assert(decreases_to!(q => q->Boolean_0));
                    assert(decreases_to!(cs => cs[i]));
                    assert(decreases_to!(cs[i] => cs[i].1));
                    lemma_tree_of_sound(cs[i].1, doc);
                }
            } else {
                let ts = clause_trees(cs, Occur::Should);
                let i = choose|i: int|
                    0 <= i < cs.len() && cs[i].0 == Occur::Should && matches_doc(cs[i].1, doc);
                assert(decreases_to!(q => q->Boolean_0));
                assert(decreases_to!(cs => cs[i]));
                assert(decreases_to!(cs[i] => cs[i].1));
                lemma_tree_of_sound(cs[i].1, doc);
                let k = choose|k: int| 0 <= k < ts.len() && ts[k] == tree_of(cs[i].1);
                assert(satisfies(ts[k], doc));
            }
        },
        QueryModel::Boost(inner, _) => {
            lemma_tree_of_sound(*inner, doc);
        },
        QueryModel::DisjunctionMax(qs) => {
            lemma_query_trees(qs);
            let i = choose|i: int| 0 <= i < qs.len() && matches_doc(qs[i], doc);
            assert(decreases_to!(q => q->DisjunctionMax_0));
            assert(decreases_to!(qs => qs[i]));
            lemma_tree_of_sound(qs[i], doc);
            assert(satisfies(query_trees(qs)[i], doc));
        },
        QueryModel::Term(t) => {
            assert(satisfies(TreeModel::Term(t), doc));
        },
        QueryModel::All => {
            assert(satisfies(TreeModel::AnyTerm, doc));
        },
    }
}

} // verus!

verus! {

impl Query {
    /// The tree of this query.
    pub fn to_ast(&self) -> (r: QueryDocumentTree)
        ensures
            r@ == tree_of(self@),
        decreases *self,
    {
        match self {
            Query::Term(t) => QueryDocumentTree::Term(t.duplicate()),
            Query::TermSet(f, vs) => {
                let mut ts: Vec<QueryDocumentTree> = Vec::new();
                let ghost target = strings_view(vs@).map_values(
                    |v: Seq<char>| TreeModel::Term((*f, v)),
                );
                let mut i: usize = 0;
                while i < vs.len()
                    invariant
                        i <= vs@.len(),
                        target == strings_view(vs@).map_values(
                            |v: Seq<char>| TreeModel::Term((*f, v)),
                        ),
                        trees_view(ts@) == target.subrange(0, i as int),
                    decreases vs@.len() - i,
                {
                    let ghost prev = ts@;
                    let t = QueryDocumentTree::Term(Term::new(*f, vs[i].clone()));
                    assert(t@ == TreeModel::Term((*f, vs@[i as int]@)));
                    ts.push(t);
                    proof {
                        assert(ts@.drop_last() == prev);
                        assert(strings_view(vs@)[i as int] == vs@[i as int]@);
                        assert(target[i as int] == TreeModel::Term((*f, vs@[i as int]@)));
                        assert(target.subrange(0, i + 1) =~= target.subrange(0, i as int).push(
                            target[i as int],
                        ));
                    }
                    i = i + 1;
                }
                assert(target.subrange(0, vs@.len() as int) =~= target);
                QueryDocumentTree::Disjunction(ts)
            },
            Query::Boolean(cs) => {
                let ghost m = clauses_view(cs@);
                proof {
                    lemma_clauses_view(cs@);
                }
                let mut has_must = false;
                let mut i: usize = 0;
                while i < cs.len()
                    invariant
                        i <= cs@.len(),
                        m == clauses_view(cs@),
                        m.len() == cs@.len(),
                        forall|k: int| 0 <= k < cs@.len() ==> #[trigger] m[k] == (cs@[k].0, cs@[k].1@),
                        has_must == exists|k: int| 0 <= k < i && m[k].0 == Occur::Must,
                    decreases cs@.len() - i,
                {
                    assert(m[i as int].0 == cs@[i as int].0);
                    if cs[i].0 == Occur::Must {
                        has_must = true;
                    }
                    i = i + 1;
                }
                let wanted = if has_must {
                    Occur::Must
                } else {
                    Occur::Should
                };
                let mut ts: Vec<QueryDocumentTree> = Vec::new();
                let mut j: usize = 0;
                while j < cs.len()
                    invariant
                        j <= cs@.len(),
                        *self == Query::Boolean(*cs),
                        m.len() == cs@.len(),
                        forall|k: int| 0 <= k < cs@.len() ==> #[trigger] m[k] == (cs@[k].0, cs@[k].1@),
                        trees_view(ts@) == clause_trees(m.subrange(0, j as int), wanted),
                    decreases cs@.len() - j,
                {
                    proof {
                        assert(decreases_to!(*self => self->Boolean_0));
                        assert(decreases_to!(cs => cs[j as int]));
                        assert(decreases_to!(cs[j as int] => cs[j as int].1));
                        assert(m.subrange(0, j + 1).drop_last() =~= m.subrange(0, j as int));
                    }
                    if cs[j].0 == wanted {
                        let t = cs[j].1.to_ast();
                        let ghost prev = ts@;
                        ts.push(t);
                        assert(ts@.drop_last() == prev);
                    }
                    j = j + 1;
                }
                assert(m.subrange(0, m.len() as int) =~= m);
                if has_must {
                    QueryDocumentTree::Conjunction(ts)
                } else {
                    QueryDocumentTree::Disjunction(ts)
                }
            },
            Query::Boost(inner, _) => inner.to_ast(),
            Query::DisjunctionMax(qs) => {
                let ghost m = queries_view(qs@);
                proof {
                    lemma_queries_view(qs@);
                }
                let mut ts: Vec<QueryDocumentTree> = Vec::new();
                let mut i: usize = 0;
                while i < qs.len()
                    invariant
                        i <= qs@.len(),
                        *self == Query::DisjunctionMax(*qs),
                        m.len() == qs@.len(),
                        forall|k: int| 0 <= k < qs@.len() ==> #[trigger] m[k] == qs@[k]@,
                        trees_view(ts@) == query_trees(m.subrange(0, i as int)),
                    decreases qs@.len() - i,
                {
                    proof {
                        assert(decreases_to!(*self => self->DisjunctionMax_0));
                        assert(decreases_to!(qs => qs[i as int]));
                        assert(m.subrange(0, i + 1).drop_last() =~= m.subrange(0, i as int));
                    }
                    let t = qs[i].to_ast();
                    let ghost prev = ts@;
                    ts.push(t);
                    assert(ts@.drop_last() == prev);
                    i = i + 1;
                }
                assert(m.subrange(0, m.len() as int) =~= m);
                QueryDocumentTree::Disjunction(ts)
            },
            Query::All => QueryDocumentTree::AnyTerm,
        }
    }
}

} // verus!
