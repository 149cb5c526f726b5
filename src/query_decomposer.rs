use vstd::prelude::*;

use crate::list::List;
use crate::query::{
    Occur, Query, QueryModel, TermModel, UNIT_BOOST_BITS, clauses_view, has_occur, matches_doc, lemma_clauses_view,
    lemma_queries_view, queries_view, views,
};

verus! {

/// The queries of the clauses with occur `o`, in order.
pub open spec fn occur_queries(cs: Seq<(Occur, QueryModel)>, o: Occur) -> Seq<QueryModel>
    decreases cs.len(),
{
    if cs.len() == 0 {
        Seq::empty()
    } else {
        let r = occur_queries(cs.drop_last(), o);
        if cs.last().0 == o {
            r.push(cs.last().1)
        } else {
            r
        }
    }
}

/// `sub` with every exclusion conjoined as a `MustNot` clause.
pub open spec fn exclusion(sub: QueryModel, nots: Seq<QueryModel>) -> QueryModel {
    QueryModel::Boolean(
        seq![(Occur::Must, sub)] + nots.map_values(|x: QueryModel| (Occur::MustNot, x)),
    )
}

/// The decompositions of the clauses with occur `o`, concatenated in order.
pub open spec fn clause_decomposition(cs: Seq<(Occur, QueryModel)>, o: Occur) -> Seq<QueryModel>
    decreases cs,
{
    if cs.len() == 0 {
        Seq::empty()
    } else {
        let r = clause_decomposition(cs.drop_last(), o);
        if cs.last().0 == o {
            r + decomposition(cs.last().1)
        } else {
            r
        }
    }
}

/// The decompositions of the disjuncts, concatenated in order.
pub open spec fn disjuncts_decomposition(qs: Seq<QueryModel>) -> Seq<QueryModel>
    decreases qs,
{
    if qs.len() == 0 {
        Seq::empty()
    } else {
        disjuncts_decomposition(qs.drop_last()) + decomposition(qs.last())
    }
}

/// The atomic sub-queries of `q`, in emission order.
///
/// A boolean query contributes its `Should` clauses' sub-queries. With two or
/// more `Must` clauses, or one beside `Should` output, the whole boolean query
/// follows them as one sub-query. Otherwise the single `Must` clause's
/// sub-queries follow, and every sub-query of this scope takes each `MustNot`
/// clause as an exclusion. A boost other than `1.0` wraps each sub-query of
/// its inner query; a disjunction contributes each disjunct's sub-queries;
/// any other query is its own sub-query.
pub open spec fn decomposition(q: QueryModel) -> Seq<QueryModel>
    decreases q,
{
    match q {
        QueryModel::Boolean(cs) => {
            let shoulds = clause_decomposition(cs, Occur::Should);
            let n_must = occur_queries(cs, Occur::Must).len();
            if n_must > 1 || (n_must == 1 && shoulds.len() > 0) {
                shoulds.push(q)
            } else {
                let base = shoulds + clause_decomposition(cs, Occur::Must);
                let nots = occur_queries(cs, Occur::MustNot);
                if nots.len() == 0 {
                    base
                } else {
                    base.map_values(|s: QueryModel| exclusion(s, nots))
                }
            }
        },
        QueryModel::Boost(inner, b) => {
            if b == UNIT_BOOST_BITS {
                decomposition(*inner)
            } else {
                decomposition(*inner).map_values(|s: QueryModel| QueryModel::Boost(Box::new(s), b))
            }
        },
        QueryModel::DisjunctionMax(qs) => disjuncts_decomposition(qs),
        _ => seq![q],
    }
}

pub proof fn lemma_occur_queries(cs: Seq<(Occur, QueryModel)>, o: Occur)
    ensures
        forall|k: int|
            0 <= k < occur_queries(cs, o).len() ==> exists|i: int|
                0 <= i < cs.len() && cs[i].0 == o && #[trigger] occur_queries(cs, o)[k] == cs[i].1,
        (occur_queries(cs, o).len() == 0) == !has_occur(cs, o),
    decreases cs.len(),
{
    if cs.len() > 0 {
        let p = cs.drop_last();
        lemma_occur_queries(p, o);
        assert forall|k: int| 0 <= k < occur_queries(cs, o).len() implies exists|i: int|
            0 <= i < cs.len() && cs[i].0 == o && #[trigger] occur_queries(cs, o)[k] == cs[i].1 by {
            if k < occur_queries(p, o).len() {
                let i = choose|i: int|
                    0 <= i < p.len() && p[i].0 == o && occur_queries(p, o)[k] == p[i].1;
                assert(cs[i] == p[i]);
            } else {
                assert(cs[cs.len() - 1] == cs.last());
            }
        }
        if has_occur(cs, o) && !has_occur(p, o) {
            let i = choose|i: int| 0 <= i < cs.len() && cs[i].0 == o;
            if i < p.len() {
                assert(p[i] == cs[i]);
            }
        }
        if has_occur(p, o) {
            let i = choose|i: int| 0 <= i < p.len() && p[i].0 == o;
            assert(cs[i] == p[i]);
        }
    }
}

pub proof fn lemma_clause_decomposition_member(
    cs: Seq<(Occur, QueryModel)>,
    o: Occur,
    j: int,
    k: int,
)
    requires
        0 <= j < cs.len(),
        cs[j].0 == o,
        0 <= k < decomposition(cs[j].1).len(),
    ensures
        exists|t: int|
            0 <= t < clause_decomposition(cs, o).len() && clause_decomposition(cs, o)[t]
                == decomposition(cs[j].1)[k],
    decreases cs.len(),
{
    let p = cs.drop_last();
    let r = clause_decomposition(p, o);
    if j == cs.len() - 1 {
        assert(clause_decomposition(cs, o)[r.len() + k] == decomposition(cs[j].1)[k]);
    } else {
        assert(p[j] == cs[j]);
        lemma_clause_decomposition_member(p, o, j, k);
        let t = choose|t: int| 0 <= t < r.len() && r[t] == decomposition(p[j].1)[k];
        assert(clause_decomposition(cs, o)[t] == r[t]);
    }
}

pub proof fn lemma_clause_decomposition_empty(cs: Seq<(Occur, QueryModel)>, o: Occur)
    requires
        !has_occur(cs, o),
    ensures
        clause_decomposition(cs, o) == Seq::<QueryModel>::empty(),
    decreases cs.len(),
{
    if cs.len() > 0 {
        let p = cs.drop_last();
        assert(!has_occur(p, o)) by {
            if has_occur(p, o) {
                let i = choose|i: int| 0 <= i < p.len() && p[i].0 == o;
                assert(cs[i] == p[i]);
            }
        }
        assert(cs[cs.len() - 1] == cs.last());
        lemma_clause_decomposition_empty(p, o);
    }
}

pub proof fn lemma_disjuncts_member(qs: Seq<QueryModel>, j: int, k: int)
    requires
        0 <= j < qs.len(),
        0 <= k < decomposition(qs[j]).len(),
    ensures
        exists|t: int|
            0 <= t < disjuncts_decomposition(qs).len() && disjuncts_decomposition(qs)[t]
                == decomposition(qs[j])[k],
    decreases qs.len(),
{
    let p = qs.drop_last();
    let r = disjuncts_decomposition(p);
    if j == qs.len() - 1 {
        assert(disjuncts_decomposition(qs)[r.len() + k] == decomposition(qs[j])[k]);
    } else {
        assert(p[j] == qs[j]);
        lemma_disjuncts_member(p, j, k);
        let t = choose|t: int| 0 <= t < r.len() && r[t] == decomposition(p[j])[k];
        assert(disjuncts_decomposition(qs)[t] == r[t]);
    }
}

/// Decomposition loses no match: whenever a query matches a document, one of
/// its atomic sub-queries matches it too.
pub proof fn lemma_decomposition_complete(q: QueryModel, doc: Set<TermModel>)
    requires
        matches_doc(q, doc),
    ensures
        exists|i: int|
            0 <= i < decomposition(q).len() && #[trigger] matches_doc(decomposition(q)[i], doc),
    decreases q,
{
    match q {
        QueryModel::Boolean(cs) => {
            let shoulds = clause_decomposition(cs, Occur::Should);
            let n_must = occur_queries(cs, Occur::Must).len();
            lemma_occur_queries(cs, Occur::Must);
            lemma_occur_queries(cs, Occur::MustNot);
            if n_must > 1 || (n_must == 1 && shoulds.len() > 0) {
                assert(decomposition(q)[shoulds.len() as int] == q);
            } else {
                let base = shoulds + clause_decomposition(cs, Occur::Must);
                let nots = occur_queries(cs, Occur::MustNot);
                let s_idx: int;
                if has_occur(cs, Occur::Must) {
                    let j = choose|j: int| 0 <= j < cs.len() && cs[j].0 == Occur::Must;
                    assert(decreases_to!(q => q->Boolean_0));
                    assert(decreases_to!(cs => cs[j]));
                    assert(decreases_to!(cs[j] => cs[j].1));
                    lemma_decomposition_complete(cs[j].1, doc);
                    let k = choose|k: int|
                        0 <= k < decomposition(cs[j].1).len() && matches_doc(
                            decomposition(cs[j].1)[k],
                            doc,
                        );
                    lemma_clause_decomposition_member(cs, Occur::Must, j, k);
                    let t = choose|t: int|
                        0 <= t < clause_decomposition(cs, Occur::Must).len() && clause_decomposition(
                            cs,
                            Occur::Must,
                        )[t] == decomposition(cs[j].1)[k];
                    s_idx = shoulds.len() + t;
                } else {
                    let j = choose|j: int|
                        0 <= j < cs.len() && cs[j].0 == Occur::Should && matches_doc(cs[j].1, doc);
                    assert(decreases_to!(q => q->Boolean_0));
                    assert(decreases_to!(cs => cs[j]));
                    assert(decreases_to!(cs[j] => cs[j].1));
                    lemma_decomposition_complete(cs[j].1, doc);
                    let k = choose|k: int|
                        0 <= k < decomposition(cs[j].1).len() && matches_doc(
                            decomposition(cs[j].1)[k],
                            doc,
                        );
                    lemma_clause_decomposition_member(cs, Occur::Should, j, k);
                    let t = choose|t: int|
                        0 <= t < shoulds.len() && shoulds[t] == decomposition(cs[j].1)[k];
                    s_idx = t;
                }
                assert(matches_doc(base[s_idx], doc));
                if nots.len() > 0 {
                    let e = exclusion(base[s_idx], nots);
                    let ecs = seq![(Occur::Must, base[s_idx])] + nots.map_values(
                        |x: QueryModel| (Occur::MustNot, x),
                    );
                    assert(ecs[0].0 == Occur::Must);
                    assert forall|i: int|
                        0 <= i < ecs.len() && ecs[i].0 == Occur::MustNot implies !matches_doc(
                            ecs[i].1,
                            doc,
                        ) by {
                        let c = choose|c: int|
                            0 <= c < cs.len() && cs[c].0 == Occur::MustNot && nots[i - 1]
                                == cs[c].1;
                    }
                    assert(matches_doc(e, doc));
                    assert(decomposition(q)[s_idx] == e);
                } else {
                    assert(decomposition(q)[s_idx] == base[s_idx]);
                }
            }
        },
        QueryModel::Boost(inner, b) => {
            lemma_decomposition_complete(*inner, doc);
            let k = choose|k: int|
                0 <= k < decomposition(*inner).len() && matches_doc(decomposition(*inner)[k], doc);
            if b != UNIT_BOOST_BITS {
                assert(matches_doc(decomposition(q)[k], doc));
            }
        },
        QueryModel::DisjunctionMax(qs) => {
            let j = choose|j: int| 0 <= j < qs.len() && matches_doc(qs[j], doc);
            assert(decreases_to!(q => q->DisjunctionMax_0));
            assert(decreases_to!(qs => qs[j]));
            lemma_decomposition_complete(qs[j], doc);
            let k = choose|k: int|
                0 <= k < decomposition(qs[j]).len() && matches_doc(decomposition(qs[j])[k], doc);
            lemma_disjuncts_member(qs, j, k);
        },
        _ => {
            assert(decomposition(q)[0] == q);
        },
    }
}

/// A leaf query decomposes into itself alone.
pub proof fn lemma_leaf_decomposes_to_itself(q: QueryModel)
    requires
        q is Term || q is TermSet || q is All,
    ensures
        decomposition(q) == seq![q],
{
}

/// A boolean query made of `MustNot` clauses alone yields no sub-query.
pub proof fn lemma_exclusions_alone_yield_nothing(cs: Seq<(Occur, QueryModel)>)
    requires
        forall|i: int| 0 <= i < cs.len() ==> #[trigger] cs[i].0 == Occur::MustNot,
    ensures
        decomposition(QueryModel::Boolean(cs)) == Seq::<QueryModel>::empty(),
{
    lemma_occur_queries(cs, Occur::Must);
    lemma_clause_decomposition_empty(cs, Occur::Should);
    lemma_clause_decomposition_empty(cs, Occur::Must);
    assert(decomposition(QueryModel::Boolean(cs)) =~= Seq::<QueryModel>::empty());
}

/// A boost by `1.0` decomposes exactly as the query it wraps, and matches
/// exactly what it matches.
pub proof fn lemma_unit_boost_is_transparent(q: QueryModel, doc: Set<TermModel>)
    ensures
        decomposition(QueryModel::Boost(Box::new(q), UNIT_BOOST_BITS)) == decomposition(q),
        matches_doc(QueryModel::Boost(Box::new(q), UNIT_BOOST_BITS), doc) == matches_doc(q, doc),
{
}

/// Rewrites query trees into atomic sub-queries, appended to one list.
pub struct QueryDecomposer {
    all_subqueries: List<Query>,
}

fn exclude(sub: Query, nots: &Vec<Query>) -> (r: Query)
    ensures
        r@ == exclusion(sub@, views(nots@)),
{
    let ghost sub_m = sub@;
    let mut cs: Vec<(Occur, Query)> = Vec::new();
    cs.push((Occur::Must, sub));
    assert(cs@.drop_last() =~= Seq::<(Occur, Query)>::empty());
    assert(views(nots@.subrange(0, 0)) =~= Seq::<QueryModel>::empty());
    proof {
        lemma_clauses_view(cs@);
    }
    assert(clauses_view(cs@) =~= seq![(Occur::Must, sub_m)] + views(nots@.subrange(0, 0)).map_values(
        |x: QueryModel| (Occur::MustNot, x),
    ));
    let mut i: usize = 0;
    while i < nots.len()
        invariant
            i <= nots.len(),
            clauses_view(cs@) == seq![(Occur::Must, sub_m)] + views(nots@.subrange(0, i as int)).map_values(
                |x: QueryModel| (Occur::MustNot, x),
            ),
        decreases nots.len() - i,
    {
        let c = nots[i].deep_clone();
        let ghost prev = cs@;
        cs.push((Occur::MustNot, c));
        proof {
            assert(cs@.drop_last() == prev);
            assert(views(nots@.subrange(0, i + 1)) =~= views(nots@.subrange(0, i as int)).push(
                nots@[i as int]@,
            ));
            assert(clauses_view(cs@) =~= seq![(Occur::Must, sub_m)] + views(
                nots@.subrange(0, i + 1),
            ).map_values(|x: QueryModel| (Occur::MustNot, x)));
        }
        i = i + 1;
    }
    assert(nots@.subrange(0, nots@.len() as int) == nots@);
    Query::Boolean(cs)
}

impl QueryDecomposer {
    /// The sub-queries collected so far.
    pub closed spec fn subqueries(&self) -> Seq<QueryModel> {
        views(self.all_subqueries.backing())
    }

    pub closed spec fn wf(&self) -> bool {
        self.all_subqueries.wf()
    }

    pub fn new(all_subqueries: Vec<Query>) -> (r: Self)
        ensures
            r.wf(),
            r.subqueries() == views(all_subqueries@),
    {
        QueryDecomposer { all_subqueries: List::new(all_subqueries) }
    }

    /// Appends the atomic sub-queries of `query`.
    pub fn decompose(&mut self, query: Query)
        requires
            old(self).wf(),
        ensures
            final(self).wf(),
            final(self).subqueries() == old(self).subqueries() + decomposition(query@),
    {
        self.decompose_ref(&query);
    }

    /// The sub-queries collected so far.
    pub fn into_subqueries(self) -> (r: Vec<Query>)
        ensures
            views(r@) == self.subqueries(),
    {
        self.all_subqueries.into_vec()
    }

    fn decompose_ref(&mut self, query: &Query)
        requires
            old(self).wf(),
        ensures
            final(self).wf(),
            final(self).all_subqueries.start() == old(self).all_subqueries.start(),
            final(self).subqueries() == old(self).subqueries() + decomposition(query@),
        decreases *query,
    {
        let ghost before = self.subqueries();
        let prev = self.all_subqueries.saved();
        match query {
            Query::Boolean(cs) => {
                self.decompose_boolean(query, cs);
            },
            Query::Boost(inner, b) => {
                self.decompose_ref(inner);
                if *b != UNIT_BOOST_BITS {
                    let factor = *b;
                    let ghost mid = self.all_subqueries.backing();
                    let wrap = |s: Query| -> (r: Query)
                        ensures
                            r@ == QueryModel::Boost(Box::new(s@), factor),
                        { Query::Boost(Box::new(s), factor) };
                    self.all_subqueries.map_in_place(wrap);
                    proof {
                        let fin = self.all_subqueries.backing();
                        let n = before.len() as int;
                        assert(query@ == QueryModel::Boost(Box::new((**inner)@), factor));
                        assert(views(mid) == before + decomposition((**inner)@));
                        assert forall|k: int| 0 <= k < n implies fin[k]@ == before[k] by {
                            assert(views(mid)[k] == before[k]);
                        }
                        assert forall|k: int| n <= k < fin.len() implies fin[k]@ == QueryModel::Boost(
                            Box::new(decomposition((**inner)@)[k - n]),
                            factor,
                        ) by {
                            assert(wrap.ensures((mid[k],), fin[k]));
                            assert(fin[k]@ == QueryModel::Boost(Box::new(mid[k]@), factor));
                            assert(views(mid)[k] == mid[k]@);
                            assert(k < views(mid).len());
                            assert((before + decomposition((**inner)@))[k] == decomposition(
                                (**inner)@,
                            )[k - n]);
                        }
                        assert forall|k: int| n <= k < fin.len() implies fin[k]@ == QueryModel::Boost(
                            Box::new(mid[k]@),
                            factor,
                        ) by {}
                        let di = decomposition((**inner)@);
                        assert(decomposition(query@) == di.map_values(
                            |s: QueryModel| QueryModel::Boost(Box::new(s), factor),
                        ));
                        let dq = decomposition(query@);
                        assert(views(mid).len() == n + di.len());
                        assert(views(fin).len() == (before + dq).len());
                        assert forall|k: int| 0 <= k < views(fin).len() implies views(fin)[k] == (
                        before + dq)[k] by {
                            if k >= n {
                                assert(dq[k - n] == QueryModel::Boost(Box::new(di[k - n]), factor));
                            }
                        }
                        assert(views(fin) =~= before + decomposition(query@));
                    }
                }
            },
            Query::DisjunctionMax(qs) => {
                let ghost m = queries_view(qs@);
                proof {
                    lemma_queries_view(qs@);
                }
                let mut i: usize = 0;
                while i < qs.len()
                    invariant
                        i <= qs.len(),
                        *query == Query::DisjunctionMax(*qs),
                        m == queries_view(qs@),
                        m.len() == qs@.len(),
                        forall|k: int| 0 <= k < qs@.len() ==> #[trigger] m[k] == qs@[k]@,
                        self.wf(),
                        self.all_subqueries.start() == before.len(),
                        self.subqueries() == before + disjuncts_decomposition(
                            m.subrange(0, i as int),
                        ),
                    decreases qs.len() - i,
                {
                    proof {
                        assert(decreases_to!(*query => query->DisjunctionMax_0));
                        assert(decreases_to!(qs => qs[i as int]));
                    }
                    self.decompose_ref(&qs[i]);
                    proof {
                        assert(m.subrange(0, i + 1).drop_last() =~= m.subrange(0, i as int));
                        assert(self.subqueries() =~= before + disjuncts_decomposition(
                            m.subrange(0, i + 1),
                        ));
                    }
                    i = i + 1;
                }
                assert(m.subrange(0, m.len() as int) == m);
            },
            _ => {
                let leaf = query.deep_clone();
                self.all_subqueries.push(leaf);
                assert(self.subqueries() =~= before + decomposition(query@));
            },
        }
        self.all_subqueries.restore(prev);
    }

    fn decompose_boolean(&mut self, query: &Query, cs: &Vec<(Occur, Query)>)
        requires
            old(self).wf(),
            *query == Query::Boolean(*cs),
            old(self).all_subqueries.start() == old(self).all_subqueries.backing().len(),
        ensures
            final(self).wf(),
            final(self).all_subqueries.start() == old(self).all_subqueries.start(),
            final(self).subqueries() == old(self).subqueries() + decomposition(query@),
        decreases *query, 0nat,
    {
        let ghost before = self.subqueries();
        let ghost m = clauses_view(cs@);
        proof {
            lemma_clauses_view(cs@);
        }
        let mut n_must: usize = 0;
        let mut nots: Vec<Query> = Vec::new();
        let mut i: usize = 0;
        while i < cs.len()
            invariant
                i <= cs.len(),
                *query == Query::Boolean(*cs),
                m == clauses_view(cs@),
                m.len() == cs@.len(),
                forall|k: int| 0 <= k < cs@.len() ==> #[trigger] m[k] == (cs@[k].0, cs@[k].1@),
                self.wf(),
                self.all_subqueries.start() == before.len(),
                self.subqueries() == before + clause_decomposition(
                    m.subrange(0, i as int),
                    Occur::Should,
                ),
                n_must <= i,
                n_must == occur_queries(m.subrange(0, i as int), Occur::Must).len(),
                views(nots@) == occur_queries(m.subrange(0, i as int), Occur::MustNot),
            decreases cs.len() - i,
        {
            proof {
                assert(decreases_to!(*query => query->Boolean_0));
                assert(decreases_to!(cs => cs[i as int]));
                assert(decreases_to!(cs[i as int] => cs[i as int].1));
                assert(m.subrange(0, i + 1).drop_last() =~= m.subrange(0, i as int));
            }
            let ghost nots_before = nots@;
            match cs[i].0 {
                Occur::Should => {
                    self.decompose_ref(&cs[i].1);
                },
                Occur::Must => {
                    n_must = n_must + 1;
                },
                Occur::MustNot => {
                    let x = cs[i].1.deep_clone();
                    nots.push(x);
                    assert(views(nots@) =~= views(nots_before).push(x@));
                },
            }
            proof {
                assert(self.subqueries() =~= before + clause_decomposition(
                    m.subrange(0, i + 1),
                    Occur::Should,
                ));
            }
            i = i + 1;
        }
        assert(m.subrange(0, m.len() as int) == m);
        let ghost shoulds = clause_decomposition(m, Occur::Should);
        let n_should = self.all_subqueries.len();
        assert(query@ == QueryModel::Boolean(m));
        if n_must > 1 || (n_must == 1 && n_should > 0) {
            let whole = query.deep_clone();
            let ghost b0 = self.all_subqueries.backing();
            self.all_subqueries.push(whole);
            assert(views(b0.push(whole)) =~= views(b0).push(whole@));
            assert(self.subqueries() =~= before + decomposition(query@));
        } else {
            let mut j: usize = 0;
            while j < cs.len()
                invariant
                    j <= cs.len(),
                    *query == Query::Boolean(*cs),
                    m.len() == cs@.len(),
                    forall|k: int| 0 <= k < cs@.len() ==> #[trigger] m[k] == (cs@[k].0, cs@[k].1@),
                    self.wf(),
                    self.all_subqueries.start() == before.len(),
                    self.subqueries() == before + shoulds + clause_decomposition(
                        m.subrange(0, j as int),
                        Occur::Must,
                    ),
                decreases cs.len() - j,
            {
                proof {
                    assert(decreases_to!(*query => query->Boolean_0));
                    assert(decreases_to!(cs => cs[j as int]));
                    assert(decreases_to!(cs[j as int] => cs[j as int].1));
                    assert(m.subrange(0, j + 1).drop_last() =~= m.subrange(0, j as int));
                }
                if cs[j].0 == Occur::Must {
                    self.decompose_ref(&cs[j].1);
                }
                proof {
                    assert(self.subqueries() =~= before + shoulds + clause_decomposition(
                        m.subrange(0, j + 1),
                        Occur::Must,
                    ));
                }
                j = j + 1;
            }
            let ghost base = shoulds + clause_decomposition(m, Occur::Must);
            assert(self.subqueries() =~= before + base);
            if nots.len() > 0 {
                let ghost mid = self.all_subqueries.backing();
                let nots_ref = &nots;
                let ex = |s: Query| -> (r: Query)
                    ensures
                        r@ == exclusion(s@, views(nots_ref@)),
                    { exclude(s, nots_ref) };
                self.all_subqueries.map_in_place(ex);
                proof {
                    let fin = self.all_subqueries.backing();
                    let n = before.len() as int;
                    assert forall|k: int| 0 <= k < n implies fin[k]@ == before[k] by {
                        assert(views(mid)[k] == before[k]);
                    }
                    assert forall|k: int| n <= k < fin.len() implies fin[k]@ == exclusion(
                        base[k - n],
                        views(nots@),
                    ) by {
                        assert(views(mid)[k] == base[k - n]);
                    }
                    assert(views(fin) =~= before + decomposition(query@));
                }
            } else {
                assert(self.subqueries() =~= before + decomposition(query@));
            }
        }
    }
}

} // verus!
