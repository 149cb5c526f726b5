use vstd::prelude::*;

use crate::analysis::{
    analysed_terms, document_terms, lemma_analysed_terms_err, lemma_analysed_terms_ok,
    lemma_document_terms_err_extends, terms_view, value_terms, value_to_terms,
};
use crate::query::{
    Query, QueryDocumentTree, Term, TermModel, TreeModel, lemma_satisfies_unfold, lemma_trees_view,
    satisfies, tree_of, trees_view,
};
use crate::schema::{Document, MonitorError, Schema, is_text_field};
use crate::scorer::{
    PresearcherScorer, Selectivity, bumped, doc_freq_in, outranks, outranks_exec, score_of,
};

verus! {

/// The child of a non-empty conjunction to draw terms from: the first of the
/// most selective children, with its selectivity. `None` when a child cannot
/// be scored.
pub open spec fn best_child(ts: Seq<TreeModel>, freqs: Map<TermModel, u64>, n: u64) -> Option<
    (int, Selectivity),
>
    decreases ts.len(),
{
    if ts.len() == 0 {
        None
    } else {
        match score_of(ts.last(), freqs, n) {
            None => None,
            Some(s) => {
                if ts.len() == 1 {
                    Some((0, s))
                } else {
                    match best_child(ts.drop_last(), freqs, n) {
                        None => None,
                        Some(b) => {
                            if outranks(s, b.1) {
                                Some((ts.len() - 1, s))
                            } else {
                                Some(b)
                            }
                        },
                    }
                }
            },
        }
    }
}

/// The terms a tree selects for indexing, and whether it is marked as
/// constrained by no term: a term selects itself; a disjunction selects what
/// all its children select; a conjunction selects what its best child
/// selects; `AnyTerm`, like an empty conjunction, selects the mark alone.
/// `None` when scoring fails.
pub open spec fn selection(t: TreeModel, freqs: Map<TermModel, u64>, n: u64) -> Option<
    (Set<TermModel>, bool),
>
    decreases t,
{
    match t {
        TreeModel::Term(term) => Some((set![term], false)),
        TreeModel::AnyTerm => Some((Set::empty(), true)),
        TreeModel::Disjunction(ts) => union_selection(ts, freqs, n),
        TreeModel::Conjunction(ts) => {
            if ts.len() == 0 {
                Some((Set::empty(), true))
            } else {
                match best_child(ts, freqs, n) {
                    None => None,
                    Some(b) => {
                        if 0 <= b.0 < ts.len() {
                            selection(ts[b.0], freqs, n)
                        } else {
                            None
                        }
                    },
                }
            }
        },
    }
}

pub open spec fn union_selection(ts: Seq<TreeModel>, freqs: Map<TermModel, u64>, n: u64) -> Option<
    (Set<TermModel>, bool),
>
    decreases ts,
{
    if ts.len() == 0 {
        Some((Set::empty(), false))
    } else {
        match union_selection(ts.drop_last(), freqs, n) {
            None => None,
            Some(a) => match selection(ts.last(), freqs, n) {
                None => None,
                Some(b) => Some((a.0.union(b.0), a.1 || b.1)),
            },
        }
    }
}

pub proof fn lemma_best_child_in_range(ts: Seq<TreeModel>, freqs: Map<TermModel, u64>, n: u64)
    ensures
        best_child(ts, freqs, n) matches Some(b) ==> 0 <= b.0 < ts.len() && score_of(
            ts[b.0],
            freqs,
            n,
        ) == Some(b.1),
    decreases ts.len(),
{
    if ts.len() > 1 {
        lemma_best_child_in_range(ts.drop_last(), freqs, n);
    }
}

proof fn lemma_union_selection_covers(
    ts: Seq<TreeModel>,
    freqs: Map<TermModel, u64>,
    n: u64,
    i: int,
)
    requires
        0 <= i < ts.len(),
        union_selection(ts, freqs, n) is Some,
    ensures
        selection(ts[i], freqs, n) is Some,
        selection(ts[i], freqs, n)->Some_0.0.subset_of(union_selection(ts, freqs, n)->Some_0.0),
        selection(ts[i], freqs, n)->Some_0.1 ==> union_selection(ts, freqs, n)->Some_0.1,
    decreases ts.len(),
{
    if i < ts.len() - 1 {
        assert(ts.drop_last()[i] == ts[i]);
        lemma_union_selection_covers(ts.drop_last(), freqs, n, i);
    }
}

/// The selected terms are necessary: a document that satisfies a tree holds
/// one of the terms the tree selects, unless the tree is marked as
/// constrained by no term.
pub proof fn lemma_selection_necessary(
    t: TreeModel,
    freqs: Map<TermModel, u64>,
    n: u64,
    doc: Set<TermModel>,
)
    requires
        satisfies(t, doc),
        selection(t, freqs, n) is Some,
    ensures
        selection(t, freqs, n)->Some_0.1 || exists|term: TermModel|
            selection(t, freqs, n)->Some_0.0.contains(term) && doc.contains(term),
    decreases t,
{
    lemma_satisfies_unfold(t, doc);
    match t {
        TreeModel::Term(term) => {
            assert(set![term].contains(term));
        },
        TreeModel::AnyTerm => {},
        TreeModel::Disjunction(ts) => {
            let i = choose|i: int| 0 <= i < ts.len() && satisfies(ts[i], doc);
            lemma_union_selection_covers(ts, freqs, n, i);
            assert(decreases_to!(t => t->Disjunction_0));
            assert(decreases_to!(ts => ts[i]));
            lemma_selection_necessary(ts[i], freqs, n, doc);
        },
        TreeModel::Conjunction(ts) => {
            if ts.len() > 0 {
                lemma_best_child_in_range(ts, freqs, n);
                let b = best_child(ts, freqs, n)->Some_0.0;
                assert(satisfies(ts[b], doc));
                assert(decreases_to!(t => t->Conjunction_0));
                assert(decreases_to!(ts => ts[b]));
                lemma_selection_necessary(ts[b], freqs, n, doc);
            }
        },
    }
}

/// The set of a sequence of terms.
pub open spec fn term_set(ts: Seq<Term>) -> Set<TermModel> {
    terms_view(ts).to_set()
}

/// A sub-query as indexed: the id of the query it belongs to, the terms one
/// of which a document must hold for the sub-query to match, and the mark of
/// a sub-query that no term constrains.
#[derive(Debug)]
pub struct SyntheticQueryDoc {
    pub query_id: u64,
    pub terms: Vec<Term>,
    pub any_term: bool,
}

/// Whether the candidate-selection query of a document with terms `doc`
/// retrieves an indexed sub-query.
pub open spec fn selects(sub: SyntheticQueryDoc, doc: Set<TermModel>) -> bool {
    sub.any_term || exists|i: int| 0 <= i < sub.terms@.len() && doc.contains(#[trigger] sub.terms@[i]@)
}

/// The candidate-selection query of a document: the disjunction of its terms
/// and of the any-term mark.
#[derive(Debug)]
pub struct CandidateQuery {
    pub terms: Vec<Term>,
}

fn same_term(a: &Term, b: &Term) -> (r: bool)
    ensures
        r == (a@ == b@),
{
    a.field == b.field && a.text == b.text
}

/// Whether `t` is one of `ts`.
pub(crate) fn contains_term(ts: &Vec<Term>, t: &Term) -> (r: bool)
    ensures
        r == term_set(ts@).contains(t@),
{
    let mut i: usize = 0;
    while i < ts.len()
        invariant
            i <= ts@.len(),
            forall|k: int| 0 <= k < i ==> ts@[k]@ != t@,
        decreases ts@.len() - i,
    {
        if same_term(&ts[i], t) {
            assert(terms_view(ts@)[i as int] == t@);
            return true;
        }
        i = i + 1;
    }
    assert forall|k: int| 0 <= k < terms_view(ts@).len() implies terms_view(ts@)[k] != t@ by {
        assert(terms_view(ts@)[k] == ts@[k]@);
    }
    false
}

impl CandidateQuery {
    /// The terms of the document.
    pub open spec fn term_set(&self) -> Set<TermModel> {
        term_set(self.terms@)
    }

    /// Whether this query retrieves the indexed sub-query `sub`.
    pub fn selects(&self, sub: &SyntheticQueryDoc) -> (r: bool)
        ensures
            r == selects(*sub, self.term_set()),
    {
        if sub.any_term {
            return true;
        }
        let mut i: usize = 0;
        while i < sub.terms.len()
            invariant
                i <= sub.terms@.len(),
                !sub.any_term,
                forall|k: int| 0 <= k < i ==> !self.term_set().contains(#[trigger] sub.terms@[k]@),
            decreases sub.terms@.len() - i,
        {
            if contains_term(&self.terms, &sub.terms[i]) {
                return true;
            }
            i = i + 1;
        }
        false
    }
}

/// Terms selected so far, and whether the any-term mark was.
pub struct SelectedTerms {
    pub terms: Vec<Term>,
    pub any_term: bool,
}

/// Adds `t` to `ts` unless it is there.
fn insert_term(ts: &mut Vec<Term>, t: &Term)
    ensures
        term_set(final(ts)@) == term_set(old(ts)@).insert(t@),
{
    if !contains_term(ts, t) {
        let ghost prev = ts@;
        ts.push(t.duplicate());
        assert(terms_view(ts@) =~= terms_view(prev).push(t@));
        proof {
            terms_view(prev).lemma_push_to_set_commute(t@);
        }
    } else {
        assert(term_set(ts@) =~= term_set(ts@).insert(t@));
    }
}

/// Selects the terms under which sub-queries are indexed, and turns
/// documents into candidate-selection queries, keeping corpus statistics.
pub struct TermFilteredPresearcher<S: PresearcherScorer> {
    pub scorer: S,
}

impl<S: PresearcherScorer> TermFilteredPresearcher<S> {
    pub fn new(scorer: S) -> (r: TermFilteredPresearcher<S>)
        ensures
            r.scorer == scorer,
    {
        TermFilteredPresearcher { scorer }
    }

    /// Adds what `tree` selects to `selected`.
    pub fn to_field_terms(&self, tree: &QueryDocumentTree, selected: &mut SelectedTerms) -> (r: Result<
        (),
        MonitorError,
    >)
        ensures
            match selection(tree@, self.scorer.frequencies(), self.scorer.doc_count()) {
                Some(s) => {
                    &&& r is Ok
                    &&& term_set(final(selected).terms@) == term_set(old(selected).terms@).union(
                        s.0,
                    )
                    &&& final(selected).any_term == (old(selected).any_term || s.1)
                },
                None => r == Err::<(), MonitorError>(MonitorError::InternalError),
            },
        decreases *tree,
    {
        let ghost freqs = self.scorer.frequencies();
        let ghost n = self.scorer.doc_count();
        match tree {
            QueryDocumentTree::Term(term) => {
                insert_term(&mut selected.terms, term);
                assert(set![term@] =~= Set::empty().insert(term@));
                assert(term_set(selected.terms@) =~= term_set(old(selected).terms@).union(
                    set![term@],
                ));
                Ok(())
            },
            QueryDocumentTree::AnyTerm => {
                selected.any_term = true;
                assert(term_set(selected.terms@) =~= term_set(old(selected).terms@).union(
                    Set::empty(),
                ));
                Ok(())
            },
            QueryDocumentTree::Disjunction(ts) => {
                let ghost m = trees_view(ts@);
                proof {
                    lemma_trees_view(ts@);
                }
                let mut i: usize = 0;
                while i < ts.len()
                    invariant
                        i <= ts@.len(),
                        *tree == QueryDocumentTree::Disjunction(*ts),
                        freqs == self.scorer.frequencies(),
                        n == self.scorer.doc_count(),
                        m == trees_view(ts@),
                        m.len() == ts@.len(),
                        forall|k: int| 0 <= k < ts@.len() ==> #[trigger] m[k] == ts@[k]@,
                        union_selection(m.subrange(0, i as int), freqs, n) is Some,
                        term_set(selected.terms@) == term_set(old(selected).terms@).union(
                            union_selection(m.subrange(0, i as int), freqs, n)->Some_0.0,
                        ),
                        selected.any_term == (old(selected).any_term || union_selection(
                            m.subrange(0, i as int),
                            freqs,
                            n,
                        )->Some_0.1),
                    decreases ts@.len() - i,
                {
                    proof {
                        assert(decreases_to!(*tree => tree->Disjunction_0));
                        assert(decreases_to!(ts => ts[i as int]));
                        assert(m.subrange(0, i + 1).drop_last() =~= m.subrange(0, i as int));
                    }
                    let ghost before = term_set(selected.terms@);
                    let child = self.to_field_terms(&ts[i], selected);
                    if child.is_err() {
                        proof {
                            lemma_union_none_extends(m, freqs, n, i as int + 1);
                        }
                        return Err(MonitorError::InternalError);
                    }
                    proof {
                        let a = union_selection(m.subrange(0, i as int), freqs, n)->Some_0;
                        let b = selection(m[i as int], freqs, n)->Some_0;
                        assert(term_set(old(selected).terms@).union(a.0).union(b.0) =~= term_set(
                            old(selected).terms@,
                        ).union(a.0.union(b.0)));
                    }
                    i = i + 1;
                }
                assert(m.subrange(0, m.len() as int) =~= m);
                Ok(())
            },
            QueryDocumentTree::Conjunction(ts) => {
                let ghost m = trees_view(ts@);
                proof {
                    lemma_trees_view(ts@);
                }
                if ts.len() == 0 {
                    selected.any_term = true;
                    assert(term_set(selected.terms@) =~= term_set(old(selected).terms@).union(
                        Set::empty(),
                    ));
                    return Ok(());
                }
                let mut best: usize = 0;
                let mut best_score = match self.scorer.score(&ts[0]) {
                    Ok(s) => s,
                    Err(_) => {
                        proof {
                            assert(m.subrange(0, 1).drop_last() =~= Seq::<TreeModel>::empty());
                            lemma_best_none_extends(m, freqs, n, 1);
                        }
                        return Err(MonitorError::InternalError);
                    },
                };
                assert(m.subrange(0, 1).last() == m[0]);
                let mut i: usize = 1;
                while i < ts.len()
                    invariant
                        1 <= i <= ts@.len(),
                        *tree == QueryDocumentTree::Conjunction(*ts),
                        freqs == self.scorer.frequencies(),
                        n == self.scorer.doc_count(),
                        m == trees_view(ts@),
                        m.len() == ts@.len(),
                        forall|k: int| 0 <= k < ts@.len() ==> #[trigger] m[k] == ts@[k]@,
                        best_child(m.subrange(0, i as int), freqs, n) == Some(
                            (best as int, best_score),
                        ),
                        best_score matches Selectivity::Idf { doc_freq: _, doc_count: c } ==> c
                            == n,
                    decreases ts@.len() - i,
                {
                    assert(m.subrange(0, i + 1).drop_last() =~= m.subrange(0, i as int));
                    assert(m.subrange(0, i + 1).last() == m[i as int]);
                    match self.scorer.score(&ts[i]) {
                        Ok(s) => {
                            if outranks_exec(s, best_score) {
                                best = i;
                                best_score = s;
                            }
                        },
                        Err(_) => {
                            proof {
                                lemma_best_none_extends(m, freqs, n, i as int + 1);
                            }
                            return Err(MonitorError::InternalError);
                        },
                    }
                    i = i + 1;
                }
                assert(m.subrange(0, m.len() as int) =~= m);
                proof {
                    lemma_best_child_in_range(m, freqs, n);
                    assert(decreases_to!(*tree => tree->Conjunction_0));
                    assert(decreases_to!(ts => ts[best as int]));
                }
                self.to_field_terms(&ts[best], selected)
            },
        }
    }

    /// The indexed form of a sub-query: the terms it selects on text fields
    /// of `schema`, marked as constrained by no term when the selection says
    /// so or keeps no term.
    pub fn convert_query_to_document(&self, query: &Query, schema: &Schema) -> (r: Result<
        SyntheticQueryDoc,
        MonitorError,
    >)
        ensures
            match selection(tree_of(query@), self.scorer.frequencies(), self.scorer.doc_count()) {
                Some(s) => {
                    &&& r is Ok
                    &&& r->Ok_0.query_id == 0
                    &&& term_set(r->Ok_0.terms@) == s.0.filter(
                        |t: TermModel| is_text_field(schema.fields@, t.0),
                    )
                    &&& r->Ok_0.any_term == (s.1 || term_set(r->Ok_0.terms@).is_empty())
                    &&& r->Ok_0.any_term || r->Ok_0.terms@.len() > 0
                },
                None => r == Err::<SyntheticQueryDoc, MonitorError>(MonitorError::InternalError),
            },
    {
        let tree = query.to_ast();
        let mut selected = SelectedTerms { terms: Vec::new(), any_term: false };
        assert(term_set(selected.terms@) =~= Set::empty());
        let res = self.to_field_terms(&tree, &mut selected);
        if res.is_err() {
            return Err(MonitorError::InternalError);
        }
        let ghost s = selection(tree@, self.scorer.frequencies(), self.scorer.doc_count())->Some_0;
        assert(term_set(selected.terms@) =~= s.0);
        let mut kept: Vec<Term> = Vec::new();
        let mut i: usize = 0;
        while i < selected.terms.len()
            invariant
                i <= selected.terms@.len(),
                term_set(kept@) == term_set(selected.terms@.subrange(0, i as int)).filter(
                    |t: TermModel| is_text_field(schema.fields@, t.0),
                ),
            decreases selected.terms@.len() - i,
        {
            let ghost prev = kept@;
            let f = selected.terms[i].field;
            if (f as usize) < schema.fields.len() && match schema.fields[f as usize].field_type {
                crate::schema::FieldType::Str(_) => true,
                crate::schema::FieldType::JsonObject(_) => true,
                _ => false,
            } {
                kept.push(selected.terms[i].duplicate());
                assert(terms_view(kept@) =~= terms_view(prev).push(selected.terms@[i as int]@));
                proof {
                    terms_view(prev).lemma_push_to_set_commute(selected.terms@[i as int]@);
                }
            }
            assert(terms_view(selected.terms@.subrange(0, i + 1)) =~= terms_view(
                selected.terms@.subrange(0, i as int),
            ).push(selected.terms@[i as int]@));
            proof {
                terms_view(selected.terms@.subrange(0, i as int)).lemma_push_to_set_commute(
                    selected.terms@[i as int]@,
                );
            }
            assert(term_set(kept@) =~= term_set(selected.terms@.subrange(0, i + 1)).filter(
                |t: TermModel| is_text_field(schema.fields@, t.0),
            ));
            i = i + 1;
        }
        assert(selected.terms@.subrange(0, selected.terms@.len() as int) =~= selected.terms@);
        let none_kept = kept.len() == 0;
        proof {
            if !none_kept {
                assert(terms_view(kept@)[0] == kept@[0]@);
                assert(term_set(kept@).contains(kept@[0]@));
            } else {
                assert(term_set(kept@) =~= Set::empty());
            }
        }
        Ok(SyntheticQueryDoc { query_id: 0, terms: kept, any_term: selected.any_term || none_kept })
    }

    /// The candidate-selection query of a document. The document is counted
    /// into the corpus statistics before any value is read, and so is each
    /// term of the values analysed before the first that cannot be.
    pub fn convert_document_to_query(&mut self, document: &Document, schema: &Schema) -> (r: Result<
        CandidateQuery,
        MonitorError,
    >)
        ensures
            (r is Ok) == (document_terms(schema.fields@, document.values@) is Ok),
            r is Ok ==> terms_view(r->Ok_0.terms@) == document_terms(
                schema.fields@,
                document.values@,
            )->Ok_0,
            r is Err ==> r->Err_0 == document_terms(schema.fields@, document.values@)->Err_0,
            final(self).scorer.doc_count() == bumped(old(self).scorer.doc_count()),
            final(self).scorer.frequencies() == counted(
                old(self).scorer.frequencies(),
                analysed_terms(schema.fields@, document.values@),
            ),
    {
        self.scorer.add_document_count();
        let ghost fields = schema.fields@;
        let ghost values = document.values@;
        let ghost freqs0 = self.scorer.frequencies();
        let mut terms: Vec<Term> = Vec::new();
        let mut i: usize = 0;
        while i < document.values.len()
            invariant
                i <= values.len(),
                fields == schema.fields@,
                values == document.values@,
                freqs0 == old(self).scorer.frequencies(),
                document_terms(fields, values.subrange(0, i as int)) is Ok,
                terms_view(terms@) == document_terms(fields, values.subrange(0, i as int))->Ok_0,
                self.scorer.doc_count() == bumped(old(self).scorer.doc_count()),
                self.scorer.frequencies() == counted(freqs0, terms_view(terms@)),
            decreases values.len() - i,
        {
            assert(values.subrange(0, i + 1).drop_last() =~= values.subrange(0, i as int));
            assert(values.subrange(0, i + 1).last() == values[i as int]);
            match value_to_terms(schema, document.values[i].0, &document.values[i].1) {
                Ok(more) => {
                    let ghost before = terms@;
                    let mut j: usize = 0;
                    while j < more.len()
                        invariant
                            j <= more@.len(),
                            freqs0 == old(self).scorer.frequencies(),
                            self.scorer.doc_count() == bumped(old(self).scorer.doc_count()),
                            self.scorer.frequencies() == counted(freqs0, terms_view(terms@)),
                            terms_view(terms@) == terms_view(before) + terms_view(
                                more@.subrange(0, j as int),
                            ),
                        decreases more@.len() - j,
                    {
                        let ghost prev = terms@;
                        let t = more[j].duplicate();
                        self.scorer.add_term(more[j].duplicate());
                        terms.push(t);
                        assert(terms_view(terms@) =~= terms_view(prev).push(t@));
                        assert(terms_view(terms@).drop_last() =~= terms_view(prev));
                        assert(terms_view(more@.subrange(0, j + 1)) =~= terms_view(
                            more@.subrange(0, j as int),
                        ).push(more@[j as int]@));
                        assert(terms_view(terms@) =~= terms_view(before) + terms_view(
                            more@.subrange(0, j + 1),
                        ));
                        j = j + 1;
                    }
                    assert(more@.subrange(0, more@.len() as int) =~= more@);
                },
                Err(e) => {
                    proof {
                        lemma_document_terms_err_extends(fields, values, i as int + 1);
                        lemma_analysed_terms_err(fields, values, i as int);
                    }
                    return Err(e);
                },
            }
            i = i + 1;
        }
        assert(values.subrange(0, values.len() as int) =~= values);
        proof {
            lemma_analysed_terms_ok(fields, values);
        }
        Ok(CandidateQuery { terms })
    }
}

/// How often each term was seen, after counting `ts` as well.
pub open spec fn counted(freqs: Map<TermModel, u64>, ts: Seq<TermModel>) -> Map<TermModel, u64>
    decreases ts.len(),
{
    if ts.len() == 0 {
        freqs
    } else {
        let before = counted(freqs, ts.drop_last());
        before.insert(ts.last(), bumped(doc_freq_in(before, ts.last())))
    }
}

proof fn lemma_union_none_extends(ts: Seq<TreeModel>, freqs: Map<TermModel, u64>, n: u64, k: int)
    requires
        0 <= k <= ts.len(),
        union_selection(ts.subrange(0, k), freqs, n) is None,
    ensures
        union_selection(ts, freqs, n) is None,
    decreases ts.len() - k,
{
    if k < ts.len() {
        assert(ts.subrange(0, k + 1).drop_last() =~= ts.subrange(0, k));
        lemma_union_none_extends(ts, freqs, n, k + 1);
    } else {
        assert(ts.subrange(0, k) =~= ts);
    }
}

proof fn lemma_best_none_extends(ts: Seq<TreeModel>, freqs: Map<TermModel, u64>, n: u64, k: int)
    requires
        1 <= k <= ts.len(),
        best_child(ts.subrange(0, k), freqs, n) is None,
    ensures
        best_child(ts, freqs, n) is None,
    decreases ts.len() - k,
{
    if k < ts.len() {
        assert(ts.subrange(0, k + 1).drop_last() =~= ts.subrange(0, k));
        lemma_best_none_extends(ts, freqs, n, k + 1);
    } else {
        assert(ts.subrange(0, k) =~= ts);
    }
}

} // verus!
