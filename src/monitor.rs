use vstd::prelude::*;

use std::collections::HashSet;

use crate::analysis::{analysed_terms, document_terms, lemma_document_terms_on_text_fields, terms_view};
use crate::presearcher::{
    SyntheticQueryDoc, TermFilteredPresearcher, contains_term, counted,
    lemma_selection_necessary, selection, selects, term_set,
};
use crate::query::{
    Occur, Query, QueryModel, Term, TermModel, clauses_view, lemma_clauses_view, lemma_queries_view,
    lemma_tree_of_sound, matches_doc, queries_view, strings_view, tree_of, views,
};
use crate::query_decomposer::{QueryDecomposer, decomposition, lemma_decomposition_complete};
use crate::schema::{
    Document, FieldEntry, MonitorError, MonitorQuerySchemaBuilder, Schema, is_text_field,
};
use crate::scorer::{PresearcherScorer, bumped};
use crate::stores::{SlotMap, new_slot_map, slot_entries, slot_get, slot_insert};

verus! {

broadcast use vstd::std_specs::hash::group_hash_axioms;

/// A registered query: an id and a query tree. Registered queries are told
/// apart by their ids alone.
#[derive(Debug)]
pub struct MonitorQuery {
    pub id: u64,
    pub query: Query,
}

impl MonitorQuery {
    pub fn new(id: u64, query: Query) -> (r: MonitorQuery)
        ensures
            r.id == id,
            r.query@ == query@,
    {
        MonitorQuery { id, query }
    }

    pub fn duplicate(&self) -> (r: MonitorQuery)
        ensures
            r.id == self.id,
            r.query@ == self.query@,
    {
        MonitorQuery { id: self.id, query: self.query.deep_clone() }
    }
}

impl PartialEq for MonitorQuery {
    fn eq(&self, other: &MonitorQuery) -> (r: bool) {
        self.id == other.id
    }
}

impl vstd::std_specs::cmp::PartialEqSpecImpl for MonitorQuery {
    open spec fn obeys_eq_spec() -> bool {
        true
    }

    open spec fn eq_spec(&self, other: &MonitorQuery) -> bool {
        self.id == other.id
    }
}

/// What a match reports besides the matched ids: how many queries are
/// registered, how many were candidates, and how many matched.
#[derive(Clone, Copy, Debug, PartialEq, Eq, Structural)]
pub struct PresearcherMetrics {
    pub total_queries: usize,
    pub prospective_queries: usize,
    pub actual_matches: usize,
}

/// Whether every term of `d` lies on a text field.
pub open spec fn text_only(d: Set<TermModel>, fields: Seq<FieldEntry>) -> bool {
    forall|t: TermModel| #[trigger] d.contains(t) ==> is_text_field(fields, t.0)
}

/// An indexed sub-query covers a sub-query when every document that the
/// sub-query matches retrieves it.
pub open spec fn covers(sub: SyntheticQueryDoc, s: QueryModel, fields: Seq<FieldEntry>) -> bool {
    forall|d: Set<TermModel>| text_only(d, fields) && #[trigger] matches_doc(s, d) ==> selects(sub, d)
}

/// How a sub-query is indexed under the statistics `freqs` and `n`: under
/// the terms its tree selects that lie on text fields, and marked as
/// constrained by no term when the selection says so or keeps no term.
pub open spec fn indexed_as(
    sub: SyntheticQueryDoc,
    s: QueryModel,
    freqs: Map<TermModel, u64>,
    n: u64,
    fields: Seq<FieldEntry>,
) -> bool {
    let sel = selection(tree_of(s), freqs, n)->Some_0;
    &&& term_set(sub.terms@) == sel.0.filter(|t: TermModel| is_text_field(fields, t.0))
    &&& sub.any_term == (sel.1 || term_set(sub.terms@).is_empty())
}

/// Whether a query matches a document with the given terms.
pub fn query_matches(q: &Query, terms: &Vec<Term>) -> (r: bool)
    ensures
        r == matches_doc(q@, term_set(terms@)),
    decreases *q,
{
    let ghost d = term_set(terms@);
    match q {
        Query::Term(t) => contains_term(terms, t),
        Query::TermSet(f, vs) => {
            let mut i: usize = 0;
            while i < vs.len()
                invariant
                    i <= vs@.len(),
                    d == term_set(terms@),
                    *q == Query::TermSet(*f, *vs),
                    forall|k: int| 0 <= k < i ==> !d.contains((*f, #[trigger] strings_view(vs@)[k])),
                decreases vs@.len() - i,
            {
                let t = Term::new(*f, vs[i].clone());
                assert(strings_view(vs@)[i as int] == vs@[i as int]@);
                if contains_term(terms, &t) {
                    assert(d.contains((*f, strings_view(vs@)[i as int])));
                    assert(q@ == QueryModel::TermSet(*f, strings_view(vs@)));
                    proof {
                        crate::query::lemma_matches_unfold(q@, d);
                    }
                    return true;
                }
                i = i + 1;
            }
            false
        },
        Query::Boolean(cs) => {
            let ghost m = clauses_view(cs@);
            proof {
                lemma_clauses_view(cs@);
            }
            let mut has_must = false;
            let mut has_should = false;
            let mut musts_hold = true;
            let mut some_not_holds = false;
            let mut some_should_holds = false;
            let mut i: usize = 0;
            while i < cs.len()
                invariant
                    i <= cs@.len(),
                    *q == Query::Boolean(*cs),
                    d == term_set(terms@),
                    m == clauses_view(cs@),
                    m.len() == cs@.len(),
                    forall|k: int| 0 <= k < cs@.len() ==> #[trigger] m[k] == (cs@[k].0, cs@[k].1@),
                    has_must == exists|k: int| 0 <= k < i && m[k].0 == Occur::Must,
                    has_should == exists|k: int| 0 <= k < i && m[k].0 == Occur::Should,
                    musts_hold == forall|k: int|
                        0 <= k < i && m[k].0 == Occur::Must ==> matches_doc(m[k].1, d),
                    some_not_holds == exists|k: int|
                        0 <= k < i && m[k].0 == Occur::MustNot && matches_doc(m[k].1, d),
                    some_should_holds == exists|k: int|
                        0 <= k < i && m[k].0 == Occur::Should && matches_doc(m[k].1, d),
                decreases cs@.len() - i,
            {
                proof {
                    assert(decreases_to!(*q => q->Boolean_0));
                    assert(decreases_to!(cs => cs[i as int]));
                    assert(decreases_to!(cs[i as int] => cs[i as int].1));
                }
                let holds = query_matches(&cs[i].1, terms);
                assert(m[i as int].0 == cs@[i as int].0);
                match cs[i].0 {
                    Occur::Must => {
                        has_must = true;
                        if !holds {
                            musts_hold = false;
                        }
                    },
                    Occur::Should => {
                        has_should = true;
                        if holds {
                            some_should_holds = true;
                        }
                    },
                    Occur::MustNot => {
                        if holds {
                            some_not_holds = true;
                        }
                    },
                }
                i = i + 1;
            }
            assert(q@ == QueryModel::Boolean(m));
            assert(has_must == crate::query::has_occur(m, Occur::Must));
            assert(has_should == crate::query::has_occur(m, Occur::Should));
            (has_must || has_should) && musts_hold && !some_not_holds && (has_must
                || some_should_holds)
        },
        Query::Boost(inner, _) => query_matches(inner, terms),
        Query::DisjunctionMax(qs) => {
            let ghost m = queries_view(qs@);
            proof {
                lemma_queries_view(qs@);
            }
            let mut i: usize = 0;
            while i < qs.len()
                invariant
                    i <= qs@.len(),
                    *q == Query::DisjunctionMax(*qs),
                    d == term_set(terms@),
                    m == queries_view(qs@),
                    m.len() == qs@.len(),
                    forall|k: int| 0 <= k < qs@.len() ==> #[trigger] m[k] == qs@[k]@,
                    forall|k: int| 0 <= k < i ==> !matches_doc(#[trigger] m[k], d),
                decreases qs@.len() - i,
            {
                proof {
                    assert(decreases_to!(*q => q->DisjunctionMax_0));
                    assert(decreases_to!(qs => qs[i as int]));
                }
                if query_matches(&qs[i], terms) {
                    assert(matches_doc(m[i as int], d));
                    assert(q@ == QueryModel::DisjunctionMax(m));
                    proof {
                        crate::query::lemma_matches_unfold(q@, d);
                    }
                    return true;
                }
                i = i + 1;
            }
            false
        },
        Query::All => true,
    }
}

fn contains_id(ids: &Vec<u64>, id: u64) -> (r: bool)
    ensures
        r == ids@.contains(id),
{
    let mut i: usize = 0;
    while i < ids.len()
        invariant
            i <= ids@.len(),
            forall|k: int| 0 <= k < i ==> ids@[k] != id,
        decreases ids@.len() - i,
    {
        if ids[i] == id {
            return true;
        }
        i = i + 1;
    }
    false
}

/// Owns the registered queries, their indexed sub-queries and the corpus
/// statistics, and matches documents against all registered queries.
pub struct Monitor<S: PresearcherScorer> {
    query_index: Vec<SyntheticQueryDoc>,
    query_slots: SlotMap,
    queries: Vec<MonitorQuery>,
    presearcher: TermFilteredPresearcher<S>,
    document_schema: Schema,
    query_schema: Schema,
}

impl<S: PresearcherScorer> Monitor<S> {
    /// The registered queries by id.
    pub closed spec fn store(&self) -> Map<u64, QueryModel> {
        store_of(slot_entries(self.query_slots), self.queries@)
    }

    /// The indexed sub-queries, in the order they were added.
    pub closed spec fn index(&self) -> Seq<SyntheticQueryDoc> {
        self.query_index@
    }

    /// The fields of the query index: the document's fields, then the two
    /// reserved ones.
    pub closed spec fn query_fields(&self) -> Seq<FieldEntry> {
        self.query_schema.fields@
    }

    /// The fields of the documents.
    pub closed spec fn document_fields(&self) -> Seq<FieldEntry> {
        self.document_schema.fields@
    }

    pub closed spec fn presearcher(&self) -> TermFilteredPresearcher<S> {
        self.presearcher
    }

    /// The ids of the registered queries that a document with terms `d`
    /// selects in the query index.
    pub open spec fn candidates_of(&self, d: Set<TermModel>) -> Set<u64> {
        Set::new(
            |id: u64|
                self.store().contains_key(id) && exists|k: int|
                    0 <= k < self.index().len() && self.index()[k].query_id == id && selects(
                        #[trigger] self.index()[k],
                        d,
                    ),
        )
    }

    /// The candidates whose registered query matches a document with terms
    /// `d`.
    pub open spec fn matched_ids(&self, d: Set<TermModel>) -> Set<u64> {
        self.candidates_of(d).filter(|id: u64| matches_doc(self.store()[id], d))
    }

    pub closed spec fn wf(&self) -> bool {
        wf_of(
            slot_entries(self.query_slots),
            self.queries@,
            self.query_index@,
            self.query_schema.fields@,
        )
    }

    /// Every indexed sub-query holds a term or the any-term mark.
    pub proof fn lemma_indexed_subqueries_constrained(&self, k: int)
        requires
            self.wf(),
            0 <= k < self.index().len(),
        ensures
            self.index()[k].any_term || self.index()[k].terms@.len() > 0,
    {
    }

    pub fn new(document_schema: Schema, presearcher: TermFilteredPresearcher<S>) -> (r: Monitor<S>)
        ensures
            r.wf(),
            r.store().dom().len() == 0,
            r.store().dom().finite(),
            r.index().len() == 0,
            same_prefix(r.query_fields(), document_schema.fields@),
            r.document_fields() == document_schema.fields@,
            r.presearcher() == presearcher,
    {
        let dup = document_schema.duplicate();
        let ghost dupf = dup.fields@;
        let query_schema = MonitorQuerySchemaBuilder::build(dup);
        let r = Monitor {
            query_index: Vec::new(),
            query_slots: new_slot_map(),
            queries: Vec::new(),
            presearcher,
            document_schema,
            query_schema,
        };
        assert(r.store().dom() =~= Set::<u64>::empty());
        let ghost n = r.document_schema.fields@.len();
        assert forall|f: u32| #[trigger]
            is_text_field(r.query_schema.fields@, f) == is_text_field(r.document_schema.fields@, f) by {
            if f < n {
                assert(r.query_schema.fields@.subrange(0, n as int)[f as int]
                    == r.query_schema.fields@[f as int]);
                assert(dupf[f as int].field_type == r.document_schema.fields@[f as int].field_type);
            }
        }
        r
    }

    /// The registered queries, one per id, and as many as their slots.
    proof fn lemma_store_size(&self)
        requires
            self.wf(),
        ensures
            self.store().dom().finite(),
            self.store().dom().len() == self.queries@.len(),
    {
        let ids = self.queries@.map_values(|q: MonitorQuery| q.id);
        let slots = slot_entries(self.query_slots);
        assert forall|a: int, b: int| 0 <= a < ids.len() && 0 <= b < ids.len() && a != b implies ids[a]
            != ids[b] by {
            assert(slots[self.queries@[a].id] == a);
            assert(slots[self.queries@[b].id] == b);
        }
        assert(ids.no_duplicates());
        assert forall|id: u64| self.store().dom().contains(id) <==> ids.to_set().contains(id) by {
            if self.store().dom().contains(id) {
                assert(ids[slots[id] as int] == id);
            }
            if ids.to_set().contains(id) {
                let i = choose|i: int| 0 <= i < ids.len() && ids[i] == id;
                assert(slots.contains_key(self.queries@[i].id));
            }
        }
        assert(self.store().dom() =~= ids.to_set());
        ids.unique_seq_to_set();
    }

    #[verifier::rlimit(50)]
    /// Registers a query under its id, replacing any query registered under
    /// that id. Each atomic sub-query is indexed under the terms it selects
    /// with the statistics gathered so far. When a sub-query cannot be
    /// scored, fails with `InternalError` and leaves the monitor as it was.
    pub fn register_query(&mut self, monitor_query: MonitorQuery) -> (r: Result<(), MonitorError>)
        requires
            old(self).wf(),
        ensures
            final(self).wf(),
            final(self).query_fields() == old(self).query_fields(),
            final(self).document_fields() == old(self).document_fields(),
            final(self).presearcher() == old(self).presearcher(),
            (r is Ok) == registrable(
                monitor_query.query@,
                old(self).presearcher().scorer.frequencies(),
                old(self).presearcher().scorer.doc_count(),
            ),
            r is Ok ==> final(self).store() == old(self).store().insert(
                monitor_query.id,
                monitor_query.query@,
            ),
            r is Ok ==> final(self).index().len() == old(self).index().len() + decomposition(
                monitor_query.query@,
            ).len(),
            r is Ok ==> final(self).index().subrange(0, old(self).index().len() as int) == old(
                self,
            ).index(),
            r is Ok ==> forall|k: int|
                old(self).index().len() <= k < final(self).index().len() ==> (
                #[trigger] final(self).index()[k]).query_id == monitor_query.id,
            r is Ok ==> forall|t: int|
                0 <= t < decomposition(monitor_query.query@).len() ==> indexed_as(
                    #[trigger] final(self).index()[old(self).index().len() + t],
                    decomposition(monitor_query.query@)[t],
                    old(self).presearcher().scorer.frequencies(),
                    old(self).presearcher().scorer.doc_count(),
                    final(self).query_fields(),
                ),
            r is Ok ==> forall|t: int|
                0 <= t < decomposition(monitor_query.query@).len() ==> covers(
                    #[trigger] final(self).index()[old(self).index().len() + t],
                    decomposition(monitor_query.query@)[t],
                    final(self).query_fields(),
                ),
            r is Err ==> {
                &&& r->Err_0 == MonitorError::InternalError
                &&& final(self).store() == old(self).store()
                &&& final(self).index() == old(self).index()
            },
    {
        let id = monitor_query.id;
        let ghost qm = monitor_query.query@;
        let ghost dq = decomposition(qm);
        let ghost fields = self.query_schema.fields@;
        let ghost freqs = self.presearcher.scorer.frequencies();
        let ghost n = self.presearcher.scorer.doc_count();
        let start: Vec<Query> = Vec::new();
        assert(views(start@) =~= Seq::<QueryModel>::empty());
        let mut decomposer = QueryDecomposer::new(start);
        decomposer.decompose(monitor_query.query.deep_clone());
        let subs = decomposer.into_subqueries();
        assert(views(subs@) =~= dq);
        let mut docs: Vec<SyntheticQueryDoc> = Vec::new();
        let mut j: usize = 0;
        while j < subs.len()
            invariant
                j <= subs@.len(),
                *self == *old(self),
                self.wf(),
                qm == monitor_query.query@,
                id == monitor_query.id,
                views(subs@) == dq,
                dq == decomposition(qm),
                fields == self.query_schema.fields@,
                freqs == self.presearcher.scorer.frequencies(),
                n == self.presearcher.scorer.doc_count(),
                docs@.len() == j,
                forall|t: int| 0 <= t < j ==> (#[trigger] docs@[t]).query_id == id,
                forall|t: int|
                    0 <= t < j ==> (#[trigger] docs@[t]).any_term || docs@[t].terms@.len() > 0,
                forall|t: int| 0 <= t < j ==> covers(#[trigger] docs@[t], dq[t], fields),
                forall|t: int| 0 <= t < j ==> indexed_as(#[trigger] docs@[t], dq[t], freqs, n, fields),
                forall|t: int|
                    0 <= t < j ==> (#[trigger] selection(tree_of(dq[t]), freqs, n)) is Some,
            decreases subs@.len() - j,
        {
            assert(views(subs@)[j as int] == subs@[j as int]@);
            match self.presearcher.convert_query_to_document(&subs[j], &self.query_schema) {
                Ok(doc) => {
                    let mut doc = doc;
                    doc.query_id = id;
                    proof {
                        lemma_converted_covers(doc, dq[j as int], freqs, n, fields);
                    }
                    docs.push(doc);
                },
                Err(e) => {
                    assert(selection(tree_of(dq[j as int]), freqs, n) is None);
                    assert(!registrable(qm, freqs, n));
                    return Err(e);
                },
            }
            j = j + 1;
        }
        let ghost old_index = self.query_index@;
        let ghost new_docs = docs@;
        let ghost old_store = self.store();
        let ghost old_slots = slot_entries(self.query_slots);
        let ghost old_queries = self.queries@;
        let ghost new_slot = self.queries@.len();
        self.query_index.append(&mut docs);
        match slot_get(&self.query_slots, id) {
            Some(slot) => {
                self.queries.set(slot, monitor_query);
                assert(slot_entries(self.query_slots) == old_slots);
            },
            None => {
                let slot = self.queries.len();
                self.queries.push(monitor_query);
                slot_insert(&mut self.query_slots, id, slot);
            },
        }
        proof {
            let slots = slot_entries(self.query_slots);
            if old_slots.contains_key(id) {
                lemma_slot_replaced(old_slots, old_queries, slots, self.queries@, id, qm);
            } else {
                lemma_slot_added(old_slots, old_queries, slots, self.queries@, id, new_slot as usize, qm);
            }
            lemma_index_extended(
                old_slots,
                old_queries,
                old_index,
                slots,
                self.queries@,
                self.query_index@,
                new_docs,
                fields,
                id,
                qm,
            );
            assert(self.query_index@.subrange(0, old_index.len() as int) =~= old_index);
            assert forall|t: int| 0 <= t < dq.len() implies covers(
                #[trigger] self.query_index@[old_index.len() + t],
                dq[t],
                fields,
            ) && indexed_as(self.query_index@[old_index.len() + t], dq[t], freqs, n, fields) by {
                assert(self.query_index@[old_index.len() + t] == new_docs[t]);
            }
        }
        Ok(())
    }

    /// Matches a document against every registered query: the candidates are
    /// the registered queries that the document's terms select in the query
    /// index, and the matches are the candidates whose query matches the
    /// document. The document and its terms are counted into the corpus
    /// statistics.
    pub fn match_document(&mut self, document: Document) -> (r: Result<
        (HashSet<u64>, PresearcherMetrics),
        MonitorError,
    >)
        requires
            old(self).wf(),
        ensures
            final(self).wf(),
            final(self).store() == old(self).store(),
            final(self).index() == old(self).index(),
            final(self).query_fields() == old(self).query_fields(),
            final(self).document_fields() == old(self).document_fields(),
            (r is Ok) == (document_terms(old(self).query_fields(), document.values@) is Ok),
            r is Ok ==> {
                let ts = document_terms(old(self).query_fields(), document.values@)->Ok_0;
                let d = ts.to_set();
                let m = r->Ok_0.1;
                &&& r->Ok_0.0@ == old(self).matched_ids(d)
                &&& m.total_queries == old(self).store().dom().len()
                &&& m.prospective_queries == old(self).candidates_of(d).len()
                &&& m.actual_matches == old(self).matched_ids(d).len()
                &&& m.actual_matches <= m.prospective_queries <= m.total_queries
            },
            r is Err ==> r->Err_0 == document_terms(old(self).query_fields(), document.values@)->Err_0,
            final(self).presearcher().scorer.doc_count() == bumped(
                old(self).presearcher().scorer.doc_count(),
            ),
            final(self).presearcher().scorer.frequencies() == counted(
                old(self).presearcher().scorer.frequencies(),
                analysed_terms(old(self).query_fields(), document.values@),
            ),
    {
        let total = self.queries.len();
        proof {
            self.lemma_store_size();
        }
        let converted = self.presearcher.convert_document_to_query(&document, &self.query_schema);
        assert(self.query_slots == old(self).query_slots);
        assert(self.queries == old(self).queries);
        assert(self.query_index == old(self).query_index);
        assert(self.query_schema == old(self).query_schema);
        assert(self.store() == old(self).store());
        let cq = match converted {
            Ok(cq) => cq,
            Err(e) => {
                return Err(e);
            },
        };
        let ghost d = cq.term_set();
        let ghost store = self.store();
        let ghost index = self.query_index@;
        let mut cands: Vec<u64> = Vec::new();
        let mut k: usize = 0;
        while k < self.query_index.len()
            invariant
                k <= index.len(),
                self.wf(),
                store == self.store(),
                index == self.query_index@,
                d == cq.term_set(),
                cands@.no_duplicates(),
                forall|id: u64|
                    cands@.contains(id) <==> (store.contains_key(id) && exists|k2: int|
                        0 <= k2 < k && index[k2].query_id == id && selects(#[trigger] index[k2], d)),
            decreases index.len() - k,
        {
            let ghost before = cands@;
            let id = self.query_index[k].query_id;
            assert(store.contains_key(id));
            let sel = cq.selects(&self.query_index[k]);
            if sel && !contains_id(&cands, id) {
                cands.push(id);
                assert(cands@ == before.push(id));
                proof {
                    assert forall|a: int, b: int|
                        0 <= a < cands@.len() && 0 <= b < cands@.len() && a != b implies cands@[a]
                        != cands@[b] by {
                        if a < before.len() && b < before.len() {
                            assert(before[a] != before[b]);
                        } else if a == before.len() {
                            assert(cands@[b] == before[b]);
                            if cands@[b] == id {
                                assert(before.contains(id));
                            }
                        } else {
                            assert(cands@[a] == before[a]);
                            if cands@[a] == id {
                                assert(before.contains(id));
                            }
                        }
                    }
                }
            }
            proof {
                assert forall|x: u64| before.contains(x) implies cands@.contains(x) by {
                    let w = choose|w: int| 0 <= w < before.len() && before[w] == x;
                    assert(cands@[w] == x);
                }
                assert forall|x: u64|
                    cands@.contains(x) <==> (store.contains_key(x) && exists|k2: int|
                        0 <= k2 < k + 1 && index[k2].query_id == x && selects(
                            #[trigger] index[k2],
                            d,
                        )) by {
                    if cands@.contains(x) && !before.contains(x) {
                        assert(x == id && sel);
                        assert(index[k as int].query_id == x && selects(index[k as int], d));
                    }
                    if store.contains_key(x) && exists|k2: int|
                        0 <= k2 < k + 1 && index[k2].query_id == x && selects(
                            #[trigger] index[k2],
                            d,
                        ) {
                        let k2 = choose|k2: int|
                            0 <= k2 < k + 1 && index[k2].query_id == x && selects(
                                #[trigger] index[k2],
                                d,
                            );
                        if k2 == k {
                            assert(x == id && sel);
                            if !before.contains(id) {
                                assert(cands@[before.len() as int] == id);
                            }
                        }
                    }
                }
            }
            k = k + 1;
        }
        let ghost cand_set = self.candidates_of(d);
        assert(cands@.to_set() =~= cand_set);
        proof {
            cands@.unique_seq_to_set();
            vstd::set_lib::lemma_len_subset(cand_set, store.dom());
        }
        let mut matched: Vec<u64> = Vec::new();
        let mut i: usize = 0;
        while i < cands.len()
            invariant
                i <= cands@.len(),
                self.wf(),
                store == self.store(),
                d == cq.term_set(),
                cands@.no_duplicates(),
                forall|t: int| 0 <= t < cands@.len() ==> store.contains_key(#[trigger] cands@[t]),
                matched@.no_duplicates(),
                forall|id: u64|
                    matched@.contains(id) <==> (exists|t: int|
                        0 <= t < i && #[trigger] cands@[t] == id && matches_doc(store[id], d)),
            decreases cands@.len() - i,
        {
            let id = cands[i];
            let ghost before = matched@;
            assert(store.contains_key(id));
            let mut holds = false;
            match slot_get(&self.query_slots, id) {
                Some(slot) => {
                    assert(store[id] == self.queries@[slot as int].query@);
                    if query_matches(&self.queries[slot].query, &cq.terms) {
                        holds = true;
                    }
                },
                None => {},
            }
            assert(holds == matches_doc(store[id], d));
            assert forall|t: int| 0 <= t < i implies #[trigger] cands@[t] != id by {
                assert(cands@[t] != cands@[i as int]);
            }
            if holds {
                matched.push(id);
                proof {
                    assert(!before.contains(id));
                    assert forall|a: int, b: int|
                        0 <= a < matched@.len() && 0 <= b < matched@.len() && a != b implies matched@[a]
                        != matched@[b] by {
                        if a < before.len() && b < before.len() {
                            assert(before[a] != before[b]);
                        } else if a == before.len() {
                            assert(matched@[b] == before[b]);
                            if matched@[b] == id {
                                assert(before.contains(id));
                            }
                        } else {
                            assert(matched@[a] == before[a]);
                            if matched@[a] == id {
                                assert(before.contains(id));
                            }
                        }
                    }
                }
            }
            assert forall|x: u64|
                matched@.contains(x) <==> (exists|t: int|
                    0 <= t < i + 1 && #[trigger] cands@[t] == x && matches_doc(store[x], d)) by {
                if matched@.contains(x) && !before.contains(x) {
                    assert(cands@[i as int] == x);
                }
                if before.contains(x) {
                    let w = choose|w: int| 0 <= w < before.len() && before[w] == x;
                    assert(matched@[w] == x);
                }
                if exists|t: int| 0 <= t < i + 1 && #[trigger] cands@[t] == x && matches_doc(store[x], d) {
                    let t = choose|t: int| 0 <= t < i + 1 && #[trigger] cands@[t] == x && matches_doc(store[x], d);
                    if t == i {
                        assert(matched@[matched@.len() - 1] == x);
                    }
                }
            }
            i = i + 1;
        }
        let ghost matched_set = self.matched_ids(d);
        assert(matched@.to_set() =~= matched_set);
        proof {
            matched@.unique_seq_to_set();
            vstd::set_lib::lemma_len_subset(matched_set, cand_set);
        }
        let mut ids: HashSet<u64> = HashSet::new();
        let mut t: usize = 0;
        while t < matched.len()
            invariant
                t <= matched@.len(),
                ids@ == matched@.subrange(0, t as int).to_set(),
            decreases matched@.len() - t,
        {
            ids.insert(matched[t]);
            proof {
                matched@.subrange(0, t as int).lemma_push_to_set_commute(matched@[t as int]);
                assert(matched@.subrange(0, t + 1) =~= matched@.subrange(0, t as int).push(
                    matched@[t as int],
                ));
            }
            t = t + 1;
        }
        assert(matched@.subrange(0, matched@.len() as int) =~= matched@);
        let metrics = PresearcherMetrics {
            total_queries: total,
            prospective_queries: cands.len(),
            actual_matches: matched.len(),
        };
        Ok((ids, metrics))
    }

    /// No false positive: every matched id is registered, and its query
    /// matches the document.
    pub proof fn lemma_match_sound(&self, d: Set<TermModel>, id: u64)
        requires
            self.matched_ids(d).contains(id),
        ensures
            self.store().contains_key(id),
            matches_doc(self.store()[id], d),
    {
    }

    /// No false negative: a registered query that matches a document is among
    /// the document's matches.
    pub proof fn lemma_match_complete(&self, d: Set<TermModel>, id: u64)
        requires
            self.wf(),
            text_only(d, self.query_fields()),
            self.store().contains_key(id),
            matches_doc(self.store()[id], d),
        ensures
            self.matched_ids(d).contains(id),
    {
        let q = self.store()[id];
        lemma_decomposition_complete(q, d);
        let j = choose|j: int|
            0 <= j < decomposition(q).len() && #[trigger] matches_doc(decomposition(q)[j], d);
        assert(covered(self.query_index@, id, decomposition(q)[j], self.query_schema.fields@));
        let k = choose|k: int|
            0 <= k < self.query_index@.len() && self.query_index@[k].query_id == id && covers(
                self.query_index@[k],
                decomposition(q)[j],
                self.query_schema.fields@,
            );
        assert(selects(self.index()[k], d));
        assert(self.candidates_of(d).contains(id));
    }

    /// The terms of a document lie on text fields of the query index.
    pub proof fn lemma_document_terms_text_only(&self, document: Document)
        requires
            document_terms(self.query_fields(), document.values@) is Ok,
        ensures
            text_only(
                document_terms(self.query_fields(), document.values@)->Ok_0.to_set(),
                self.query_fields(),
            ),
    {
        let ts = document_terms(self.query_fields(), document.values@)->Ok_0;
        lemma_document_terms_on_text_fields(self.query_fields(), document.values@);
        assert forall|t: TermModel| #[trigger] ts.to_set().contains(t) implies is_text_field(
            self.query_fields(),
            t.0,
        ) by {
            let i = choose|i: int| 0 <= i < ts.len() && ts[i] == t;
            assert(is_text_field(self.query_fields(), ts[i].0));
        }
    }

    /// No false negative, for a document: a registered query that matches
    /// the terms of a document is among that document's matches.
    pub proof fn lemma_document_match_complete(&self, document: Document, id: u64)
        requires
            self.wf(),
            document_terms(self.query_fields(), document.values@) is Ok,
            self.store().contains_key(id),
            matches_doc(
                self.store()[id],
                document_terms(self.query_fields(), document.values@)->Ok_0.to_set(),
            ),
        ensures
            self.matched_ids(
                document_terms(self.query_fields(), document.values@)->Ok_0.to_set(),
            ).contains(id),
    {
        self.lemma_document_terms_text_only(document);
        self.lemma_match_complete(
            document_terms(self.query_fields(), document.values@)->Ok_0.to_set(),
            id,
        );
    }

    /// The matches of a document are exactly the registered queries that
    /// match it.
    pub proof fn lemma_matches_exactly(&self, d: Set<TermModel>)
        requires
            self.wf(),
            text_only(d, self.query_fields()),
        ensures
            self.matched_ids(d) == self.store().dom().filter(|id: u64| matches_doc(self.store()[id], d)),
    {
        assert forall|id: u64| #[trigger] self.matched_ids(d).contains(id) <==> (self.store().contains_key(id)
            && matches_doc(self.store()[id], d)) by {
            if self.store().contains_key(id) && matches_doc(self.store()[id], d) {
                self.lemma_match_complete(d, id);
            }
        }
        assert(self.matched_ids(d) =~= self.store().dom().filter(
            |id: u64| matches_doc(self.store()[id], d),
        ));
    }

    /// Registering a query a second time under the same id changes no
    /// match: the monitor after the second registration matches every
    /// document exactly as the monitor after the first.
    pub proof fn lemma_registration_idempotent(
        once: &Monitor<S>,
        twice: &Monitor<S>,
        before: Map<u64, QueryModel>,
        id: u64,
        q: QueryModel,
        d: Set<TermModel>,
    )
        requires
            once.wf(),
            twice.wf(),
            once.store() == before.insert(id, q),
            twice.store() == once.store().insert(id, q),
            twice.query_fields() == once.query_fields(),
            text_only(d, once.query_fields()),
        ensures
            twice.store() == once.store(),
            twice.matched_ids(d) == once.matched_ids(d),
    {
        assert(twice.store() =~= once.store());
        once.lemma_matches_exactly(d);
        twice.lemma_matches_exactly(d);
    }

    /// A document without terms selects only the sub-queries marked as
    /// constrained by no term; with none such indexed, it has no candidate
    /// and no match.
    pub proof fn lemma_empty_document(&self)
        requires
            forall|k: int| 0 <= k < self.index().len() ==> !(#[trigger] self.index()[k]).any_term,
        ensures
            self.candidates_of(Set::empty()) == Set::<u64>::empty(),
            self.matched_ids(Set::empty()) == Set::<u64>::empty(),
    {
        assert(self.candidates_of(Set::empty()) =~= Set::<u64>::empty());
        assert(self.matched_ids(Set::empty()) =~= Set::<u64>::empty());
    }

    /// The document schema.
    pub fn schema(&self) -> (r: Schema)
        ensures
            crate::schema::same_fields(r.fields@, self.document_fields()),
    {
        self.document_schema.duplicate()
    }
}

/// The queries that `slots` gives a slot of `queries`, by id.
pub open spec fn store_of(slots: Map<u64, usize>, queries: Seq<MonitorQuery>) -> Map<u64, QueryModel> {
    Map::new(|id: u64| slots.contains_key(id), |id: u64| queries[slots[id] as int].query@)
}

/// The invariant of a monitor: the slots and the queries correspond one to
/// one, every indexed sub-query belongs to a registered query and holds a
/// term or the any-term mark, and every atomic sub-query of a registered
/// query is covered by one of its indexed sub-queries.
pub open spec fn wf_of(
    slots: Map<u64, usize>,
    queries: Seq<MonitorQuery>,
    index: Seq<SyntheticQueryDoc>,
    fields: Seq<FieldEntry>,
) -> bool {
    slots_wf(slots, queries) && index_wf(slots, queries, index, fields)
}

/// The slots and the queries correspond one to one.
pub open spec fn slots_wf(slots: Map<u64, usize>, queries: Seq<MonitorQuery>) -> bool {
    &&& forall|id: u64| #[trigger]
        slots.contains_key(id) ==> slots[id] < queries.len() && queries[slots[id] as int].id == id
    &&& forall|i: int|
        0 <= i < queries.len() ==> slots.contains_key(#[trigger] queries[i].id) && slots[queries[i].id]
            == i
}

/// Every indexed sub-query belongs to a registered query and holds a term or
/// the any-term mark, and every atomic sub-query of a registered query is
/// covered by one of its indexed sub-queries.
pub open spec fn index_wf(
    slots: Map<u64, usize>,
    queries: Seq<MonitorQuery>,
    index: Seq<SyntheticQueryDoc>,
    fields: Seq<FieldEntry>,
) -> bool {
    let store = store_of(slots, queries);
    &&& forall|k: int| 0 <= k < index.len() ==> slots.contains_key(#[trigger] index[k].query_id)
    &&& forall|k: int| 0 <= k < index.len() ==> #[trigger] index[k].any_term || index[k].terms@.len() > 0
    &&& forall|id: u64, j: int|
        #![trigger decomposition(store[id])[j]]
        store.contains_key(id) && 0 <= j < decomposition(store[id]).len() ==> covered(
            index,
            id,
            decomposition(store[id])[j],
            fields,
        )
}

/// Some indexed sub-query of query `id` covers the sub-query `s`.
pub open spec fn covered(
    index: Seq<SyntheticQueryDoc>,
    id: u64,
    s: QueryModel,
    fields: Seq<FieldEntry>,
) -> bool {
    exists|k: int| 0 <= k < index.len() && index[k].query_id == id && #[trigger] covers(index[k], s, fields)
}

proof fn lemma_slot_replaced(
    old_slots: Map<u64, usize>,
    old_queries: Seq<MonitorQuery>,
    slots: Map<u64, usize>,
    queries: Seq<MonitorQuery>,
    id: u64,
    qm: QueryModel,
)
    requires
        slots_wf(old_slots, old_queries),
        old_slots.contains_key(id),
        slots == old_slots,
        queries.len() == old_queries.len(),
        queries[old_slots[id] as int].id == id,
        queries[old_slots[id] as int].query@ == qm,
        forall|i: int| 0 <= i < queries.len() && i != old_slots[id] ==> #[trigger] queries[i] == old_queries[i],
    ensures
        store_of(slots, queries) == store_of(old_slots, old_queries).insert(id, qm),
        forall|x: u64| #[trigger]
            slots.contains_key(x) ==> slots[x] < queries.len() && queries[slots[x] as int].id == x,
        forall|i: int|
            0 <= i < queries.len() ==> slots.contains_key(#[trigger] queries[i].id) && slots[queries[i].id]
                == i,
{
    assert forall|x: u64| #[trigger] slots.contains_key(x) implies slots[x] < queries.len()
        && queries[slots[x] as int].id == x by {
        if x != id {
            assert(old_queries[old_slots[x] as int].id == x);
            assert(old_slots[x] != old_slots[id]);
        }
    }
    assert forall|i: int| 0 <= i < queries.len() implies slots.contains_key(#[trigger] queries[i].id)
        && slots[queries[i].id] == i by {
        if i != old_slots[id] {
            assert(queries[i] == old_queries[i]);
            assert(old_slots.contains_key(old_queries[i].id));
        }
    }
    assert forall|x: u64| #[trigger] slots.contains_key(x) && x != id implies queries[slots[x] as int]
        == old_queries[old_slots[x] as int] by {
        assert(old_queries[old_slots[x] as int].id == x);
        assert(old_slots[x] != old_slots[id]);
    }
    assert(store_of(slots, queries) =~= store_of(old_slots, old_queries).insert(id, qm));
}

proof fn lemma_slot_added(
    old_slots: Map<u64, usize>,
    old_queries: Seq<MonitorQuery>,
    slots: Map<u64, usize>,
    queries: Seq<MonitorQuery>,
    id: u64,
    slot: usize,
    qm: QueryModel,
)
    requires
        slots_wf(old_slots, old_queries),
        !old_slots.contains_key(id),
        slots == old_slots.insert(id, slot),
        slot == old_queries.len(),
        queries.len() == old_queries.len() + 1,
        queries[old_queries.len() as int].id == id,
        queries[old_queries.len() as int].query@ == qm,
        forall|i: int| 0 <= i < old_queries.len() ==> #[trigger] queries[i] == old_queries[i],
    ensures
        store_of(slots, queries) == store_of(old_slots, old_queries).insert(id, qm),
        forall|x: u64| #[trigger]
            slots.contains_key(x) ==> slots[x] < queries.len() && queries[slots[x] as int].id == x,
        forall|i: int|
            0 <= i < queries.len() ==> slots.contains_key(#[trigger] queries[i].id) && slots[queries[i].id]
                == i,
{
    assert forall|i: int| 0 <= i < queries.len() implies slots.contains_key(#[trigger] queries[i].id)
        && slots[queries[i].id] == i by {
        if i < old_queries.len() {
            assert(queries[i] == old_queries[i]);
            assert(old_slots.contains_key(old_queries[i].id));
        }
    }
    assert forall|x: u64| #[trigger] slots.contains_key(x) && x != id implies queries[slots[x] as int]
        == old_queries[old_slots[x] as int] by {
        assert(old_slots[x] < old_queries.len());
    }
    assert(store_of(slots, queries) =~= store_of(old_slots, old_queries).insert(id, qm));
}

proof fn lemma_index_extended(
    old_slots: Map<u64, usize>,
    old_queries: Seq<MonitorQuery>,
    old_index: Seq<SyntheticQueryDoc>,
    slots: Map<u64, usize>,
    queries: Seq<MonitorQuery>,
    index: Seq<SyntheticQueryDoc>,
    new_docs: Seq<SyntheticQueryDoc>,
    fields: Seq<FieldEntry>,
    id: u64,
    qm: QueryModel,
)
    requires
        wf_of(old_slots, old_queries, old_index, fields),
        store_of(slots, queries) == store_of(old_slots, old_queries).insert(id, qm),
        slots_wf(slots, queries),
        index == old_index + new_docs,
        new_docs.len() == decomposition(qm).len(),
        forall|t: int| 0 <= t < new_docs.len() ==> (#[trigger] new_docs[t]).query_id == id,
        forall|t: int|
            0 <= t < new_docs.len() ==> (#[trigger] new_docs[t]).any_term || new_docs[t].terms@.len() > 0,
        forall|t: int| 0 <= t < new_docs.len() ==> covers(#[trigger] new_docs[t], decomposition(qm)[t], fields),
    ensures
        wf_of(slots, queries, index, fields),
        forall|k: int| old_index.len() <= k < index.len() ==> (#[trigger] index[k]).query_id == id,
{
    let store = store_of(slots, queries);
    let old_store = store_of(old_slots, old_queries);
    assert forall|k: int| 0 <= k < index.len() implies slots.contains_key(#[trigger] index[k].query_id) by {
        if k < old_index.len() {
            assert(index[k] == old_index[k]);
            assert(old_store.contains_key(old_index[k].query_id));
            assert(store.contains_key(old_index[k].query_id));
        } else {
            assert(index[k] == new_docs[k - old_index.len()]);
            assert(store.contains_key(id));
        }
    }
    assert forall|k: int| 0 <= k < index.len() implies #[trigger] index[k].any_term
        || index[k].terms@.len() > 0 by {
        if k < old_index.len() {
            assert(index[k] == old_index[k]);
        } else {
            assert(index[k] == new_docs[k - old_index.len()]);
        }
    }
    assert forall|x: u64, t: int|
        #![trigger decomposition(store[x])[t]]
        store.contains_key(x) && 0 <= t < decomposition(store[x]).len() implies covered(
            index,
            x,
            decomposition(store[x])[t],
            fields,
        ) by {
        if x == id {
            let k = old_index.len() + t;
            assert(index[k] == new_docs[t]);
            assert(covers(new_docs[t], decomposition(qm)[t], fields));
        } else {
            assert(old_store.contains_key(x) && old_store[x] == store[x]);
            assert(decomposition(old_store[x])[t] == decomposition(store[x])[t]);
            assert(covered(old_index, x, decomposition(old_store[x])[t], fields));
            let k = choose|k: int|
                0 <= k < old_index.len() && old_index[k].query_id == x && covers(
                    old_index[k],
                    decomposition(old_store[x])[t],
                    fields,
                );
            assert(index[k] == old_index[k]);
        }
    }
    assert forall|k: int| old_index.len() <= k < index.len() implies (#[trigger] index[k]).query_id == id by {
        assert(index[k] == new_docs[k - old_index.len()]);
    }
    assert(slots_wf(slots, queries));
    assert(index_wf(slots, queries, index, fields));
}

/// Whether every atomic sub-query of `q` can be scored under the statistics
/// `freqs` and `n`.
pub open spec fn registrable(q: QueryModel, freqs: Map<TermModel, u64>, n: u64) -> bool {
    forall|j: int|
        0 <= j < decomposition(q).len() ==> (#[trigger] selection(
            tree_of(decomposition(q)[j]),
            freqs,
            n,
        )) is Some
}

/// A sub-query converted into its indexed form covers the sub-query.
proof fn lemma_converted_covers(
    doc: SyntheticQueryDoc,
    s: QueryModel,
    freqs: Map<TermModel, u64>,
    n: u64,
    fields: Seq<FieldEntry>,
)
    requires
        selection(tree_of(s), freqs, n) is Some,
        term_set(doc.terms@) == selection(tree_of(s), freqs, n)->Some_0.0.filter(
            |t: TermModel| is_text_field(fields, t.0),
        ),
        doc.any_term == (selection(tree_of(s), freqs, n)->Some_0.1 || term_set(
            doc.terms@,
        ).is_empty()),
    ensures
        covers(doc, s, fields),
{
    let sel = selection(tree_of(s), freqs, n)->Some_0;
    assert forall|d: Set<TermModel>| text_only(d, fields) && #[trigger] matches_doc(s, d) implies selects(
        doc,
        d,
    ) by {
        lemma_tree_of_sound(s, d);
        lemma_selection_necessary(tree_of(s), freqs, n, d);
        if !sel.1 {
            let term = choose|term: TermModel| sel.0.contains(term) && d.contains(term);
            assert(term_set(doc.terms@).contains(term));
            let i = choose|i: int| 0 <= i < terms_view(doc.terms@).len() && terms_view(doc.terms@)[i] == term;
            assert(doc.terms@[i]@ == term);
        }
    }
}

/// The query-index fields extend the document fields with the two reserved
/// ones, which are not text.
pub open spec fn same_prefix(query_fields: Seq<FieldEntry>, fields: Seq<FieldEntry>) -> bool {
    &&& query_fields.len() == fields.len() + 2
    &&& forall|f: u32| #[trigger] is_text_field(query_fields, f) == is_text_field(fields, f)
}

} // verus!
