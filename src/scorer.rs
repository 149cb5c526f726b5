use vstd::prelude::*;

use crate::query::{QueryDocumentTree, Term, TermModel, TreeModel, lemma_trees_view, trees_view};
use crate::schema::MonitorError;
use crate::stores::{CountMap, count_entries, count_get, count_insert, new_count_map};

verus! {

/// How selective a query-document tree is: the higher, the fewer the
/// documents that hold it.
#[derive(Clone, Copy, PartialEq, Eq, Debug, Structural)]
pub enum Selectivity {
    /// Nothing constrains the tree; below every other value.
    Unconstrained,
    /// The inverse document frequency of a term,
    /// `idf(df, N) = ln(1 + (N - df + 0.5) / (df + 0.5))`, held as its two
    /// counts so that values compare exactly.
    Idf { doc_freq: u64, doc_count: u64 },
}

/// The numerator of `2 * (N - df + 0.5) / (2 * (df + 0.5))`, the argument of
/// `ln(1 + _)` in `idf(df, N)`.
pub open spec fn idf_numerator(df: int, n: int) -> int {
    2 * (n - df) + 1
}

/// The denominator of the argument of `ln(1 + _)` in `idf(df, N)`.
pub open spec fn idf_denominator(df: int) -> int {
    2 * df + 1
}

/// Whether `a` is strictly more selective than `b`. Since `ln(1 + x)` grows
/// with `x`, two inverse document frequencies compare as their arguments do.
pub open spec fn outranks(a: Selectivity, b: Selectivity) -> bool {
    match a {
        Selectivity::Unconstrained => false,
        Selectivity::Idf { doc_freq: da, doc_count: na } => match b {
            Selectivity::Unconstrained => true,
            Selectivity::Idf { doc_freq: db, doc_count: nb } => idf_numerator(da as int, na as int)
                * idf_denominator(db as int) > idf_numerator(db as int, nb as int)
                * idf_denominator(da as int),
        },
    }
}

/// The inverse document frequency does not grow with the document frequency
/// and is never negative: for `df1 <= df2 <= N`, the argument `x` of
/// `ln(1 + x)` is at least as large for `df1` as for `df2`, and it is
/// positive, so that `ln(1 + x) >= 0`.
pub proof fn lemma_idf_monotone(df1: u64, df2: u64, n: u64)
    requires
        df1 <= df2 <= n,
    ensures
        idf_numerator(df2 as int, n as int) * idf_denominator(df1 as int) <= idf_numerator(
            df1 as int,
            n as int,
        ) * idf_denominator(df2 as int),
        idf_numerator(df2 as int, n as int) > 0,
        idf_denominator(df2 as int) > 0,
        !outranks(
            Selectivity::Idf { doc_freq: df2, doc_count: n },
            Selectivity::Idf { doc_freq: df1, doc_count: n },
        ),
{
    let a = df1 as int;
    let b = df2 as int;
    let m = n as int;
    assert((2 * (m - b) + 1) * (2 * a + 1) <= (2 * (m - a) + 1) * (2 * b + 1)) by (nonlinear_arith)
        requires
            0 <= a <= b <= m,
    ;
}

/// With one document count, the rarer term is the more selective one.
proof fn lemma_outranks_same_count(da: u64, db: u64, n: u64)
    ensures
        outranks(
            Selectivity::Idf { doc_freq: da, doc_count: n },
            Selectivity::Idf { doc_freq: db, doc_count: n },
        ) == (da < db),
{
    let a = da as int;
    let b = db as int;
    let m = n as int;
    assert((2 * (m - a) + 1) * (2 * b + 1) - (2 * (m - b) + 1) * (2 * a + 1) == 4 * (m + 1) * (b
        - a)) by (nonlinear_arith);
    assert((4 * (m + 1) * (b - a) > 0) == (a < b)) by (nonlinear_arith)
        requires
            m >= 0,
    ;
}

/// Whether `a` is strictly more selective than `b`, for values of one
/// document count.
pub fn outranks_exec(a: Selectivity, b: Selectivity) -> (r: bool)
    requires
        a is Idf && b is Idf ==> a->doc_count == b->doc_count,
    ensures
        r == outranks(a, b),
{
    match a {
        Selectivity::Unconstrained => false,
        Selectivity::Idf { doc_freq: da, doc_count: n } => match b {
            Selectivity::Unconstrained => true,
            Selectivity::Idf { doc_freq: db, doc_count: _ } => {
                proof {
                    lemma_outranks_same_count(da, db, n);
                }
                da < db
            },
        },
    }
}

/// How often a term was seen.
pub open spec fn doc_freq_in(freqs: Map<TermModel, u64>, t: TermModel) -> u64 {
    if freqs.contains_key(t) {
        freqs[t]
    } else {
        0
    }
}

/// A counter that stops at its maximum.
pub open spec fn bumped(x: u64) -> u64 {
    if x < u64::MAX {
        (x + 1) as u64
    } else {
        x
    }
}

/// The selectivity of a tree under the given statistics: a term's inverse
/// document frequency, the most selective child of a conjunction, the least
/// selective child of a disjunction, and `Unconstrained` for `AnyTerm`. An
/// empty conjunction is `Unconstrained`; an empty disjunction, which no
/// document satisfies, is as selective as a term never seen. `None` when a
/// term was seen more often than there are documents.
pub open spec fn score_of(t: TreeModel, freqs: Map<TermModel, u64>, n: u64) -> Option<Selectivity>
    decreases t,
{
    match t {
        TreeModel::Term(term) => {
            if doc_freq_in(freqs, term) <= n {
                Some(Selectivity::Idf { doc_freq: doc_freq_in(freqs, term), doc_count: n })
            } else {
                None
            }
        },
        TreeModel::AnyTerm => Some(Selectivity::Unconstrained),
        TreeModel::Conjunction(ts) => max_score_of(ts, freqs, n),
        TreeModel::Disjunction(ts) => min_score_of(ts, freqs, n),
    }
}

pub open spec fn max_score_of(ts: Seq<TreeModel>, freqs: Map<TermModel, u64>, n: u64) -> Option<
    Selectivity,
>
    decreases ts,
{
    if ts.len() == 0 {
        Some(Selectivity::Unconstrained)
    } else {
        match max_score_of(ts.drop_last(), freqs, n) {
            None => None,
            Some(a) => match score_of(ts.last(), freqs, n) {
                None => None,
                Some(b) => Some(
                    if outranks(b, a) {
                        b
                    } else {
                        a
                    },
                ),
            },
        }
    }
}

pub open spec fn min_score_of(ts: Seq<TreeModel>, freqs: Map<TermModel, u64>, n: u64) -> Option<
    Selectivity,
>
    decreases ts,
{
    if ts.len() == 0 {
        Some(Selectivity::Idf { doc_freq: 0, doc_count: n })
    } else {
        match min_score_of(ts.drop_last(), freqs, n) {
            None => None,
            Some(a) => match score_of(ts.last(), freqs, n) {
                None => None,
                Some(b) => Some(
                    if outranks(a, b) {
                        b
                    } else {
                        a
                    },
                ),
            },
        }
    }
}

/// A source of corpus statistics, with the sink that keeps them: how many
/// documents were seen and how often each term was. Each document and each
/// term occurrence handed to the sink is counted once, and trees are scored
/// under the statistics that the source reports.
pub trait PresearcherScorer {
    /// How often each term was seen.
    spec fn frequencies(&self) -> Map<TermModel, u64>;

    /// How many documents were seen.
    spec fn doc_count(&self) -> u64;

    /// The selectivity of a tree under the statistics reported so far; an
    /// `InternalError` when a term was seen more often than there are
    /// documents.
    fn score(&self, tree: &QueryDocumentTree) -> (r: Result<Selectivity, MonitorError>)
        ensures
            match score_of(tree@, self.frequencies(), self.doc_count()) {
                Some(s) => r == Ok::<Selectivity, MonitorError>(s),
                None => r == Err::<Selectivity, MonitorError>(MonitorError::InternalError),
            },
            r matches Ok(Selectivity::Idf { doc_freq: _, doc_count: c }) ==> c == self.doc_count(),
    ;

    /// Counts one more occurrence of `term`.
    fn add_term(&mut self, term: Term)
        ensures
            final(self).doc_count() == old(self).doc_count(),
            final(self).frequencies() == old(self).frequencies().insert(
                term@,
                bumped(doc_freq_in(old(self).frequencies(), term@)),
            ),
    ;

    /// Counts one more document.
    fn add_document_count(&mut self)
        ensures
            final(self).doc_count() == bumped(old(self).doc_count()),
            final(self).frequencies() == old(self).frequencies(),
    ;
}

/// Corpus statistics: how many documents and tokens were seen, and how often
/// each term was.
pub struct TfIdfScorer {
    token_count: u64,
    document_count: u64,
    term_frequencies: CountMap,
}

impl TfIdfScorer {
    pub closed spec fn token_count(&self) -> u64 {
        self.token_count
    }

    pub fn new() -> (r: TfIdfScorer)
        ensures
            r.doc_count() == 0,
            r.token_count() == 0,
            r.frequencies() == Map::<TermModel, u64>::empty(),
    {
        let r = TfIdfScorer { token_count: 0, document_count: 0, term_frequencies: new_count_map() };
        proof {
            r.frequencies().dom().lemma_len0_is_empty();
            assert(r.frequencies() =~= Map::<TermModel, u64>::empty());
        }
        r
    }

    pub fn total_num_docs(&self) -> (r: u64)
        ensures
            r == self.doc_count(),
    {
        self.document_count
    }

    pub fn total_num_tokens(&self) -> (r: u64)
        ensures
            r == self.token_count(),
    {
        self.token_count
    }

    pub fn doc_freq(&self, term: &Term) -> (r: u64)
        ensures
            r == doc_freq_in(self.frequencies(), term@),
    {
        let key = (term.field, term.text.clone());
        match count_get(&self.term_frequencies, &key) {
            Some(c) => c,
            None => 0,
        }
    }
}

impl PresearcherScorer for TfIdfScorer {
    closed spec fn frequencies(&self) -> Map<TermModel, u64> {
        count_entries(self.term_frequencies)
    }

    closed spec fn doc_count(&self) -> u64 {
        self.document_count
    }

    fn add_document_count(&mut self)
        ensures
            final(self).token_count() == old(self).token_count(),
    {
        if self.document_count < u64::MAX {
            self.document_count = self.document_count + 1;
        }
    }

    fn add_term(&mut self, term: Term)
        ensures
            final(self).token_count() == bumped(old(self).token_count()),
    {
        if self.token_count < u64::MAX {
            self.token_count = self.token_count + 1;
        }
        let key = (term.field, term.text);
        let current = match count_get(&self.term_frequencies, &key) {
            Some(c) => c,
            None => 0,
        };
        let next = if current < u64::MAX {
            current + 1
        } else {
            current
        };
        count_insert(&mut self.term_frequencies, key, next);
    }

    fn score(&self, tree: &QueryDocumentTree) -> (r: Result<Selectivity, MonitorError>)
        decreases *tree,
    {
        let n = self.document_count;
        match tree {
            QueryDocumentTree::Term(term) => {
                let df = self.doc_freq(term);
                if df <= n {
                    Ok(Selectivity::Idf { doc_freq: df, doc_count: n })
                } else {
                    Err(MonitorError::InternalError)
                }
            },
            QueryDocumentTree::AnyTerm => Ok(Selectivity::Unconstrained),
            QueryDocumentTree::Conjunction(ts) | QueryDocumentTree::Disjunction(ts) => {
                let is_conjunction = match tree {
                    QueryDocumentTree::Conjunction(_) => true,
                    _ => false,
                };
                let ghost m = trees_view(ts@);
                proof {
                    lemma_trees_view(ts@);
                }
                let mut acc: Option<Selectivity> = if is_conjunction {
                    Some(Selectivity::Unconstrained)
                } else {
                    Some(Selectivity::Idf { doc_freq: 0, doc_count: n })
                };
                let mut i: usize = 0;
                while i < ts.len()
                    invariant
                        i <= ts@.len(),
                        n == self.doc_count(),
                        is_conjunction == (*tree is Conjunction),
                        *tree == QueryDocumentTree::Conjunction(*ts) || *tree
                            == QueryDocumentTree::Disjunction(*ts),
                        m == trees_view(ts@),
                        m.len() == ts@.len(),
                        forall|k: int| 0 <= k < ts@.len() ==> #[trigger] m[k] == ts@[k]@,
                        acc == (if is_conjunction {
                            max_score_of(m.subrange(0, i as int), self.frequencies(), n)
                        } else {
                            min_score_of(m.subrange(0, i as int), self.frequencies(), n)
                        }),
                        acc matches Some(Selectivity::Idf { doc_freq: _, doc_count: c }) ==> c
                            == n,
                    decreases ts@.len() - i,
                {
                    proof {
                        if is_conjunction {
                            assert(decreases_to!(*tree => tree->Conjunction_0));
                        } else {
                            assert(decreases_to!(*tree => tree->Disjunction_0));
                        }
                        assert(decreases_to!(ts => ts[i as int]));
                        assert(m.subrange(0, i + 1).drop_last() =~= m.subrange(0, i as int));
                    }
                    let child = self.score(&ts[i]);
                    acc = match (acc, child) {
                        (Some(a), Ok(b)) => {
                            if is_conjunction {
                                Some(
                                    if outranks_exec(b, a) {
                                        b
                                    } else {
                                        a
                                    },
                                )
                            } else {
                                Some(
                                    if outranks_exec(a, b) {
                                        b
                                    } else {
                                        a
                                    },
                                )
                            }
                        },
                        _ => None,
                    };
                    i = i + 1;
                }
                assert(m.subrange(0, m.len() as int) =~= m);
                match acc {
                    Some(s) => Ok(s),
                    None => Err(MonitorError::InternalError),
                }
            },
        }
    }
}

} // verus!
