use blinker::query::{QueryDocumentTree, Term};
use blinker::scorer::{outranks_exec, PresearcherScorer, Selectivity, TfIdfScorer};

fn add_document(body: u32, value: &str, scorer: &mut TfIdfScorer) {
    scorer.add_document_count();
    for text in value.split_whitespace() {
        scorer.add_term(Term::new(body, text.to_string()));
    }
}

/// The inverse document frequency as a float, from the counts a selectivity
/// holds.
fn idf(s: Selectivity) -> f32 {
    match s {
        Selectivity::Idf { doc_freq, doc_count } => {
            let x = ((doc_count - doc_freq) as f32 + 0.5) / (doc_freq as f32 + 0.5);
            (1.0 + x).ln()
        }
        Selectivity::Unconstrained => -1.0,
    }
}

fn three_documents() -> (TfIdfScorer, u32) {
    let body = 0;
    let mut scorer = TfIdfScorer::new();
    add_document(body, "This is the first document", &mut scorer);
    add_document(body, "This is the second document", &mut scorer);
    add_document(body, "This is the third document", &mut scorer);
    (scorer, body)
}

fn term_tree(body: u32, text: &str) -> QueryDocumentTree {
    QueryDocumentTree::Term(Term::new(body, text.to_string()))
}

fn check_term_get_score() {
    let (scorer, body) = three_documents();
    let document_score = scorer.score(&term_tree(body, "document")).unwrap();
    let first_score = scorer.score(&term_tree(body, "first")).unwrap();
    let missing_score = scorer.score(&term_tree(body, "fourth")).unwrap();
    assert_eq!(document_score, Selectivity::Idf { doc_freq: 3, doc_count: 3 });
    assert_eq!(first_score, Selectivity::Idf { doc_freq: 1, doc_count: 3 });
    assert_eq!(missing_score, Selectivity::Idf { doc_freq: 0, doc_count: 3 });
    assert_eq!(idf(document_score), 0.13353144);
    assert_eq!(idf(first_score), 0.9808292);
    assert_eq!(idf(missing_score), 2.0794415);
}

fn check_disjunction_get_score() {
    let (scorer, body) = three_documents();
    let disjunction = QueryDocumentTree::Disjunction(vec![
        term_tree(body, "document"),
        term_tree(body, "first"),
        term_tree(body, "fourth"),
    ]);
    let score = scorer.score(&disjunction).unwrap();
    assert_eq!(idf(score), 0.13353144);
}

fn check_conjunction_get_score() {
    let (scorer, body) = three_documents();
    let conjunction = QueryDocumentTree::Conjunction(vec![
        term_tree(body, "document"),
        term_tree(body, "first"),
        term_tree(body, "fourth"),
    ]);
    let score = scorer.score(&conjunction).unwrap();
    assert_eq!(idf(score), 2.0794415);
}

#[test]
fn presearcher_test_term_get_score() {
    check_term_get_score();
}

#[test]
fn presearcher_test_disjunction_get_score() {
    check_disjunction_get_score();
}

#[test]
fn presearcher_test_conjunction_get_score() {
    check_conjunction_get_score();
}

#[test]
fn scorer_test_term_get_score() {
    check_term_get_score();
}

#[test]
fn scorer_test_disjunction_get_score() {
    check_disjunction_get_score();
}

#[test]
fn scorer_test_conjunction_get_score() {
    check_conjunction_get_score();
}

#[test]
fn any_term_is_least_selective() {
    let (scorer, body) = three_documents();
    assert_eq!(scorer.score(&QueryDocumentTree::AnyTerm).unwrap(), Selectivity::Unconstrained);
    let conjunction = QueryDocumentTree::Conjunction(vec![
        QueryDocumentTree::AnyTerm,
        term_tree(body, "document"),
    ]);
    assert_eq!(
        scorer.score(&conjunction).unwrap(),
        Selectivity::Idf { doc_freq: 3, doc_count: 3 }
    );
    let disjunction = QueryDocumentTree::Disjunction(vec![
        QueryDocumentTree::AnyTerm,
        term_tree(body, "document"),
    ]);
    assert_eq!(scorer.score(&disjunction).unwrap(), Selectivity::Unconstrained);
}

#[test]
fn idf_falls_as_frequency_rises() {
    let n = 10;
    let mut previous = f32::INFINITY;
    for df in 0..=n {
        let s = Selectivity::Idf { doc_freq: df, doc_count: n };
        let value = idf(s);
        assert!(value >= 0.0);
        assert!(value <= previous);
        previous = value;
        if df > 0 {
            let rarer = Selectivity::Idf { doc_freq: df - 1, doc_count: n };
            assert!(outranks_exec(rarer, s));
            assert!(!outranks_exec(s, rarer));
        }
    }
}

#[test]
fn frequency_above_document_count_is_an_error() {
    let mut scorer = TfIdfScorer::new();
    add_document(0, "echo echo", &mut scorer);
    assert!(scorer.score(&term_tree(0, "echo")).is_err());
}

#[test]
fn counters_count() {
    let (scorer, body) = three_documents();
    assert_eq!(scorer.total_num_docs(), 3);
    assert_eq!(scorer.total_num_tokens(), 15);
    assert_eq!(scorer.doc_freq(&Term::new(body, "This".to_string())), 3);
    assert_eq!(scorer.doc_freq(&Term::new(body, "this".to_string())), 0);
}
