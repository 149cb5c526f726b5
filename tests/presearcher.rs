use blinker::analysis::analyze_document;
use blinker::presearcher::{CandidateQuery, SelectedTerms, SyntheticQueryDoc, TermFilteredPresearcher};
use blinker::query::{Occur, Query, QueryDocumentTree, Term};
use blinker::schema::{Document, MonitorQuerySchemaBuilder, Schema};
use blinker::scorer::{PresearcherScorer, TfIdfScorer};

fn add_document(body: u32, value: &str, scorer: &mut TfIdfScorer) {
    scorer.add_document_count();
    for text in value.split_whitespace() {
        scorer.add_term(Term::new(body, text.to_string()));
    }
}

fn body_schema() -> (Schema, u32) {
    let mut schema = Schema::new();
    let body = schema.add_text_field("body".to_string(), Some("default".to_string()));
    (schema, body)
}

fn presearcher_with(body: u32, texts: &[&str]) -> TermFilteredPresearcher<TfIdfScorer> {
    let mut presearcher = TermFilteredPresearcher::new(TfIdfScorer::new());
    for text in texts {
        add_document(body, text, &mut presearcher.scorer);
    }
    presearcher
}

fn term_tree(body: u32, text: &str) -> QueryDocumentTree {
    QueryDocumentTree::Term(Term::new(body, text.to_string()))
}

fn contains(selected: &SelectedTerms, body: u32, text: &str) -> bool {
    selected.terms.iter().any(|t| t.field == body && t.text == text)
}

fn empty_selection() -> SelectedTerms {
    SelectedTerms { terms: Vec::new(), any_term: false }
}

fn check_term_to_field_terms() {
    let (_, body) = body_schema();
    let presearcher = presearcher_with(body, &["This is the first document"]);
    let mut selected = empty_selection();
    let _ = presearcher.to_field_terms(&term_tree(body, "document"), &mut selected);
    assert!(contains(&selected, body, "document"));
}

fn check_disjunction_to_field_terms() {
    let (_, body) = body_schema();
    let presearcher = presearcher_with(body, &["This is the first document"]);
    let mut selected = empty_selection();
    let disjunction = QueryDocumentTree::Disjunction(vec![
        term_tree(0, "document"),
        term_tree(0, "first"),
        term_tree(0, "fourth"),
    ]);
    let _ = presearcher.to_field_terms(&disjunction, &mut selected);
    assert!(contains(&selected, 0, "document"));
    assert!(contains(&selected, 0, "first"));
    assert!(contains(&selected, 0, "fourth"));
}

fn check_conjunction_to_field_terms() {
    let (_, body) = body_schema();
    let presearcher = presearcher_with(body, &["This is the first document"]);
    let mut selected = empty_selection();
    let conjunction = QueryDocumentTree::Conjunction(vec![
        term_tree(body, "document"),
        term_tree(body, "first"),
        term_tree(body, "fourth"),
    ]);
    let _ = presearcher.to_field_terms(&conjunction, &mut selected);
    assert!(!contains(&selected, body, "document"));
    assert!(!contains(&selected, body, "first"));
    assert!(contains(&selected, body, "fourth"));
}

#[test]
fn presearcher_test_term_to_field_terms() {
    check_term_to_field_terms();
}

#[test]
fn presearcher_test_disjunction_to_field_terms() {
    check_disjunction_to_field_terms();
}

#[test]
fn presearcher_test_conjunction_to_field_terms() {
    check_conjunction_to_field_terms();
}

#[test]
fn term_filtered_presearcher_test_term_to_field_terms() {
    check_term_to_field_terms();
}

#[test]
fn term_filtered_presearcher_test_disjunction_to_field_terms() {
    check_disjunction_to_field_terms();
}

#[test]
fn term_filtered_presearcher_test_conjunction_to_field_terms() {
    check_conjunction_to_field_terms();
}

#[test]
fn any_term_marks_the_document() {
    let (schema, _) = body_schema();
    let query_schema = MonitorQuerySchemaBuilder::build(schema);
    let presearcher = TermFilteredPresearcher::new(TfIdfScorer::new());
    let doc = presearcher.convert_query_to_document(&Query::All, &query_schema).unwrap();
    assert!(doc.any_term);
    assert!(doc.terms.is_empty());
}

#[test]
fn empty_selection_is_marked() {
    let (schema, _) = body_schema();
    let query_schema = MonitorQuerySchemaBuilder::build(schema);
    let presearcher = TermFilteredPresearcher::new(TfIdfScorer::new());
    let doc = presearcher
        .convert_query_to_document(&Query::TermSet(0, vec![]), &query_schema)
        .unwrap();
    assert!(doc.any_term);
}

#[test]
fn terms_of_non_text_fields_are_dropped() {
    let (schema, body) = body_schema();
    let query_schema = MonitorQuerySchemaBuilder::build(schema);
    let presearcher = TermFilteredPresearcher::new(TfIdfScorer::new());
    let query = Query::DisjunctionMax(vec![
        Query::Term(Term::new(body, "kept".to_string())),
        Query::Term(Term::new(1, "dropped".to_string())),
    ]);
    let doc = presearcher.convert_query_to_document(&query, &query_schema).unwrap();
    assert_eq!(doc.terms.len(), 1);
    assert_eq!(doc.terms[0].text, "kept");
    assert!(!doc.any_term);
}

#[test]
fn conjunction_document_holds_the_rarest_term() {
    let (schema, body) = body_schema();
    let query_schema = MonitorQuerySchemaBuilder::build(schema);
    let presearcher = presearcher_with(body, &["michael is a common name"]);
    let query = Query::Boolean(vec![
        (Occur::Must, Query::Term(Term::new(body, "michael".to_string()))),
        (Occur::Must, Query::Term(Term::new(body, "bloomberg".to_string()))),
    ]);
    let doc = presearcher.convert_query_to_document(&query, &query_schema).unwrap();
    assert_eq!(doc.terms.len(), 1);
    assert_eq!(doc.terms[0].text, "bloomberg");
    assert_eq!(doc.query_id, 0);
}

#[test]
fn document_becomes_its_lowercased_tokens() {
    let (schema, body) = body_schema();
    let mut document = Document::new();
    document.add_text(body, "Michael BLOOMBERG, mayor".to_string());
    let terms = analyze_document(&document, &schema).unwrap();
    let texts: Vec<&str> = terms.iter().map(|t| t.text.as_str()).collect();
    assert_eq!(texts, vec!["michael", "bloomberg", "mayor"]);
    assert!(terms.iter().all(|t| t.field == body));
}

#[test]
fn document_query_counts_statistics() {
    let (schema, body) = body_schema();
    let query_schema = MonitorQuerySchemaBuilder::build(schema);
    let mut presearcher = TermFilteredPresearcher::new(TfIdfScorer::new());
    let mut document = Document::new();
    document.add_text(body, "to be or not to be".to_string());
    let query = presearcher.convert_document_to_query(&document, &query_schema).unwrap();
    assert_eq!(query.terms.len(), 6);
    assert_eq!(presearcher.scorer.total_num_docs(), 1);
    assert_eq!(presearcher.scorer.total_num_tokens(), 6);
    assert_eq!(presearcher.scorer.doc_freq(&Term::new(body, "be".to_string())), 2);
    assert_eq!(presearcher.scorer.doc_freq(&Term::new(body, "or".to_string())), 1);
}

#[test]
fn candidate_query_selects_shared_terms_and_any_term() {
    let query = CandidateQuery { terms: vec![Term::new(0, "a".to_string())] };
    let hit = SyntheticQueryDoc { query_id: 1, terms: vec![Term::new(0, "a".to_string())], any_term: false };
    let miss = SyntheticQueryDoc { query_id: 2, terms: vec![Term::new(0, "b".to_string())], any_term: false };
    let any = SyntheticQueryDoc { query_id: 3, terms: vec![], any_term: true };
    assert!(query.selects(&hit));
    assert!(!query.selects(&miss));
    assert!(query.selects(&any));
}

#[test]
fn schema_builder_appends_reserved_fields() {
    let (schema, _) = body_schema();
    let query_schema = MonitorQuerySchemaBuilder::build(schema);
    assert_eq!(query_schema.fields.len(), 3);
    assert_eq!(query_schema.get_field("body"), Some(0));
    assert_eq!(query_schema.get_field("__monitor_query_id__"), Some(1));
    assert_eq!(query_schema.get_field("__anytermfield__"), Some(2));
    assert_eq!(query_schema.get_field("missing"), None);
}

#[test]
fn failing_document_still_counts_what_was_read() {
    let mut schema = Schema::new();
    let body = schema.add_text_field("body".to_string(), Some("default".to_string()));
    let notes = schema.add_text_field("notes".to_string(), None);
    let query_schema = MonitorQuerySchemaBuilder::build(schema);
    let mut presearcher = TermFilteredPresearcher::new(TfIdfScorer::new());
    let mut document = Document::new();
    document.add_text(body, "alpha beta".to_string());
    document.add_text(notes, "ignored".to_string());
    document.add_text(body, "gamma".to_string());
    assert!(presearcher.convert_document_to_query(&document, &query_schema).is_err());
    assert_eq!(presearcher.scorer.total_num_docs(), 1);
    assert_eq!(presearcher.scorer.total_num_tokens(), 2);
    assert_eq!(presearcher.scorer.doc_freq(&Term::new(body, "alpha".to_string())), 1);
    assert_eq!(presearcher.scorer.doc_freq(&Term::new(body, "gamma".to_string())), 0);
}

#[test]
fn empty_document_counts_one_document_and_no_term() {
    let (schema, _) = body_schema();
    let query_schema = MonitorQuerySchemaBuilder::build(schema);
    let mut presearcher = TermFilteredPresearcher::new(TfIdfScorer::new());
    let query = presearcher.convert_document_to_query(&Document::new(), &query_schema).unwrap();
    assert!(query.terms.is_empty());
    assert_eq!(presearcher.scorer.total_num_docs(), 1);
    assert_eq!(presearcher.scorer.total_num_tokens(), 0);
}
