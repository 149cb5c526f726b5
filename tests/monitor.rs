use std::collections::HashSet;

use blinker::monitor::{Monitor, MonitorQuery, PresearcherMetrics};
use blinker::presearcher::TermFilteredPresearcher;
use blinker::query::{Occur, Query, Term};
use blinker::schema::{Document, MonitorError, Schema};
use blinker::scorer::TfIdfScorer;

fn body_schema() -> (Schema, u32) {
    let mut schema = Schema::new();
    let body = schema.add_text_field("body".to_string(), Some("default".to_string()));
    (schema, body)
}

fn term(field: u32, text: &str) -> Query {
    Query::Term(Term::new(field, text.to_string()))
}

fn body_doc(body: u32, text: &str) -> Document {
    let mut document = Document::new();
    document.add_text(body, text.to_string());
    document
}

fn metrics(total: usize, prospective: usize, actual: usize) -> PresearcherMetrics {
    PresearcherMetrics {
        total_queries: total,
        prospective_queries: prospective,
        actual_matches: actual,
    }
}

fn new_monitor() -> (Monitor<TfIdfScorer>, u32) {
    let (schema, body) = body_schema();
    (Monitor::new(schema, TermFilteredPresearcher::new(TfIdfScorer::new())), body)
}

#[test]
fn monitor_test_monitor_basic() {
    let (mut monitor, body) = new_monitor();
    let id = 0;
    monitor
        .register_query(MonitorQuery::new(id, term(body, "bloomberg")))
        .expect("Should not error registering query");

    let (matches, _) = monitor
        .match_document(body_doc(body, "Michael Bloomberg"))
        .expect("Should not error matching document");
    assert!(matches.contains(&id));

    let (no_matches, _) = monitor
        .match_document(body_doc(body, "Michael"))
        .expect("Should not error matching document");
    assert!(no_matches.is_empty());
}

#[test]
fn monitor_test_monitor_boolean_query() {
    let (mut monitor, body) = new_monitor();
    let id = 0;
    let query = Query::Boolean(vec![
        (Occur::Should, term(body, "trump")),
        (Occur::Must, term(body, "bloomberg")),
    ]);
    monitor
        .register_query(MonitorQuery::new(id, query))
        .expect("should not error registering query");

    let (matches, _) = monitor
        .match_document(body_doc(body, "Michael Bloomberg"))
        .expect("should not error matching document");
    assert!(matches.contains(&id));
}

#[test]
fn mod_test_monitor_basic() {
    let (mut monitor, body) = new_monitor();
    monitor
        .register_query(MonitorQuery::new(0, term(body, "bloomberg")))
        .expect("Should not error registering query");

    let (matches, m) = monitor
        .match_document(body_doc(body, "Michael Bloomberg"))
        .expect("Should not error matching document");
    assert_eq!(matches, HashSet::from_iter([0]));
    assert_eq!(m, metrics(1, 1, 1));

    let (matches, m) = monitor
        .match_document(body_doc(body, "Michael Bay"))
        .expect("Should not error matching document");
    assert!(matches.is_empty());
    assert_eq!(m, metrics(1, 0, 0));
}

#[test]
fn mod_test_monitor_boolean_query() {
    let (mut monitor, body) = new_monitor();
    let query = Query::Boolean(vec![
        (Occur::Should, term(body, "trump")),
        (Occur::Should, term(body, "bloomberg")),
    ]);
    monitor
        .register_query(MonitorQuery::new(0, query))
        .expect("should not error registering query");

    for text in ["Michael Bloomberg", "Donald Trump", "Bloomberg Trump"] {
        let (matches, m) = monitor
            .match_document(body_doc(body, text))
            .expect("should not error matching document");
        assert_eq!(matches, HashSet::from_iter([0]));
        assert_eq!(m, metrics(1, 1, 1));
    }

    let (matches, m) = monitor
        .match_document(body_doc(body, "Rishi Sunak"))
        .expect("should not error matching document");
    assert!(matches.is_empty());
    assert_eq!(m, metrics(1, 0, 0));
}

#[test]
fn test_monitor_multiple_queries() {
    let (mut monitor, body) = new_monitor();
    let _ = monitor
        .match_document(body_doc(body, "Michael is a common name"))
        .expect("Should not error matching document");

    let both = |other: &str| {
        Query::Boolean(vec![
            (Occur::Must, term(body, "michael")),
            (Occur::Must, term(body, other)),
        ])
    };

    monitor
        .register_query(MonitorQuery::new(0, both("bloomberg")))
        .expect("Should not error registering query");

    let (matches, m) = monitor
        .match_document(body_doc(body, "Michael is a common name"))
        .expect("Should not error matching document");
    assert!(matches.is_empty());
    assert_eq!(m, metrics(1, 0, 0));

    monitor
        .register_query(MonitorQuery::new(1, both("bay")))
        .expect("Should not error registering query");
    monitor
        .register_query(MonitorQuery::new(2, both("jackson")))
        .expect("Should not error registering query");

    let (matches, m) = monitor
        .match_document(body_doc(
            body,
            "Michael Bloomberg runs for mayor of New York",
        ))
        .expect("Should not error matching document");
    assert_eq!(matches, HashSet::from_iter([0]));
    assert_eq!(m, metrics(3, 1, 1));
}

#[test]
fn exclusion_decides_the_match() {
    let (mut monitor, body) = new_monitor();
    let query = Query::Boolean(vec![
        (Occur::Must, term(body, "diary")),
        (Occur::MustNot, term(body, "girl")),
    ]);
    monitor.register_query(MonitorQuery::new(0, query)).unwrap();

    let (matches, _) = monitor.match_document(body_doc(body, "diary of a boy")).unwrap();
    assert_eq!(matches, HashSet::from_iter([0]));
    let (matches, _) = monitor.match_document(body_doc(body, "diary of a girl")).unwrap();
    assert!(matches.is_empty());
}

#[test]
fn boosted_disjunct_matches() {
    let (mut monitor, body) = new_monitor();
    let two = 2.0f32.to_bits();
    let query = Query::Boolean(vec![
        (Occur::Should, Query::Boost(Box::new(term(body, "barack")), two)),
        (Occur::Should, term(body, "biden")),
    ]);
    monitor.register_query(MonitorQuery::new(0, query)).unwrap();

    let (matches, _) = monitor.match_document(body_doc(body, "barack")).unwrap();
    assert_eq!(matches, HashSet::from_iter([0]));
    let (matches, _) = monitor.match_document(body_doc(body, "biden")).unwrap();
    assert_eq!(matches, HashSet::from_iter([0]));
}

#[test]
fn many_single_term_queries_match_only_their_terms() {
    let (mut monitor, body) = new_monitor();
    let count: u64 = 10_000;
    for id in 0..count {
        monitor
            .register_query(MonitorQuery::new(id, term(body, &format!("w{id}"))))
            .unwrap();
    }
    for worker in 0..8u64 {
        let ids: Vec<u64> = (0..5).map(|k| worker * 1000 + k * 7).collect();
        let text = ids.iter().map(|id| format!("w{id}")).collect::<Vec<_>>().join(" ");
        let (matches, m) = monitor.match_document(body_doc(body, &text)).unwrap();
        assert_eq!(matches, ids.iter().copied().collect::<HashSet<u64>>());
        assert_eq!(m, metrics(10_000, 5, 5));
    }
}

#[test]
fn metrics_are_ordered() {
    let (mut monitor, body) = new_monitor();
    monitor
        .register_query(MonitorQuery::new(
            0,
            Query::Boolean(vec![
                (Occur::Must, term(body, "apple")),
                (Occur::MustNot, term(body, "green")),
            ]),
        ))
        .unwrap();
    monitor.register_query(MonitorQuery::new(1, term(body, "pear"))).unwrap();
    monitor.register_query(MonitorQuery::new(2, term(body, "plum"))).unwrap();

    let (matches, m) = monitor.match_document(body_doc(body, "green apple and pear")).unwrap();
    assert_eq!(matches, HashSet::from_iter([1]));
    assert_eq!(m, metrics(3, 2, 1));
    assert!(m.actual_matches <= m.prospective_queries);
    assert!(m.prospective_queries <= m.total_queries);
}

#[test]
fn registering_twice_matches_as_once() {
    let (mut once, body) = new_monitor();
    let (mut twice, _) = new_monitor();
    let query = || {
        Query::Boolean(vec![
            (Occur::Should, term(body, "alpha")),
            (Occur::Should, term(body, "beta")),
        ])
    };
    once.register_query(MonitorQuery::new(7, query())).unwrap();
    twice.register_query(MonitorQuery::new(7, query())).unwrap();
    twice.register_query(MonitorQuery::new(7, query())).unwrap();

    for text in ["alpha", "beta gamma", "gamma"] {
        let (a, ma) = once.match_document(body_doc(body, text)).unwrap();
        let (b, mb) = twice.match_document(body_doc(body, text)).unwrap();
        assert_eq!(a, b);
        assert_eq!(ma, mb);
    }
}

#[test]
fn reregistration_replaces_the_query() {
    let (mut monitor, body) = new_monitor();
    monitor.register_query(MonitorQuery::new(3, term(body, "old"))).unwrap();
    monitor.register_query(MonitorQuery::new(3, term(body, "new"))).unwrap();
    let (matches, m) = monitor.match_document(body_doc(body, "old")).unwrap();
    assert!(matches.is_empty());
    assert_eq!(m.total_queries, 1);
    let (matches, _) = monitor.match_document(body_doc(body, "new")).unwrap();
    assert_eq!(matches, HashSet::from_iter([3]));
}

#[test]
fn empty_document_has_no_candidates() {
    let (mut monitor, body) = new_monitor();
    monitor.register_query(MonitorQuery::new(0, term(body, "a"))).unwrap();
    monitor.register_query(MonitorQuery::new(1, term(body, "b"))).unwrap();
    let (matches, m) = monitor.match_document(Document::new()).unwrap();
    assert!(matches.is_empty());
    assert_eq!(m, metrics(2, 0, 0));
}

#[test]
fn match_all_is_always_a_candidate() {
    let (mut monitor, body) = new_monitor();
    monitor.register_query(MonitorQuery::new(5, Query::All)).unwrap();
    let (matches, m) = monitor.match_document(body_doc(body, "anything")).unwrap();
    assert_eq!(matches, HashSet::from_iter([5]));
    assert_eq!(m, metrics(1, 1, 1));
}

#[test]
fn exclusions_alone_never_match() {
    let (mut monitor, body) = new_monitor();
    let query = Query::Boolean(vec![(Occur::MustNot, term(body, "x"))]);
    monitor.register_query(MonitorQuery::new(0, query)).unwrap();
    let (matches, m) = monitor.match_document(body_doc(body, "y z")).unwrap();
    assert!(matches.is_empty());
    assert_eq!(m, metrics(1, 0, 0));
}

#[test]
fn term_set_matches_any_value() {
    let (mut monitor, body) = new_monitor();
    let query = Query::TermSet(body, vec!["cat".to_string(), "dog".to_string()]);
    monitor.register_query(MonitorQuery::new(0, query)).unwrap();
    let (matches, _) = monitor.match_document(body_doc(body, "a Dog barks")).unwrap();
    assert_eq!(matches, HashSet::from_iter([0]));
    let (matches, _) = monitor.match_document(body_doc(body, "a bird sings")).unwrap();
    assert!(matches.is_empty());
}

#[test]
fn non_string_text_value_is_invalid() {
    let (mut monitor, body) = new_monitor();
    let mut document = Document::new();
    document.add_u64(body, 3);
    assert_eq!(monitor.match_document(document).unwrap_err(), MonitorError::InvalidArgument);
}

#[test]
fn unindexed_text_field_is_invalid() {
    let mut schema = Schema::new();
    let notes = schema.add_text_field("notes".to_string(), None);
    let mut monitor = Monitor::new(schema, TermFilteredPresearcher::new(TfIdfScorer::new()));
    let result = monitor.match_document(body_doc(notes, "hello"));
    assert_eq!(result.unwrap_err(), MonitorError::InvalidArgument);
}

#[test]
fn unknown_tokenizer_is_invalid() {
    let mut schema = Schema::new();
    let title = schema.add_text_field("title".to_string(), Some("klingon".to_string()));
    let mut monitor = Monitor::new(schema, TermFilteredPresearcher::new(TfIdfScorer::new()));
    let result = monitor.match_document(body_doc(title, "hello"));
    assert_eq!(result.unwrap_err(), MonitorError::InvalidArgument);
}

#[test]
fn unknown_field_is_a_schema_error() {
    let (mut monitor, _) = new_monitor();
    let result = monitor.match_document(body_doc(9, "hello"));
    assert_eq!(result.unwrap_err(), MonitorError::SchemaError);
}

#[test]
fn overcounted_term_is_an_internal_error() {
    let (mut monitor, body) = new_monitor();
    monitor.match_document(body_doc(body, "apple apple")).unwrap();
    let query = Query::Boolean(vec![
        (Occur::Must, term(body, "apple")),
        (Occur::Must, term(body, "pear")),
    ]);
    let result = monitor.register_query(MonitorQuery::new(0, query));
    assert_eq!(result.unwrap_err(), MonitorError::InternalError);
    let (_, m) = monitor.match_document(body_doc(body, "apple pear")).unwrap();
    assert_eq!(m.total_queries, 0);
}

#[test]
fn schema_is_the_document_schema() {
    let (monitor, _) = new_monitor();
    let schema = monitor.schema();
    assert_eq!(schema.fields.len(), 1);
    assert_eq!(schema.fields[0].name, "body");
}

#[test]
fn registered_queries_compare_by_id() {
    let a = MonitorQuery::new(1, Query::All);
    let b = MonitorQuery::new(1, Query::TermSet(0, vec![]));
    let c = MonitorQuery::new(2, Query::All);
    assert!(a == b);
    assert!(a != c);
}
