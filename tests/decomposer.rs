use blinker::list::List;
use blinker::query::{Occur, Query, Term, UNIT_BOOST_BITS};
use blinker::query_decomposer::QueryDecomposer;

fn term(text: &str) -> Query {
    Query::Term(Term::new(0, text.to_string()))
}

fn decompose(query: Query) -> Vec<Query> {
    let mut decomposer = QueryDecomposer::new(Vec::new());
    decomposer.decompose(query);
    decomposer.into_subqueries()
}

fn shown(queries: &[Query]) -> Vec<String> {
    queries.iter().map(|q| format!("{q:?}")).collect()
}

#[test]
fn exclusion_is_inherited_by_the_single_mandatory_leaf() {
    let query = Query::Boolean(vec![(Occur::Must, term("diary")), (Occur::MustNot, term("girl"))]);
    let expected = format!("{query:?}");
    let subs = decompose(query);
    assert_eq!(shown(&subs), vec![expected]);
}

#[test]
fn leaf_decomposes_to_itself() {
    for leaf in [term("x"), Query::TermSet(0, vec!["a".to_string()]), Query::All] {
        let expected = format!("{leaf:?}");
        assert_eq!(shown(&decompose(leaf)), vec![expected]);
    }
}

#[test]
fn exclusions_alone_yield_nothing() {
    let query = Query::Boolean(vec![(Occur::MustNot, term("a")), (Occur::MustNot, term("b"))]);
    assert!(decompose(query).is_empty());
}

#[test]
fn unit_boost_is_transparent() {
    let inner = || Query::Boolean(vec![(Occur::Should, term("a")), (Occur::Should, term("b"))]);
    let boosted = Query::Boost(Box::new(inner()), UNIT_BOOST_BITS);
    assert_eq!(shown(&decompose(boosted)), shown(&decompose(inner())));
    assert_eq!(UNIT_BOOST_BITS, 1.0f32.to_bits());
}

#[test]
fn other_boost_wraps_each_subquery() {
    let two = 2.0f32.to_bits();
    let query = Query::Boost(
        Box::new(Query::DisjunctionMax(vec![term("a"), term("b")])),
        two,
    );
    let subs = decompose(query);
    assert_eq!(
        shown(&subs),
        vec![
            format!("{:?}", Query::Boost(Box::new(term("a")), two)),
            format!("{:?}", Query::Boost(Box::new(term("b")), two)),
        ]
    );
}

#[test]
fn should_clauses_become_separate_subqueries() {
    let query = Query::Boolean(vec![(Occur::Should, term("trump")), (Occur::Should, term("bloomberg"))]);
    assert_eq!(shown(&decompose(query)), shown(&[term("trump"), term("bloomberg")]));
}

#[test]
fn several_mandatory_clauses_stay_whole() {
    let query = || Query::Boolean(vec![(Occur::Must, term("a")), (Occur::Must, term("b"))]);
    assert_eq!(shown(&decompose(query())), shown(&[query()]));
}

#[test]
fn mandatory_beside_should_output_stays_whole_after_it() {
    let query = || Query::Boolean(vec![(Occur::Should, term("s")), (Occur::Must, term("m"))]);
    assert_eq!(shown(&decompose(query())), shown(&[term("s"), query()]));
}

#[test]
fn exclusions_wrap_should_output() {
    let query = Query::Boolean(vec![
        (Occur::Should, term("a")),
        (Occur::Should, term("b")),
        (Occur::MustNot, term("c")),
    ]);
    let wrap = |t: &str| Query::Boolean(vec![(Occur::Must, term(t)), (Occur::MustNot, term("c"))]);
    assert_eq!(shown(&decompose(query)), shown(&[wrap("a"), wrap("b")]));
}

#[test]
fn earlier_subqueries_are_kept() {
    let mut decomposer = QueryDecomposer::new(vec![term("kept")]);
    decomposer.decompose(Query::DisjunctionMax(vec![term("a"), term("b")]));
    assert_eq!(shown(&decomposer.into_subqueries()), shown(&[term("kept"), term("a"), term("b")]));
}

#[test]
fn list_scopes_see_their_own_items() {
    let mut list = List::new(vec![1, 2]);
    assert_eq!(list.len(), 2);
    let outer = list.saved();
    assert!(list.is_empty());
    list.push(3);
    list.push(4);
    list.push(5);
    assert_eq!(list.len(), 3);
    assert_eq!(*list.get(0), 3);
    list.map_in_place(|x| x * 10);
    let drained = list.drain(1, 2);
    assert_eq!(drained, vec![40]);
    list.restore(outer);
    assert_eq!(list.len(), 4);
    assert_eq!(list.into_vec(), vec![1, 2, 30, 50]);
}
