use blog_search::search::{
    DateBound, Fields, Occur, PageSpec, QueryError, QuerySchema, QueryTree, SnippetSpec,
};

fn schema() -> QuerySchema {
    QuerySchema::new(Fields { title: 0, content: 1, date: 2, tags: 3, category: 4, url: 5 })
}

fn strings(v: &[&str]) -> Vec<String> {
    v.iter().map(|s| s.to_string()).collect()
}

#[test]
fn only_excluding_keywords_are_rejected() {
    let qs = schema();
    let r = qs.make_keyword_query(strings(&["-foo"]));
    assert_eq!(r.unwrap_err(), QueryError::EmptyPositiveQuery);
    assert_eq!(
        QueryError::EmptyPositiveQuery.message(),
        "It is forbidden queries that are only `excluding`."
    );
}

#[test]
fn positive_and_excluded_keywords_build_a_rejecting_branch() {
    let qs = schema();
    let r = qs.make_keyword_query(strings(&["foo", "-bar"])).unwrap();
    assert_eq!(r.len(), 1);
    match &r[0] {
        QueryTree::Bool { clauses } => {
            assert_eq!(clauses.len(), 2);
            assert_eq!(clauses[0].0, Occur::Must);
            assert_eq!(clauses[1].0, Occur::MustNot);
            // The rejecting branch holds the stripped word "bar".
            match &clauses[1].1 {
                QueryTree::Bool { clauses: nots } => {
                    assert_eq!(nots.len(), 1);
                    match &nots[0].1 {
                        QueryTree::Bool { clauses: fields } => match &fields[0].1 {
                            QueryTree::Term { text, .. } => assert_eq!(text, "bar"),
                            other => panic!("unexpected tree: {:?}", tree_kind(other)),
                        },
                        other => panic!("unexpected tree: {:?}", tree_kind(other)),
                    }
                },
                other => panic!("unexpected tree: {:?}", tree_kind(other)),
            }
        },
        other => panic!("unexpected tree: {:?}", tree_kind(other)),
    }
}

fn tree_kind(q: &QueryTree) -> &'static str {
    match q {
        QueryTree::Term { .. } => "term",
        QueryTree::Phrase { .. } => "phrase",
        QueryTree::DateRange { .. } => "range",
        QueryTree::Bool { .. } => "bool",
    }
}

#[test]
fn empty_keywords_build_nothing() {
    let qs = schema();
    let r = qs.make_keyword_query(strings(&[])).unwrap();
    assert_eq!(r.len(), 0);
    let r2 = qs.make_keyword_query(strings(&[""])).unwrap();
    assert_eq!(r2.len(), 0);
}

#[test]
fn multi_token_word_becomes_a_phrase() {
    let qs = schema();
    let r = qs.make_keyword_query(strings(&["日本語"])).unwrap();
    match &r[0] {
        QueryTree::Bool { clauses } => match &clauses[0].1 {
            QueryTree::Bool { clauses: fields } => {
                assert_eq!(fields[0].0, Occur::Should);
                match &fields[0].1 {
                    QueryTree::Phrase { field, terms } => {
                        assert_eq!(*field, 1); // content first
                        let texts: Vec<(usize, &str)> =
                            terms.iter().map(|(o, t)| (*o, t.as_str())).collect();
                        assert_eq!(texts, vec![(0, "日"), (3, "本"), (6, "語")]);
                    },
                    other => panic!("unexpected tree: {:?}", tree_kind(other)),
                }
            },
            other => panic!("unexpected tree: {:?}", tree_kind(other)),
        },
        other => panic!("unexpected tree: {:?}", tree_kind(other)),
    }
}

#[test]
fn terms_query_recognizes_tags_and_category_only() {
    let qs = schema();
    let mut box_qs: Vec<QueryTree> = Vec::new();
    qs.make_terms_query(
        strings(&["tags:RUST", "author:x", "category:Tech", "plain"]),
        &mut box_qs,
    );
    assert_eq!(box_qs.len(), 1);
    match &box_qs[0] {
        QueryTree::Bool { clauses } => {
            assert_eq!(clauses.len(), 2);
            match &clauses[0].1 {
                QueryTree::Term { field, text, .. } => {
                    assert_eq!(*field, 3);
                    assert_eq!(text, "rust"); // lower-cased for matching
                },
                other => panic!("unexpected tree: {:?}", tree_kind(other)),
            }
            match &clauses[1].1 {
                QueryTree::Term { field, text, .. } => {
                    assert_eq!(*field, 4);
                    assert_eq!(text, "tech");
                },
                other => panic!("unexpected tree: {:?}", tree_kind(other)),
            }
        },
        other => panic!("unexpected tree: {:?}", tree_kind(other)),
    }

    let mut none: Vec<QueryTree> = Vec::new();
    qs.make_terms_query(strings(&["author:x"]), &mut none);
    assert_eq!(none.len(), 0);
}

#[test]
fn date_query_omits_absent_and_unbounded_ranges() {
    let qs = schema();
    let mut box_qs: Vec<QueryTree> = Vec::new();
    qs.make_date_query(vec![], &mut box_qs);
    qs.make_date_query(vec![0, 0], &mut box_qs);
    assert_eq!(box_qs.len(), 0);
    qs.make_date_query(vec![0, 1663200000], &mut box_qs);
    assert_eq!(box_qs.len(), 1);
    match &box_qs[0] {
        QueryTree::DateRange { lower, upper } => {
            assert_eq!(*lower, DateBound::Unbounded);
            assert_eq!(*upper, DateBound::Included(1663200000));
        },
        other => panic!("unexpected tree: {:?}", tree_kind(other)),
    }
}

#[test]
fn paginate_computes_the_window() {
    let qs = schema();
    assert_eq!(qs.make_paginate(vec![]), PageSpec { offset: 0, limit: 1 });
    assert_eq!(qs.make_paginate(vec![3, 10]), PageSpec { offset: 20, limit: 10 });
    assert_eq!(qs.make_paginate_with_sort(vec![1, 5]), PageSpec { offset: 0, limit: 5 });
}

#[test]
fn snippet_value_falls_back_to_stored_prefix() {
    let qs = schema();
    let long: String = "x".repeat(200);
    assert_eq!(
        qs.make_snippet_value(&Some("<b>hit</b>".to_string()), &long),
        "<b>hit</b>"
    );
    assert_eq!(qs.make_snippet_value(&Some(String::new()), &long), "x".repeat(140));
    assert_eq!(qs.make_snippet_value(&None, "short"), "short");
}

#[test]
fn snippet_gen_caps_highlighting() {
    let qs = schema();
    let q = QueryTree::Bool { clauses: vec![] };
    let spec = qs.make_snippet_gen(&q, 0).unwrap();
    assert_eq!(spec, SnippetSpec { field: 0, max_chars: 300 });
}
