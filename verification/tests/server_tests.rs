use blog_search::search::{Fields, QuerySchema};
use blog_search::server::{
    assemble_hit, plan_execute, render_error, render_response, ExecuteStep, Hit,
};

fn schema() -> QuerySchema {
    QuerySchema::new(Fields { title: 0, content: 1, date: 2, tags: 3, category: 4, url: 5 })
}

fn strings(v: &[&str]) -> Vec<String> {
    v.iter().map(|s| s.to_string()).collect()
}

#[test]
fn response_payload_is_exact_json() {
    let hit = Hit {
        url: "https://example.org/p".to_string(),
        date: "2022-09-15 23:45:08.0 +00:00:00".to_string(),
        title: "<b>Hello</b> World".to_string(),
        snippet: "say \"hi\"\n".to_string(),
        category: "tech".to_string(),
        tags: strings(&["rust", "中文"]),
    };
    let body = render_response(1, &vec![hit]);
    assert_eq!(
        body,
        "{\"count\":1,\"data\":[{\"url\":\"https://example.org/p\",\
         \"date\":\"2022-09-15 23:45:08.0 +00:00:00\",\
         \"title\":\"<b>Hello</b> World\",\
         \"snippet\":\"say \\\"hi\\\"\\n\",\
         \"category\":\"tech\",\"tags\":[\"rust\",\"中文\"]}]}"
    );
    // The payload is well-formed JSON with the expected shape.
    let v: serde_json::Value = serde_json::from_str(&body).unwrap();
    assert_eq!(v["count"], 1);
    assert_eq!(v["data"][0]["title"], "<b>Hello</b> World");
    assert_eq!(v["data"][0]["tags"][1], "中文");
}

#[test]
fn empty_response_payload() {
    assert_eq!(render_response(0, &vec![]), "{\"count\":0,\"data\":[]}");
}

#[test]
fn error_payload_matches_the_legacy_shape() {
    assert_eq!(
        render_error("It is forbidden queries that are empty."),
        "{\"err_msg\": \"It is forbidden queries that are empty.\"}\n"
    );
}

#[test]
fn only_excluding_request_is_rejected() {
    let qs = schema();
    match plan_execute(vec![1, 10], vec![], strings(&[]), strings(&["-foo"]), &qs) {
        ExecuteStep::Reject { body } => {
            assert_eq!(
                body,
                "{\"err_msg\": \"It is forbidden queries that are only `excluding`.\"}\n"
            );
        },
        ExecuteStep::Search { .. } => panic!("expected a rejection"),
    }
}

#[test]
fn empty_request_is_rejected() {
    let qs = schema();
    match plan_execute(vec![], vec![0, 0], strings(&["author:x"]), strings(&[]), &qs) {
        ExecuteStep::Reject { body } => {
            assert_eq!(body, "{\"err_msg\": \"It is forbidden queries that are empty.\"}\n");
        },
        ExecuteStep::Search { .. } => panic!("expected a rejection"),
    }
}

#[test]
fn keyword_request_plans_a_relevance_search() {
    let qs = schema();
    match plan_execute(vec![1, 10], vec![], strings(&[]), strings(&["hello"]), &qs) {
        ExecuteStep::Search { plan } => {
            assert!(!plan.sort_by_date);
            assert_eq!(plan.page.offset, 0);
            assert_eq!(plan.page.limit, 10);
            let t = plan.title_snippet.unwrap();
            assert_eq!(t.field, 0);
            assert_eq!(t.max_chars, 300);
            let c = plan.content_snippet.unwrap();
            assert_eq!(c.field, 1);
        },
        ExecuteStep::Reject { body } => panic!("unexpected rejection: {}", body),
    }
}

#[test]
fn filter_only_request_sorts_by_date() {
    let qs = schema();
    match plan_execute(vec![2, 5], vec![], strings(&["tags:rust"]), strings(&[]), &qs) {
        ExecuteStep::Search { plan } => {
            assert!(plan.sort_by_date);
            assert_eq!(plan.page.offset, 5);
            assert_eq!(plan.page.limit, 5);
        },
        ExecuteStep::Reject { body } => panic!("unexpected rejection: {}", body),
    }
}

#[test]
fn one_matching_document_renders_a_highlighted_hit() {
    // The index store found one match for {keywords:["hello"], pages:[1,10]}
    // and generated a highlighted title snippet for it.
    let qs = schema();
    let plan = match plan_execute(vec![1, 10], vec![], strings(&[]), strings(&["hello"]), &qs) {
        ExecuteStep::Search { plan } => plan,
        ExecuteStep::Reject { body } => panic!("unexpected rejection: {}", body),
    };
    assert!(!plan.sort_by_date);
    let hit = assemble_hit(
        &qs,
        "https://example.org/hello".to_string(),
        "2022-09-15 23:45:08.0 +00:00:00".to_string(),
        "tech".to_string(),
        strings(&["rust"]),
        &Some("<b>Hello</b> World".to_string()),
        "Hello World",
        &Some(String::new()),
        "Body text about rust.",
    );
    assert_eq!(hit.title, "<b>Hello</b> World");
    assert_eq!(hit.snippet, "Body text about rust.");
    let body = render_response(1, &vec![hit]);
    let v: serde_json::Value = serde_json::from_str(&body).unwrap();
    assert_eq!(v["count"], 1);
    assert!(v["data"][0]["title"].as_str().unwrap().contains("<b>Hello</b>"));
}
