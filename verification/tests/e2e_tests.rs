//! End-to-end: one document in a real in-memory index, searched through
//! the library's plan, with the library assembling and rendering the
//! response.

use blog_search::search::{DateBound, Fields, Occur, QuerySchema, QueryTree};
use blog_search::server::{assemble_hit, plan_execute, render_response, ExecuteStep, Hit};

use std::ops::Bound;
use tantivy::collector::{Count, TopDocs};
use tantivy::query::{BooleanQuery, PhraseQuery, Query, RangeQuery, TermQuery};
use tantivy::schema::{
    Field, IndexRecordOption, Schema, Term, TextFieldIndexing, TextOptions, Type, FAST, INDEXED,
    STORED, STRING,
};
use tantivy::tokenizer::{BoxTokenStream, Token, TokenStream, Tokenizer};
use tantivy::{DateTime, Document, Index};

#[derive(Clone)]
struct SegmenterAdapter;

struct SegmenterStream {
    tokens: Vec<Token>,
    offset: usize,
}

impl TokenStream for SegmenterStream {
    fn advance(&mut self) -> bool {
        if self.offset < self.tokens.len() {
            self.offset += 1;
            true
        } else {
            false
        }
    }

    fn token(&self) -> &Token {
        &self.tokens[self.offset - 1]
    }

    fn token_mut(&mut self) -> &mut Token {
        &mut self.tokens[self.offset - 1]
    }
}

impl Tokenizer for SegmenterAdapter {
    fn token_stream<'a>(&self, text: &'a str) -> BoxTokenStream<'a> {
        let stream = QuerySchema::tokenizer().token_stream(text);
        let tokens = stream
            .tokens
            .into_iter()
            .map(|t| Token {
                offset_from: t.offset_from,
                offset_to: t.offset_to,
                // Positions are byte offsets: phrase queries anchor their
                // terms at byte offsets too, so the deltas line up.
                position: t.position,
                text: t.text,
                position_length: t.position_length,
            })
            .collect();
        BoxTokenStream::from(SegmenterStream { tokens, offset: 0 })
    }
}

fn build_schema() -> Schema {
    let mut schema_builder = Schema::builder();
    let text_indeces = TextFieldIndexing::default()
        .set_tokenizer("UTF-8")
        .set_index_option(IndexRecordOption::WithFreqsAndPositions);
    let text_options = TextOptions::default().set_indexing_options(text_indeces);
    schema_builder.add_text_field("title", text_options.clone() | STORED);
    schema_builder.add_text_field("content", text_options | STORED);
    schema_builder.add_date_field("date", INDEXED | STORED | FAST);
    schema_builder.add_text_field("tags", STRING | STORED);
    schema_builder.add_text_field("category", STRING | STORED);
    schema_builder.add_text_field("url", STRING | STORED);
    schema_builder.build()
}

fn translate(q: &QueryTree, date_field: Field) -> Box<dyn Query> {
    match q {
        QueryTree::Term { field, text, positions } => {
            let opt = if *positions {
                IndexRecordOption::WithFreqsAndPositions
            } else {
                IndexRecordOption::Basic
            };
            Box::new(TermQuery::new(
                Term::from_field_text(Field::from_field_id(*field), text),
                opt,
            ))
        }
        QueryTree::Phrase { field, terms } => {
            let t: Vec<(usize, Term)> = terms
                .iter()
                .map(|(off, txt)| (*off, Term::from_field_text(Field::from_field_id(*field), txt)))
                .collect();
            Box::new(PhraseQuery::new_with_offset(t))
        }
        QueryTree::DateRange { lower, upper } => {
            let to_bound = |b: &DateBound| match b {
                DateBound::Unbounded => Bound::Unbounded,
                DateBound::Included(ts) => Bound::Included(Term::from_field_date(
                    date_field,
                    DateTime::from_timestamp_secs(*ts),
                )),
            };
            Box::new(RangeQuery::new_term_bounds(
                date_field,
                Type::Date,
                &to_bound(lower),
                &to_bound(upper),
            ))
        }
        QueryTree::Bool { clauses } => {
            let subs: Vec<(tantivy::query::Occur, Box<dyn Query>)> = clauses
                .iter()
                .map(|(occur, sub)| {
                    let o = match occur {
                        Occur::Must => tantivy::query::Occur::Must,
                        Occur::MustNot => tantivy::query::Occur::MustNot,
                        Occur::Should => tantivy::query::Occur::Should,
                    };
                    (o, translate(sub, date_field))
                })
                .collect();
            Box::new(BooleanQuery::new(subs))
        }
    }
}

#[test]
fn one_document_index_answers_a_keyword_request() {
    let schema = build_schema();
    let index = Index::create_in_ram(schema.clone());
    index.tokenizers().register("UTF-8", SegmenterAdapter);

    let title_f = schema.get_field("title").unwrap();
    let content_f = schema.get_field("content").unwrap();
    let date_f = schema.get_field("date").unwrap();
    let tags_f = schema.get_field("tags").unwrap();
    let category_f = schema.get_field("category").unwrap();
    let url_f = schema.get_field("url").unwrap();

    let mut writer = index.writer(15_000_000).unwrap();
    let mut doc = Document::new();
    doc.add_text(title_f, "Hello World");
    doc.add_text(content_f, "An article that greets the world in rust.");
    doc.add_date(date_f, DateTime::from_timestamp_secs(1663256708));
    doc.add_text(tags_f, "rust");
    doc.add_text(category_f, "tech");
    doc.add_text(url_f, "https://example.org/hello");
    writer.add_document(doc).unwrap();
    writer.commit().unwrap();

    let fields = Fields {
        title: title_f.field_id(),
        content: content_f.field_id(),
        date: date_f.field_id(),
        tags: tags_f.field_id(),
        category: category_f.field_id(),
        url: url_f.field_id(),
    };
    let qs = QuerySchema::new(fields);

    // Request {keywords:["hello"], pages:[1,10]}.
    let plan = match plan_execute(
        vec![1, 10],
        vec![],
        vec![],
        vec!["hello".to_string()],
        &qs,
    ) {
        ExecuteStep::Search { plan } => plan,
        ExecuteStep::Reject { body } => panic!("unexpected rejection: {}", body),
    };

    let reader = index.reader().unwrap();
    let searcher = reader.searcher();
    let query = translate(&plan.query, date_f);

    // Snippets highlight against the first sub-query, as the plan's
    // snippet requests intend.
    let snippet_query = match &plan.query {
        QueryTree::Bool { clauses } if !clauses.is_empty() => translate(&clauses[0].1, date_f),
        _ => translate(&plan.query, date_f),
    };
    let mut title_gen =
        tantivy::SnippetGenerator::create(&searcher, &snippet_query, title_f).unwrap();
    title_gen.set_max_num_chars(plan.title_snippet.unwrap().max_chars);
    let mut content_gen =
        tantivy::SnippetGenerator::create(&searcher, &snippet_query, content_f).unwrap();
    content_gen.set_max_num_chars(plan.content_snippet.unwrap().max_chars);

    assert!(!plan.sort_by_date);
    let paginator = TopDocs::with_limit(plan.page.limit).and_offset(plan.page.offset);
    let (top_docs, count) = searcher.search(&query, &(paginator, Count)).unwrap();
    assert_eq!(count, 1);

    let mut hits: Vec<Hit> = Vec::new();
    for (_score, addr) in top_docs {
        let doc = searcher.doc(addr).unwrap();
        let text_of = |f: Field| -> String {
            doc.get_first(f).and_then(|v| v.as_text()).unwrap_or("").to_string()
        };
        let date = doc
            .get_first(date_f)
            .and_then(|v| v.as_date())
            .map(|d| d.into_utc().to_string())
            .unwrap_or_default();
        let tags: Vec<String> = doc
            .get_all(tags_f)
            .filter_map(|v| v.as_text())
            .map(|s| s.to_string())
            .collect();
        let title_html = Some(title_gen.snippet_from_doc(&doc).to_html());
        let content_html = Some(content_gen.snippet_from_doc(&doc).to_html());
        hits.push(assemble_hit(
            &qs,
            text_of(url_f),
            date,
            text_of(category_f),
            tags,
            &title_html,
            &text_of(title_f),
            &content_html,
            &text_of(content_f),
        ));
    }

    assert_eq!(hits.len(), 1);
    // The title snippet highlights the matched word.
    assert!(hits[0].title.contains("<b>Hello</b>"), "title was: {}", hits[0].title);

    let body = render_response(count, &hits);
    let v: serde_json::Value = serde_json::from_str(&body).unwrap();
    assert_eq!(v["count"], 1);
    assert_eq!(v["data"][0]["url"], "https://example.org/hello");
    assert_eq!(v["data"][0]["category"], "tech");
    assert_eq!(v["data"][0]["tags"][0], "rust");
    assert!(v["data"][0]["title"].as_str().unwrap().contains("<b>Hello</b>"));
}

#[test]
fn multi_token_keyword_matches_as_a_phrase() {
    let schema = build_schema();
    let index = Index::create_in_ram(schema.clone());
    index.tokenizers().register("UTF-8", SegmenterAdapter);

    let title_f = schema.get_field("title").unwrap();
    let content_f = schema.get_field("content").unwrap();
    let date_f = schema.get_field("date").unwrap();
    let url_f = schema.get_field("url").unwrap();

    let mut writer = index.writer(15_000_000).unwrap();
    let mut doc = Document::new();
    doc.add_text(title_f, "学习日本語の本");
    doc.add_text(content_f, "notes");
    doc.add_date(date_f, DateTime::from_timestamp_secs(0));
    doc.add_text(url_f, "u1");
    writer.add_document(doc).unwrap();
    let mut doc2 = Document::new();
    doc2.add_text(title_f, "語日本"); // same characters, other order
    doc2.add_text(content_f, "other");
    doc2.add_date(date_f, DateTime::from_timestamp_secs(0));
    doc2.add_text(url_f, "u2");
    writer.add_document(doc2).unwrap();
    writer.commit().unwrap();

    let fields = Fields {
        title: title_f.field_id(),
        content: content_f.field_id(),
        date: date_f.field_id(),
        tags: schema.get_field("tags").unwrap().field_id(),
        category: schema.get_field("category").unwrap().field_id(),
        url: url_f.field_id(),
    };
    let qs = QuerySchema::new(fields);
    let plan = match plan_execute(vec![1, 10], vec![], vec![], vec!["日本語".to_string()], &qs) {
        ExecuteStep::Search { plan } => plan,
        ExecuteStep::Reject { body } => panic!("unexpected rejection: {}", body),
    };
    let reader = index.reader().unwrap();
    let searcher = reader.searcher();
    let query = translate(&plan.query, date_f);
    let (top_docs, count) = searcher
        .search(&query, &(TopDocs::with_limit(10), Count))
        .unwrap();
    assert_eq!(count, 1);
    let doc = searcher.doc(top_docs[0].1).unwrap();
    assert_eq!(doc.get_first(url_f).and_then(|v| v.as_text()), Some("u1"));
}

#[test]
fn excluded_keyword_rejects_the_matching_document() {
    let schema = build_schema();
    let index = Index::create_in_ram(schema.clone());
    index.tokenizers().register("UTF-8", SegmenterAdapter);

    let title_f = schema.get_field("title").unwrap();
    let content_f = schema.get_field("content").unwrap();
    let date_f = schema.get_field("date").unwrap();
    let url_f = schema.get_field("url").unwrap();

    let mut writer = index.writer(15_000_000).unwrap();
    let mut doc = Document::new();
    doc.add_text(title_f, "Hello World");
    doc.add_text(content_f, "greetings");
    doc.add_date(date_f, DateTime::from_timestamp_secs(0));
    doc.add_text(url_f, "u1");
    writer.add_document(doc).unwrap();
    let mut doc2 = Document::new();
    doc2.add_text(title_f, "Hello Mars");
    doc2.add_text(content_f, "other");
    doc2.add_date(date_f, DateTime::from_timestamp_secs(0));
    doc2.add_text(url_f, "u2");
    writer.add_document(doc2).unwrap();
    writer.commit().unwrap();

    let fields = Fields {
        title: title_f.field_id(),
        content: content_f.field_id(),
        date: date_f.field_id(),
        tags: schema.get_field("tags").unwrap().field_id(),
        category: schema.get_field("category").unwrap().field_id(),
        url: url_f.field_id(),
    };
    let qs = QuerySchema::new(fields);
    let plan = match plan_execute(
        vec![1, 10],
        vec![],
        vec![],
        vec!["hello".to_string(), "-world".to_string()],
        &qs,
    ) {
        ExecuteStep::Search { plan } => plan,
        ExecuteStep::Reject { body } => panic!("unexpected rejection: {}", body),
    };
    let reader = index.reader().unwrap();
    let searcher = reader.searcher();
    let query = translate(&plan.query, date_f);
    let (top_docs, count) = searcher
        .search(&query, &(TopDocs::with_limit(10), Count))
        .unwrap();
    assert_eq!(count, 1);
    let doc = searcher.doc(top_docs[0].1).unwrap();
    assert_eq!(doc.get_first(title_f).and_then(|v| v.as_text()), Some("Hello Mars"));
}
