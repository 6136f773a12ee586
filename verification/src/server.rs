//! Request execution planning and response rendering.
//!
//! A decoded request either fails validation, which yields an error
//! payload, or becomes a search plan: the composite query, the result
//! window, the sort mode and the snippet requests. The surrounding
//! application runs the plan against the index store and hands the stored
//! field values back; the hit rows and the JSON response payload are
//! assembled here.

use vstd::prelude::*;

use crate::search::{date_tree_v, keyword_tree_v, must_all, must_words, mustnot_words,
    page_spec_of, pages_valid, qviews, snippet_value_spec, terms_clauses, Fields, PageSpec,
    QTreeV, QueryError, QuerySchema, QueryTree, SnippetSpec};

verus! {

/// One result row, assembled from stored field values and snippets.
pub struct Hit {
    pub url: String,
    pub date: String,
    pub title: String,
    pub snippet: String,
    pub category: String,
    pub tags: Vec<String>,
}

/// The model of a hit row.
#[verifier::ext_equal]
pub struct HitV {
    pub url: Seq<char>,
    pub date: Seq<char>,
    pub title: Seq<char>,
    pub snippet: Seq<char>,
    pub category: Seq<char>,
    pub tags: Seq<Seq<char>>,
}

impl Hit {
    pub open spec fn view(self) -> HitV {
        HitV {
            url: self.url@,
            date: self.date@,
            title: self.title@,
            snippet: self.snippet@,
            category: self.category@,
            tags: self.tags.deep_view(),
        }
    }
}

/// The models of the hit rows.
pub open spec fn hit_views(hs: Seq<Hit>) -> Seq<HitV> {
    hs.map_values(|h: Hit| h.view())
}

/// A whole response: how many documents matched, and the returned rows.
pub struct Response {
    pub count: usize,
    pub data: Vec<Hit>,
}

/// A hexadecimal digit, lower case.
pub open spec fn hex_digit(d: int) -> char {
    if d < 10 {
        ((48 + d) as u8) as char
    } else {
        ((87 + d) as u8) as char
    }
}

/// The JSON escape of one character: the two-character escapes for the
/// quote, backslash and common control characters, `\u00..` for the other
/// control characters, and the character itself otherwise.
pub open spec fn json_escaped_char(c: char) -> Seq<char> {
    if c == '"' {
        seq!['\\', '"']
    } else if c == '\\' {
        seq!['\\', '\\']
    } else if c == '\u{8}' {
        seq!['\\', 'b']
    } else if c == '\u{c}' {
        seq!['\\', 'f']
    } else if c == '\n' {
        seq!['\\', 'n']
    } else if c == '\r' {
        seq!['\\', 'r']
    } else if c == '\t' {
        seq!['\\', 't']
    } else if (c as u32) < 0x20 {
        seq!['\\', 'u', '0', '0', hex_digit(c as u32 as int / 16), hex_digit(c as u32 as int % 16)]
    } else {
        seq![c]
    }
}

/// The JSON escape of a text.
pub open spec fn json_escape(s: Seq<char>) -> Seq<char>
    decreases s.len(),
{
    if s.len() == 0 {
        seq![]
    } else {
        json_escaped_char(s[0]) + json_escape(s.drop_first())
    }
}

/// A JSON string value.
pub open spec fn json_str(s: Seq<char>) -> Seq<char> {
    seq!['"'] + json_escape(s) + seq!['"']
}

/// The decimal digits of a non-negative number.
pub open spec fn dec_digits(n: int) -> Seq<char>
    recommends
        n >= 0,
    decreases n,
{
    if n < 10 {
        seq![hex_digit(if n < 0 {
            0
        } else {
            n
        })]
    } else {
        dec_digits(n / 10) + seq![hex_digit(n % 10)]
    }
}

/// The items of a JSON array of strings, from the `i`-th on.
pub open spec fn tag_items(tags: Seq<Seq<char>>, i: int) -> Seq<char>
    decreases tags.len() - i,
{
    if i < 0 || i >= tags.len() {
        seq![]
    } else {
        (if i > 0 {
            seq![',']
        } else {
            seq![]
        }) + json_str(tags[i]) + tag_items(tags, i + 1)
    }
}

/// One hit row as a JSON object.
pub open spec fn json_of_hit(h: HitV) -> Seq<char> {
    "{\"url\":"@ + json_str(h.url) + ",\"date\":"@ + json_str(h.date) + ",\"title\":"@ + json_str(
        h.title,
    ) + ",\"snippet\":"@ + json_str(h.snippet) + ",\"category\":"@ + json_str(h.category)
        + ",\"tags\":["@ + tag_items(h.tags, 0) + "]}"@
}

/// The rows of the response, from the `i`-th on.
pub open spec fn hit_items(hs: Seq<HitV>, i: int) -> Seq<char>
    decreases hs.len() - i,
{
    if i < 0 || i >= hs.len() {
        seq![]
    } else {
        (if i > 0 {
            seq![',']
        } else {
            seq![]
        }) + json_of_hit(hs[i]) + hit_items(hs, i + 1)
    }
}

/// The whole response payload.
pub open spec fn json_of_response(count: int, hs: Seq<HitV>) -> Seq<char> {
    "{\"count\":"@ + dec_digits(count) + ",\"data\":["@ + hit_items(hs, 0) + "]}"@
}

/// A validation failure as the response payload carries it.
pub open spec fn json_of_error(msg: Seq<char>) -> Seq<char> {
    "{\"err_msg\": \""@ + msg + "\"}\n"@
}

/// Appends the JSON escape of `s`.
fn push_json_escaped(out: &mut Vec<char>, s: &str)
    ensures
        final(out)@ == old(out)@ + json_escape(s@),
{
    let cs = crate::text::chars_vec(s);
    let mut i: usize = 0;
    proof {
        assert(s@.skip(0) =~= s@);
    }
    while i < cs.len()
        invariant
            i <= cs@.len(),
            cs@ == s@,
            old(out)@ + json_escape(s@) == out@ + json_escape(s@.skip(i as int)),
        decreases cs@.len() - i,
    {
        let c = cs[i];
        proof {
            let rem = s@.skip(i as int);
            assert(rem.len() > 0);
            assert(rem[0] == s@[i as int]);
            assert(rem.drop_first() =~= s@.skip(i + 1));
        }
        let ghost pre = out@;
        let u = c as u32;
        if c == '"' {
            out.push('\\');
            out.push('"');
        } else if c == '\\' {
            out.push('\\');
            out.push('\\');
        } else if c == '\u{8}' {
            out.push('\\');
            out.push('b');
        } else if c == '\u{c}' {
            out.push('\\');
            out.push('f');
        } else if c == '\n' {
            out.push('\\');
            out.push('n');
        } else if c == '\r' {
            out.push('\\');
            out.push('r');
        } else if c == '\t' {
            out.push('\\');
            out.push('t');
        } else if u < 0x20 {
            out.push('\\');
            out.push('u');
            out.push('0');
            out.push('0');
            out.push(hex_digit_char(u / 16));
            out.push(hex_digit_char(u % 16));
        } else {
            out.push(c);
        }
        proof {
            assert(out@ =~= pre + json_escaped_char(c));
            assert(old(out)@ + json_escape(s@) =~= out@ + json_escape(s@.skip(i + 1)));
        }
        i = i + 1;
    }
    proof {
        assert(s@.skip(s@.len() as int) =~= Seq::<char>::empty());
        assert(out@ =~= old(out)@ + json_escape(s@));
    }
}

/// A hexadecimal digit, lower case.
fn hex_digit_char(d: u32) -> (c: char)
    requires
        d < 16,
    ensures
        c == hex_digit(d as int),
{
    if d < 10 {
        ((48 + d) as u8) as char
    } else {
        ((87 + d) as u8) as char
    }
}

/// Appends a JSON string value.
fn push_json_str(out: &mut Vec<char>, s: &str)
    ensures
        final(out)@ == old(out)@ + json_str(s@),
{
    out.push('"');
    push_json_escaped(out, s);
    out.push('"');
    proof {
        assert(out@ =~= old(out)@ + json_str(s@));
    }
}

/// Appends the decimal digits of `n`.
#[verifier::rlimit(50)]
fn push_decimal(out: &mut Vec<char>, n: usize)
    ensures
        final(out)@ == old(out)@ + dec_digits(n as int),
{
    let mut rev: Vec<char> = Vec::new();
    let mut m = n;
    rev.push(hex_digit_char((m % 10) as u32));
    m = m / 10;
    while m > 0
        invariant
            rev@.len() >= 1,
            dec_digits(n as int) == if m > 0 {
                dec_digits(m as int) + rev@.reverse()
            } else {
                rev@.reverse()
            },
        decreases m,
    {
        let ghost pre = rev@;
        rev.push(hex_digit_char((m % 10) as u32));
        proof {
            assert(rev@.reverse() =~= seq![hex_digit(m as int % 10)] + pre.reverse());
            if m >= 10 {
                assert(dec_digits(m as int) == dec_digits(m as int / 10) + seq![
                    hex_digit(m as int % 10),
                ]);
                assert(dec_digits(m as int / 10) + (seq![hex_digit(m as int % 10)]
                    + pre.reverse()) =~= dec_digits(m as int) + pre.reverse());
            } else {
                assert(dec_digits(m as int) == seq![hex_digit(m as int)]);
                assert(seq![hex_digit(m as int % 10)] + pre.reverse() =~= dec_digits(m as int)
                    + pre.reverse());
            }
        }
        m = m / 10;
    }
    let ghost digits = rev@;
    let mut k: usize = rev.len();
    while k > 0
        invariant
            k <= digits.len(),
            rev@ == digits.take(k as int),
            out@ == old(out)@ + digits.reverse().take(digits.len() - k),
        decreases k,
    {
        let c = match rev.pop() {
            Some(c) => c,
            None => {
                proof {
                    assert(false);
                }
                '0'
            },
        };
        proof {
            assert(digits.take(k as int).drop_last() =~= digits.take(k - 1));
            assert(c == digits[k - 1]);
        }
        out.push(c);
        proof {
            assert(digits.reverse()[digits.len() - k] == digits[k - 1]);
            assert(out@ =~= old(out)@ + digits.reverse().take(digits.len() - (k - 1)));
        }
        k = k - 1;
    }
    proof {
        assert(digits.reverse().take(digits.len() as int) =~= digits.reverse());
        assert(out@ =~= old(out)@ + dec_digits(n as int));
    }
}

/// Appends a literal piece of the payload.
fn push_lit(out: &mut Vec<char>, s: &str)
    ensures
        final(out)@ == old(out)@ + s@,
{
    let cs = crate::text::chars_vec(s);
    let mut i: usize = 0;
    while i < cs.len()
        invariant
            i <= cs@.len(),
            cs@ == s@,
            out@ == old(out)@ + s@.take(i as int),
        decreases cs@.len() - i,
    {
        out.push(cs[i]);
        proof {
            assert(out@ =~= old(out)@ + s@.take(i + 1));
        }
        i = i + 1;
    }
    proof {
        assert(out@ =~= old(out)@ + s@);
    }
}

/// Appends one hit row.
fn push_hit(out: &mut Vec<char>, h: &Hit)
    ensures
        final(out)@ == old(out)@ + json_of_hit(h.view()),
{
    push_lit(out, "{\"url\":");
    push_json_str(out, h.url.as_str());
    push_lit(out, ",\"date\":");
    push_json_str(out, h.date.as_str());
    push_lit(out, ",\"title\":");
    push_json_str(out, h.title.as_str());
    push_lit(out, ",\"snippet\":");
    push_json_str(out, h.snippet.as_str());
    push_lit(out, ",\"category\":");
    push_json_str(out, h.category.as_str());
    push_lit(out, ",\"tags\":[");
    let ghost tagsv = h.tags.deep_view();
    let mut t: usize = 0;
    proof {
        assert(out@ =~= old(out)@ + ("{\"url\":"@ + json_str(h.view().url) + ",\"date\":"@
            + json_str(h.view().date) + ",\"title\":"@ + json_str(h.view().title)
            + ",\"snippet\":"@ + json_str(h.view().snippet) + ",\"category\":"@ + json_str(
            h.view().category,
        ) + ",\"tags\":["@));
    }
    let ghost head = out@;
    while t < h.tags.len()
        invariant
            t <= tagsv.len(),
            tagsv == h.tags.deep_view(),
            head + tag_items(tagsv, 0) == out@ + tag_items(tagsv, t as int),
        decreases tagsv.len() - t,
    {
        if t > 0 {
            out.push(',');
        }
        push_json_str(out, h.tags[t].as_str());
        proof {
            assert(head + tag_items(tagsv, 0) =~= out@ + tag_items(tagsv, t + 1));
        }
        t = t + 1;
    }
    push_lit(out, "]}");
    proof {
        assert(tag_items(tagsv, tagsv.len() as int) =~= Seq::<char>::empty());
        assert(out@ =~= old(out)@ + json_of_hit(h.view()));
    }
}

/// Renders the response payload: the match count and the hit rows.
pub fn render_response(count: usize, hits: &Vec<Hit>) -> (r: String)
    ensures
        r@ == json_of_response(count as int, hit_views(hits@)),
{
    let mut out: Vec<char> = Vec::new();
    push_lit(&mut out, "{\"count\":");
    push_decimal(&mut out, count);
    push_lit(&mut out, ",\"data\":[");
    let ghost hv = hit_views(hits@);
    let ghost head = out@;
    let mut i: usize = 0;
    while i < hits.len()
        invariant
            i <= hits@.len(),
            hv == hit_views(hits@),
            hv.len() == hits@.len(),
            head + hit_items(hv, 0) == out@ + hit_items(hv, i as int),
        decreases hits@.len() - i,
    {
        if i > 0 {
            out.push(',');
        }
        push_hit(&mut out, &hits[i]);
        proof {
            assert(hv[i as int] == hits@[i as int].view());
            assert(head + hit_items(hv, 0) =~= out@ + hit_items(hv, i + 1));
        }
        i = i + 1;
    }
    push_lit(&mut out, "]}");
    proof {
        assert(hit_items(hv, hv.len() as int) =~= Seq::<char>::empty());
        assert(out@ =~= json_of_response(count as int, hv));
    }
    crate::text::string_from_chars(&out)
}

/// Renders a validation failure as an error payload.
pub fn render_error(msg: &str) -> (r: String)
    ensures
        r@ == json_of_error(msg@),
{
    let mut out: Vec<char> = Vec::new();
    push_lit(&mut out, "{\"err_msg\": \"");
    push_lit(&mut out, msg);
    push_lit(&mut out, "\"}\n");
    proof {
        assert(out@ =~= json_of_error(msg@));
    }
    crate::text::string_from_chars(&out)
}

/// A search ready to run: the composite query, the result window, the
/// sort mode and the snippet requests.
pub struct SearchPlan {
    pub query: QueryTree,
    pub page: PageSpec,
    pub sort_by_date: bool,
    pub title_snippet: Option<SnippetSpec>,
    pub content_snippet: Option<SnippetSpec>,
}

/// What a request becomes: an error payload to send back, or a search to
/// run against the index store.
pub enum ExecuteStep {
    Reject { body: String },
    Search { plan: SearchPlan },
}

/// The sub-queries a request builds, in order: the keyword query, the
/// term filters, the date filter; each only when the request calls for
/// it.
pub open spec fn planned_trees(
    fields: Fields,
    keys: Seq<Seq<char>>,
    ts: Seq<Seq<char>>,
    dates: Seq<i64>,
) -> Seq<QTreeV> {
    (if must_words(keys).len() != 0 {
        seq![keyword_tree_v(fields, keys)]
    } else {
        Seq::<QTreeV>::empty()
    }) + (if terms_clauses(fields, ts).len() != 0 {
        seq![QTreeV::Bool { clauses: terms_clauses(fields, ts) }]
    } else {
        Seq::<QTreeV>::empty()
    }) + (match date_tree_v(dates) {
        Some(t) => seq![t],
        None => Seq::<QTreeV>::empty(),
    })
}

/// Turns a decoded request into an error payload or a search plan.
///
/// A request whose keywords are only exclusions is rejected, as is one
/// that builds no sub-query at all. Otherwise the plan requires every
/// built sub-query at once, pages as asked, sorts by date (most recent
/// first) exactly when no keyword was given, and asks for title and
/// content snippets capped at 300 characters.
pub fn plan_execute(
    pages: Vec<i64>,
    range: Vec<i64>,
    terms: Vec<String>,
    q: Vec<String>,
    query_schema: &QuerySchema,
) -> (r: ExecuteStep)
    requires
        pages_valid(pages@),
    ensures
        ({
            let keys = q.deep_view();
            let ts = terms.deep_view();
            let fields = query_schema.fields;
            if must_words(keys).len() == 0 && mustnot_words(keys).len() != 0 {
                r matches ExecuteStep::Reject { body } && body@ == json_of_error(
                    "It is forbidden queries that are only `excluding`."@,
                )
            } else if planned_trees(fields, keys, ts, range@).len() == 0 {
                r matches ExecuteStep::Reject { body } && body@ == json_of_error(
                    "It is forbidden queries that are empty."@,
                )
            } else {
                r matches ExecuteStep::Search { plan } && {
                    &&& plan.query.view() == (QTreeV::Bool {
                        clauses: must_all(planned_trees(fields, keys, ts, range@)),
                    })
                    &&& plan.page == page_spec_of(pages@)
                    &&& plan.sort_by_date == (keys.len() == 0)
                    &&& plan.title_snippet == Some(
                        SnippetSpec { field: fields.title, max_chars: 300usize },
                    )
                    &&& plan.content_snippet == Some(
                        SnippetSpec { field: fields.content, max_chars: 300usize },
                    )
                }
            }
        }),
{
    let ghost keys = q.deep_view();
    let ghost ts = terms.deep_view();
    let ghost fields = query_schema.fields;
    let q_empty = q.len() == 0;
    let mut box_qs: Vec<QueryTree> = match query_schema.make_keyword_query(q) {
        Ok(b) => b,
        Err(e) => {
            let msg = e.message();
            return ExecuteStep::Reject { body: render_error(msg.as_str()) };
        },
    };
    let ghost p1 = if must_words(keys).len() != 0 {
        seq![keyword_tree_v(fields, keys)]
    } else {
        Seq::<QTreeV>::empty()
    };
    proof {
        assert(qviews(box_qs@) =~= p1);
    }
    let ghost pre_terms = box_qs@;
    query_schema.make_terms_query(terms, &mut box_qs);
    let ghost p2 = if terms_clauses(fields, ts).len() != 0 {
        seq![QTreeV::Bool { clauses: terms_clauses(fields, ts) }]
    } else {
        Seq::<QTreeV>::empty()
    };
    proof {
        if terms_clauses(fields, ts).len() != 0 {
            assert(box_qs@.drop_last() == pre_terms);
            assert forall|i: int| 0 <= i < box_qs@.len() implies #[trigger] qviews(box_qs@)[i]
                == (p1 + p2)[i] by {
                if i < box_qs@.len() - 1 {
                    assert(box_qs@[i] == box_qs@.drop_last()[i]);
                }
            }
            assert(qviews(box_qs@) =~= p1 + p2);
        } else {
            assert(qviews(box_qs@) =~= p1 + p2);
        }
    }
    let ghost pre_date = box_qs@;
    query_schema.make_date_query(range, &mut box_qs);
    let ghost p3 = match date_tree_v(range@) {
        Some(t) => seq![t],
        None => Seq::<QTreeV>::empty(),
    };
    proof {
        if date_tree_v(range@) is Some {
            assert(box_qs@.drop_last() == pre_date);
            assert forall|i: int| 0 <= i < box_qs@.len() implies #[trigger] qviews(box_qs@)[i]
                == ((p1 + p2) + p3)[i] by {
                if i < box_qs@.len() - 1 {
                    assert(box_qs@[i] == box_qs@.drop_last()[i]);
                }
            }
            assert(qviews(box_qs@) =~= (p1 + p2) + p3);
        } else {
            assert(qviews(box_qs@) =~= (p1 + p2) + p3);
        }
        assert(planned_trees(fields, keys, ts, range@) == (p1 + p2) + p3);
    }
    if box_qs.len() == 0 {
        return ExecuteStep::Reject {
            body: render_error("It is forbidden queries that are empty."),
        };
    }
    let content_gen = query_schema.make_snippet_gen(&box_qs[0], query_schema.fields.content);
    let title_gen = query_schema.make_snippet_gen(&box_qs[0], query_schema.fields.title);
    let bool_qs = query_schema.make_bool_query(box_qs);
    let page = if !q_empty {
        query_schema.make_paginate(pages)
    } else {
        query_schema.make_paginate_with_sort(pages)
    };
    ExecuteStep::Search {
        plan: SearchPlan {
            query: bool_qs,
            page,
            sort_by_date: q_empty,
            title_snippet: title_gen,
            content_snippet: content_gen,
        },
    }
}

/// Assembles one hit row from stored field values and the snippets the
/// index store generated for the plan's snippet requests.
pub fn assemble_hit(
    query_schema: &QuerySchema,
    url: String,
    date: String,
    category: String,
    tags: Vec<String>,
    title_html: &Option<String>,
    title_stored: &str,
    content_html: &Option<String>,
    content_stored: &str,
) -> (h: Hit)
    ensures
        h.view() == (HitV {
            url: url@,
            date: date@,
            title: snippet_value_spec(
                match title_html {
                    Some(s) => Some(s@),
                    None => None,
                },
                title_stored@,
            ),
            snippet: snippet_value_spec(
                match content_html {
                    Some(s) => Some(s@),
                    None => None,
                },
                content_stored@,
            ),
            category: category@,
            tags: tags.deep_view(),
        }),
{
    let title = query_schema.make_snippet_value(title_html, title_stored);
    let snippet = query_schema.make_snippet_value(content_html, content_stored);
    let h = Hit { url, date, title, snippet, category, tags };
    proof {
        assert(h.view() =~~= (HitV {
            url: h.url@,
            date: h.date@,
            title: h.title@,
            snippet: h.snippet@,
            category: h.category@,
            tags: h.tags.deep_view(),
        }));
    }
    h
}

} // verus!
