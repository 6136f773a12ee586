//! The query builder.
//!
//! A request's keywords, term filters and date range become one composite
//! boolean query tree. The tree is a closed tagged-variant type of the
//! library; the surrounding application translates it into the index
//! store's own query values before execution.

use vstd::prelude::*;

use crate::text::{bytes_len, chars_vec, lower_of, lowercase};
use crate::tokenizer::{cum_bytes, cut_string, lemma_cum_bytes_mono, lemma_seg_bytes_total, seg,
    UTF8Tokenizer};

verus! {

/// The field registry: one opaque handle per logical field, obtained from
/// the index store when the schema is opened.
#[derive(Clone, Copy, PartialEq, Eq, Structural, Debug)]
pub struct Fields {
    pub url: u32,
    pub date: u32,
    pub tags: u32,
    pub title: u32,
    pub content: u32,
    pub category: u32,
}

/// Occurrence requirement of one clause in a boolean query.
#[derive(Clone, Copy, PartialEq, Eq, Structural, Debug)]
pub enum Occur {
    Must,
    MustNot,
    Should,
}

/// One side of a date range; zero on the wire means unbounded.
#[derive(Clone, Copy, PartialEq, Eq, Structural, Debug)]
pub enum DateBound {
    Unbounded,
    Included(i64),
}

/// A query tree. `positions` records whether a term match needs position
/// data (term matches inside keyword searches do; filter matches do not).
#[derive(Debug)]
pub enum QueryTree {
    Term { field: u32, text: String, positions: bool },
    Phrase { field: u32, terms: Vec<(usize, String)> },
    DateRange { lower: DateBound, upper: DateBound },
    Bool { clauses: Vec<(Occur, QueryTree)> },
}

/// The mathematical model of a query tree.
#[verifier::ext_equal]
pub enum QTreeV {
    Term { field: u32, text: Seq<char>, positions: bool },
    Phrase { field: u32, terms: Seq<(int, Seq<char>)> },
    DateRange { lower: DateBound, upper: DateBound },
    Bool { clauses: Seq<(Occur, QTreeV)> },
}

impl QueryTree {
    /// The model of this tree.
    pub open spec fn view(self) -> QTreeV
        decreases self,
    {
        match self {
            QueryTree::Term { field, text, positions } => QTreeV::Term {
                field,
                text: text@,
                positions,
            },
            QueryTree::Phrase { field, terms } => QTreeV::Phrase {
                field,
                terms: phrase_pairs_view(terms@),
            },
            QueryTree::DateRange { lower, upper } => QTreeV::DateRange { lower, upper },
            QueryTree::Bool { clauses } => QTreeV::Bool { clauses: clause_views(clauses@) },
        }
    }
}

/// The model of a phrase's `(byte offset, token)` pairs.
pub open spec fn phrase_pairs_view(ps: Seq<(usize, String)>) -> Seq<(int, Seq<char>)> {
    ps.map_values(|p: (usize, String)| (p.0 as int, p.1@))
}

/// The models of a sequence of boolean clauses.
pub open spec fn clause_views(cs: Seq<(Occur, QueryTree)>) -> Seq<(Occur, QTreeV)>
    decreases cs,
    via clause_views_decreases
{
    if cs.len() == 0 {
        seq![]
    } else {
        seq![(cs[0].0, cs[0].1.view())] + clause_views(cs.drop_first())
    }
}

#[via_fn]
proof fn clause_views_decreases(cs: Seq<(Occur, QueryTree)>) {
    broadcast use vstd::seq::axiom_seq_subrange_decreases, vstd::seq::axiom_seq_index_decreases;

    if cs.len() != 0 {
        assert(decreases_to!(cs => cs[0]));
        assert(decreases_to!(cs => cs.drop_first()));
    }
}

/// The model of each clause, pointwise.
pub proof fn lemma_clause_views(cs: Seq<(Occur, QueryTree)>)
    ensures
        clause_views(cs).len() == cs.len(),
        forall|i: int|
            0 <= i < cs.len() ==> #[trigger] clause_views(cs)[i] == ((cs[i].0, cs[i].1.view())),
    decreases cs.len(),
{
    if cs.len() != 0 {
        lemma_clause_views(cs.drop_first());
        assert forall|i: int| 0 <= i < cs.len() implies #[trigger] clause_views(cs)[i] == ((
        cs[i].0,
        cs[i].1.view(),
        )) by {
            if i > 0 {
                assert(clause_views(cs)[i] == clause_views(cs.drop_first())[i - 1]);
                assert(cs.drop_first()[i - 1] == cs[i]);
            }
        }
    }
}

/// The models of a sequence of query trees.
pub open spec fn qviews(qs: Seq<QueryTree>) -> Seq<QTreeV> {
    qs.map_values(|q: QueryTree| q.view())
}

/// The phrase terms of a token sequence: each token anchored at its byte
/// offset.
pub open spec fn phrase_terms_v(toks: Seq<Seq<char>>) -> Seq<(int, Seq<char>)> {
    Seq::new(toks.len(), |k: int| (cum_bytes(toks, k), toks[k]))
}

/// The match for one (already lower-cased) search word against a field:
/// a term match when the word segments to one token, an offset-anchored
/// phrase match otherwise.
pub open spec fn word_match_v(field: u32, word: Seq<char>) -> QTreeV {
    if seg(word).len() == 1 {
        QTreeV::Term { field, text: word, positions: true }
    } else {
        QTreeV::Phrase { field, terms: phrase_terms_v(seg(word)) }
    }
}

/// The match for one search word across content and title.
pub open spec fn field_search_v(fields: Fields, word: Seq<char>, op: Occur) -> QTreeV {
    QTreeV::Bool {
        clauses: seq![
            (op, word_match_v(fields.content, word)),
            (op, word_match_v(fields.title, word)),
        ],
    }
}

/// True for a keyword that a leading `-` marks as excluded.
pub open spec fn is_excluded(k: Seq<char>) -> bool {
    k.len() >= 1 && k[0] == '-'
}

/// The retained positive search words, in order.
pub open spec fn must_words(keys: Seq<Seq<char>>) -> Seq<Seq<char>> {
    keys.filter(|k: Seq<char>| !is_excluded(k) && k.len() != 0)
}

/// The excluded search words, in order, with the leading `-` stripped.
pub open spec fn mustnot_words(keys: Seq<Seq<char>>) -> Seq<Seq<char>> {
    keys.filter(|k: Seq<char>| is_excluded(k)).map_values(|k: Seq<char>| k.skip(1))
}

/// One `Must` clause per word: the word lower-cased and matched against
/// content and title.
pub open spec fn must_clauses(fields: Fields, ws: Seq<Seq<char>>) -> Seq<(Occur, QTreeV)> {
    ws.map_values(
        |w: Seq<char>| (Occur::Must, field_search_v(fields, lower_of(w), Occur::Should)),
    )
}

/// The whole keyword query: every positive word required, and the excluded
/// words gathered under one `MustNot` sub-tree.
pub open spec fn keyword_tree_v(fields: Fields, keys: Seq<Seq<char>>) -> QTreeV {
    let base = must_clauses(fields, must_words(keys));
    let clauses = if mustnot_words(keys).len() != 0 {
        base.push(
            (
                Occur::MustNot,
                QTreeV::Bool { clauses: must_clauses(fields, mustnot_words(keys)) },
            ),
        )
    } else {
        base
    };
    QTreeV::Bool { clauses }
}

/// Index of the first `:` in a term entry.
pub open spec fn first_colon(t: Seq<char>) -> Option<int>
    decreases t.len(),
{
    if t.len() == 0 {
        None
    } else if t[0] == ':' {
        Some(0int)
    } else {
        match first_colon(t.drop_first()) {
            Some(i) => Some(i + 1),
            None => None,
        }
    }
}

/// The filter clause of one `field:value` term entry. Only the `tags` and
/// `category` prefixes are recognized; the value is lower-cased, as tags
/// were at ingestion.
pub open spec fn term_clause(fields: Fields, t: Seq<char>) -> Option<(Occur, QTreeV)> {
    match first_colon(t) {
        Some(ci) => {
            let pre = t.take(ci);
            let val = t.skip(ci + 1);
            if pre == "tags"@ {
                Some(
                    (
                        Occur::Must,
                        QTreeV::Term { field: fields.tags, text: lower_of(val), positions: false },
                    ),
                )
            } else if pre == "category"@ {
                Some(
                    (
                        Occur::Must,
                        QTreeV::Term {
                            field: fields.category,
                            text: lower_of(val),
                            positions: false,
                        },
                    ),
                )
            } else {
                None
            }
        },
        None => None,
    }
}

/// The clauses of all recognized term entries, in order.
pub open spec fn terms_clauses(fields: Fields, ts: Seq<Seq<char>>) -> Seq<(Occur, QTreeV)>
    decreases ts.len(),
{
    if ts.len() == 0 {
        seq![]
    } else {
        (match term_clause(fields, ts[0]) {
            Some(c) => seq![c],
            None => seq![],
        }) + terms_clauses(fields, ts.drop_first())
    }
}

/// A wire timestamp as a range bound; zero means unbounded.
pub open spec fn bound_of(ts: i64) -> DateBound {
    if ts == 0 {
        DateBound::Unbounded
    } else {
        DateBound::Included(ts)
    }
}

/// The date filter of a request range, when one is called for: absent or
/// all-zero ranges add no clause.
pub open spec fn date_tree_v(dates: Seq<i64>) -> Option<QTreeV> {
    if dates.len() >= 2 && !(dates[0] == 0 && dates[1] == 0) {
        Some(QTreeV::DateRange { lower: bound_of(dates[0]), upper: bound_of(dates[1]) })
    } else {
        None
    }
}

/// Every sub-query required at once.
pub open spec fn must_all(qs: Seq<QTreeV>) -> Seq<(Occur, QTreeV)> {
    qs.map_values(|q: QTreeV| (Occur::Must, q))
}

pub proof fn lemma_clause_views_push(cs: Seq<(Occur, QueryTree)>, c: (Occur, QueryTree))
    ensures
        clause_views(cs.push(c)) == clause_views(cs).push((c.0, c.1.view())),
{
    lemma_clause_views(cs.push(c));
    lemma_clause_views(cs);
    assert forall|i: int| 0 <= i < cs.len() + 1 implies #[trigger] clause_views(cs.push(c))[i]
        == clause_views(cs).push((c.0, c.1.view()))[i] by {
        if i < cs.len() {
            assert(cs.push(c)[i] == cs[i]);
        } else {
            assert(cs.push(c)[i] == c);
        }
    }
    assert(clause_views(cs.push(c)) =~= clause_views(cs).push((c.0, c.1.view())));
}

pub proof fn lemma_keyword_split_push(ks: Seq<Seq<char>>, x: Seq<char>)
    ensures
        must_words(ks.push(x)) == if !is_excluded(x) && x.len() != 0 {
            must_words(ks).push(x)
        } else {
            must_words(ks)
        },
        mustnot_words(ks.push(x)) == if is_excluded(x) {
            mustnot_words(ks).push(x.skip(1))
        } else {
            mustnot_words(ks)
        },
{
    reveal(Seq::filter);
    assert(ks.push(x).drop_last() =~~= ks);
    assert(ks.push(x).last() == x);
    let fx = ks.filter(|k: Seq<char>| is_excluded(k));
    if is_excluded(x) {
        assert(ks.push(x).filter(|k: Seq<char>| is_excluded(k)) == fx.push(x));
        assert(fx.push(x).map_values(|k: Seq<char>| k.skip(1)) =~~= fx.map_values(
            |k: Seq<char>| k.skip(1),
        ).push(x.skip(1)));
    }
}

pub proof fn lemma_terms_clauses_push(fields: Fields, ts: Seq<Seq<char>>, x: Seq<char>)
    ensures
        terms_clauses(fields, ts.push(x)) == terms_clauses(fields, ts) + (match term_clause(
            fields,
            x,
        ) {
            Some(c) => seq![c],
            None => Seq::<(Occur, QTreeV)>::empty(),
        }),
    decreases ts.len(),
{
    let tail = (match term_clause(fields, x) {
        Some(c) => seq![c],
        None => Seq::<(Occur, QTreeV)>::empty(),
    });
    if ts.len() == 0 {
        assert(ts.push(x)[0] == x);
        assert(ts.push(x).drop_first() =~~= Seq::<Seq<char>>::empty());
        assert(terms_clauses(fields, Seq::<Seq<char>>::empty()) =~= Seq::<(
            Occur,
            QTreeV,
        )>::empty());
        assert(terms_clauses(fields, ts.push(x)) =~= terms_clauses(fields, ts) + tail);
    } else {
        assert(ts.push(x)[0] == ts[0]);
        assert(ts.push(x).drop_first() =~~= ts.drop_first().push(x));
        lemma_terms_clauses_push(fields, ts.drop_first(), x);
        assert(terms_clauses(fields, ts.push(x)) =~= terms_clauses(fields, ts) + tail);
    }
}

pub proof fn lemma_first_colon_at(s: Seq<char>, j: int)
    requires
        0 <= j <= s.len(),
        forall|k: int| 0 <= k < j ==> s[k] != ':',
        j < s.len() ==> s[j] == ':',
    ensures
        first_colon(s) == if j < s.len() {
            Some(j)
        } else {
            None::<int>
        },
    decreases j,
{
    if j == 0 {
    } else {
        assert(s[0] != ':');
        assert forall|k: int| 0 <= k < j - 1 implies s.drop_first()[k] != ':' by {
            assert(s.drop_first()[k] == s[k + 1]);
        }
        if j - 1 < s.drop_first().len() {
            assert(s.drop_first()[j - 1] == s[j]);
        }
        lemma_first_colon_at(s.drop_first(), j - 1);
    }
}

/// Validation failures when building a query.
#[derive(Clone, Copy, PartialEq, Eq, Structural, Debug)]
pub enum QueryError {
    EmptyPositiveQuery,
}

impl QueryError {
    /// The user-facing message, exactly as the error payload carries it.
    pub fn message(&self) -> (s: String)
        ensures
            s@ == "It is forbidden queries that are only `excluding`."@,
    {
        "It is forbidden queries that are only `excluding`.".to_owned()
    }
}

/// Result-window bounds: skip `offset` hits, return at most `limit`.
#[derive(Clone, Copy, PartialEq, Eq, Structural, Debug)]
pub struct PageSpec {
    pub offset: usize,
    pub limit: usize,
}

/// What a pagination request asks for; absent pagination defaults to a
/// single result.
pub open spec fn page_spec_of(pages: Seq<i64>) -> PageSpec {
    if pages.len() < 2 {
        PageSpec { offset: 0, limit: 1 }
    } else {
        PageSpec { offset: ((pages[0] - 1) * pages[1]) as usize, limit: pages[1] as usize }
    }
}

/// True when a pagination request can be carried out on this machine.
pub open spec fn pages_valid(pages: Seq<i64>) -> bool {
    pages.len() >= 2 ==> {
        &&& 1 <= pages[0]
        &&& 0 <= pages[1] <= usize::MAX
        &&& (pages[0] - 1) * pages[1] <= usize::MAX
    }
}

/// A snippet request: which field to excerpt and the highlight budget.
#[derive(Clone, Copy, PartialEq, Eq, Structural, Debug)]
pub struct SnippetSpec {
    pub field: u32,
    pub max_chars: usize,
}

/// What a hit row shows for one field: the generated snippet when there is
/// one, else the leading characters of the stored value.
pub open spec fn snippet_value_spec(html: Option<Seq<char>>, stored: Seq<char>) -> Seq<char> {
    match html {
        Some(h) => if h.len() > 0 {
            h
        } else {
            crate::text::take_chars(stored, 140)
        },
        None => crate::text::take_chars(stored, 140),
    }
}

/// The query-construction engine; the handles in `fields` come from the
/// index store at open time.
#[derive(Clone, Copy, PartialEq, Eq, Structural, Debug)]
pub struct QuerySchema {
    pub fields: Fields,
}

impl QuerySchema {
    /// The segmenter that indexing and query matching share.
    pub fn tokenizer() -> (t: UTF8Tokenizer) {
        UTF8Tokenizer {  }
    }

    /// Binds the engine to a resolved field registry.
    pub fn new(fields: Fields) -> (s: Self)
        ensures
            s.fields == fields,
    {
        QuerySchema { fields }
    }

    /// Builds the content-and-title match for one lower-cased word.
    fn make_field_search(&self, word: &str, op: Occur) -> (q: QueryTree)
        ensures
            q.view() == field_search_v(self.fields, word@, op),
    {
        let chs = cut_string(word);
        if chs.len() == 1 {
            let content = QueryTree::Term {
                field: self.fields.content,
                text: word.to_owned(),
                positions: true,
            };
            let title = QueryTree::Term {
                field: self.fields.title,
                text: word.to_owned(),
                positions: true,
            };
            proof {
                crate::tokenizer::lemma_seg_is_whole_when_single(word@);
            }
            let mut clauses: Vec<(Occur, QueryTree)> = Vec::new();
            clauses.push((op, content));
            clauses.push((op, title));
            let ghost cv = clauses@;
            let q = QueryTree::Bool { clauses };
            proof {
                lemma_clause_views(cv);
                assert(seg(word@).len() == 1);
                assert(clause_views(cv)[0] == (op, word_match_v(self.fields.content, word@)));
                assert(clause_views(cv)[1] == (op, word_match_v(self.fields.title, word@)));
                assert(clause_views(cv) =~= seq![
                    (op, word_match_v(self.fields.content, word@)),
                    (op, word_match_v(self.fields.title, word@)),
                ]);
                assert(q.view() == field_search_v(self.fields, word@, op));
            }
            q
        } else {
            let ghost toks = seg(word@);
            let total_bytes = word.as_bytes().len();
            proof {
                lemma_seg_bytes_total(word@);
                assert(total_bytes == bytes_len(word@));
            }
            let mut title_terms: Vec<(usize, String)> = Vec::new();
            let mut cnt_terms: Vec<(usize, String)> = Vec::new();
            let mut offset: usize = 0;
            let mut w: usize = 0;
            proof {
                assert(phrase_pairs_view(title_terms@) =~~= phrase_terms_v(toks).take(0));
                assert(phrase_pairs_view(cnt_terms@) =~~= phrase_terms_v(toks).take(0));
            }
            while w < chs.len()
                invariant
                    w <= chs@.len(),
                    chs.deep_view() == toks,
                    toks == seg(word@),
                    cum_bytes(toks, toks.len() as int) == bytes_len(word@),
                    bytes_len(word@) <= usize::MAX,
                    offset == cum_bytes(toks, w as int),
                    phrase_pairs_view(title_terms@) == phrase_terms_v(toks).take(w as int),
                    phrase_pairs_view(cnt_terms@) == phrase_terms_v(toks).take(w as int),
                decreases chs@.len() - w,
            {
                let ch = chs[w];
                proof {
                    assert(ch@ == toks[w as int]);
                    lemma_cum_bytes_mono(toks, w as int + 1, toks.len() as int);
                }
                let ch_bytes = ch.as_bytes().len();
                proof {
                    assert(ch_bytes == bytes_len(toks[w as int]));
                }
                let t_pair = (offset, ch.to_owned());
                let c_pair = (offset, ch.to_owned());
                let ghost pre_t = title_terms@;
                let ghost pre_c = cnt_terms@;
                title_terms.push(t_pair);
                cnt_terms.push(c_pair);
                proof {
                    let goal = phrase_terms_v(toks).take(w + 1);
                    assert(phrase_pairs_view(pre_t).len() == pre_t.len());
                    assert(phrase_pairs_view(pre_c).len() == pre_c.len());
                    assert(pre_t.len() == w as int);
                    assert(pre_c.len() == w as int);
                    assert forall|i: int| 0 <= i < w + 1 implies phrase_pairs_view(title_terms@)[i]
                        == goal[i] && phrase_pairs_view(cnt_terms@)[i] == goal[i] by {
                        if i < w {
                            assert(title_terms@[i] == pre_t[i]);
                            assert(cnt_terms@[i] == pre_c[i]);
                            assert(phrase_pairs_view(pre_t)[i] == phrase_terms_v(toks).take(
                                w as int,
                            )[i]);
                            assert(phrase_pairs_view(pre_c)[i] == phrase_terms_v(toks).take(
                                w as int,
                            )[i]);
                        } else {
                            assert(title_terms@[i] == t_pair);
                            assert(cnt_terms@[i] == c_pair);
                        }
                    }
                    assert(phrase_pairs_view(title_terms@) =~= goal);
                    assert(phrase_pairs_view(cnt_terms@) =~= goal);
                }
                offset = offset + ch_bytes;
                w = w + 1;
            }
            proof {
                assert(phrase_terms_v(toks).take(toks.len() as int) =~~= phrase_terms_v(toks));
            }
            let content = QueryTree::Phrase { field: self.fields.content, terms: cnt_terms };
            let title = QueryTree::Phrase { field: self.fields.title, terms: title_terms };
            let mut clauses: Vec<(Occur, QueryTree)> = Vec::new();
            clauses.push((op, content));
            clauses.push((op, title));
            let ghost cv = clauses@;
            let q = QueryTree::Bool { clauses };
            proof {
                lemma_clause_views(cv);
                assert(seg(word@).len() != 1);
                assert(clause_views(cv)[0] == (op, word_match_v(self.fields.content, word@)));
                assert(clause_views(cv)[1] == (op, word_match_v(self.fields.title, word@)));
                assert(clause_views(cv) =~= seq![
                    (op, word_match_v(self.fields.content, word@)),
                    (op, word_match_v(self.fields.title, word@)),
                ]);
                assert(q.view() == field_search_v(self.fields, word@, op));
            }
            q
        }
    }

    /// Builds the keyword query. Positive and excluded words are split on
    /// the leading `-`; a request with excluded words but no positive word
    /// is rejected, and a request with no words at all builds nothing.
    pub fn make_keyword_query(&self, keyword: Vec<String>) -> (r: Result<
        Vec<QueryTree>,
        QueryError,
    >)
        ensures
            ({
                let keys = keyword.deep_view();
                match r {
                    Ok(qs) => {
                        &&& !(must_words(keys).len() == 0 && mustnot_words(keys).len() != 0)
                        &&& (must_words(keys).len() == 0 ==> qs@.len() == 0)
                        &&& (must_words(keys).len() != 0 ==> qviews(qs@) == seq![
                            keyword_tree_v(self.fields, keys),
                        ])
                    },
                    Err(e) => {
                        &&& e == QueryError::EmptyPositiveQuery
                        &&& must_words(keys).len() == 0
                        &&& mustnot_words(keys).len() != 0
                    },
                }
            }),
    {
        let ghost keys = keyword.deep_view();
        let mut must: Vec<String> = Vec::new();
        let mut mustnot: Vec<String> = Vec::new();
        let mut i: usize = 0;
        proof {
            reveal(Seq::filter);
            assert(keys.take(0) =~~= Seq::<Seq<char>>::empty());
            assert(must.deep_view() =~~= must_words(keys.take(0)));
            assert(mustnot.deep_view() =~~= mustnot_words(keys.take(0)));
        }
        while i < keyword.len()
            invariant
                i <= keyword@.len(),
                keys == keyword.deep_view(),
                must.deep_view() == must_words(keys.take(i as int)),
                mustnot.deep_view() == mustnot_words(keys.take(i as int)),
            decreases keyword@.len() - i,
        {
            let key = &keyword[i];
            let n = key.unicode_len();
            proof {
                lemma_keyword_split_push(keys.take(i as int), keys[i as int]);
                assert(keys.take(i as int).push(keys[i as int]) =~~= keys.take(i + 1));
            }
            if n >= 1 && key.as_str().get_char(0) == '-' {
                let t = key.as_str().substring_char(1, n);
                let ghost pre_mn = mustnot.deep_view();
                mustnot.push(t.to_owned());
                proof {
                    assert(t@ =~= keys[i as int].skip(1));
                    assert(mustnot.deep_view() =~~= pre_mn.push(keys[i as int].skip(1)));
                    assert(mustnot.deep_view() =~~= mustnot_words(keys.take(i + 1)));
                }
            } else if n != 0 {
                let ghost pre_m = must.deep_view();
                must.push(key.clone());
                proof {
                    assert(must.deep_view() =~~= pre_m.push(keys[i as int]));
                    assert(must.deep_view() =~~= must_words(keys.take(i + 1)));
                }
            }
            i = i + 1;
        }
        proof {
            assert(keys.take(keyword@.len() as int) =~~= keys);
        }
        if must.len() == 0 {
            if mustnot.len() != 0 {
                return Err(QueryError::EmptyPositiveQuery);
            }
            return Ok(Vec::new());
        }
        let ghost mustv = must.deep_view();
        let ghost mustnotv = mustnot.deep_view();
        let mut querys: Vec<(Occur, QueryTree)> = Vec::new();
        let mut k: usize = 0;
        proof {
            assert(clause_views(querys@) =~= must_clauses(self.fields, mustv).take(0));
        }
        while k < must.len()
            invariant
                k <= mustv.len(),
                mustv == must.deep_view(),
                clause_views(querys@) == must_clauses(self.fields, mustv).take(k as int),
            decreases mustv.len() - k,
        {
            let lowered = lowercase(must[k].as_str());
            let fs = self.make_field_search(lowered.as_str(), Occur::Should);
            let ghost gfs = fs;
            let ghost pre = querys@;
            querys.push((Occur::Must, fs));
            proof {
                lemma_clause_views_push(pre, (Occur::Must, gfs));
                assert(clause_views(querys@) =~= must_clauses(self.fields, mustv).take(k + 1));
            }
            k = k + 1;
        }
        let mut must_not: Vec<(Occur, QueryTree)> = Vec::new();
        let mut k2: usize = 0;
        proof {
            assert(must_clauses(self.fields, mustv).take(mustv.len() as int) =~~= must_clauses(
                self.fields,
                mustv,
            ));
            assert(must_not@ =~= Seq::<(Occur, QueryTree)>::empty());
            assert(clause_views(must_not@) =~= must_clauses(self.fields, mustnotv).take(0));
        }
        while k2 < mustnot.len()
            invariant
                k2 <= mustnotv.len(),
                mustnotv == mustnot.deep_view(),
                clause_views(must_not@) == must_clauses(self.fields, mustnotv).take(k2 as int),
            decreases mustnotv.len() - k2,
        {
            let lowered = lowercase(mustnot[k2].as_str());
            let fs = self.make_field_search(lowered.as_str(), Occur::Should);
            let ghost gfs = fs;
            let ghost pre = must_not@;
            must_not.push((Occur::Must, fs));
            proof {
                lemma_clause_views_push(pre, (Occur::Must, gfs));
                assert(clause_views(must_not@) =~= must_clauses(self.fields, mustnotv).take(
                    k2 + 1,
                ));
            }
            k2 = k2 + 1;
        }
        proof {
            assert(must_clauses(self.fields, mustnotv).take(mustnotv.len() as int)
                =~~= must_clauses(self.fields, mustnotv));
            lemma_clause_views(must_not@);
            assert(must_not@.len() == mustnotv.len());
        }
        if must_not.len() != 0 {
            let ghost mnv = must_not@;
            let ghost pre = querys@;
            let mnb = QueryTree::Bool { clauses: must_not };
            let ghost gmnb = mnb;
            querys.push((Occur::MustNot, mnb));
            proof {
                lemma_clause_views_push(pre, (Occur::MustNot, gmnb));
                assert(gmnb.view() == (QTreeV::Bool {
                    clauses: must_clauses(self.fields, mustnotv),
                }));
            }
        }
        let ghost qv = querys@;
        let bq = QueryTree::Bool { clauses: querys };
        let mut out: Vec<QueryTree> = Vec::new();
        let ghost gbq = bq;
        out.push(bq);
        proof {
            assert(mustv == must_words(keys));
            assert(mustnotv == mustnot_words(keys));
            assert(gbq.view() == (QTreeV::Bool { clauses: clause_views(qv) }));
            assert(clause_views(qv) == (if mustnot_words(keys).len() != 0 {
                must_clauses(self.fields, must_words(keys)).push(
                    (
                        Occur::MustNot,
                        QTreeV::Bool {
                            clauses: must_clauses(self.fields, mustnot_words(keys)),
                        },
                    ),
                )
            } else {
                must_clauses(self.fields, must_words(keys))
            }));
            assert(gbq.view() == keyword_tree_v(self.fields, keys));
            assert(out@ =~= seq![gbq]);
            assert(qviews(out@) =~= seq![keyword_tree_v(self.fields, keys)]);
        }
        Ok(out)
    }

    /// Finds the first `:` of a term entry.
    fn find_colon(&self, s: &str) -> (r: Option<usize>)
        ensures
            match r {
                Some(i) => first_colon(s@) == Some(i as int) && i < s@.len(),
                None => first_colon(s@) is None,
            },
    {
        let cs = chars_vec(s);
        let mut j: usize = 0;
        while j < cs.len()
            invariant
                j <= cs@.len(),
                cs@ == s@,
                forall|k: int| 0 <= k < j ==> s@[k] != ':',
            decreases cs@.len() - j,
        {
            if cs[j] == ':' {
                proof {
                    lemma_first_colon_at(s@, j as int);
                }
                return Some(j);
            }
            j = j + 1;
        }
        proof {
            lemma_first_colon_at(s@, s@.len() as int);
        }
        None
    }

    /// Adds the tag and category filters of the recognized term entries;
    /// entries of any other form are silently ignored.
    pub fn make_terms_query(&self, terms: Vec<String>, box_qs: &mut Vec<QueryTree>)
        ensures
            ({
                let cl = terms_clauses(self.fields, terms.deep_view());
                &&& (cl.len() == 0 ==> final(box_qs)@ == old(box_qs)@)
                &&& (cl.len() != 0 ==> {
                    &&& final(box_qs)@.len() == old(box_qs)@.len() + 1
                    &&& final(box_qs)@.drop_last() == old(box_qs)@
                    &&& final(box_qs)@.last().view() == QTreeV::Bool { clauses: cl }
                })
            }),
    {
        let ghost ts = terms.deep_view();
        let mut q_vecs: Vec<(Occur, QueryTree)> = Vec::new();
        let mut i: usize = 0;
        proof {
            assert(ts.take(0) =~~= Seq::<Seq<char>>::empty());
            assert(clause_views(q_vecs@) =~= terms_clauses(self.fields, ts.take(0)));
        }
        while i < terms.len()
            invariant
                i <= ts.len(),
                ts == terms.deep_view(),
                clause_views(q_vecs@) == terms_clauses(self.fields, ts.take(i as int)),
            decreases ts.len() - i,
        {
            proof {
                lemma_terms_clauses_push(self.fields, ts.take(i as int), ts[i as int]);
                assert(ts.take(i as int).push(ts[i as int]) =~~= ts.take(i + 1));
            }
            let term = &terms[i];
            match self.find_colon(term.as_str()) {
                Some(ci) => {
                    let n = term.unicode_len();
                    let pre = term.as_str().substring_char(0, ci);
                    let val = term.as_str().substring_char(ci + 1, n);
                    proof {
                        assert(pre@ =~= ts[i as int].take(ci as int));
                        assert(val@ =~= ts[i as int].skip(ci + 1));
                    }
                    let mut field: u32 = 0;
                    let mut known = false;
                    if crate::text::str_eq(pre, "tags") {
                        field = self.fields.tags;
                        known = true;
                    } else if crate::text::str_eq(pre, "category") {
                        field = self.fields.category;
                        known = true;
                    }
                    if known {
                        let lowered = lowercase(val);
                        let tq = QueryTree::Term { field, text: lowered, positions: false };
                        let ghost gtq = tq;
                        let ghost preq = q_vecs@;
                        q_vecs.push((Occur::Must, tq));
                        proof {
                            lemma_clause_views_push(preq, (Occur::Must, gtq));
                            assert(clause_views(q_vecs@) =~= terms_clauses(
                                self.fields,
                                ts.take(i + 1),
                            ));
                        }
                    } else {
                        proof {
                            assert(term_clause(self.fields, ts[i as int]) is None);
                            assert(clause_views(q_vecs@) =~= terms_clauses(
                                self.fields,
                                ts.take(i + 1),
                            ));
                        }
                    }
                },
                None => {
                    proof {
                        assert(term_clause(self.fields, ts[i as int]) is None);
                        assert(clause_views(q_vecs@) =~= terms_clauses(
                            self.fields,
                            ts.take(i + 1),
                        ));
                    }
                },
            }
            i = i + 1;
        }
        proof {
            assert(ts.take(ts.len() as int) =~~= ts);
        }
        if q_vecs.len() != 0 {
            proof {
                lemma_clause_views(q_vecs@);
            }
            let ghost pre_box = box_qs@;
            let ghost gcl = q_vecs@;
            let b = QueryTree::Bool { clauses: q_vecs };
            let ghost gb = b;
            box_qs.push(b);
            proof {
                assert(box_qs@.drop_last() =~= pre_box);
                assert(box_qs@.last() == gb);
            }
        }
    }

    /// A wire timestamp as a range bound; zero means unbounded on that
    /// side.
    pub fn transform_date_bound(&self, timestamp: i64) -> (b: DateBound)
        ensures
            b == bound_of(timestamp),
    {
        if timestamp == 0 {
            DateBound::Unbounded
        } else {
            DateBound::Included(timestamp)
        }
    }

    /// Adds the inclusive date-range filter, unless the range is absent or
    /// unbounded on both sides.
    pub fn make_date_query(&self, dates: Vec<i64>, box_qs: &mut Vec<QueryTree>)
        ensures
            match date_tree_v(dates@) {
                Some(t) => {
                    &&& final(box_qs)@.len() == old(box_qs)@.len() + 1
                    &&& final(box_qs)@.drop_last() == old(box_qs)@
                    &&& final(box_qs)@.last().view() == t
                },
                None => final(box_qs)@ == old(box_qs)@,
            },
    {
        if dates.len() < 2 {
            return ;
        }
        let lo = dates[0];
        let hi = dates[1];
        if lo == 0 && hi == 0 {
            return ;
        }
        let ghost pre_box = box_qs@;
        let q = QueryTree::DateRange {
            lower: self.transform_date_bound(lo),
            upper: self.transform_date_bound(hi),
        };
        let ghost gq = q;
        box_qs.push(q);
        proof {
            assert(box_qs@.drop_last() =~= pre_box);
            assert(box_qs@.last() == gq);
        }
    }

    /// Combines the sub-queries: each one is required.
    pub fn make_bool_query(&self, q_vecs: Vec<QueryTree>) -> (q: QueryTree)
        ensures
            q.view() == (QTreeV::Bool { clauses: must_all(qviews(q_vecs@)) }),
    {
        let ghost orig = q_vecs@;
        let mut rest = q_vecs;
        let mut clauses: Vec<(Occur, QueryTree)> = Vec::new();
        let ghost mut i: int = 0;
        proof {
            assert(rest@ =~= orig.skip(0));
            assert(clause_views(clauses@) =~= must_all(qviews(orig)).take(0));
        }
        while rest.len() > 0
            invariant
                0 <= i,
                i + rest@.len() == orig.len(),
                rest@ == orig.skip(i),
                clause_views(clauses@) == must_all(qviews(orig)).take(i),
            decreases rest@.len(),
        {
            let q0 = rest.remove(0);
            let ghost gq0 = q0;
            let ghost prec = clauses@;
            proof {
                assert(gq0 == orig[i]);
                assert(rest@ =~= orig.skip(i + 1));
            }
            clauses.push((Occur::Must, q0));
            proof {
                lemma_clause_views_push(prec, (Occur::Must, gq0));
                assert(clause_views(clauses@) =~= must_all(qviews(orig)).take(i + 1));
                i = i + 1;
            }
        }
        let ghost cls = clauses@;
        let q = QueryTree::Bool { clauses };
        proof {
            assert(must_all(qviews(orig)).take(orig.len() as int) =~~= must_all(qviews(orig)));
            assert(q.view() == QTreeV::Bool { clauses: must_all(qviews(orig)) });
        }
        q
    }

    /// The result window of a pagination request; absent pagination means
    /// a single result.
    pub fn make_paginate(&self, pages: Vec<i64>) -> (p: PageSpec)
        requires
            pages_valid(pages@),
        ensures
            p == page_spec_of(pages@),
    {
        if pages.len() < 2 {
            PageSpec { offset: 0, limit: 1 }
        } else {
            let page = pages[0];
            let size = pages[1];
            let off64 = ((page - 1) as u64) * (size as u64);
            PageSpec { offset: off64 as usize, limit: size as usize }
        }
    }

    /// The result window when hits are ordered by date, most recent
    /// first, instead of by relevance score.
    pub fn make_paginate_with_sort(&self, pages: Vec<i64>) -> (p: PageSpec)
        requires
            pages_valid(pages@),
        ensures
            p == page_spec_of(pages@),
    {
        self.make_paginate(pages)
    }

    /// The snippet request for a field: highlighted context capped at 300
    /// characters.
    pub fn make_snippet_gen(&self, _keyword_query: &QueryTree, field: u32) -> (r: Option<
        SnippetSpec,
    >)
        ensures
            r == Some(SnippetSpec { field, max_chars: 300usize }),
    {
        Some(SnippetSpec { field, max_chars: 300 })
    }

    /// What a hit row shows for one field: the generated snippet when the
    /// generator produced one, else the first 140 characters of the
    /// stored value.
    pub fn make_snippet_value(&self, snippet_html: &Option<String>, field_value: &str) -> (r:
        String)
        ensures
            r@ == snippet_value_spec(
                match snippet_html {
                    Some(h) => Some(h@),
                    None => None,
                },
                field_value@,
            ),
    {
        match snippet_html {
            Some(h) => {
                if h.unicode_len() > 0 {
                    h.clone()
                } else {
                    crate::text::prefix_chars(field_value, 140)
                }
            },
            None => crate::text::prefix_chars(field_value, 140),
        }
    }
}

} // verus!
