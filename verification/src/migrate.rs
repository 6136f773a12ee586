//! The content-ingestion pipeline: feed parsing and the dedup plan.
//!
//! The application fetches the feed document over the network; everything
//! after that — locating the envelope, splitting entries, cleaning entry
//! bodies and deciding which parsed entries are new — happens here.

use vstd::prelude::*;

use crate::datetime::parse_datetime_spec;
use crate::text::{chars_vec, find_sub, first_match, is_word_char, lemma_first_match, matches_at,
    string_from_chars};
use crate::unescape::unescape_spec;

verus! {

/// One ingestible entry. The date is the published stamp as a Unix
/// timestamp.
pub struct Blog {
    pub title: String,
    pub content: String,
    pub url: String,
    pub date: i64,
    pub category: String,
    pub tags: Vec<String>,
}

/// The model of an entry.
#[verifier::ext_equal]
pub struct BlogV {
    pub title: Seq<char>,
    pub content: Seq<char>,
    pub url: Seq<char>,
    pub date: int,
    pub category: Seq<char>,
    pub tags: Seq<Seq<char>>,
}

impl Blog {
    pub open spec fn view(self) -> BlogV {
        BlogV {
            title: self.title@,
            content: self.content@,
            url: self.url@,
            date: self.date as int,
            category: self.category@,
            tags: self.tags.deep_view(),
        }
    }
}

/// The models of the parsed entries.
pub open spec fn blog_views(bs: Seq<Blog>) -> Seq<BlogV> {
    bs.map_values(|b: Blog| b.view())
}

/// What the markup stripper emits from position `i` on. A comment or
/// doctype runs to the next `>`; a `div` or `script` element is dropped
/// whole, to its closing tag; any other tag runs to the next `>`. A `<`
/// that opens none of these is kept as text.
pub open spec fn strip_from(s: Seq<char>, i: int) -> Seq<char>
    decreases s.len() - i + 1,
    via strip_from_dec
{
    if i < 0 || i >= s.len() {
        seq![]
    } else if s[i] == '<' {
        if matches_at(s, "<!"@, i) && first_match(s, ">"@, i + 2) is Some {
            strip_from(s, first_match(s, ">"@, i + 2).unwrap() + 1)
        } else if matches_at(s, "<div"@, i) && first_match(s, "/div>"@, i + 4) is Some {
            strip_from(s, first_match(s, "/div>"@, i + 4).unwrap() + 5)
        } else if matches_at(s, "<script"@, i) && first_match(s, "/script>"@, i + 7) is Some {
            strip_from(s, first_match(s, "/script>"@, i + 7).unwrap() + 8)
        } else if generic_tag_at(s, i) && first_match(s, ">"@, i + 1) is Some {
            strip_from(s, first_match(s, ">"@, i + 1).unwrap() + 1)
        } else {
            seq![s[i]] + strip_from(s, i + 1)
        }
    } else {
        seq![s[i]] + strip_from(s, i + 1)
    }
}

/// True when `s[i]` opens an ordinary tag: `<` then a letter, or `</`
/// then a letter.
pub open spec fn generic_tag_at(s: Seq<char>, i: int) -> bool {
    &&& 0 <= i < s.len()
    &&& i + 1 < s.len()
    &&& (is_word_char(s[i + 1]) || (s[i + 1] == '/' && i + 2 < s.len() && is_word_char(
        s[i + 2],
    )))
}

#[via_fn]
proof fn strip_from_dec(s: Seq<char>, i: int) {
    if 0 <= i < s.len() {
        lemma_first_match(s, ">"@, i + 2);
        lemma_first_match(s, "/div>"@, i + 4);
        lemma_first_match(s, "/script>"@, i + 7);
        lemma_first_match(s, ">"@, i + 1);
        reveal_strlit(">");
        reveal_strlit("/div>");
        reveal_strlit("/script>");
    }
}

/// The whitespace characters the pipeline collapses.
pub open spec fn is_space(c: char) -> bool {
    c == ' ' || c == '\n' || c == '\u{a0}'
}

/// Whitespace collapsing from position `i` on: each run of collapsible
/// whitespace becomes a single space.
pub open spec fn collapse_from(s: Seq<char>, i: int, prev_space: bool) -> Seq<char>
    decreases s.len() - i,
{
    if i < 0 || i >= s.len() {
        seq![]
    } else if is_space(s[i]) {
        (if prev_space {
            seq![]
        } else {
            seq![' ']
        }) + collapse_from(s, i + 1, true)
    } else {
        seq![s[i]] + collapse_from(s, i + 1, false)
    }
}

pub open spec fn collapse_ws(s: Seq<char>) -> Seq<char> {
    collapse_from(s, 0, false)
}

/// The characters trimmed from the ends of cleaned content.
pub open spec fn is_trim_char(c: char) -> bool {
    is_space(c) || c == '\t' || c == '\r'
}

pub open spec fn trim_start_spec(s: Seq<char>) -> Seq<char>
    decreases s.len(),
{
    if s.len() > 0 && is_trim_char(s[0]) {
        trim_start_spec(s.drop_first())
    } else {
        s
    }
}

pub open spec fn trim_end_spec(s: Seq<char>) -> Seq<char>
    decreases s.len(),
{
    if s.len() > 0 && is_trim_char(s.last()) {
        trim_end_spec(s.drop_last())
    } else {
        s
    }
}

pub open spec fn trim_spec(s: Seq<char>) -> Seq<char> {
    trim_end_spec(trim_start_spec(s))
}

proof fn lemma_trim_start_at(s: Seq<char>, a: int)
    requires
        0 <= a <= s.len(),
        forall|k: int| 0 <= k < a ==> is_trim_char(s[k]),
        a < s.len() ==> !is_trim_char(s[a]),
    ensures
        trim_start_spec(s) == s.skip(a),
    decreases a,
{
    if a == 0 {
        if s.len() > 0 && is_trim_char(s[0]) {
            assert(false);
        }
        assert(s.skip(0) =~= s);
    } else {
        assert(is_trim_char(s[0]));
        assert forall|k: int| 0 <= k < a - 1 implies is_trim_char(s.drop_first()[k]) by {
            assert(s.drop_first()[k] == s[k + 1]);
        }
        if a - 1 < s.drop_first().len() {
            assert(s.drop_first()[a - 1] == s[a]);
        }
        lemma_trim_start_at(s.drop_first(), a - 1);
        assert(s.drop_first().skip(a - 1) =~= s.skip(a));
    }
}

proof fn lemma_trim_end_at(s: Seq<char>, b: int)
    requires
        0 <= b <= s.len(),
        forall|k: int| b <= k < s.len() ==> is_trim_char(s[k]),
        b > 0 ==> !is_trim_char(s[b - 1]),
    ensures
        trim_end_spec(s) == s.take(b),
    decreases s.len() - b,
{
    if b == s.len() {
        if s.len() > 0 && is_trim_char(s.last()) {
            assert(false);
        }
        assert(s.take(b) =~= s);
    } else {
        assert(is_trim_char(s.last()));
        assert forall|k: int| b <= k < s.drop_last().len() implies is_trim_char(
            s.drop_last()[k],
        ) by {
            assert(s.drop_last()[k] == s[k]);
        }
        if b > 0 {
            assert(s.drop_last()[b - 1] == s[b - 1]);
        }
        lemma_trim_end_at(s.drop_last(), b);
        assert(s.drop_last().take(b) =~= s.take(b));
    }
}

/// Strips markup from the raw entry body.
pub fn strip_markup(s: &str) -> (r: String)
    ensures
        r@ == strip_from(s@, 0),
{
    let cs = chars_vec(s);
    let pat_gt = chars_vec(">");
    let pat_div = chars_vec("/div>");
    let pat_script = chars_vec("/script>");
    proof {
        reveal_strlit(">");
        reveal_strlit("/div>");
        reveal_strlit("/script>");
        reveal_strlit("<!");
        reveal_strlit("<div");
        reveal_strlit("<script");
    }
    let mut out: Vec<char> = Vec::new();
    let mut i: usize = 0;
    let n = cs.len();
    while i < n
        invariant
            0 <= i <= n,
            n == cs@.len(),
            cs@ == s@,
            pat_gt@ == ">"@,
            pat_div@ == "/div>"@,
            pat_script@ == "/script>"@,
            strip_from(s@, 0) == out@ + strip_from(s@, i as int),
        decreases n - i,
    {
        proof {
            reveal_strlit(">");
            reveal_strlit("/div>");
            reveal_strlit("/script>");
            reveal_strlit("<!");
            reveal_strlit("<div");
            reveal_strlit("<script");
        }
        let c = cs[i];
        let ghost pre = out@;
        let mut next: usize = i + 1;
        if c == '<' {
            let bang = starts_with_at(&cs, i, "<!");
            let divm = starts_with_at(&cs, i, "<div");
            let scrm = starts_with_at(&cs, i, "<script");
            let generic = i + 1 < n && (crate::text::is_ascii_alphabetic_char(cs[i + 1]) || (cs[i
                + 1] == '/' && i + 2 < n && crate::text::is_ascii_alphabetic_char(cs[i + 2])));
            let f1: Option<usize> = if bang {
                find_sub(&cs, &pat_gt, i + 2)
            } else {
                None
            };
            let f2: Option<usize> = if divm {
                find_sub(&cs, &pat_div, i + 4)
            } else {
                None
            };
            let f3: Option<usize> = if scrm {
                find_sub(&cs, &pat_script, i + 7)
            } else {
                None
            };
            let f4: Option<usize> = if generic {
                find_sub(&cs, &pat_gt, i + 1)
            } else {
                None
            };
            let choice: Option<usize> = if bang && f1.is_some() {
                Some(f1.unwrap() + 1)
            } else if divm && f2.is_some() {
                Some(f2.unwrap() + 5)
            } else if scrm && f3.is_some() {
                Some(f3.unwrap() + 8)
            } else if generic && f4.is_some() {
                Some(f4.unwrap() + 1)
            } else {
                None
            };
            match choice {
                Some(nx) => {
                    next = nx;
                    proof {
                        assert(strip_from(s@, i as int) == strip_from(s@, next as int));
                    }
                },
                None => {
                    out.push(c);
                    proof {
                        assert(strip_from(s@, i as int) == seq![c] + strip_from(s@, i + 1));
                    }
                },
            }
        } else {
            out.push(c);
            proof {
                assert(strip_from(s@, i as int) == seq![c] + strip_from(s@, i + 1));
            }
        }
        proof {
            assert(strip_from(s@, 0) =~= out@ + strip_from(s@, next as int));
        }
        i = next;
    }
    proof {
        assert(strip_from(s@, cs@.len() as int) =~= Seq::<char>::empty());
        assert(out@ =~= strip_from(s@, 0));
    }
    string_from_chars(&out)
}

/// True when the literal occurs at position `i`.
fn starts_with_at(cs: &Vec<char>, i: usize, lit: &str) -> (r: bool)
    requires
        i <= cs@.len(),
    ensures
        r == matches_at(cs@, lit@, i as int),
{
    let n = lit.unicode_len();
    let hay_len = cs.len();
    if n > hay_len - i {
        return false;
    }
    let mut k: usize = 0;
    while k < n
        invariant
            k <= n,
            i + n <= hay_len,
            hay_len == cs@.len(),
            n == lit@.len(),
            forall|t: int| 0 <= t < k ==> cs@[i + t] == lit@[t],
        decreases n - k,
    {
        if cs[i + k] != lit.get_char(k) {
            proof {
                assert(cs@.subrange(i as int, i + n)[k as int] == cs@[i + k]);
            }
            return false;
        }
        k = k + 1;
    }
    proof {
        assert(cs@.subrange(i as int, i + n) =~= lit@);
    }
    true
}

/// Collapses whitespace runs to single spaces.
pub fn collapse_whitespace(s: &str) -> (r: String)
    ensures
        r@ == collapse_ws(s@),
{
    let cs = chars_vec(s);
    let mut out: Vec<char> = Vec::new();
    let mut prev_space = false;
    let mut i: usize = 0;
    while i < cs.len()
        invariant
            i <= cs@.len(),
            cs@ == s@,
            collapse_ws(s@) == out@ + collapse_from(s@, i as int, prev_space),
        decreases cs@.len() - i,
    {
        let c = cs[i];
        let ghost pre = out@;
        if c == ' ' || c == '\n' || c == '\u{a0}' {
            if !prev_space {
                out.push(' ');
            }
            prev_space = true;
        } else {
            out.push(c);
            prev_space = false;
        }
        proof {
            assert(collapse_ws(s@) =~= out@ + collapse_from(s@, i + 1, prev_space));
        }
        i = i + 1;
    }
    proof {
        assert(collapse_from(s@, cs@.len() as int, prev_space) =~= Seq::<char>::empty());
        assert(out@ =~= collapse_ws(s@));
    }
    string_from_chars(&out)
}

/// Trims collapsible whitespace from both ends.
pub fn trim_text(s: &str) -> (r: String)
    ensures
        r@ == trim_spec(s@),
{
    let cs = chars_vec(s);
    let n = cs.len();
    let mut a: usize = 0;
    while a < n && is_trim_exec(cs[a])
        invariant
            a <= n,
            n == cs@.len(),
            cs@ == s@,
            forall|k: int| 0 <= k < a ==> is_trim_char(s@[k]),
        decreases n - a,
    {
        a = a + 1;
    }
    let mut b: usize = n;
    while b > a && is_trim_exec(cs[b - 1])
        invariant
            a <= b <= n,
            n == cs@.len(),
            cs@ == s@,
            forall|k: int| 0 <= k < a ==> is_trim_char(s@[k]),
            a < n ==> !is_trim_char(s@[a as int]),
            forall|k: int| b <= k < n ==> is_trim_char(s@[k]),
        decreases b,
    {
        b = b - 1;
    }
    let mut out: Vec<char> = Vec::new();
    let mut i = a;
    while i < b
        invariant
            a <= i <= b <= n,
            n == cs@.len(),
            cs@ == s@,
            out@ == s@.subrange(a as int, i as int),
        decreases b - i,
    {
        out.push(cs[i]);
        proof {
            assert(out@ =~= s@.subrange(a as int, i + 1));
        }
        i = i + 1;
    }
    proof {
        lemma_trim_start_at(s@, a as int);
        let t = s@.skip(a as int);
        assert forall|k: int| b - a <= k < t.len() implies is_trim_char(t[k]) by {
            assert(t[k] == s@[k + a]);
        }
        if b > a {
            assert(t[b - a - 1] == s@[b - 1]);
        }
        lemma_trim_end_at(t, b - a);
        assert(t.take(b - a) =~= s@.subrange(a as int, b as int));
        assert(out@ =~= trim_spec(s@));
    }
    string_from_chars(&out)
}

fn is_trim_exec(c: char) -> (r: bool)
    ensures
        r == is_trim_char(c),
{
    c == ' ' || c == '\n' || c == '\u{a0}' || c == '\t' || c == '\r'
}

/// The full cleaning of a raw entry body: markup stripped, whitespace
/// collapsed, ends trimmed, entities decoded.
pub open spec fn clean_content_spec(s: Seq<char>) -> Seq<char> {
    unescape_spec(trim_spec(collapse_ws(strip_from(s, 0))))
}

/// Cleans a raw entry body.
pub fn clean_content(s: &str) -> (r: String)
    ensures
        r@ == clean_content_spec(s@),
{
    let stripped = strip_markup(s);
    let collapsed = collapse_whitespace(stripped.as_str());
    let trimmed = trim_text(collapsed.as_str());
    crate::unescape::decode_html_chars(trimmed.as_str())
}

/// A feed document the pipeline cannot use: no envelope, an unterminated
/// entry, or an entry whose published stamp does not parse. The cycle
/// reports it and retries at the next tick.
#[derive(Clone, Copy, PartialEq, Eq, Structural, Debug)]
pub struct FeedError;

/// The characters of `cs[a .. b)`, as a string.
fn sub_string(cs: &Vec<char>, a: usize, b: usize) -> (r: String)
    requires
        a <= b <= cs@.len(),
    ensures
        r@ == cs@.subrange(a as int, b as int),
{
    let mut out: Vec<char> = Vec::new();
    let mut i = a;
    while i < b
        invariant
            a <= i <= b <= cs@.len(),
            out@ == cs@.subrange(a as int, i as int),
        decreases b - i,
    {
        out.push(cs[i]);
        proof {
            assert(out@ =~= cs@.subrange(a as int, i + 1));
        }
        i = i + 1;
    }
    string_from_chars(&out)
}

/// The value of the first `name="..."` attribute in a tag's text.
pub open spec fn attr_val(tag: Seq<char>, name: Seq<char>) -> Option<Seq<char>> {
    let pat = seq![' '] + name + seq!['=', '"'];
    match first_match(tag, pat, 0) {
        Some(i) => match first_match(tag, seq!['"'], i + pat.len()) {
            Some(j) => Some(tag.subrange(i + pat.len(), j)),
            None => None,
        },
        None => None,
    }
}

/// Reads the first `name="..."` attribute out of a tag's text.
fn get_attr(tag: &Vec<char>, name: &str) -> (r: Option<String>)
    ensures
        match r {
            Some(v) => attr_val(tag@, name@) == Some(v@),
            None => attr_val(tag@, name@) is None,
        },
{
    let mut pat: Vec<char> = Vec::new();
    pat.push(' ');
    let name_cs = chars_vec(name);
    let mut k: usize = 0;
    while k < name_cs.len()
        invariant
            k <= name_cs@.len(),
            name_cs@ == name@,
            pat@ == seq![' '] + name@.take(k as int),
        decreases name_cs@.len() - k,
    {
        pat.push(name_cs[k]);
        proof {
            assert(pat@ =~= seq![' '] + name@.take(k + 1));
        }
        k = k + 1;
    }
    pat.push('=');
    pat.push('"');
    let mut quote: Vec<char> = Vec::new();
    quote.push('"');
    proof {
        assert(name@.take(name@.len() as int) =~= name@);
        assert(pat@ =~= seq![' '] + name@ + seq!['=', '"']);
        assert(quote@ =~= seq!['"']);
    }
    let tlen = tag.len();
    proof {
        assert(tag@.len() == tlen);
    }
    match find_sub(tag, &pat, 0) {
        Some(i) => {
            let vstart = i + pat.len();
            match find_sub(tag, &quote, vstart) {
                Some(j) => Some(sub_string(tag, vstart, j)),
                None => None,
            }
        },
        None => None,
    }
}

/// The decoded text of the entry's `title` element; empty when the entry
/// has none.
pub open spec fn title_of(body: Seq<char>) -> Seq<char> {
    match first_match(body, "<title"@, 0) {
        Some(t) => match first_match(body, ">"@, t) {
            Some(j) => match first_match(body, "</title>"@, j + 1) {
                Some(k) => unescape_spec(body.subrange(j + 1, k)),
                None => seq![],
            },
            None => seq![],
        },
        None => seq![],
    }
}

/// The cleaned text of the entry's CDATA body; empty when the entry has
/// none.
pub open spec fn content_of(body: Seq<char>) -> Seq<char> {
    match first_match(body, "<![CDATA["@, 0) {
        Some(c) => match first_match(body, "]]>"@, c + 9) {
            Some(k) => clean_content_spec(body.subrange(c + 9, k)),
            None => seq![],
        },
        None => seq![],
    }
}

/// The published stamp of the entry, as a UTC timestamp; `None` when it
/// is missing or does not parse.
pub open spec fn published_of(body: Seq<char>) -> Option<int> {
    match first_match(body, "<published"@, 0) {
        Some(t) => match first_match(body, ">"@, t) {
            Some(j) => match first_match(body, "</published>"@, j + 1) {
                Some(k) => parse_datetime_spec(body.subrange(j + 1, k)),
                None => None,
            },
            None => None,
        },
        None => None,
    }
}

/// The `href` of the last `link` element that carries one.
pub open spec fn url_of(body: Seq<char>, i: int) -> Option<Seq<char>>
    decreases body.len() - i + 1,
    via url_of_dec
{
    if i < 0 {
        None
    } else {
        match first_match(body, "<link"@, i) {
            Some(l) => match first_match(body, ">"@, l) {
                Some(j) => {
                    let cur = attr_val(body.subrange(l, j + 1), "href"@);
                    match url_of(body, j + 1) {
                        Some(u) => Some(u),
                        None => cur,
                    }
                },
                None => None,
            },
            None => None,
        }
    }
}

#[via_fn]
proof fn url_of_dec(body: Seq<char>, i: int) {
    if i >= 0 {
        lemma_first_match(body, "<link"@, i);
        match first_match(body, "<link"@, i) {
            Some(l) => {
                lemma_first_match(body, ">"@, l);
                reveal_strlit(">");
                reveal_strlit("<link");
            },
            None => {},
        }
    }
}

/// The category and tag values of the entry's `category` elements, folded
/// left to right over the values accumulated so far: an element with a
/// `label` attribute names the category (the first one wins), one
/// without joins the tags.
pub open spec fn cats_from(
    body: Seq<char>,
    i: int,
    cat: Seq<char>,
    tags: Seq<Seq<char>>,
) -> (Seq<char>, Seq<Seq<char>>)
    decreases body.len() - i + 1,
    via cats_from_dec
{
    if i < 0 {
        (cat, tags)
    } else {
        match first_match(body, "<category"@, i) {
            Some(c) => match first_match(body, ">"@, c) {
                Some(j) => {
                    let tag_txt = body.subrange(c, j + 1);
                    let stepped = match attr_val(tag_txt, "term"@) {
                        Some(t) => {
                            if attr_val(tag_txt, "label"@) is Some {
                                if cat.len() == 0 {
                                    (t, tags)
                                } else {
                                    (cat, tags)
                                }
                            } else {
                                (cat, tags.push(t))
                            }
                        },
                        None => (cat, tags),
                    };
                    cats_from(body, j + 1, stepped.0, stepped.1)
                },
                None => (cat, tags),
            },
            None => (cat, tags),
        }
    }
}

#[via_fn]
proof fn cats_from_dec(body: Seq<char>, i: int, cat: Seq<char>, tags: Seq<Seq<char>>) {
    if i >= 0 {
        lemma_first_match(body, "<category"@, i);
        match first_match(body, "<category"@, i) {
            Some(c) => {
                lemma_first_match(body, ">"@, c);
                reveal_strlit(">");
                reveal_strlit("<category");
            },
            None => {},
        }
    }
}

/// What one entry's element text parses to; `None` when the published
/// stamp is missing or malformed.
pub open spec fn entry_of(body: Seq<char>) -> Option<BlogV> {
    match published_of(body) {
        Some(ts) => Some(
            BlogV {
                title: title_of(body),
                content: content_of(body),
                url: match url_of(body, 0) {
                    Some(u) => u,
                    None => seq![],
                },
                date: ts,
                category: cats_from(body, 0, seq![], seq![]).0,
                tags: cats_from(body, 0, seq![], seq![]).1,
            },
        ),
        None => None,
    }
}

/// The entries of the feed text, in order, from position `i` on; `None`
/// when an entry is unterminated or malformed.
pub open spec fn parse_entries(s: Seq<char>, i: int) -> Option<Seq<BlogV>>
    decreases s.len() - i + 1,
    via parse_entries_dec
{
    if i < 0 {
        None
    } else {
        match first_match(s, "<entry"@, i) {
            None => Some(seq![]),
            Some(e) => match first_match(s, "</entry>"@, e) {
                None => None,
                Some(k) => match entry_of(s.subrange(e, k)) {
                    None => None,
                    Some(b) => match parse_entries(s, k + 8) {
                        Some(r) => Some(seq![b] + r),
                        None => None,
                    },
                },
            },
        }
    }
}

#[via_fn]
proof fn parse_entries_dec(s: Seq<char>, i: int) {
    if i >= 0 {
        lemma_first_match(s, "<entry"@, i);
        match first_match(s, "<entry"@, i) {
            Some(e) => {
                lemma_first_match(s, "</entry>"@, e);
                reveal_strlit("<entry");
                reveal_strlit("</entry>");
            },
            None => {},
        }
    }
}

/// The characters of `cs[a .. b)`.
fn sub_chars(cs: &Vec<char>, a: usize, b: usize) -> (r: Vec<char>)
    requires
        a <= b <= cs@.len(),
    ensures
        r@ == cs@.subrange(a as int, b as int),
{
    let mut out: Vec<char> = Vec::new();
    let mut i = a;
    while i < b
        invariant
            a <= i <= b <= cs@.len(),
            out@ == cs@.subrange(a as int, i as int),
        decreases b - i,
    {
        out.push(cs[i]);
        proof {
            assert(out@ =~= cs@.subrange(a as int, i + 1));
        }
        i = i + 1;
    }
    out
}

/// Reads the entry's decoded title.
fn extract_title(body: &Vec<char>) -> (r: String)
    ensures
        r@ == title_of(body@),
{
    let blen = body.len();
    proof {
        assert(body@.len() == blen);
        reveal_strlit(">");
        reveal_strlit("</title>");
    }
    let p_title = chars_vec("<title");
    let p_gt = chars_vec(">");
    let p_close = chars_vec("</title>");
    match find_sub(body, &p_title, 0) {
        Some(t) => match find_sub(body, &p_gt, t) {
            Some(j) => match find_sub(body, &p_close, j + 1) {
                Some(k) => {
                    let txt = sub_string(body, j + 1, k);
                    crate::unescape::decode_html_chars(txt.as_str())
                },
                None => String::new(),
            },
            None => String::new(),
        },
        None => String::new(),
    }
}

/// Reads the entry's cleaned CDATA content.
fn extract_content(body: &Vec<char>) -> (r: String)
    ensures
        r@ == content_of(body@),
{
    let blen = body.len();
    proof {
        assert(body@.len() == blen);
        reveal_strlit("<![CDATA[");
        reveal_strlit("]]>");
    }
    let p_open = chars_vec("<![CDATA[");
    let p_close = chars_vec("]]>");
    match find_sub(body, &p_open, 0) {
        Some(c) => match find_sub(body, &p_close, c + 9) {
            Some(k) => {
                let txt = sub_string(body, c + 9, k);
                clean_content(txt.as_str())
            },
            None => String::new(),
        },
        None => String::new(),
    }
}

/// Reads the entry's published stamp.
fn extract_published(body: &Vec<char>) -> (r: Option<i64>)
    ensures
        match r {
            Some(v) => published_of(body@) == Some(v as int),
            None => published_of(body@) is None,
        },
{
    let blen = body.len();
    proof {
        assert(body@.len() == blen);
        reveal_strlit(">");
        reveal_strlit("</published>");
    }
    let p_open = chars_vec("<published");
    let p_gt = chars_vec(">");
    let p_close = chars_vec("</published>");
    match find_sub(body, &p_open, 0) {
        Some(t) => match find_sub(body, &p_gt, t) {
            Some(j) => match find_sub(body, &p_close, j + 1) {
                Some(k) => {
                    let txt = sub_string(body, j + 1, k);
                    crate::datetime::parse_datetime(txt.as_str())
                },
                None => None,
            },
            None => None,
        },
        None => None,
    }
}

/// Reads the entry's URL: the `href` of its last link that has one.
fn extract_url(body: &Vec<char>) -> (r: Option<String>)
    ensures
        match r {
            Some(u) => url_of(body@, 0) == Some(u@),
            None => url_of(body@, 0) is None,
        },
{
    let blen = body.len();
    let p_link = chars_vec("<link");
    let p_gt = chars_vec(">");
    let mut cur: Option<String> = None;
    let mut pos: usize = 0;
    loop
        invariant
            pos <= blen,
            blen == body@.len(),
            p_link@ == "<link"@,
            p_gt@ == ">"@,
            url_of(body@, 0) == match url_of(body@, pos as int) {
                Some(u) => Some(u),
                None => match cur {
                    Some(c) => Some(c@),
                    None => None::<Seq<char>>,
                },
            },
        decreases blen - pos,
    {
        proof {
            reveal_strlit(">");
            reveal_strlit("<link");
        }
        match find_sub(body, &p_link, pos) {
            None => {
                return cur;
            },
            Some(l) => {
                match find_sub(body, &p_gt, l) {
                    None => {
                        return cur;
                    },
                    Some(j) => {
                        let tag_txt = sub_chars(body, l, j + 1);
                        match get_attr(&tag_txt, "href") {
                            Some(v) => {
                                cur = Some(v);
                            },
                            None => {},
                        }
                        pos = j + 1;
                    },
                }
            },
        }
    }
}

/// Reads the entry's category and tags from its `category` elements.
fn extract_cats(body: &Vec<char>) -> (r: (String, Vec<String>))
    ensures
        (r.0@, r.1.deep_view()) == cats_from(body@, 0, Seq::<char>::empty(), Seq::<Seq<
            char,
        >>::empty()),
{
    let blen = body.len();
    let p_cat = chars_vec("<category");
    let p_gt = chars_vec(">");
    let mut cat = String::new();
    let mut tags: Vec<String> = Vec::new();
    let mut pos: usize = 0;
    proof {
        assert(tags.deep_view() =~~= Seq::<Seq<char>>::empty());
    }
    loop
        invariant
            pos <= blen,
            blen == body@.len(),
            p_cat@ == "<category"@,
            p_gt@ == ">"@,
            cats_from(body@, 0, Seq::<char>::empty(), Seq::<Seq<char>>::empty()) == cats_from(
                body@,
                pos as int,
                cat@,
                tags.deep_view(),
            ),
        decreases blen - pos,
    {
        proof {
            reveal_strlit(">");
            reveal_strlit("<category");
        }
        match find_sub(body, &p_cat, pos) {
            None => {
                return (cat, tags);
            },
            Some(c) => {
                match find_sub(body, &p_gt, c) {
                    None => {
                        return (cat, tags);
                    },
                    Some(j) => {
                        let tag_txt = sub_chars(body, c, j + 1);
                        let ghost pre_cat = cat@;
                        let ghost pre_tags = tags.deep_view();
                        match get_attr(&tag_txt, "term") {
                            Some(t) => {
                                let has_label = match get_attr(&tag_txt, "label") {
                                    Some(_) => true,
                                    None => false,
                                };
                                if has_label {
                                    if cat.unicode_len() == 0 {
                                        cat = t;
                                    }
                                } else {
                                    let ghost tv = t@;
                                    tags.push(t);
                                    proof {
                                        assert(tags.deep_view() =~~= pre_tags.push(tv));
                                    }
                                }
                            },
                            None => {},
                        }
                        proof {
                            assert(cats_from(body@, 0, Seq::<char>::empty(), Seq::<Seq<
                                char,
                            >>::empty()) == cats_from(body@, j + 1, cat@, tags.deep_view()));
                        }
                        pos = j + 1;
                    },
                }
            },
        }
    }
}

/// Parses one entry body; `None` when its published stamp is missing or
/// malformed.
fn parse_entry(body: &Vec<char>) -> (r: Option<Blog>)
    ensures
        match r {
            Some(b) => entry_of(body@) == Some(b.view()),
            None => entry_of(body@) is None,
        },
{
    match extract_published(body) {
        None => None,
        Some(ts) => {
            let title = extract_title(body);
            let content = extract_content(body);
            let url = match extract_url(body) {
                Some(u) => u,
                None => String::new(),
            };
            let (category, tags) = extract_cats(body);
            let b = Blog { title, content, url, date: ts, category, tags };
            proof {
                assert(entry_of(body@) == Some(b.view())) by {
                    assert(b.view() =~~= entry_of(body@).unwrap());
                }
            }
            Some(b)
        },
    }
}

/// Parses the feed text into its entries.
pub fn parse_xml(content: &str) -> (r: Result<Vec<Blog>, FeedError>)
    ensures
        match r {
            Ok(v) => parse_entries(content@, 0) == Some(blog_views(v@)),
            Err(_) => parse_entries(content@, 0) is None,
        },
{
    let cs = chars_vec(content);
    let n = cs.len();
    let p_entry = chars_vec("<entry");
    let p_close = chars_vec("</entry>");
    let mut blogs: Vec<Blog> = Vec::new();
    let mut pos: usize = 0;
    proof {
        assert(blog_views(blogs@) =~~= Seq::<BlogV>::empty());
    }
    loop
        invariant
            pos <= n,
            n == cs@.len(),
            cs@ == content@,
            p_entry@ == "<entry"@,
            p_close@ == "</entry>"@,
            parse_entries(content@, 0) == match parse_entries(content@, pos as int) {
                Some(r) => Some(blog_views(blogs@) + r),
                None => None::<Seq<BlogV>>,
            },
        decreases n - pos,
    {
        proof {
            reveal_strlit("<entry");
            reveal_strlit("</entry>");
        }
        match find_sub(&cs, &p_entry, pos) {
            None => {
                proof {
                    assert(parse_entries(content@, pos as int) == Some(Seq::<BlogV>::empty()));
                    assert(blog_views(blogs@) + Seq::<BlogV>::empty() =~~= blog_views(blogs@));
                }
                return Ok(blogs);
            },
            Some(e) => {
                match find_sub(&cs, &p_close, e) {
                    None => {
                        return Err(FeedError);
                    },
                    Some(k) => {
                        let body = sub_chars(&cs, e, k);
                        match parse_entry(&body) {
                            None => {
                                return Err(FeedError);
                            },
                            Some(b) => {
                                let ghost bv = b.view();
                                let ghost pre = blogs@;
                                blogs.push(b);
                                proof {
                                    assert(blog_views(blogs@) =~~= blog_views(pre).push(bv));
                                    match parse_entries(content@, k + 8) {
                                        Some(rr) => {
                                            assert(blog_views(pre) + (seq![bv] + rr)
                                                =~~= blog_views(blogs@) + rr);
                                        },
                                        None => {},
                                    }
                                }
                                pos = k + 8;
                            },
                        }
                    },
                }
            },
        }
    }
}

/// The feed envelope's inner text: everything between the end of the
/// opening `<feed ...>` tag and its closing tag.
pub open spec fn extract_xml_spec(s: Seq<char>) -> Option<Seq<char>> {
    match first_match(s, "<feed"@, 0) {
        Some(f) => match first_match(s, ">"@, f) {
            Some(j) => match first_match(s, "</feed>"@, j + 1) {
                Some(k) => Some(s.subrange(j + 1, k)),
                None => None,
            },
            None => None,
        },
        None => None,
    }
}

/// Locates the feed envelope in the fetched response; the transport's
/// headers and framing around it are discarded.
pub fn extract_xml_content(resp: &str) -> (r: Option<String>)
    ensures
        match r {
            Some(x) => extract_xml_spec(resp@) == Some(x@),
            None => extract_xml_spec(resp@) is None,
        },
{
    let cs = chars_vec(resp);
    let n = cs.len();
    proof {
        assert(cs@.len() == n);
        reveal_strlit(">");
        reveal_strlit("</feed>");
    }
    let p_feed = chars_vec("<feed");
    let p_gt = chars_vec(">");
    let p_close = chars_vec("</feed>");
    match find_sub(&cs, &p_feed, 0) {
        Some(f) => match find_sub(&cs, &p_gt, f) {
            Some(j) => match find_sub(&cs, &p_close, j + 1) {
                Some(k) => Some(sub_string(&cs, j + 1, k)),
                None => None,
            },
            None => None,
        },
        None => None,
    }
}

/// A feed URL split into host and path; only `https` URLs are accepted.
pub open spec fn parse_url_spec(s: Seq<char>) -> Option<(Seq<char>, Seq<char>)> {
    match first_match(s, "https://"@, 0) {
        Some(h) => match first_match(s, "/"@, h + 8) {
            Some(j) => Some((s.subrange(h + 8, j), s.subrange(j, s.len() as int))),
            None => None,
        },
        None => None,
    }
}

/// Splits the feed URL into the host to connect to and the path to
/// request.
pub fn parse_url(url: &str) -> (r: Option<(String, String)>)
    ensures
        match r {
            Some(hp) => parse_url_spec(url@) == Some((hp.0@, hp.1@)),
            None => parse_url_spec(url@) is None,
        },
{
    let cs = chars_vec(url);
    let n = cs.len();
    proof {
        assert(cs@.len() == n);
        reveal_strlit("https://");
        reveal_strlit("/");
    }
    let p_scheme = chars_vec("https://");
    let p_slash = chars_vec("/");
    match find_sub(&cs, &p_scheme, 0) {
        Some(h) => match find_sub(&cs, &p_slash, h + 8) {
            Some(j) => {
                let host = sub_string(&cs, h + 8, j);
                let path = sub_string(&cs, j, n);
                proof {
                    assert(cs@.subrange(j as int, n as int) == url@.subrange(
                        j as int,
                        url@.len() as int,
                    ));
                }
                Some((host, path))
            },
            None => None,
        },
        None => None,
    }
}

/// Everything of an ingestion cycle after the fetch: locate the
/// envelope, parse the entries.
pub fn parse_feed(resp: &str) -> (r: Result<Vec<Blog>, FeedError>)
    ensures
        match r {
            Ok(v) => extract_xml_spec(resp@) matches Some(x) && parse_entries(x, 0) == Some(
                blog_views(v@),
            ),
            Err(_) => extract_xml_spec(resp@) is None || (extract_xml_spec(resp@) matches Some(x)
                && parse_entries(x, 0) is None),
        },
{
    match extract_xml_content(resp) {
        Some(x) => parse_xml(x.as_str()),
        None => Err(FeedError),
    }
}

/// The positions of the entries an ingestion cycle must add: those whose
/// URL the index does not hold yet.
pub open spec fn new_indices(exists: Seq<bool>, i: int) -> Seq<int>
    decreases exists.len() - i,
{
    if i < 0 || i >= exists.len() {
        seq![]
    } else {
        (if !exists[i] {
            seq![i]
        } else {
            seq![]
        }) + new_indices(exists, i + 1)
    }
}

/// Decides which parsed entries to add: exactly those whose URL the
/// index store reported as absent. The count of selected entries is the
/// cycle's update count.
pub fn plan_ingest(blogs: &Vec<Blog>, exists: &Vec<bool>) -> (idx: Vec<usize>)
    requires
        exists@.len() == blogs@.len(),
    ensures
        idx@.map_values(|u: usize| u as int) == new_indices(exists@, 0),
        forall|k: int| 0 <= k < idx@.len() ==> #[trigger] idx@[k] < blogs@.len(),
{
    let mut idx: Vec<usize> = Vec::new();
    let mut i: usize = 0;
    proof {
        assert(idx@.map_values(|u: usize| u as int) =~= Seq::<int>::empty());
        assert(new_indices(exists@, 0) == idx@.map_values(|u: usize| u as int) + new_indices(
            exists@,
            0,
        )) by {
            assert(idx@.map_values(|u: usize| u as int) + new_indices(exists@, 0) =~= new_indices(
                exists@,
                0,
            ));
        }
    }
    while i < exists.len()
        invariant
            i <= exists@.len(),
            exists@.len() == blogs@.len(),
            new_indices(exists@, 0) == idx@.map_values(|u: usize| u as int) + new_indices(
                exists@,
                i as int,
            ),
            forall|k: int| 0 <= k < idx@.len() ==> #[trigger] idx@[k] < blogs@.len(),
        decreases exists@.len() - i,
    {
        let ghost pre = idx@;
        if !exists[i] {
            idx.push(i);
        }
        proof {
            assert(idx@.map_values(|u: usize| u as int) + new_indices(exists@, i + 1)
                =~= pre.map_values(|u: usize| u as int) + new_indices(exists@, i as int));
        }
        i = i + 1;
    }
    proof {
        assert(new_indices(exists@, exists@.len() as int) =~= Seq::<int>::empty());
        assert(idx@.map_values(|u: usize| u as int) =~= new_indices(exists@, 0));
    }
    idx
}

/// The dedup law: a second pass over a feed whose URLs are all already
/// indexed selects nothing — the reported update count is zero.
pub proof fn lemma_ingest_dedup(exists: Seq<bool>, i: int)
    requires
        forall|k: int| 0 <= k < exists.len() ==> exists[k],
    ensures
        new_indices(exists, i).len() == 0,
    decreases exists.len() - i,
{
    if 0 <= i < exists.len() {
        lemma_ingest_dedup(exists, i + 1);
    }
}

} // verus!
