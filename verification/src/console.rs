//! The development console's request format.
//!
//! In development mode the server accepts one comma-delimited line per
//! request instead of binary frames: `pages,range,terms,keywords`, with
//! pages split on `-`, the date range split on `~`, and terms and
//! keywords split on spaces.

use vstd::prelude::*;

use crate::datetime::{all_digits, digits_val, is_digit, transform_date, transform_date_spec};
use crate::ipc::{filter_keywords, lemma_filter_keywords_push};
use crate::text::{chars_vec, find_sub, first_match, sub_string_of};

verus! {

/// The pieces of `s` between occurrences of `sep`, from position `i` on.
pub open spec fn split_from(s: Seq<char>, sep: char, i: int) -> Seq<Seq<char>>
    decreases s.len() - i + 1,
    via split_from_dec
{
    if i < 0 {
        seq![]
    } else {
        match first_match(s, seq![sep], i) {
            None => seq![s.subrange(i, s.len() as int)],
            Some(j) => seq![s.subrange(i, j)] + split_from(s, sep, j + 1),
        }
    }
}

#[via_fn]
proof fn split_from_dec(s: Seq<char>, sep: char, i: int) {
    if i >= 0 {
        crate::text::lemma_first_match(s, seq![sep], i);
    }
}

/// The pieces of `s` between occurrences of `sep`.
pub open spec fn split_by(s: Seq<char>, sep: char) -> Seq<Seq<char>> {
    split_from(s, sep, 0)
}

/// Splits a string on a separator character; a trailing separator yields
/// a trailing empty piece, as the splitting the console inherits does.
pub fn split_on(s: &str, sep: char) -> (r: Vec<String>)
    ensures
        r.deep_view() == split_by(s@, sep),
{
    let cs = chars_vec(s);
    let n = cs.len();
    let mut sep_pat: Vec<char> = Vec::new();
    sep_pat.push(sep);
    proof {
        assert(sep_pat@ =~= seq![sep]);
        assert(cs@.len() == n);
    }
    let mut pieces: Vec<String> = Vec::new();
    let mut pos: usize = 0;
    proof {
        assert(pieces.deep_view() =~~= Seq::<Seq<char>>::empty());
    }
    loop
        invariant
            pos <= n,
            n == cs@.len(),
            cs@ == s@,
            sep_pat@ == seq![sep],
            split_by(s@, sep) == pieces.deep_view() + split_from(s@, sep, pos as int),
        decreases n - pos,
    {
        let ghost pre = pieces.deep_view();
        match find_sub(&cs, &sep_pat, pos) {
            None => {
                let piece = sub_string_of(&cs, pos, n);
                let ghost pv = piece@;
                pieces.push(piece);
                proof {
                    assert(pieces.deep_view() =~~= pre.push(pv));
                    assert(split_from(s@, sep, pos as int) =~~= seq![pv]);
                    assert(pre + seq![pv] =~~= pieces.deep_view());
                }
                return pieces;
            },
            Some(j) => {
                let piece = sub_string_of(&cs, pos, j);
                let ghost pv = piece@;
                pieces.push(piece);
                proof {
                    assert(pieces.deep_view() =~~= pre.push(pv));
                    assert(pre + (seq![pv] + split_from(s@, sep, j + 1)) =~~= pieces.deep_view()
                        + split_from(s@, sep, j + 1));
                }
                pos = j + 1;
            },
        }
    }
}

/// The sign and digit run of an integer literal.
pub open spec fn int_str_parts(s: Seq<char>) -> (bool, Seq<char>) {
    if s.len() > 0 && (s[0] == '+' || s[0] == '-') {
        (s[0] == '-', s.drop_first())
    } else {
        (false, s)
    }
}

/// The signed integer an argument names, when it is well-formed and fits
/// a 64-bit value.
pub open spec fn parse_int_spec(s: Seq<char>) -> Option<i64> {
    let (neg, ds) = int_str_parts(s);
    if ds.len() == 0 || !all_digits(ds) {
        None
    } else {
        let v = if neg {
            -digits_val(ds)
        } else {
            digits_val(ds)
        };
        if i64::MIN <= v <= i64::MAX {
            Some(v as i64)
        } else {
            None
        }
    }
}

proof fn lemma_digits_val_nonneg(ds: Seq<char>)
    requires
        all_digits(ds),
    ensures
        digits_val(ds) >= 0,
    decreases ds.len(),
{
    if ds.len() > 0 {
        assert(all_digits(ds.drop_last())) by {
            assert(forall|k: int|
                0 <= k < ds.drop_last().len() ==> #[trigger] ds.drop_last()[k] == ds[k]);
        }
        lemma_digits_val_nonneg(ds.drop_last());
    }
}

/// A digit run's value only grows as digits are appended.
proof fn lemma_digits_val_mono(ds: Seq<char>, k: int)
    requires
        all_digits(ds),
        0 <= k <= ds.len(),
    ensures
        digits_val(ds) >= digits_val(ds.take(k)),
    decreases ds.len() - k,
{
    assert(all_digits(ds.take(k))) by {
        assert(forall|t: int| 0 <= t < k ==> #[trigger] ds.take(k)[t] == ds[t]);
    }
    if k == ds.len() {
        assert(ds.take(k) =~= ds);
    } else {
        lemma_digits_val_mono(ds, k + 1);
        assert(ds.take(k + 1).drop_last() =~= ds.take(k));
        assert(ds.take(k + 1).last() == ds[k]);
        lemma_digits_val_nonneg(ds.take(k));
    }
}

/// Parses one console integer argument.
pub fn parse_i64(s: &str) -> (r: Option<i64>)
    ensures
        r == parse_int_spec(s@),
{
    let cs = chars_vec(s);
    let n = cs.len();
    if n == 0 {
        return None;
    }
    let (neg, start): (bool, usize) = if cs[0] == '+' || cs[0] == '-' {
        (cs[0] == '-', 1)
    } else {
        (false, 0)
    };
    let ghost ds = int_str_parts(s@).1;
    proof {
        assert(ds =~= s@.skip(start as int));
    }
    if n - start == 0 {
        return None;
    }
    let mut acc: i128 = 0;
    let mut i = start;
    proof {
        assert(ds.take(0) =~= Seq::<char>::empty());
    }
    while i < n
        invariant
            start <= i <= n,
            n == cs@.len(),
            cs@ == s@,
            ds == s@.skip(start as int),
            ds == int_str_parts(s@).1,
            start <= 1,
            all_digits(ds.take(i - start)),
            acc as int == digits_val(ds.take(i - start)),
            0 <= acc <= 9223372036854775808i128,
        decreases n - i,
    {
        let c = cs[i];
        let u = c as u32;
        if !(48 <= u && u <= 57) {
            proof {
                assert(ds[i - start] == s@[i as int]);
                assert(!is_digit(ds[i - start]));
                assert(!all_digits(ds));
            }
            return None;
        }
        proof {
            let pre = ds.take(i - start);
            let cur = ds.take(i - start + 1);
            assert(cur.drop_last() =~= pre);
            assert(cur.last() == ds[i - start]);
            assert(ds[i - start] == s@[i as int]);
        }
        acc = acc * 10 + ((u - 48) as i128);
        proof {
            assert(acc as int == digits_val(ds.take(i - start + 1)));
        }
        i = i + 1;
        if acc > 9223372036854775808i128 {
            proof {
                assert(acc as int == digits_val(ds.take(i - start)));
                if all_digits(ds) {
                    lemma_digits_val_mono(ds, i - start);
                    assert(digits_val(ds) > 9223372036854775807int);
                }
            }
            return None;
        }
    }
    proof {
        assert(ds.take(n - start) =~= ds);
    }
    if neg {
        if acc == 9223372036854775808i128 {
            Some(i64::MIN)
        } else {
            Some(-(acc as i64))
        }
    } else {
        if acc <= 9223372036854775807i128 {
            Some(acc as i64)
        } else {
            None
        }
    }
}

/// The integers a list of arguments names, when every one parses.
pub open spec fn parse_ints(ss: Seq<Seq<char>>) -> Option<Seq<i64>>
    decreases ss.len(),
{
    if ss.len() == 0 {
        Some(seq![])
    } else {
        match parse_int_spec(ss[0]) {
            Some(v) => match parse_ints(ss.drop_first()) {
                Some(r) => Some(seq![v] + r),
                None => None,
            },
            None => None,
        }
    }
}

/// Each date argument as a timestamp; an empty or malformed date is the
/// unbounded marker zero.
pub open spec fn map_dates(ss: Seq<Seq<char>>) -> Seq<i64> {
    ss.map_values(|d: Seq<char>| transform_date_spec(d) as i64)
}

/// A whole console line as request parameters:
/// `pages,range,terms,keywords`, or nothing when the line does not have
/// four comma-separated arguments or a page number does not parse.
pub open spec fn parse_dev_args_spec(line: Seq<char>) -> Option<
    (Seq<i64>, Seq<i64>, Seq<Seq<char>>, Seq<Seq<char>>),
> {
    let args = split_by(line, ',');
    if args.len() != 4 {
        None
    } else {
        match parse_ints(split_by(args[0], '-')) {
            Some(pages) => Some(
                (
                    pages,
                    map_dates(split_by(args[1], '~')),
                    split_by(args[2], ' '),
                    filter_keywords(split_by(args[3], ' ')),
                ),
            ),
            None => None,
        }
    }
}

/// Parses one console line into the request parameters the executor
/// takes.
pub fn parse_dev_args(line: &str) -> (r: Option<(Vec<i64>, Vec<i64>, Vec<String>, Vec<String>)>)
    ensures
        match r {
            Some((pages, range, terms, q)) => parse_dev_args_spec(line@) == Some(
                (pages@, range@, terms.deep_view(), q.deep_view()),
            ),
            None => parse_dev_args_spec(line@) is None,
        },
{
    let args = split_on(line, ',');
    if args.len() != 4 {
        return None;
    }
    let page_parts = split_on(args[0].as_str(), '-');
    let ghost ppv = page_parts.deep_view();
    let mut pages: Vec<i64> = Vec::new();
    let mut i: usize = 0;
    proof {
        assert(ppv.skip(0) =~~= ppv);
        match parse_ints(ppv) {
            Some(t) => {
                assert(pages@ + t =~= t);
            },
            None => {},
        }
    }
    while i < page_parts.len()
        invariant
            i <= ppv.len(),
            ppv == page_parts.deep_view(),
            split_by(line@, ',').len() == 4,
            ppv == split_by(split_by(line@, ',')[0], '-'),
            parse_ints(ppv) == match parse_ints(ppv.skip(i as int)) {
                Some(t) => Some(pages@ + t),
                None => None::<Seq<i64>>,
            },
        decreases ppv.len() - i,
    {
        proof {
            assert(ppv.skip(i as int)[0] == ppv[i as int]);
            assert(ppv.skip(i as int).drop_first() =~~= ppv.skip(i + 1));
        }
        match parse_i64(page_parts[i].as_str()) {
            Some(v) => {
                let ghost pre = pages@;
                pages.push(v);
                proof {
                    match parse_ints(ppv.skip(i + 1)) {
                        Some(t) => {
                            assert(pre + (seq![v] + t) =~= pages@ + t);
                        },
                        None => {},
                    }
                }
            },
            None => {
                return None;
            },
        }
        i = i + 1;
    }
    proof {
        assert(ppv.skip(ppv.len() as int) =~~= Seq::<Seq<char>>::empty());
        assert(parse_ints(Seq::<Seq<char>>::empty()) == Some(Seq::<i64>::empty()));
        assert(pages@ + Seq::<i64>::empty() =~= pages@);
    }
    let date_parts = split_on(args[1].as_str(), '~');
    let ghost dpv = date_parts.deep_view();
    let mut range: Vec<i64> = Vec::new();
    let mut d: usize = 0;
    proof {
        assert(range@ =~= map_dates(dpv).take(0));
    }
    while d < date_parts.len()
        invariant
            d <= dpv.len(),
            dpv == date_parts.deep_view(),
            range@ == map_dates(dpv).take(d as int),
        decreases dpv.len() - d,
    {
        range.push(transform_date(date_parts[d].as_str()));
        proof {
            assert(range@ =~= map_dates(dpv).take(d + 1));
        }
        d = d + 1;
    }
    proof {
        assert(map_dates(dpv).take(dpv.len() as int) =~= map_dates(dpv));
    }
    let terms = split_on(args[2].as_str(), ' ');
    let kw_parts = split_on(args[3].as_str(), ' ');
    let ghost kwv = kw_parts.deep_view();
    let mut q: Vec<String> = Vec::new();
    let mut k: usize = 0;
    proof {
        assert(kwv.take(0) =~~= Seq::<Seq<char>>::empty());
        reveal(Seq::filter);
        assert(q.deep_view() =~~= filter_keywords(kwv.take(0)));
    }
    while k < kw_parts.len()
        invariant
            k <= kwv.len(),
            kwv == kw_parts.deep_view(),
            q.deep_view() == filter_keywords(kwv.take(k as int)),
        decreases kwv.len() - k,
    {
        proof {
            lemma_filter_keywords_push(kwv.take(k as int), kwv[k as int]);
            assert(kwv.take(k as int).push(kwv[k as int]) =~~= kwv.take(k + 1));
        }
        let sk = &kw_parts[k];
        if sk.unicode_len() != 0 {
            q.push(sk.clone());
            proof {
                assert(q.deep_view() =~~= filter_keywords(kwv.take(k + 1)));
            }
        }
        k = k + 1;
    }
    proof {
        assert(kwv.take(kwv.len() as int) =~~= kwv);
    }
    Some((pages, range, terms, q))
}

} // verus!
