//! Character and string helpers shared by the tokenizer, the entity decoder,
//! the codec and the feed parser.
//!
//! Text is modelled as `Seq<char>`; byte positions are stated through
//! `vstd::utf8::encode_utf8`, the specification of the UTF-8 encoding.

use vstd::prelude::*;
use vstd::utf8::{char_is_scalar, decode_utf8, encode_scalar, encode_utf8, valid_utf8};

verus! {

/// True for the characters that the segmenter merges into words:
/// ASCII alphabetic characters.
pub open spec fn is_word_char(c: char) -> bool {
    (97 <= c as u32 && c as u32 <= 122) || (65 <= c as u32 && c as u32 <= 90)
}

/// ASCII lower-casing of one character; other characters are unchanged.
pub open spec fn lower_char(c: char) -> char {
    if 65 <= c as u32 && c as u32 <= 90 {
        ((c as u32 + 32) as u8) as char
    } else {
        c
    }
}

/// ASCII lower-casing of a character sequence.
pub open spec fn lower_chars(s: Seq<char>) -> Seq<char> {
    s.map_values(|c: char| lower_char(c))
}

/// Number of bytes of the UTF-8 encoding of one character.
pub open spec fn char_len(c: char) -> int {
    encode_scalar(c as u32).len() as int
}

/// Number of bytes of the UTF-8 encoding of a character sequence.
pub open spec fn bytes_len(s: Seq<char>) -> int {
    encode_utf8(s).len() as int
}

pub fn is_ascii_alphabetic_char(c: char) -> (r: bool)
    ensures
        r == is_word_char(c),
{
    let u = c as u32;
    (97 <= u && u <= 122) || (65 <= u && u <= 90)
}

pub fn to_lower_char(c: char) -> (r: char)
    ensures
        r == lower_char(c),
{
    let u = c as u32;
    if 65 <= u && u <= 90 {
        ((u + 32) as u8) as char
    } else {
        c
    }
}

/// Byte width of one character in UTF-8.
pub fn char_utf8_len(c: char) -> (n: usize)
    ensures
        n == char_len(c),
        1 <= n <= 4,
{
    proof {
        char_is_scalar(c);
    }
    let u = c as u32;
    if u < 0x80 {
        1
    } else if u < 0x800 {
        2
    } else if u < 0x10000 {
        3
    } else {
        4
    }
}

/// The UTF-8 encoding is additive over concatenation.
pub proof fn lemma_encode_utf8_concat(a: Seq<char>, b: Seq<char>)
    ensures
        encode_utf8(a + b) == encode_utf8(a) + encode_utf8(b),
    decreases a.len(),
{
    if a.len() == 0 {
        assert(a + b =~= b);
        assert(encode_utf8(a) + encode_utf8(b) =~= encode_utf8(b));
    } else {
        lemma_encode_utf8_concat(a.drop_first(), b);
        assert((a + b).drop_first() =~= a.drop_first() + b);
        assert(encode_utf8(a + b) =~= encode_utf8(a) + encode_utf8(b));
    }
}

/// Byte length of a concatenation is the sum of the byte lengths.
pub proof fn lemma_bytes_len_concat(a: Seq<char>, b: Seq<char>)
    ensures
        bytes_len(a + b) == bytes_len(a) + bytes_len(b),
{
    lemma_encode_utf8_concat(a, b);
}

/// The characters of a string slice, in order.
pub fn chars_vec(s: &str) -> (v: Vec<char>)
    ensures
        v@ == s@,
{
    let n = s.unicode_len();
    let mut v: Vec<char> = Vec::new();
    let mut i: usize = 0;
    while i < n
        invariant
            i <= n,
            n == s@.len(),
            v@ == s@.take(i as int),
        decreases n - i,
    {
        v.push(s.get_char(i));
        assert(v@ =~= s@.take(i + 1 as int));
        i = i + 1;
    }
    proof {
        assert(v@ =~= s@);
    }
    v
}

/// True when `pat` occurs in `s` at position `i`.
pub open spec fn matches_at(s: Seq<char>, pat: Seq<char>, i: int) -> bool {
    0 <= i && i + pat.len() <= s.len() && s.subrange(i, i + pat.len()) == pat
}

/// The first position at or after `from` where `pat` occurs in `s`.
pub open spec fn first_match(s: Seq<char>, pat: Seq<char>, from: int) -> Option<int>
    decreases s.len() - from + 1,
{
    if from < 0 || from + pat.len() > s.len() {
        None
    } else if s.subrange(from, from + pat.len()) == pat {
        Some(from)
    } else {
        first_match(s, pat, from + 1)
    }
}

/// What a found position means: a match there, none earlier.
pub proof fn lemma_first_match(s: Seq<char>, pat: Seq<char>, from: int)
    requires
        from >= 0,
    ensures
        match first_match(s, pat, from) {
            Some(j) => {
                &&& from <= j
                &&& j + pat.len() <= s.len()
                &&& matches_at(s, pat, j)
                &&& forall|k: int| from <= k < j ==> !matches_at(s, pat, k)
            },
            None => forall|k: int| from <= k && k + pat.len() <= s.len() ==> !matches_at(s, pat, k),
        },
    decreases s.len() - from + 1,
{
    if from + pat.len() <= s.len() && s.subrange(from, from + pat.len()) != pat {
        lemma_first_match(s, pat, from + 1);
    }
}

/// Finds the first occurrence of `pat` in `hay` at or after `from`.
pub fn find_sub(hay: &Vec<char>, pat: &Vec<char>, from: usize) -> (r: Option<usize>)
    ensures
        match r {
            Some(j) => first_match(hay@, pat@, from as int) == Some(j as int) && from <= j && j
                + pat@.len() <= hay@.len(),
            None => first_match(hay@, pat@, from as int) is None,
        },
{
    let n = hay.len();
    let m = pat.len();
    if m > n || from > n - m {
        proof {
            lemma_first_match(hay@, pat@, from as int);
            if first_match(hay@, pat@, from as int) is Some {
                assert(matches_at(hay@, pat@, first_match(hay@, pat@, from as int).unwrap()));
            }
        }
        return None;
    }
    let mut j = from;
    while j <= n - m
        invariant
            from <= j,
            j <= n - m + 1,
            m <= n,
            n == hay@.len(),
            m == pat@.len(),
            forall|k: int| from <= k < j ==> !matches_at(hay@, pat@, k),
        decreases n - m + 1 - j,
    {
        let mut k: usize = 0;
        while k < m && hay[j + k] == pat[k]
            invariant
                k <= m,
                j + m <= n,
                n == hay@.len(),
                m == pat@.len(),
                forall|t: int| 0 <= t < k ==> hay@[j + t] == pat@[t],
            decreases m - k,
        {
            k = k + 1;
        }
        let hit = k == m;
        if hit {
            proof {
                assert(hay@.subrange(j as int, j + m) =~= pat@);
                lemma_first_match(hay@, pat@, from as int);
                match first_match(hay@, pat@, from as int) {
                    Some(t) => {
                        if t < j {
                            assert(!matches_at(hay@, pat@, t));
                        }
                        if t > j {
                            assert(!matches_at(hay@, pat@, j as int));
                        }
                    },
                    None => {
                        assert(!matches_at(hay@, pat@, j as int));
                    },
                }
            }
            return Some(j);
        }
        proof {
            assert(!matches_at(hay@, pat@, j as int)) by {
                if matches_at(hay@, pat@, j as int) {
                    assert(hay@.subrange(j as int, j + m)[k as int] == pat@[k as int]);
                }
            }
        }
        j = j + 1;
    }
    proof {
        lemma_first_match(hay@, pat@, from as int);
        if first_match(hay@, pat@, from as int) is Some {
            assert(matches_at(hay@, pat@, first_match(hay@, pat@, from as int).unwrap()));
        }
    }
    None
}

/// The characters of `cs[a .. b)`, as a string.
pub fn sub_string_of(cs: &Vec<char>, a: usize, b: usize) -> (r: String)
    requires
        a <= b <= cs@.len(),
    ensures
        r@ == cs@.subrange(a as int, b as int),
{
    let mut out: Vec<char> = Vec::new();
    let mut i = a;
    while i < b
        invariant
            a <= i <= b <= cs@.len(),
            out@ == cs@.subrange(a as int, i as int),
        decreases b - i,
    {
        out.push(cs[i]);
        proof {
            assert(out@ =~= cs@.subrange(a as int, i + 1));
        }
        i = i + 1;
    }
    string_from_chars(&out)
}

/// Character-wise string equality.
pub fn str_eq(a: &str, b: &str) -> (r: bool)
    ensures
        r == (a@ == b@),
{
    let n = a.unicode_len();
    if n != b.unicode_len() {
        return false;
    }
    let mut i: usize = 0;
    while i < n
        invariant
            i <= n,
            n == a@.len(),
            n == b@.len(),
            forall|k: int| 0 <= k < i ==> a@[k] == b@[k],
        decreases n - i,
    {
        if a.get_char(i) != b.get_char(i) {
            return false;
        }
        i = i + 1;
    }
    proof {
        assert(a@ =~= b@);
    }
    true
}

/// The first `n` characters of `s`, or all of them when `s` is shorter.
pub open spec fn take_chars(s: Seq<char>, n: int) -> Seq<char> {
    if s.len() <= n {
        s
    } else {
        s.take(n)
    }
}

/// The first `n` characters of a string.
pub fn prefix_chars(s: &str, n: usize) -> (r: String)
    ensures
        r@ == take_chars(s@, n as int),
{
    let cs = chars_vec(s);
    let limit: usize = if cs.len() <= n {
        cs.len()
    } else {
        n
    };
    let mut out: Vec<char> = Vec::new();
    let mut i: usize = 0;
    while i < limit
        invariant
            i <= limit,
            limit <= cs@.len(),
            cs@ == s@,
            out@ == s@.take(i as int),
        decreases limit - i,
    {
        out.push(cs[i]);
        proof {
            assert(out@ =~= s@.take(i + 1));
        }
        i = i + 1;
    }
    proof {
        assert(out@ =~= take_chars(s@, n as int));
    }
    string_from_chars(&out)
}

/// Relies on `String: FromIterator<char>`: collecting characters yields the
/// string made of exactly those characters.
#[verifier::external_body]
pub fn string_from_chars(v: &Vec<char>) -> (s: String)
    ensures
        s@ == v@,
{
    v.iter().collect()
}

/// Relies on `String::from_utf8`: it succeeds exactly on valid UTF-8 and
/// returns the string those bytes encode.
#[verifier::external_body]
pub fn string_from_utf8(v: Vec<u8>) -> (r: Option<String>)
    ensures
        match r {
            Some(s) => valid_utf8(v@) && s@ == decode_utf8(v@),
            None => !valid_utf8(v@),
        },
{
    match String::from_utf8(v) {
        Ok(s) => Some(s),
        Err(_) => None,
    }
}

/// What `str::to_lowercase` returns; it depends on the characters alone.
pub uninterp spec fn lower_of(s: Seq<char>) -> Seq<char>;

/// Relies on `str::to_lowercase`: the Unicode lower-casing of the text,
/// a function of the characters alone.
#[verifier::external_body]
pub fn lowercase(s: &str) -> (r: String)
    ensures
        r@ == lower_of(s@),
{
    s.to_lowercase()
}

} // verus!
