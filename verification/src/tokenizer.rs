//! The mixed-script segmenter.
//!
//! Text is split into tokens: a maximal run of ASCII alphabetic characters
//! becomes one token (a word), and every other character becomes its own
//! single-character token. Word tokens are lower-cased for case-insensitive
//! indexing; other tokens keep their original form. Token offsets are byte
//! offsets into the UTF-8 encoding of the input.

use vstd::prelude::*;

use crate::text::{
    bytes_len, char_len, chars_vec, is_ascii_alphabetic_char, is_word_char, lower_char,
    lower_chars, string_from_chars, to_lower_char,
};

verus! {

/// Length of the leading run of word characters.
pub open spec fn word_run_len(s: Seq<char>) -> int
    decreases s.len(),
{
    if s.len() == 0 || !is_word_char(s[0]) {
        0
    } else {
        1 + word_run_len(s.drop_first())
    }
}

/// Length of the first token of a non-empty text: the whole leading word
/// run, or a single character.
pub open spec fn first_token_len(s: Seq<char>) -> int
    recommends
        s.len() > 0,
{
    if is_word_char(s[0]) {
        word_run_len(s)
    } else {
        1
    }
}

pub proof fn lemma_word_run(s: Seq<char>)
    ensures
        0 <= word_run_len(s) <= s.len(),
        forall|i: int| 0 <= i < word_run_len(s) ==> is_word_char(s[i]),
        word_run_len(s) < s.len() ==> !is_word_char(s[word_run_len(s)]),
    decreases s.len(),
{
    if s.len() != 0 && is_word_char(s[0]) {
        lemma_word_run(s.drop_first());
        assert forall|i: int| 0 <= i < word_run_len(s) implies is_word_char(s[i]) by {
            if i > 0 {
                assert(is_word_char(s.drop_first()[i - 1]));
            }
        }
    }
}

/// The leading word run is exactly `m` characters when the first `m`
/// characters are word characters and the next one (if any) is not.
pub proof fn lemma_word_run_len_eq(s: Seq<char>, m: int)
    requires
        0 <= m <= s.len(),
        forall|i: int| 0 <= i < m ==> is_word_char(s[i]),
        m < s.len() ==> !is_word_char(s[m]),
    ensures
        word_run_len(s) == m,
    decreases m,
{
    if m == 0 {
    } else {
        assert(is_word_char(s[0]));
        assert forall|i: int| 0 <= i < m - 1 implies is_word_char(s.drop_first()[i]) by {
            assert(is_word_char(s[i + 1]));
        }
        if m - 1 < s.drop_first().len() {
            assert(s.drop_first()[m - 1] == s[m]);
        }
        lemma_word_run_len_eq(s.drop_first(), m - 1);
    }
}

/// The ordered token sequence of a text.
pub open spec fn seg(s: Seq<char>) -> Seq<Seq<char>>
    decreases s.len(),
    via seg_decreases
{
    if s.len() == 0 {
        seq![]
    } else {
        seq![s.take(first_token_len(s))] + seg(s.skip(first_token_len(s)))
    }
}

#[via_fn]
proof fn seg_decreases(s: Seq<char>) {
    if s.len() != 0 {
        lemma_word_run(s);
    }
}

/// Every token is non-empty.
pub proof fn lemma_seg_tokens_nonempty(s: Seq<char>)
    ensures
        forall|k: int| 0 <= k < seg(s).len() ==> #[trigger] seg(s)[k].len() >= 1,
    decreases s.len(),
{
    if s.len() != 0 {
        lemma_word_run(s);
        lemma_seg_tokens_nonempty(s.skip(first_token_len(s)));
        assert forall|k: int| 0 <= k < seg(s).len() implies #[trigger] seg(s)[k].len() >= 1 by {
            if k > 0 {
                assert(seg(s)[k] == seg(s.skip(first_token_len(s)))[k - 1]);
            }
        }
    }
}

/// A text made only of word characters is a single token: the whole text.
/// Together with the lower-casing stated by `token_stream`, this is the
/// law that an all-alphabetic input yields exactly one token, the
/// lower-cased input.
pub proof fn lemma_segment_all_word(s: Seq<char>)
    requires
        s.len() > 0,
        forall|i: int| 0 <= i < s.len() ==> is_word_char(s[i]),
    ensures
        seg(s) =~~= seq![s],
{
    lemma_word_run_len_eq(s, s.len() as int);
    assert(is_word_char(s[0]));
    assert(first_token_len(s) == s.len() as int);
    assert(s.take(s.len() as int) =~= s);
    assert(s.skip(s.len() as int) =~= Seq::<char>::empty());
    assert(seg(s.skip(s.len() as int)) =~~= Seq::<Seq<char>>::empty());
    assert(seg(s) =~~= seq![s] + Seq::<Seq<char>>::empty());
}

/// A text that segments to a single token is that token, whole.
pub proof fn lemma_seg_is_whole_when_single(s: Seq<char>)
    requires
        seg(s).len() == 1,
    ensures
        seg(s)[0] == s,
{
    lemma_word_run(s);
    let k = first_token_len(s);
    if s.skip(k).len() != 0 {
        lemma_word_run(s.skip(k));
        assert(seg(s.skip(k)).len() >= 1);
        assert(seg(s).len() >= 2);
    }
    assert(k == s.len());
    assert(s.take(k) =~= s);
}

/// Byte offset of the end of the `k`-th token: the summed byte lengths of
/// tokens `0 .. k`.
pub open spec fn cum_bytes(toks: Seq<Seq<char>>, k: int) -> int
    decreases k,
{
    if k <= 0 {
        0
    } else {
        cum_bytes(toks, k - 1) + bytes_len(toks[k - 1])
    }
}

pub proof fn lemma_cum_bytes_cons(a: Seq<char>, toks: Seq<Seq<char>>, m: int)
    requires
        0 <= m <= toks.len(),
    ensures
        cum_bytes(seq![a] + toks, m + 1) == bytes_len(a) + cum_bytes(toks, m),
    decreases m,
{
    let c = seq![a] + toks;
    if m == 0 {
        assert(c[0] == a);
        assert(cum_bytes(c, 1) == cum_bytes(c, 0) + bytes_len(c[0]));
    } else {
        lemma_cum_bytes_cons(a, toks, m - 1);
        assert(c[m] == toks[m - 1]);
        assert(cum_bytes(c, m + 1) == cum_bytes(c, m) + bytes_len(c[m]));
        assert(cum_bytes(toks, m) == cum_bytes(toks, m - 1) + bytes_len(toks[m - 1]));
    }
}

/// The tokens' byte lengths sum to the byte length of the text.
pub proof fn lemma_seg_bytes_total(s: Seq<char>)
    ensures
        cum_bytes(seg(s), seg(s).len() as int) == bytes_len(s),
    decreases s.len(),
{
    if s.len() == 0 {
        assert(bytes_len(s) == 0);
    } else {
        lemma_word_run(s);
        let k = first_token_len(s);
        lemma_seg_bytes_total(s.skip(k));
        lemma_cum_bytes_cons(s.take(k), seg(s.skip(k)), seg(s.skip(k)).len() as int);
        crate::text::lemma_bytes_len_concat(s.take(k), s.skip(k));
        assert(s.take(k) + s.skip(k) =~= s);
    }
}

/// Token end offsets grow monotonically.
pub proof fn lemma_cum_bytes_mono(toks: Seq<Seq<char>>, k1: int, k2: int)
    requires
        0 <= k1 <= k2 <= toks.len(),
    ensures
        cum_bytes(toks, k1) <= cum_bytes(toks, k2),
    decreases k2 - k1,
{
    if k1 < k2 {
        lemma_cum_bytes_mono(toks, k1, k2 - 1);
    }
}

/// Token start offsets are strictly increasing: each token occupies at
/// least one byte.
pub proof fn lemma_token_offsets_increasing(s: Seq<char>, k: int)
    requires
        0 <= k < seg(s).len(),
    ensures
        cum_bytes(seg(s), k) < cum_bytes(seg(s), k + 1),
{
    lemma_seg_tokens_nonempty(s);
    lemma_bytes_len_at_least_chars(seg(s)[k]);
}

/// A character sequence takes at least one byte per character in UTF-8.
pub proof fn lemma_bytes_len_at_least_chars(s: Seq<char>)
    ensures
        bytes_len(s) >= s.len(),
    decreases s.len(),
{
    if s.len() != 0 {
        lemma_bytes_len_at_least_chars(s.drop_first());
    }
}

/// The segmenter. It holds no state: segmentation is deterministic and
/// restartable.
#[derive(Clone)]
pub struct UTF8Tokenizer;

/// One token: its lower-cased text and its byte span in the input.
pub struct Token {
    pub offset_from: usize,
    pub offset_to: usize,
    pub position: usize,
    pub text: String,
    pub position_length: usize,
}

/// The tokens of one text, walked front to back by `advance`.
pub struct UTF8TokenStream {
    pub tokens: Vec<Token>,
    pub offset: usize,
}

/// Splits the text into raw (not yet lower-cased) tokens.
pub fn cut_string<'a>(text: &'a str) -> (r: Vec<&'a str>)
    ensures
        r.deep_view() == seg(text@),
{
    let n = text.unicode_len();
    let mut result: Vec<&'a str> = Vec::new();
    let mut i: usize = 0;
    proof {
        assert(result.deep_view() =~~= Seq::<Seq<char>>::empty());
        assert(text@.skip(0) =~= text@);
    }
    while i < n
        invariant
            i <= n,
            n == text@.len(),
            seg(text@) =~~= result.deep_view() + seg(text@.skip(i as int)),
        decreases n - i,
    {
        let c = text.get_char(i);
        let mut j = i + 1;
        if is_ascii_alphabetic_char(c) {
            while j < n && is_ascii_alphabetic_char(text.get_char(j))
                invariant
                    i < j <= n,
                    n == text@.len(),
                    forall|k: int| i <= k < j ==> is_word_char(text@[k]),
                decreases n - j,
            {
                j = j + 1;
            }
            proof {
                let rest = text@.skip(i as int);
                assert forall|k: int| 0 <= k < j - i implies is_word_char(rest[k]) by {
                    assert(rest[k] == text@[k + i]);
                }
                if j - i < rest.len() {
                    assert(rest[j - i] == text@[j as int]);
                }
                lemma_word_run_len_eq(rest, j - i);
            }
        } else {
            proof {
                let rest = text@.skip(i as int);
                assert(rest[0] == text@[i as int]);
                assert(first_token_len(rest) == 1);
            }
        }
        proof {
            let rest = text@.skip(i as int);
            assert(first_token_len(rest) == j - i);
            assert(seg(rest) == seq![rest.take(j - i)] + seg(rest.skip(j - i)));
            assert(rest.take(j - i) =~= text@.subrange(i as int, j as int));
            assert(rest.skip(j - i) =~= text@.skip(j as int));
        }
        let tok = text.substring_char(i, j);
        result.push(tok);
        proof {
            assert(seg(text@) =~~= result.deep_view() + seg(text@.skip(j as int)));
        }
        i = j;
    }
    proof {
        assert(text@.skip(n as int) =~= Seq::<char>::empty());
        assert(result.deep_view() =~~= seg(text@));
    }
    result
}

impl UTF8Tokenizer {
    /// Segments the text into tokens carrying lower-cased text and byte
    /// offsets into the original input.
    pub fn token_stream(&self, text: &str) -> (r: UTF8TokenStream)
        ensures
            r.offset == 0,
            r.tokens@.len() == seg(text@).len(),
            forall|k: int|
                0 <= k < seg(text@).len() ==> {
                    &&& (#[trigger] r.tokens@[k]).text@ == lower_chars(seg(text@)[k])
                    &&& r.tokens@[k].offset_from == cum_bytes(seg(text@), k)
                    &&& r.tokens@[k].offset_to == cum_bytes(seg(text@), k + 1)
                    &&& r.tokens@[k].position == cum_bytes(seg(text@), k)
                    &&& r.tokens@[k].position_length == bytes_len(seg(text@)[k])
                },
    {
        let words = cut_string(text);
        let ghost toks = seg(text@);
        let total_bytes = text.as_bytes().len();
        let mut tokens: Vec<Token> = Vec::new();
        let mut offset: usize = 0;
        let mut w: usize = 0;
        proof {
            broadcast use vstd::slice::axiom_spec_len;

            lemma_seg_bytes_total(text@);
            assert(total_bytes == bytes_len(text@));
        }
        while w < words.len()
            invariant
                w <= words.len(),
                words.deep_view() == toks,
                toks == seg(text@),
                cum_bytes(toks, toks.len() as int) == bytes_len(text@),
                bytes_len(text@) <= usize::MAX,
                offset == cum_bytes(toks, w as int),
                tokens@.len() == w,
                forall|k: int|
                    0 <= k < w ==> {
                        &&& (#[trigger] tokens@[k]).text@ == lower_chars(toks[k])
                        &&& tokens@[k].offset_from == cum_bytes(toks, k)
                        &&& tokens@[k].offset_to == cum_bytes(toks, k + 1)
                        &&& tokens@[k].position == cum_bytes(toks, k)
                        &&& tokens@[k].position_length == bytes_len(toks[k])
                    },
            decreases words.len() - w,
        {
            let word = words[w];
            proof {
                assert(word@ == toks[w as int]);
                lemma_cum_bytes_mono(toks, w as int + 1, toks.len() as int);
            }
            let word_bytes = word.len();
            proof {
                assert(word_bytes == bytes_len(toks[w as int]));
                assert(offset + word_bytes == cum_bytes(toks, w as int + 1));
                assert(cum_bytes(toks, w as int + 1) <= bytes_len(text@));
            }
            let lowered = lower_ascii(word);
            let next = offset + word_bytes;
            let token = Token {
                offset_from: offset,
                offset_to: next,
                position: offset,
                text: lowered,
                position_length: word_bytes,
            };
            tokens.push(token);
            offset = next;
            w = w + 1;
        }
        UTF8TokenStream { tokens, offset: 0 }
    }
}

/// ASCII lower-casing of a whole string.
pub fn lower_ascii(s: &str) -> (r: String)
    ensures
        r@ == lower_chars(s@),
{
    let cs = chars_vec(s);
    let mut out: Vec<char> = Vec::new();
    let mut i: usize = 0;
    while i < cs.len()
        invariant
            i <= cs.len(),
            cs@ == s@,
            out@ =~= lower_chars(s@).take(i as int),
        decreases cs.len() - i,
    {
        out.push(to_lower_char(cs[i]));
        proof {
            assert(out@ =~= lower_chars(s@).take(i + 1 as int));
        }
        i = i + 1;
    }
    proof {
        assert(out@ =~= lower_chars(s@));
    }
    string_from_chars(&out)
}

impl UTF8TokenStream {
    /// Steps to the next token; false when the stream is exhausted.
    pub fn advance(&mut self) -> (more: bool)
        ensures
            more == (old(self).offset < old(self).tokens@.len()),
            final(self).tokens == old(self).tokens,
            final(self).offset == if more {
                old(self).offset + 1
            } else {
                old(self).offset as int
            },
    {
        if self.offset < self.tokens.len() {
            self.offset = self.offset + 1;
            true
        } else {
            false
        }
    }

    /// The token that the last `advance` stepped onto.
    pub fn token(&self) -> (t: &Token)
        requires
            1 <= self.offset <= self.tokens@.len(),
        ensures
            t == self.tokens@[self.offset - 1],
    {
        &self.tokens[self.offset - 1]
    }
}

} // verus!
