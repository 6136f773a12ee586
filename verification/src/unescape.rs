//! The HTML entity decoder.
//!
//! A linear single pass over the characters. Outside an escape, characters
//! are copied through. `&` opens an escape and starts buffering a candidate
//! entity name; `;` closes it and emits the named character, or nothing for
//! an unknown name. A name longer than seven characters is flushed verbatim
//! together with the character that overflowed it, and a multi-byte
//! character aborts the escape and is emitted as-is.

use vstd::prelude::*;

use crate::text::{char_len, char_utf8_len, chars_vec, string_from_chars};

verus! {

/// Decoder state: copying characters through, or buffering an entity name.
pub enum State {
    Normal,
    Escape,
}

/// The fixed table of recognized entity names.
pub open spec fn entity_of(name: Seq<char>) -> Option<char> {
    if name == "#34"@ {
        Some('\u{0022}')
    } else if name == "#39"@ {
        Some('\u{0027}')
    } else if name == "#43"@ {
        Some('\u{002b}')
    } else if name == "amp"@ {
        Some('\u{0026}')
    } else if name == "gt"@ {
        Some('\u{003e}')
    } else if name == "hellip"@ {
        Some('\u{2026}')
    } else if name == "ldquo"@ {
        Some('\u{201c}')
    } else if name == "lsquo"@ {
        Some('\u{2018}')
    } else if name == "lt"@ {
        Some('\u{003c}')
    } else if name == "ndash"@ {
        Some('\u{2013}')
    } else if name == "quot"@ {
        Some('\u{0022}')
    } else if name == "rdquo"@ {
        Some('\u{201d}')
    } else if name == "rsquo"@ {
        Some('\u{2019}')
    } else {
        None
    }
}

/// What the state machine emits for the input `s`, entered in state `st`
/// with `buf` already buffered.
pub open spec fn unesc(s: Seq<char>, st: State, buf: Seq<char>) -> Seq<char>
    decreases s.len(),
{
    if s.len() == 0 {
        seq![]
    } else {
        let c = s[0];
        let rest = s.drop_first();
        match st {
            State::Normal => {
                if c == '&' {
                    unesc(rest, State::Escape, seq![])
                } else {
                    seq![c] + unesc(rest, State::Normal, seq![])
                }
            },
            State::Escape => {
                if c == ';' {
                    (match entity_of(buf) {
                        Some(u) => seq![u],
                        None => seq![],
                    }) + unesc(rest, State::Normal, seq![])
                } else if buf.len() == 7 {
                    buf + seq![c] + unesc(rest, State::Normal, seq![])
                } else if char_len(c) == 1 {
                    unesc(rest, State::Escape, buf.push(c))
                } else {
                    seq![c] + unesc(rest, State::Normal, seq![])
                }
            },
        }
    }
}

/// The decoded form of `s`: the state machine run from the start state.
pub open spec fn unescape_spec(s: Seq<char>) -> Seq<char> {
    unesc(s, State::Normal, seq![])
}

/// True when the buffered characters equal the literal's characters.
fn eq_lit(v: &Vec<char>, s: &str) -> (r: bool)
    ensures
        r == (v@ == s@),
{
    let n = s.unicode_len();
    if v.len() != n {
        return false;
    }
    let mut i: usize = 0;
    while i < n
        invariant
            i <= n,
            n == s@.len(),
            v@.len() == n,
            forall|k: int| 0 <= k < i ==> v@[k] == s@[k],
        decreases n - i,
    {
        if v[i] != s.get_char(i) {
            return false;
        }
        i = i + 1;
    }
    proof {
        assert(v@ =~= s@);
    }
    true
}

/// Looks the buffered entity name up in the fixed table.
pub fn do_match(v: &Vec<char>) -> (r: Option<char>)
    ensures
        r == entity_of(v@),
{
    if eq_lit(v, "#34") {
        Some('\u{0022}')
    } else if eq_lit(v, "#39") {
        Some('\u{0027}')
    } else if eq_lit(v, "#43") {
        Some('\u{002b}')
    } else if eq_lit(v, "amp") {
        Some('\u{0026}')
    } else if eq_lit(v, "gt") {
        Some('\u{003e}')
    } else if eq_lit(v, "hellip") {
        Some('\u{2026}')
    } else if eq_lit(v, "ldquo") {
        Some('\u{201c}')
    } else if eq_lit(v, "lsquo") {
        Some('\u{2018}')
    } else if eq_lit(v, "lt") {
        Some('\u{003c}')
    } else if eq_lit(v, "ndash") {
        Some('\u{2013}')
    } else if eq_lit(v, "quot") {
        Some('\u{0022}')
    } else if eq_lit(v, "rdquo") {
        Some('\u{201d}')
    } else if eq_lit(v, "rsquo") {
        Some('\u{2019}')
    } else {
        None
    }
}

/// Runs the state machine over `raw`, appending what it emits to `writer`.
pub fn do_unescape(raw: &str, writer: &mut Vec<char>)
    ensures
        final(writer)@ == old(writer)@ + unescape_spec(raw@),
{
    let cs = chars_vec(raw);
    let mut buf: Vec<char> = Vec::new();
    let mut state = State::Normal;
    let mut i: usize = 0;
    proof {
        assert(raw@.skip(0) =~= raw@);
    }
    while i < cs.len()
        invariant
            i <= cs.len(),
            cs@ == raw@,
            match state {
                State::Normal => buf@.len() == 0,
                State::Escape => buf@.len() <= 7,
            },
            old(writer)@ + unescape_spec(raw@) == writer@ + unesc(
                raw@.skip(i as int),
                state,
                buf@,
            ),
        decreases cs.len() - i,
    {
        let c = cs[i];
        let ghost rem = raw@.skip(i as int);
        let ghost rem1 = raw@.skip(i + 1 as int);
        let ghost pre_w = writer@;
        let ghost pre_buf = buf@;
        proof {
            assert(rem.len() > 0);
            assert(rem[0] == raw@[i as int]);
            assert(rem.drop_first() =~= rem1);
        }
        match state {
            State::Normal => {
                if c == '&' {
                    state = State::Escape;
                    buf.clear();
                    proof {
                        assert(unesc(rem, State::Normal, pre_buf) == unesc(rem1, State::Escape, buf@));
                    }
                } else {
                    writer.push(c);
                    proof {
                        assert(buf@ =~= Seq::<char>::empty());
                        assert(unesc(rem, State::Normal, pre_buf) == seq![c] + unesc(rem1, State::Normal, buf@));
                        assert(pre_w + (seq![c] + unesc(rem1, State::Normal, buf@))
                            =~= writer@ + unesc(rem1, State::Normal, buf@));
                    }
                }
            },
            State::Escape => {
                if c == ';' {
                    let ghost emitted: Seq<char> = match entity_of(pre_buf) {
                        Some(u) => seq![u],
                        None => seq![],
                    };
                    match do_match(&buf) {
                        Some(u) => writer.push(u),
                        None => (),
                    };
                    buf.clear();
                    state = State::Normal;
                    proof {
                        assert(unesc(rem, State::Escape, pre_buf) == emitted + unesc(rem1, State::Normal, buf@));
                        assert(writer@ =~= pre_w + emitted);
                        assert(pre_w + (emitted + unesc(rem1, State::Normal, buf@))
                            =~= writer@ + unesc(rem1, State::Normal, buf@));
                    }
                } else if buf.len() == 7 {
                    writer.append(&mut buf);
                    writer.push(c);
                    buf.clear();
                    state = State::Normal;
                    proof {
                        assert(unesc(rem, State::Escape, pre_buf) == pre_buf + seq![c] + unesc(rem1, State::Normal, buf@));
                        assert(writer@ =~= pre_w + pre_buf + seq![c]);
                        assert(pre_w + (pre_buf + seq![c] + unesc(rem1, State::Normal, buf@))
                            =~= writer@ + unesc(rem1, State::Normal, buf@));
                    }
                } else if char_utf8_len(c) == 1 {
                    buf.push(c);
                    proof {
                        assert(buf@ == pre_buf.push(c));
                        assert(unesc(rem, State::Escape, pre_buf) == unesc(rem1, State::Escape, buf@));
                    }
                } else {
                    state = State::Normal;
                    writer.push(c);
                    buf.clear();
                    proof {
                        assert(unesc(rem, State::Escape, pre_buf) == seq![c] + unesc(rem1, State::Normal, buf@));
                        assert(pre_w + (seq![c] + unesc(rem1, State::Normal, buf@))
                            =~= writer@ + unesc(rem1, State::Normal, buf@));
                    }
                }
            },
        }
        i = i + 1;
    }
    proof {
        assert(raw@.skip(cs@.len() as int) =~= Seq::<char>::empty());
        assert(writer@ =~= old(writer)@ + unescape_spec(raw@));
    }
}

/// Decodes the HTML character references in `html`.
pub fn decode_html_chars(html: &str) -> (r: String)
    ensures
        r@ == unescape_spec(html@),
{
    let mut writer: Vec<char> = Vec::new();
    do_unescape(html, &mut writer);
    string_from_chars(&writer)
}

} // verus!
