use blog_search::tokenizer::{cut_string, UTF8Tokenizer};

#[test]
fn all_alphabetic_input_is_one_lowercased_token() {
    let stream = UTF8Tokenizer {}.token_stream("HeLLo");
    assert_eq!(stream.tokens.len(), 1);
    assert_eq!(stream.tokens[0].text, "hello");
    assert_eq!(stream.tokens[0].offset_from, 0);
    assert_eq!(stream.tokens[0].offset_to, 5);
}

#[test]
fn mixed_script_input_splits_words_and_characters() {
    let words = cut_string("the日本語test");
    assert_eq!(words, vec!["the", "日", "本", "語", "test"]);

    let stream = UTF8Tokenizer {}.token_stream("the日本語test");
    assert_eq!(stream.tokens.len(), 5);
    let texts: Vec<&str> = stream.tokens.iter().map(|t| t.text.as_str()).collect();
    assert_eq!(texts, vec!["the", "日", "本", "語", "test"]);
    // Byte offsets strictly increase and end at the input's byte length.
    let mut prev_from = 0;
    let mut end = 0;
    for (i, t) in stream.tokens.iter().enumerate() {
        if i > 0 {
            assert!(t.offset_from > prev_from);
        }
        assert_eq!(t.offset_from, end);
        end = t.offset_to;
        prev_from = t.offset_from;
    }
    assert_eq!(end, "the日本語test".len());
    assert_eq!(end, 16);
}

#[test]
fn punctuation_and_whitespace_are_single_tokens() {
    let words = cut_string("a b,c");
    assert_eq!(words, vec!["a", " ", "b", ",", "c"]);
}

#[test]
fn token_stream_advances_in_order() {
    let mut stream = UTF8Tokenizer {}.token_stream("ab 你");
    let mut seen: Vec<String> = Vec::new();
    while stream.advance() {
        seen.push(stream.token().text.clone());
    }
    assert_eq!(seen, vec!["ab", " ", "你"]);
}

#[test]
fn empty_input_yields_no_tokens() {
    assert_eq!(cut_string("").len(), 0);
    assert_eq!(UTF8Tokenizer {}.token_stream("").tokens.len(), 0);
}
