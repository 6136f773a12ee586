use blog_search::unescape::{decode_html_chars, do_match};

#[test]
fn test_f() {
    assert_eq!(' ', '\u{a0}');
    let test_str = "你好 礼服";
    for x in test_str.chars() {
        println!("{:?}", x);
    }
}

#[test]
fn test_binary_search() {
    let mut v: Vec<char> = vec![];
    v.push('\u{0}');
    let s: String = v.iter().collect();
    println!("{}", s.is_empty());
    let name: Vec<char> = "lsquo".chars().collect();
    match do_match(&name) {
        None => println!("err match: {}", "lsquo"),
        Some(u) => println!("{:?}", u),
    }
    assert_eq!(do_match(&name), Some('\u{2018}'));
}

#[test]
fn test_decode_htlm() {
    let after = decode_html_chars("&lt;你好，&你姐姐&gt;");
    println!("{:?}", after);
    assert_eq!(after, "<你好，你姐姐>");
}

#[test]
fn test_regex() {
    // Whitespace characters removed one by one, then entities decoded.
    let a: String = "Python 中的 lambda 无法使用赋值（=）符号；"
        .chars()
        .filter(|c| !matches!(c, '\n' | '\u{20}' | '\u{a0}'))
        .collect();
    let b = decode_html_chars(&a);
    println!("after replace, {:?}", b);
    assert_eq!(b, "Python中的lambda无法使用赋值（=）符号；");
}

#[test]
fn decode_named_entities() {
    assert_eq!(decode_html_chars("&lt;hi&gt;"), "<hi>");
    assert_eq!(decode_html_chars("100% &amp; rising"), "100% & rising");
    assert_eq!(decode_html_chars("&hellip;"), "\u{2026}");
    assert_eq!(decode_html_chars("&#39;&#34;&#43;"), "'\"+");
}

#[test]
fn decode_unknown_entity_drops_it() {
    assert_eq!(decode_html_chars("a&bogus;b"), "ab");
}

#[test]
fn decode_overlong_entity_is_flushed_verbatim() {
    // Seven buffered characters plus the overflowing one come out as-is.
    assert_eq!(decode_html_chars("a&abcdefgh;b"), "aabcdefgh;b");
}

#[test]
fn decode_multibyte_aborts_escape() {
    // A multi-byte character while buffering drops the buffer and is
    // emitted unchanged.
    assert_eq!(decode_html_chars("&lt你"), "你");
}
