use blog_search::migrate::{
    clean_content, collapse_whitespace, extract_xml_content, parse_feed, parse_url, parse_xml,
    plan_ingest, strip_markup, trim_text, Blog,
};

const FEED: &str = "HTTP/1.1 200 OK\r\nContent-Type: application/xml\r\n\r\n\
<?xml version=\"1.0\"?>\
<feed xmlns=\"http://www.w3.org/2005/Atom\">\
<title>A blog</title>\
<entry>\
<title>Hello &amp; Welcome</title>\
<published>2022-09-15T23:45:08+08:00</published>\
<category term=\"tech\" label=\"Tech\"/>\
<category term=\"Rust\"/>\
<link href=\"https://example.org/hello\"/>\
<content type=\"html\"><![CDATA[<p>Some   <b>bold</b>\ntext&hellip;</p>]]></content>\
</entry>\
<entry>\
<title>Second</title>\
<published>2022-09-16T00:00:00+00:00</published>\
<category term=\"life\" label=\"Life\"/>\
<link href=\"https://example.org/second\"/>\
</entry>\
</feed>";

#[test]
fn whole_feed_parses_into_entries() {
    let blogs = parse_feed(FEED).unwrap();
    assert_eq!(blogs.len(), 2);
    let b = &blogs[0];
    assert_eq!(b.title, "Hello & Welcome");
    assert_eq!(b.url, "https://example.org/hello");
    assert_eq!(b.date, 1663256708);
    assert_eq!(b.category, "tech");
    assert_eq!(b.tags, vec!["Rust"]);
    assert_eq!(b.content, "Some bold text\u{2026}");
    let b2 = &blogs[1];
    assert_eq!(b2.title, "Second");
    assert_eq!(b2.category, "life");
    assert!(b2.tags.is_empty());
    assert_eq!(b2.content, "");
}

#[test]
fn feed_without_envelope_is_an_error() {
    assert!(parse_feed("HTTP/1.1 404 Not Found\r\n\r\nnothing here").is_err());
}

#[test]
fn entry_with_bad_published_stamp_is_an_error() {
    let doc = "<feed x=\"y\"><entry><title>t</title>\
               <published>yesterday</published></entry></feed>";
    assert!(parse_feed(doc).is_err());
}

#[test]
fn envelope_extraction_strips_transport_noise() {
    let x = extract_xml_content("junk<feed a=\"b\">inner</feed>junk").unwrap();
    assert_eq!(x, "inner");
    assert!(extract_xml_content("no feed here").is_none());
}

#[test]
fn markup_stripping_and_whitespace() {
    assert_eq!(strip_markup("<p>a</p> <!-- note --> b<div>x</div>c"), "a  bc");
    assert_eq!(strip_markup("<script>var x = 1;</script>done"), "done");
    assert_eq!(strip_markup("1 < 2 but <em>big</em>"), "1 < 2 but big");
    assert_eq!(collapse_whitespace("a \n\u{a0} b"), "a b");
    assert_eq!(trim_text("  hi there\n"), "hi there");
    assert_eq!(clean_content("<p>A&nbsp;B   &amp; C</p>\n"), "AB & C");
}

#[test]
fn feed_url_splits_into_host_and_path() {
    let (host, path) = parse_url("https://blog.example.org/atom.xml").unwrap();
    assert_eq!(host, "blog.example.org");
    assert_eq!(path, "/atom.xml");
    assert!(parse_url("http://insecure.example.org/x").is_none());
}

fn sample_blog(url: &str) -> Blog {
    Blog {
        title: "t".to_string(),
        content: "c".to_string(),
        url: url.to_string(),
        date: 0,
        category: "cat".to_string(),
        tags: vec![],
    }
}

#[test]
fn second_ingestion_pass_adds_nothing() {
    let blogs = vec![sample_blog("https://e/a"), sample_blog("https://e/b")];
    // First pass: the index holds neither URL.
    let first = plan_ingest(&blogs, &vec![false, false]);
    assert_eq!(first, vec![0, 1]);
    assert_eq!(first.len(), 2);
    // Second pass over the same feed: every URL is already present, and
    // the update count is zero.
    let second = plan_ingest(&blogs, &vec![true, true]);
    assert_eq!(second.len(), 0);
}

#[test]
fn only_absent_urls_are_selected() {
    let blogs = vec![sample_blog("a"), sample_blog("b"), sample_blog("c")];
    let idx = plan_ingest(&blogs, &vec![true, false, true]);
    assert_eq!(idx, vec![1]);
}

#[test]
fn parse_xml_handles_no_entries() {
    let blogs = parse_xml("<title>empty feed</title>").unwrap();
    assert_eq!(blogs.len(), 0);
}
