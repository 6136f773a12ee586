use blog_search::console::{parse_dev_args, parse_i64, split_on};

#[test]
fn splitting_keeps_empty_pieces() {
    assert_eq!(split_on("a,b,,c", ','), vec!["a", "b", "", "c"]);
    assert_eq!(split_on("", ','), vec![""]);
    assert_eq!(split_on("1-10", '-'), vec!["1", "10"]);
}

#[test]
fn integer_arguments_parse_with_bounds() {
    assert_eq!(parse_i64("0"), Some(0));
    assert_eq!(parse_i64("42"), Some(42));
    assert_eq!(parse_i64("+7"), Some(7));
    assert_eq!(parse_i64("-7"), Some(-7));
    assert_eq!(parse_i64("9223372036854775807"), Some(i64::MAX));
    assert_eq!(parse_i64("-9223372036854775808"), Some(i64::MIN));
    assert_eq!(parse_i64("9223372036854775808"), None);
    assert_eq!(parse_i64("00000000000000000000042"), Some(42));
    assert_eq!(parse_i64(""), None);
    assert_eq!(parse_i64("-"), None);
    assert_eq!(parse_i64("1x"), None);
}

#[test]
fn console_lines_become_request_parameters() {
    let (pages, range, terms, q) =
        parse_dev_args("1-10,2022-09-15~,tags:rust category:tech,hello  world").unwrap();
    assert_eq!(pages, vec![1, 10]);
    assert_eq!(range, vec![1663200000, 0]);
    assert_eq!(terms, vec!["tags:rust", "category:tech"]);
    // The doubled space leaves an empty keyword, which is filtered out.
    assert_eq!(q, vec!["hello", "world"]);
}

#[test]
fn malformed_console_lines_are_refused() {
    assert!(parse_dev_args("only,three,parts").is_none());
    assert!(parse_dev_args("x-2,~,t,k").is_none()); // page is not a number
}
