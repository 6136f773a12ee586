use blog_search::ipc::{decode_result, encode_params, encode_result, extract_params};

fn strings(v: &[&str]) -> Vec<String> {
    v.iter().map(|s| s.to_string()).collect()
}

#[test]
fn request_roundtrip() {
    let pages: Vec<i64> = vec![1, 10];
    let range: Vec<i64> = vec![0, 1663200000];
    let terms = strings(&["tags:rust", "category:tech"]);
    let keywords = strings(&["hello", "-spam"]);
    let payload = encode_params(&pages, &range, &terms, &keywords);
    let (p, r, t, q) = extract_params(payload.as_slice()).unwrap();
    assert_eq!(p, pages);
    assert_eq!(r, range);
    assert_eq!(t, terms);
    assert_eq!(q, keywords);
}

#[test]
fn request_roundtrip_filters_empty_keywords() {
    let payload = encode_params(
        &vec![],
        &vec![-5, 7],
        &strings(&[]),
        &strings(&["a", "", "b", ""]),
    );
    let (p, r, _t, q) = extract_params(payload.as_slice()).unwrap();
    assert_eq!(p, Vec::<i64>::new());
    assert_eq!(r, vec![-5, 7]);
    assert_eq!(q, strings(&["a", "b"]));
}

#[test]
fn request_roundtrip_nonascii_strings() {
    let payload = encode_params(
        &vec![1, 1],
        &vec![0, 0],
        &strings(&["tags:日本語"]),
        &strings(&["你好"]),
    );
    let (_p, _r, t, q) = extract_params(payload.as_slice()).unwrap();
    assert_eq!(t, strings(&["tags:日本語"]));
    assert_eq!(q, strings(&["你好"]));
}

#[test]
fn truncated_request_is_an_error() {
    let pages: Vec<i64> = vec![1, 10];
    let payload = encode_params(&pages, &vec![], &strings(&[]), &strings(&[]));
    // Drop the last byte: the final list header no longer fits.
    let cut = &payload[..payload.len() - 1];
    assert!(extract_params(cut).is_err());
    // An empty buffer has no lists at all.
    assert!(extract_params(&[]).is_err());
}

#[test]
fn invalid_utf8_in_string_list_is_an_error() {
    // One term list entry whose bytes are not UTF-8.
    let mut payload = Vec::new();
    // pages: empty integer list
    payload.extend_from_slice(&[0, 0, 0, 0, 0]);
    // range: empty integer list
    payload.extend_from_slice(&[0, 0, 0, 0, 0]);
    // terms: one 1-byte string with an invalid byte
    payload.extend_from_slice(&[0, 0, 0, 0, 6]);
    payload.extend_from_slice(&[0, 0, 0, 0, 1, 0xff]);
    // keywords: empty string list
    payload.extend_from_slice(&[0, 0, 0, 0, 0]);
    assert!(extract_params(&payload).is_err());
}

#[test]
fn response_frame_layout() {
    let frame = encode_result("ok".to_string());
    // [4-byte total][marker][4-byte payload length][payload]
    assert_eq!(frame.len(), 11);
    let total = u32::from_be_bytes([frame[0], frame[1], frame[2], frame[3]]);
    let plen = u32::from_be_bytes([frame[5], frame[6], frame[7], frame[8]]);
    assert_eq!(plen, 2);
    assert_eq!(total, plen + 5);
    assert_eq!(&frame[9..], b"ok");
}

#[test]
fn response_roundtrip() {
    let frame = encode_result("ok".to_string());
    assert_eq!(decode_result(frame.as_slice()).unwrap(), "ok");

    let frame2 = encode_result("{\"count\":0,\"data\":[]}".to_string());
    assert_eq!(
        decode_result(frame2.as_slice()).unwrap(),
        "{\"count\":0,\"data\":[]}"
    );
}

#[test]
fn response_with_wrong_total_is_an_error() {
    let mut frame = encode_result("ok".to_string());
    frame[3] = frame[3].wrapping_add(1);
    assert!(decode_result(frame.as_slice()).is_err());
    assert!(decode_result(&frame[..8]).is_err());
}
