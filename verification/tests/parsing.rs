use minihttp::parse::{parse, ParseResult};
use minihttp::request::Request;
use minihttp::headers::HeaderMap;
use minihttp::verb::{verb_of_token, HttpVerb};

fn parsed(buf: &[u8]) -> Request {
    match parse(buf) {
        ParseResult::Req(r) => r,
        _ => panic!("expected a parsed request"),
    }
}

fn header<'a>(r: &'a Request, name: &str) -> &'a [u8] {
    r.headers.get(name.as_bytes()).expect("header missing").as_slice()
}

#[test]
fn simple_get_reflects_input() {
    let r = parsed(b"GET /index.html HTTP/1.1\r\nHost: localhost\r\n\r\n");
    assert_eq!(r.verb, HttpVerb::GET);
    assert_eq!(r.path, b"/index.html".to_vec());
    assert_eq!(header(&r, "host"), b"localhost");
    assert_eq!(r.body, Vec::<u8>::new());
}

#[test]
fn two_tokens_is_malformed() {
    assert!(matches!(parse(b"GET /\r\n\r\n"), ParseResult::Malformed));
}

#[test]
fn four_tokens_is_malformed() {
    assert!(matches!(
        parse(b"GET /a b HTTP/1.1\r\n\r\n"),
        ParseResult::Malformed
    ));
}

#[test]
fn double_space_is_malformed() {
    assert!(matches!(
        parse(b"GET  / HTTP/1.1\r\n\r\n"),
        ParseResult::Malformed
    ));
}

#[test]
fn empty_buffer_is_malformed() {
    assert!(matches!(parse(b""), ParseResult::Malformed));
}

#[test]
fn every_known_method_maps_to_its_verb() {
    assert_eq!(verb_of_token(b"GET"), HttpVerb::GET);
    assert_eq!(verb_of_token(b"POST"), HttpVerb::POST);
    assert_eq!(verb_of_token(b"PUT"), HttpVerb::PUT);
    assert_eq!(verb_of_token(b"DELETE"), HttpVerb::DELETE);
    assert_eq!(verb_of_token(b"HEAD"), HttpVerb::HEAD);
    assert_eq!(verb_of_token(b"OPTIONS"), HttpVerb::OPTIONS);
    assert_eq!(verb_of_token(b"TRACE"), HttpVerb::TRACE);
    assert_eq!(verb_of_token(b"CONNECT"), HttpVerb::CONNECT);
}

#[test]
fn unknown_method_degrades_to_get() {
    assert_eq!(verb_of_token(b"PATCH"), HttpVerb::GET);
    assert_eq!(verb_of_token(b"get"), HttpVerb::GET);
    let r = parsed(b"BREW /pot HTTP/1.1\r\n\r\n");
    assert_eq!(r.verb, HttpVerb::GET);
}

#[test]
fn default_verb_is_get() {
    assert_eq!(HttpVerb::default(), HttpVerb::GET);
}

#[test]
fn relative_path_short_circuits() {
    assert!(matches!(
        parse(b"GET foo HTTP/1.1\r\n\r\n"),
        ParseResult::ShortCircuit
    ));
}

#[test]
fn all_slash_path_short_circuits() {
    assert!(matches!(
        parse(b"GET / HTTP/1.1\r\n\r\n"),
        ParseResult::ShortCircuit
    ));
    assert!(matches!(
        parse(b"GET /// HTTP/1.1\r\n\r\n"),
        ParseResult::ShortCircuit
    ));
}

#[test]
fn header_names_are_lowercased() {
    let r = parsed(b"GET /x HTTP/1.1\r\nUser-Agent: curl/7.1\r\n\r\n");
    assert_eq!(header(&r, "user-agent"), b"curl/7.1");
    assert!(r.headers.get(b"User-Agent").is_none());
}

#[test]
fn duplicate_header_last_write_wins() {
    let r = parsed(b"GET /x HTTP/1.1\r\nX-One: a\r\nx-one: b\r\n\r\n");
    assert_eq!(header(&r, "x-one"), b"b");
    assert_eq!(r.headers.len(), 1);
}

#[test]
fn header_without_colon_is_skipped() {
    let r = parsed(b"GET /x HTTP/1.1\r\nnocolonhere\r\nGood: yes\r\n\r\n");
    assert_eq!(r.headers.len(), 1);
    assert_eq!(header(&r, "good"), b"yes");
}

#[test]
fn header_value_keeps_later_colons() {
    let r = parsed(b"GET /x HTTP/1.1\r\nHost: localhost:8080\r\n\r\n");
    assert_eq!(header(&r, "host"), b"localhost:8080");
}

#[test]
fn header_names_and_values_are_trimmed() {
    let r = parsed(b"GET /x HTTP/1.1\r\n  Spaced  :  padded value \r\n\r\n");
    assert_eq!(header(&r, "spaced"), b"padded value");
}

#[test]
fn body_follows_declared_length() {
    let r = parsed(b"POST /up HTTP/1.1\r\ncontent-length: 4\r\n\r\ndata-and-more");
    assert_eq!(r.body, b"data".to_vec());
}

#[test]
fn body_clamps_to_buffer() {
    let r = parsed(b"POST /up HTTP/1.1\r\ncontent-length: 100\r\n\r\nshort");
    assert_eq!(r.body, b"short".to_vec());
}

#[test]
fn missing_content_length_means_empty_body() {
    let r = parsed(b"POST /up HTTP/1.1\r\n\r\nignored");
    assert_eq!(r.body, Vec::<u8>::new());
}

#[test]
fn unreadable_content_length_means_empty_body() {
    let r = parsed(b"POST /up HTTP/1.1\r\ncontent-length: 12a\r\n\r\nignored");
    assert_eq!(r.body, Vec::<u8>::new());
}

#[test]
fn no_boundary_means_empty_body() {
    let r = parsed(b"POST /up HTTP/1.1\r\ncontent-length: 4");
    assert_eq!(r.body, Vec::<u8>::new());
}

#[test]
fn body_text_decodes_ascii() {
    let r = parsed(b"POST /up HTTP/1.1\r\ncontent-length: 4\r\n\r\ndata");
    assert_eq!(r.body_text(), "data");
}

#[test]
fn body_text_replaces_invalid_utf8() {
    let r = parsed(b"POST /up HTTP/1.1\r\ncontent-length: 1\r\n\r\n\xff");
    assert_eq!(r.body_text(), "\u{FFFD}");
    assert_eq!(r.body, vec![0xffu8]);
}

#[test]
fn path_text_decodes() {
    let r = parsed(b"GET /echo/hi HTTP/1.1\r\n\r\n");
    assert_eq!(r.path_text(), "/echo/hi");
}

#[test]
fn request_header_lookup_via_map() {
    let mut m = HeaderMap::new();
    m.insert(b"a".to_vec(), b"1".to_vec());
    m.insert(b"b".to_vec(), b"2".to_vec());
    m.insert(b"a".to_vec(), b"3".to_vec());
    assert_eq!(m.len(), 2);
    assert_eq!(m.get(b"a").unwrap().as_slice(), b"3");
    assert_eq!(m.get(b"b").unwrap().as_slice(), b"2");
    assert!(m.get(b"c").is_none());
    assert!(m.contains_key(b"b"));
}
