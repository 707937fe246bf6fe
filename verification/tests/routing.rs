use minihttp::headers::HeaderMap;
use minihttp::route::{content_type_for, static_get_response, HttpAction};
use minihttp::server::Server;
use minihttp::verb::HttpVerb;

fn respond(status: Option<u16>, body: Option<&[u8]>, headers: Option<HeaderMap>) -> Vec<u8> {
    Server::respond(status, body.map(|b| b.to_vec()), headers)
}

#[test]
fn render_ok_body_exact_bytes() {
    let r = respond(Some(200), Some(b"ok"), None);
    assert_eq!(
        r,
        b"HTTP/1.1 200 OK\r\nContent-Type: text/plain\r\nContent-Length: 2\r\n\r\nok".to_vec()
    );
}

#[test]
fn render_defaults_to_200_empty() {
    let r = respond(None, None, None);
    assert_eq!(r, b"HTTP/1.1 200 OK\r\n\r\n\r\n".to_vec());
}

#[test]
fn render_404_empty_body() {
    let r = respond(Some(404), None, None);
    assert_eq!(r, b"HTTP/1.1 404 Not Found\r\n\r\n\r\n".to_vec());
}

#[test]
fn render_unknown_code() {
    let r = respond(Some(500), None, None);
    assert_eq!(r, b"HTTP/1.1 500 Unknown\r\n\r\n\r\n".to_vec());
}

#[test]
fn render_reason_table() {
    assert!(respond(Some(201), None, None).starts_with(b"HTTP/1.1 201 Created\r\n"));
    assert!(respond(Some(400), None, None).starts_with(b"HTTP/1.1 400 Bad Request\r\n"));
    assert!(respond(Some(401), None, None).starts_with(b"HTTP/1.1 401 Unauthorized\r\n"));
    assert!(respond(Some(403), None, None).starts_with(b"HTTP/1.1 403 Forbidden\r\n"));
}

#[test]
fn render_keeps_caller_content_type() {
    let mut h = HeaderMap::new();
    h.insert(b"Content-Type".to_vec(), b"text/html".to_vec());
    let r = respond(Some(200), Some(b"<p>"), Some(h));
    assert_eq!(
        r,
        b"HTTP/1.1 200 OK\r\nContent-Type: text/html\r\nContent-Length: 3\r\n\r\n<p>".to_vec()
    );
}

#[test]
fn render_is_idempotent() {
    let a = respond(Some(200), Some(b"twice"), None);
    let b = respond(Some(200), Some(b"twice"), None);
    assert_eq!(a, b);
}

fn request_action(server: &Server, raw: &[u8]) -> HttpAction {
    server.registry().handle_request(raw)
}

#[test]
fn unregistered_path_yields_404() {
    let server = Server::new(4221);
    match request_action(&server, b"GET /missing HTTP/1.1\r\n\r\n") {
        HttpAction::Respond(bytes) => {
            assert_eq!(bytes, b"HTTP/1.1 404 Not Found\r\n\r\n\r\n".to_vec());
        }
        _ => panic!("expected an immediate response"),
    }
}

#[test]
fn malformed_request_yields_400() {
    let server = Server::new(4221);
    match request_action(&server, b"GET /\r\n\r\n") {
        HttpAction::Respond(bytes) => {
            assert_eq!(bytes, b"HTTP/1.1 400 Bad Request\r\n\r\n\r\n".to_vec());
        }
        _ => panic!("expected an immediate response"),
    }
}

#[test]
fn non_absolute_target_yields_empty_200() {
    let server = Server::new(4221);
    match request_action(&server, b"GET favicon HTTP/1.1\r\n\r\n") {
        HttpAction::Respond(bytes) => {
            assert_eq!(bytes, b"HTTP/1.1 200 OK\r\n\r\n\r\n".to_vec());
        }
        _ => panic!("expected an immediate response"),
    }
}

#[test]
fn wildcard_endpoint_matches_by_prefix() {
    let mut server = Server::new(4221);
    let idx = server.get(b"echo/*".to_vec());
    assert_eq!(idx, 0);
    match request_action(&server, b"GET /echo/abc HTTP/1.1\r\n\r\n") {
        HttpAction::CallHandler(i, req) => {
            assert_eq!(i, 0);
            assert_eq!(req.path, b"/echo/abc".to_vec());
            assert_eq!(req.verb, HttpVerb::GET);
        }
        _ => panic!("expected a handler call"),
    }
}

#[test]
fn pattern_starting_with_request_matches() {
    // The non-wildcard check runs in the historical direction: the pattern
    // must begin with the requested path.
    let mut server = Server::new(4221);
    server.get(b"/users".to_vec());
    match request_action(&server, b"GET /use HTTP/1.1\r\n\r\n") {
        HttpAction::CallHandler(i, _) => assert_eq!(i, 0),
        _ => panic!("expected a handler call"),
    }
    // The reverse does not hold for a pattern without a star.
    match request_action(&server, b"GET /users/1 HTTP/1.1\r\n\r\n") {
        HttpAction::Respond(bytes) => {
            assert_eq!(bytes, b"HTTP/1.1 404 Not Found\r\n\r\n\r\n".to_vec());
        }
        _ => panic!("expected a response"),
    }
}

#[test]
fn verb_must_match_endpoint() {
    let mut server = Server::new(4221);
    server.post(b"/submit".to_vec());
    match request_action(&server, b"GET /submit HTTP/1.1\r\n\r\n") {
        HttpAction::Respond(bytes) => {
            assert_eq!(bytes, b"HTTP/1.1 404 Not Found\r\n\r\n\r\n".to_vec());
        }
        _ => panic!("expected a response"),
    }
}

#[test]
fn registering_same_key_reuses_slot() {
    let mut server = Server::new(4221);
    assert_eq!(server.get(b"/a".to_vec()), 0);
    assert_eq!(server.get(b"/b".to_vec()), 1);
    assert_eq!(server.get(b"/a".to_vec()), 0);
    assert_eq!(server.get(b"a".to_vec()), 0);
    assert_eq!(server.post(b"/a".to_vec()), 2);
}

#[test]
fn static_get_plans_file_read() {
    let mut server = Server::new(4221);
    server.serve(b"files".to_vec(), b"/tmp/root".to_vec(), false);
    match request_action(&server, b"GET /files/a.txt HTTP/1.1\r\n\r\n") {
        HttpAction::TryRead(i, path, req) => {
            assert_eq!(i, 0);
            assert_eq!(path, b"/tmp/root/a.txt".to_vec());
            assert_eq!(req.path, b"/files/a.txt".to_vec());
        }
        _ => panic!("expected a file read"),
    }
}

#[test]
fn static_get_success_renders_contents() {
    let r = static_get_response(b"/tmp/root/a.txt", b"hi".to_vec());
    assert_eq!(
        r,
        b"HTTP/1.1 200 OK\r\nContent-Type: application/octet-stream\r\nContent-Length: 2\r\n\r\nhi"
            .to_vec()
    );
}

#[test]
fn static_read_failure_falls_through_to_404() {
    let mut server = Server::new(4221);
    server.serve(b"files".to_vec(), b"/tmp/root".to_vec(), false);
    let raw = b"GET /files/a.txt HTTP/1.1\r\n\r\n";
    let req = match minihttp::parse::parse(raw) {
        minihttp::parse::ParseResult::Req(r) => r,
        _ => panic!("expected a parsed request"),
    };
    match server.registry().next_static_action(req, 1) {
        HttpAction::Respond(bytes) => {
            assert_eq!(bytes, b"HTTP/1.1 404 Not Found\r\n\r\n\r\n".to_vec());
        }
        _ => panic!("expected a response"),
    }
}

#[test]
fn upload_enabled_post_plans_file_write() {
    let mut server = Server::new(4221);
    server.serve(b"files".to_vec(), b"/up".to_vec(), true);
    match request_action(
        &server,
        b"POST /files/new.txt HTTP/1.1\r\ncontent-length: 4\r\n\r\ndata",
    ) {
        HttpAction::TryWrite(i, path, body) => {
            assert_eq!(i, 0);
            assert_eq!(path, b"/up/new.txt".to_vec());
            assert_eq!(body, b"data".to_vec());
        }
        _ => panic!("expected a file write"),
    }
}

#[test]
fn upload_disabled_post_falls_through_to_404() {
    let mut server = Server::new(4221);
    server.serve(b"files".to_vec(), b"/up".to_vec(), false);
    match request_action(
        &server,
        b"POST /files/new.txt HTTP/1.1\r\ncontent-length: 4\r\n\r\ndata",
    ) {
        HttpAction::Respond(bytes) => {
            assert_eq!(bytes, b"HTTP/1.1 404 Not Found\r\n\r\n\r\n".to_vec());
        }
        _ => panic!("expected a response, not a write"),
    }
}

#[test]
fn serving_empty_directory_is_a_no_op() {
    let mut server = Server::new(4221);
    server.serve(b"files".to_vec(), b"".to_vec(), true);
    match request_action(&server, b"GET /files/a.txt HTTP/1.1\r\n\r\n") {
        HttpAction::Respond(bytes) => {
            assert_eq!(bytes, b"HTTP/1.1 404 Not Found\r\n\r\n\r\n".to_vec());
        }
        _ => panic!("expected a response"),
    }
}

#[test]
fn content_type_table() {
    assert_eq!(content_type_for(b"/x/a.html"), b"text/html".to_vec());
    assert_eq!(content_type_for(b"/x/a.css"), b"text/css".to_vec());
    assert_eq!(content_type_for(b"/x/a.js"), b"text/javascript".to_vec());
    assert_eq!(content_type_for(b"/x/a.png"), b"image/png".to_vec());
    assert_eq!(
        content_type_for(b"/x/a.txt"),
        b"application/octet-stream".to_vec()
    );
    assert_eq!(
        content_type_for(b"/x/noext"),
        b"application/octet-stream".to_vec()
    );
    assert_eq!(content_type_for(b"/x/a.min.js"), b"text/javascript".to_vec());
}

#[test]
fn serving_same_prefix_again_replaces_binding() {
    let mut server = Server::new(4221);
    server.serve(b"files".to_vec(), b"/old".to_vec(), false);
    server.serve(b"files".to_vec(), b"/new".to_vec(), false);
    match request_action(&server, b"GET /files/a.txt HTTP/1.1\r\n\r\n") {
        HttpAction::TryRead(i, path, _) => {
            assert_eq!(i, 0);
            assert_eq!(path, b"/new/a.txt".to_vec());
        }
        _ => panic!("expected a file read"),
    }
}

#[test]
fn handler_call_carries_headers_and_body() {
    let mut server = Server::new(4221);
    server.post(b"submit/*".to_vec());
    let raw = b"POST /submit/x HTTP/1.1\r\nX-Tag: yes\r\ncontent-length: 3\r\n\r\nabc";
    match request_action(&server, raw) {
        HttpAction::CallHandler(i, req) => {
            assert_eq!(i, 0);
            assert_eq!(req.verb, HttpVerb::POST);
            assert_eq!(req.headers.get(b"x-tag").unwrap().as_slice(), b"yes");
            assert_eq!(req.body, b"abc".to_vec());
        }
        _ => panic!("expected a handler call"),
    }
}

#[test]
fn server_port_is_kept() {
    let server = Server::new(4221);
    assert_eq!(server.port(), 4221);
}
