//! The workbench server's decisions: request heads, routes, run checks,
//! response heads and diagnostic reports.

use snacc_compiler::tools::PositionReport;
use snacc_compiler::workbench::{
    authorized, diagnostic_reports, find_head_end, forbidden, head_too_large, initial_body, parse_head, response_head,
    route, validate_run, RequestHead, Route, MAX_HEAD, MAX_REQUEST_BODY,
};
use snacc_compiler::{Diagnostic, DiagnosticPhase, Diagnostics};

const PORT: u16 = 4321;
const TOKEN: &str = "0123456789abcdef0123456789abcdef0123456789abcdef0123456789abcdef";

fn head(text: &str) -> RequestHead {
    parse_head(text).unwrap_or_else(|e| panic!("{text:?} should be a request head: {e:?}"))
}

fn refusal(text: &str) -> (String, String) {
    match parse_head(text) {
        Ok(h) => panic!("{text:?} should be refused, got {h:?}"),
        Err(e) => (e.status.to_string(), e.message),
    }
}

fn routed(text: &str) -> Route {
    route(&head(text), PORT, TOKEN)
}

fn refused(r: Route) -> (String, String) {
    match r {
        Route::Refuse(e) => (e.status.to_string(), e.message),
        other => panic!("expected a refusal, got {other:?}"),
    }
}

#[test]
fn a_request_head_gives_method_target_headers_and_length() {
    let h = head("POST /api/run HTTP/1.1\r\nHost: 127.0.0.1:4321\r\nContent-Length:  12 \r\nX-Snacc-Session: abc");
    assert_eq!(h.method, "POST");
    assert_eq!(h.path, "/api/run");
    assert_eq!(h.content_length, 12);
    assert_eq!(
        h.headers,
        vec![
            ("host".to_string(), "127.0.0.1:4321".to_string()),
            ("content-length".to_string(), "12".to_string()),
            ("x-snacc-session".to_string(), "abc".to_string()),
        ]
    );
}

#[test]
fn a_missing_content_length_means_an_empty_body() {
    assert_eq!(head("GET / HTTP/1.1\r\nHost: x").content_length, 0);
    assert_eq!(head("GET / HTTP/1.1").content_length, 0);
    assert_eq!(head("GET / HTTP/1.1\r\nContent-Length: +7").content_length, 7);
}

#[test]
fn only_http_1_1_request_lines_are_read() {
    let expected = ("400 Bad Request".to_string(), "only HTTP/1.1 requests are supported".to_string());
    assert_eq!(refusal("GET / HTTP/1.0"), expected);
    assert_eq!(refusal("GET /"), expected);
    assert_eq!(refusal("GET / HTTP/1.1 extra"), expected);
    assert_eq!(refusal(""), expected);
}

#[test]
fn a_header_line_needs_a_colon() {
    assert_eq!(
        refusal("GET / HTTP/1.1\r\nnot a header"),
        ("400 Bad Request".to_string(), "malformed request header".to_string())
    );
}

#[test]
fn content_length_must_be_a_count_within_the_body_limit() {
    let invalid = ("400 Bad Request".to_string(), "invalid Content-Length".to_string());
    assert_eq!(refusal("GET / HTTP/1.1\r\nContent-Length: -1"), invalid);
    assert_eq!(refusal("GET / HTTP/1.1\r\nContent-Length: 1x"), invalid);
    assert_eq!(refusal("GET / HTTP/1.1\r\nContent-Length:"), invalid);
    assert_eq!(refusal("GET / HTTP/1.1\r\nContent-Length: 99999999999999999999999"), invalid);
    assert_eq!(
        refusal(&format!("GET / HTTP/1.1\r\nContent-Length: {}", MAX_REQUEST_BODY + 1)),
        ("413 Payload Too Large".to_string(), "request body exceeds the 320 KiB limit".to_string())
    );
    assert_eq!(head(&format!("GET / HTTP/1.1\r\nContent-Length: {MAX_REQUEST_BODY}")).content_length, MAX_REQUEST_BODY);
}

#[test]
fn a_later_header_replaces_an_earlier_one_of_the_same_name() {
    let h = head("GET / HTTP/1.1\r\nContent-Length: 5\r\ncontent-LENGTH: 3");
    assert_eq!(h.content_length, 3);
}

#[test]
fn the_page_is_served_to_a_get_from_this_host() {
    assert!(matches!(routed("GET / HTTP/1.1\r\nHost: 127.0.0.1:4321"), Route::Page));
    assert!(matches!(routed("POST / HTTP/1.1\r\nHost: 127.0.0.1:4321"), Route::WrongMethod("GET")));
}

#[test]
fn mismatched_host_is_refused_before_anything_else() {
    for text in ["GET / HTTP/1.1\r\nHost: localhost:4321", "GET /nowhere HTTP/1.1", "GET / HTTP/1.1\r\nHost: 127.0.0.1:4322"] {
        assert_eq!(
            refused(routed(text)),
            ("400 Bad Request".to_string(), "invalid Host header".to_string())
        );
    }
}

#[test]
fn snippets_need_the_session_token() {
    let forbidden_token = ("403 Forbidden".to_string(), "missing or invalid session token".to_string());
    assert_eq!(refused(routed("GET /api/snippets HTTP/1.1\r\nHost: 127.0.0.1:4321")), forbidden_token);
    let wrong = format!("GET /api/snippets HTTP/1.1\r\nHost: 127.0.0.1:4321\r\nX-Snacc-Session: {}", "e".repeat(64));
    assert_eq!(refused(routed(&wrong)), forbidden_token);
    let right = format!("GET /api/snippets HTTP/1.1\r\nHost: 127.0.0.1:4321\r\nX-Snacc-Session: {TOKEN}");
    assert!(matches!(routed(&right), Route::Snippets));
    let post = format!("POST /api/snippets HTTP/1.1\r\nHost: 127.0.0.1:4321\r\nX-Snacc-Session: {TOKEN}");
    assert!(matches!(routed(&post), Route::WrongMethod("GET")));
}

#[test]
fn the_run_route_needs_token_origin_and_json() {
    let base = format!("POST /api/run HTTP/1.1\r\nHost: 127.0.0.1:4321\r\nX-Snacc-Session: {TOKEN}");
    assert_eq!(
        refused(routed(&base)),
        ("403 Forbidden".to_string(), "invalid Origin header".to_string())
    );
    let foreign = format!("{base}\r\nOrigin: http://evil.example");
    assert_eq!(
        refused(routed(&foreign)),
        ("403 Forbidden".to_string(), "invalid Origin header".to_string())
    );
    let same_origin = format!("{base}\r\nOrigin: http://127.0.0.1:4321");
    assert_eq!(
        refused(routed(&same_origin)),
        ("415 Unsupported Media Type".to_string(), "Content-Type must be application/json".to_string())
    );
    let text = format!("{same_origin}\r\nContent-Type: text/plain");
    assert!(matches!(routed(&text), Route::Refuse(_)));
    let json = format!("{same_origin}\r\nContent-Type: application/json; charset=utf-8");
    assert!(matches!(routed(&json), Route::Run));
    let get = format!("GET /api/run HTTP/1.1\r\nHost: 127.0.0.1:4321\r\nX-Snacc-Session: {TOKEN}");
    assert!(matches!(routed(&get), Route::WrongMethod("POST")));
}

#[test]
fn unknown_paths_are_not_found() {
    assert_eq!(
        refused(routed("GET /missing HTTP/1.1\r\nHost: 127.0.0.1:4321")),
        ("404 Not Found".to_string(), "not found".to_string())
    );
}

#[test]
fn authorization_compares_the_whole_token() {
    let headers = vec![("x-snacc-session".to_string(), TOKEN.to_string())];
    assert!(authorized(&headers, TOKEN));
    assert!(!authorized(&headers, &TOKEN[1..]));
    assert!(!authorized(&Vec::new(), TOKEN));
}

#[test]
fn run_requests_need_a_source_within_the_limits() {
    let e = validate_run(" \n\t", "").unwrap_err();
    assert_eq!((e.status, e.message.as_str()), ("400 Bad Request", "source must contain a non-whitespace character"));
    let e = validate_run(&"x".repeat(256 * 1024 + 1), "").unwrap_err();
    assert_eq!((e.status, e.message.as_str()), ("413 Payload Too Large", "source exceeds the 256 KiB limit"));
    let e = validate_run("print(1)", &"i".repeat(64 * 1024 + 1)).unwrap_err();
    assert_eq!((e.status, e.message.as_str()), ("413 Payload Too Large", "stdin exceeds the 64 KiB limit"));
    assert!(validate_run("print(1)", "").is_ok());
    assert!(validate_run(&"x".repeat(256 * 1024), &"i".repeat(64 * 1024)).is_ok());
}

#[test]
fn forbidden_is_a_403_with_the_message() {
    let e = forbidden("no");
    assert_eq!(e.status, "403 Forbidden");
    assert_eq!(e.message, "no");
}

#[test]
fn response_heads_list_every_header_then_a_blank_line() {
    let head = response_head("200 OK", "text/plain", 5, &vec![("Allow".to_string(), "GET".to_string())]);
    assert_eq!(
        head,
        "HTTP/1.1 200 OK\r\nContent-Type: text/plain\r\nContent-Length: 5\r\nConnection: close\r\nX-Content-Type-Options: nosniff\r\nAllow: GET\r\n\r\n"
    );
}

#[test]
fn diagnostic_reports_give_phase_message_and_positions() {
    let source = "α\nprint(1)";
    let diagnostics = Diagnostics {
        items: vec![
            Diagnostic { phase: DiagnosticPhase::TypeCheck, message: "bad".into(), span: Some(3..8) },
            Diagnostic { phase: DiagnosticPhase::Lex, message: "worse".into(), span: None },
        ],
    };
    let reports = diagnostic_reports(source, &diagnostics);
    assert_eq!(reports.len(), 2);
    assert_eq!(reports[0].phase, "typecheck");
    assert_eq!(reports[0].message, "bad");
    let span = reports[0].span.expect("a span");
    assert_eq!((span.start_byte, span.end_byte), (3, 8));
    assert_eq!(span.start, PositionReport { line: 2, column: 1 });
    assert_eq!(span.end, PositionReport { line: 2, column: 6 });
    assert_eq!(reports[1].phase, "lex");
    assert!(reports[1].span.is_none());
}

#[test]
fn the_head_ends_at_the_first_blank_line() {
    let raw = b"GET / HTTP/1.1\r\nHost: x\r\n\r\nbody\r\n\r\n".to_vec();
    assert_eq!(find_head_end(&raw), Some(23));
    assert_eq!(find_head_end(&b"GET / HTTP/1.1\r\n".to_vec()), None);
    assert_eq!(find_head_end(&b"\r\n\r\n".to_vec()), Some(0));
    assert_eq!(find_head_end(&Vec::new()), None);
}

#[test]
fn oversized_request_headers_are_rejected() {
    assert!(head_too_large(MAX_HEAD).is_none());
    let e = head_too_large(MAX_HEAD + 1).expect("over the limit");
    assert_eq!((e.status, e.message.as_str()), ("413 Payload Too Large", "request headers are too large"));
}

#[test]
fn the_body_read_with_the_head_is_cut_to_its_length() {
    let raw = b"H\r\n\r\nabcdef".to_vec();
    assert_eq!(initial_body(&raw, 1, 4), b"abcd");
    assert_eq!(initial_body(&raw, 1, 10), b"abcdef");
    assert_eq!(initial_body(&raw, 1, 0), b"");
}
