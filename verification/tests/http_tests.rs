use chat_rules::utils::http::{
    decimal_string, parse_request, parse_request_bytes, response_head, route_request, Headers,
    HttpTypes, Request, RequestType, Route,
};

fn request(method: HttpTypes, path: &str, headers: &[(&str, &str)]) -> Request {
    let mut h = Headers::new();
    for (k, v) in headers {
        h.insert(k.to_string(), v.to_string());
    }
    Request { request: RequestType { http_type: method, request: path.to_string() }, body: String::new(), headers: h }
}

#[test]
fn parses_get_request_with_headers_and_body() {
    let text = "GET /index HTTP/1.1\r\nHost: example.com\r\nUpgrade: websocket\r\n\r\nline one\nline two";
    let req = parse_request(text).unwrap();
    assert_eq!(req.request.http_type, HttpTypes::Get);
    assert_eq!(req.request.request, "/index");
    assert_eq!(req.headers.get("Host").unwrap(), "example.com");
    assert_eq!(req.headers.get("Upgrade").unwrap(), "websocket");
    assert!(req.headers.get("Missing").is_none());
    assert_eq!(req.body, "line oneline two");
}

#[test]
fn parses_post_request() {
    let req = parse_request("POST /send HTTP/1.1\nA: b\n\n{}").unwrap();
    assert_eq!(req.request.http_type, HttpTypes::Post);
    assert_eq!(req.request.request, "/send");
    assert_eq!(req.headers.get("A").unwrap(), "b");
    assert_eq!(req.body, "{}");
}

#[test]
fn unknown_method_is_refused() {
    assert!(parse_request("PUT / HTTP/1.1\r\n\r\n").is_none());
}

#[test]
fn request_line_without_path_is_refused() {
    assert!(parse_request("GETX\r\n\r\n").is_none());
    assert!(parse_request("GET\r\n\r\n").is_none());
}

#[test]
fn request_without_blank_line_is_refused() {
    assert!(parse_request("GET / HTTP/1.1\r\nHost: x").is_none());
    assert!(parse_request("").is_none());
}

#[test]
fn request_starting_with_short_line_is_an_empty_get() {
    let req = parse_request("\r\nrest").unwrap();
    assert_eq!(req.request.http_type, HttpTypes::Get);
    assert_eq!(req.request.request, "");
    assert_eq!(req.body, "rest");
    assert!(req.headers.pairs().is_empty());
}

#[test]
fn later_header_field_replaces_earlier_one() {
    let req = parse_request("GET / HTTP/1.1\r\nX: one\r\nX: two\r\nlonely\r\n\r\n").unwrap();
    assert_eq!(req.headers.get("X").unwrap(), "two");
    assert!(req.headers.get("lonel").is_none());
}

#[test]
fn invalid_utf8_is_refused() {
    assert!(parse_request_bytes(&[0x47, 0x45, 0x54, 0xff, 0x0a, 0x0a]).is_none());
}

#[test]
fn bytes_are_decoded_then_parsed() {
    let req = parse_request_bytes("GET /caf\u{e9} HTTP/1.1\r\n\r\n".as_bytes()).unwrap();
    assert_eq!(req.request.request, "/caf\u{e9}");
}

#[test]
fn headers_get_gives_last_inserted_value() {
    let mut h = Headers::new();
    h.insert(String::from("k"), String::from("1"));
    h.insert(String::from("k"), String::from("2"));
    h.insert(String::from("j"), String::from("3"));
    assert_eq!(h.get("k").unwrap(), "2");
    assert_eq!(h.get("j").unwrap(), "3");
    let pairs = h.pairs();
    assert_eq!(pairs.len(), 3);
}

#[test]
fn websocket_upgrade_of_root_goes_to_websocket() {
    let r = route_request(&request(HttpTypes::Get, "/", &[("Upgrade", "websocket")]));
    assert!(matches!(r, Route::Websocket));
    let r2 = route_request(&request(HttpTypes::Get, "/style.css", &[("Upgrade", "websocket")]));
    assert!(matches!(r2, Route::Ignore));
}

#[test]
fn static_files_are_served() {
    match route_request(&request(HttpTypes::Get, "/style.css", &[])) {
        Route::Serve(p) => assert_eq!(p, "src/experiments/style.css"),
        _ => panic!("expected a file"),
    }
    match route_request(&request(HttpTypes::Post, "/favicon.ico", &[("Upgrade", "h2c")])) {
        Route::Serve(p) => assert_eq!(p, "src/experiments/favicon.ico"),
        _ => panic!("expected a file"),
    }
}

#[test]
fn root_page_only_for_get() {
    match route_request(&request(HttpTypes::Get, "/", &[])) {
        Route::Serve(p) => assert_eq!(p, "src/experiments/base/website.html"),
        _ => panic!("expected the page"),
    }
    assert!(matches!(route_request(&request(HttpTypes::Post, "/", &[])), Route::Ignore));
    assert!(matches!(route_request(&request(HttpTypes::Get, "/other", &[])), Route::Ignore));
}

#[test]
fn decimal_numerals() {
    assert_eq!(decimal_string(0), "0");
    assert_eq!(decimal_string(7), "7");
    assert_eq!(decimal_string(1234), "1234");
    assert_eq!(decimal_string(usize::MAX), usize::MAX.to_string());
}

#[test]
fn png_answer_head_names_content_type() {
    assert_eq!(
        response_head("src/img/logo.png", 42),
        "HTTP/1.1 200 OK\r\nContent-Length: 42\r\nContent-Type: image/png\r\n\r\n"
    );
}

#[test]
fn other_answer_head_has_length_only() {
    assert_eq!(response_head("src/experiments/base/website.html", 1500), "HTTP/1.1 200 OK\r\nContent-Length: 1500\r\n\r\n");
    assert_eq!(response_head("png", 0), "HTTP/1.1 200 OK\r\nContent-Length: 0\r\nContent-Type: image/png\r\n\r\n");
}
