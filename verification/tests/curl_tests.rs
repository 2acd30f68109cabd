use bruq::ast::Body;
use bruq::ast::BruFile;
use bruq::ast::KvTable;
use bruq::ast::Method;
use bruq::ast::Request;
use bruq::curl::generate_curl;
use bruq::curl::CurlOptions;

fn make_bru(method: Method, url: &str) -> BruFile {
    BruFile {
        request: Request { method, url: url.to_string() },
        body: None,
        headers: KvTable::new(),
    }
}

#[test]
fn simple_get_request() {
    let bru = make_bru(Method::Get, "https://api.example.com");
    let curl = generate_curl(&bru, &CurlOptions::default());
    assert_eq!(curl, "curl -X GET 'https://api.example.com'");
}

#[test]
fn post_with_json_body() {
    let mut bru = make_bru(Method::Post, "https://api.example.com");
    bru.body = Some(Body {
        body_type: "json".to_string(),
        content: r#"{"name": "John"}"#.to_string(),
    });
    let curl = generate_curl(&bru, &CurlOptions::default());
    assert!(curl.contains("-X POST"));
    assert!(curl.contains("-H 'Content-Type: application/json'"));
    assert!(curl.contains(r#"-d '{"name": "John"}'"#));
}

#[test]
fn request_with_headers() {
    let mut bru = make_bru(Method::Get, "https://api.example.com");
    bru.headers.insert("Authorization".to_string(), "Bearer token".to_string());
    let curl = generate_curl(&bru, &CurlOptions::default());
    assert!(curl.contains("-H 'Authorization: Bearer token'"));
}

#[test]
fn verbose_and_silent_flags() {
    let bru = make_bru(Method::Get, "https://api.example.com");

    let curl_verbose = generate_curl(&bru, &CurlOptions { verbose: true, silent: false });
    assert!(curl_verbose.contains("-v"));

    let curl_silent = generate_curl(&bru, &CurlOptions { verbose: false, silent: true });
    assert!(curl_silent.contains("-s"));
}

#[test]
fn no_duplicate_content_type() {
    let mut bru = make_bru(Method::Post, "https://api.example.com");
    bru.headers.insert("Content-Type".to_string(), "text/plain".to_string());
    bru.body = Some(Body { body_type: "json".to_string(), content: "test".to_string() });
    let curl = generate_curl(&bru, &CurlOptions::default());
    let content_type_count = curl.matches("Content-Type").count();
    assert_eq!(content_type_count, 1);
}

#[test]
fn escape_single_quotes_in_body() {
    let mut bru = make_bru(Method::Post, "https://api.example.com");
    bru.body = Some(Body {
        body_type: "json".to_string(),
        content: r#"{"name": "O'Brien"}"#.to_string(),
    });
    let curl = generate_curl(&bru, &CurlOptions::default());
    assert!(curl.contains("O'\"'\"'Brien"));
}

#[test]
fn content_type_header_case_insensitive() {
    let mut bru = make_bru(Method::Post, "https://api.example.com");
    bru.headers.insert("content-TYPE".to_string(), "text/plain".to_string());
    bru.body = Some(Body { body_type: "json".to_string(), content: "x".to_string() });
    let curl = generate_curl(&bru, &CurlOptions::default());
    assert!(!curl.contains("application/json"));
    assert!(curl.contains("-H 'content-TYPE: text/plain'"));
}

#[test]
fn inferred_content_types_per_body_tag() {
    for (tag, expected) in [
        ("json", "application/json"),
        ("xml", "application/xml"),
        ("text", "text/plain"),
        ("form-urlencoded", "application/x-www-form-urlencoded"),
        ("something-else", "application/json"),
    ] {
        let mut bru = make_bru(Method::Post, "https://api.example.com");
        bru.body = Some(Body { body_type: tag.to_string(), content: "x".to_string() });
        let curl = generate_curl(&bru, &CurlOptions::default());
        let want = format!("-H 'Content-Type: {}'", expected);
        assert!(curl.contains(&want));
    }
}

#[test]
fn empty_body_content_emits_no_data_token() {
    let mut bru = make_bru(Method::Post, "https://api.example.com");
    bru.body = Some(Body { body_type: "json".to_string(), content: "".to_string() });
    let curl = generate_curl(&bru, &CurlOptions::default());
    assert!(!curl.contains("-d"));
    assert!(curl.contains("-H 'Content-Type: application/json'"));
}

#[test]
fn method_names_render_upper_case() {
    assert_eq!(Method::Get.as_str(), "GET");
    assert_eq!(Method::Post.as_str(), "POST");
    assert_eq!(Method::Put.as_str(), "PUT");
    assert_eq!(Method::Delete.as_str(), "DELETE");
    assert_eq!(Method::Patch.as_str(), "PATCH");
    assert_eq!(Method::Options.as_str(), "OPTIONS");
    assert_eq!(Method::Head.as_str(), "HEAD");
}

#[test]
fn verbose_before_silent_exact() {
    let bru = make_bru(Method::Get, "u");
    let curl = generate_curl(&bru, &CurlOptions { verbose: true, silent: true });
    assert_eq!(curl, "curl -v -s -X GET 'u'");
}
