use bruq::ast::Method;
use bruq::curl::generate_curl;
use bruq::curl::CurlOptions;
use bruq::parser::parse_bru_file;
use bruq::parser::parse_environment;

#[test]
fn parse_simple_get_request() {
    let content = "\nget {\n  url: https://api.example.com/users\n}\n";
    let bru = parse_bru_file(content).unwrap();
    assert_eq!(bru.request.url, "https://api.example.com/users");
    assert!(matches!(bru.request.method, Method::Get));
    assert!(bru.body.is_none());
}

#[test]
fn parse_post_with_json_body() {
    let content = "\npost {\n  url: https://api.example.com/users\n  body: json\n}\n\nbody:json {\n  {\n    \"name\": \"John\",\n    \"age\": 30\n  }\n}\n";
    let bru = parse_bru_file(content).unwrap();
    assert_eq!(bru.request.url, "https://api.example.com/users");
    assert!(matches!(bru.request.method, Method::Post));
    assert!(bru.body.is_some());
    let body = bru.body.unwrap();
    assert_eq!(body.body_type, "json");
    assert!(body.content.contains("\"name\": \"John\""));
}

#[test]
fn parse_request_with_headers() {
    let content = "\nget {\n  url: https://api.example.com/users\n}\n\nheaders {\n  Authorization: Bearer token123\n  X-Custom-Header: custom-value\n}\n";
    let bru = parse_bru_file(content).unwrap();
    assert_eq!(bru.headers.get("Authorization").unwrap(), "Bearer token123");
    assert_eq!(bru.headers.get("X-Custom-Header").unwrap(), "custom-value");
}

#[test]
fn parse_environment_vars() {
    let content = "\nvars {\n  API_URL: https://api.example.com\n  API_KEY: secret123\n}\n";
    let env = parse_environment(content).unwrap();
    assert_eq!(env.vars.get("API_URL").unwrap(), "https://api.example.com");
    assert_eq!(env.vars.get("API_KEY").unwrap(), "secret123");
}

#[test]
fn parse_nested_json_body() {
    let content = "\npost {\n  url: https://api.example.com\n}\n\nbody:json {\n  {\n    \"user\": {\n      \"name\": \"John\",\n      \"address\": {\n        \"city\": \"NYC\"\n      }\n    }\n  }\n}\n";
    let bru = parse_bru_file(content).unwrap();
    let body = bru.body.unwrap();
    assert!(body.content.contains("\"address\""));
    assert!(body.content.contains("\"city\": \"NYC\""));
}

#[test]
fn parse_all_http_methods() {
    for method in ["get", "post", "put", "delete", "patch", "options", "head"] {
        let content = format!("\n{} {{\n  url: https://api.example.com\n}}\n", method);
        let bru = parse_bru_file(&content).unwrap();
        assert_eq!(bru.request.url, "https://api.example.com");
    }
}

#[test]
fn error_on_missing_method_block() {
    let content = "\nheaders {\n  Authorization: Bearer token\n}\n";
    let result = parse_bru_file(content);
    assert!(result.is_err());
}

#[test]
fn missing_method_error_message() {
    let result = parse_bru_file("just a stray line\n");
    assert_eq!(result.unwrap_err(), "No request method block found");
}

#[test]
fn later_method_block_wins() {
    let content = "get {\n  url: https://first.example.com\n}\npost {\n  url: https://second.example.com\n}\n";
    let bru = parse_bru_file(content).unwrap();
    assert!(matches!(bru.request.method, Method::Post));
    assert_eq!(bru.request.url, "https://second.example.com");
}

#[test]
fn unknown_blocks_are_skipped() {
    let content = "meta {\n  name: demo\n  seq: 1\n}\nget {\n  url: https://api.example.com\n}\n";
    let bru = parse_bru_file(content).unwrap();
    assert_eq!(bru.request.url, "https://api.example.com");
}

#[test]
fn keys_and_values_are_trimmed() {
    let content = "get {\n   url  :    https://api.example.com   \n}\n";
    let bru = parse_bru_file(content).unwrap();
    assert_eq!(bru.request.url, "https://api.example.com");
}

#[test]
fn duplicate_keys_overwrite() {
    let content = "get {\n  url: https://one.example.com\n  url: https://two.example.com\n}\n";
    let bru = parse_bru_file(content).unwrap();
    assert_eq!(bru.request.url, "https://two.example.com");
}

#[test]
fn body_tag_without_payload_block_is_no_body() {
    let content = "get {\n  url: https://api.example.com\n}\nbody:json\n";
    let bru = parse_bru_file(content).unwrap();
    assert!(bru.body.is_none());
}

#[test]
fn method_keyword_parses_in_any_case() {
    let content = "GET {\n  url: https://api.example.com\n}\n";
    let bru = parse_bru_file(content).unwrap();
    assert!(matches!(bru.request.method, Method::Get));
    assert_eq!(bru.request.url, "https://api.example.com");

    let mixed = parse_bru_file("Post {\n  url: https://api.example.com\n}\n").unwrap();
    assert!(matches!(mixed.request.method, Method::Post));
}

#[test]
fn non_method_block_names_stay_case_sensitive() {
    let content = "get {\n  url: u\n}\nHEADERS {\n  Authorization: x\n}\n";
    let bru = parse_bru_file(content).unwrap();
    assert!(bru.headers.get("Authorization").is_none());
}

#[test]
fn from_keyword_is_case_insensitive() {
    assert!(matches!(Method::from_keyword("GET"), Ok(Method::Get)));
    assert!(matches!(Method::from_keyword("Patch"), Ok(Method::Patch)));
    let err = Method::from_keyword("brew").unwrap_err();
    assert_eq!(err, "Unknown method: brew");
}

#[test]
fn environment_ignores_other_blocks() {
    let content = "meta {\n  a: b\n}\nvars {\n  KEY: value\n}\n";
    let env = parse_environment(content).unwrap();
    assert_eq!(env.vars.get("KEY").unwrap(), "value");
    assert!(env.vars.get("a").is_none());
}

#[test]
fn end_to_end_get_command() {
    let bru = parse_bru_file("get {\n  url: https://api.example.com\n}\n").unwrap();
    let curl = generate_curl(&bru, &CurlOptions::default());
    assert_eq!(curl, "curl -X GET 'https://api.example.com'");
}

#[test]
fn end_to_end_post_with_body() {
    let content = "post {\n  url: https://api.example.com\n}\nbody:json {\n  {\"name\":\"John\"}\n}\n";
    let bru = parse_bru_file(content).unwrap();
    let curl = generate_curl(&bru, &CurlOptions::default());
    assert!(curl.contains("-X POST"));
    assert!(curl.contains("-H 'Content-Type: application/json'"));
    assert!(curl.contains("-d '{\"name\":\"John\"}'"));
}
