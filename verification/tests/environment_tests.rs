use bruq::ast::Body;
use bruq::ast::BruFile;
use bruq::ast::Environment;
use bruq::ast::KvTable;
use bruq::ast::Method;
use bruq::ast::Request;
use bruq::environment::apply_environment;
use bruq::environment::environment_file_path;
use bruq::environment::find_collection_root;
use bruq::environment::substitute_variables;

fn make_bru(method: Method, url: &str, body: Option<Body>, headers: KvTable) -> BruFile {
    BruFile { request: Request { method, url: url.to_string() }, body, headers }
}

#[test]
fn find_collection_root_from_nested_dir() {
    let dirs = vec![
        "/col/folder/subfolder/requests".to_string(),
        "/col/folder/subfolder".to_string(),
        "/col/folder".to_string(),
        "/col".to_string(),
        "/".to_string(),
    ];
    let has_marker = vec![false, false, false, true, false];
    let root = find_collection_root(&dirs, &has_marker).unwrap();
    assert_eq!(root, "/col");
}

#[test]
fn find_collection_root_from_direct_child() {
    let dirs = vec!["/col/requests".to_string(), "/col".to_string(), "/".to_string()];
    let has_marker = vec![false, true, false];
    let root = find_collection_root(&dirs, &has_marker).unwrap();
    assert_eq!(root, "/col");
}

#[test]
fn find_collection_root_fallback_when_no_bruno_json() {
    let dirs = vec!["/somewhere/requests".to_string(), "/somewhere".to_string(), "/".to_string()];
    let has_marker = vec![false, false, false];
    let root = find_collection_root(&dirs, &has_marker).unwrap();
    assert_eq!(root, "/somewhere/requests");
}

#[test]
fn find_collection_root_without_ancestors_fails() {
    let dirs: Vec<String> = vec![];
    let has_marker: Vec<bool> = vec![];
    let err = find_collection_root(&dirs, &has_marker).unwrap_err();
    assert_eq!(err, "Cannot determine collection root");
}

#[test]
fn nearest_marker_wins() {
    let dirs = vec!["/a/b".to_string(), "/a".to_string(), "/".to_string()];
    let has_marker = vec![true, true, false];
    let root = find_collection_root(&dirs, &has_marker).unwrap();
    assert_eq!(root, "/a/b");
}

#[test]
fn environment_file_path_convention() {
    let p = environment_file_path("/col", "LOCAL");
    assert_eq!(p, "/col/environments/LOCAL.bru");
}

#[test]
fn apply_environment_substitutes_url() {
    let mut vars = KvTable::new();
    vars.insert("HOST".to_string(), "api.example.com".to_string());
    let env = Environment { vars };

    let mut bru = make_bru(Method::Get, "https://{{HOST}}/users", None, KvTable::new());

    apply_environment(&mut bru, &env);
    assert_eq!(bru.request.url, "https://api.example.com/users");
}

#[test]
fn apply_environment_substitutes_body() {
    let mut vars = KvTable::new();
    vars.insert("TOKEN".to_string(), "secret123".to_string());
    let env = Environment { vars };

    let body = Body {
        body_type: "json".to_string(),
        content: r#"{"token": "{{TOKEN}}"}"#.to_string(),
    };
    let mut bru = make_bru(Method::Post, "https://api.example.com", Some(body), KvTable::new());

    apply_environment(&mut bru, &env);
    assert_eq!(bru.body.unwrap().content, r#"{"token": "secret123"}"#);
}

#[test]
fn apply_environment_substitutes_headers() {
    let mut vars = KvTable::new();
    vars.insert("API_KEY".to_string(), "key123".to_string());
    let env = Environment { vars };

    let mut headers = KvTable::new();
    headers.insert("Authorization".to_string(), "Bearer {{API_KEY}}".to_string());
    let mut bru = make_bru(Method::Get, "https://api.example.com", None, headers);

    apply_environment(&mut bru, &env);
    assert_eq!(bru.headers.get("Authorization").unwrap(), "Bearer key123");
}

#[test]
fn substitution_replaces_every_occurrence() {
    let mut vars = KvTable::new();
    vars.insert("X".to_string(), "1".to_string());
    let out = substitute_variables("{{X}}+{{X}}={{X}}{{X}}", &vars);
    assert_eq!(out, "1+1=11");
}

#[test]
fn unmatched_placeholder_left_untouched() {
    let mut vars = KvTable::new();
    vars.insert("HOST".to_string(), "api.example.com".to_string());
    let out = substitute_variables("https://{{HOST}}/{{PATH}}", &vars);
    assert_eq!(out, "https://api.example.com/{{PATH}}");
}

#[test]
fn substituted_values_are_inserted_verbatim() {
    let mut vars = KvTable::new();
    vars.insert("V".to_string(), "a'b\"c".to_string());
    let out = substitute_variables("x={{V}}", &vars);
    assert_eq!(out, "x=a'b\"c");
}

#[test]
fn table_insert_overwrites_and_keeps_one_entry() {
    let mut t = KvTable::new();
    t.insert("k".to_string(), "one".to_string());
    t.insert("k".to_string(), "two".to_string());
    assert_eq!(t.len(), 1);
    assert_eq!(t.get("k").unwrap(), "two");
    assert!(t.get("missing").is_none());
}
