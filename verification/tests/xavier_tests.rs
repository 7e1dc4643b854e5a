use atlas::xavier::{
    build_request, capability_names, check_search_status, degraded, draft_from_hits, parse_hit, parse_search_payload,
    parse_status_code, response_body, split_base_url, status_from_health, HitFields, HttpBackend, MemoryHit,
    SearchPayload, StubBackend, XavierBackend, XavierConfig, XavierError, CAPABILITIES, DEFAULT_BASE_URL,
};
use atlas::xavier::{draft_dependency_ids, parse_search_answer, search_answer, search_request_body};

fn closed_port_config() -> XavierConfig {
    XavierConfig {
        base_url: "http://127.0.0.1:9".to_owned(),
        token: String::new(),
        timeout_ms: 300,
    }
}

fn fields(id: &str) -> HitFields {
    HitFields {
        id: id.to_owned(),
        path: String::new(),
        meta_path: String::new(),
        user_id: String::new(),
        snippet: String::new(),
        memory: String::new(),
        content: String::new(),
        text: String::new(),
        kind: String::new(),
        meta_kind: String::new(),
    }
}

#[test]
fn degraded_status_green_without_server() {
    // What the health ping against a closed port reports: unreachable.
    let backend = HttpBackend::new(closed_port_config());
    let status = status_from_health(
        &backend.config,
        Err(XavierError::Unreachable(backend.config.base_url.clone(), "connection refused".to_owned())),
    );
    assert!(!status.reachable);
    assert!(status.degraded);
    assert!(status.capabilities.is_empty());
    assert_eq!(status.detail, "connection refused");
}

#[test]
fn health_answers_decide_the_status() {
    let cfg = closed_port_config();
    let up = status_from_health(&cfg, Ok(204));
    assert!(up.reachable && !up.degraded);
    assert_eq!(up.capabilities, CAPABILITIES.iter().map(|s| s.to_string()).collect::<Vec<_>>());
    assert_eq!(up.detail, "health ping ok");
    let down = status_from_health(&cfg, Ok(503));
    assert!(!down.reachable && down.degraded);
    assert_eq!(down.detail, "health returned HTTP 503");
    let bad = status_from_health(&cfg, Err(XavierError::BadResponse("no HTTP status line".to_owned())));
    assert_eq!(bad.detail, "no HTTP status line");
    let d = degraded(&cfg, "why".to_owned());
    assert_eq!(d.base_url, "http://127.0.0.1:9");
    assert_eq!(capability_names().len(), 4);
    assert_eq!(DEFAULT_BASE_URL, "http://127.0.0.1:8006");
}

#[test]
fn status_reports_unreachable_state_explicitly() {
    let backend = StubBackend::unreachable();
    let status = backend.check_status();
    assert!(!status.reachable && status.degraded);
    assert!(backend.search("q", 1).is_err());
}

#[test]
fn draft_parsing_with_stubbed_snippet_json() {
    let mut m1 = fields("m1");
    m1.snippet = "verifier promotes tasks".to_owned();
    m1.path = "docs/verifier.md".to_owned();
    m1.kind = "doc".to_owned();
    let mut m2 = fields("m2");
    m2.snippet = "dag edges".to_owned();
    m2.path = "src/dag.rs".to_owned();
    m2.kind = "code".to_owned();
    let backend = StubBackend::reachable_with(SearchPayload { top: None, results: Some(vec![m1, m2]) });
    let hits = backend.search("verify", 5).expect("stub search");
    assert_eq!(hits.len(), 2);
    assert_eq!(hits[0].path, "docs/verifier.md");
    let draft = draft_from_hits("ship verifier", &hits);
    assert_eq!(draft.len(), 3);
    assert_eq!(draft[0].depends_on, Vec::<usize>::new());
    assert_eq!(draft[1].depends_on, vec![0]);
    assert_eq!(draft[2].depends_on, vec![1]);
    assert!(draft[1].title.contains("docs/verifier.md"));
}

#[test]
fn draft_parsing_accepts_full_and_ids_shapes() {
    let mut full = fields("a");
    full.memory = "some content here".to_owned();
    full.user_id = "u1".to_owned();
    let hits = parse_search_payload(&SearchPayload { top: None, results: Some(vec![full]) });
    assert_eq!(hits.len(), 1);
    assert_eq!(hits[0].snippet, "some content here");
    assert_eq!(hits[0].path, "u1");
    let mut ids = fields("b");
    ids.path = "p.md".to_owned();
    let hits = parse_search_payload(&SearchPayload { top: None, results: Some(vec![ids]) });
    assert_eq!(hits[0].path, "p.md");
    // Empty goal still drafts exactly the scope task.
    assert_eq!(draft_from_hits("g", &Vec::new()).len(), 1);
}

#[test]
fn hits_fall_back_and_clean_snippets() {
    let mut f = fields("id9");
    f.meta_path = "meta/p".to_owned();
    f.content = "line one\nline two\r".to_owned();
    f.meta_kind = "note".to_owned();
    let h = parse_hit(&f);
    assert_eq!(h, MemoryHit {
        id: "id9".to_owned(),
        path: "meta/p".to_owned(),
        snippet: "line one line two ".to_owned(),
        kind: "note".to_owned(),
    });
    let mut long = fields("l");
    long.text = "é".repeat(300);
    assert_eq!(parse_hit(&long).snippet.chars().count(), 240);
    // A bare array wins over a `results` member; neither gives nothing.
    let top = SearchPayload { top: Some(vec![fields("t")]), results: Some(vec![fields("r"), fields("s")]) };
    assert_eq!(parse_search_payload(&top).len(), 1);
    assert!(parse_search_payload(&SearchPayload { top: None, results: None }).is_empty());
}

#[test]
fn drafts_scope_then_ground_each_hit() {
    let hit = MemoryHit { id: "m7".to_owned(), path: String::new(), snippet: String::new(), kind: String::new() };
    let d = draft_from_hits("  ship it  ", &vec![hit]);
    assert_eq!(d[0].title, "Scope: ship it");
    assert_eq!(d[1].title, "Ground 'ship it' in m7");
}

#[test]
fn base_urls_split_or_are_refused() {
    assert_eq!(
        split_base_url("http://127.0.0.1:8006"),
        Ok(("127.0.0.1".to_owned(), 8006, String::new()))
    );
    assert_eq!(
        split_base_url("http://xavier/api/v2"),
        Ok(("xavier".to_owned(), 80, "/api/v2".to_owned()))
    );
    assert_eq!(
        split_base_url("https://x:1"),
        Err(XavierError::BadResponse("bad base url 'https://x:1': need http://".to_owned()))
    );
    assert_eq!(
        split_base_url("http://x:port"),
        Err(XavierError::BadResponse("bad base url 'http://x:port': bad port".to_owned()))
    );
    assert_eq!(
        split_base_url("http://:80"),
        Err(XavierError::BadResponse("bad base url 'http://:80': empty host".to_owned()))
    );
    assert!(split_base_url("http://x:+81").is_ok());
    assert!(split_base_url("http://x:70000").is_err());
}

#[test]
fn requests_and_responses_have_exact_shapes() {
    assert_eq!(
        build_request("GET", "/p", "/health", "h", "", None),
        "GET /p/health HTTP/1.0\r\nHost: h\r\nConnection: close\r\n\r\n"
    );
    assert_eq!(
        build_request("POST", "", "/v1/memories/search", "h", "tok", Some("{}")),
        "POST /v1/memories/search HTTP/1.0\r\nHost: h\r\nConnection: close\r\n\
         Authorization: Bearer tok\r\nX-Xavier-Token: tok\r\n\
         Content-Type: application/json\r\nContent-Length: 2\r\n\r\n{}"
    );
    assert_eq!(parse_status_code("HTTP/1.0 200 OK\r\n\r\n{}"), Some(200));
    assert_eq!(parse_status_code("garbage"), None);
    assert_eq!(parse_status_code(""), None);
    assert_eq!(response_body("HTTP/1.0 200 OK\r\nA: b\r\n\r\n{\"x\":1}"), "{\"x\":1}");
    assert_eq!(response_body("no blank line"), "");
    assert!(check_search_status(200, "").is_ok());
    assert_eq!(
        check_search_status(500, "boom"),
        Err(XavierError::BadResponse("HTTP 500: boom".to_owned()))
    );
    assert_eq!(
        XavierError::Unreachable("u".to_owned(), "w".to_owned()).message(),
        "xavier unreachable at u: w"
    );
    assert_eq!(closed_port_config().timeout_millis(), 300);
    let mut quick = closed_port_config();
    quick.timeout_ms = 5;
    assert_eq!(quick.timeout_millis(), 100);
}

#[test]
fn search_answer_reads_results_envelope_and_bare_array() {
    let text = r#"{"results":[{"id":"m1","metadata":{"path":"a/b.md","kind":"doc"},"memory":"line1\nline2","score":0.9}]}"#;
    let hits = search_answer(200, text).expect("hits");
    assert_eq!(hits.len(), 1);
    assert_eq!(hits[0].id, "m1");
    assert_eq!(hits[0].path, "a/b.md");
    assert_eq!(hits[0].snippet, "line1 line2");
    assert_eq!(hits[0].kind, "doc");
    let bare = search_answer(200, r#"[{"id":"x","user_id":"u"},{"id":"y"}]"#).expect("bare array");
    assert_eq!(bare.len(), 2);
    assert_eq!(bare[0].path, "u");
    let p = parse_search_answer(r#"{"results":5}"#).expect("json");
    assert!(p.top.is_none() && p.results.is_none());
}

#[test]
fn search_answer_reports_status_and_bad_json() {
    assert_eq!(
        search_answer(503, "busy"),
        Err(XavierError::BadResponse("HTTP 503: busy".to_owned()))
    );
    assert!(matches!(search_answer(200, "nope"), Err(XavierError::BadResponse(_))));
    assert!(parse_search_answer("nope").is_err());
}

#[test]
fn search_request_body_is_sorted_compact_json() {
    assert_eq!(
        search_request_body("say \"hi\"\n\\ \u{1}", 5),
        r#"{"limit":5,"mode":"snippet","query":"say \"hi\"\n\\ \u0001"}"#
    );
    assert_eq!(search_request_body("", 0), r#"{"limit":0,"mode":"snippet","query":""}"#);
}

#[test]
fn draft_dependencies_map_to_created_ids() {
    let created = vec!["t_a".to_owned(), "t_b".to_owned()];
    assert_eq!(draft_dependency_ids(&vec![1, 5, 0], &created), vec!["t_b".to_owned(), "t_a".to_owned()]);
    assert!(draft_dependency_ids(&vec![], &created).is_empty());
}
