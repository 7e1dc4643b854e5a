use atlas::serve::{
    bind_decision, build_response, bind_host, is_websocket_upgrade, loopback_decision, parse_request_line, reply, route,
    scan_head, HeadScan, Route, DASHBOARD_HTML, HISTORY_LIMIT, MAX_HEAD_BYTES, PAGE_MARKERS, TICK_SECS,
};
use atlas::error::AtlasError;

fn split_head_body(resp: &[u8]) -> (&str, &[u8]) {
    let pos = resp
        .windows(4)
        .position(|w| w == b"\r\n\r\n")
        .expect("head terminator");
    let head = std::str::from_utf8(&resp[..pos]).expect("utf8 head");
    (head, &resp[pos + 4..])
}

#[test]
fn page_contains_expected_markers() {
    assert!(DASHBOARD_HTML.contains("<!DOCTYPE html>"));
    for m in PAGE_MARKERS {
        assert!(DASHBOARD_HTML.contains(m), "missing marker {m}");
    }
}

#[test]
fn request_line_parses_method_and_path() {
    assert_eq!(
        parse_request_line("GET / HTTP/1.1\r\nHost: x\r\n\r\n"),
        ("GET".to_string(), "/".to_string())
    );
    assert_eq!(
        parse_request_line("GET /ws HTTP/1.1\r\n\r\n"),
        ("GET".to_string(), "/ws".to_string())
    );
    assert_eq!(
        parse_request_line("POST / HTTP/1.1\r\n\r\n"),
        ("POST".to_string(), "/".to_string())
    );
    assert_eq!(parse_request_line(""), (String::new(), String::new()));
    assert_eq!(
        parse_request_line("GET\r\n\r\n"),
        ("GET".to_string(), String::new())
    );
    assert_eq!(
        parse_request_line("  GET   /a  HTTP/1.1\r\n\r\n"),
        ("GET".to_string(), "/a".to_string())
    );
}

#[test]
fn upgrade_detect_is_case_insensitive() {
    assert!(is_websocket_upgrade(
        "GET /ws HTTP/1.1\r\nUpgrade: websocket\r\nConnection: Upgrade\r\n\r\n"
    ));
    assert!(is_websocket_upgrade(
        "GET /ws HTTP/1.1\r\nUPGRADE: WEBSOCKET\r\n\r\n"
    ));
    assert!(!is_websocket_upgrade("GET /ws HTTP/1.1\r\nHost: x\r\n\r\n"));
    assert!(!is_websocket_upgrade(""));
}

#[test]
fn response_bytes_carry_status_and_length() {
    let body = b"hello";
    let raw = build_response("200 OK", "text/plain", body);
    let (head, rest) = split_head_body(&raw);
    assert!(head.starts_with("HTTP/1.1 200 OK\r\n"));
    assert!(head.contains("content-type: text/plain\r\n"));
    assert!(head.contains("content-length: 5\r\n"));
    assert!(head.ends_with("connection: close"));
    assert_eq!(rest, body);
    let raw = build_response("404 Not Found", "text/plain", b"");
    let (head, rest) = split_head_body(&raw);
    assert!(head.contains("content-length: 0\r\n"));
    assert!(rest.is_empty());
}

#[test]
fn serve_consts_are_sane() {
    assert_eq!(TICK_SECS, 1);
    assert_eq!(HISTORY_LIMIT, 50);
    assert!(!PAGE_MARKERS.is_empty());
}

#[test]
fn routes_follow_method_path_and_upgrade() {
    assert_eq!(route("POST / HTTP/1.1\r\n\r\n"), Route::NotAllowed);
    assert_eq!(route("GET / HTTP/1.1\r\n\r\n"), Route::Page);
    assert_eq!(route("GET /ws HTTP/1.1\r\nUpgrade: websocket\r\n\r\n"), Route::Socket);
    assert_eq!(route("GET /ws HTTP/1.1\r\nHost: x\r\n\r\n"), Route::UpgradeRequired);
    assert_eq!(route("GET /nope HTTP/1.1\r\n\r\n"), Route::NotFound);
    assert_eq!(route(""), Route::NotAllowed);
}

#[test]
fn replies_carry_status_and_body() {
    assert!(reply(Route::Socket, DASHBOARD_HTML).is_none());
    let r = reply(Route::NotAllowed, DASHBOARD_HTML).expect("405");
    let (head, body) = split_head_body(&r);
    assert!(head.starts_with("HTTP/1.1 405"), "{head}");
    assert_eq!(body, b"method not allowed");
    let r = reply(Route::NotFound, DASHBOARD_HTML).expect("404");
    let (head, body) = split_head_body(&r);
    assert!(head.starts_with("HTTP/1.1 404"), "{head}");
    assert_eq!(body, b"not found");
    let r = reply(Route::UpgradeRequired, DASHBOARD_HTML).expect("426");
    let (head, body) = split_head_body(&r);
    assert!(head.starts_with("HTTP/1.1 426"), "{head}");
    assert_eq!(body, b"websocket upgrade required");
    let r = reply(Route::Page, DASHBOARD_HTML).expect("200");
    let (head, body) = split_head_body(&r);
    assert!(head.starts_with("HTTP/1.1 200 OK\r\n"), "{head}");
    assert!(head.contains("text/html"), "{head}");
    assert_eq!(body, DASHBOARD_HTML.as_bytes());
}

#[test]
fn head_scan_waits_for_blank_line_and_caps_size() {
    assert_eq!(scan_head(&b"GET / HTTP/1.1\r\nHost: x\r\n\r\nEXTRA".to_vec()), HeadScan::Complete);
    assert_eq!(scan_head(&b"GET / HTTP/1.1\r\n".to_vec()), HeadScan::NeedMore);
    assert_eq!(scan_head(&Vec::new()), HeadScan::NeedMore);
    assert_eq!(scan_head(&vec![b'A'; 20 * 1024]), HeadScan::TooLarge);
    let mut exact = vec![b'A'; MAX_HEAD_BYTES - 4];
    exact.extend_from_slice(b"\r\n\r\n");
    assert_eq!(scan_head(&exact), HeadScan::Complete);
    exact.push(b'x');
    assert_eq!(scan_head(&exact), HeadScan::TooLarge);
}

#[test]
fn loopback_hosts_cover_names_brackets_and_case() {
    // The IP facts are what parsing the host core as an address reports.
    assert!(loopback_decision("localhost", None));
    assert!(loopback_decision("LOCALHOST", None));
    assert!(loopback_decision("  localhost  ", None));
    assert!(loopback_decision("[::1]", Some(true)));
    assert!(loopback_decision("::1", Some(true)));
    assert!(loopback_decision("127.0.0.1", Some(true)));
    assert!(!loopback_decision("", None));
    assert!(!loopback_decision("example.com", None));
    assert!(loopback_decision("[127.0.0.1]", Some(true)));
    assert!(loopback_decision("127.0.0.5", Some(true)));
    assert!(!loopback_decision("0.0.0.0", Some(false)));
    assert!(!loopback_decision("192.168.1.10", Some(false)));
    assert_eq!(bind_host("  [::1] "), "::1");
}

#[test]
fn public_bind_refused_without_flag() {
    assert!(bind_decision("127.0.0.1", 8080, false, Some(true)).is_ok());
    assert!(bind_decision("localhost", 8080, false, None).is_ok());
    assert!(bind_decision("::1", 8080, false, Some(true)).is_ok());
    let err = bind_decision("0.0.0.0", 8080, false, Some(false)).expect_err("must refuse");
    assert!(err.message().contains("--public"));
    assert_eq!(
        err,
        AtlasError::InvalidState("refusing non-loopback bind '0.0.0.0' without --public".to_owned())
    );
    assert!(bind_decision("0.0.0.0", 8080, true, Some(false)).is_ok());
}

#[test]
fn bind_maps_localhost_and_rejects_garbage() {
    assert_eq!(bind_decision("localhost", 8080, false, None), Ok("127.0.0.1".to_owned()));
    assert_eq!(bind_decision("[::1]", 1, false, Some(true)), Ok("::1".to_owned()));
    assert_eq!(
        bind_decision("not a host!!", 8080, true, None),
        Err(AtlasError::InvalidState("invalid bind 'not a host!!:8080'".to_owned()))
    );
    assert!(bind_decision("example.com", 8080, true, None).is_err());
    assert!(bind_decision("127.0.0.1", 8080, true, Some(true)).is_ok());
}
