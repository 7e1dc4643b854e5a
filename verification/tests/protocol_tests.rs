use atlas::ffi::{atlas_status_can_transition, exec_cabi_response, status_slug_of};
use atlas::protocol::SwalStatusCode;

#[test]
fn test_status_code_numeric_roundtrip() {
    let code = SwalStatusCode::TskRunning;
    assert_eq!(code.code(), 103);
    assert_eq!(code.slug(), "TSK_RUNNING");

    let restored = SwalStatusCode::from_code(103).expect("Should parse 103");
    assert_eq!(restored, SwalStatusCode::TskRunning);

    assert_eq!(SwalStatusCode::from_code(9999), None);
}

#[test]
fn test_status_code_transitions() {
    // Valid lifecycle flow
    assert!(SwalStatusCode::can_transition(
        SwalStatusCode::TskBacklog,
        SwalStatusCode::TskReady
    ));
    assert!(SwalStatusCode::can_transition(
        SwalStatusCode::TskReady,
        SwalStatusCode::TskDispatched
    ));
    assert!(SwalStatusCode::can_transition(
        SwalStatusCode::TskDispatched,
        SwalStatusCode::TskRunning
    ));
    assert!(SwalStatusCode::can_transition(
        SwalStatusCode::TskRunning,
        SwalStatusCode::TskInReview
    ));
    assert!(SwalStatusCode::can_transition(
        SwalStatusCode::TskInReview,
        SwalStatusCode::TskCompleted
    ));

    // Invalid skip transition
    assert!(!SwalStatusCode::can_transition(
        SwalStatusCode::TskBacklog,
        SwalStatusCode::TskCompleted
    ));
    assert!(!SwalStatusCode::can_transition(
        SwalStatusCode::TskDispatched,
        SwalStatusCode::TskCompleted
    ));
}

#[test]
fn test_incident_and_snippet_ranges() {
    let sev0 = SwalStatusCode::IncSev0Critical;
    assert_eq!(sev0.code(), 500);

    let snippet = SwalStatusCode::SnpFlutterBgService;
    assert_eq!(snippet.code(), 901);
    assert_eq!(snippet.slug(), "SNP_FLUTTER_BG_SERVICE");
}

#[test]
fn test_ffi_can_transition() {
    // 100 -> 101 is valid
    assert_eq!(atlas_status_can_transition(100, 101), 1);
    // 100 -> 130 is illegal
    assert_eq!(atlas_status_can_transition(100, 130), 0);
    // Invalid codes
    assert_eq!(atlas_status_can_transition(9999, 101), 0);
}

#[test]
fn ffi_slug_lookup_and_cabi_reply() {
    assert_eq!(status_slug_of(103), Some("TSK_RUNNING"));
    assert_eq!(status_slug_of(9999), None);
    let reply = exec_cabi_response(20);
    assert_eq!(reply, "{\"status\":\"ok\",\"sodp_version\":\"4.0\",\"input_len\":20}");
    assert!(reply.contains("\"sodp_version\":\"4.0\""));
}

#[test]
fn every_code_round_trips_and_never_moves_to_itself() {
    for code in 0..1000i64 {
        if let Some(s) = SwalStatusCode::from_code(code) {
            assert_eq!(s.code(), code);
            assert_eq!(SwalStatusCode::from_code(s.code()), Some(s));
            assert!(!SwalStatusCode::can_transition(s, s));
        }
    }
}

#[test]
fn completion_only_after_review() {
    for code in 0..1000i64 {
        if let Some(s) = SwalStatusCode::from_code(code) {
            if SwalStatusCode::can_transition(s, SwalStatusCode::TskCompleted) {
                assert_eq!(s, SwalStatusCode::TskInReview);
            }
        }
    }
}

#[test]
fn slugs_are_distinct_and_prefixed_by_code_range() {
    let mut seen: Vec<&str> = Vec::new();
    for code in 0..1000 {
        if let Some(s) = SwalStatusCode::from_code(code) {
            let slug = s.slug();
            assert!(!seen.contains(&slug), "duplicate slug {slug}");
            seen.push(slug);
            let prefixes: &[&str] = match code {
                100..=199 => &["TSK_"],
                200..=299 => &["GIT_"],
                300..=399 => &["CI_"],
                400..=499 => &["NOD_", "NET_", "MEM_"],
                500..=599 => &["INC_", "SEC_", "OOM_"],
                800..=899 => &["FEAT_"],
                _ => &["SNP_"],
            };
            assert!(prefixes.iter().any(|p| slug.starts_with(p)), "{code} {slug}");
        }
    }
    assert_eq!(seen.len(), 51);
}
