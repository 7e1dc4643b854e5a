use atlas::commands::{check_fast_profile, check_outcome, finish_outcome};
use atlas::watch::{
    bus_address, events_path, next_cursor, read_bus_page, read_event, should_promote, BusEventFields, JsonField,
};

fn absent() -> BusEventFields {
    BusEventFields {
        payload_agent: JsonField::Absent,
        payload_summary: JsonField::Absent,
        payload_state: JsonField::Absent,
        payload_task_id: JsonField::Absent,
        metadata_task_id: JsonField::Absent,
        metadata_plain_task_id: JsonField::Absent,
        event_agent_id: JsonField::Absent,
        event_agent: JsonField::Absent,
        event_type: JsonField::Absent,
        event_summary: JsonField::Absent,
        event_state: JsonField::Absent,
        event_task_id: JsonField::Absent,
    }
}

fn text(s: &str) -> JsonField {
    JsonField::Text(s.to_owned())
}

#[test]
fn events_read_nested_payload_first() {
    let mut f = absent();
    f.payload_agent = text("agent-x");
    f.event_agent_id = text("flat");
    f.event_type = text("run_finished");
    f.event_summary = text("done");
    f.payload_state = JsonField::Other;
    f.event_state = text("Success");
    let e = read_event(&f);
    assert_eq!(e.agent, "agent-x");
    assert_eq!(e.event_type, "run_finished");
    assert_eq!(e.summary, "done");
    assert_eq!(e.state, Some("Success".to_owned()));
    assert_eq!(e.task_id, None);
    let e = read_event(&absent());
    assert_eq!(e.agent, "unknown");
    assert_eq!(e.event_type, "event");
    assert_eq!(e.summary, "");
}

#[test]
fn only_correlated_events_promote() {
    let mut f = absent();
    f.event_type = text("run_finished");
    assert!(!should_promote(&read_event(&f)), "no atlas_task_id, no promotion");
    f.metadata_plain_task_id = text("t_1");
    assert!(should_promote(&read_event(&f)));
    let mut g = absent();
    g.event_type = text("session.idle");
    g.payload_state = text("Success");
    g.event_task_id = text("t_2");
    assert!(should_promote(&read_event(&g)));
    g.payload_state = text("Running");
    assert!(!should_promote(&read_event(&g)));
    // The first present correlation field decides, even when it is no string.
    let mut h = absent();
    h.event_type = text("run_finished");
    h.payload_task_id = JsonField::Other;
    h.event_task_id = text("t_3");
    assert_eq!(read_event(&h).task_id, None);
    assert!(!should_promote(&read_event(&h)));
}

#[test]
fn bus_polling_addresses() {
    assert_eq!(events_path(None), "/api/events?limit=50");
    assert_eq!(events_path(Some(42)), "/api/events?after_seq=42&limit=50");
    assert_eq!(next_cursor(Some(1), None), Some(1));
    assert_eq!(next_cursor(Some(1), Some(9)), Some(9));
    assert_eq!(
        bus_address("http://127.0.0.1:8081/"),
        ("http://127.0.0.1:8081".to_owned(), "127.0.0.1".to_owned(), 8081)
    );
    assert_eq!(bus_address("https://bus:9000"), ("https://bus:9000".to_owned(), "bus".to_owned(), 9000));
    assert_eq!(bus_address("bus"), ("bus".to_owned(), "bus".to_owned(), 8081));
    assert_eq!(bus_address("http://bus:x"), ("http://bus:x".to_owned(), "bus".to_owned(), 8081));
}

#[test]
fn command_argument_rules() {
    assert_eq!(finish_outcome(true, false), Ok(true));
    assert_eq!(finish_outcome(false, true), Ok(false));
    assert_eq!(finish_outcome(true, true), Err("pass exactly one of --ok or --fail".to_owned()));
    assert!(check_outcome("ok").is_ok());
    assert!(check_outcome("fail").is_ok());
    assert_eq!(check_outcome("meh"), Err("outcome must be ok or fail, got 'meh'".to_owned()));
    assert!(check_fast_profile(true).is_ok());
    assert!(check_fast_profile(false).is_err());
}

#[test]
fn bus_page_reads_nested_payload_and_cursor() {
    let page = r#"{"events":[
        {"agent_id":"agent-x","event_type":"run_finished","payload":"{\"summary\":\"done\",\"metadata\":{\"atlas_task_id\":\"t_7\"}}"},
        {"agent":"flat","event_type":"note","state":"Success","summary":"hi"},
        {"event_type":"x","payload":"not json","atlas_task_id":"t_9"}
    ],"next_seq":42}"#;
    let (events, next) = read_bus_page(page).expect("json page");
    assert_eq!(next, Some(42));
    assert_eq!(events.len(), 3);
    let first = read_event(&events[0]);
    assert_eq!(first.agent, "agent-x");
    assert_eq!(first.summary, "done");
    assert_eq!(first.task_id.as_deref(), Some("t_7"));
    assert!(should_promote(&first));
    let second = read_event(&events[1]);
    assert_eq!(second.agent, "flat");
    assert_eq!(second.state.as_deref(), Some("Success"));
    assert_eq!(second.task_id, None);
    assert!(!should_promote(&second));
    assert_eq!(events[2].payload_summary, JsonField::Absent);
    assert_eq!(events[2].event_task_id, JsonField::Text("t_9".to_owned()));
}

#[test]
fn bus_page_without_events_or_json() {
    let (events, next) = read_bus_page(r#"{"next_seq":"7"}"#).expect("json");
    assert!(events.is_empty());
    assert_eq!(next, None);
    let err = read_bus_page("<html>").expect_err("no json");
    assert!(err.starts_with("Failed to parse Gestalt bus events JSON: "), "{err}");
}
