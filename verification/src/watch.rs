//! Decisions of the event-bus watcher: where to poll, how to read an
//! event of either shape, and which events advance tasks. The polling
//! loop, the sockets and the JSON parsing stand with the caller.
use vstd::prelude::*;
use crate::json::{Json, json_parse, member, as_text, get, parse_json};
use crate::text::{push_str, chars_of, string_of, find_char, first_at, matches_at, starts_with_text, str_equal,
    i64_decimal, signed_decimal, parse_u16, parse_u16_spec};

verus! {

/// One field of a JSON object as the watcher reads it.
#[derive(Debug, Clone, PartialEq, Eq)]
pub enum JsonField {
    /// The key is absent (or its object is).
    Absent,
    /// The key holds a string.
    Text(String),
    /// The key holds something other than a string.
    Other,
}

/// The string a field holds, if it holds one.
pub open spec fn field_text(f: JsonField) -> Option<Seq<char>> {
    match f {
        JsonField::Text(s) => Some(s@),
        _ => None,
    }
}

/// The fields of one bus event that the watcher reads: those of the
/// decoded `payload` string, those of its `metadata` object, and those
/// of the event itself.
#[derive(Debug, Clone)]
pub struct BusEventFields {
    pub payload_agent: JsonField,
    pub payload_summary: JsonField,
    pub payload_state: JsonField,
    pub payload_task_id: JsonField,
    pub metadata_task_id: JsonField,
    pub metadata_plain_task_id: JsonField,
    pub event_agent_id: JsonField,
    pub event_agent: JsonField,
    pub event_type: JsonField,
    pub event_summary: JsonField,
    pub event_state: JsonField,
    pub event_task_id: JsonField,
}

/// What the watcher makes of one bus event.
#[derive(Debug, Clone, PartialEq, Eq)]
pub struct BusEvent {
    pub agent: String,
    pub event_type: String,
    pub summary: String,
    pub state: Option<String>,
    pub task_id: Option<String>,
}

/// The first string among the candidates, read in order.
pub open spec fn first_text(a: JsonField, b: JsonField) -> Option<Seq<char>> {
    match field_text(a) {
        Some(s) => Some(s),
        None => field_text(b),
    }
}

/// The first present field among the candidates, then its string if it is one.
pub open spec fn first_present(fs: Seq<JsonField>) -> Option<Seq<char>>
    decreases fs.len(),
{
    if fs.len() == 0 {
        None
    } else if fs[0] is Absent {
        first_present(fs.drop_first())
    } else {
        field_text(fs[0])
    }
}

/// How a bus event reads: nested payload values first, then the flat
/// ones; the task correlation is the first present of
/// `payload.atlas_task_id`, `payload.metadata.atlas_task_id`,
/// `payload.metadata.task_id` and `atlas_task_id`, when it is a string.
pub open spec fn reads_as(f: BusEventFields, e: BusEvent) -> bool {
    &&& e.agent@ == match field_text(f.payload_agent) {
        Some(s) => s,
        None => match first_text(f.event_agent_id, f.event_agent) { Some(s) => s, None => "unknown"@ },
    }
    &&& e.event_type@ == match field_text(f.event_type) { Some(s) => s, None => "event"@ }
    &&& e.summary@ == match first_text(f.payload_summary, f.event_summary) { Some(s) => s, None => Seq::empty() }
    &&& (match e.state { Some(s) => Some(s@), None => None }) == first_text(f.payload_state, f.event_state)
    &&& (match e.task_id { Some(s) => Some(s@), None => None })
        == first_present(seq![f.payload_task_id, f.metadata_task_id, f.metadata_plain_task_id, f.event_task_id])
}

fn is_absent(f: &JsonField) -> (r: bool)
    ensures
        r == (*f is Absent),
{
    match f {
        JsonField::Absent => true,
        _ => false,
    }
}

fn text_of(f: &JsonField) -> (r: Option<String>)
    ensures
        (match r { Some(s) => Some(s@), None => None }) == field_text(*f),
{
    match f {
        JsonField::Text(s) => Some(s.clone()),
        _ => None,
    }
}

fn first_of(a: &JsonField, b: &JsonField) -> (r: Option<String>)
    ensures
        (match r { Some(s) => Some(s@), None => None }) == first_text(*a, *b),
{
    match text_of(a) {
        Some(s) => Some(s),
        None => text_of(b),
    }
}

/// Reads one bus event of either shape (see `reads_as`).
pub fn read_event(f: &BusEventFields) -> (e: BusEvent)
    ensures
        reads_as(*f, e),
{
    let agent = match text_of(&f.payload_agent) {
        Some(s) => s,
        None => match first_of(&f.event_agent_id, &f.event_agent) {
            Some(s) => s,
            None => "unknown".to_owned(),
        },
    };
    let event_type = match text_of(&f.event_type) {
        Some(s) => s,
        None => "event".to_owned(),
    };
    let summary = match first_of(&f.payload_summary, &f.event_summary) {
        Some(s) => s,
        None => String::new(),
    };
    let state = first_of(&f.payload_state, &f.event_state);
    let task_id = if !is_absent(&f.payload_task_id) {
        text_of(&f.payload_task_id)
    } else if !is_absent(&f.metadata_task_id) {
        text_of(&f.metadata_task_id)
    } else if !is_absent(&f.metadata_plain_task_id) {
        text_of(&f.metadata_plain_task_id)
    } else {
        text_of(&f.event_task_id)
    };
    proof {
        let fs = seq![f.payload_task_id, f.metadata_task_id, f.metadata_plain_task_id, f.event_task_id];
        assert(fs.drop_first() =~= seq![f.metadata_task_id, f.metadata_plain_task_id, f.event_task_id]);
        assert(fs.drop_first().drop_first() =~= seq![f.metadata_plain_task_id, f.event_task_id]);
        assert(fs.drop_first().drop_first().drop_first() =~= seq![f.event_task_id]);
        assert(fs.drop_first().drop_first().drop_first().drop_first() =~= Seq::<JsonField>::empty());
        reveal_with_fuel(first_present, 5);
        assert((match task_id { Some(s) => Some(s@), None => None }) == first_present(fs));
    }
    BusEvent { agent, event_type, summary, state, task_id }
}

/// An event advances tasks only when it names an Atlas task and reports a
/// finished run or a `Success` state.
pub open spec fn promotes(e: BusEvent) -> bool {
    &&& e.task_id is Some
    &&& (e.event_type@ == "run_finished"@ || (e.state matches Some(s) && s@ == "Success"@))
}

/// Whether an event triggers a promotion pass (see `promotes`).
pub fn should_promote(e: &BusEvent) -> (r: bool)
    ensures
        r == promotes(*e),
{
    if e.task_id.is_none() {
        return false;
    }
    if str_equal(e.event_type.as_str(), "run_finished") {
        return true;
    }
    match &e.state {
        Some(s) => str_equal(s.as_str(), "Success"),
        None => false,
    }
}

/// The events query for a cursor.
pub open spec fn events_query(after: Option<i64>) -> Seq<char> {
    match after {
        Some(seq) => "/api/events?after_seq="@ + signed_decimal(seq as int) + "&limit=50"@,
        None => "/api/events?limit=50"@,
    }
}

/// The path polled for events after `after` (or from the start).
pub fn events_path(after: Option<i64>) -> (r: String)
    ensures
        r@ == events_query(after),
{
    match after {
        Some(seq) => {
            let mut p = String::new();
            push_str(&mut p, "/api/events?after_seq=");
            push_str(&mut p, i64_decimal(seq).as_str());
            push_str(&mut p, "&limit=50");
            p
        },
        None => "/api/events?limit=50".to_owned(),
    }
}

/// The cursor after a poll: the reported `next_seq` when there is one.
pub fn next_cursor(cursor: Option<i64>, next_seq: Option<i64>) -> (r: Option<i64>)
    ensures
        r == (if next_seq is Some { next_seq } else { cursor }),
{
    if next_seq.is_some() { next_seq } else { cursor }
}

/// `s` without the `/` it ends with.
pub open spec fn strip_slashes(s: Seq<char>) -> Seq<char>
    decreases s.len(),
{
    if s.len() > 0 && s.last() == '/' { strip_slashes(s.drop_last()) } else { s }
}

/// The bus URL without trailing slashes and without its scheme.
pub open spec fn bus_authority(url: Seq<char>) -> Seq<char> {
    let clean = strip_slashes(url);
    if starts_with_text(clean, "http://"@) {
        clean.skip(7)
    } else if starts_with_text(clean, "https://"@) {
        clean.skip(8)
    } else {
        clean
    }
}

/// Host and port of the bus: the text before the first `:` and the
/// number after it (up to a further `:`), 8081 when that is no port.
pub open spec fn bus_host_port(url: Seq<char>) -> (Seq<char>, u16) {
    let a = bus_authority(url);
    match first_at(a, ':', 0) {
        Some(i) => {
            let rest = a.skip(i + 1);
            let p = match first_at(rest, ':', 0) { Some(j) => rest.take(j), None => rest };
            (a.take(i), match parse_u16_spec(p) { Some(n) => n, None => 8081u16 })
        },
        None => (a, 8081u16),
    }
}

proof fn lemma_strip_slashes(s: Seq<char>, e: int)
    requires
        0 <= e <= s.len(),
        forall|j: int| e <= j < s.len() ==> #[trigger] s[j] == '/',
        e == 0 || s[e - 1] != '/',
    ensures
        strip_slashes(s) == s.subrange(0, e),
    decreases s.len() - e,
{
    if e < s.len() {
        let t = s.drop_last();
        lemma_strip_slashes(t, e);
        assert(t.subrange(0, e) =~= s.subrange(0, e));
    } else {
        assert(s.subrange(0, e) =~= s);
    }
}

/// The bus URL without trailing slashes, and the host and port to reach it.
pub fn bus_address(url: &str) -> (r: (String, String, u16))
    ensures
        r.0@ == strip_slashes(url@),
        (r.1@, r.2) == bus_host_port(url@),
{
    let cs = chars_of(url);
    let mut e: usize = cs.len();
    while e > 0 && cs[e - 1] == '/'
        invariant
            e <= cs.len(),
            forall|j: int| e <= j < cs.len() ==> #[trigger] cs@[j] == '/',
        decreases e,
    {
        e = e - 1;
    }
    proof {
        lemma_strip_slashes(cs@, e as int);
    }
    let clean = string_of(&cs, 0, e);
    let cc = chars_of(clean.as_str());
    let http = chars_of("http://");
    let https = chars_of("https://");
    proof {
        reveal_strlit("http://");
        reveal_strlit("https://");
    }
    let start: usize = if matches_at(&cc, &http, 0) { 7 } else if matches_at(&cc, &https, 0) { 8 } else { 0 };
    let a = chars_of(string_of(&cc, start, cc.len()).as_str());
    proof {
        assert(a@ =~= bus_authority(url@));
    }
    match find_char(&a, ':', 0) {
        Some(i) => {
            let rest = chars_of(string_of(&a, i + 1, a.len()).as_str());
            let p = match find_char(&rest, ':', 0) {
                Some(j) => string_of(&rest, 0, j),
                None => string_of(&rest, 0, rest.len()),
            };
            proof {
                assert(rest@ =~= a@.skip(i + 1));
                match first_at(rest@, ':', 0) {
                    Some(j) => assert(p@ =~= rest@.take(j)),
                    None => assert(p@ =~= rest@),
                }
            }
            let port = match parse_u16(p.as_str()) {
                Some(n) => n,
                None => 8081,
            };
            let host = string_of(&a, 0, i);
            proof {
                assert(host@ =~= a@.take(i as int));
            }
            (clean, host, port)
        },
        None => {
            let host = string_of(&a, 0, a.len());
            proof {
                assert(host@ =~= a@);
            }
            (clean, host, 8081)
        },
    }
}

/// The value of member `key` of an optional object.
pub open spec fn in_obj(obj: Option<Json>, key: Seq<char>) -> Option<Json> {
    match obj {
        Some(o) => member(o, key),
        None => None,
    }
}

/// `f` reads the value `v` of a member: absent, its string, or something else.
pub open spec fn reads_field(f: JsonField, v: Option<Json>) -> bool {
    match v {
        None => f is Absent,
        Some(Json::Str(s)) => f matches JsonField::Text(t) && t@ == s@,
        Some(_) => f is Other,
    }
}

/// What an event's `payload` string decodes to, if it is a string that decodes.
pub open spec fn payload_json(ev: Json) -> Option<Json> {
    match as_text(member(ev, "payload"@)) {
        Some(p) => match json_parse(p) {
            Ok(v) => Some(v),
            Err(_) => None,
        },
        None => None,
    }
}

/// The fields of a bus event read from its JSON: those of the decoded
/// `payload` string, of that payload's `metadata` object, and of the event.
pub open spec fn event_fields_of(f: BusEventFields, ev: Json) -> bool {
    let p = payload_json(ev);
    let m = in_obj(p, "metadata"@);
    let e = Some(ev);
    &&& reads_field(f.payload_agent, in_obj(p, "agent"@))
    &&& reads_field(f.payload_summary, in_obj(p, "summary"@))
    &&& reads_field(f.payload_state, in_obj(p, "state"@))
    &&& reads_field(f.payload_task_id, in_obj(p, "atlas_task_id"@))
    &&& reads_field(f.metadata_task_id, in_obj(m, "atlas_task_id"@))
    &&& reads_field(f.metadata_plain_task_id, in_obj(m, "task_id"@))
    &&& reads_field(f.event_agent_id, in_obj(e, "agent_id"@))
    &&& reads_field(f.event_agent, in_obj(e, "agent"@))
    &&& reads_field(f.event_type, in_obj(e, "event_type"@))
    &&& reads_field(f.event_summary, in_obj(e, "summary"@))
    &&& reads_field(f.event_state, in_obj(e, "state"@))
    &&& reads_field(f.event_task_id, in_obj(e, "atlas_task_id"@))
}

/// The events of a page: its `events` array, or none.
pub open spec fn page_events(page: Json) -> Seq<Json> {
    match member(page, "events"@) {
        Some(Json::Array(a)) => a@,
        _ => Seq::empty(),
    }
}

/// The cursor a page reports: its `next_seq` when that is an `i64`.
pub open spec fn page_next_seq(page: Json) -> Option<i64> {
    match member(page, "next_seq"@) {
        Some(Json::Number(n)) => n,
        _ => None,
    }
}

/// A value as an optional object reference's view.
pub open spec fn opt_json(o: Option<&Json>) -> Option<Json> {
    match o {
        Some(v) => Some(*v),
        None => None,
    }
}

fn field_of(obj: Option<&Json>, key: &str) -> (f: JsonField)
    ensures
        reads_field(f, in_obj(opt_json(obj), key@)),
{
    match obj {
        Some(o) => match get(o, key) {
            None => JsonField::Absent,
            Some(Json::Str(s)) => JsonField::Text(s.clone()),
            Some(_) => JsonField::Other,
        },
        None => JsonField::Absent,
    }
}

fn payload_of(ev: &Json) -> (r: Option<Json>)
    ensures
        r == payload_json(*ev),
{
    match get(ev, "payload") {
        Some(Json::Str(p)) => match parse_json(p.as_str()) {
            Ok(v) => Some(v),
            Err(_) => None,
        },
        _ => None,
    }
}

/// Reads the fields of one bus event from its JSON (see `event_fields_of`).
pub fn bus_event_fields(ev: &Json) -> (f: BusEventFields)
    ensures
        event_fields_of(f, *ev),
{
    let p = payload_of(ev);
    let po: Option<&Json> = match &p {
        Some(o) => Some(o),
        None => None,
    };
    let m: Option<&Json> = match po {
        Some(o) => get(o, "metadata"),
        None => None,
    };
    BusEventFields {
        payload_agent: field_of(po, "agent"),
        payload_summary: field_of(po, "summary"),
        payload_state: field_of(po, "state"),
        payload_task_id: field_of(po, "atlas_task_id"),
        metadata_task_id: field_of(m, "atlas_task_id"),
        metadata_plain_task_id: field_of(m, "task_id"),
        event_agent_id: field_of(Some(ev), "agent_id"),
        event_agent: field_of(Some(ev), "agent"),
        event_type: field_of(Some(ev), "event_type"),
        event_summary: field_of(Some(ev), "summary"),
        event_state: field_of(Some(ev), "state"),
        event_task_id: field_of(Some(ev), "atlas_task_id"),
    }
}

/// The fields of every event of a page, in order.
pub fn bus_events(page: &Json) -> (r: Vec<BusEventFields>)
    ensures
        r.len() == page_events(*page).len(),
        forall|i: int| 0 <= i < r.len() ==> event_fields_of(#[trigger] r@[i], page_events(*page)[i]),
{
    let mut out: Vec<BusEventFields> = Vec::new();
    match get(page, "events") {
        Some(Json::Array(a)) => {
            let mut i: usize = 0;
            while i < a.len()
                invariant
                    i <= a.len(),
                    a@ == page_events(*page),
                    out.len() == i,
                    forall|k: int| 0 <= k < i ==> event_fields_of(#[trigger] out@[k], a@[k]),
                decreases a.len() - i,
            {
                out.push(bus_event_fields(&a[i]));
                i = i + 1;
            }
        },
        _ => {},
    }
    out
}

/// The cursor a page reports (see `page_next_seq`).
pub fn bus_next_seq(page: &Json) -> (r: Option<i64>)
    ensures
        r == page_next_seq(*page),
{
    match get(page, "next_seq") {
        Some(Json::Number(n)) => *n,
        _ => None,
    }
}

/// Reads one page of the bus's events answer: the fields of each event and
/// the cursor it reports, or why the text is no JSON.
pub fn read_bus_page(text: &str) -> (r: Result<(Vec<BusEventFields>, Option<i64>), String>)
    ensures
        match json_parse(text@) {
            Ok(page) => r matches Ok((evs, next)) && next == page_next_seq(page)
                && evs.len() == page_events(page).len()
                && forall|i: int| 0 <= i < evs.len() ==> event_fields_of(#[trigger] evs@[i], page_events(page)[i]),
            Err(m) => r matches Err(e) && e@ == "Failed to parse Gestalt bus events JSON: "@ + m,
        },
{
    match parse_json(text) {
        Ok(page) => Ok((bus_events(&page), bus_next_seq(&page))),
        Err(m) => {
            let mut e = String::new();
            push_str(&mut e, "Failed to parse Gestalt bus events JSON: ");
            push_str(&mut e, m.as_str());
            Err(e)
        },
    }
}

} // verus!
