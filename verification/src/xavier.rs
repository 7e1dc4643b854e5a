//! Xavier adapter: optional memory search, degraded-first. Every decision
//! of the adapter stands here, the reading of JSON answers included; the
//! socket stands with the caller, which hands in what the server answered.
use vstd::prelude::*;
use vstd::utf8::encode_utf8;
use crate::json::{Json, json_parse, parse_json, member, text_at, text_member, get, json_quote, json_string};
use crate::text::{push_str, push_char, chars_of, string_of, views, trim, trim_text, decimal, u64_decimal, find_char, first_at,
    rfind_char, last_at, parse_u16, parse_u16_spec, split_lines, lines_from, first_word, first_word_of, after_first_word,
    rest_after_word, find_text, occurs_at, contains_text, matches_at, starts_with_text};

verus! {

/// Base URL used when none is configured.
pub const DEFAULT_BASE_URL: &'static str = "http://127.0.0.1:8006";

/// Capabilities the adapter can use once Xavier answers a health ping.
pub const CAPABILITIES: [&'static str; 4] = ["memories.search", "memories.add", "context.assemble", "memories.graph"];

/// The capability names, in order.
pub open spec fn capability_list() -> Seq<Seq<char>> {
    seq!["memories.search"@, "memories.add"@, "context.assemble"@, "memories.graph"@]
}

/// The capabilities as owned strings.
pub fn capability_names() -> (r: Vec<String>)
    ensures
        views(r@) == capability_list(),
{
    let mut v: Vec<String> = Vec::new();
    v.push("memories.search".to_owned());
    v.push("memories.add".to_owned());
    v.push("context.assemble".to_owned());
    v.push("memories.graph".to_owned());
    proof {
        assert(views(v@) =~= capability_list());
    }
    v
}

/// Runtime configuration of the adapter.
#[derive(Debug, Clone)]
pub struct XavierConfig {
    pub base_url: String,
    pub token: String,
    pub timeout_ms: u64,
}

impl XavierConfig {
    /// Milliseconds every call may take: the configured timeout, at least 100.
    pub fn timeout_millis(&self) -> (r: u64)
        ensures
            r == (if self.timeout_ms >= 100 { self.timeout_ms } else { 100 }),
    {
        if self.timeout_ms >= 100 { self.timeout_ms } else { 100 }
    }
}

/// One memory hit (its score, a float, travels beside it).
#[derive(Debug, Clone, PartialEq, Eq)]
pub struct MemoryHit {
    pub id: String,
    pub path: String,
    pub snippet: String,
    pub kind: String,
}

/// Liveness report for `atlas xavier status`.
#[derive(Debug, Clone, PartialEq, Eq)]
pub struct XavierStatus {
    pub reachable: bool,
    pub base_url: String,
    pub capabilities: Vec<String>,
    pub degraded: bool,
    pub detail: String,
}

/// One proposed backlog item of a draft.
#[derive(Debug, Clone, PartialEq, Eq)]
pub struct DraftTask {
    pub title: String,
    /// Indices into the same draft list (chain order), empty = no deps.
    pub depends_on: Vec<usize>,
}

/// Failure modes: unreachable (degraded path) versus bad payloads.
#[derive(Debug, Clone, PartialEq, Eq)]
pub enum XavierError {
    Unreachable(String, String),
    BadResponse(String),
}

/// The text of an error.
pub open spec fn xavier_error_message(e: XavierError) -> Seq<char> {
    match e {
        XavierError::Unreachable(at, why) => "xavier unreachable at "@ + at@ + ": "@ + why@,
        XavierError::BadResponse(why) => "bad xavier response: "@ + why@,
    }
}

impl XavierError {
    /// The error rendered as text.
    pub fn message(&self) -> (r: String)
        ensures
            r@ == xavier_error_message(*self),
    {
        let mut out = String::new();
        match self {
            XavierError::Unreachable(at, why) => {
                push_str(&mut out, "xavier unreachable at ");
                push_str(&mut out, at.as_str());
                push_str(&mut out, ": ");
                push_str(&mut out, why.as_str());
            },
            XavierError::BadResponse(why) => {
                push_str(&mut out, "bad xavier response: ");
                push_str(&mut out, why.as_str());
            },
        }
        out
    }
}

/// The degraded status: unreachable, no capabilities, with the reason.
pub fn degraded(config: &XavierConfig, why: String) -> (r: XavierStatus)
    ensures
        !r.reachable,
        r.degraded,
        r.base_url@ == config.base_url@,
        r.capabilities.len() == 0,
        r.detail@ == why@,
{
    XavierStatus { reachable: false, base_url: config.base_url.clone(), capabilities: Vec::new(), degraded: true, detail: why }
}

/// The status after a health ping: reachable with every capability on a
/// 2xx answer; otherwise degraded, saying which HTTP status came back or
/// why the call failed.
pub fn status_from_health(config: &XavierConfig, health: Result<u16, XavierError>) -> (r: XavierStatus)
    ensures
        r.base_url@ == config.base_url@,
        r.reachable == (health matches Ok(code) && (200 <= code && code < 300)),
        r.degraded == !r.reachable,
        r.reachable ==> views(r.capabilities@) == capability_list() && r.detail@ == "health ping ok"@,
        !r.reachable ==> r.capabilities.len() == 0,
        health matches Ok(code) ==> (!(200 <= code < 300) ==> r.detail@ == "health returned HTTP "@ + decimal(code as nat)),
        health matches Err(XavierError::Unreachable(_, why)) ==> r.detail@ == why@,
        health matches Err(XavierError::BadResponse(why)) ==> r.detail@ == why@,
{
    match health {
        Ok(code) => {
            if 200 <= code && code < 300 {
                XavierStatus {
                    reachable: true,
                    base_url: config.base_url.clone(),
                    capabilities: capability_names(),
                    degraded: false,
                    detail: "health ping ok".to_owned(),
                }
            } else {
                let mut why = String::new();
                push_str(&mut why, "health returned HTTP ");
                push_str(&mut why, u64_decimal(code as u64).as_str());
                degraded(config, why)
            }
        },
        Err(XavierError::Unreachable(_, why)) => degraded(config, why),
        Err(XavierError::BadResponse(why)) => degraded(config, why),
    }
}

/// The title of the draft item grounding `goal` in `source`.
pub open spec fn ground_title(goal: Seq<char>, source: Seq<char>) -> Seq<char> {
    "Ground '"@ + goal + "' in "@ + source
}

/// Where a hit came from: its path, or its id when it has no path.
pub open spec fn hit_source(h: MemoryHit) -> Seq<char> {
    if h.path@.len() > 0 { h.path@ } else { h.id@ }
}

/// Drafts a backlog from a goal and grounding hits: item 0 scopes the
/// trimmed goal, then one item per hit grounds it in the hit's source,
/// each depending on the item before it (a linear chain).
pub fn draft_from_hits(goal: &str, hits: &Vec<MemoryHit>) -> (r: Vec<DraftTask>)
    ensures
        r.len() == hits.len() + 1,
        r@[0].title@ == "Scope: "@ + trim(goal@),
        r@[0].depends_on@ == Seq::<usize>::empty(),
        forall|i: int| 0 <= i < hits.len() ==> (#[trigger] r@[i + 1]).title@ == ground_title(trim(goal@), hit_source(hits@[i]))
            && r@[i + 1].depends_on@ == seq![i as usize],
{
    let g = trim_text(goal);
    let mut title = String::new();
    push_str(&mut title, "Scope: ");
    push_str(&mut title, g.as_str());
    let mut out: Vec<DraftTask> = Vec::new();
    out.push(DraftTask { title, depends_on: Vec::new() });
    let mut i: usize = 0;
    while i < hits.len()
        invariant
            i <= hits.len(),
            g@ == trim(goal@),
            out.len() == i + 1,
            out@[0].title@ == "Scope: "@ + trim(goal@),
            out@[0].depends_on@ == Seq::<usize>::empty(),
            forall|j: int| 0 <= j < i ==> (#[trigger] out@[j + 1]).title@ == ground_title(trim(goal@), hit_source(hits@[j]))
                && out@[j + 1].depends_on@ == seq![j as usize],
        decreases hits.len() - i,
    {
        let h = &hits[i];
        let source = if chars_of(h.path.as_str()).len() > 0 { h.path.clone() } else { h.id.clone() };
        let mut t = String::new();
        push_str(&mut t, "Ground '");
        push_str(&mut t, g.as_str());
        push_str(&mut t, "' in ");
        push_str(&mut t, source.as_str());
        let mut deps: Vec<usize> = Vec::new();
        deps.push(i);
        proof {
            assert(deps@ =~= seq![i]);
        }
        let ghost old_out = out@;
        out.push(DraftTask { title: t, depends_on: deps });
        proof {
            assert forall|j: int| 0 <= j < i + 1 implies (#[trigger] out@[j + 1]).title@ == ground_title(trim(goal@), hit_source(hits@[j]))
                && out@[j + 1].depends_on@ == seq![j as usize] by {
                if j < i {
                    assert(out@[j + 1] == old_out[j + 1]);
                }
            }
        }
        i = i + 1;
    }
    out
}

/// The strings one search result carries, each empty when the key is
/// absent or not a string (`metadata.*` read inside the `metadata` object).
#[derive(Debug, Clone)]
pub struct HitFields {
    pub id: String,
    pub path: String,
    pub meta_path: String,
    pub user_id: String,
    pub snippet: String,
    pub memory: String,
    pub content: String,
    pub text: String,
    pub kind: String,
    pub meta_kind: String,
}

/// The result lists a search answer may carry: the answer itself when it
/// is an array, and its `results` member when that is an array.
#[derive(Debug, Clone)]
pub struct SearchPayload {
    pub top: Option<Vec<HitFields>>,
    pub results: Option<Vec<HitFields>>,
}

/// The first of two strings that is not empty, else the second.
pub open spec fn or_else(a: Seq<char>, b: Seq<char>) -> Seq<char> {
    if a.len() > 0 { a } else { b }
}

/// A snippet kept readable: its first 240 characters, line breaks as spaces.
pub open spec fn clean_snippet(s: Seq<char>) -> Seq<char> {
    let t = if s.len() > 240 { s.take(240) } else { s };
    t.map_values(|c: char| if c == '\n' || c == '\r' { ' ' } else { c })
}

/// The hit a search result describes: its path falls back to
/// `metadata.path`, then `user_id`; its snippet to `memory`, `content`,
/// then `text`, and is cleaned; its kind falls back to `metadata.kind`.
pub open spec fn describes(f: HitFields, h: MemoryHit) -> bool {
    &&& h.id@ == f.id@
    &&& h.path@ == or_else(f.path@, or_else(f.meta_path@, f.user_id@))
    &&& h.snippet@ == clean_snippet(or_else(f.snippet@, or_else(f.memory@, or_else(f.content@, f.text@))))
    &&& h.kind@ == or_else(f.kind@, f.meta_kind@)
}

/// The first non-empty of two strings, else the second.
fn first_nonempty(a: &String, b: String) -> (r: String)
    ensures
        r@ == or_else(a@, b@),
{
    if chars_of(a.as_str()).len() > 0 { a.clone() } else { b }
}

/// Keeps the first 240 characters and turns line breaks into spaces.
fn snippet_text(s: &str) -> (r: String)
    ensures
        r@ == clean_snippet(s@),
{
    let cs = chars_of(s);
    let n = if cs.len() > 240 { 240 } else { cs.len() };
    let mut out = String::new();
    let mut i: usize = 0;
    while i < n
        invariant
            i <= n <= cs.len(),
            cs@ == s@,
            n == (if cs.len() > 240 { 240 } else { cs.len() }),
            out@ == cs@.take(i as int).map_values(|c: char| if c == '\n' || c == '\r' { ' ' } else { c }),
        decreases n - i,
    {
        let c = cs[i];
        let d = if c == '\n' || c == '\r' { ' ' } else { c };
        push_char(&mut out, d);
        proof {
            assert(cs@.take(i + 1).map_values(|c: char| if c == '\n' || c == '\r' { ' ' } else { c })
                =~= cs@.take(i as int).map_values(|c: char| if c == '\n' || c == '\r' { ' ' } else { c }).push(d));
        }
        i = i + 1;
    }
    proof {
        if cs.len() <= 240 {
            assert(cs@.take(n as int) =~= s@);
        }
    }
    out
}

/// Reads one search result tolerantly (see `describes`).
pub fn parse_hit(f: &HitFields) -> (h: MemoryHit)
    ensures
        describes(*f, h),
{
    let path = first_nonempty(&f.path, first_nonempty(&f.meta_path, f.user_id.clone()));
    let raw = first_nonempty(&f.snippet, first_nonempty(&f.memory, first_nonempty(&f.content, f.text.clone())));
    let snippet = snippet_text(raw.as_str());
    let kind = first_nonempty(&f.kind, f.meta_kind.clone());
    MemoryHit { id: f.id.clone(), path, snippet, kind }
}

/// The result list a search answer is read from: the answer itself when
/// it is an array, else its `results` array, else nothing.
pub open spec fn payload_items(p: SearchPayload) -> Seq<HitFields> {
    match p.top {
        Some(items) => items@,
        None => match p.results {
            Some(items) => items@,
            None => Seq::empty(),
        },
    }
}

/// Every known search envelope, read tolerantly: one hit per result.
pub fn parse_search_payload(p: &SearchPayload) -> (r: Vec<MemoryHit>)
    ensures
        r.len() == payload_items(*p).len(),
        forall|i: int| 0 <= i < r.len() ==> describes(payload_items(*p)[i], #[trigger] r@[i]),
{
    let empty: Vec<HitFields> = Vec::new();
    let items: &Vec<HitFields> = match &p.top {
        Some(items) => items,
        None => match &p.results {
            Some(items) => items,
            None => &empty,
        },
    };
    let mut out: Vec<MemoryHit> = Vec::new();
    let mut i: usize = 0;
    while i < items.len()
        invariant
            i <= items.len(),
            items@ == payload_items(*p),
            out.len() == i,
            forall|j: int| 0 <= j < i ==> describes(items@[j], #[trigger] out@[j]),
        decreases items.len() - i,
    {
        let h = parse_hit(&items[i]);
        out.push(h);
        i = i + 1;
    }
    out
}

/// Network boundary of the adapter: a real HTTP backend or a canned one.
pub trait XavierBackend {
    fn check_status(&self) -> XavierStatus;
    fn search(&self, query: &str, limit: usize) -> Result<Vec<MemoryHit>, XavierError>;
}

/// Deterministic canned backend: tests, demos, offline runs.
pub struct StubBackend {
    pub reachable: bool,
    pub base_url: String,
    /// The canned answer, read through the same tolerant parser.
    pub payload: SearchPayload,
}

impl StubBackend {
    /// A reachable stub answering every search with `payload`.
    pub fn reachable_with(payload: SearchPayload) -> (r: StubBackend)
        ensures
            r.reachable,
            r.base_url@ == "stub://xavier"@,
            r.payload == payload,
    {
        StubBackend { reachable: true, base_url: "stub://xavier".to_owned(), payload }
    }

    /// An unreachable stub.
    pub fn unreachable() -> (r: StubBackend)
        ensures
            !r.reachable,
            r.base_url@ == "stub://xavier"@,
    {
        StubBackend { reachable: false, base_url: "stub://xavier".to_owned(), payload: SearchPayload { top: None, results: None } }
    }
}

impl XavierBackend for StubBackend {
    fn check_status(&self) -> (r: XavierStatus)
        ensures
            r.reachable == self.reachable,
            r.degraded == !self.reachable,
            r.base_url@ == self.base_url@,
            self.reachable ==> views(r.capabilities@) == capability_list() && r.detail@ == "stub backend"@,
            !self.reachable ==> r.capabilities.len() == 0 && r.detail@ == "stub backend unreachable"@,
    {
        if self.reachable {
            XavierStatus {
                reachable: true,
                base_url: self.base_url.clone(),
                capabilities: capability_names(),
                degraded: false,
                detail: "stub backend".to_owned(),
            }
        } else {
            XavierStatus {
                reachable: false,
                base_url: self.base_url.clone(),
                capabilities: Vec::new(),
                degraded: true,
                detail: "stub backend unreachable".to_owned(),
            }
        }
    }

    fn search(&self, query: &str, limit: usize) -> (r: Result<Vec<MemoryHit>, XavierError>)
        ensures
            !self.reachable ==> (r matches Err(XavierError::Unreachable(at, why))
                && at@ == self.base_url@ && why@ == "stub backend unreachable"@),
            self.reachable ==> (r matches Ok(hits) && hits.len() == payload_items(self.payload).len()
                && forall|i: int| 0 <= i < hits.len() ==> describes(payload_items(self.payload)[i], #[trigger] hits@[i])),
    {
        if !self.reachable {
            return Err(XavierError::Unreachable(self.base_url.clone(), "stub backend unreachable".to_owned()));
        }
        Ok(parse_search_payload(&self.payload))
    }
}

/// The parts of `http://host[:port][/prefix]`: host, port (80 when
/// none is given) and path prefix; or why the URL is refused.
pub open spec fn base_url_parts(base: Seq<char>) -> Result<(Seq<char>, u16, Seq<char>), Seq<char>> {
    if !starts_with_text(base, "http://"@) {
        Err("need http://"@)
    } else {
        let rest = base.skip(7);
        let auth = match first_at(rest, '/', 0) { Some(i) => rest.take(i), None => rest };
        let prefix = match first_at(rest, '/', 0) { Some(i) => rest.skip(i), None => Seq::empty() };
        match last_at(auth, ':') {
            Some(j) => match parse_u16_spec(auth.skip(j + 1)) {
                Some(port) => if j == 0 { Err("empty host"@) } else { Ok((auth.take(j), port, prefix)) },
                None => Err("bad port"@),
            },
            None => if auth.len() == 0 { Err("empty host"@) } else { Ok((auth, 80u16, prefix)) },
        }
    }
}

/// Splits `http://host:port[/prefix]` into its parts. Only plain http is
/// supported.
pub fn split_base_url(base: &str) -> (r: Result<(String, u16, String), XavierError>)
    ensures
        match base_url_parts(base@) {
            Ok((h, p, pre)) => r matches Ok((h2, p2, pre2)) && h2@ == h && p2 == p && pre2@ == pre,
            Err(why) => r matches Err(XavierError::BadResponse(m)) && m@ == "bad base url '"@ + base@ + "': "@ + why,
        },
{
    let cs = chars_of(base);
    let scheme = chars_of("http://");
    proof {
        reveal_strlit("http://");
    }
    if !matches_at(&cs, &scheme, 0) {
        return Err(bad_base(base, "need http://"));
    }
    let rest_s = string_of(&cs, 7, cs.len());
    let rest = chars_of(rest_s.as_str());
    proof {
        assert(rest@ =~= base@.skip(7));
    }
    let (auth_s, prefix) = match find_char(&rest, '/', 0) {
        Some(i) => (string_of(&rest, 0, i), string_of(&rest, i, rest.len())),
        None => (rest_s.clone(), String::new()),
    };
    proof {
        if let Some(i) = first_at(rest@, '/', 0) {
            assert(rest@.subrange(0, i) =~= rest@.take(i));
            assert(rest@.subrange(i, rest@.len() as int) =~= rest@.skip(i));
        }
    }
    let auth = chars_of(auth_s.as_str());
    match rfind_char(&auth, ':') {
        Some(j) => {
            let port_s = string_of(&auth, j + 1, auth.len());
            proof {
                assert(port_s@ =~= auth@.skip(j + 1));
            }
            match parse_u16(port_s.as_str()) {
                Some(port) => {
                    if j == 0 {
                        Err(bad_base(base, "empty host"))
                    } else {
                        let host = string_of(&auth, 0, j);
                        proof {
                            assert(host@ =~= auth@.take(j as int));
                        }
                        Ok((host, port, prefix))
                    }
                },
                None => Err(bad_base(base, "bad port")),
            }
        },
        None => {
            if auth.len() == 0 {
                Err(bad_base(base, "empty host"))
            } else {
                Ok((auth_s, 80, prefix))
            }
        },
    }
}

/// The refusal of a base URL, with the reason.
fn bad_base(base: &str, why: &str) -> (r: XavierError)
    ensures
        r matches XavierError::BadResponse(m) && m@ == "bad base url '"@ + base@ + "': "@ + why@,
{
    let mut m = String::new();
    push_str(&mut m, "bad base url '");
    push_str(&mut m, base);
    push_str(&mut m, "': ");
    push_str(&mut m, why);
    XavierError::BadResponse(m)
}

/// The text of one HTTP/1.0 request.
pub open spec fn request_text(method: Seq<char>, full_path: Seq<char>, host: Seq<char>, token: Seq<char>, body: Option<Seq<char>>) -> Seq<char> {
    method + " "@ + full_path + " HTTP/1.0\r\nHost: "@ + host + "\r\nConnection: close\r\n"@
        + (if token.len() > 0 { "Authorization: Bearer "@ + token + "\r\nX-Xavier-Token: "@ + token + "\r\n"@ } else { Seq::empty() })
        + match body {
            Some(b) => "Content-Type: application/json\r\nContent-Length: "@ + decimal(encode_utf8(b).len()) + "\r\n\r\n"@ + b,
            None => "\r\n"@,
        }
}

/// One HTTP/1.0 request to `base_path` + `path` on `host`, with the
/// token headers when a token is set and a JSON body when one is given.
pub fn build_request(method: &str, base_path: &str, path: &str, host: &str, token: &str, body: Option<&str>) -> (r: String)
    ensures
        r@ == request_text(method@, base_path@ + path@, host@, token@, match body { Some(b) => Some(b@), None => None }),
{
    let mut req = String::new();
    push_str(&mut req, method);
    push_str(&mut req, " ");
    push_str(&mut req, base_path);
    push_str(&mut req, path);
    push_str(&mut req, " HTTP/1.0\r\nHost: ");
    push_str(&mut req, host);
    push_str(&mut req, "\r\nConnection: close\r\n");
    let ghost head = req@;
    proof {
        assert(head =~= method@ + " "@ + (base_path@ + path@) + " HTTP/1.0\r\nHost: "@ + host@ + "\r\nConnection: close\r\n"@);
    }
    let auth = auth_headers(token);
    push_str(&mut req, auth.as_str());
    let tail = body_part(body);
    push_str(&mut req, tail.as_str());
    req
}

/// The token headers, when a token is set.
fn auth_headers(token: &str) -> (r: String)
    ensures
        r@ == (if token@.len() > 0 { "Authorization: Bearer "@ + token@ + "\r\nX-Xavier-Token: "@ + token@ + "\r\n"@ } else { Seq::<char>::empty() }),
{
    let mut a = String::new();
    if chars_of(token).len() > 0 {
        push_str(&mut a, "Authorization: Bearer ");
        push_str(&mut a, token);
        push_str(&mut a, "\r\nX-Xavier-Token: ");
        push_str(&mut a, token);
        push_str(&mut a, "\r\n");
    }
    a
}

/// The end of a request: the JSON body with its headers, or a blank line.
fn body_part(body: Option<&str>) -> (r: String)
    ensures
        r@ == match body {
            Some(b) => "Content-Type: application/json\r\nContent-Length: "@ + decimal(encode_utf8(b@).len()) + "\r\n\r\n"@ + b@,
            None => "\r\n"@,
        },
{
    let mut t = String::new();
    match body {
        Some(b) => {
            push_str(&mut t, "Content-Type: application/json\r\nContent-Length: ");
            let n = b.as_bytes().len();
            push_str(&mut t, u64_decimal(n as u64).as_str());
            push_str(&mut t, "\r\n\r\n");
            push_str(&mut t, b);
        },
        None => {
            push_str(&mut t, "\r\n");
        },
    }
    t
}

/// The status code of a response: the second word of its first line,
/// read as a 16-bit number.
pub open spec fn status_code_of(text: Seq<char>) -> Option<u16> {
    parse_u16_spec(first_word(after_first_word(crate::serve::request_line(text))))
}

/// The status code of a response, if its first line carries one.
pub fn parse_status_code(text: &str) -> (r: Option<u16>)
    ensures
        r == status_code_of(text@),
{
    let (_, second) = crate::serve::parse_request_line(text);
    parse_u16(second.as_str())
}

/// The body of a response: what follows the first blank line, or nothing.
pub open spec fn body_of(text: Seq<char>) -> Seq<char> {
    if contains_text(text, "\r\n\r\n"@) {
        text.skip((choose|i: int| occurs_at(text, "\r\n\r\n"@, i) && forall|j: int| 0 <= j < i ==> !#[trigger] occurs_at(text, "\r\n\r\n"@, j)) + 4)
    } else {
        Seq::empty()
    }
}

/// The body of a response (what follows its head).
pub fn response_body(text: &str) -> (r: String)
    ensures
        r@ == body_of(text@),
{
    let cs = chars_of(text);
    let sep = chars_of("\r\n\r\n");
    proof {
        reveal_strlit("\r\n\r\n");
    }
    match find_text(&cs, &sep) {
        Some(i) => {
            proof {
                let k = choose|k: int| occurs_at(text@, "\r\n\r\n"@, k) && forall|j: int| 0 <= j < k ==> !#[trigger] occurs_at(text@, "\r\n\r\n"@, j);
                assert(occurs_at(text@, "\r\n\r\n"@, i as int));
                if k < i {
                } else if k > i {
                    assert(!occurs_at(text@, "\r\n\r\n"@, i as int));
                }
                assert(k == i);
                assert(contains_text(text@, "\r\n\r\n"@));
                assert(i + 4 <= cs.len());
            }
            string_of(&cs, i + 4, cs.len())
        },
        None => String::new(),
    }
}

/// A search answer is usable only with a 2xx status; otherwise the
/// status and body are reported.
pub fn check_search_status(code: u16, text: &str) -> (r: Result<(), XavierError>)
    ensures
        200 <= code < 300 ==> r is Ok,
        !(200 <= code < 300) ==> (r matches Err(XavierError::BadResponse(m)) && m@ == "HTTP "@ + decimal(code as nat) + ": "@ + text@),
{
    if 200 <= code && code < 300 {
        Ok(())
    } else {
        let mut m = String::new();
        push_str(&mut m, "HTTP ");
        push_str(&mut m, u64_decimal(code as u64).as_str());
        push_str(&mut m, ": ");
        push_str(&mut m, text);
        Err(XavierError::BadResponse(m))
    }
}

/// The real backend's configuration; the calls it makes over the
/// network stand with the caller.
#[derive(Debug, Clone)]
pub struct HttpBackend {
    pub config: XavierConfig,
}

impl HttpBackend {
    /// A backend talking to the configured server.
    pub fn new(config: XavierConfig) -> (r: HttpBackend)
        ensures
            r.config == config,
    {
        HttpBackend { config }
    }
}

/// The string member `key` of an optional object, or the empty string.
pub open spec fn meta_text(m: Option<Json>, key: Seq<char>) -> Seq<char> {
    match m {
        Some(o) => text_at(o, key),
        None => Seq::empty(),
    }
}

/// The strings of one search result read from its JSON: each member as a
/// string or empty, `metadata.path` and `metadata.kind` from its `metadata`.
pub open spec fn fields_read(f: HitFields, item: Json) -> bool {
    let meta = member(item, "metadata"@);
    &&& f.id@ == text_at(item, "id"@)
    &&& f.path@ == text_at(item, "path"@)
    &&& f.meta_path@ == meta_text(meta, "path"@)
    &&& f.user_id@ == text_at(item, "user_id"@)
    &&& f.snippet@ == text_at(item, "snippet"@)
    &&& f.memory@ == text_at(item, "memory"@)
    &&& f.content@ == text_at(item, "content"@)
    &&& f.text@ == text_at(item, "text"@)
    &&& f.kind@ == text_at(item, "kind"@)
    &&& f.meta_kind@ == meta_text(meta, "kind"@)
}

/// The elements of a value that is an array.
pub open spec fn array_items(v: Option<Json>) -> Option<Seq<Json>> {
    match v {
        Some(Json::Array(a)) => Some(a@),
        _ => None,
    }
}

/// A result list read from an optional array, one entry per element.
pub open spec fn list_read(fs: Option<Vec<HitFields>>, items: Option<Seq<Json>>) -> bool {
    match (fs, items) {
        (Some(v), Some(a)) => v.len() == a.len() && forall|i: int| 0 <= i < v.len() ==> fields_read(#[trigger] v@[i], a[i]),
        (None, None) => true,
        _ => false,
    }
}

/// The result lists of a search answer read from its JSON: the answer
/// itself when it is an array, and its `results` member when that is one.
pub open spec fn payload_read(p: SearchPayload, value: Json) -> bool {
    &&& list_read(p.top, array_items(Some(value)))
    &&& list_read(p.results, array_items(member(value, "results"@)))
}

fn meta_member(meta: Option<&Json>, key: &str) -> (r: String)
    ensures
        r@ == meta_text(match meta { Some(m) => Some(*m), None => None }, key@),
{
    match meta {
        Some(m) => text_member(m, key),
        None => String::new(),
    }
}

/// Reads the strings of one search result (see `fields_read`).
pub fn hit_fields_of(item: &Json) -> (f: HitFields)
    ensures
        fields_read(f, *item),
{
    let meta = get(item, "metadata");
    HitFields {
        id: text_member(item, "id"),
        path: text_member(item, "path"),
        meta_path: meta_member(meta, "path"),
        user_id: text_member(item, "user_id"),
        snippet: text_member(item, "snippet"),
        memory: text_member(item, "memory"),
        content: text_member(item, "content"),
        text: text_member(item, "text"),
        kind: text_member(item, "kind"),
        meta_kind: meta_member(meta, "kind"),
    }
}

fn list_of(v: Option<&Json>) -> (r: Option<Vec<HitFields>>)
    ensures
        list_read(r, array_items(match v { Some(j) => Some(*j), None => None })),
{
    match v {
        Some(Json::Array(a)) => {
            let mut out: Vec<HitFields> = Vec::new();
            let mut i: usize = 0;
            while i < a.len()
                invariant
                    i <= a.len(),
                    out.len() == i,
                    forall|k: int| 0 <= k < i ==> fields_read(#[trigger] out@[k], a@[k]),
                decreases a.len() - i,
            {
                out.push(hit_fields_of(&a[i]));
                i = i + 1;
            }
            Some(out)
        },
        _ => None,
    }
}

/// Reads the result lists of a search answer (see `payload_read`).
pub fn search_payload_of(value: &Json) -> (p: SearchPayload)
    ensures
        payload_read(p, *value),
{
    SearchPayload { top: list_of(Some(value)), results: list_of(get(value, "results")) }
}

/// Reads the result lists of a search answer's text, or the JSON error's text.
pub fn parse_search_answer(text: &str) -> (r: Result<SearchPayload, String>)
    ensures
        match json_parse(text@) {
            Ok(v) => r matches Ok(p) && payload_read(p, v),
            Err(m) => r matches Err(e) && e@ == m,
        },
{
    match parse_json(text) {
        Ok(v) => Ok(search_payload_of(&v)),
        Err(m) => Err(m),
    }
}

/// The hits of a search answer with HTTP status `code`: a non-2xx status
/// is reported with the body, a body that is no JSON with the JSON error,
/// otherwise one hit per result, read tolerantly.
pub fn search_answer(code: u16, text: &str) -> (r: Result<Vec<MemoryHit>, XavierError>)
    ensures
        !(200 <= code < 300) ==> (r matches Err(XavierError::BadResponse(m)) && m@ == "HTTP "@ + decimal(code as nat) + ": "@ + text@),
        200 <= code < 300 ==> match json_parse(text@) {
            Err(m) => r matches Err(XavierError::BadResponse(e)) && e@ == m,
            Ok(v) => r matches Ok(hits) && exists|p: SearchPayload| #[trigger] payload_read(p, v)
                && hits.len() == payload_items(p).len()
                && forall|i: int| 0 <= i < hits.len() ==> describes(payload_items(p)[i], #[trigger] hits@[i]),
        },
{
    check_search_status(code, text)?;
    match parse_search_answer(text) {
        Ok(p) => Ok(parse_search_payload(&p)),
        Err(m) => Err(XavierError::BadResponse(m)),
    }
}

/// The JSON body of a search request: `limit`, `mode` and `query`, in the
/// key order serde_json writes an object in.
pub open spec fn search_body(query: Seq<char>, limit: nat) -> Seq<char> {
    "{\"limit\":"@ + decimal(limit) + ",\"mode\":\"snippet\",\"query\":"@ + json_quote(query) + "}"@
}

/// The JSON body of a search request in `snippet` mode.
pub fn search_request_body(query: &str, limit: usize) -> (r: String)
    ensures
        r@ == search_body(query@, limit as nat),
{
    let mut b = String::new();
    push_str(&mut b, "{\"limit\":");
    push_str(&mut b, u64_decimal(limit as u64).as_str());
    push_str(&mut b, ",\"mode\":\"snippet\",\"query\":");
    push_str(&mut b, json_string(query).as_str());
    push_str(&mut b, "}");
    b
}

/// The ids that draft dependencies name: for each index, in order, the id
/// created at that position, skipping indices with no created id.
pub open spec fn picked_ids(deps: Seq<usize>, created: Seq<Seq<char>>) -> Seq<Seq<char>>
    decreases deps.len(),
{
    if deps.len() == 0 {
        Seq::empty()
    } else {
        picked_ids(deps.drop_last(), created) + if (deps.last() as int) < created.len() {
            seq![created[deps.last() as int]]
        } else {
            Seq::empty()
        }
    }
}

/// The task ids a draft item depends on, given the ids created so far for
/// the earlier draft items (see `picked_ids`).
pub fn draft_dependency_ids(depends_on: &Vec<usize>, created: &Vec<String>) -> (r: Vec<String>)
    ensures
        views(r@) == picked_ids(depends_on@, views(created@)),
{
    let mut out: Vec<String> = Vec::new();
    let mut i: usize = 0;
    while i < depends_on.len()
        invariant
            i <= depends_on.len(),
            views(out@) == picked_ids(depends_on@.take(i as int), views(created@)),
        decreases depends_on.len() - i,
    {
        let d = depends_on[i];
        let ghost before = views(out@);
        proof {
            let t = depends_on@.take(i + 1);
            assert(t.drop_last() =~= depends_on@.take(i as int));
            assert(t.last() == d);
        }
        if d < created.len() {
            out.push(created[d].clone());
            proof {
                assert(views(out@) =~= before + seq![views(created@)[d as int]]);
            }
        } else {
            proof {
                assert(views(out@) =~= before + Seq::<Seq<char>>::empty());
            }
        }
        i = i + 1;
    }
    proof {
        assert(depends_on@.take(depends_on.len() as int) =~= depends_on@);
    }
    out
}

} // verus!
