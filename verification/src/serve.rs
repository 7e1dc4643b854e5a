//! The dashboard server's decisions: which bind address is allowed, how
//! a request head is read and routed, and the bytes of each reply. The
//! sockets, threads and websocket frames live with the caller.
use vstd::prelude::*;
use vstd::utf8::encode_utf8;
use crate::error::AtlasError;
use crate::text::{push_str, chars_of, string_of, split_lines, lines_from, first_word, first_word_of, after_first_word,
    rest_after_word, str_equal, lowercase, to_lower, contains_text, find_text, decimal, u64_decimal, trim, trim_text};

verus! {

/// `std::path::PathBuf`, carried as is.
#[verifier::external_type_specification]
#[verifier::external_body]
pub struct ExPathBuf(std::path::PathBuf);

/// Configuration of one dashboard run.
#[derive(Debug)]
pub struct ServeConfig {
    pub host: String,
    pub port: u16,
    pub db: std::path::PathBuf,
    pub public: bool,
}

/// Seconds between websocket snapshot pushes.
pub const TICK_SECS: u64 = 1;

/// Max events included in each snapshot and history panel.
pub const HISTORY_LIMIT: i64 = 50;

/// Max bytes of HTTP request head accepted per connection.
pub const MAX_HEAD_BYTES: usize = 16384;

/// The single-file dashboard page (no external assets): a task table
/// and an event history, refreshed from websocket snapshots on `/ws`.
pub const DASHBOARD_HTML: &'static str = r#"<!DOCTYPE html>
<html lang="en">
<head>
<meta charset="utf-8">
<title>atlas dashboard</title>
<style>
body { font-family: sans-serif; margin: 1.5em; }
table { border-collapse: collapse; }
td, th { padding: 0.2em 0.6em; border-bottom: 1px solid #ddd; text-align: left; }
#atlas-status { color: #666; }
</style>
</head>
<body>
<h1>atlas</h1>
<p id="atlas-status">connecting</p>
<h2>Tasks</h2>
<table><thead><tr><th>id</th><th>state</th><th>title</th></tr></thead><tbody id="atlas-tasks"></tbody></table>
<h2>History</h2>
<ul id="atlas-history"></ul>
<script>
(function () {
  var status = document.getElementById("atlas-status");
  var tasks = document.getElementById("atlas-tasks");
  var history = document.getElementById("atlas-history");
  function cell(text) { var td = document.createElement("td"); td.textContent = text; return td; }
  function render(snap) {
    tasks.textContent = "";
    (snap.tasks || []).forEach(function (t) {
      var tr = document.createElement("tr");
      tr.appendChild(cell(t.id)); tr.appendChild(cell(t.state)); tr.appendChild(cell(t.title));
      tasks.appendChild(tr);
    });
    history.textContent = "";
    (snap.events || []).forEach(function (e) {
      var li = document.createElement("li");
      li.textContent = e.kind + " " + e.payload;
      history.appendChild(li);
    });
  }
  function connect() {
    var proto = location.protocol === "https:" ? "wss://" : "ws://";
    var ws = new WebSocket(proto + location.host + "/ws");
    ws.onopen = function () { status.textContent = "live"; };
    ws.onmessage = function (m) { render(JSON.parse(m.data)); };
    ws.onclose = function () { status.textContent = "disconnected, retrying"; setTimeout(connect, 2000); };
  }
  connect();
})();
</script>
</body>
</html>
"#;

/// Marker strings the served page must contain.
pub const PAGE_MARKERS: [&'static str; 5] = ["atlas-tasks", "atlas-history", "atlas-status", "/ws", "WebSocket"];

/// The request line of a head: its first line, or empty.
pub open spec fn request_line(head: Seq<char>) -> Seq<char> {
    let ls = lines_from(head, 0);
    if ls.len() > 0 { ls[0] } else { Seq::empty() }
}

/// Splits one request head into `(method, path)`: the first two words of
/// its first line, each empty when missing.
pub fn parse_request_line(head: &str) -> (r: (String, String))
    ensures
        r.0@ == first_word(request_line(head@)),
        r.1@ == first_word(after_first_word(request_line(head@))),
{
    let ls = split_lines(head);
    let line = if ls.len() > 0 { ls[0].clone() } else { String::new() };
    proof {
        if ls.len() > 0 {
            assert(crate::text::views(ls@)[0] == ls@[0]@);
        }
    }
    let method = first_word_of(line.as_str());
    let rest = rest_after_word(line.as_str());
    let path = first_word_of(rest.as_str());
    (method, path)
}

/// Whether a request head asks for a websocket upgrade, in any case.
pub open spec fn asks_upgrade(head: Seq<char>) -> bool {
    contains_text(lowercase(head), "upgrade: websocket"@)
}

/// True when the request head asks for a websocket upgrade (case-insensitive).
pub fn is_websocket_upgrade(head: &str) -> (r: bool)
    ensures
        r == asks_upgrade(head@),
{
    let low = chars_of(to_lower(head).as_str());
    let needle = chars_of("upgrade: websocket");
    find_text(&low, &needle).is_some()
}

/// The head of a minimal HTTP/1.1 response.
pub open spec fn response_head(status: Seq<char>, ctype: Seq<char>, len: nat) -> Seq<char> {
    "HTTP/1.1 "@ + status + "\r\ncontent-type: "@ + ctype + "\r\ncontent-length: "@ + decimal(len)
        + "\r\nconnection: close\r\n\r\n"@
}

/// One minimal HTTP/1.1 response (head, then body) as bytes.
pub fn build_response(status: &str, ctype: &str, body: &[u8]) -> (r: Vec<u8>)
    ensures
        r@ == encode_utf8(response_head(status@, ctype@, body@.len())) + body@,
{
    let mut head = String::new();
    push_str(&mut head, "HTTP/1.1 ");
    push_str(&mut head, status);
    push_str(&mut head, "\r\ncontent-type: ");
    push_str(&mut head, ctype);
    push_str(&mut head, "\r\ncontent-length: ");
    push_str(&mut head, u64_decimal(body.len() as u64).as_str());
    push_str(&mut head, "\r\nconnection: close\r\n\r\n");
    let hb = head.as_str().as_bytes();
    let mut out: Vec<u8> = Vec::new();
    let mut i: usize = 0;
    while i < hb.len()
        invariant
            i <= hb.len(),
            out@ == hb@.subrange(0, i as int),
        decreases hb.len() - i,
    {
        out.push(hb[i]);
        proof {
            assert(hb@.subrange(0, i + 1) =~= hb@.subrange(0, i as int).push(hb@[i as int]));
        }
        i = i + 1;
    }
    let mut j: usize = 0;
    while j < body.len()
        invariant
            j <= body.len(),
            i == hb.len(),
            out@ == hb@ + body@.subrange(0, j as int),
        decreases body.len() - j,
    {
        out.push(body[j]);
        proof {
            assert(body@.subrange(0, j + 1) =~= body@.subrange(0, j as int).push(body@[j as int]));
            assert(hb@ + body@.subrange(0, j + 1) =~= (hb@ + body@.subrange(0, j as int)).push(body@[j as int]));
        }
        j = j + 1;
    }
    proof {
        assert(hb@.subrange(0, i as int) =~= hb@);
        assert(body@.subrange(0, j as int) =~= body@);
        assert(head@ == response_head(status@, ctype@, body@.len()));
    }
    out
}

/// Where a request goes.
#[derive(Debug, Clone, Copy, PartialEq, Eq, Structural)]
pub enum Route {
    /// Anything but `GET`: 405.
    NotAllowed,
    /// `GET /`: the dashboard page.
    Page,
    /// `GET /ws` asking for an upgrade: the websocket.
    Socket,
    /// `GET /ws` without an upgrade: 426.
    UpgradeRequired,
    /// Any other path: 404.
    NotFound,
}

/// The route of a request head.
pub open spec fn route_of(head: Seq<char>) -> Route {
    let line = request_line(head);
    let method = first_word(line);
    let path = first_word(after_first_word(line));
    if method != "GET"@ {
        Route::NotAllowed
    } else if path == "/"@ {
        Route::Page
    } else if path == "/ws"@ {
        if asks_upgrade(head) { Route::Socket } else { Route::UpgradeRequired }
    } else {
        Route::NotFound
    }
}

/// Routes one request head: page, websocket upgrade, or an error status.
pub fn route(head: &str) -> (r: Route)
    ensures
        r == route_of(head@),
{
    let (method, path) = parse_request_line(head);
    if !str_equal(method.as_str(), "GET") {
        Route::NotAllowed
    } else if str_equal(path.as_str(), "/") {
        Route::Page
    } else if str_equal(path.as_str(), "/ws") {
        if is_websocket_upgrade(head) { Route::Socket } else { Route::UpgradeRequired }
    } else {
        Route::NotFound
    }
}

/// The status line, content type and body answered on a route other than
/// the websocket.
pub open spec fn route_reply(r: Route, page: Seq<char>) -> (Seq<char>, Seq<char>, Seq<char>) {
    match r {
        Route::NotAllowed => ("405 Method Not Allowed"@, "text/plain"@, "method not allowed"@),
        Route::Page => ("200 OK"@, "text/html; charset=utf-8"@, page),
        Route::UpgradeRequired => ("426 Upgrade Required"@, "text/plain"@, "websocket upgrade required"@),
        _ => ("404 Not Found"@, "text/plain"@, "not found"@),
    }
}

/// The bytes answered on a route, or `None` for the websocket, which is
/// answered by its own handshake; `page` is the dashboard served on `/`.
pub fn reply(r: Route, page: &str) -> (out: Option<Vec<u8>>)
    ensures
        r == Route::Socket ==> out is None,
        r != Route::Socket ==> (out matches Some(b) && {
            let (status, ctype, body) = route_reply(r, page@);
            b@ == encode_utf8(response_head(status, ctype, encode_utf8(body).len())) + encode_utf8(body)
        }),
{
    let (status, ctype, body): (&str, &str, &str) = match r {
        Route::Socket => return None,
        Route::NotAllowed => ("405 Method Not Allowed", "text/plain", "method not allowed"),
        Route::Page => ("200 OK", "text/html; charset=utf-8", page),
        Route::UpgradeRequired => ("426 Upgrade Required", "text/plain", "websocket upgrade required"),
        Route::NotFound => ("404 Not Found", "text/plain", "not found"),
    };
    Some(build_response(status, ctype, body.as_bytes()))
}

/// The bytes hold the blank line that ends a request head.
pub open spec fn has_head_end(b: Seq<u8>) -> bool {
    exists|i: int| 0 <= i && i + 4 <= b.len() && #[trigger] b[i] == 13u8 && b[i + 1] == 10u8 && b[i + 2] == 13u8 && b[i + 3] == 10u8
}

/// Progress of reading a request head.
#[derive(Debug, Clone, Copy, PartialEq, Eq, Structural)]
pub enum HeadScan {
    /// More than `MAX_HEAD_BYTES` arrived: the connection is dropped.
    TooLarge,
    /// The head is complete.
    Complete,
    /// Keep reading.
    NeedMore,
}

/// What the bytes read so far mean for the request head: too large
/// first, then complete once the blank line has arrived.
pub fn scan_head(buf: &Vec<u8>) -> (r: HeadScan)
    ensures
        buf.len() > MAX_HEAD_BYTES ==> r == HeadScan::TooLarge,
        buf.len() <= MAX_HEAD_BYTES && has_head_end(buf@) ==> r == HeadScan::Complete,
        buf.len() <= MAX_HEAD_BYTES && !has_head_end(buf@) ==> r == HeadScan::NeedMore,
{
    if buf.len() > MAX_HEAD_BYTES {
        return HeadScan::TooLarge;
    }
    let mut i: usize = 0;
    while buf.len() >= 4 && i <= buf.len() - 4
        invariant
            i <= buf.len(),
            forall|j: int| 0 <= j < i && j + 4 <= buf.len() ==> !(#[trigger] buf@[j] == 13u8 && buf@[j + 1] == 10u8
                && buf@[j + 2] == 13u8 && buf@[j + 3] == 10u8),
            buf.len() <= MAX_HEAD_BYTES,
        decreases buf.len() - i,
    {
        if buf[i] == 13 && buf[i + 1] == 10 && buf[i + 2] == 13 && buf[i + 3] == 10 {
            return HeadScan::Complete;
        }
        i = i + 1;
    }
    HeadScan::NeedMore
}

/// `s` without the `[` and `]` it starts with.
pub open spec fn strip_front_brackets(s: Seq<char>) -> Seq<char>
    decreases s.len(),
{
    if s.len() > 0 && (s[0] == '[' || s[0] == ']') { strip_front_brackets(s.drop_first()) } else { s }
}

/// `s` without the `[` and `]` it ends with.
pub open spec fn strip_back_brackets(s: Seq<char>) -> Seq<char>
    decreases s.len(),
{
    if s.len() > 0 && (s.last() == '[' || s.last() == ']') { strip_back_brackets(s.drop_last()) } else { s }
}

/// The host as an address is read: trimmed, without surrounding brackets.
pub open spec fn host_core(host: Seq<char>) -> Seq<char> {
    strip_back_brackets(strip_front_brackets(trim(host)))
}

proof fn lemma_strip_front(s: Seq<char>, a: int)
    requires
        0 <= a <= s.len(),
        forall|j: int| 0 <= j < a ==> (#[trigger] s[j] == '[' || s[j] == ']'),
        a == s.len() || !(s[a] == '[' || s[a] == ']'),
    ensures
        strip_front_brackets(s) == s.subrange(a, s.len() as int),
    decreases a,
{
    if a > 0 {
        assert(s[0] == '[' || s[0] == ']');
        let t = s.drop_first();
        assert forall|j: int| 0 <= j < a - 1 implies (#[trigger] t[j] == '[' || t[j] == ']') by {
            assert(t[j] == s[j + 1]);
        }
        if a < s.len() {
            assert(t[a - 1] == s[a]);
        }
        lemma_strip_front(t, a - 1);
        assert(t.subrange(a - 1, t.len() as int) =~= s.subrange(a, s.len() as int));
    } else {
        assert(s.subrange(0, s.len() as int) =~= s);
    }
}

proof fn lemma_strip_back(s: Seq<char>, e: int)
    requires
        0 <= e <= s.len(),
        forall|j: int| e <= j < s.len() ==> (#[trigger] s[j] == '[' || s[j] == ']'),
        e == 0 || !(s[e - 1] == '[' || s[e - 1] == ']'),
    ensures
        strip_back_brackets(s) == s.subrange(0, e),
    decreases s.len() - e,
{
    if e < s.len() {
        assert(s.last() == '[' || s.last() == ']');
        let t = s.drop_last();
        lemma_strip_back(t, e);
        assert(t.subrange(0, e) =~= s.subrange(0, e));
    } else {
        assert(s.subrange(0, e) =~= s);
    }
}

/// The host as an address is read (see `host_core`).
pub fn bind_host(host: &str) -> (r: String)
    ensures
        r@ == host_core(host@),
{
    let t = trim_text(host);
    let cs = chars_of(t.as_str());
    let mut a: usize = 0;
    while a < cs.len() && (cs[a] == '[' || cs[a] == ']')
        invariant
            a <= cs.len(),
            forall|j: int| 0 <= j < a ==> (#[trigger] cs@[j] == '[' || cs@[j] == ']'),
        decreases cs.len() - a,
    {
        a = a + 1;
    }
    let mut e: usize = cs.len();
    while e > a && (cs[e - 1] == '[' || cs[e - 1] == ']')
        invariant
            a <= e <= cs.len(),
            forall|j: int| e <= j < cs.len() ==> (#[trigger] cs@[j] == '[' || cs@[j] == ']'),
        decreases e,
    {
        e = e - 1;
    }
    proof {
        lemma_strip_front(cs@, a as int);
        let f = cs@.subrange(a as int, cs@.len() as int);
        assert forall|j: int| e - a <= j < f.len() implies (#[trigger] f[j] == '[' || f[j] == ']') by {
            assert(f[j] == cs@[a + j]);
        }
        if e > a {
            assert(f[e - a - 1] == cs@[e - 1]);
        }
        lemma_strip_back(f, e - a);
        assert(f.subrange(0, e - a) =~= cs@.subrange(a as int, e as int));
    }
    string_of(&cs, a, e)
}

/// ASCII upper-case letters folded to lower case, as code points.
pub open spec fn ascii_fold(c: char) -> u32 {
    let u = c as u32;
    if 65 <= u && u <= 90 { (u + 32) as u32 } else { u }
}

/// Equality up to ASCII case (`str::eq_ignore_ascii_case`).
pub open spec fn eq_ignore_ascii_case(a: Seq<char>, b: Seq<char>) -> bool {
    a.len() == b.len() && forall|i: int| 0 <= i < a.len() ==> ascii_fold(#[trigger] a[i]) == ascii_fold(b[i])
}

/// Equality up to ASCII case.
pub fn same_ignoring_ascii_case(a: &str, b: &str) -> (r: bool)
    ensures
        r == eq_ignore_ascii_case(a@, b@),
{
    let x = chars_of(a);
    let y = chars_of(b);
    if x.len() != y.len() {
        return false;
    }
    let mut i: usize = 0;
    while i < x.len()
        invariant
            x@ == a@,
            y@ == b@,
            x.len() == y.len(),
            i <= x.len(),
            forall|j: int| 0 <= j < i ==> ascii_fold(#[trigger] x@[j]) == ascii_fold(y@[j]),
        decreases x.len() - i,
    {
        let u = x[i] as u32;
        let v = y[i] as u32;
        let fu = if 65 <= u && u <= 90 { u + 32 } else { u };
        let fv = if 65 <= v && v <= 90 { v + 32 } else { v };
        if fu != fv {
            return false;
        }
        i = i + 1;
    }
    true
}

/// A host is loopback-only: `localhost` in any case, `::1`, or an address
/// that the caller parsed as loopback (`ip_loopback` is what parsing the
/// host as an IP address said, `None` when it is no address).
pub open spec fn loopback_host(host: Seq<char>, ip_loopback: Option<bool>) -> bool {
    let h = host_core(host);
    eq_ignore_ascii_case(h, "localhost"@) || h == "::1"@ || ip_loopback == Some(true)
}

/// Whether the host is loopback-only (see `loopback_host`).
pub fn loopback_decision(host: &str, ip_loopback: Option<bool>) -> (r: bool)
    ensures
        r == loopback_host(host@, ip_loopback),
{
    let h = bind_host(host);
    same_ignoring_ascii_case(h.as_str(), "localhost") || str_equal(h.as_str(), "::1") || ip_loopback == Some(true)
}

/// The address to bind: non-loopback hosts are refused without
/// `--public`; `localhost` binds `127.0.0.1`; any other host must be an
/// IP address (`ip_loopback` is `Some` exactly when the host core parsed
/// as one) and binds as written.
pub fn bind_decision(host: &str, port: u16, public: bool, ip_loopback: Option<bool>) -> (r: Result<String, AtlasError>)
    ensures
        !public && !loopback_host(host@, ip_loopback) ==> (r matches Err(AtlasError::InvalidState(m))
            && m@ == "refusing non-loopback bind '"@ + host@ + "' without --public"@),
        (public || loopback_host(host@, ip_loopback)) && eq_ignore_ascii_case(host_core(host@), "localhost"@)
            ==> (r matches Ok(a) && a@ == "127.0.0.1"@),
        (public || loopback_host(host@, ip_loopback)) && !eq_ignore_ascii_case(host_core(host@), "localhost"@) && ip_loopback is Some
            ==> (r matches Ok(a) && a@ == host_core(host@)),
        (public || loopback_host(host@, ip_loopback)) && !eq_ignore_ascii_case(host_core(host@), "localhost"@) && ip_loopback is None
            ==> (r matches Err(AtlasError::InvalidState(m)) && m@ == "invalid bind '"@ + host@ + ":"@ + decimal(port as nat) + "'"@),
{
    if !public && !loopback_decision(host, ip_loopback) {
        let mut m = String::new();
        push_str(&mut m, "refusing non-loopback bind '");
        push_str(&mut m, host);
        push_str(&mut m, "' without --public");
        return Err(AtlasError::InvalidState(m));
    }
    let h = bind_host(host);
    if same_ignoring_ascii_case(h.as_str(), "localhost") {
        Ok("127.0.0.1".to_owned())
    } else if ip_loopback.is_some() {
        Ok(h)
    } else {
        let mut m = String::new();
        push_str(&mut m, "invalid bind '");
        push_str(&mut m, host);
        push_str(&mut m, ":");
        push_str(&mut m, u64_decimal(port as u64).as_str());
        push_str(&mut m, "'");
        Err(AtlasError::InvalidState(m))
    }
}

} // verus!
