# atlas

A task-DAG engine for long-horizon agent work: sessions, tasks with
dependencies, a deterministic status protocol, estimates with a critical
path, a local dashboard, an optional memory adapter (Xavier) and an
event-bus watcher.

## Layout

- `src/` — the verified library (Verus). Every decision lives here, with
  its contract:
  - `dag` — reachability and Kahn topological order with lexicographic
    tie-breaks, cycle reporting;
  - `lifecycle` — the store's rules: cycle refusal, READY/BLOCKED
    refresh, allowed transitions, FIFO traversal;
  - `protocol/status` — the status codes and their transition table;
  - `estimator` — per-task averages by title prefix, rollups with the
    longest dependency path;
  - `tree` — forest construction, project filters and summaries, render;
  - `promotion` — Definition-of-Done and evidence checks, and the
    completion gate;
  - `forge` — fast-CI evidence, the main-only deploy plan, issue closing;
  - `serve` — request routing, replies and bind checks of the dashboard;
  - `xavier` — the memory adapter's parsing, drafting and HTTP text;
  - `wasm` — the JSON entry points of the browser build;
  - `watch` — reading bus pages and events, deciding which advance tasks;
  - `json` — JSON values as serde_json parses them, member lookup, and
    string literals as serde_json writes them;
  - `text`, `model`, `error`, `commands`, `ffi` — shared pieces.
- `tests/` — the test suite, run against the compiled library.
- `app/` — the `atlas` command line: SQLite storage, sockets, HTTP, git
  and cargo runs, the websocket, the C exports and argument parsing
  around the library.
