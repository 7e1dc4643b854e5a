//! Task lifecycle rules applied by the store: which state a task is in
//! given its parents, which transitions are allowed, and which edges
//! would close a cycle.
use vstd::prelude::*;
use crate::dag::{edge_views, is_ancestor, reachable, is_chain, has_edge, on_cycle, lemma_ancestor_step};
use crate::error::AtlasError;
use crate::model::{TaskState, task_state_name, terminal};
use crate::text::{str_equal, push_str, views};
use crate::dag::all_flagged;
use vstd::set_lib::{lemma_int_range, lemma_len_subset, set_int_range};

verus! {

/// A non-terminal task with an incomplete parent is BLOCKED, otherwise
/// READY; terminal tasks keep their state.
pub open spec fn refreshed(current: TaskState, incomplete_parents: i64) -> TaskState {
    if terminal(current) {
        current
    } else if incomplete_parents > 0 {
        TaskState::Blocked
    } else {
        TaskState::Ready
    }
}

/// The state a task takes after its parents changed.
pub fn refreshed_state(current: TaskState, incomplete_parents: i64) -> (r: TaskState)
    ensures
        r == refreshed(current, incomplete_parents),
{
    if current.is_terminal() {
        current
    } else if incomplete_parents > 0 {
        TaskState::Blocked
    } else {
        TaskState::Ready
    }
}

/// READY (or PENDING) work may start; BLOCKED work may start once every
/// parent is complete; everything else is refused.
pub open spec fn may_start(state: TaskState, incomplete_parents: i64) -> bool {
    state == TaskState::Ready || state == TaskState::Pending
        || (state == TaskState::Blocked && incomplete_parents == 0)
}

/// Only completed and failed tasks are finished: pending, blocked, ready
/// and running tasks are not.
pub proof fn lemma_finished_states(s: TaskState)
    ensures
        terminal(s) <==> (s == TaskState::Completed || s == TaskState::Failed),
        !terminal(TaskState::Pending) && !terminal(TaskState::Blocked) && !terminal(TaskState::Ready)
            && !terminal(TaskState::InProgress),
{
}

/// Refreshing from the parents: a pending, ready, blocked or running task
/// with any number of incomplete parents above zero becomes BLOCKED, and
/// with none becomes READY; a completed or failed task keeps its state
/// whatever its parents are.
pub proof fn lemma_refresh_follows_parents(s: TaskState, n: i64)
    ensures
        s != TaskState::Completed && s != TaskState::Failed && n > 0 ==> refreshed(s, n) == TaskState::Blocked,
        s != TaskState::Completed && s != TaskState::Failed && n == 0 ==> refreshed(s, n) == TaskState::Ready,
        s == TaskState::Completed || s == TaskState::Failed ==> refreshed(s, n) == s,
{
}

/// The refreshed state depends on the parents only through whether some
/// parent is incomplete: any two positive counts refresh alike.
pub proof fn lemma_refresh_count_irrelevant(s: TaskState, n: i64, m: i64)
    requires
        n > 0,
        m > 0,
    ensures
        refreshed(s, n) == refreshed(s, m),
        refreshed(s, n) != TaskState::Ready,
{
}

/// Work may start from READY or PENDING at any time and from BLOCKED once
/// no parent is incomplete; never while a parent is incomplete and the
/// task is BLOCKED, and never from a running, completed or failed task.
pub proof fn lemma_start_rules(s: TaskState, n: i64)
    ensures
        s == TaskState::Ready || s == TaskState::Pending ==> may_start(s, n),
        s == TaskState::Blocked ==> (may_start(s, n) <==> n == 0),
        s == TaskState::InProgress || s == TaskState::Completed || s == TaskState::Failed ==> !may_start(s, n),
{
}

/// Decides a start request: the new state, or the refusal.
pub fn start_decision(id: &str, state: TaskState, incomplete_parents: i64) -> (r: Result<TaskState, AtlasError>)
    ensures
        may_start(state, incomplete_parents) ==> r == Ok::<TaskState, AtlasError>(TaskState::InProgress),
        !may_start(state, incomplete_parents) ==> (r matches Err(AtlasError::InvalidTransition(m))
            && m@ == "task "@ + id@ + " is "@ + task_state_name(state) + ", only READY work can start"@),
{
    match state {
        TaskState::Ready | TaskState::Pending => Ok(TaskState::InProgress),
        TaskState::Blocked if incomplete_parents == 0 => Ok(TaskState::InProgress),
        other => {
            let mut m = String::new();
            push_str(&mut m, "task ");
            push_str(&mut m, id);
            push_str(&mut m, " is ");
            push_str(&mut m, other.as_str());
            push_str(&mut m, ", only READY work can start");
            Err(AtlasError::InvalidTransition(m))
        },
    }
}

/// Decides a manual block: terminal tasks refuse, all others become BLOCKED.
pub fn block_decision(id: &str, state: TaskState) -> (r: Result<TaskState, AtlasError>)
    ensures
        !terminal(state) ==> r == Ok::<TaskState, AtlasError>(TaskState::Blocked),
        terminal(state) ==> (r matches Err(AtlasError::InvalidTransition(m))
            && m@ == "task "@ + id@ + " is "@ + task_state_name(state)),
{
    if state.is_terminal() {
        let mut m = String::new();
        push_str(&mut m, "task ");
        push_str(&mut m, id);
        push_str(&mut m, " is ");
        push_str(&mut m, state.as_str());
        Err(AtlasError::InvalidTransition(m))
    } else {
        Ok(TaskState::Blocked)
    }
}

/// A completed parent announces a child that just became READY.
pub fn announces_ready(before: TaskState, after: TaskState) -> (r: bool)
    ensures
        r == (before != after && after == TaskState::Ready),
{
    before != after && after == TaskState::Ready
}

/// True when adding the edge `child -> parent` would close a cycle:
/// the edge is a self-edge, or `parent` already (transitively) depends
/// on `child`.
pub fn would_cycle(child: &str, parent: &str, edges: &[(String, String)]) -> (r: bool)
    ensures
        r == (child@ == parent@ || is_ancestor(edge_views(edges@), parent@, child@)),
{
    if str_equal(child, parent) {
        return true;
    }
    let anc = reachable(parent, edges);
    let mut i: usize = 0;
    while i < anc.len()
        invariant
            i <= anc.len(),
            forall|x: Seq<char>| #[trigger] views(anc@).contains(x) <==>
                (x != parent@ && is_ancestor(edge_views(edges@), parent@, x)),
            forall|j: int| 0 <= j < i ==> anc@[j]@ != child@,
        decreases anc.len() - i,
    {
        if str_equal(anc[i].as_str(), child) {
            proof {
                assert(views(anc@)[i as int] == child@);
                assert(views(anc@).contains(child@));
            }
            return true;
        }
        i = i + 1;
    }
    proof {
        if is_ancestor(edge_views(edges@), parent@, child@) {
            assert(views(anc@).contains(child@));
            let j = choose|j: int| 0 <= j < anc.len() && #[trigger] views(anc@)[j] == child@;
            assert(anc@[j]@ == child@);
        }
    }
    false
}

/// `b` is `a` or one of its transitive parents.
pub open spec fn reaches(es: Seq<(Seq<char>, Seq<char>)>, a: Seq<char>, b: Seq<char>) -> bool {
    a == b || is_ancestor(es, a, b)
}

proof fn lemma_reaches_along(es: Seq<(Seq<char>, Seq<char>)>, a: Seq<char>, path: Seq<Seq<char>>, k: int)
    requires
        is_chain(es, path),
        reaches(es, a, path[0]),
        0 <= k < path.len(),
    ensures
        reaches(es, a, path[k]),
    decreases k,
{
    if k > 0 {
        lemma_reaches_along(es, a, path, k - 1);
        assert(has_edge(es, path[k - 1], path[k]));
        lemma_ancestor_step(es, a, path[k - 1], path[k]);
    }
}

proof fn lemma_reaches_trans(es: Seq<(Seq<char>, Seq<char>)>, a: Seq<char>, b: Seq<char>, c: Seq<char>)
    requires
        reaches(es, a, b),
        reaches(es, b, c),
    ensures
        reaches(es, a, c),
{
    if b != c {
        let path = choose|path: Seq<Seq<char>>|
            #[trigger] is_chain(es, path) && path.len() >= 2 && path[0] == b && path.last() == c;
        lemma_reaches_along(es, a, path, path.len() - 1);
    }
}

/// A chain over the edges plus `(c, p)` either already existed as a chain
/// of old edges, or passes through the new edge: from its start to `c`,
/// then from `p` to its end.
proof fn lemma_chain_with_new_edge(es: Seq<(Seq<char>, Seq<char>)>, c: Seq<char>, p: Seq<char>, path: Seq<Seq<char>>, k: int)
    requires
        is_chain(es.push((c, p)), path),
        1 <= k < path.len(),
    ensures
        is_ancestor(es, path[0], path[k]) || (reaches(es, path[0], c) && reaches(es, p, path[k])),
    decreases k,
{
    let es2 = es.push((c, p));
    let u = path[k - 1];
    let v = path[k];
    assert(has_edge(es2, u, v));
    let q = choose|q: int| 0 <= q < es2.len() && #[trigger] es2[q] == (u, v);
    if k > 1 {
        lemma_chain_with_new_edge(es, c, p, path, k - 1);
    }
    if q < es.len() {
        assert(es[q] == (u, v));
        assert(has_edge(es, u, v));
        if k == 1 {
            lemma_ancestor_step(es, path[0], u, v);
        } else if is_ancestor(es, path[0], u) {
            lemma_ancestor_step(es, path[0], u, v);
        } else {
            lemma_ancestor_step(es, p, u, v);
        }
    } else {
        assert(u == c && v == p);
    }
}

/// Rejected edges keep the graph acyclic: adding to an acyclic graph an
/// edge that `would_cycle` accepts (no self-edge, and the parent does not
/// already depend on the child) leaves the graph acyclic.
pub proof fn lemma_accepted_edge_keeps_acyclic(es: Seq<(Seq<char>, Seq<char>)>, c: Seq<char>, p: Seq<char>)
    requires
        forall|x: Seq<char>| !on_cycle(es, x),
        !(c == p || is_ancestor(es, p, c)),
    ensures
        forall|x: Seq<char>| !on_cycle(es.push((c, p)), x),
{
    let es2 = es.push((c, p));
    assert forall|x: Seq<char>| !on_cycle(es2, x) by {
        if on_cycle(es2, x) {
            let path = choose|path: Seq<Seq<char>>|
                #[trigger] is_chain(es2, path) && path.len() >= 2 && path[0] == x && path.last() == x;
            lemma_chain_with_new_edge(es, c, p, path, path.len() - 1);
            if !is_ancestor(es, x, x) {
                lemma_reaches_trans(es, p, x, c);
            } else {
                assert(on_cycle(es, x));
            }
        }
    }
}

/// Refusal for an edge that would close a cycle.
pub fn cycle_error(child: &str, parent: &str) -> (r: AtlasError)
    ensures
        r matches AtlasError::Cycle { child: c, parent: p } && c@ == child@ && p@ == parent@,
{
    AtlasError::Cycle { child: child.to_owned(), parent: parent.to_owned() }
}

/// Applies a request to add the edge `child -> parent` to an edge list:
/// refused with the cycle error when `would_cycle` holds; otherwise the
/// list gains the edge, unless it already holds it.
pub fn add_edge(child: &str, parent: &str, edges: &Vec<(String, String)>) -> (r: Result<Vec<(String, String)>, AtlasError>)
    ensures
        (child@ == parent@ || is_ancestor(edge_views(edges@), parent@, child@)) ==> (r matches Err(AtlasError::Cycle { child: c, parent: p })
            && c@ == child@ && p@ == parent@),
        !(child@ == parent@ || is_ancestor(edge_views(edges@), parent@, child@)) ==> (r matches Ok(es)
            && edge_views(es@) == (if has_edge(edge_views(edges@), child@, parent@) {
                edge_views(edges@)
            } else {
                edge_views(edges@).push((child@, parent@))
            })),
{
    if would_cycle(child, parent, edges.as_slice()) {
        return Err(cycle_error(child, parent));
    }
    let mut out: Vec<(String, String)> = Vec::new();
    let mut found = false;
    let mut i: usize = 0;
    while i < edges.len()
        invariant
            i <= edges.len(),
            edge_views(out@) == edge_views(edges@).take(i as int),
            found == has_edge(edge_views(edges@).take(i as int), child@, parent@),
        decreases edges.len() - i,
    {
        let e = &edges[i];
        let ghost before = edge_views(out@);
        let same = str_equal(e.0.as_str(), child) && str_equal(e.1.as_str(), parent);
        out.push((e.0.clone(), e.1.clone()));
        proof {
            let t = edge_views(edges@).take(i + 1);
            assert(t =~= edge_views(edges@).take(i as int).push((e.0@, e.1@)));
            assert(edge_views(out@) =~= before.push((e.0@, e.1@)));
            if has_edge(t, child@, parent@) {
                let k = choose|k: int| 0 <= k < t.len() && #[trigger] t[k] == (child@, parent@);
                if k < i {
                    assert(edge_views(edges@).take(i as int)[k] == t[k]);
                }
            }
            if found {
                let k = choose|k: int| 0 <= k < i && #[trigger] edge_views(edges@).take(i as int)[k] == (child@, parent@);
                assert(t[k] == edge_views(edges@).take(i as int)[k]);
            }
            if same {
                assert(t[i as int] == (child@, parent@));
            }
        }
        found = found || same;
        i = i + 1;
    }
    proof {
        assert(edge_views(edges@).take(edges.len() as int) =~= edge_views(edges@));
    }
    if !found {
        let ghost before = edge_views(out@);
        out.push((child.to_owned(), parent.to_owned()));
        proof {
            assert(edge_views(out@) =~= before.push((child@, parent@)));
        }
    }
    Ok(out)
}

/// The recorded state of a task, if it is recorded.
pub open spec fn state_in(states: Seq<(String, TaskState)>, id: Seq<char>) -> Option<TaskState>
    decreases states.len(),
{
    if states.len() == 0 {
        None
    } else if states[0].0@ == id {
        Some(states[0].1)
    } else {
        state_in(states.drop_first(), id)
    }
}

/// How many edges from `child` lead to a recorded parent that is not COMPLETED.
pub open spec fn open_parents(es: Seq<(Seq<char>, Seq<char>)>, states: Seq<(String, TaskState)>, child: Seq<char>) -> nat
    decreases es.len(),
{
    if es.len() == 0 {
        0
    } else {
        open_parents(es.drop_last(), states, child) + if es.last().0 == child
            && (state_in(states, es.last().1) matches Some(st) && st != TaskState::Completed) { 1nat } else { 0nat }
    }
}

fn find_state(states: &Vec<(String, TaskState)>, id: &str) -> (r: Option<TaskState>)
    ensures
        r == state_in(states@, id@),
{
    let mut i: usize = 0;
    proof {
        assert(states@.skip(0) =~= states@);
    }
    while i < states.len()
        invariant
            i <= states.len(),
            state_in(states@, id@) == state_in(states@.skip(i as int), id@),
        decreases states.len() - i,
    {
        proof {
            assert(states@.skip(i as int).drop_first() =~= states@.skip(i + 1));
            assert(states@.skip(i as int)[0] == states@[i as int]);
        }
        if str_equal(states[i].0.as_str(), id) {
            return Some(states[i].1);
        }
        i = i + 1;
    }
    None
}

fn not_found(id: &str) -> (r: AtlasError)
    ensures
        r matches AtlasError::NotFound(m) && m@ == "task "@ + id@,
{
    let mut m = String::new();
    push_str(&mut m, "task ");
    push_str(&mut m, id);
    AtlasError::NotFound(m)
}

/// Adds the dependency `child -> parent` to a task graph with the given
/// edges and recorded task states: an unknown task is refused, then an
/// edge that would close a cycle; otherwise the edge list gains the edge
/// (once) and the child takes its refreshed state: BLOCKED while a parent
/// is not COMPLETED, READY otherwise, unchanged when terminal.
pub fn add_dependency_decision(child: &str, parent: &str, edges: &Vec<(String, String)>, states: &Vec<(String, TaskState)>)
    -> (r: Result<(Vec<(String, String)>, TaskState), AtlasError>)
    requires
        edges.len() < i64::MAX,
    ensures
        state_in(states@, child@) is None ==> (r matches Err(AtlasError::NotFound(m)) && m@ == "task "@ + child@),
        state_in(states@, child@) is Some && state_in(states@, parent@) is None
            ==> (r matches Err(AtlasError::NotFound(m)) && m@ == "task "@ + parent@),
        state_in(states@, child@) is Some && state_in(states@, parent@) is Some
            && (child@ == parent@ || is_ancestor(edge_views(edges@), parent@, child@))
            ==> (r matches Err(AtlasError::Cycle { child: c, parent: p }) && c@ == child@ && p@ == parent@),
        state_in(states@, child@) is Some && state_in(states@, parent@) is Some
            && !(child@ == parent@ || is_ancestor(edge_views(edges@), parent@, child@))
            ==> (r matches Ok((es, st))
                && edge_views(es@) == (if has_edge(edge_views(edges@), child@, parent@) {
                    edge_views(edges@)
                } else {
                    edge_views(edges@).push((child@, parent@))
                })
                && st == refreshed(state_in(states@, child@).unwrap(), open_parents(edge_views(es@), states@, child@) as i64)),
{
    let current = match find_state(states, child) {
        Some(s) => s,
        None => return Err(not_found(child)),
    };
    if find_state(states, parent).is_none() {
        return Err(not_found(parent));
    }
    let es = add_edge(child, parent, edges)?;
    proof {
        assert(edge_views(es@).len() == es.len());
        assert(edge_views(edges@).len() == edges.len());
    }
    let mut count: i64 = 0;
    let mut i: usize = 0;
    while i < es.len()
        invariant
            i <= es.len(),
            es.len() <= edges.len() + 1,
            edges.len() < i64::MAX,
            count == open_parents(edge_views(es@).take(i as int), states@, child@),
            count <= i,
        decreases es.len() - i,
    {
        proof {
            let t = edge_views(es@).take(i + 1);
            assert(t.drop_last() =~= edge_views(es@).take(i as int));
            assert(t.last() == (es@[i as int].0@, es@[i as int].1@));
        }
        if str_equal(es[i].0.as_str(), child) {
            match find_state(states, es[i].1.as_str()) {
                Some(st) => {
                    if st != TaskState::Completed {
                        count = count + 1;
                    }
                },
                None => {},
            }
        }
        i = i + 1;
    }
    proof {
        assert(edge_views(es@).take(es.len() as int) =~= edge_views(es@));
    }
    let st = refreshed_state(current, count);
    Ok((es, st))
}

/// `p` is a parent of `c` in an index edge list of `(child, parent)` pairs.
pub open spec fn idx_edge(edges: Seq<(usize, usize)>, c: usize, p: usize) -> bool {
    exists|k: int| 0 <= k < edges.len() && #[trigger] edges[k] == (c, p)
}

/// Every listed position is below `n`.
pub open spec fn edges_within(edges: Seq<(usize, usize)>, n: int) -> bool {
    forall|k: int| 0 <= k < edges.len() ==> (#[trigger] edges[k]).0 < n && edges[k].1 < n
}

/// Parent and child lists: `parents[c]` holds exactly the parents of `c`,
/// `children[p]` exactly the children of `p` (repeated per edge row).
spec fn adjacency_ok(edges: Seq<(usize, usize)>, n: int, parents: Seq<Vec<usize>>, children: Seq<Vec<usize>>) -> bool {
    &&& parents.len() == n
    &&& children.len() == n
    &&& forall|c: int, q: int| 0 <= c < n && 0 <= q < parents[c].len() ==>
            (#[trigger] parents[c]@[q]) < n && idx_edge(edges, c as usize, parents[c]@[q])
    &&& forall|p: int, q: int| 0 <= p < n && 0 <= q < children[p].len() ==>
            (#[trigger] children[p]@[q]) < n && idx_edge(edges, children[p]@[q], p as usize)
    &&& forall|k: int| 0 <= k < edges.len() ==>
            (#[trigger] parents[edges[k].0 as int]@).contains(edges[k].1)
            && children[edges[k].1 as int]@.contains(edges[k].0)
}

#[verifier::spinoff_prover]
fn build_adjacency(n: usize, edges: &Vec<(usize, usize)>) -> (r: (Vec<Vec<usize>>, Vec<Vec<usize>>))
    requires
        edges_within(edges@, n as int),
    ensures
        adjacency_ok(edges@, n as int, r.0@, r.1@),
{
    let mut parents: Vec<Vec<usize>> = Vec::new();
    let mut children: Vec<Vec<usize>> = Vec::new();
    let mut i: usize = 0;
    while i < n
        invariant
            i <= n,
            parents.len() == i,
            children.len() == i,
            forall|j: int| 0 <= j < i ==> (#[trigger] parents@[j])@.len() == 0,
            forall|j: int| 0 <= j < i ==> (#[trigger] children@[j])@.len() == 0,
        decreases n - i,
    {
        parents.push(Vec::new());
        children.push(Vec::new());
        i = i + 1;
    }
    let mut k: usize = 0;
    while k < edges.len()
        invariant
            k <= edges.len(),
            edges_within(edges@, n as int),
            parents.len() == n,
            children.len() == n,
            forall|c: int, q: int| 0 <= c < n && 0 <= q < parents@[c].len() ==>
                (#[trigger] parents@[c]@[q]) < n && idx_edge(edges@, c as usize, parents@[c]@[q]),
            forall|p: int, q: int| 0 <= p < n && 0 <= q < children@[p].len() ==>
                (#[trigger] children@[p]@[q]) < n && idx_edge(edges@, children@[p]@[q], p as usize),
            forall|j: int| 0 <= j < k ==>
                (#[trigger] parents@[edges@[j].0 as int]@).contains(edges@[j].1)
                && children@[edges@[j].1 as int]@.contains(edges@[j].0),
        decreases edges.len() - k,
    {
        let (c, p) = edges[k];
        assert(edges@[k as int] == (c, p));
        let ghost par0 = parents@;
        let ghost chi0 = children@;
        parents[c].push(p);
        children[p].push(c);
        proof {
            assert(idx_edge(edges@, c, p));
            assert forall|x: int| 0 <= x < n && x != c implies #[trigger] parents@[x] == par0[x] by {}
            assert forall|x: int| 0 <= x < n && x != p implies #[trigger] children@[x] == chi0[x] by {}
            assert(parents@[c as int]@ == par0[c as int]@.push(p));
            assert(children@[p as int]@ == chi0[p as int]@.push(c));
            assert forall|cc: int, q: int| 0 <= cc < n && 0 <= q < parents@[cc].len() implies
                (#[trigger] parents@[cc]@[q]) < n && idx_edge(edges@, cc as usize, parents@[cc]@[q]) by {
                if cc == c && q == par0[cc].len() {
                } else {
                    assert(parents@[cc]@[q] == par0[cc]@[q]);
                }
            }
            assert forall|pp: int, q: int| 0 <= pp < n && 0 <= q < children@[pp].len() implies
                (#[trigger] children@[pp]@[q]) < n && idx_edge(edges@, children@[pp]@[q], pp as usize) by {
                if pp == p && q == chi0[pp].len() {
                } else {
                    assert(children@[pp]@[q] == chi0[pp]@[q]);
                }
            }
            assert forall|j: int| 0 <= j < k + 1 implies
                (#[trigger] parents@[edges@[j].0 as int]@).contains(edges@[j].1)
                && children@[edges@[j].1 as int]@.contains(edges@[j].0) by {
                let cj = edges@[j].0 as int;
                let pj = edges@[j].1 as int;
                if j == k {
                    assert(parents@[cj]@[par0[cj].len() as int] == p);
                    assert(children@[pj]@[chi0[pj].len() as int] == c);
                } else {
                    assert(par0[cj]@.contains(edges@[j].1));
                    let q = choose|q: int| 0 <= q < par0[cj]@.len() && #[trigger] par0[cj]@[q] == edges@[j].1;
                    assert(parents@[cj]@[q] == edges@[j].1);
                    assert(chi0[pj]@.contains(edges@[j].0));
                    let q2 = choose|q2: int| 0 <= q2 < chi0[pj]@.len() && #[trigger] chi0[pj]@[q2] == edges@[j].0;
                    assert(children@[pj]@[q2] == edges@[j].0);
                }
            }
        }
        k = k + 1;
    }
    proof {
        assert forall|j: int| 0 <= j < edges@.len() implies
            (#[trigger] parents@[edges@[j].0 as int]@).contains(edges@[j].1)
            && children@[edges@[j].1 as int]@.contains(edges@[j].0) by {
            assert(j < k);
        }
    }
    (parents, children)
}

/// Every parent of `queue[t]` appears in the queue before position `t`.
pub open spec fn parents_first(edges: Seq<(usize, usize)>, order: Seq<usize>) -> bool {
    forall|t: int, p: usize| 0 <= t < order.len() && #[trigger] idx_edge(edges, order[t], p) ==>
        exists|u: int| 0 <= u < t && order[u] == p
}

/// Position `x` has no parent.
pub open spec fn root_node(edges: Seq<(usize, usize)>, x: usize) -> bool {
    !exists|p: usize| #[trigger] idx_edge(edges, x, p)
}

/// `a` occurs in `order` no later than `b`.
pub open spec fn pos_le(order: Seq<usize>, a: usize, b: usize) -> bool {
    exists|i: int, j: int| 0 <= i <= j < order.len() && #[trigger] order[i] == a && #[trigger] order[j] == b
}

/// The order of a first-in-first-out Kahn run: the positions without a
/// parent come first, in increasing position; every other position comes
/// when its last parent leaves the queue, so a position whose parents all
/// come no later than some parent of another comes first.
pub open spec fn fifo_order(edges: Seq<(usize, usize)>, order: Seq<usize>) -> bool {
    &&& forall|t1: int, t2: int| #![trigger order[t1], order[t2]]
        0 <= t1 < t2 < order.len() && root_node(edges, order[t2]) ==> root_node(edges, order[t1]) && order[t1] < order[t2]
    &&& forall|t1: int, t2: int, p1: usize| #![trigger idx_edge(edges, order[t1], p1), order[t2]]
        0 <= t1 < t2 < order.len() && idx_edge(edges, order[t1], p1) && !root_node(edges, order[t2])
        ==> exists|p2: usize| #[trigger] idx_edge(edges, order[t2], p2) && pos_le(order, p1, p2)
}

/// Pushing a child of the node at `head`, when every parent of a queued
/// position is at or before `head`, keeps a first-in-first-out order.
proof fn lemma_fifo_push(edges: Seq<(usize, usize)>, q0: Seq<usize>, c: usize, head: int)
    requires
        fifo_order(edges, q0),
        0 <= head < q0.len(),
        idx_edge(edges, c, q0[head]),
        forall|t: int, p: usize| 0 <= t < q0.len() && #[trigger] idx_edge(edges, q0[t], p) ==> q0.take(head + 1).contains(p),
    ensures
        fifo_order(edges, q0.push(c)),
{
    let q1 = q0.push(c);
    assert forall|a: usize, b: usize| pos_le(q0, a, b) implies #[trigger] pos_le(q1, a, b) by {
        let (i, j) = choose|i: int, j: int| 0 <= i <= j < q0.len() && #[trigger] q0[i] == a && #[trigger] q0[j] == b;
        assert(q1[i] == a && q1[j] == b);
    }
    assert forall|t1: int, t2: int| #![trigger q1[t1], q1[t2]]
        0 <= t1 < t2 < q1.len() && root_node(edges, q1[t2]) implies root_node(edges, q1[t1]) && q1[t1] < q1[t2] by {
        if t2 == q0.len() {
            assert(idx_edge(edges, q1[t2], q0[head]));
        } else {
            assert(q1[t1] == q0[t1] && q1[t2] == q0[t2]);
        }
    }
    assert forall|t1: int, t2: int, p1: usize| #![trigger idx_edge(edges, q1[t1], p1), q1[t2]]
        0 <= t1 < t2 < q1.len() && idx_edge(edges, q1[t1], p1) && !root_node(edges, q1[t2])
        implies exists|p2: usize| #[trigger] idx_edge(edges, q1[t2], p2) && pos_le(q1, p1, p2) by {
        assert(q1[t1] == q0[t1]);
        if t2 == q0.len() {
            assert(q0.take(head + 1).contains(p1));
            let i = choose|i: int| 0 <= i < head + 1 && #[trigger] q0.take(head + 1)[i] == p1;
            assert(q1[i] == p1 && q1[head] == q0[head]);
            assert(pos_le(q1, p1, q0[head]));
            assert(idx_edge(edges, q1[t2], q0[head]));
        } else {
            assert(q1[t2] == q0[t2]);
            let p2 = choose|p2: usize| #[trigger] idx_edge(edges, q0[t2], p2) && pos_le(q0, p1, p2);
            assert(pos_le(q1, p1, p2));
        }
    }
}

/// Pushing a position without a parent after smaller ones keeps the
/// order of positions without parents.
proof fn lemma_fifo_roots_push(edges: Seq<(usize, usize)>, q0: Seq<usize>, i: usize)
    requires
        fifo_order(edges, q0),
        forall|t: int| 0 <= t < q0.len() ==> root_node(edges, #[trigger] q0[t]),
        forall|t: int| 0 <= t < q0.len() ==> (#[trigger] q0[t]) < i,
        root_node(edges, i),
    ensures
        fifo_order(edges, q0.push(i)),
        forall|t: int| 0 <= t < q0.len() + 1 ==> root_node(edges, #[trigger] q0.push(i)[t]),
{
    let q1 = q0.push(i);
    assert forall|t: int| 0 <= t < q1.len() implies root_node(edges, #[trigger] q1[t]) by {
        if t < q0.len() {
            assert(q1[t] == q0[t]);
        }
    }
    assert forall|t1: int, t2: int| #![trigger q1[t1], q1[t2]]
        0 <= t1 < t2 < q1.len() && root_node(edges, q1[t2]) implies root_node(edges, q1[t1]) && q1[t1] < q1[t2] by {
        assert(q1[t1] == q0[t1]);
        if t2 < q0.len() {
            assert(q1[t2] == q0[t2]);
        }
    }
    assert forall|t1: int, t2: int, p1: usize| #![trigger idx_edge(edges, q1[t1], p1), q1[t2]]
        0 <= t1 < t2 < q1.len() && idx_edge(edges, q1[t1], p1) && !root_node(edges, q1[t2])
        implies exists|p2: usize| #[trigger] idx_edge(edges, q1[t2], p2) && pos_le(q1, p1, p2) by {
        assert(root_node(edges, q1[t1]));
    }
}

/// Distinct positions below `n` number at most `n`.
proof fn lemma_distinct_bounded(s: Seq<usize>, n: usize)
    requires
        s.no_duplicates(),
        forall|t: int| 0 <= t < s.len() ==> (#[trigger] s[t]) < n,
    ensures
        s.len() <= n,
{
    let si = s.map_values(|x: usize| x as int);
    assert(si.no_duplicates()) by {
        assert forall|a: int, b: int| 0 <= a < si.len() && 0 <= b < si.len() && a != b implies si[a] != si[b] by {
            assert(s[a] != s[b]);
        }
    }
    si.unique_seq_to_set();
    lemma_int_range(0, n as int);
    assert(si.to_set().subset_of(set_int_range(0, n as int))) by {
        assert forall|x: int| si.to_set().contains(x) implies set_int_range(0, n as int).contains(x) by {
            let t = choose|t: int| 0 <= t < si.len() && #[trigger] si[t] == x;
            assert(s[t] < n);
        }
    }
    lemma_len_subset(si.to_set(), set_int_range(0, n as int));
}

/// `n` distinct positions below `n` include every position.
proof fn lemma_full_contains(s: Seq<usize>, n: usize, c: usize)
    requires
        s.no_duplicates(),
        s.len() == n,
        forall|t: int| 0 <= t < s.len() ==> (#[trigger] s[t]) < n,
        c < n,
    ensures
        s.contains(c),
{
    if !s.contains(c) {
        let si = s.map_values(|x: usize| x as int);
        assert(si.no_duplicates()) by {
            assert forall|a: int, b: int| 0 <= a < si.len() && 0 <= b < si.len() && a != b implies si[a] != si[b] by {
                assert(s[a] != s[b]);
            }
        }
        si.unique_seq_to_set();
        lemma_int_range(0, n as int);
        let r = set_int_range(0, n as int).remove(c as int);
        assert(si.to_set().subset_of(r)) by {
            assert forall|x: int| si.to_set().contains(x) implies r.contains(x) by {
                let t = choose|t: int| 0 <= t < si.len() && #[trigger] si[t] == x;
                assert(s[t] < n);
                assert(s[t] != c);
            }
        }
        lemma_len_subset(si.to_set(), r);
    }
}

/// Topological order of positions `0..n` (Kahn's algorithm with a FIFO
/// queue; nodes without parents start the queue in position order).
/// Every emitted node comes after all its parents; a node is left out
/// only when one of its parents is left out (it sits on or behind a cycle);
/// and the order is that of the queue (see `fifo_order`): parentless nodes
/// first in position order, every other node when its last parent leaves.
#[verifier::spinoff_prover]
#[verifier::rlimit(50)]
pub fn kahn_fifo(n: usize, edges: &Vec<(usize, usize)>) -> (order: Vec<usize>)
    requires
        edges_within(edges@, n as int),
    ensures
        order@.no_duplicates(),
        forall|t: int| 0 <= t < order.len() ==> (#[trigger] order@[t]) < n,
        parents_first(edges@, order@),
        forall|i: usize| i < n && !(#[trigger] order@.contains(i)) ==>
            exists|p: usize| #[trigger] idx_edge(edges@, i, p) && !order@.contains(p),
        fifo_order(edges@, order@),
{
    let (parents, children) = build_adjacency(n, edges);
    let mut queued: Vec<bool> = Vec::new();
    let mut queue: Vec<usize> = Vec::new();
    let mut i: usize = 0;
    while i < n
        invariant
            i <= n,
            adjacency_ok(edges@, n as int, parents@, children@),
            queued.len() == i,
            queue@.no_duplicates(),
            forall|t: int| 0 <= t < queue.len() ==> (#[trigger] queue@[t]) < i && parents@[queue@[t] as int]@.len() == 0,
            forall|j: int| 0 <= j < i ==> (#[trigger] queued@[j] <==> queue@.contains(j as usize)),
            forall|j: int| 0 <= j < i && parents@[j]@.len() == 0 ==> #[trigger] queued@[j],
            fifo_order(edges@, queue@),
            forall|t: int| 0 <= t < queue.len() ==> root_node(edges@, #[trigger] queue@[t]),
        decreases n - i,
    {
        let empty = parents[i].len() == 0;
        let ghost q_old = queue@;
        let ghost queued_old = queued@;
        queued.push(empty);
        if empty {
            let ghost q0 = queue@;
            proof {
                assert(root_node(edges@, i)) by {
                    if exists|p: usize| #[trigger] idx_edge(edges@, i, p) {
                        let p = choose|p: usize| #[trigger] idx_edge(edges@, i, p);
                        let k = choose|k: int| 0 <= k < edges@.len() && #[trigger] edges@[k] == (i, p);
                        assert(parents@[edges@[k].0 as int]@.contains(edges@[k].1));
                    }
                }
                lemma_fifo_roots_push(edges@, q0, i);
            }
            queue.push(i);
            proof {
                assert forall|a: int, b: int| 0 <= a < b < queue.len() implies queue@[a] != queue@[b] by {
                    if b == queue.len() - 1 {
                        assert(q0[a] < i);
                    }
                }
            }
        }
        proof {
            assert forall|j: int| 0 <= j < i + 1 implies (#[trigger] queued@[j] <==> queue@.contains(j as usize)) by {
                if j < i {
                    assert(queued@[j] == queued_old[j]);
                    if queue@.contains(j as usize) {
                        let t = choose|t: int| 0 <= t < queue.len() && #[trigger] queue@[t] == j as usize;
                        if t < q_old.len() {
                            assert(q_old[t] == j as usize);
                        } else {
                            assert(queue@[t] == i);
                        }
                    }
                    if q_old.contains(j as usize) {
                        let t = choose|t: int| 0 <= t < q_old.len() && #[trigger] q_old[t] == j as usize;
                        assert(queue@[t] == j as usize);
                    }
                } else if empty {
                    assert(queue@[queue.len() - 1] == i);
                } else {
                    if queue@.contains(j as usize) {
                        let t = choose|t: int| 0 <= t < queue.len() && #[trigger] queue@[t] == j as usize;
                        assert(queue@[t] < i);
                    }
                }
            }
        }
        i = i + 1;
    }
    proof {
        assert forall|t: int, p: usize| 0 <= t < queue.len() && #[trigger] idx_edge(edges@, queue@[t], p) implies
            exists|u: int| 0 <= u < t && queue@[u] == p by {
            let k = choose|k: int| 0 <= k < edges@.len() && #[trigger] edges@[k] == (queue@[t], p);
            assert(parents@[edges@[k].0 as int]@.contains(edges@[k].1));
        }
    }
    let mut done: Vec<bool> = Vec::new();
    while done.len() < n
        invariant
            done.len() <= n,
            forall|j: int| 0 <= j < done.len() ==> !(#[trigger] done@[j]),
        decreases n - done.len(),
    {
        done.push(false);
    }
    proof {
        lemma_distinct_bounded(queue@, n);
        assert forall|c: int| 0 <= c < n && (forall|q: int| 0 <= q < parents@[c].len() ==> #[trigger] done@[parents@[c]@[q] as int])
            implies #[trigger] queued@[c] by {
            if parents@[c]@.len() > 0 {
                assert(parents@[c]@[0] < n);
                assert(done@[parents@[c]@[0] as int]);
            }
        }
    }
    let mut head: usize = 0;
    proof {
        assert forall|t: int, p: usize| 0 <= t < queue.len() && #[trigger] idx_edge(edges@, queue@[t], p)
            implies queue@.take(0).contains(p) by {
            assert(root_node(edges@, queue@[t]));
        }
    }
    while head < queue.len()
        invariant
            adjacency_ok(edges@, n as int, parents@, children@),
            queued.len() == n,
            done.len() == n,
            head <= queue.len(),
            queue.len() <= n,
            queue@.no_duplicates(),
            forall|t: int| 0 <= t < queue.len() ==> (#[trigger] queue@[t]) < n,
            forall|j: int| 0 <= j < n ==> (#[trigger] queued@[j] <==> queue@.contains(j as usize)),
            forall|j: int| 0 <= j < n ==> (#[trigger] done@[j] <==> queue@.take(head as int).contains(j as usize)),
            parents_first(edges@, queue@),
            forall|c: int| 0 <= c < n && (forall|q: int| 0 <= q < parents@[c].len() ==> #[trigger] done@[parents@[c]@[q] as int])
                ==> #[trigger] queued@[c],
            fifo_order(edges@, queue@),
            forall|t: int, p: usize| 0 <= t < queue.len() && #[trigger] idx_edge(edges@, queue@[t], p)
                ==> queue@.take(head as int).contains(p),
        decreases n - head,
    {
        let node = queue[head];
        let ghost done0 = done@;
        done.set(node, true);
        proof {
            assert(queue@.take(head + 1) =~= queue@.take(head as int).push(node));
            assert forall|j: int| 0 <= j < n implies (#[trigger] done@[j] <==> queue@.take(head + 1).contains(j as usize)) by {
                if j == node {
                    assert(queue@.take(head + 1)[head as int] == node);
                } else {
                    if queue@.take(head + 1).contains(j as usize) {
                        let t = choose|t: int| 0 <= t < head + 1 && #[trigger] queue@.take(head + 1)[t] == j as usize;
                        assert(queue@.take(head as int)[t] == j as usize);
                    }
                    if queue@.take(head as int).contains(j as usize) {
                        let t = choose|t: int| 0 <= t < head && #[trigger] queue@.take(head as int)[t] == j as usize;
                        assert(queue@.take(head + 1)[t] == j as usize);
                    }
                }
            }
        }
        let ghost done1 = done@;
        assert(done1 == done0.update(node as int, true));
        proof {
            assert forall|t: int, p: usize| 0 <= t < queue.len() && #[trigger] idx_edge(edges@, queue@[t], p)
                implies queue@.take(head + 1).contains(p) by {
                assert(queue@.take(head as int).contains(p));
                let u = choose|u: int| 0 <= u < head && #[trigger] queue@.take(head as int)[u] == p;
                assert(queue@.take(head + 1)[u] == p);
            }
        }
        let row = &children[node];
        let mut q: usize = 0;
        while q < row.len()
            invariant
                adjacency_ok(edges@, n as int, parents@, children@),
                node < n,
                row == children@[node as int],
                q <= row.len(),
                queued.len() == n,
                done.len() == n,
                done@ == done1,
                head < queue.len(),
                queue@[head as int] == node,
                queue.len() <= n,
                queue@.no_duplicates(),
                forall|t: int| 0 <= t < queue.len() ==> (#[trigger] queue@[t]) < n,
                forall|j: int| 0 <= j < n ==> (#[trigger] queued@[j] <==> queue@.contains(j as usize)),
                forall|j: int| 0 <= j < n ==> (#[trigger] done@[j] <==> queue@.take(head + 1).contains(j as usize)),
                parents_first(edges@, queue@),
                forall|c: int| 0 <= c < n && (forall|qq: int| 0 <= qq < parents@[c].len() ==> #[trigger] done0[parents@[c]@[qq] as int])
                    ==> #[trigger] queued@[c],
                forall|qq: int| 0 <= qq < q ==> (forall|x: int| 0 <= x < parents@[row@[qq] as int].len() ==>
                    #[trigger] done@[parents@[row@[qq] as int]@[x] as int]) ==> queued@[#[trigger] row@[qq] as int],
                fifo_order(edges@, queue@),
                forall|t: int, p: usize| 0 <= t < queue.len() && #[trigger] idx_edge(edges@, queue@[t], p)
                    ==> queue@.take(head + 1).contains(p),
            decreases row.len() - q,
        {
            let c = row[q];
            proof {
                assert(children@[node as int]@[q as int] == c);
            }
            if !queued[c] && all_flagged(&parents[c], &done) {
                let ghost q0 = queue@;
                proof {
                    lemma_distinct_bounded(queue@, n);
                    if queue.len() == n {
                        // every node is already queued, so `c` is too
                        lemma_full_contains(queue@, n, c);
                    }
                    assert(children@[node as int]@.contains(c));
                    assert(idx_edge(edges@, c, node));
                    lemma_fifo_push(edges@, q0, c, head as int);
                }
                queued.set(c, true);
                queue.push(c);
                proof {
                    assert(queue@ == q0.push(c));
                    assert(queue@.take(head + 1) =~= q0.take(head + 1));
                    assert forall|t: int, p: usize| 0 <= t < queue.len() && #[trigger] idx_edge(edges@, queue@[t], p)
                        implies queue@.take(head + 1).contains(p) by {
                        if t == queue.len() - 1 {
                            let k = choose|k: int| 0 <= k < edges@.len() && #[trigger] edges@[k] == (c, p);
                            assert(edges@[k].0 == c && edges@[k].1 == p);
                            assert(parents@[edges@[k].0 as int]@.contains(edges@[k].1));
                            let x = choose|x: int| 0 <= x < parents@[c as int]@.len() && #[trigger] parents@[c as int]@[x] == p;
                            assert(done@[parents@[c as int]@[x] as int]);
                        } else {
                            assert(q0[t] == queue@[t]);
                        }
                    }
                }
                proof {
                    assert(!q0.contains(c));
                    assert(queue@.take(head + 1) =~= q0.take(head + 1));
                    assert forall|a: int, b: int| 0 <= a < b < queue.len() implies queue@[a] != queue@[b] by {
                        if b == queue.len() - 1 {
                            assert(q0.contains(q0[a]));
                        }
                    }
                    assert forall|j: int| 0 <= j < n implies (#[trigger] queued@[j] <==> queue@.contains(j as usize)) by {
                        if j == c {
                            assert(queue@[queue.len() - 1] == c);
                        } else {
                            if queue@.contains(j as usize) {
                                let t = choose|t: int| 0 <= t < queue.len() && #[trigger] queue@[t] == j as usize;
                                assert(q0[t] == j as usize);
                            }
                            if q0.contains(j as usize) {
                                let t = choose|t: int| 0 <= t < q0.len() && #[trigger] q0[t] == j as usize;
                                assert(queue@[t] == j as usize);
                            }
                        }
                    }
                    assert forall|t: int, p: usize| 0 <= t < queue.len() && #[trigger] idx_edge(edges@, queue@[t], p) implies
                        exists|u: int| 0 <= u < t && queue@[u] == p by {
                        if t == queue.len() - 1 {
                            let k = choose|k: int| 0 <= k < edges@.len() && #[trigger] edges@[k] == (c, p);
                            assert(edges@[k].0 == c && edges@[k].1 == p);
                            assert(parents@[edges@[k].0 as int]@.contains(edges@[k].1));
                            assert(parents@[c as int]@.contains(p));
                            let x = choose|x: int| 0 <= x < parents@[c as int]@.len() && #[trigger] parents@[c as int]@[x] == p;
                            assert(done@[parents@[c as int]@[x] as int]);
                            assert(queue@.take(head + 1).contains(p));
                            let u = choose|u: int| 0 <= u < head + 1 && #[trigger] queue@.take(head + 1)[u] == p;
                            assert(q0[u] == p);
                            assert(queue@[u] == p);
                        } else {
                            assert(q0[t] == queue@[t]);
                            let u = choose|u: int| 0 <= u < t && #[trigger] q0[u] == p;
                            assert(queue@[u] == p);
                        }
                    }
                }
            }
            proof {
                assert forall|qq: int| 0 <= qq < q + 1 implies (forall|x: int| 0 <= x < parents@[row@[qq] as int].len() ==>
                    #[trigger] done@[parents@[row@[qq] as int]@[x] as int]) ==> queued@[#[trigger] row@[qq] as int] by {
                }
            }
            q = q + 1;
        }
        proof {
            assert forall|c: int| 0 <= c < n && (forall|qq: int| 0 <= qq < parents@[c].len() ==> #[trigger] done@[parents@[c]@[qq] as int])
                implies #[trigger] queued@[c] by {
                if forall|qq: int| 0 <= qq < parents@[c].len() ==> #[trigger] done0[parents@[c]@[qq] as int] {
                } else {
                    let qq = choose|qq: int| 0 <= qq < parents@[c].len() && !#[trigger] done0[parents@[c]@[qq] as int];
                    let pnode = parents@[c]@[qq];
                    assert(done@ == done0.update(node as int, true));
                    assert(done@[pnode as int]);
                    assert(pnode == node);
                    assert(idx_edge(edges@, c as usize, node));
                    let k = choose|k: int| 0 <= k < edges@.len() && #[trigger] edges@[k] == (c as usize, node);
                    assert(edges@[k].0 == c as usize && edges@[k].1 == node);
                    assert(children@[edges@[k].1 as int]@.contains(edges@[k].0));
                    let x = choose|x: int| 0 <= x < row@.len() && #[trigger] row@[x] == c as usize;
                    assert(row@[x] == c);
                }
            }
        }
        head = head + 1;
    }
    proof {
        assert(queue@.take(queue.len() as int) =~= queue@);
        assert forall|i: usize| i < n && !(#[trigger] queue@.contains(i)) implies
            exists|p: usize| #[trigger] idx_edge(edges@, i, p) && !queue@.contains(p) by {
            assert(!queued@[i as int]);
            let qq = choose|qq: int| 0 <= qq < parents@[i as int].len() && !#[trigger] done@[parents@[i as int]@[qq] as int];
            let p = parents@[i as int]@[qq];
            assert(idx_edge(edges@, i, p));
            assert(!queue@.take(queue.len() as int).contains(p));
        }
    }
    queue
}

} // verus!
