//! Estimates from recorded actuals: per-task moving averages grouped by
//! title prefix, and whole-tree rollups with a critical path.
use vstd::prelude::*;
use crate::model::Task;
use crate::dag::{topo_order, kahn_complete, edge_views, on_cycle, lemma_kahn_total_iff_acyclic, lemma_kahn_no_dups};
use crate::text::{first_word, first_word_of, lowercase, to_lower, str_equal, views, distinct, push_str, i64_decimal, u64_decimal,
    decimal, signed_decimal, join_with, join_strings};

verus! {

/// Flat fallback duration when no same-prefix history exists.
pub const DEFAULT_DURATION_MS: i64 = 120000;
/// Flat fallback for prompt tokens with no history.
pub const DEFAULT_PROMPT_TOKENS: i64 = 2000;
/// Flat fallback for completion tokens with no history.
pub const DEFAULT_COMPLETION_TOKENS: i64 = 1000;

/// One recorded actual for a task.
#[derive(Debug, Clone, PartialEq, Eq)]
pub struct MetricActual {
    pub task_id: String,
    pub duration_ms: i64,
    pub prompt_tokens: i64,
    pub completion_tokens: i64,
    pub outcome: String,
}

/// A recorded actual together with the title of its task.
#[derive(Debug, Clone)]
pub struct HistoryRow {
    pub title: String,
    pub metric: MetricActual,
}

/// Predicted cost of one task plus its actual when recorded.
#[derive(Debug, Clone)]
pub struct TaskEstimate {
    pub task_id: String,
    pub title: String,
    pub duration_ms: i64,
    pub prompt_tokens: i64,
    pub completion_tokens: i64,
    /// History rows averaged; zero when the flat default applied.
    pub samples: usize,
    pub from_history: bool,
    pub actual: Option<MetricActual>,
}

/// Whole-tree rollup: per-task estimates plus dependency-aware totals.
#[derive(Debug, Clone)]
pub struct Rollup {
    pub per_task: Vec<TaskEstimate>,
    /// Flat sum of every per-task estimate.
    pub total_sum_ms: i64,
    /// Longest dependency path through estimated durations.
    pub critical_path_ms: i64,
    /// Task ids on the critical path, parents first.
    pub critical_path: Vec<String>,
    /// Sum of (actual - estimate) over tasks that have actuals.
    pub drift_ms: i64,
    pub actuals_count: usize,
}

/// Grouping key for history lookup: first word, lowercased.
pub open spec fn prefix_key(title: Seq<char>) -> Seq<char> {
    lowercase(first_word(title))
}

/// Grouping key for history lookup: first word, lowercased.
pub fn title_prefix(title: &str) -> (r: String)
    ensures
        r@ == prefix_key(title@),
{
    let w = first_word_of(title);
    to_lower(w.as_str())
}

/// Rust's integer division, which truncates toward zero.
pub open spec fn trunc_div(a: int, b: int) -> int {
    if a >= 0 {
        a / b
    } else {
        -((-a) / b)
    }
}

/// The history rows that count for a task: same prefix, other task.
pub open spec fn same_prefix_rows(history: Seq<HistoryRow>, prefix: Seq<char>, own: Seq<char>) -> Seq<MetricActual>
    decreases history.len(),
{
    if history.len() == 0 {
        Seq::empty()
    } else {
        let rest = same_prefix_rows(history.drop_last(), prefix, own);
        let h = history.last();
        if prefix_key(h.title@) == prefix && h.metric.task_id@ != own {
            rest.push(h.metric)
        } else {
            rest
        }
    }
}

pub open spec fn sum_duration(rows: Seq<MetricActual>) -> int
    decreases rows.len(),
{
    if rows.len() == 0 { 0 } else { sum_duration(rows.drop_last()) + rows.last().duration_ms }
}

pub open spec fn sum_prompt(rows: Seq<MetricActual>) -> int
    decreases rows.len(),
{
    if rows.len() == 0 { 0 } else { sum_prompt(rows.drop_last()) + rows.last().prompt_tokens }
}

pub open spec fn sum_completion(rows: Seq<MetricActual>) -> int
    decreases rows.len(),
{
    if rows.len() == 0 { 0 } else { sum_completion(rows.drop_last()) + rows.last().completion_tokens }
}

pub open spec fn abs(x: int) -> int {
    if x < 0 { -x } else { x }
}

/// Sum of the magnitudes of every value recorded in the history.
pub open spec fn history_magnitude(history: Seq<HistoryRow>) -> int
    decreases history.len(),
{
    if history.len() == 0 {
        0
    } else {
        let m = history.last().metric;
        history_magnitude(history.drop_last()) + abs(m.duration_ms as int) + abs(m.prompt_tokens as int)
            + abs(m.completion_tokens as int)
    }
}

proof fn lemma_magnitude_monotone(history: Seq<HistoryRow>, k: int)
    requires
        0 <= k <= history.len(),
    ensures
        history_magnitude(history.take(k)) <= history_magnitude(history),
        history_magnitude(history.take(k)) >= 0,
    decreases history.len() - k,
{
    if k < history.len() {
        lemma_magnitude_monotone(history, k + 1);
        assert(history.take(k + 1).drop_last() =~= history.take(k));
    } else {
        assert(history.take(k) =~= history);
    }
    lemma_magnitude_nonneg(history.take(k));
}

proof fn lemma_magnitude_nonneg(history: Seq<HistoryRow>)
    ensures
        history_magnitude(history) >= 0,
    decreases history.len(),
{
    if history.len() > 0 {
        lemma_magnitude_nonneg(history.drop_last());
    }
}

/// Estimate one task from same-prefix history (its own row excluded):
/// the truncated averages of the matching rows, or the flat defaults when
/// there is no matching row or the title has no first word.
pub fn estimate_task(task_id: &str, title: &str, history: &Vec<HistoryRow>, actual: Option<MetricActual>) -> (e: TaskEstimate)
    requires
        history_magnitude(history@) <= i64::MAX,
        history@.len() <= i64::MAX,
    ensures
        e.task_id@ == task_id@,
        e.title@ == title@,
        e.actual == actual,
        ({
            let rows = same_prefix_rows(history@, prefix_key(title@), task_id@);
            if rows.len() == 0 || prefix_key(title@).len() == 0 {
                &&& e.duration_ms == DEFAULT_DURATION_MS
                &&& e.prompt_tokens == DEFAULT_PROMPT_TOKENS
                &&& e.completion_tokens == DEFAULT_COMPLETION_TOKENS
                &&& e.samples == 0
                &&& !e.from_history
            } else {
                &&& e.duration_ms == trunc_div(sum_duration(rows), rows.len() as int)
                &&& e.prompt_tokens == trunc_div(sum_prompt(rows), rows.len() as int)
                &&& e.completion_tokens == trunc_div(sum_completion(rows), rows.len() as int)
                &&& e.samples == rows.len()
                &&& e.from_history
            }
        }),
{
    let prefix = title_prefix(title);
    let ghost key = prefix_key(title@);
    let mut sum_d: i64 = 0;
    let mut sum_p: i64 = 0;
    let mut sum_c: i64 = 0;
    let mut n: usize = 0;
    let mut k: usize = 0;
    proof {
        assert(history@.take(0) =~= Seq::<HistoryRow>::empty());
    }
    while k < history.len()
        invariant
            k <= history.len(),
            prefix@ == key,
            history_magnitude(history@) <= i64::MAX,
            ({
                let rows = same_prefix_rows(history@.take(k as int), key, task_id@);
                &&& sum_d == sum_duration(rows)
                &&& sum_p == sum_prompt(rows)
                &&& sum_c == sum_completion(rows)
                &&& n == rows.len()
            }),
            abs(sum_d as int) + abs(sum_p as int) + abs(sum_c as int) <= history_magnitude(history@.take(k as int)),
            n <= k,
            history@.len() <= i64::MAX,
        decreases history.len() - k,
    {
        let h = &history[k];
        let key_h = title_prefix(h.title.as_str());
        let matches = str_equal(key_h.as_str(), prefix.as_str()) && !str_equal(h.metric.task_id.as_str(), task_id);
        proof {
            let t1 = history@.take(k + 1);
            assert(t1.drop_last() =~= history@.take(k as int));
            assert(t1.last() == history@[k as int]);
            lemma_magnitude_monotone(history@, k + 1);
        }
        let ghost rows0 = same_prefix_rows(history@.take(k as int), key, task_id@);
        let ghost t1 = history@.take(k + 1);
        proof {
            assert(same_prefix_rows(t1, key, task_id@) == (if matches { rows0.push(h.metric) } else { rows0 }));
            let m = h.metric;
            assert(rows0.push(m).drop_last() =~= rows0);
            assert(history_magnitude(t1) == history_magnitude(history@.take(k as int)) + abs(m.duration_ms as int)
                + abs(m.prompt_tokens as int) + abs(m.completion_tokens as int));
        }
        if matches {
            sum_d = sum_d + h.metric.duration_ms;
            sum_p = sum_p + h.metric.prompt_tokens;
            sum_c = sum_c + h.metric.completion_tokens;
            n = n + 1;
        }
        k = k + 1;
    }
    proof {
        assert(history@.take(history.len() as int) =~= history@);
    }
    let (duration_ms, prompt_tokens, completion_tokens, samples, from_history) =
        if n == 0 || prefix.as_str().is_empty() {
            (DEFAULT_DURATION_MS, DEFAULT_PROMPT_TOKENS, DEFAULT_COMPLETION_TOKENS, 0, false)
        } else {
            let d = n as i64;
            (sum_d / d, sum_p / d, sum_c / d, n, true)
        };
    TaskEstimate {
        task_id: task_id.to_owned(),
        title: title.to_owned(),
        duration_ms,
        prompt_tokens,
        completion_tokens,
        samples,
        from_history,
        actual,
    }
}

/// Estimated duration of a task id: its (last) per-task estimate, else the default.
pub open spec fn own_ms(per_task: Seq<TaskEstimate>, id: Seq<char>) -> int
    decreases per_task.len(),
{
    if per_task.len() == 0 {
        DEFAULT_DURATION_MS as int
    } else if per_task.last().task_id@ == id {
        per_task.last().duration_ms as int
    } else {
        own_ms(per_task.drop_last(), id)
    }
}

/// A parent counts when no session is selected or it belongs to the session.
pub open spec fn counts_parent(session: Option<String>, p: Task) -> bool {
    match session {
        None => true,
        Some(s) => p.session_id@ == s@,
    }
}

/// `id` sits at a position before `i` in `ov`.
pub open spec fn earlier(ov: Seq<Seq<char>>, i: int, id: Seq<char>) -> bool {
    exists|j: int| 0 <= j < i && #[trigger] ov[j] == id
}

/// The position before `i` where `id` sits.
pub open spec fn earlier_pos(ov: Seq<Seq<char>>, i: int, id: Seq<char>) -> int {
    choose|j: int| 0 <= j < i && #[trigger] ov[j] == id
}

/// Longest estimated path ending at `ov[i]`: its own estimate plus the
/// best distance among its counted parents processed earlier (or zero).
pub open spec fn longest(pt: Seq<TaskEstimate>, ov: Seq<Seq<char>>, ps: Seq<Vec<Task>>, session: Option<String>, i: int) -> int
    decreases i, 1int, 0int,
{
    if 0 <= i < ov.len() && i < ps.len() {
        own_ms(pt, ov[i]) + best_parent(pt, ov, ps, session, i, ps[i].len() as int).0
    } else {
        0
    }
}

/// Best distance and its position among the first `k` parents of `ov[i]`:
/// a later parent replaces the best only with a strictly larger distance.
pub open spec fn best_parent(pt: Seq<TaskEstimate>, ov: Seq<Seq<char>>, ps: Seq<Vec<Task>>, session: Option<String>, i: int, k: int) -> (int, Option<int>)
    decreases i, 0int, k,
{
    if k <= 0 || i < 0 || i >= ps.len() || k > ps[i].len() {
        (0, None)
    } else {
        let (b, bp) = best_parent(pt, ov, ps, session, i, k - 1);
        let p = ps[i]@[k - 1];
        if counts_parent(session, p) && earlier(ov, i, p.id@) {
            let j = earlier_pos(ov, i, p.id@);
            let d = longest(pt, ov, ps, session, j);
            if d > b {
                (d, Some(j))
            } else {
                (b, bp)
            }
        } else {
            (b, bp)
        }
    }
}

/// The critical path ending at `ov[i]`, parents first.
pub open spec fn chain_back(pt: Seq<TaskEstimate>, ov: Seq<Seq<char>>, ps: Seq<Vec<Task>>, session: Option<String>, i: int) -> Seq<Seq<char>>
    decreases i,
{
    if 0 <= i < ov.len() {
        match best_parent(pt, ov, ps, session, i, ps[i].len() as int).1 {
            Some(j) => if 0 <= j < i { chain_back(pt, ov, ps, session, j).push(ov[i]) } else { seq![ov[i]] },
            None => seq![ov[i]],
        }
    } else {
        Seq::empty()
    }
}

/// Sum of the magnitudes of the own estimates of `ov[0..m]`.
pub open spec fn own_magnitude(pt: Seq<TaskEstimate>, ov: Seq<Seq<char>>, m: int) -> int
    decreases m,
{
    if m <= 0 {
        0
    } else {
        own_magnitude(pt, ov, m - 1) + abs(own_ms(pt, ov[m - 1]))
    }
}

/// An optional position as an integer.
pub open spec fn as_pos(o: Option<usize>) -> Option<int> {
    match o {
        Some(j) => Some(j as int),
        None => None,
    }
}

proof fn lemma_earlier_unique(ov: Seq<Seq<char>>, i: int, j: int)
    requires
        distinct(ov),
        0 <= j < i <= ov.len(),
    ensures
        earlier(ov, i, ov[j]),
        earlier_pos(ov, i, ov[j]) == j,
{
    assert(ov[j] == ov[j]);
    let q = earlier_pos(ov, i, ov[j]);
    assert(0 <= q < i && ov[q] == ov[j]);
}

proof fn lemma_own_magnitude_monotone(pt: Seq<TaskEstimate>, ov: Seq<Seq<char>>, a: int, b: int)
    requires
        0 <= a <= b,
    ensures
        own_magnitude(pt, ov, a) <= own_magnitude(pt, ov, b),
    decreases b - a,
{
    if a < b {
        lemma_own_magnitude_monotone(pt, ov, a, b - 1);
    }
}

/// Estimated duration of `id`: its last per-task estimate, else the default.
fn own_estimate(per_task: &Vec<TaskEstimate>, id: &str) -> (r: i64)
    ensures
        r == own_ms(per_task@, id@),
{
    let mut r: i64 = DEFAULT_DURATION_MS;
    let mut k: usize = 0;
    while k < per_task.len()
        invariant
            k <= per_task.len(),
            r == own_ms(per_task@.take(k as int), id@),
        decreases per_task.len() - k,
    {
        proof {
            let t = per_task@.take(k + 1);
            assert(t.drop_last() =~= per_task@.take(k as int));
            assert(t.last() == per_task@[k as int]);
        }
        if str_equal(per_task[k].task_id.as_str(), id) {
            r = per_task[k].duration_ms;
        }
        k = k + 1;
    }
    proof {
        assert(per_task@.take(per_task.len() as int) =~= per_task@);
    }
    r
}

/// Position of `id` among the first `i` entries of `order`.
fn position_before(order: &Vec<String>, i: usize, id: &str) -> (r: Option<usize>)
    requires
        i <= order.len(),
    ensures
        match r {
            Some(j) => j < i && order@[j as int]@ == id@,
            None => !earlier(views(order@), i as int, id@),
        },
{
    let mut j: usize = 0;
    while j < i
        invariant
            j <= i <= order.len(),
            forall|q: int| 0 <= q < j ==> order@[q]@ != id@,
        decreases i - j,
    {
        if str_equal(order[j].as_str(), id) {
            return Some(j);
        }
        j = j + 1;
    }
    proof {
        let ov = views(order@);
        assert forall|q: int| 0 <= q < i implies #[trigger] ov[q] != id@ by {
            assert(ov[q] == order@[q]@);
        }
    }
    None
}

/// Whether a parent counts for the selected session.
fn counts(session: &Option<String>, p: &Task) -> (r: bool)
    ensures
        r == counts_parent(*session, *p),
{
    match session {
        None => true,
        Some(s) => str_equal(p.session_id.as_str(), s.as_str()),
    }
}

/// The best counted parent of `order[i]`, given the distances of the
/// positions before `i`.
fn best_of_parents(
    per_task: &Vec<TaskEstimate>,
    order: &Vec<String>,
    parents: &Vec<Vec<Task>>,
    session: &Option<String>,
    i: usize,
    dist: &Vec<i64>,
) -> (r: (i64, Option<usize>))
    requires
        i < order.len(),
        parents.len() == order.len(),
        distinct(views(order@)),
        dist.len() == i,
        forall|j: int| 0 <= j < i ==> #[trigger] dist@[j] == longest(per_task@, views(order@), parents@, *session, j),
    ensures
        (r.0 as int, as_pos(r.1)) == best_parent(per_task@, views(order@), parents@, *session, i as int, parents@[i as int].len() as int),
        r.1 matches None ==> r.0 == 0,
        r.1 matches Some(q) ==> q < i && r.0 == dist@[q as int],
{
    let ghost ov = views(order@);
    let ps_i = &parents[i];
    let mut best: i64 = 0;
    let mut bp: Option<usize> = None;
    let mut k: usize = 0;
    while k < ps_i.len()
        invariant
            i < order.len(),
            parents.len() == order.len(),
            ov == views(order@),
            distinct(ov),
            *ps_i == parents@[i as int],
            k <= ps_i.len(),
            dist.len() == i,
            forall|j: int| 0 <= j < i ==> #[trigger] dist@[j] == longest(per_task@, ov, parents@, *session, j),
            (best as int, as_pos(bp)) == best_parent(per_task@, ov, parents@, *session, i as int, k as int),
            bp matches None ==> best == 0,
            bp matches Some(q) ==> q < i && best == dist@[q as int],
        decreases ps_i.len() - k,
    {
        let p = &ps_i[k];
        let c = counts(session, p);
        let pos = if c { position_before(order, i, p.id.as_str()) } else { None };
        proof {
            assert(p == parents@[i as int]@[k as int]);
            if let Some(j) = pos {
                lemma_earlier_unique(ov, i as int, j as int);
                assert(ov[j as int] == order@[j as int]@);
            }
        }
        if let Some(j) = pos {
            let d = dist[j];
            if d > best {
                best = d;
                bp = Some(j);
            }
        }
        k = k + 1;
    }
    (best, bp)
}

/// Longest estimated path ending at each position of `order`, and the
/// position of the parent it came through.
fn longest_table(
    per_task: &Vec<TaskEstimate>,
    order: &Vec<String>,
    parents: &Vec<Vec<Task>>,
    session: &Option<String>,
) -> (res: (Vec<i64>, Vec<Option<usize>>))
    requires
        parents.len() == order.len(),
        distinct(views(order@)),
        own_magnitude(per_task@, views(order@), order.len() as int) <= i64::MAX,
    ensures
        res.0.len() == order.len(),
        res.1.len() == order.len(),
        forall|j: int| 0 <= j < order.len() ==> #[trigger] res.0@[j] == longest(per_task@, views(order@), parents@, *session, j),
        forall|j: int| 0 <= j < order.len() ==> as_pos(#[trigger] res.1@[j]) == best_parent(per_task@, views(order@), parents@, *session, j, parents@[j].len() as int).1,
        forall|j: int| 0 <= j < order.len() ==> (#[trigger] res.1@[j] matches Some(q) ==> q < j),
{
    let ghost pt = per_task@;
    let ghost ov = views(order@);
    let ghost ps = parents@;
    let mut dist: Vec<i64> = Vec::new();
    let mut prev: Vec<Option<usize>> = Vec::new();
    let mut i: usize = 0;
    while i < order.len()
        invariant
            i <= order.len(),
            dist.len() == i,
            prev.len() == i,
            parents.len() == order.len(),
            pt == per_task@,
            ov == views(order@),
            ps == parents@,
            distinct(ov),
            own_magnitude(pt, ov, order.len() as int) <= i64::MAX,
            forall|j: int| 0 <= j < i ==> #[trigger] dist@[j] == longest(pt, ov, ps, *session, j),
            forall|j: int| 0 <= j < i ==> abs(#[trigger] dist@[j] as int) <= own_magnitude(pt, ov, j + 1),
            forall|j: int| 0 <= j < i ==> as_pos(#[trigger] prev@[j]) == best_parent(pt, ov, ps, *session, j, ps[j].len() as int).1,
            forall|j: int| 0 <= j < i ==> (#[trigger] prev@[j] matches Some(q) ==> q < j),
        decreases order.len() - i,
    {
        let own = own_estimate(per_task, order[i].as_str());
        let (best, bp) = best_of_parents(per_task, order, parents, session, i, &dist);
        proof {
            assert(ov[i as int] == order@[i as int]@);
            lemma_own_magnitude_monotone(pt, ov, i + 1, order.len() as int);
            lemma_own_magnitude_monotone(pt, ov, 0, i as int);
            if let Some(q) = bp {
                lemma_own_magnitude_monotone(pt, ov, q + 1, i as int);
                assert(abs(dist@[q as int] as int) <= own_magnitude(pt, ov, q + 1));
            }
            assert(own_magnitude(pt, ov, i + 1) == own_magnitude(pt, ov, i as int) + abs(own as int));
        }
        let total = best + own;
        dist.push(total);
        prev.push(bp);
        i = i + 1;
    }
    (dist, prev)
}

/// Sum of the estimated durations.
pub open spec fn sum_estimates(pt: Seq<TaskEstimate>) -> int
    decreases pt.len(),
{
    if pt.len() == 0 { 0 } else { sum_estimates(pt.drop_last()) + pt.last().duration_ms }
}

/// Sum of (actual - estimate) over the estimates that carry an actual.
pub open spec fn drift_total(pt: Seq<TaskEstimate>) -> int
    decreases pt.len(),
{
    if pt.len() == 0 {
        0
    } else {
        drift_total(pt.drop_last()) + match pt.last().actual {
            Some(a) => a.duration_ms - pt.last().duration_ms,
            None => 0,
        }
    }
}

/// Number of estimates that carry an actual.
pub open spec fn actuals_in(pt: Seq<TaskEstimate>) -> int
    decreases pt.len(),
{
    if pt.len() == 0 {
        0
    } else {
        actuals_in(pt.drop_last()) + if pt.last().actual is Some { 1int } else { 0int }
    }
}

/// Sum of the magnitudes of every estimated and actual duration.
pub open spec fn estimate_magnitude(pt: Seq<TaskEstimate>) -> int
    decreases pt.len(),
{
    if pt.len() == 0 {
        0
    } else {
        estimate_magnitude(pt.drop_last()) + abs(pt.last().duration_ms as int) + match pt.last().actual {
            Some(a) => abs(a.duration_ms as int),
            None => 0,
        }
    }
}

proof fn lemma_estimate_magnitude_prefix(pt: Seq<TaskEstimate>, k: int)
    requires
        0 <= k <= pt.len(),
    ensures
        estimate_magnitude(pt.take(k)) <= estimate_magnitude(pt),
        abs(sum_estimates(pt.take(k))) <= estimate_magnitude(pt.take(k)),
        abs(drift_total(pt.take(k))) <= estimate_magnitude(pt.take(k)),
        0 <= actuals_in(pt.take(k)) <= k,
    decreases pt.len() - k,
{
    if k < pt.len() {
        lemma_estimate_magnitude_prefix(pt, k + 1);
        assert(pt.take(k + 1).drop_last() =~= pt.take(k));
        lemma_estimate_sums_bounded(pt.take(k));
    } else {
        assert(pt.take(k) =~= pt);
    }
    lemma_estimate_sums_bounded(pt.take(k));
}

proof fn lemma_estimate_sums_bounded(pt: Seq<TaskEstimate>)
    ensures
        abs(sum_estimates(pt)) <= estimate_magnitude(pt),
        abs(drift_total(pt)) <= estimate_magnitude(pt),
        0 <= actuals_in(pt) <= pt.len(),
    decreases pt.len(),
{
    if pt.len() > 0 {
        lemma_estimate_sums_bounded(pt.drop_last());
    }
}

/// Position `e` ends the reported critical path: its longest distance is
/// `ms`, and the path is the chain back from `e` when `ms` is positive.
pub open spec fn critical_end(pt: Seq<TaskEstimate>, ov: Seq<Seq<char>>, ps: Seq<Vec<Task>>, session: Option<String>, e: int, ms: int, path: Seq<Seq<char>>) -> bool {
    &&& longest(pt, ov, ps, session, e) == ms
    &&& path == (if ms > 0 { chain_back(pt, ov, ps, session, e) } else { Seq::empty() })
}

/// Some position ends the reported critical path (see `critical_end`).
pub open spec fn critical_result(pt: Seq<TaskEstimate>, ov: Seq<Seq<char>>, ps: Seq<Vec<Task>>, session: Option<String>, ms: int, path: Seq<Seq<char>>) -> bool {
    exists|e: int| 0 <= e < ov.len() && #[trigger] critical_end(pt, ov, ps, session, e, ms, path)
}

/// The chain back from an optional position.
pub open spec fn chain_from(pt: Seq<TaskEstimate>, ov: Seq<Seq<char>>, ps: Seq<Vec<Task>>, session: Option<String>, c: Option<usize>) -> Seq<Seq<char>> {
    match c {
        Some(j) => chain_back(pt, ov, ps, session, j as int),
        None => Seq::empty(),
    }
}

/// Position of a largest entry (the first one among equals).
fn argmax(dist: &Vec<i64>) -> (r: usize)
    requires
        dist.len() > 0,
    ensures
        r < dist.len(),
        forall|j: int| 0 <= j < dist.len() ==> dist@[j] <= dist@[r as int],
{
    let mut end: usize = 0;
    let mut j: usize = 1;
    while j < dist.len()
        invariant
            end < j <= dist.len(),
            forall|q: int| 0 <= q < j ==> dist@[q] <= dist@[end as int],
        decreases dist.len() - j,
    {
        if dist[j] > dist[end] {
            end = j;
        }
        j = j + 1;
    }
    end
}

/// Walks the recorded parents back from `end`, giving the path parents first.
fn walk_back(
    order: &Vec<String>,
    prev: &Vec<Option<usize>>,
    end: usize,
    Ghost(pt): Ghost<Seq<TaskEstimate>>,
    Ghost(ps): Ghost<Seq<Vec<Task>>>,
    Ghost(session): Ghost<Option<String>>,
) -> (path: Vec<String>)
    requires
        end < order.len(),
        prev.len() == order.len(),
        forall|j: int| 0 <= j < order.len() ==> as_pos(#[trigger] prev@[j]) == best_parent(pt, views(order@), ps, session, j, ps[j].len() as int).1,
        forall|j: int| 0 <= j < order.len() ==> (#[trigger] prev@[j] matches Some(q) ==> q < j),
    ensures
        views(path@) == chain_back(pt, views(order@), ps, session, end as int),
{
    let ghost ov = views(order@);
    let mut path: Vec<String> = Vec::new();
    let mut cursor: Option<usize> = Some(end);
    loop
        invariant_except_break
            prev.len() == order.len(),
            ov == views(order@),
            forall|j: int| 0 <= j < order.len() ==> as_pos(#[trigger] prev@[j]) == best_parent(pt, ov, ps, session, j, ps[j].len() as int).1,
            forall|j: int| 0 <= j < order.len() ==> (#[trigger] prev@[j] matches Some(q) ==> q < j),
            cursor matches Some(c) ==> c < order.len(),
            chain_back(pt, ov, ps, session, end as int) == chain_from(pt, ov, ps, session, cursor) + views(path@),
        ensures
            chain_back(pt, ov, ps, session, end as int) == views(path@),
        decreases (match cursor { Some(c) => c as int + 1, None => 0 }),
    {
        match cursor {
            None => {
                proof {
                    assert(Seq::<Seq<char>>::empty() + views(path@) =~= views(path@));
                }
                break;
            },
            Some(c) => {
                let ghost old_path = views(path@);
                path.insert(0, order[c].clone());
                proof {
                    assert(views(path@) =~= seq![ov[c as int]] + old_path);
                    let nxt = prev@[c as int];
                    assert(chain_back(pt, ov, ps, session, c as int) == chain_from(pt, ov, ps, session, nxt).push(ov[c as int]));
                    assert(chain_from(pt, ov, ps, session, nxt).push(ov[c as int]) + old_path
                        =~= chain_from(pt, ov, ps, session, nxt) + (seq![ov[c as int]] + old_path));
                }
                cursor = prev[c];
            },
        }
    }
    path
}

/// Rolls up per-task estimates over a parents-first `order` of task ids,
/// where `parents[i]` are the parents of `order[i]`: the flat total, the
/// drift of recorded actuals, and the critical path, the longest path of
/// estimated durations through counted parents (those of `session`, or all
/// when it is `None`).
pub fn rollup(per_task: Vec<TaskEstimate>, order: &Vec<String>, parents: &Vec<Vec<Task>>, session: &Option<String>) -> (r: Rollup)
    requires
        parents.len() == order.len(),
        distinct(views(order@)),
        own_magnitude(per_task@, views(order@), order.len() as int) <= i64::MAX,
        estimate_magnitude(per_task@) <= i64::MAX,
    ensures
        r.per_task@ == per_task@,
        r.total_sum_ms == sum_estimates(per_task@),
        r.drift_ms == drift_total(per_task@),
        r.actuals_count == actuals_in(per_task@),
        order.len() == 0 ==> r.critical_path_ms == 0 && r.critical_path@.len() == 0,
        forall|j: int| 0 <= j < order.len() ==> longest(per_task@, views(order@), parents@, *session, j) <= r.critical_path_ms,
        order.len() > 0 ==> critical_result(per_task@, views(order@), parents@, *session, r.critical_path_ms as int, views(r.critical_path@)),
{
    let ghost pt = per_task@;
    let ghost ov = views(order@);
    let mut total_sum_ms: i64 = 0;
    let mut drift_ms: i64 = 0;
    let mut actuals_count: usize = 0;
    let mut k: usize = 0;
    while k < per_task.len()
        invariant
            pt == per_task@,
            k <= per_task.len(),
            estimate_magnitude(pt) <= i64::MAX,
            total_sum_ms == sum_estimates(pt.take(k as int)),
            drift_ms == drift_total(pt.take(k as int)),
            actuals_count == actuals_in(pt.take(k as int)),
        decreases per_task.len() - k,
    {
        proof {
            let t = pt.take(k + 1);
            assert(t.drop_last() =~= pt.take(k as int));
            assert(t.last() == pt[k as int]);
            lemma_estimate_magnitude_prefix(pt, k + 1);
            lemma_estimate_magnitude_prefix(pt, k as int);
        }
        let e = &per_task[k];
        total_sum_ms = total_sum_ms + e.duration_ms;
        if let Some(a) = &e.actual {
            drift_ms = drift_ms + (a.duration_ms - e.duration_ms);
            actuals_count = actuals_count + 1;
        }
        k = k + 1;
    }
    proof {
        assert(pt.take(per_task.len() as int) =~= pt);
    }
    let (dist, prev) = longest_table(&per_task, order, parents, session);
    let mut critical_path_ms: i64 = 0;
    let mut critical_path: Vec<String> = Vec::new();
    let ghost mut wit: int = 0;
    if order.len() > 0 {
        let end = argmax(&dist);
        proof {
            wit = end as int;
        }
        critical_path_ms = dist[end];
        if critical_path_ms > 0 {
            critical_path = walk_back(order, &prev, end, Ghost(pt), Ghost(parents@), Ghost(*session));
        }
        proof {
            assert(critical_path_ms <= 0 ==> views(critical_path@) =~= Seq::<Seq<char>>::empty());
            assert(critical_end(pt, ov, parents@, *session, end as int, critical_path_ms as int, views(critical_path@)));
            assert forall|j: int| 0 <= j < order.len() implies longest(pt, ov, parents@, *session, j) <= critical_path_ms by {
                assert(dist@[j] == longest(pt, ov, parents@, *session, j));
            }
        }
    }
    assert(order.len() > 0 ==> 0 <= wit < order.len() && critical_end(pt, ov, parents@, *session, wit, critical_path_ms as int, views(critical_path@)));
    assert(order.len() > 0 ==> critical_result(pt, ov, parents@, *session, critical_path_ms as int, views(critical_path@)));
    Rollup { per_task, total_sum_ms, critical_path_ms, critical_path, drift_ms, actuals_count }
}

/// Parents-first order for a rollup: the topological order of the tasks
/// and their edges, or the tasks' own order when the edges close a cycle.
pub fn rollup_order(task_ids: &Vec<String>, edges: &Vec<(String, String)>) -> (r: Vec<String>)
    requires
        distinct(views(task_ids@)),
    ensures
        distinct(views(r@)),
        (exists|x: Seq<char>| on_cycle(edge_views(edges@), x)) ==> r@ == task_ids@,
        !(exists|x: Seq<char>| on_cycle(edge_views(edges@), x)) ==> kahn_complete(views(task_ids@), edge_views(edges@), views(r@)),
{
    match topo_order(task_ids.as_slice(), edges.as_slice()) {
        Ok(order) => {
            proof {
                lemma_kahn_total_iff_acyclic(views(task_ids@), edge_views(edges@), views(order@));
                lemma_kahn_no_dups(views(task_ids@), edge_views(edges@), views(order@));
            }
            order
        },
        Err(e) => {
            proof {
                let s = choose|s: Seq<Seq<char>>| #[trigger] kahn_complete(views(task_ids@), edge_views(edges@), s)
                    && forall|x: Seq<char>| #[trigger] views(e.nodes@).contains(x) <==>
                        (crate::dag::in_graph(views(task_ids@), edge_views(edges@), x) && !s.contains(x));
                lemma_kahn_total_iff_acyclic(views(task_ids@), edge_views(edges@), s);
                assert(views(e.nodes@).contains(views(e.nodes@)[0]));
            }
            task_ids.clone()
        },
    }
}

/// Position `j` holds a counted parent of the task at position `i`, and
/// sits before it.
pub open spec fn parent_step(ov: Seq<Seq<char>>, ps: Seq<Vec<Task>>, session: Option<String>, j: int, i: int) -> bool {
    &&& 0 <= j < i < ov.len()
    &&& i < ps.len()
    &&& exists|q: int| 0 <= q < ps[i].len() && counts_parent(session, #[trigger] ps[i]@[q]) && ps[i]@[q].id@ == ov[j]
}

/// A sequence of positions in which each one is a counted parent of the next.
pub open spec fn is_dep_path(ov: Seq<Seq<char>>, ps: Seq<Vec<Task>>, session: Option<String>, path: Seq<int>) -> bool {
    &&& forall|m: int| 0 <= m < path.len() ==> 0 <= #[trigger] path[m] < ov.len()
    &&& forall|m: int| 0 <= m < path.len() - 1 ==> parent_step(ov, ps, session, #[trigger] path[m], path[m + 1])
}

/// Sum of the own estimates of the tasks at the given positions.
pub open spec fn path_cost(pt: Seq<TaskEstimate>, ov: Seq<Seq<char>>, path: Seq<int>) -> int
    decreases path.len(),
{
    if path.len() == 0 { 0 } else { path_cost(pt, ov, path.drop_last()) + own_ms(pt, ov[path.last()]) }
}

/// The positions of the critical path ending at `i`, parents first.
pub open spec fn chain_positions(pt: Seq<TaskEstimate>, ov: Seq<Seq<char>>, ps: Seq<Vec<Task>>, session: Option<String>, i: int) -> Seq<int>
    decreases i,
{
    if 0 <= i < ov.len() {
        match best_parent(pt, ov, ps, session, i, ps[i].len() as int).1 {
            Some(j) => if 0 <= j < i { chain_positions(pt, ov, ps, session, j).push(i) } else { seq![i] },
            None => seq![i],
        }
    } else {
        Seq::empty()
    }
}

proof fn lemma_best_parent_shape(pt: Seq<TaskEstimate>, ov: Seq<Seq<char>>, ps: Seq<Vec<Task>>, session: Option<String>, i: int, k: int)
    ensures
        best_parent(pt, ov, ps, session, i, k).0 >= 0,
        best_parent(pt, ov, ps, session, i, k).1 matches None ==> best_parent(pt, ov, ps, session, i, k).0 == 0,
        best_parent(pt, ov, ps, session, i, k).1 matches Some(j) ==> {
            &&& 0 <= j < i
            &&& best_parent(pt, ov, ps, session, i, k).0 == longest(pt, ov, ps, session, j)
            &&& exists|q: int| 0 <= q < ps[i].len() && counts_parent(session, #[trigger] ps[i]@[q]) && ps[i]@[q].id@ == ov[j]
        },
    decreases k,
{
    if k <= 0 || i < 0 || i >= ps.len() || k > ps[i].len() {
    } else {
        lemma_best_parent_shape(pt, ov, ps, session, i, k - 1);
        let p = ps[i]@[k - 1];
        if counts_parent(session, p) && earlier(ov, i, p.id@) {
            let j = earlier_pos(ov, i, p.id@);
            assert(0 <= j < i && ov[j] == p.id@);
        }
    }
}

proof fn lemma_best_parent_dominates(pt: Seq<TaskEstimate>, ov: Seq<Seq<char>>, ps: Seq<Vec<Task>>, session: Option<String>, i: int, k: int, q: int)
    requires
        distinct(ov),
        0 <= i < ps.len(),
        i < ov.len(),
        0 <= q < k <= ps[i].len(),
        counts_parent(session, ps[i]@[q]),
        exists|j: int| 0 <= j < i && ov[j] == ps[i]@[q].id@,
    ensures
        forall|j: int| 0 <= j < i && ov[j] == ps[i]@[q].id@ ==> best_parent(pt, ov, ps, session, i, k).0 >= longest(pt, ov, ps, session, j),
    decreases k,
{
    let p = ps[i]@[k - 1];
    if q < k - 1 {
        lemma_best_parent_dominates(pt, ov, ps, session, i, k - 1, q);
    } else {
        let j0 = choose|j: int| 0 <= j < i && ov[j] == ps[i]@[q].id@;
        lemma_earlier_unique(ov, i, j0);
    }
    assert forall|j: int| 0 <= j < i && ov[j] == ps[i]@[q].id@ implies best_parent(pt, ov, ps, session, i, k).0 >= longest(pt, ov, ps, session, j) by {
        lemma_earlier_unique(ov, i, j);
    }
}

/// No path is longer: every dependency path costs at most the longest
/// distance computed for its last task.
pub proof fn lemma_dep_path_bounded(pt: Seq<TaskEstimate>, ov: Seq<Seq<char>>, ps: Seq<Vec<Task>>, session: Option<String>, path: Seq<int>)
    requires
        distinct(ov),
        ps.len() == ov.len(),
        is_dep_path(ov, ps, session, path),
        path.len() > 0,
    ensures
        path_cost(pt, ov, path) <= longest(pt, ov, ps, session, path.last()),
    decreases path.len(),
{
    let i = path.last();
    assert(0 <= path[path.len() - 1] < ov.len());
    lemma_best_parent_shape(pt, ov, ps, session, i, ps[i].len() as int);
    if path.len() > 1 {
        let front = path.drop_last();
        assert forall|m: int| 0 <= m < front.len() implies 0 <= #[trigger] front[m] < ov.len() by {
            assert(front[m] == path[m]);
        }
        assert forall|m: int| 0 <= m < front.len() - 1 implies parent_step(ov, ps, session, #[trigger] front[m], front[m + 1]) by {
            assert(front[m] == path[m] && front[m + 1] == path[m + 1]);
        }
        lemma_dep_path_bounded(pt, ov, ps, session, front);
        let j = path[path.len() - 2];
        assert(parent_step(ov, ps, session, j, i));
        let q = choose|q: int| 0 <= q < ps[i].len() && counts_parent(session, #[trigger] ps[i]@[q]) && ps[i]@[q].id@ == ov[j];
        lemma_best_parent_dominates(pt, ov, ps, session, i, ps[i].len() as int, q);
        assert(front.last() == j);
        assert(path_cost(pt, ov, path) == path_cost(pt, ov, front) + own_ms(pt, ov[i]));
        assert(longest(pt, ov, ps, session, i) == own_ms(pt, ov[i]) + best_parent(pt, ov, ps, session, i, ps[i].len() as int).0);
    } else {
        assert(path.drop_last().len() == 0);
        assert(path_cost(pt, ov, path.drop_last()) == 0);
        assert(longest(pt, ov, ps, session, i) == own_ms(pt, ov[i]) + best_parent(pt, ov, ps, session, i, ps[i].len() as int).0);
    }
}

/// The critical path ending at `i` is a dependency path that ends at `i`,
/// its ids are `chain_back`, and it costs exactly the longest distance.
pub proof fn lemma_chain_is_longest_path(pt: Seq<TaskEstimate>, ov: Seq<Seq<char>>, ps: Seq<Vec<Task>>, session: Option<String>, i: int)
    requires
        0 <= i < ov.len(),
        ps.len() == ov.len(),
    ensures
        is_dep_path(ov, ps, session, chain_positions(pt, ov, ps, session, i)),
        chain_positions(pt, ov, ps, session, i).len() > 0,
        chain_positions(pt, ov, ps, session, i).last() == i,
        chain_positions(pt, ov, ps, session, i).map_values(|j: int| ov[j]) == chain_back(pt, ov, ps, session, i),
        path_cost(pt, ov, chain_positions(pt, ov, ps, session, i)) == longest(pt, ov, ps, session, i),
    decreases i,
{
    let cp = chain_positions(pt, ov, ps, session, i);
    lemma_best_parent_shape(pt, ov, ps, session, i, ps[i].len() as int);
    assert(longest(pt, ov, ps, session, i) == own_ms(pt, ov[i]) + best_parent(pt, ov, ps, session, i, ps[i].len() as int).0);
    match best_parent(pt, ov, ps, session, i, ps[i].len() as int).1 {
        Some(j) => {
            lemma_chain_is_longest_path(pt, ov, ps, session, j);
            let front = chain_positions(pt, ov, ps, session, j);
            assert(cp == front.push(i));
            assert(cp.drop_last() =~= front);
            assert forall|m: int| 0 <= m < cp.len() implies 0 <= #[trigger] cp[m] < ov.len() by {
                if m < front.len() {
                    assert(cp[m] == front[m]);
                }
            }
            assert forall|m: int| 0 <= m < cp.len() - 1 implies parent_step(ov, ps, session, #[trigger] cp[m], cp[m + 1]) by {
                if m < front.len() - 1 {
                    assert(cp[m] == front[m] && cp[m + 1] == front[m + 1]);
                } else {
                    assert(cp[m] == j && cp[m + 1] == i);
                }
            }
            assert(cp.map_values(|j: int| ov[j]) =~= front.map_values(|j: int| ov[j]).push(ov[i]));
            assert(path_cost(pt, ov, cp) == path_cost(pt, ov, front) + own_ms(pt, ov[i]));
        },
        None => {
            assert(cp == seq![i]);
            assert(cp.drop_last() =~= Seq::<int>::empty());
            assert(cp.map_values(|j: int| ov[j]) =~= seq![ov[i]]);
            assert(path_cost(pt, ov, cp.drop_last()) == 0);
        },
    }
}

/// The reported critical path is real: when `rollup` reports a positive
/// `critical_path_ms`, its ids are a parents-first dependency path whose
/// estimated durations add up to exactly that value.
pub proof fn lemma_critical_path_sound(pt: Seq<TaskEstimate>, ov: Seq<Seq<char>>, ps: Seq<Vec<Task>>, session: Option<String>, ms: int, ids: Seq<Seq<char>>)
    requires
        ps.len() == ov.len(),
        critical_result(pt, ov, ps, session, ms, ids),
        ms > 0,
    ensures
        exists|path: Seq<int>| #[trigger] is_dep_path(ov, ps, session, path) && path.len() > 0
            && path.map_values(|j: int| ov[j]) == ids && path_cost(pt, ov, path) == ms,
{
    let e = choose|e: int| 0 <= e < ov.len() && #[trigger] critical_end(pt, ov, ps, session, e, ms, ids);
    lemma_chain_is_longest_path(pt, ov, ps, session, e);
    let path = chain_positions(pt, ov, ps, session, e);
    assert(is_dep_path(ov, ps, session, path));
}

/// The reported critical path is longest: given the bound that `rollup`
/// ensures for every position, no dependency path costs more than
/// `critical_path_ms`.
pub proof fn lemma_no_longer_path(pt: Seq<TaskEstimate>, ov: Seq<Seq<char>>, ps: Seq<Vec<Task>>, session: Option<String>, ms: int, path: Seq<int>)
    requires
        distinct(ov),
        ps.len() == ov.len(),
        forall|j: int| 0 <= j < ov.len() ==> longest(pt, ov, ps, session, j) <= ms,
        is_dep_path(ov, ps, session, path),
        path.len() > 0,
    ensures
        path_cost(pt, ov, path) <= ms,
{
    lemma_dep_path_bounded(pt, ov, ps, session, path);
    assert(0 <= path[path.len() - 1] < ov.len());
}

/// `+` before a non-negative number, nothing before a negative one.
pub open spec fn sign_of(x: int) -> Seq<char> {
    if x >= 0 { "+"@ } else { Seq::empty() }
}

/// The lines that report one estimate: the estimate with its source,
/// then the recorded actual with its drift, when there is one.
pub open spec fn estimate_text(e: TaskEstimate) -> Seq<Seq<char>> {
    let src = if e.from_history { "avg("@ + decimal(e.samples as nat) + " samples)"@ } else { "default"@ };
    let first = "estimate "@ + e.task_id@ + " '"@ + e.title@ + "': "@ + signed_decimal(e.duration_ms as int) + "ms "@
        + signed_decimal(e.prompt_tokens as int) + "+"@ + signed_decimal(e.completion_tokens as int) + " toks ["@ + src + "]"@;
    match e.actual {
        Some(a) => {
            let drift = a.duration_ms - e.duration_ms;
            seq![first, "  actual: "@ + signed_decimal(a.duration_ms as int) + "ms "@ + signed_decimal(a.prompt_tokens as int) + "+"@
                + signed_decimal(a.completion_tokens as int) + " toks ("@ + a.outcome@ + ") drift "@ + sign_of(drift)
                + signed_decimal(drift) + "ms"@]
        },
        None => seq![first],
    }
}

/// The drift of an estimate fits in 64 bits.
pub open spec fn drift_fits(e: TaskEstimate) -> bool {
    match e.actual {
        Some(a) => i64::MIN <= a.duration_ms - e.duration_ms <= i64::MAX,
        None => true,
    }
}

/// `+` or nothing, as `sign_of`.
fn sign(x: i64) -> (r: &'static str)
    ensures
        r@ == sign_of(x as int),
{
    proof {
        reveal_strlit("");
    }
    if x >= 0 { "+" } else { "" }
}

/// The lines that report one estimate (see `estimate_text`).
pub fn estimate_lines(e: &TaskEstimate) -> (r: Vec<String>)
    requires
        drift_fits(*e),
    ensures
        views(r@) == estimate_text(*e),
{
    let mut first = String::new();
    push_str(&mut first, "estimate ");
    push_str(&mut first, e.task_id.as_str());
    push_str(&mut first, " '");
    push_str(&mut first, e.title.as_str());
    push_str(&mut first, "': ");
    push_str(&mut first, i64_decimal(e.duration_ms).as_str());
    push_str(&mut first, "ms ");
    push_str(&mut first, i64_decimal(e.prompt_tokens).as_str());
    push_str(&mut first, "+");
    push_str(&mut first, i64_decimal(e.completion_tokens).as_str());
    push_str(&mut first, " toks [");
    if e.from_history {
        push_str(&mut first, "avg(");
        push_str(&mut first, u64_decimal(e.samples as u64).as_str());
        push_str(&mut first, " samples)");
    } else {
        push_str(&mut first, "default");
    }
    push_str(&mut first, "]");
    let ghost src = if e.from_history { "avg("@ + decimal(e.samples as nat) + " samples)"@ } else { "default"@ };
    proof {
        assert(first@ =~= "estimate "@ + e.task_id@ + " '"@ + e.title@ + "': "@ + signed_decimal(e.duration_ms as int) + "ms "@
            + signed_decimal(e.prompt_tokens as int) + "+"@ + signed_decimal(e.completion_tokens as int) + " toks ["@ + src + "]"@);
    }
    let mut out: Vec<String> = Vec::new();
    out.push(first);
    proof {
        assert(views(out@) =~= seq![first@]);
    }
    if let Some(a) = &e.actual {
        let drift = a.duration_ms - e.duration_ms;
        let mut second = String::new();
        push_str(&mut second, "  actual: ");
        push_str(&mut second, i64_decimal(a.duration_ms).as_str());
        push_str(&mut second, "ms ");
        push_str(&mut second, i64_decimal(a.prompt_tokens).as_str());
        push_str(&mut second, "+");
        push_str(&mut second, i64_decimal(a.completion_tokens).as_str());
        push_str(&mut second, " toks (");
        push_str(&mut second, a.outcome.as_str());
        push_str(&mut second, ") drift ");
        push_str(&mut second, sign(drift));
        push_str(&mut second, i64_decimal(drift).as_str());
        push_str(&mut second, "ms");
        let ghost one = views(out@);
        out.push(second);
        proof {
            assert(views(out@) =~= one.push(second@));
        }
    }
    proof {
        assert(views(out@) =~= estimate_text(*e));
    }
    out
}

/// The lines that report a rollup: each estimate, the totals with the
/// critical path, and the drift.
pub open spec fn rollup_text(r: Rollup) -> Seq<Seq<char>> {
    estimates_text(r.per_task@) + seq![
        "total: "@ + signed_decimal(r.total_sum_ms as int) + "ms sum / "@ + signed_decimal(r.critical_path_ms as int)
            + "ms critical path ["@ + join_with(views(r.critical_path@), " -> "@) + "]"@,
        if r.actuals_count > 0 {
            "drift: "@ + sign_of(r.drift_ms as int) + signed_decimal(r.drift_ms as int) + "ms over "@
                + decimal(r.actuals_count as nat) + " actual(s)"@
        } else {
            "drift: no actuals recorded yet"@
        }
    ]
}

/// The lines of every estimate, in order.
pub open spec fn estimates_text(pt: Seq<TaskEstimate>) -> Seq<Seq<char>>
    decreases pt.len(),
{
    if pt.len() == 0 { Seq::empty() } else { estimates_text(pt.drop_last()) + estimate_text(pt.last()) }
}

/// The lines that report a rollup (see `rollup_text`).
pub fn rollup_lines(r: &Rollup) -> (out: Vec<String>)
    requires
        forall|k: int| 0 <= k < r.per_task.len() ==> drift_fits(#[trigger] r.per_task@[k]),
    ensures
        views(out@) == rollup_text(*r),
{
    let mut out: Vec<String> = Vec::new();
    let mut k: usize = 0;
    while k < r.per_task.len()
        invariant
            k <= r.per_task.len(),
            forall|q: int| 0 <= q < r.per_task.len() ==> drift_fits(#[trigger] r.per_task@[q]),
            views(out@) == estimates_text(r.per_task@.take(k as int)),
        decreases r.per_task.len() - k,
    {
        let lines = estimate_lines(&r.per_task[k]);
        let ghost before = views(out@);
        let mut j: usize = 0;
        while j < lines.len()
            invariant
                j <= lines.len(),
                views(out@) == before + views(lines@).take(j as int),
            decreases lines.len() - j,
        {
            let ghost pre = views(out@);
            out.push(lines[j].clone());
            proof {
                assert(views(out@) =~= pre.push(lines@[j as int]@));
                assert(views(lines@).take(j + 1) =~= views(lines@).take(j as int).push(lines@[j as int]@));
                assert(views(out@) =~= before + views(lines@).take(j + 1));
            }
            j = j + 1;
        }
        proof {
            let t = r.per_task@.take(k + 1);
            assert(t.drop_last() =~= r.per_task@.take(k as int));
            assert(t.last() == r.per_task@[k as int]);
            assert(views(lines@).take(j as int) =~= views(lines@));
        }
        k = k + 1;
    }
    proof {
        assert(r.per_task@.take(r.per_task.len() as int) =~= r.per_task@);
    }
    let mut total = String::new();
    push_str(&mut total, "total: ");
    push_str(&mut total, i64_decimal(r.total_sum_ms).as_str());
    push_str(&mut total, "ms sum / ");
    push_str(&mut total, i64_decimal(r.critical_path_ms).as_str());
    push_str(&mut total, "ms critical path [");
    push_str(&mut total, join_strings(&r.critical_path, " -> ").as_str());
    push_str(&mut total, "]");
    let mut drift = String::new();
    if r.actuals_count > 0 {
        push_str(&mut drift, "drift: ");
        push_str(&mut drift, sign(r.drift_ms));
        push_str(&mut drift, i64_decimal(r.drift_ms).as_str());
        push_str(&mut drift, "ms over ");
        push_str(&mut drift, u64_decimal(r.actuals_count as u64).as_str());
        push_str(&mut drift, " actual(s)");
    } else {
        push_str(&mut drift, "drift: no actuals recorded yet");
    }
    let ghost body = views(out@);
    out.push(total);
    out.push(drift);
    proof {
        assert(views(out@) =~= body.push(total@).push(drift@));
    }
    proof {
        assert(views(out@) =~= rollup_text(*r));
    }
    out
}

} // verus!
