use atlas::estimator::{
    estimate_lines, estimate_task, rollup, rollup_lines, rollup_order, title_prefix, HistoryRow, MetricActual,
    TaskEstimate, DEFAULT_COMPLETION_TOKENS, DEFAULT_DURATION_MS, DEFAULT_PROMPT_TOKENS,
};
use atlas::model::{Task, TaskState};

fn task(id: &str, session: &str, title: &str) -> Task {
    Task {
        id: id.to_owned(),
        session_id: session.to_owned(),
        title: title.to_owned(),
        state: TaskState::Ready,
        agent: None,
        attempts: 0,
        created_at: 0,
        updated_at: 0,
    }
}

fn metric(task_id: &str, d: i64, p: i64, c: i64) -> MetricActual {
    MetricActual {
        task_id: task_id.to_owned(),
        duration_ms: d,
        prompt_tokens: p,
        completion_tokens: c,
        outcome: "ok".to_owned(),
    }
}

fn row(title: &str, m: MetricActual) -> HistoryRow {
    HistoryRow { title: title.to_owned(), metric: m }
}

#[test]
fn average_math() {
    let history = vec![
        row("build api", metric("a", 1000, 100, 50)),
        row("build web", metric("b", 3000, 300, 150)),
    ];
    let est = estimate_task("c", "build other", &history, None);
    assert!(est.from_history, "expected history average");
    assert_eq!(est.samples, 2);
    assert_eq!(est.duration_ms, 2000);
    assert_eq!(est.prompt_tokens, 200);
    assert_eq!(est.completion_tokens, 100);
    // Own row excluded: estimate for `a` averages only `b`.
    let est_a = estimate_task("a", "build api", &history, Some(metric("a", 1000, 100, 50)));
    assert_eq!(est_a.samples, 1);
    assert_eq!(est_a.duration_ms, 3000);
    // Unknown prefix falls back to flat defaults.
    let def = estimate_task("o", "zzz-lonely", &history, None);
    assert!(!def.from_history);
    assert_eq!(def.duration_ms, DEFAULT_DURATION_MS);
    assert_eq!(def.prompt_tokens, DEFAULT_PROMPT_TOKENS);
    assert_eq!(def.completion_tokens, DEFAULT_COMPLETION_TOKENS);
}

fn defaults_for(tasks: &[Task]) -> Vec<TaskEstimate> {
    tasks
        .iter()
        .map(|t| estimate_task(&t.id, &t.title, &Vec::new(), None))
        .collect()
}

#[test]
fn critical_path_rollup() {
    let a = task("a", "s", "aaa first");
    let b = task("b", "s", "bbb second");
    let c = task("c", "s", "ccc side");
    let tasks = vec![a.clone(), b.clone(), c.clone()];
    let per_task = defaults_for(&tasks);
    let ids: Vec<String> = tasks.iter().map(|t| t.id.clone()).collect();
    let edges = vec![("b".to_owned(), "a".to_owned())];
    let order = rollup_order(&ids, &edges);
    let parents: Vec<Vec<Task>> = order
        .iter()
        .map(|id| if id == "b" { vec![a.clone()] } else { Vec::new() })
        .collect();
    let roll = rollup(per_task, &order, &parents, &Some("s".to_owned()));
    assert_eq!(roll.per_task.len(), 3);
    assert_eq!(roll.total_sum_ms, 3 * DEFAULT_DURATION_MS);
    assert_eq!(roll.critical_path_ms, 2 * DEFAULT_DURATION_MS);
    assert_eq!(roll.critical_path, vec!["a".to_owned(), "b".to_owned()]);
}

#[test]
fn drift_report() {
    let history = vec![row("solo-a work", metric("a", 60_000, 100, 50))];
    // `a` runs faster than the default prediction.
    let est_a = estimate_task("a", "solo-a work", &history, Some(metric("a", 60_000, 100, 50)));
    let est_b = estimate_task("b", "solo-b work", &history, None);
    let order = vec!["a".to_owned(), "b".to_owned()];
    let parents: Vec<Vec<Task>> = vec![Vec::new(), Vec::new()];
    let roll = rollup(vec![est_a, est_b], &order, &parents, &Some("drift".to_owned()));
    assert_eq!(roll.actuals_count, 1);
    // Own row excluded -> estimate stays the default, drift is honest.
    assert_eq!(roll.drift_ms, 60_000 - DEFAULT_DURATION_MS);
    let est_a = roll.per_task.iter().find(|e| e.task_id == "a").expect("a");
    assert!(est_a.actual.is_some());
    assert_eq!(est_a.duration_ms, DEFAULT_DURATION_MS);
}

#[test]
fn title_prefix_is_first_word_lowercased() {
    assert_eq!(title_prefix("  Build API now"), "build");
    assert_eq!(title_prefix(""), "");
    assert_eq!(title_prefix("   "), "");
}

#[test]
fn averages_truncate_toward_zero() {
    let history = vec![
        row("fix a", metric("x", -7, 5, 1)),
        row("fix b", metric("y", 0, 0, 0)),
    ];
    let est = estimate_task("z", "fix c", &history, None);
    assert_eq!(est.duration_ms, -3);
    assert_eq!(est.prompt_tokens, 2);
    assert_eq!(est.completion_tokens, 0);
}

#[test]
fn critical_path_prefers_longer_branch_and_other_sessions_do_not_count() {
    let a = task("a", "s", "a1");
    let b = task("b", "s", "b1");
    let x = task("x", "other", "x1");
    let est = |id: &str, d: i64| TaskEstimate {
        task_id: id.to_owned(),
        title: id.to_owned(),
        duration_ms: d,
        prompt_tokens: 0,
        completion_tokens: 0,
        samples: 0,
        from_history: false,
        actual: None,
    };
    let order = vec!["x".to_owned(), "a".to_owned(), "b".to_owned(), "c".to_owned()];
    // c depends on a (5), b (7) and x (100, other session).
    let parents = vec![Vec::new(), Vec::new(), Vec::new(), vec![a.clone(), b.clone(), x.clone()]];
    let per = vec![est("x", 100), est("a", 5), est("b", 7), est("c", 1)];
    let roll = rollup(per, &order, &parents, &Some("s".to_owned()));
    assert_eq!(roll.critical_path_ms, 100);
    assert_eq!(roll.critical_path, vec!["x".to_owned()]);
    let per = vec![est("x", 1), est("a", 5), est("b", 7), est("c", 1)];
    let roll = rollup(per.clone(), &order, &parents, &Some("s".to_owned()));
    assert_eq!(roll.critical_path_ms, 8);
    assert_eq!(roll.critical_path, vec!["b".to_owned(), "c".to_owned()]);
    // Without a session every parent counts.
    let per = vec![est("x", 50), est("a", 5), est("b", 7), est("c", 1)];
    let roll = rollup(per, &order, &parents, &None);
    assert_eq!(roll.critical_path_ms, 51);
    assert_eq!(roll.critical_path, vec!["x".to_owned(), "c".to_owned()]);
}

#[test]
fn empty_rollup_has_no_path() {
    let roll = rollup(Vec::new(), &Vec::new(), &Vec::new(), &None);
    assert_eq!(roll.total_sum_ms, 0);
    assert_eq!(roll.critical_path_ms, 0);
    assert!(roll.critical_path.is_empty());
    assert_eq!(roll.actuals_count, 0);
}

#[test]
fn rollup_order_falls_back_on_cycles() {
    let ids = vec!["b".to_owned(), "a".to_owned()];
    assert_eq!(rollup_order(&ids, &vec![("b".to_owned(), "a".to_owned())]), vec!["a".to_owned(), "b".to_owned()]);
    let cyc = vec![("b".to_owned(), "a".to_owned()), ("a".to_owned(), "b".to_owned())];
    assert_eq!(rollup_order(&ids, &cyc), ids);
}

#[test]
fn report_lines_show_estimates_totals_and_drift() {
    let history = vec![row("solo-a work", metric("a", 60_000, 100, 50))];
    let est_a = estimate_task("a", "solo-a work", &history, Some(metric("a", 60_000, 100, 50)));
    let lines = estimate_lines(&est_a);
    assert_eq!(lines[0], "estimate a 'solo-a work': 120000ms 2000+1000 toks [default]");
    assert_eq!(lines[1], "  actual: 60000ms 100+50 toks (ok) drift -60000ms");
    let est_b = estimate_task("b", "solo-b work", &history, None);
    let order = vec!["a".to_owned(), "b".to_owned()];
    let roll = rollup(vec![est_a, est_b], &order, &vec![Vec::new(), Vec::new()], &None);
    let lines = rollup_lines(&roll);
    assert_eq!(lines.len(), 5);
    assert_eq!(lines[3], "total: 240000ms sum / 120000ms critical path [a]");
    assert_eq!(lines[4], "drift: -60000ms over 1 actual(s)");
    let hist = estimate_task("c", "solo-a more", &history, None);
    assert_eq!(estimate_lines(&hist)[0], "estimate c 'solo-a more': 60000ms 100+50 toks [avg(1 samples)]");
}
