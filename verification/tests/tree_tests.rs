use atlas::model::{Task, TaskNode, TaskState};
use atlas::tree::{build_tree, matches_project, project_of, render_tree, summarize, to_node, ChildList, TaskMeta};

fn task(id: &str, title: &str, state: TaskState) -> Task {
    Task {
        id: id.to_owned(),
        session_id: "s".to_owned(),
        title: title.to_owned(),
        state,
        agent: None,
        attempts: 0,
        created_at: 0,
        updated_at: 0,
    }
}

fn count_occurrences(nodes: &[TaskNode], id: &str) -> usize {
    nodes
        .iter()
        .map(|n| usize::from(n.id == id) + count_occurrences(&n.children, id))
        .sum()
}

/// Diamond A -> {B, C} -> D: D has two parents and must appear once.
#[test]
fn tree_renders_multi_parent_node_once() {
    let a = task("a", "A", TaskState::Ready);
    let b = task("b", "B", TaskState::Blocked);
    let c = task("c", "C", TaskState::Blocked);
    let d = task("d", "D", TaskState::Blocked);
    let tasks = vec![a.clone(), b.clone(), c.clone(), d.clone()];
    let parents = vec![Vec::new(), vec![a.clone()], vec![a.clone()], vec![b.clone(), c.clone()]];
    let roots = build_tree(&tasks, &parents, None);
    assert_eq!(count_occurrences(&roots, "d"), 1, "D with 2 parents shows once");
    assert_eq!(count_occurrences(&roots, "a"), 1);
    assert_eq!(count_occurrences(&roots, "b"), 1);
    assert_eq!(count_occurrences(&roots, "c"), 1);
    // D hangs under the first parent that reaches it, in id order.
    assert_eq!(roots.len(), 1);
    assert_eq!(roots[0].children[0].id, "b");
    assert_eq!(roots[0].children[0].children[0].id, "d");
    assert!(roots[0].children[1].children.is_empty());
}

#[test]
fn roots_and_children_come_in_id_order_with_records() {
    let tasks = vec![
        task("z", "last root", TaskState::Ready),
        task("m", "child", TaskState::Completed),
        task("b", "first root", TaskState::Ready),
        task("k", "child k", TaskState::Failed),
    ];
    let parents = vec![Vec::new(), vec![tasks[0].clone()], Vec::new(), vec![tasks[0].clone()]];
    let roots = build_tree(&tasks, &parents, None);
    let ids: Vec<&str> = roots.iter().map(|n| n.id.as_str()).collect();
    assert_eq!(ids, vec!["b", "z"]);
    let kids: Vec<&str> = roots[1].children.iter().map(|n| n.id.as_str()).collect();
    assert_eq!(kids, vec!["k", "m"]);
    assert_eq!(roots[1].children[1].title, "child");
    assert_eq!(roots[1].children[1].state, TaskState::Completed);
    let lines = render_tree(&roots[1], 0);
    assert_eq!(lines, vec!["z [READY] last root", "  k [FAILED] child k", "  m [COMPLETED] child"]);
    assert_eq!(render_tree(&roots[0], 2), vec!["    b [READY] first root"]);
}

#[test]
fn project_filter_keeps_matching_tasks_and_promotes_their_roots() {
    let tasks = vec![
        task("core-1", "[CORE] base", TaskState::Ready),
        task("ui-1", "[ui] screen", TaskState::Ready),
        task("core-2", "wire it", TaskState::Ready),
    ];
    // core-2 depends on ui-1, which the filter drops: core-2 becomes a root.
    let parents = vec![Vec::new(), Vec::new(), vec![tasks[1].clone()]];
    let roots = build_tree(&tasks, &parents, Some("core"));
    let ids: Vec<&str> = roots.iter().map(|n| n.id.as_str()).collect();
    assert_eq!(ids, vec!["core-1", "core-2"]);
}

#[test]
fn matches_project_by_tag_or_id() {
    assert!(matches_project("[Xavier] add search", "t1", "xavier"));
    assert!(matches_project("fix: see [xavier] notes", "t1", "XAVIER"));
    assert!(matches_project("plain title", "xavier-12", "xavier"));
    assert!(matches_project("plain title", "t_xavier_9", "xavier"));
    assert!(!matches_project("plain title", "t1", "xavier"));
    assert!(!matches_project("xavier without brackets", "t1", "xavier"));
}

#[test]
fn to_node_skips_visited_ids() {
    let meta = vec![
        TaskMeta { id: "p".to_owned(), title: "parent".to_owned(), state: TaskState::Ready },
        TaskMeta { id: "q".to_owned(), title: "kid".to_owned(), state: TaskState::Blocked },
    ];
    let lists = vec![ChildList { parent: "p".to_owned(), children: vec!["q".to_owned(), "x".to_owned()] }];
    let mut visited = vec!["x".to_owned()];
    let node = to_node(&meta, &lists, "p", &mut visited).expect("fresh id");
    assert_eq!(node.title, "parent");
    assert_eq!(node.children.len(), 1);
    assert_eq!(node.children[0].id, "q");
    assert_eq!(node.children[0].state, TaskState::Blocked);
    assert_eq!(visited, vec!["x".to_owned(), "p".to_owned(), "q".to_owned()]);
    assert!(to_node(&meta, &lists, "q", &mut visited).is_none());
    // Unknown ids render with an empty title and PENDING.
    let lone = to_node(&meta, &lists, "ghost", &mut visited).expect("fresh");
    assert_eq!(lone.title, "");
    assert_eq!(lone.state, TaskState::Pending);
}

#[test]
fn project_names_follow_tags_then_ids() {
    assert_eq!(project_of("[shelf] sort", "t1"), "SHELF");
    assert_eq!(project_of("[Ola] hello", "gestalt-3"), "GESTALT");
    assert_eq!(project_of("[JULES] x", "nodash"), "GENERAL");
    assert_eq!(project_of("[] empty", "abc-1"), "ABC");
    assert_eq!(project_of("no tag", "abc"), "GENERAL");
    assert_eq!(project_of("[general] again", "atlas-9"), "ATLAS");
    assert_eq!(project_of("[open only", "x-1"), "X");
}

#[test]
fn summaries_count_states_per_project_by_size() {
    let tasks = vec![
        task("a-1", "[core] one", TaskState::Completed),
        task("a-2", "[core] two", TaskState::Ready),
        task("a-3", "[core] three", TaskState::Blocked),
        task("ui-1", "[ui] one", TaskState::InProgress),
    ];
    let s = summarize(&tasks);
    assert_eq!(s.len(), 2);
    assert_eq!(s[0].name, "CORE");
    assert_eq!(s[0].total_tasks, 3);
    assert_eq!(s[0].completed_tasks, 1);
    assert_eq!(s[0].ready_tasks, 1);
    assert_eq!(s[0].in_progress_tasks, 0);
    assert_eq!(s[0].pending_or_blocked_tasks, 1);
    assert_eq!(s[1].name, "UI");
    assert_eq!(s[1].in_progress_tasks, 1);
    assert!(summarize(&Vec::new()).is_empty());
}

#[test]
fn to_node_hangs_shared_child_under_first_parent() {
    let meta = vec![
        TaskMeta { id: "A".to_owned(), title: "a".to_owned(), state: TaskState::Ready },
        TaskMeta { id: "B".to_owned(), title: "b".to_owned(), state: TaskState::Blocked },
        TaskMeta { id: "C".to_owned(), title: "c".to_owned(), state: TaskState::Blocked },
        TaskMeta { id: "D".to_owned(), title: "d".to_owned(), state: TaskState::Blocked },
    ];
    let lists = vec![
        ChildList { parent: "A".to_owned(), children: vec!["B".to_owned(), "C".to_owned()] },
        ChildList { parent: "B".to_owned(), children: vec!["D".to_owned()] },
        ChildList { parent: "C".to_owned(), children: vec!["D".to_owned()] },
    ];
    let mut visited: Vec<String> = Vec::new();
    let a = to_node(&meta, &lists, "A", &mut visited).expect("fresh");
    assert_eq!(a.children.len(), 2);
    assert_eq!(a.children[0].id, "B");
    assert_eq!(a.children[1].id, "C");
    assert_eq!(a.children[0].children.len(), 1);
    assert_eq!(a.children[0].children[0].id, "D");
    assert_eq!(a.children[0].children[0].title, "d");
    assert!(a.children[1].children.is_empty());
    assert_eq!(visited, vec!["A".to_owned(), "B".to_owned(), "D".to_owned(), "C".to_owned()]);
}
