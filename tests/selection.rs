use git_diver::{
    get_commits_by_email, get_unmerged_commits, Branch, CommitChange, CommitGraph, CommitRecord,
    CommitTime, Filterable, GraphError, NO_MESSAGE,
};

fn record(message: Option<&str>, seconds: i64, email: Option<&str>) -> CommitRecord {
    CommitRecord {
        message: message.map(|m| m.to_string()),
        time: CommitTime { seconds, offset_minutes: 0 },
        author_email: email.map(|e| e.to_string()),
    }
}

fn at(seconds: i64) -> CommitTime {
    CommitTime { seconds, offset_minutes: 0 }
}

fn messages(changes: &[CommitChange]) -> Vec<String> {
    changes.iter().map(|c| c.message.clone()).collect()
}

fn branch(name: &str, tip: usize) -> Branch {
    Branch { name: name.to_string(), tip }
}

/// C1 <- C2 <- C3 on one line.
fn linear_history() -> CommitGraph {
    let mut g = CommitGraph::new();
    g.push_commit(record(Some("C1"), 100, Some("a@x")), vec![]).unwrap();
    g.push_commit(record(Some("C2"), 200, Some("b@x")), vec![0]).unwrap();
    g.push_commit(record(Some("C3"), 300, Some("a@x")), vec![1]).unwrap();
    g
}

#[test]
fn author_and_window_select_the_latest_commit() {
    let g = linear_history();
    let by_author = get_commits_by_email(&g, "a@x", 2).unwrap();
    assert_eq!(messages(&by_author), vec!["C3", "C1"]);
    let recent = by_author.since(at(150));
    assert_eq!(messages(&recent), vec!["C3"]);
    assert_eq!(recent[0].time, at(300));
}

#[test]
fn feature_commit_is_unmerged() {
    let mut g = CommitGraph::new();
    let c1 = g.push_commit(record(Some("C1"), 100, Some("a@x")), vec![]).unwrap();
    let c2 = g.push_commit(record(Some("C2"), 200, Some("a@x")), vec![c1]).unwrap();
    let branches = vec![branch("main", c1), branch("feat", c2)];
    let r = get_unmerged_commits(&g, "a@x", c1, &branches, None, "").unwrap();
    assert_eq!(messages(&r), vec!["C2"]);
}

#[test]
fn ignored_branch_is_excluded() {
    let mut g = CommitGraph::new();
    let c1 = g.push_commit(record(Some("C1"), 100, Some("a@x")), vec![]).unwrap();
    let c2 = g.push_commit(record(Some("C2"), 200, Some("a@x")), vec![c1]).unwrap();
    let branches = vec![branch("main", c1), branch("ignore-me", c2)];
    let walked = get_unmerged_commits(&g, "a@x", c1, &branches, None, "me").unwrap();
    assert_eq!(messages(&walked), vec!["C2"]);
    let ignored = Some(vec!["ignore-me".to_string()]);
    let r = get_unmerged_commits(&g, "a@x", c1, &branches, ignored, "me").unwrap();
    assert!(r.is_empty());
}

#[test]
fn author_filter_keeps_only_exact_email_on_a_merge() {
    // root <- left, root <- right, merge(left, right)
    let mut g = CommitGraph::new();
    let root = g.push_commit(record(Some("root"), 1, Some("a@x")), vec![]).unwrap();
    let left = g.push_commit(record(Some("left"), 2, Some("A@x")), vec![root]).unwrap();
    let right = g.push_commit(record(Some("right"), 3, Some("a@x")), vec![root]).unwrap();
    let none = g.push_commit(record(Some("anon"), 4, None), vec![right]).unwrap();
    let merge = g.push_commit(record(Some("merge"), 5, Some("a@x")), vec![left, none]).unwrap();
    let r = get_commits_by_email(&g, "a@x", merge).unwrap();
    assert_eq!(messages(&r), vec!["merge", "right", "root"]);
    let from_left = get_commits_by_email(&g, "a@x", left).unwrap();
    assert_eq!(messages(&from_left), vec!["root"]);
}

#[test]
fn author_filter_skips_commits_without_message() {
    let mut g = CommitGraph::new();
    let c1 = g.push_commit(record(None, 1, Some("a@x")), vec![]).unwrap();
    let c2 = g.push_commit(record(Some("kept"), 2, Some("a@x")), vec![c1]).unwrap();
    let c3 = g.push_commit(record(Some(""), 3, Some("a@x")), vec![c2]).unwrap();
    let r = get_commits_by_email(&g, "a@x", c3).unwrap();
    assert_eq!(messages(&r), vec!["kept"]);
}

#[test]
fn commits_by_email_unknown_tip() {
    let g = linear_history();
    assert_eq!(get_commits_by_email(&g, "a@x", 3).unwrap_err(), GraphError::UnknownNode { index: 3 });
}

#[test]
fn push_commit_refuses_unknown_parent() {
    let mut g = linear_history();
    let r = g.push_commit(record(Some("x"), 1, None), vec![0, 7]);
    assert_eq!(r.unwrap_err(), GraphError::UnknownNode { index: 7 });
    assert_eq!(g.node_count(), 3);
}

#[test]
fn unmerged_excludes_commits_reachable_from_base_through_another_path() {
    // base = merge of b1 and shared; feature branches from shared and from base.
    let mut g = CommitGraph::new();
    let root = g.push_commit(record(Some("root"), 1, Some("a@x")), vec![]).unwrap();
    let shared = g.push_commit(record(Some("shared"), 2, Some("a@x")), vec![root]).unwrap();
    let b1 = g.push_commit(record(Some("b1"), 3, Some("a@x")), vec![root]).unwrap();
    let base = g.push_commit(record(Some("base"), 4, Some("a@x")), vec![b1, shared]).unwrap();
    let f1 = g.push_commit(record(Some("f1"), 5, Some("a@x")), vec![shared]).unwrap();
    let f2 = g.push_commit(record(None, 6, Some("a@x")), vec![f1]).unwrap();
    let branches = vec![branch("me/feature", f2), branch("other", f2)];
    let r = get_unmerged_commits(&g, "a@x", base, &branches, None, "me/").unwrap();
    assert_eq!(messages(&r), vec!["f1", NO_MESSAGE]);
}

#[test]
fn unmerged_reports_shared_commit_once_per_branch() {
    let mut g = CommitGraph::new();
    let base = g.push_commit(record(Some("base"), 1, Some("a@x")), vec![]).unwrap();
    let shared = g.push_commit(record(Some("shared"), 2, Some("a@x")), vec![base]).unwrap();
    let t1 = g.push_commit(record(Some("t1"), 3, Some("a@x")), vec![shared]).unwrap();
    let t2 = g.push_commit(record(Some("t2"), 4, Some("b@x")), vec![shared]).unwrap();
    let branches = vec![branch("me-one", t1), branch("me-two", t2)];
    let r = get_unmerged_commits(&g, "a@x", base, &branches, Some(vec![]), "me").unwrap();
    assert_eq!(messages(&r), vec!["shared", "t1", "shared"]);
}

#[test]
fn unmerged_unknown_base_and_branch_tips() {
    let g = linear_history();
    let branches = vec![branch("me", 9)];
    let r = get_unmerged_commits(&g, "a@x", 5, &branches, None, "me");
    assert_eq!(r.unwrap_err(), GraphError::UnknownNode { index: 5 });
    let r = get_unmerged_commits(&g, "a@x", 0, &branches, None, "me");
    assert_eq!(r.unwrap_err(), GraphError::UnknownNode { index: 9 });
    let skipped = get_unmerged_commits(&g, "a@x", 0, &branches, Some(vec!["me".to_string()]), "me");
    assert!(skipped.unwrap().is_empty());
    let not_owned = get_unmerged_commits(&g, "a@x", 0, &branches, None, "you");
    assert!(not_owned.unwrap().is_empty());
}

#[test]
fn since_is_idempotent_and_monotonic() {
    let g = linear_history();
    let all = get_commits_by_email(&g, "a@x", 2).unwrap();
    let mut mixed = all.clone();
    mixed.extend(get_commits_by_email(&g, "b@x", 2).unwrap());
    let once = mixed.since(at(150));
    let twice = once.since(at(150));
    assert_eq!(messages(&once), messages(&twice));
    let later = mixed.since(at(250));
    assert_eq!(messages(&later), vec!["C3"]);
    assert_eq!(messages(&once), vec!["C3", "C2"]);
    assert_eq!(messages(&once.since(at(250))), messages(&later));
}

#[test]
fn since_keeps_the_window_start_and_compares_offsets() {
    let changes = vec![
        CommitChange { message: "at".to_string(), time: CommitTime { seconds: 100, offset_minutes: 60 } },
        CommitChange { message: "west".to_string(), time: CommitTime { seconds: 100, offset_minutes: -60 } },
        CommitChange { message: "before".to_string(), time: at(99) },
    ];
    let r = changes.since(CommitTime { seconds: 100, offset_minutes: 0 });
    assert_eq!(messages(&r), vec!["at"]);
    assert!(changes.since(at(1000)).is_empty());
    assert_eq!(changes.len(), 3);
}

#[test]
fn unmerged_merge_side_commits_parents_first() {
    let mut g = CommitGraph::new();
    let c0 = g.push_commit(record(Some("C0"), 1, Some("a@x")), vec![]).unwrap();
    let c1 = g.push_commit(record(Some("C1"), 2, Some("a@x")), vec![c0]).unwrap();
    let c2 = g.push_commit(record(Some("C2"), 3, Some("a@x")), vec![c0]).unwrap();
    let m = g.push_commit(record(Some("M"), 4, Some("a@x")), vec![c2, c1]).unwrap();
    let branches = vec![branch("main", c1), branch("richard-f", m)];
    let r = get_unmerged_commits(&g, "a@x", c1, &branches, None, "richard").unwrap();
    assert_eq!(messages(&r), vec!["C2", "M"]);
}

#[test]
fn unmerged_shared_commit_reported_by_each_branch() {
    let mut g = CommitGraph::new();
    let c1 = g.push_commit(record(Some("C1"), 1, Some("a@x")), vec![]).unwrap();
    let x = g.push_commit(record(Some("X"), 2, Some("a@x")), vec![c1]).unwrap();
    let y = g.push_commit(record(Some("Y"), 3, Some("b@x")), vec![x]).unwrap();
    let branches = vec![branch("main", c1), branch("richard-a", x), branch("richard-b", y)];
    let r = get_unmerged_commits(&g, "a@x", c1, &branches, None, "richard").unwrap();
    assert_eq!(messages(&r), vec!["X", "X"]);
}

#[test]
fn ignore_list_matches_whole_names_only() {
    let mut g = CommitGraph::new();
    let c1 = g.push_commit(record(Some("C1"), 1, Some("a@x")), vec![]).unwrap();
    let c2 = g.push_commit(record(Some("C2"), 2, Some("a@x")), vec![c1]).unwrap();
    let branches = vec![branch("richard-x-2", c2)];
    let ignored = Some(vec!["richard-x".to_string()]);
    let r = get_unmerged_commits(&g, "a@x", c1, &branches, ignored, "richard").unwrap();
    assert_eq!(messages(&r), vec!["C2"]);
    let none = get_unmerged_commits(&g, "a@x", c1, &branches, None, "richard").unwrap();
    let empty = get_unmerged_commits(&g, "a@x", c1, &branches, Some(vec![]), "richard").unwrap();
    assert_eq!(messages(&none), messages(&empty));
}

#[test]
fn unmerged_error_names_first_unknown_walked_tip() {
    let g = linear_history();
    let branches = vec![branch("skip", 20), branch("me-a", 11), branch("me-b", 12)];
    let r = get_unmerged_commits(&g, "a@x", 0, &branches, None, "me");
    assert_eq!(r.unwrap_err(), GraphError::UnknownNode { index: 11 });
}
