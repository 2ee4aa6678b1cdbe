use git_diver::{
    contains_text, get_target_first_day, report_window, same_text, CommitChange, CommitTime, Config,
    ConfigPath, Repo,
};

#[test]
fn day_of_a_change() {
    let c = CommitChange { message: "fix".to_string(), time: CommitTime { seconds: 1431648000, offset_minutes: 120 } };
    assert_eq!(c.get_time(), "2015-05-15");
    assert_eq!(c.to_line(), "2015-05-15: fix");
}

#[test]
fn day_of_an_unrepresentable_instant_is_empty() {
    let c = CommitChange { message: "m".to_string(), time: CommitTime { seconds: i64::MAX, offset_minutes: 0 } };
    assert_eq!(c.get_time(), "");
    assert_eq!(c.to_line(), ": m");
}

#[test]
fn first_day_rule() {
    assert_eq!(get_target_first_day(2024, 3, 10), (2024, 3));
    assert_eq!(get_target_first_day(2024, 3, 5), (2024, 3));
    assert_eq!(get_target_first_day(2024, 3, 4), (2024, 2));
    assert_eq!(get_target_first_day(2024, 1, 1), (2023, 12));
}

#[test]
fn report_window_starts_at_midnight_utc() {
    assert_eq!(report_window(2024, 3, 10), Some(CommitTime { seconds: 1709251200, offset_minutes: 0 }));
    assert_eq!(report_window(2024, 1, 2), Some(CommitTime { seconds: 1701388800, offset_minutes: 0 }));
    assert_eq!(report_window(i32::MAX, 6, 10), None);
    assert_eq!(report_window(1970, 1, 10), Some(CommitTime { seconds: 0, offset_minutes: 0 }));
    assert!(report_window(262142, 12, 10).is_some());
    assert_eq!(report_window(262143, 1, 10), None);
    assert!(report_window(-262143, 1, 10).is_some());
    assert_eq!(report_window(-262144, 12, 10), None);
}

#[test]
fn text_helpers() {
    assert!(contains_text("richard/feature", "richard"));
    assert!(contains_text("x", ""));
    assert!(!contains_text("rich", "richard"));
    assert!(same_text("a@x", "a@x"));
    assert!(!same_text("a@x", "A@x"));
}

#[test]
fn config_paths() {
    assert_eq!(ConfigPath::under_home("/home/u").as_str(), "/home/u/.config/git-diver/config.toml");
    assert_eq!(ConfigPath::under_home("/").as_str(), "/.config/git-diver/config.toml");
    assert_eq!(ConfigPath::new(Some("/etc/c.toml")).unwrap().as_str(), "/etc/c.toml");
}

#[test]
fn config_keeps_repos_in_order() {
    let repo = |p: &str| Repo {
        author_email: "a@x".to_string(),
        path: p.to_string(),
        branch: "main".to_string(),
        ignored_branches: None,
        branch_owner: "a".to_string(),
    };
    let c = Config::new(vec![repo("/one"), repo("/two")]);
    let paths: Vec<&str> = c.get_repos().iter().map(|r| r.path.as_str()).collect();
    assert_eq!(paths, vec!["/one", "/two"]);
}
