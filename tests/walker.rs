use git_diver::{walk, walk_excluding, CommitGraph, CommitRecord, CommitTime, GraphError};

fn node(seconds: i64) -> CommitRecord {
    CommitRecord {
        message: Some(format!("m{}", seconds)),
        time: CommitTime { seconds, offset_minutes: 0 },
        author_email: Some("a@x".to_string()),
    }
}

/// 0 <- 1 <- 3, 0 <- 2 <- 3 (a merge), 2 <- 4.
fn diamond() -> CommitGraph {
    let mut g = CommitGraph::new();
    g.push_commit(node(0), vec![]).unwrap();
    g.push_commit(node(1), vec![0]).unwrap();
    g.push_commit(node(2), vec![0]).unwrap();
    g.push_commit(node(3), vec![1, 2]).unwrap();
    g.push_commit(node(4), vec![2]).unwrap();
    g
}

#[test]
fn walk_visits_every_ancestor_once() {
    let g = diamond();
    assert_eq!(walk(&g, 3).unwrap(), vec![3, 2, 1, 0]);
    assert_eq!(walk(&g, 4).unwrap(), vec![4, 2, 0]);
    assert_eq!(walk(&g, 0).unwrap(), vec![0]);
    assert_eq!(walk(&g, 5).unwrap_err(), GraphError::UnknownNode { index: 5 });
}

#[test]
fn walk_excluding_hides_everything_reachable_from_exclude() {
    let g = diamond();
    assert_eq!(walk_excluding(&g, 3, 4).unwrap(), vec![1, 3]);
    assert_eq!(walk_excluding(&g, 4, 3).unwrap(), vec![4]);
    assert!(walk_excluding(&g, 1, 3).unwrap().is_empty());
    assert_eq!(walk_excluding(&g, 9, 0).unwrap_err(), GraphError::UnknownNode { index: 9 });
    assert_eq!(walk_excluding(&g, 0, 8).unwrap_err(), GraphError::UnknownNode { index: 8 });
}
