use stakk::graph::{BookmarkSegment, BuildStep, ChangeGraph, GraphBuilder};
use stakk::stacks::{find_segment, group_segments_into_stacks, parent_of, topological_sort};
use stakk::vcs::{Bookmark, LogEntry, Signature};

fn bookmark(name: &str, commit_id: &str, change_id: &str) -> Bookmark {
    Bookmark {
        name: name.to_string(),
        commit_id: commit_id.to_string(),
        change_id: change_id.to_string(),
        synced: false,
    }
}

fn log_entry(commit_id: &str, change_id: &str, parents: &[&str], local: &[&str]) -> LogEntry {
    LogEntry {
        commit_id: commit_id.to_string(),
        change_id: change_id.to_string(),
        description: format!("desc {commit_id}"),
        parents: parents.iter().map(|p| p.to_string()).collect(),
        author: Signature {
            name: "T".to_string(),
            email: "t@t.t".to_string(),
            timestamp: "T".to_string(),
        },
        local_bookmark_names: local.iter().map(|b| b.to_string()).collect(),
        remote_bookmark_names: vec![],
    }
}

/// Runs the builder the way the program does, answering each page request
/// with `log(to, after)`.
fn build(bookmarks: Vec<Bookmark>, log: impl Fn(&str, Option<&str>) -> Vec<LogEntry>) -> ChangeGraph {
    let mut builder = GraphBuilder::new(bookmarks);
    let mut step = builder.start_next();
    loop {
        match step {
            BuildStep::Done => break,
            BuildStep::Fetch { to, after } => {
                let page = log(&to, after.as_deref());
                step = builder.feed_page(&page).unwrap();
            }
        }
    }
    builder.finish()
}

fn parent(graph: &ChangeGraph, id: &str) -> Option<String> {
    parent_of(&graph.adjacency_list, id)
}

fn segment<'a>(graph: &'a ChangeGraph, id: &str) -> &'a BookmarkSegment {
    &graph.segments[find_segment(&graph.segments, id).unwrap()]
}

fn has(v: &[String], s: &str) -> bool {
    v.iter().any(|x| x == s)
}

#[test]
fn linear_stack() {
    let graph = build(vec![bookmark("bm_b", "c_b", "ch_b"), bookmark("bm_a", "c_a", "ch_a")], |to, after| {
        if after.is_none() && to == "c_b" {
            return vec![
                log_entry("c_b", "ch_b", &["c_a"], &["bm_b"]),
                log_entry("c_a", "ch_a", &["trunk_c"], &["bm_a"]),
            ];
        }
        vec![]
    });
    assert_eq!(graph.segments.len(), 2);
    assert_eq!(graph.stacks.len(), 1);
    assert_eq!(graph.stack_leaves.len(), 1);
    assert!(has(&graph.stack_leaves, "ch_b"));
    assert_eq!(graph.stack_roots.len(), 1);
    assert!(has(&graph.stack_roots, "ch_a"));
    assert_eq!(parent(&graph, "ch_b").unwrap(), "ch_a");
    let stack = &graph.stacks[0];
    assert_eq!(stack.segments.len(), 2);
    assert_eq!(stack.segments[0].bookmark_names, vec!["bm_a"]);
    assert_eq!(stack.segments[1].bookmark_names, vec!["bm_b"]);
}

fn shared_root_log(to: &str, after: Option<&str>) -> Vec<LogEntry> {
    if after.is_some() {
        return vec![];
    }
    match to {
        "c_b" => vec![
            log_entry("c_b", "ch_b", &["c_a"], &["bm_b"]),
            log_entry("c_a", "ch_a", &["trunk_c"], &["bm_a"]),
        ],
        "c_c" => vec![
            log_entry("c_c", "ch_c", &["c_a"], &["bm_c"]),
            log_entry("c_a", "ch_a", &["trunk_c"], &["bm_a"]),
        ],
        _ => panic!("unexpected walk to {to}"),
    }
}

fn shared_root_bookmarks() -> Vec<Bookmark> {
    vec![
        bookmark("bm_b", "c_b", "ch_b"),
        bookmark("bm_c", "c_c", "ch_c"),
        bookmark("bm_a", "c_a", "ch_a"),
    ]
}

#[test]
fn branching_shared_root() {
    let graph = build(shared_root_bookmarks(), shared_root_log);
    assert_eq!(graph.segments.len(), 3);
    assert_eq!(graph.stacks.len(), 2);
    assert!(has(&graph.stack_leaves, "ch_b"));
    assert!(has(&graph.stack_leaves, "ch_c"));
    assert!(has(&graph.stack_roots, "ch_a"));
    assert_eq!(parent(&graph, "ch_b").unwrap(), "ch_a");
    assert_eq!(parent(&graph, "ch_c").unwrap(), "ch_a");
    for stack in &graph.stacks {
        assert_eq!(stack.segments[0].bookmark_names, vec!["bm_a"]);
        assert_eq!(stack.segments.len(), 2);
    }
}

#[test]
fn already_collected_early_stop() {
    // The walk of bm_a is never asked for: shared_root_log panics on it.
    let graph = build(shared_root_bookmarks(), shared_root_log);
    assert_eq!(graph.segments.len(), 3);
    assert_eq!(graph.stacks.len(), 2);
    assert_eq!(parent(&graph, "ch_b").unwrap(), "ch_a");
    assert_eq!(parent(&graph, "ch_c").unwrap(), "ch_a");
}

#[test]
fn merge_commit_excluded() {
    let graph = build(vec![bookmark("bm_merge", "c_merge", "ch_merge")], |to, after| {
        if after.is_none() && to == "c_merge" {
            return vec![log_entry("c_merge", "ch_merge", &["parent_a", "parent_b"], &["bm_merge"])];
        }
        vec![]
    });
    assert_eq!(graph.stacks.len(), 0);
    assert_eq!(graph.excluded_bookmark_count, 1);
    assert!(has(&graph.tainted_change_ids, "ch_merge"));
}

#[test]
fn merge_taint_propagation() {
    let graph = build(vec![bookmark("bm_b", "c_b", "ch_b"), bookmark("bm_a", "c_a", "ch_a")], |to, after| {
        if after.is_none() && to == "c_b" {
            return vec![
                log_entry("c_b", "ch_b", &["c_a"], &["bm_b"]),
                log_entry("c_a", "ch_a", &["p1", "p2"], &["bm_a"]),
            ];
        }
        vec![]
    });
    assert_eq!(graph.stacks.len(), 0);
    assert_eq!(graph.excluded_bookmark_count, 1);
    assert!(has(&graph.tainted_change_ids, "ch_a"));
    assert!(has(&graph.tainted_change_ids, "ch_b"));
}

#[test]
fn taint_from_previous_traversal() {
    let graph = build(
        vec![bookmark("bm_merge", "c_merge", "ch_merge"), bookmark("bm_child", "c_child", "ch_child")],
        |to, after| {
            if after.is_some() {
                return vec![];
            }
            match to {
                "c_merge" => vec![log_entry("c_merge", "ch_merge", &["p1", "p2"], &["bm_merge"])],
                "c_child" => vec![
                    log_entry("c_child", "ch_child", &["c_merge"], &["bm_child"]),
                    log_entry("c_merge", "ch_merge", &["p1", "p2"], &["bm_merge"]),
                ],
                _ => vec![],
            }
        },
    );
    assert_eq!(graph.stacks.len(), 0);
    assert_eq!(graph.excluded_bookmark_count, 2);
    assert!(has(&graph.tainted_change_ids, "ch_merge"));
    assert!(has(&graph.tainted_change_ids, "ch_child"));
}

#[test]
fn tainted_change_excludes_later_walk() {
    // The merge sits below an unbookmarked commit; a second walk reaches the
    // tainted change through a commit that is not a merge itself.
    let graph = build(
        vec![bookmark("bm_top", "c_top", "ch_top"), bookmark("bm_side", "c_side", "ch_side")],
        |to, after| {
            if after.is_some() {
                return vec![];
            }
            match to {
                "c_top" => vec![
                    log_entry("c_top", "ch_top", &["c_mid"], &["bm_top"]),
                    log_entry("c_mid", "ch_mid", &["m1", "m2"], &[]),
                ],
                "c_side" => vec![
                    log_entry("c_side", "ch_side", &["c_top"], &["bm_side"]),
                    log_entry("c_top", "ch_top", &["c_mid"], &[]),
                ],
                _ => vec![],
            }
        },
    );
    assert_eq!(graph.excluded_bookmark_count, 2);
    assert!(graph.stacks.is_empty());
    assert!(graph.segments.is_empty());
}

#[test]
fn multiple_bookmarks_same_change() {
    let graph = build(vec![bookmark("bm_a", "c_x", "ch_x"), bookmark("bm_b", "c_x", "ch_x")], |to, after| {
        if after.is_none() && to == "c_x" {
            return vec![log_entry("c_x", "ch_x", &["trunk_c"], &["bm_a", "bm_b"])];
        }
        vec![]
    });
    assert_eq!(graph.segments.len(), 1);
    assert_eq!(graph.stacks.len(), 1);
    let seg = segment(&graph, "ch_x");
    assert_eq!(seg.bookmark_names.len(), 2);
    assert!(seg.bookmark_names.contains(&"bm_a".to_string()));
    assert!(seg.bookmark_names.contains(&"bm_b".to_string()));
    assert_eq!(graph.stacks[0].segments.len(), 1);
}

#[test]
fn no_bookmarks() {
    let graph = build(vec![], |_, _| vec![]);
    assert!(graph.segments.is_empty());
    assert!(graph.stacks.is_empty());
    assert!(graph.stack_leaves.is_empty());
    assert!(graph.stack_roots.is_empty());
    assert_eq!(graph.excluded_bookmark_count, 0);
}

#[test]
fn multi_commit_segment() {
    let graph = build(vec![bookmark("bm_b", "c4", "ch_b"), bookmark("bm_a", "c2", "ch_a")], |to, after| {
        if after.is_none() && to == "c4" {
            return vec![
                log_entry("c4", "ch_b", &["c3"], &["bm_b"]),
                log_entry("c3", "ch_3", &["c2"], &[]),
                log_entry("c2", "ch_a", &["c1"], &["bm_a"]),
                log_entry("c1", "ch_1", &["trunk_c"], &[]),
            ];
        }
        vec![]
    });
    assert_eq!(graph.segments.len(), 2);
    assert_eq!(graph.stacks.len(), 1);
    let seg_b = segment(&graph, "ch_b");
    assert_eq!(seg_b.commits.len(), 2);
    assert_eq!(seg_b.commits[0].commit_id, "c4");
    assert_eq!(seg_b.commits[1].commit_id, "c3");
    let seg_a = segment(&graph, "ch_a");
    assert_eq!(seg_a.commits.len(), 2);
    assert_eq!(seg_a.commits[0].commit_id, "c2");
    assert_eq!(seg_a.commits[1].commit_id, "c1");
    let stack = &graph.stacks[0];
    assert_eq!(stack.segments[0].change_id, "ch_a");
    assert_eq!(stack.segments[1].change_id, "ch_b");
}

#[test]
fn topological_sort_linear() {
    let graph = build(
        vec![bookmark("bm_c", "c_c", "ch_c"), bookmark("bm_b", "c_b", "ch_b"), bookmark("bm_a", "c_a", "ch_a")],
        |to, after| {
            if after.is_none() && to == "c_c" {
                return vec![
                    log_entry("c_c", "ch_c", &["c_b"], &["bm_c"]),
                    log_entry("c_b", "ch_b", &["c_a"], &["bm_b"]),
                    log_entry("c_a", "ch_a", &["trunk_c"], &["bm_a"]),
                ];
            }
            vec![]
        },
    );
    assert_eq!(topological_sort(&graph), vec!["ch_c", "ch_b", "ch_a"]);
}

#[test]
fn topological_sort_branching() {
    let graph = build(shared_root_bookmarks(), shared_root_log);
    assert_eq!(topological_sort(&graph), vec!["ch_b", "ch_c", "ch_a"]);
}

#[test]
fn single_bookmark_single_commit() {
    let graph = build(vec![bookmark("bm_x", "c_x", "ch_x")], |to, after| {
        if after.is_none() && to == "c_x" {
            return vec![log_entry("c_x", "ch_x", &["trunk_c"], &["bm_x"])];
        }
        vec![]
    });
    assert_eq!(graph.segments.len(), 1);
    assert_eq!(graph.stacks.len(), 1);
    assert!(has(&graph.stack_leaves, "ch_x"));
    assert!(has(&graph.stack_roots, "ch_x"));
    assert!(graph.adjacency_list.is_empty());
    let stack = &graph.stacks[0];
    assert_eq!(stack.segments.len(), 1);
    assert_eq!(stack.segments[0].bookmark_names, vec!["bm_x"]);
    assert_eq!(stack.segments[0].commits.len(), 1);
    assert_eq!(stack.segments[0].commits[0].commit_id, "c_x");
}

#[test]
fn segment_commit_metadata() {
    let graph = build(vec![bookmark("feat", "c1", "ch1")], |to, after| {
        if after.is_none() && to == "c1" {
            return vec![log_entry("c1", "ch1", &["trunk_c"], &["feat"])];
        }
        vec![]
    });
    let seg = segment(&graph, "ch1");
    assert_eq!(seg.commits[0].commit_id, "c1");
    assert_eq!(seg.commits[0].change_id, "ch1");
    assert_eq!(seg.commits[0].description, "desc c1");
    assert_eq!(seg.commits[0].author_name, "T");
}

#[test]
fn stacks_are_deterministically_ordered() {
    let mut segments = Vec::new();
    let adjacency_list: Vec<(String, String)> = Vec::new();
    let mut stack_leaves = Vec::new();
    for id in ["z_leaf", "a_leaf", "m_leaf"] {
        segments.push(BookmarkSegment {
            bookmark_names: vec![id.to_string()],
            change_id: id.to_string(),
            commits: vec![],
        });
        stack_leaves.push(id.to_string());
    }
    let stacks = group_segments_into_stacks(&stack_leaves, &adjacency_list, &segments);
    assert_eq!(stacks.len(), 3);
    assert_eq!(stacks[0].segments[0].change_id, "a_leaf");
    assert_eq!(stacks[1].segments[0].change_id, "m_leaf");
    assert_eq!(stacks[2].segments[0].change_id, "z_leaf");
}

#[test]
fn stacks_same_for_any_leaf_order() {
    let graph = build(shared_root_bookmarks(), shared_root_log);
    let mut reversed = graph.stack_leaves.clone();
    reversed.reverse();
    let a = group_segments_into_stacks(&graph.stack_leaves, &graph.adjacency_list, &graph.segments);
    let b = group_segments_into_stacks(&reversed, &graph.adjacency_list, &graph.segments);
    let ids = |s: &Vec<stakk::graph::BranchStack>| -> Vec<Vec<String>> {
        s.iter().map(|st| st.segments.iter().map(|g| g.change_id.clone()).collect()).collect()
    };
    assert_eq!(ids(&a), ids(&b));
    assert_eq!(ids(&a), vec![vec!["ch_a", "ch_b"], vec!["ch_a", "ch_c"]]);
}

#[test]
fn identical_input_builds_identical_graph() {
    let g1 = build(shared_root_bookmarks(), shared_root_log);
    let g2 = build(shared_root_bookmarks(), shared_root_log);
    assert_eq!(g1.stacks.len(), g2.stacks.len());
    assert_eq!(g1.stack_leaves, g2.stack_leaves);
    assert_eq!(g1.stack_roots, g2.stack_roots);
    for (a, b) in g1.stacks.iter().zip(g2.stacks.iter()) {
        let ia: Vec<&String> = a.segments.iter().map(|s| &s.change_id).collect();
        let ib: Vec<&String> = b.segments.iter().map(|s| &s.change_id).collect();
        assert_eq!(ia, ib);
    }
}

#[test]
fn non_user_bookmarks_filtered_from_segment() {
    let graph = build(vec![bookmark("bm_user", "c_x", "ch_x")], |to, after| {
        if after.is_none() && to == "c_x" {
            return vec![log_entry("c_x", "ch_x", &["trunk_c"], &["bm_user", "bm_other"])];
        }
        vec![]
    });
    assert_eq!(graph.segments.len(), 1);
    assert_eq!(segment(&graph, "ch_x").bookmark_names, vec!["bm_user"]);
}

#[test]
fn only_non_user_bookmarks_no_segment_boundary() {
    let graph = build(vec![bookmark("bm_user", "c_user", "ch_user")], |to, after| {
        if after.is_none() && to == "c_user" {
            return vec![
                log_entry("c_user", "ch_user", &["c_other"], &["bm_user"]),
                log_entry("c_other", "ch_other", &["trunk_c"], &["bm_other"]),
            ];
        }
        vec![]
    });
    assert_eq!(graph.segments.len(), 1);
    assert_eq!(graph.stacks.len(), 1);
    let seg = segment(&graph, "ch_user");
    assert_eq!(seg.bookmark_names, vec!["bm_user"]);
    assert_eq!(seg.commits.len(), 2);
    assert_eq!(seg.commits[0].commit_id, "c_user");
    assert_eq!(seg.commits[1].commit_id, "c_other");
}

#[test]
fn full_page_asks_for_the_next_one() {
    // A walk over 150 commits: a full page of 100, then the remaining 50.
    let mut commits: Vec<LogEntry> = Vec::new();
    for i in (0..150).rev() {
        let id = format!("c{i}");
        let parent = if i == 0 { "trunk_c".to_string() } else { format!("c{}", i - 1) };
        let marks: Vec<&str> = if i == 149 { vec!["top"] } else { vec![] };
        commits.push(log_entry(&id, &format!("ch{i}"), &[parent.as_str()], &marks));
    }
    let mut builder = GraphBuilder::new(vec![bookmark("top", "c149", "ch149")]);
    let step = builder.start_next();
    match step {
        BuildStep::Fetch { to, after } => {
            assert_eq!(to, "c149");
            assert!(after.is_none());
        }
        BuildStep::Done => panic!("expected a page request"),
    }
    let step = builder.feed_page(&commits[..100].to_vec()).unwrap();
    match step {
        BuildStep::Fetch { to, after } => {
            assert_eq!(to, "c149");
            assert_eq!(after.as_deref(), Some("c50"));
        }
        BuildStep::Done => panic!("expected a second page request"),
    }
    let step = builder.feed_page(&commits[100..].to_vec()).unwrap();
    assert!(matches!(step, BuildStep::Done));
    let graph = builder.finish();
    assert_eq!(graph.segments.len(), 1);
    assert_eq!(graph.segments[0].commits.len(), 150);
    assert!(has(&graph.stack_roots, "ch149"));
}

#[test]
fn commit_before_any_bookmark_is_an_error() {
    let mut builder = GraphBuilder::new(vec![bookmark("bm", "c1", "ch1")]);
    let _ = builder.start_next();
    let err = builder.feed_page(&vec![log_entry("c0", "ch0", &["trunk_c"], &[])]).unwrap_err();
    assert_eq!(err.change_id, "ch0");
    assert_eq!(err.bookmark, "bm");
    assert_eq!(err.message(), "change ch0 before any bookmark from bm");
}
