use stakk::graph::{BookmarkSegment, BranchStack, ChangeGraph, SegmentCommit};
use stakk::select::{
    collect_bookmark_choices, collect_stack_choices, first_pick, only_bookmark, FirstPick, StackChoice,
};

fn make_graph(stacks: Vec<BranchStack>) -> ChangeGraph {
    ChangeGraph {
        adjacency_list: vec![],
        stack_leaves: vec![],
        stack_roots: vec![],
        segments: vec![],
        tainted_change_ids: vec![],
        excluded_bookmark_count: 0,
        stacks,
    }
}

fn make_segment(names: &[&str], change_id: &str, descriptions: &[&str]) -> BookmarkSegment {
    BookmarkSegment {
        bookmark_names: names.iter().map(|s| s.to_string()).collect(),
        change_id: change_id.to_string(),
        commits: descriptions
            .iter()
            .enumerate()
            .map(|(i, desc)| SegmentCommit {
                commit_id: format!("c_{change_id}_{i}"),
                change_id: change_id.to_string(),
                description: desc.to_string(),
                author_name: "Test".to_string(),
            })
            .collect(),
    }
}

#[test]
fn stack_choices_empty_graph() {
    let choices = collect_stack_choices(&make_graph(vec![]));
    assert!(choices.is_empty());
}

#[test]
fn stack_choices_single_stack() {
    let graph = make_graph(vec![BranchStack {
        segments: vec![make_segment(&["base"], "ch_a", &["add base"]), make_segment(&["leaf"], "ch_b", &["add leaf"])],
    }]);
    let choices = collect_stack_choices(&graph);
    assert_eq!(choices.len(), 1);
    assert_eq!(choices[0].stack_index, 0);
    assert_eq!(choices[0].bookmark_names, vec!["base", "leaf"]);
    assert_eq!(choices[0].commit_count, 2);
    assert!(choices[0].shared_with.is_empty());
    assert_eq!(choices[0].leaf_summary, "add leaf");
}

#[test]
fn stack_choices_multiple_stacks() {
    let graph = make_graph(vec![
        BranchStack {
            segments: vec![make_segment(&["alpha"], "ch_alpha", &["alpha"]), make_segment(&["beta"], "ch_beta", &["beta"])],
        },
        BranchStack { segments: vec![make_segment(&["gamma"], "ch_gamma", &["gamma"])] },
    ]);
    let choices = collect_stack_choices(&graph);
    assert_eq!(choices.len(), 2);
    assert_eq!(choices[0].bookmark_names, vec!["alpha", "beta"]);
    assert_eq!(choices[1].bookmark_names, vec!["gamma"]);
    assert!(choices[0].shared_with.is_empty());
    assert!(choices[1].shared_with.is_empty());
}

#[test]
fn stack_choices_shared_ancestor() {
    let graph = make_graph(vec![
        BranchStack {
            segments: vec![make_segment(&["base"], "ch_shared", &["shared base"]), make_segment(&["feat-b"], "ch_b", &["feature b"])],
        },
        BranchStack {
            segments: vec![
                make_segment(&["base"], "ch_shared", &["shared base"]),
                make_segment(&["other-leaf"], "ch_c", &["other leaf"]),
            ],
        },
    ]);
    let choices = collect_stack_choices(&graph);
    assert_eq!(choices.len(), 2);
    assert_eq!(choices[0].shared_with.len(), 1);
    assert_eq!(choices[0].shared_with[0].0, "base");
    assert_eq!(choices[0].shared_with[0].1, vec!["other-leaf"]);
    assert_eq!(choices[1].shared_with.len(), 1);
    assert_eq!(choices[1].shared_with[0].0, "base");
    assert_eq!(choices[1].shared_with[0].1, vec!["feat-b"]);
}

#[test]
fn stack_choices_display_format() {
    let choice = StackChoice {
        stack_index: 0,
        bookmark_names: vec!["base".to_string(), "feat-b".to_string(), "feat-c".to_string()],
        commit_count: 5,
        shared_with: vec![("base".to_string(), vec!["other-leaf".to_string()])],
        leaf_summary: "add caching".to_string(),
    };
    let display = choice.to_string();
    assert_eq!(
        display,
        "\u{25cb} \u{2190} base \u{2190} feat-b \u{2190} feat-c  (3 PRs)  [base also in other-leaf]"
    );
}

#[test]
fn stack_choices_display_no_sharing() {
    let choice = StackChoice {
        stack_index: 0,
        bookmark_names: vec!["standalone".to_string()],
        commit_count: 1,
        shared_with: vec![],
        leaf_summary: "fix login bug".to_string(),
    };
    let display = choice.to_string();
    assert_eq!(display, "\u{25cb} \u{2190} standalone  (1 PR: fix login bug)");
}

#[test]
fn bookmark_choices_single_segment() {
    let stack = BranchStack { segments: vec![make_segment(&["only-one"], "ch_a", &["the commit"])] };
    let choices = collect_bookmark_choices(&stack);
    assert_eq!(choices.len(), 1);
    assert_eq!(choices[0].bookmark_name, "only-one");
    assert_eq!(choices[0].segment_index, 0);
    assert_eq!(choices[0].stack_len, 1);
    assert_eq!(choices[0].commit_summaries, vec!["the commit"]);
}

#[test]
fn bookmark_choices_multi_segment() {
    let stack = BranchStack {
        segments: vec![
            make_segment(&["base"], "ch_a", &["base commit"]),
            make_segment(&["middle"], "ch_b", &["middle commit"]),
            make_segment(&["leaf"], "ch_c", &["leaf commit"]),
        ],
    };
    let choices = collect_bookmark_choices(&stack);
    assert_eq!(choices.len(), 3);
    assert_eq!(choices[0].bookmark_name, "leaf");
    assert_eq!(choices[0].segment_index, 2);
    assert_eq!(choices[1].bookmark_name, "middle");
    assert_eq!(choices[1].segment_index, 1);
    assert_eq!(choices[2].bookmark_name, "base");
    assert_eq!(choices[2].segment_index, 0);
}

#[test]
fn bookmark_choices_position_labels() {
    let stack = BranchStack {
        segments: vec![
            make_segment(&["base"], "ch_a", &["base work"]),
            make_segment(&["mid"], "ch_b", &["mid work"]),
            make_segment(&["leaf"], "ch_c", &["leaf work"]),
        ],
    };
    let choices = collect_bookmark_choices(&stack);
    let leaf_display = choices[0].to_string();
    assert!(
        leaf_display.starts_with("leaf (leaf, 1 commit) \u{2192} 3 PRs"),
        "expected leaf position label and 3 PRs in '{leaf_display}'"
    );
    let mid_display = choices[1].to_string();
    assert!(
        mid_display.starts_with("mid (1 commit) \u{2192} 2 PRs"),
        "expected no position label and 2 PRs in '{mid_display}'"
    );
    let base_display = choices[2].to_string();
    assert!(
        base_display.starts_with("base (base, 1 commit) \u{2192} 1 PR"),
        "expected base position label and 1 PR in '{base_display}'"
    );
}

#[test]
fn bookmark_choices_empty_description() {
    let stack = BranchStack { segments: vec![make_segment(&["feat"], "ch_a", &[""])] };
    let choices = collect_bookmark_choices(&stack);
    assert_eq!(choices[0].commit_summaries, vec!["(no description)"]);
    let display = choices[0].to_string();
    assert!(display.contains("(no description)"));
}

#[test]
fn bookmark_choices_display_shows_commits() {
    let stack = BranchStack {
        segments: vec![
            make_segment(&["base"], "ch_a", &["add user model"]),
            make_segment(&["feat"], "ch_b", &["refactor auth module", "extract token parser"]),
        ],
    };
    let choices = collect_bookmark_choices(&stack);
    assert_eq!(
        choices[0].to_string(),
        "feat (leaf, 2 commits) \u{2192} 2 PRs\n    refactor auth module\n    extract token parser"
    );
    assert_eq!(choices[1].to_string(), "base (base, 1 commit) \u{2192} 1 PR\n    add user model");
}

#[test]
fn resolve_no_stacks() {
    assert!(matches!(first_pick(&make_graph(vec![])), FirstPick::NoStacks));
}

#[test]
fn resolve_single_bookmark_auto_select() {
    let graph = make_graph(vec![BranchStack { segments: vec![make_segment(&["only-bm"], "ch_a", &["the commit"])] }]);
    match first_pick(&graph) {
        FirstPick::Only { name, summary } => {
            assert_eq!(name, "only-bm");
            assert_eq!(summary, "the commit");
        }
        other => panic!("expected the only bookmark, got {other:?}"),
    }
}

#[test]
fn resolve_single_stack_goes_to_bookmarks() {
    let graph = make_graph(vec![BranchStack {
        segments: vec![make_segment(&["a"], "ch_a", &["x"]), make_segment(&["b"], "ch_b", &["y"])],
    }]);
    assert!(matches!(first_pick(&graph), FirstPick::Stack(0)));
}

#[test]
fn resolve_several_stacks_asks_for_one() {
    let graph = make_graph(vec![
        BranchStack { segments: vec![make_segment(&["a"], "ch_a", &["x"])] },
        BranchStack { segments: vec![make_segment(&["b"], "ch_b", &["y"])] },
    ]);
    match first_pick(&graph) {
        FirstPick::PickStack(rows) => assert_eq!(rows.len(), 2),
        other => panic!("expected a stack pick, got {other:?}"),
    }
}

#[test]
fn single_segment_stack_needs_no_question() {
    let one = BranchStack { segments: vec![make_segment(&[], "ch_a", &["x"])] };
    assert_eq!(only_bookmark(&one).as_deref(), Some("(unnamed)"));
    let two = BranchStack {
        segments: vec![make_segment(&["a"], "ch_a", &["x"]), make_segment(&["b"], "ch_b", &["y"])],
    };
    assert_eq!(only_bookmark(&two), None);
}
