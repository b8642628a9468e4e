use stakk::forge::{Comment, ForgeError, PrState, PullRequest};
use stakk::graph::{BookmarkSegment, BranchStack, ChangeGraph, SegmentCommit};
use stakk::submit::{
    analyze_submission, base_updates, comment_data, pushes, build_pr_body, comment_action, create_params, first_error,
    plan_lookup_names, plan_submission, stack_entry_for, BookmarkPlan, CommentAction,
    SubmissionAnalysis, SubmissionPlan, SubmitError,
};

fn make_segment(names: &[&str], change_id: &str, desc: &str) -> BookmarkSegment {
    BookmarkSegment {
        bookmark_names: names.iter().map(|s| s.to_string()).collect(),
        change_id: change_id.to_string(),
        commits: vec![SegmentCommit {
            commit_id: format!("c_{change_id}"),
            change_id: change_id.to_string(),
            description: desc.to_string(),
            author_name: "Test".to_string(),
        }],
    }
}

fn make_graph(stacks: Vec<BranchStack>) -> ChangeGraph {
    ChangeGraph {
        adjacency_list: vec![],
        stack_leaves: vec![],
        stack_roots: vec![],
        segments: vec![],
        tainted_change_ids: vec![],
        excluded_bookmark_count: 0,
        stacks,
    }
}

fn make_pr(number: u64, head: &str, base: &str) -> PullRequest {
    PullRequest {
        number,
        html_url: format!("https://github.com/test/repo/pull/{number}"),
        title: format!("PR for {head}"),
        head_ref: head.to_string(),
        base_ref: base.to_string(),
        state: PrState::Open,
    }
}

fn plan_entry(name: &str, base: &str, title: &str, existing: Option<PullRequest>) -> BookmarkPlan {
    let needs_create = existing.is_none();
    let needs_base_update = existing.as_ref().is_some_and(|p| p.base_ref != base);
    BookmarkPlan {
        bookmark_name: name.to_string(),
        base: base.to_string(),
        title: title.to_string(),
        body: None,
        existing_pr: existing,
        needs_push: true,
        needs_create,
        needs_base_update,
    }
}

/// Plans against a forge that knows the pull requests in `existing`.
fn plan_with(analysis: &SubmissionAnalysis, existing: &[(&str, PullRequest)]) -> SubmissionPlan {
    let names = plan_lookup_names(analysis).unwrap();
    let lookups = names
        .iter()
        .map(|n| Ok(existing.iter().find(|(h, _)| h == n).map(|(_, p)| p.clone())))
        .collect();
    plan_submission(analysis, lookups, "origin", false).unwrap()
}

#[test]
fn analyze_single_bookmark() {
    let seg = make_segment(&["feat-a"], "ch_a", "add feature a");
    let graph = make_graph(vec![BranchStack { segments: vec![seg] }]);
    let result = analyze_submission("feat-a", &graph, "main").unwrap();
    assert_eq!(result.segments.len(), 1);
    assert_eq!(result.segments[0].bookmark_names, vec!["feat-a"]);
    assert_eq!(result.default_branch, "main");
}

#[test]
fn analyze_middle_of_stack() {
    let graph = make_graph(vec![BranchStack {
        segments: vec![
            make_segment(&["feat-a"], "ch_a", "feature a"),
            make_segment(&["feat-b"], "ch_b", "feature b"),
            make_segment(&["feat-c"], "ch_c", "feature c"),
        ],
    }]);
    let result = analyze_submission("feat-b", &graph, "main").unwrap();
    assert_eq!(result.segments.len(), 2);
    assert_eq!(result.segments[0].bookmark_names, vec!["feat-a"]);
    assert_eq!(result.segments[1].bookmark_names, vec!["feat-b"]);
}

#[test]
fn analyze_leaf_of_stack() {
    let graph = make_graph(vec![BranchStack {
        segments: vec![
            make_segment(&["feat-a"], "ch_a", "feature a"),
            make_segment(&["feat-b"], "ch_b", "feature b"),
        ],
    }]);
    let result = analyze_submission("feat-b", &graph, "main").unwrap();
    assert_eq!(result.segments.len(), 2);
}

#[test]
fn analyze_bookmark_not_found() {
    let graph = make_graph(vec![BranchStack { segments: vec![make_segment(&["feat-a"], "ch_a", "feature a")] }]);
    let result = analyze_submission("nonexistent", &graph, "main");
    match result {
        Err(SubmitError::BookmarkNotFound { bookmark }) => assert!(bookmark.contains("nonexistent")),
        other => panic!("expected BookmarkNotFound, got {other:?}"),
    }
}

#[test]
fn analyze_multiple_stacks_finds_correct_one() {
    let graph = make_graph(vec![
        BranchStack { segments: vec![make_segment(&["alpha"], "ch_alpha", "alpha")] },
        BranchStack {
            segments: vec![make_segment(&["beta"], "ch_beta", "beta"), make_segment(&["gamma"], "ch_gamma", "gamma")],
        },
    ]);
    let result = analyze_submission("gamma", &graph, "main").unwrap();
    assert_eq!(result.segments.len(), 2);
    assert_eq!(result.segments[0].bookmark_names, vec!["beta"]);
    assert_eq!(result.segments[1].bookmark_names, vec!["gamma"]);
}

fn two_segments() -> SubmissionAnalysis {
    SubmissionAnalysis {
        segments: vec![
            make_segment(&["feat-a"], "ch_a", "feature a"),
            make_segment(&["feat-b"], "ch_b", "feature b"),
        ],
        default_branch: "main".to_string(),
    }
}

#[test]
fn plan_all_new_prs() {
    let plan = plan_with(&two_segments(), &[]);
    assert_eq!(plan.bookmark_plans.len(), 2);
    assert!(plan.bookmark_plans[0].needs_create);
    assert!(!plan.bookmark_plans[0].needs_base_update);
    assert_eq!(plan.bookmark_plans[0].base, "main");
    assert!(plan.bookmark_plans[1].needs_create);
    assert!(!plan.bookmark_plans[1].needs_base_update);
    assert_eq!(plan.bookmark_plans[1].base, "feat-a");
    assert_eq!(plan.bookmark_plans[0].title, "feature a");
}

#[test]
fn plan_existing_pr_correct_base() {
    let analysis = SubmissionAnalysis {
        segments: vec![make_segment(&["feat-a"], "ch_a", "feature a")],
        default_branch: "main".to_string(),
    };
    let plan = plan_with(&analysis, &[("feat-a", make_pr(42, "feat-a", "main"))]);
    assert!(!plan.bookmark_plans[0].needs_create);
    assert!(!plan.bookmark_plans[0].needs_base_update);
    assert_eq!(plan.bookmark_plans[0].existing_pr.as_ref().unwrap().number, 42);
}

#[test]
fn plan_existing_pr_wrong_base() {
    let plan = plan_with(
        &two_segments(),
        &[("feat-a", make_pr(10, "feat-a", "main")), ("feat-b", make_pr(11, "feat-b", "main"))],
    );
    assert!(!plan.bookmark_plans[0].needs_base_update);
    assert!(!plan.bookmark_plans[0].needs_create);
    assert!(plan.bookmark_plans[1].needs_base_update);
    assert_eq!(plan.bookmark_plans[1].base, "feat-a");
}

#[test]
fn plan_mixed_existing_and_new() {
    let plan = plan_with(&two_segments(), &[("feat-a", make_pr(10, "feat-a", "main"))]);
    assert!(!plan.bookmark_plans[0].needs_create);
    assert!(plan.bookmark_plans[1].needs_create);
}

#[test]
fn replan_after_submission_changes_nothing() {
    let plan = plan_with(
        &two_segments(),
        &[("feat-a", make_pr(10, "feat-a", "main")), ("feat-b", make_pr(11, "feat-b", "feat-a"))],
    );
    for bp in &plan.bookmark_plans {
        assert!(!bp.needs_create);
        assert!(!bp.needs_base_update);
        assert!(bp.needs_push);
    }
}

#[test]
fn plan_lookup_failure_fails_the_plan() {
    let analysis = two_segments();
    let lookups = vec![Ok(None), Err(ForgeError::Api { message: "boom".to_string() })];
    match plan_submission(&analysis, lookups, "origin", false) {
        Err(SubmitError::PrLookupFailed { bookmark, source }) => {
            assert_eq!(bookmark, "feat-b");
            assert!(matches!(source, ForgeError::Api { .. }));
        }
        other => panic!("expected PrLookupFailed, got {other:?}"),
    }
}

#[test]
fn plan_segment_without_bookmark() {
    let analysis = SubmissionAnalysis {
        segments: vec![make_segment(&[], "ch_a", "feature a")],
        default_branch: "main".to_string(),
    };
    assert!(matches!(plan_lookup_names(&analysis), Err(SubmitError::SegmentMissingBookmark)));
    assert!(matches!(
        plan_submission(&analysis, vec![Ok(None)], "origin", false),
        Err(SubmitError::SegmentMissingBookmark)
    ));
}

#[test]
fn plan_title_falls_back_to_bookmark() {
    let analysis = SubmissionAnalysis {
        segments: vec![BookmarkSegment {
            bookmark_names: vec!["feat-x".to_string()],
            change_id: "ch_x".to_string(),
            commits: vec![],
        }],
        default_branch: "main".to_string(),
    };
    let plan = plan_with(&analysis, &[]);
    assert_eq!(plan.bookmark_plans[0].title, "feat-x");
    assert_eq!(plan.bookmark_plans[0].body, None);
}

#[test]
fn plan_display_dry_run() {
    let plan = SubmissionPlan {
        bookmark_plans: vec![
            plan_entry("feat-a", "main", "feature a", None),
            BookmarkPlan {
                bookmark_name: "feat-b".to_string(),
                base: "feat-a".to_string(),
                title: "feature b".to_string(),
                body: None,
                existing_pr: Some(make_pr(42, "feat-b", "main")),
                needs_push: true,
                needs_create: false,
                needs_base_update: true,
            },
        ],
        remote: "origin".to_string(),
        draft: false,
    };
    let output = plan.to_string();
    assert!(output.contains("2 bookmark(s)"));
    assert!(output.contains("feat-a (base: main)"));
    assert!(output.contains("create PR: \"feature a\""));
    assert!(output.contains("push bookmark to origin"));
    assert!(output.contains("update PR #42 base: main -> feat-a"));
}

#[test]
fn plan_display_shows_draft() {
    let plan = SubmissionPlan {
        bookmark_plans: vec![plan_entry("feat-a", "main", "feature a", None)],
        remote: "origin".to_string(),
        draft: true,
    };
    let output = plan.to_string();
    assert!(output.contains("draft"), "expected 'draft' in plan display: {output}");
}

#[test]
fn plan_display_exact_text() {
    let plan = SubmissionPlan {
        bookmark_plans: vec![plan_entry("feat-a", "main", "feature a", Some(make_pr(7, "feat-a", "main")))],
        remote: "origin".to_string(),
        draft: false,
    };
    assert_eq!(
        plan.to_string(),
        "Submission plan (1 bookmark(s), remote: origin):\n  feat-a (base: main)\n    - push bookmark to origin\n    - PR #7 up to date\n"
    );
}

#[test]
fn execute_base_updates_only_where_needed() {
    let plan = SubmissionPlan {
        bookmark_plans: vec![
            plan_entry("feat-a", "develop", "feature a", Some(make_pr(42, "feat-a", "main"))),
            plan_entry("feat-b", "feat-a", "feature b", Some(make_pr(43, "feat-b", "feat-a"))),
            plan_entry("feat-c", "feat-b", "feature c", None),
        ],
        remote: "origin".to_string(),
        draft: false,
    };
    let updates = base_updates(&plan);
    assert_eq!(updates, vec![("feat-a".to_string(), 42, "develop".to_string())]);
}

#[test]
fn execute_create_params_reuse_existing() {
    let existing = plan_entry("feat-a", "main", "feature a", Some(make_pr(42, "feat-a", "main")));
    assert!(create_params(&existing, false).is_none());
    let mut new = plan_entry("feat-b", "feat-a", "feature b", None);
    new.body = Some("details".to_string());
    let params = create_params(&new, true).unwrap();
    assert_eq!(params.head, "feat-b");
    assert_eq!(params.base, "feat-a");
    assert_eq!(params.title, "feature b");
    assert_eq!(params.body.as_deref(), Some("details"));
    assert!(params.draft, "expected PR to be created as draft");
}

#[test]
fn execute_stack_entry_from_pr() {
    let bp = plan_entry("feat-a", "main", "feature a", None);
    let entry = stack_entry_for(&bp, &make_pr(100, "feat-a", "main"));
    assert_eq!(entry.bookmark_name, "feat-a");
    assert_eq!(entry.pr_number, 100);
    assert_eq!(entry.pr_url, "https://github.com/test/repo/pull/100");
}

#[test]
fn execute_comment_update_or_create() {
    let managed = stakk::comment::format_stack_comment(
        &stakk::comment::StackCommentData {
            version: 0,
            stack: vec![stakk::comment::StackEntry {
                bookmark_name: "old".to_string(),
                pr_url: "https://example.com/1".to_string(),
                pr_number: 1,
            }],
        },
        0,
    );
    let comments = vec![
        Comment { id: 5, body: "unrelated".to_string() },
        Comment { id: 999, body: managed },
    ];
    assert_eq!(comment_action(&comments), CommentAction::Update(999));
    assert_eq!(comment_action(&comments[..1].to_vec()), CommentAction::Create);
}

#[test]
fn execute_batch_reports_first_error() {
    let ok: Vec<Result<(), SubmitError>> = vec![Ok(()), Ok(())];
    assert!(first_error(ok).is_ok());
    let mixed = vec![
        Ok(()),
        Err(SubmitError::CommentFailed { pr_number: 2, source: ForgeError::PrNotFound { number: 2 } }),
        Err(SubmitError::CommentFailed { pr_number: 3, source: ForgeError::PrNotFound { number: 3 } }),
    ];
    match first_error(mixed) {
        Err(SubmitError::CommentFailed { pr_number, .. }) => assert_eq!(pr_number, 2),
        other => panic!("expected the first failure, got {other:?}"),
    }
}

fn commit(desc: &str) -> SegmentCommit {
    SegmentCommit {
        commit_id: "c1".to_string(),
        change_id: "ch1".to_string(),
        description: desc.to_string(),
        author_name: "Test".to_string(),
    }
}

#[test]
fn build_pr_body_single_commit_with_body() {
    let body = build_pr_body(&vec![commit("Add feature X\n\nThis adds feature X with foo and bar.")]);
    assert_eq!(body.as_deref(), Some("This adds feature X with foo and bar."));
}

#[test]
fn build_pr_body_single_commit_title_only() {
    let body = build_pr_body(&vec![commit("Add feature X")]);
    assert_eq!(body, None);
}

#[test]
fn build_pr_body_multiple_commits() {
    let commits = vec![
        SegmentCommit {
            commit_id: "c1".to_string(),
            change_id: "ch1".to_string(),
            description: "First commit".to_string(),
            author_name: "Test".to_string(),
        },
        SegmentCommit {
            commit_id: "c2".to_string(),
            change_id: "ch2".to_string(),
            description: "Second commit".to_string(),
            author_name: "Test".to_string(),
        },
    ];
    let body = build_pr_body(&commits);
    assert_eq!(body.as_deref(), Some("First commit\n\n---\n\nSecond commit"));
}

#[test]
fn build_pr_body_empty() {
    let body = build_pr_body(&vec![]);
    assert_eq!(body, None);
}

#[test]
fn build_pr_body_crlf_and_blank_descriptions() {
    let body = build_pr_body(&vec![commit("Title\r\n\r\nline one\r\nline two\r\n")]);
    assert_eq!(body.as_deref(), Some("line one\nline two"));
    let body = build_pr_body(&vec![commit("  "), commit(" only this \n")]);
    assert_eq!(body.as_deref(), Some("only this"));
    assert_eq!(build_pr_body(&vec![commit(""), commit("\n")]), None);
}

#[test]
fn execute_pushes_in_plan_order() {
    let mut skip = plan_entry("feat-b", "feat-a", "feature b", None);
    skip.needs_push = false;
    let plan = SubmissionPlan {
        bookmark_plans: vec![
            plan_entry("feat-a", "main", "feature a", None),
            skip,
            plan_entry("feat-c", "feat-b", "feature c", None),
        ],
        remote: "my-remote".to_string(),
        draft: false,
    };
    assert_eq!(pushes(&plan), vec!["feat-a", "feat-c"]);
}

#[test]
fn execute_comment_data_is_version_zero() {
    let bp = plan_entry("feat-a", "main", "feature a", None);
    let entries = vec![stack_entry_for(&bp, &make_pr(7, "feat-a", "main"))];
    let data = comment_data(&entries);
    assert_eq!(data.version, 0);
    assert_eq!(data.stack, entries);
}
