//! Submission: the part of a stack to submit, the plan of what each pull
//! request needs, and the decisions of executing that plan.

use vstd::prelude::*;
use crate::text::{
    join,
    trim, trim_str, first_line, first_line_of, after_first_line, after_first_line_of, crlf_to_lf,
    crlf_to_lf_of,
};
use crate::vcs::{views, has_str};
use crate::graph::{
    BookmarkSegment, BranchStack, ChangeGraph, SegmentCommit, copy_segment,
    segment_views,
};
use crate::forge::{Comment, CreatePrParams, ForgeError, PullRequest, copy_pr, copy_forge_error};
use crate::comment::{StackCommentData, StackEntry, entry_views, decimal, decimal_string, find_stack_comment, is_managed};

verus! {

/// Errors of the submission pipeline.
#[derive(Debug)]
pub enum SubmitError {
    /// No stack holds the target bookmark.
    BookmarkNotFound { bookmark: String },
    /// A segment has no bookmark name.
    SegmentMissingBookmark,
    /// Looking up the pull request of a bookmark failed.
    PrLookupFailed { bookmark: String, source: ForgeError },
    /// Pushing a bookmark failed; `message` is the tool's report.
    PushFailed { bookmark: String, message: String },
    /// Changing the base of a pull request failed.
    BaseUpdateFailed { bookmark: String, source: ForgeError },
    /// Creating a pull request failed.
    PrCreateFailed { bookmark: String, source: ForgeError },
    /// Creating or updating the status comment of a pull request failed.
    CommentFailed { pr_number: u64, source: ForgeError },
}

/// The segments to submit: trunk to the target bookmark, inclusive.
#[derive(Debug)]
pub struct SubmissionAnalysis {
    pub segments: Vec<BookmarkSegment>,
    pub default_branch: String,
}

/// Whether `name` is one of the segment's bookmark names.
pub open spec fn names_has(seg: BookmarkSegment, name: Seq<char>) -> bool {
    views(seg.bookmark_names@).contains(name)
}

/// Whether some segment of the stack carries `name`.
pub open spec fn stack_has(st: BranchStack, name: Seq<char>) -> bool {
    exists|j: int| 0 <= j < st.segments@.len() && names_has(#[trigger] st.segments@[j], name)
}

/// Index of the first segment of `st` that carries `name`.
fn position_in(st: &BranchStack, name: &str) -> (r: Option<usize>)
    ensures
        match r {
            Some(j) => j < st.segments@.len() && names_has(st.segments@[j as int], name@)
                && forall|k: int| 0 <= k < j ==> !names_has(#[trigger] st.segments@[k], name@),
            None => !stack_has(*st, name@),
        },
{
    let mut j: usize = 0;
    while j < st.segments.len()
        invariant
            j <= st.segments.len(),
            forall|k: int| 0 <= k < j ==> !names_has(#[trigger] st.segments@[k], name@),
        decreases st.segments.len() - j,
    {
        if has_str(&st.segments[j].bookmark_names, name) {
            return Some(j);
        }
        j = j + 1;
    }
    None
}

/// The first stack holding `name` is `stacks[s]`, and its first segment
/// holding `name` is at `j`.
pub open spec fn first_holder(stacks: Seq<BranchStack>, name: Seq<char>, s: int, j: int) -> bool {
    &&& 0 <= s < stacks.len()
    &&& 0 <= j < stacks[s].segments@.len()
    &&& names_has(stacks[s].segments@[j], name)
    &&& forall|s2: int| 0 <= s2 < s ==> !stack_has(#[trigger] stacks[s2], name)
    &&& forall|j2: int| 0 <= j2 < j ==> !names_has(#[trigger] stacks[s].segments@[j2], name)
}

/// What analysing `name` against `stacks` yields: the first stack holding
/// it, cut after the segment holding it; or `BookmarkNotFound`.
pub open spec fn analysis_of(
    name: Seq<char>,
    stacks: Seq<BranchStack>,
    default_branch: Seq<char>,
    r: Result<SubmissionAnalysis, SubmitError>,
) -> bool {
    match r {
        Ok(a) => a.default_branch@ == default_branch && exists|s: int, j: int|
            first_holder(stacks, name, s, j) && segment_views(a.segments@) == segment_views(
                stacks[s].segments@,
            ).subrange(0, j + 1),
        Err(SubmitError::BookmarkNotFound { bookmark }) => bookmark@ == name && forall|s: int|
            0 <= s < stacks.len() ==> !stack_has(#[trigger] stacks[s], name),
        Err(_) => false,
    }
}

/// The segments from trunk to `target_bookmark` in the first stack that
/// holds it, or `BookmarkNotFound` when no stack does.
pub fn analyze_submission(
    target_bookmark: &str,
    change_graph: &ChangeGraph,
    default_branch: &str,
) -> (r: Result<SubmissionAnalysis, SubmitError>)
    ensures
        analysis_of(target_bookmark@, change_graph.stacks@, default_branch@, r),
{
    let stacks = &change_graph.stacks;
    let mut s: usize = 0;
    while s < stacks.len()
        invariant
            stacks@ == change_graph.stacks@,
            s <= stacks.len(),
            forall|s2: int| 0 <= s2 < s ==> !stack_has(#[trigger] stacks@[s2], target_bookmark@),
        decreases stacks.len() - s,
    {
        match position_in(&stacks[s], target_bookmark) {
            Some(j) => {
                let st = &stacks[s];
                let mut out: Vec<BookmarkSegment> = Vec::new();
                let mut k: usize = 0;
                while k <= j
                    invariant
                        j < st.segments.len(),
                        k <= j + 1,
                        s < stacks.len(),
                        stacks@ == change_graph.stacks@,
                        st == &stacks[s as int],
                        names_has(st.segments@[j as int], target_bookmark@),
                        forall|k2: int| 0 <= k2 < j ==> !names_has(#[trigger] st.segments@[k2], target_bookmark@),
                        forall|s2: int| 0 <= s2 < s ==> !stack_has(#[trigger] stacks@[s2], target_bookmark@),
                        segment_views(out@) == segment_views(st.segments@).subrange(0, k as int),
                    decreases j + 1 - k,
                {
                    assert(segment_views(out@).len() == k);
                    let seg = copy_segment(&st.segments[k]);
                    out.push(seg);
                    assert(segment_views(out@) =~= segment_views(st.segments@).subrange(
                        0,
                        k + 1,
                    ));
                    k = k + 1;
                }
                assert(segment_views(out@) == segment_views(stacks@[s as int].segments@).subrange(0, j + 1));
                let a = SubmissionAnalysis { segments: out, default_branch: default_branch.to_owned() };
                proof {
                    assert(first_holder(change_graph.stacks@, target_bookmark@, s as int, j as int));
                }
                return Ok(a);
            },
            None => {},
        }
        s = s + 1;
    }
    Err(SubmitError::BookmarkNotFound { bookmark: target_bookmark.to_owned() })
}

/// Separator between commit descriptions in a pull request body.
pub open spec fn body_sep() -> Seq<char> {
    seq!['\n', '\n', '-', '-', '-', '\n', '\n']
}

/// The trimmed, non-empty descriptions among `descs`, in order.
pub open spec fn kept_descriptions(descs: Seq<Seq<char>>) -> Seq<Seq<char>> {
    descs.map_values(|d: Seq<char>| trim(d)).filter(|d: Seq<char>| d.len() > 0)
}

/// The body of a pull request for commits with descriptions `descs`:
/// for one commit, what follows its title line; for several, all
/// descriptions joined by a `---` line; none when that is empty.
pub open spec fn pr_body(descs: Seq<Seq<char>>) -> Option<Seq<char>> {
    if descs.len() == 0 {
        None
    } else {
        let body = if descs.len() == 1 {
            trim(crlf_to_lf(after_first_line(trim(descs[0]))))
        } else {
            join(kept_descriptions(descs), body_sep())
        };
        if body.len() == 0 {
            None
        } else {
            Some(body)
        }
    }
}

/// The descriptions of a list of commits.
pub open spec fn descriptions(commits: Seq<SegmentCommit>) -> Seq<Seq<char>> {
    commits.map_values(|c: SegmentCommit| c.description@)
}

/// Builds the body of a pull request from the commits of its segment.
pub fn build_pr_body(commits: &Vec<SegmentCommit>) -> (r: Option<String>)
    ensures
        match r {
            Some(b) => pr_body(descriptions(commits@)) == Some(b@),
            None => pr_body(descriptions(commits@)) is None,
        },
{
    let ghost descs = descriptions(commits@);
    if commits.len() == 0 {
        return None;
    }
    let body = if commits.len() == 1 {
        let desc = trim_str(commits[0].description.as_str());
        let rest = after_first_line_of(desc.as_str());
        let unix = crlf_to_lf_of(rest.as_str());
        assert(descs[0] == commits@[0].description@);
        trim_str(unix.as_str())
    } else {
        let ghost kept_fn = |d: Seq<char>| d.len() > 0;
        let ghost trimmed = descs.map_values(|d: Seq<char>| trim(d));
        let mut out = String::new();
        let mut count: usize = 0;
        let mut i: usize = 0;
        while i < commits.len()
            invariant
                i <= commits.len(),
                descs == descriptions(commits@),
                trimmed == descs.map_values(|d: Seq<char>| trim(d)),
                out@ == join(trimmed.subrange(0, i as int).filter(|d: Seq<char>| d.len() > 0), body_sep()),
                count as nat == trimmed.subrange(0, i as int).filter(|d: Seq<char>| d.len() > 0).len(),
                count <= i,
            decreases commits.len() - i,
        {
            let d = trim_str(commits[i].description.as_str());
            let ghost pre = trimmed.subrange(0, i as int);
            let ghost kept = pre.filter(|d: Seq<char>| d.len() > 0);
            proof {
                assert(trimmed.subrange(0, i + 1) =~= pre.push(trimmed[i as int]));
                assert(trimmed[i as int] == d@);
                pre.lemma_filter_push(d@, |d: Seq<char>| d.len() > 0);
            }
            if d.unicode_len() > 0 {
                if count > 0 {
                    out.append("\n\n---\n\n");
                    proof {
                        reveal_strlit("\n\n---\n\n");
                    }
                }
                out.append(d.as_str());
                proof {
                    let k2 = kept.push(d@);
                    assert(k2.drop_last() =~= kept);
                    if kept.len() == 0 {
                        assert(join(k2, body_sep()) == k2[0]);
                    }
                }
                count = count + 1;
            }
            i = i + 1;
        }
        assert(trimmed.subrange(0, commits.len() as int) =~= trimmed);
        out
    };
    if body.unicode_len() == 0 {
        None
    } else {
        Some(body)
    }
}

/// One bookmark's planned actions.
#[derive(Debug)]
pub struct BookmarkPlan {
    pub bookmark_name: String,
    pub base: String,
    pub title: String,
    pub body: Option<String>,
    pub existing_pr: Option<PullRequest>,
    pub needs_push: bool,
    pub needs_create: bool,
    pub needs_base_update: bool,
}

/// The plan of a submission, trunk to leaf.
#[derive(Debug)]
pub struct SubmissionPlan {
    pub bookmark_plans: Vec<BookmarkPlan>,
    pub remote: String,
    pub draft: bool,
}

/// Whether every segment has a bookmark name.
pub open spec fn all_named(segs: Seq<BookmarkSegment>) -> bool {
    forall|i: int| 0 <= i < segs.len() ==> (#[trigger] segs[i]).bookmark_names@.len() > 0
}

/// The primary bookmark name of a segment: its first.
pub open spec fn primary_name(seg: BookmarkSegment) -> Seq<char> {
    seg.bookmark_names@[0]@
}

/// The bookmark names to look pull requests up for, one per segment;
/// `SegmentMissingBookmark` when a segment has none.
pub fn plan_lookup_names(analysis: &SubmissionAnalysis) -> (r: Result<Vec<String>, SubmitError>)
    ensures
        all_named(analysis.segments@) <==> r is Ok,
        r is Err ==> r matches Err(SubmitError::SegmentMissingBookmark),
        r matches Ok(names) ==> names@.len() == analysis.segments@.len() && forall|i: int|
            0 <= i < names@.len() ==> (#[trigger] names@[i])@ == primary_name(
                analysis.segments@[i],
            ),
{
    let mut names: Vec<String> = Vec::new();
    let mut i: usize = 0;
    while i < analysis.segments.len()
        invariant
            i <= analysis.segments.len(),
            names@.len() == i,
            forall|k: int| 0 <= k < i ==> (#[trigger] names@[k])@ == primary_name(analysis.segments@[k]),
            forall|k: int| 0 <= k < i ==> (#[trigger] analysis.segments@[k]).bookmark_names@.len() > 0,
        decreases analysis.segments.len() - i,
    {
        if analysis.segments[i].bookmark_names.len() == 0 {
            return Err(SubmitError::SegmentMissingBookmark);
        }
        names.push(analysis.segments[i].bookmark_names[0].clone());
        i = i + 1;
    }
    Ok(names)
}

/// The base branch of the `i`-th pull request: the default branch for the
/// first, else the previous segment's primary bookmark.
pub open spec fn base_for(a: SubmissionAnalysis, i: int) -> Seq<char> {
    if i == 0 {
        a.default_branch@
    } else {
        primary_name(a.segments@[i - 1])
    }
}

/// The title of a segment's pull request: the first line of its first
/// commit's description, or the bookmark name when that is empty.
pub open spec fn title_for(seg: BookmarkSegment) -> Seq<char> {
    if seg.commits@.len() > 0 && first_line(seg.commits@[0].description@).len() > 0 {
        first_line(seg.commits@[0].description@)
    } else {
        primary_name(seg)
    }
}

/// The entry `bp` is what the plan owes the `i`-th segment, given what the
/// forge reported for its bookmark.
pub open spec fn entry_of(
    a: SubmissionAnalysis,
    i: int,
    found: Option<PullRequest>,
    bp: BookmarkPlan,
) -> bool {
    let seg = a.segments@[i];
    &&& bp.bookmark_name@ == primary_name(seg)
    &&& bp.base@ == base_for(a, i)
    &&& bp.title@ == title_for(seg)
    &&& match bp.body {
        Some(b) => pr_body(descriptions(seg.commits@)) == Some(b@),
        None => pr_body(descriptions(seg.commits@)) is None,
    }
    &&& match (bp.existing_pr, found) {
        (Some(p), Some(q)) => p@ == q@,
        (None, None) => true,
        _ => false,
    }
    &&& bp.needs_push
    &&& bp.needs_create == found is None
    &&& bp.needs_base_update == (found matches Some(q) && q.base_ref@ != base_for(a, i))
}

/// Index of the first failed lookup, if any.
pub open spec fn first_failed(lookups: Seq<Result<Option<PullRequest>, ForgeError>>, i: int) -> bool {
    &&& 0 <= i < lookups.len()
    &&& lookups[i] is Err
    &&& forall|k: int| 0 <= k < i ==> (#[trigger] lookups[k]) is Ok
}

/// `r` reports the failed lookup of the `i`-th segment's bookmark.
pub open spec fn lookup_failure(
    a: SubmissionAnalysis,
    lookups: Seq<Result<Option<PullRequest>, ForgeError>>,
    i: int,
    r: Result<SubmissionPlan, SubmitError>,
) -> bool {
    match r {
        Err(SubmitError::PrLookupFailed { bookmark, source }) => bookmark@ == primary_name(
            a.segments@[i],
        ) && lookups[i] == Err::<Option<PullRequest>, ForgeError>(source),
        _ => false,
    }
}

/// What planning yields from an analysis and the forge's answers for each
/// segment's bookmark.
pub open spec fn plan_of(
    a: SubmissionAnalysis,
    lookups: Seq<Result<Option<PullRequest>, ForgeError>>,
    remote: Seq<char>,
    draft: bool,
    r: Result<SubmissionPlan, SubmitError>,
) -> bool {
    if !all_named(a.segments@) {
        r matches Err(SubmitError::SegmentMissingBookmark)
    } else if exists|i: int| 0 <= i < lookups.len() && (#[trigger] lookups[i]) is Err {
        exists|i: int| first_failed(lookups, i) && #[trigger] lookup_failure(a, lookups, i, r)
    } else {
        r matches Ok(p) && p.remote@ == remote && p.draft == draft && p.bookmark_plans@.len()
            == a.segments@.len() && forall|i: int|
            0 <= i < p.bookmark_plans@.len() ==> entry_of(
                a,
                i,
                (#[trigger] lookups[i])->Ok_0,
                p.bookmark_plans@[i],
            )
    }
}

/// The title of a segment's pull request.
fn title_of(seg: &BookmarkSegment, name: &String) -> (r: String)
    requires
        seg.bookmark_names@.len() > 0,
        name@ == primary_name(*seg),
    ensures
        r@ == title_for(*seg),
{
    if seg.commits.len() > 0 {
        let t = first_line_of(seg.commits[0].description.as_str());
        if t.unicode_len() > 0 {
            return t;
        }
    }
    name.clone()
}

/// Plans each segment's pull request from what the forge reported for its
/// bookmark (`lookups`, one per segment, in order): the base, title and
/// body it should have, and whether it must be created or rebased. The
/// first failed lookup fails the plan.
pub fn plan_submission(
    analysis: &SubmissionAnalysis,
    lookups: Vec<Result<Option<PullRequest>, ForgeError>>,
    remote: &str,
    draft: bool,
) -> (r: Result<SubmissionPlan, SubmitError>)
    requires
        lookups@.len() == analysis.segments@.len(),
    ensures
        plan_of(*analysis, lookups@, remote@, draft, r),
{
    let names = match plan_lookup_names(analysis) {
        Ok(n) => n,
        Err(e) => {
            return Err(e);
        },
    };
    let n = analysis.segments.len();
    // The first failed lookup fails the whole plan.
    let mut i: usize = 0;
    while i < n
        invariant
            i <= n,
            n == lookups@.len(),
            n == analysis.segments@.len(),
            names@.len() == n,
            forall|k: int| 0 <= k < n ==> (#[trigger] names@[k])@ == primary_name(analysis.segments@[k]),
            all_named(analysis.segments@),
            forall|k: int| 0 <= k < i ==> (#[trigger] lookups@[k]) is Ok,
        decreases n - i,
    {
        match &lookups[i] {
            Err(e) => {
                let source = copy_forge_error(e);
                let r = Err(SubmitError::PrLookupFailed { bookmark: names[i].clone(), source: source });
                proof {
                    assert(first_failed(lookups@, i as int));
                    assert(lookup_failure(*analysis, lookups@, i as int, r));
                }
                return r;
            },
            Ok(_) => {},
        }
        i = i + 1;
    }
    let mut plans: Vec<BookmarkPlan> = Vec::new();
    let mut i: usize = 0;
    while i < n
        invariant
            i <= n,
            n == lookups@.len(),
            n == analysis.segments@.len(),
            names@.len() == n,
            forall|k: int| 0 <= k < n ==> (#[trigger] names@[k])@ == primary_name(analysis.segments@[k]),
            all_named(analysis.segments@),
            forall|k: int| 0 <= k < n ==> (#[trigger] lookups@[k]) is Ok,
            plans@.len() == i,
            forall|k: int| 0 <= k < i ==> entry_of(*analysis, k, (#[trigger] lookups@[k])->Ok_0, plans@[k]),
        decreases n - i,
    {
        let seg = &analysis.segments[i];
        let name = names[i].clone();
        let base = if i == 0 {
            analysis.default_branch.clone()
        } else {
            names[i - 1].clone()
        };
        let title = title_of(seg, &names[i]);
        let existing = match &lookups[i] {
            Ok(Some(pr)) => Some(copy_pr(pr)),
            _ => None,
        };
        let needs_base_update = match &existing {
            Some(pr) => pr.base_ref != base,
            None => false,
        };
        let needs_create = existing.is_none();
        let body = build_pr_body(&seg.commits);
        let bp = BookmarkPlan {
            bookmark_name: name,
            base,
            title,
            body,
            existing_pr: existing,
            needs_push: true,
            needs_create,
            needs_base_update,
        };
        proof {
            assert(entry_of(*analysis, i as int, lookups@[i as int]->Ok_0, bp));
        }
        plans.push(bp);
        i = i + 1;
    }
    Ok(SubmissionPlan { bookmark_plans: plans, remote: remote.to_owned(), draft })
}

/// Re-planning leaves alone what is already right: when the forge reports,
/// for the `i`-th bookmark, a pull request whose base is the one the plan
/// computes, the plan neither creates it nor rebases it.
pub proof fn lemma_replan_keeps_correct_pr(
    a: SubmissionAnalysis,
    lookups: Seq<Result<Option<PullRequest>, ForgeError>>,
    remote: Seq<char>,
    draft: bool,
    r: Result<SubmissionPlan, SubmitError>,
    i: int,
)
    requires
        plan_of(a, lookups, remote, draft, r),
        r is Ok,
        lookups.len() == a.segments@.len(),
        0 <= i < lookups.len(),
        lookups[i] matches Ok(Some(pr)) && pr.base_ref@ == base_for(a, i),
    ensures
        r matches Ok(p) && !p.bookmark_plans@[i].needs_create && !p.bookmark_plans@[i].needs_base_update,
{
    if !all_named(a.segments@) {
    } else if exists|k: int| 0 <= k < lookups.len() && (#[trigger] lookups[k]) is Err {
        let k = choose|k: int| first_failed(lookups, k) && #[trigger] lookup_failure(a, lookups, k, r);
    } else {
        let p = r->Ok_0;
        assert(entry_of(a, i, lookups[i]->Ok_0, p.bookmark_plans@[i]));
    }
}

/// The listing of one plan entry.
pub open spec fn plan_entry_text(bp: BookmarkPlan, remote: Seq<char>) -> Seq<char> {
    "  "@ + bp.bookmark_name@ + " (base: "@ + bp.base@ + ")\n"@ + (if bp.needs_push {
        "    - push bookmark to "@ + remote + "\n"@
    } else {
        Seq::empty()
    }) + (if bp.needs_create {
        "    - create PR: \""@ + bp.title@ + "\"\n"@
    } else {
        Seq::empty()
    }) + (match bp.existing_pr {
        Some(pr) => if bp.needs_base_update {
            "    - update PR #"@ + decimal(pr.number as nat) + " base: "@ + pr.base_ref@ + " -> "@
                + bp.base@ + "\n"@
        } else {
            Seq::empty()
        },
        None => Seq::empty(),
    }) + (match bp.existing_pr {
        Some(pr) => if !bp.needs_create && !bp.needs_base_update {
            "    - PR #"@ + decimal(pr.number as nat) + " up to date\n"@
        } else {
            Seq::empty()
        },
        None => Seq::empty(),
    })
}

/// The listing of the first `n` plan entries.
pub open spec fn plan_entries_text(v: Seq<BookmarkPlan>, remote: Seq<char>, n: nat) -> Seq<char>
    decreases n,
{
    if n == 0 {
        Seq::empty()
    } else {
        plan_entries_text(v, remote, (n - 1) as nat) + plan_entry_text(v[n - 1], remote)
    }
}

/// The listing of a plan, as a dry run shows it.
pub open spec fn plan_text(p: SubmissionPlan) -> Seq<char> {
    "Submission plan ("@ + decimal(p.bookmark_plans@.len()) + " bookmark(s), remote: "@ + p.remote@
        + (if p.draft {
        ", draft"@
    } else {
        Seq::empty()
    }) + "):\n"@ + plan_entries_text(p.bookmark_plans@, p.remote@, p.bookmark_plans@.len())
}

#[verifier::rlimit(40)]
fn plan_entry_string(bp: &BookmarkPlan, remote: &str) -> (r: String)
    ensures
        r@ == plan_entry_text(*bp, remote@),
{
    let mut out = String::from_str("  ");
    out.append(bp.bookmark_name.as_str());
    out.append(" (base: ");
    out.append(bp.base.as_str());
    out.append(")\n");
    let ghost after_head = out@;
    assert(after_head =~= "  "@ + bp.bookmark_name@ + " (base: "@ + bp.base@ + ")\n"@);
    if bp.needs_push {
        out.append("    - push bookmark to ");
        out.append(remote);
        out.append("\n");
    }
    let ghost after_push = out@;
    assert(after_push =~= after_head + (if bp.needs_push {
        "    - push bookmark to "@ + remote@ + "\n"@
    } else {
        Seq::empty()
    }));
    if bp.needs_create {
        out.append("    - create PR: \"");
        out.append(bp.title.as_str());
        out.append("\"\n");
    }
    let ghost after_create = out@;
    assert(after_create =~= after_push + (if bp.needs_create {
        "    - create PR: \""@ + bp.title@ + "\"\n"@
    } else {
        Seq::empty()
    }));
    match &bp.existing_pr {
        Some(pr) => {
            if bp.needs_base_update {
                out.append("    - update PR #");
                out.append(decimal_string(pr.number).as_str());
                out.append(" base: ");
                out.append(pr.base_ref.as_str());
                out.append(" -> ");
                out.append(bp.base.as_str());
                out.append("\n");
            }
            let ghost after_update = out@;
            assert(after_update =~= after_create + (if bp.needs_base_update {
                "    - update PR #"@ + decimal(pr.number as nat) + " base: "@ + pr.base_ref@ + " -> "@
                    + bp.base@ + "\n"@
            } else {
                Seq::empty()
            }));
            if !bp.needs_create && !bp.needs_base_update {
                out.append("    - PR #");
                out.append(decimal_string(pr.number).as_str());
                out.append(" up to date\n");
            }
            assert(out@ =~= after_update + (if !bp.needs_create && !bp.needs_base_update {
                "    - PR #"@ + decimal(pr.number as nat) + " up to date\n"@
            } else {
                Seq::empty()
            }));
        },
        None => {},
    }
    assert(out@ =~= plan_entry_text(*bp, remote@));
    out
}

impl SubmissionPlan {
    /// The plan's listing: a header, then each bookmark with its base and
    /// the actions it needs.
    pub fn to_string(&self) -> (r: String)
        ensures
            r@ == plan_text(*self),
    {
        let mut out = String::from_str("Submission plan (");
        out.append(decimal_string(self.bookmark_plans.len() as u64).as_str());
        out.append(" bookmark(s), remote: ");
        out.append(self.remote.as_str());
        if self.draft {
            out.append(", draft");
        }
        out.append("):\n");
        let ghost head = out@;
        let mut i: usize = 0;
        while i < self.bookmark_plans.len()
            invariant
                i <= self.bookmark_plans@.len(),
                out@ == head + plan_entries_text(self.bookmark_plans@, self.remote@, i as nat),
            decreases self.bookmark_plans@.len() - i,
        {
            out.append(plan_entry_string(&self.bookmark_plans[i], self.remote.as_str()).as_str());
            assert(out@ =~= head + plan_entries_text(self.bookmark_plans@, self.remote@, (i + 1) as nat));
            i = i + 1;
        }
        assert(out@ =~= plan_text(*self));
        out
    }
}

/// What the executor did: one entry per submitted bookmark, trunk first.
#[derive(Debug)]
pub struct SubmissionResult {
    pub stack_entries: Vec<StackEntry>,
}

/// A base change to make: bookmark, pull request number, new base.
pub type BaseUpdate = (String, u64, String);

/// The base changes a plan needs, in plan order: one per entry that needs
/// its base updated and has an existing pull request.
pub open spec fn base_updates_of(v: Seq<BookmarkPlan>, n: nat) -> Seq<(Seq<char>, u64, Seq<char>)>
    decreases n,
{
    if n == 0 {
        Seq::empty()
    } else {
        let r = base_updates_of(v, (n - 1) as nat);
        let bp = v[n - 1];
        match bp.existing_pr {
            Some(pr) => if bp.needs_base_update {
                r.push((bp.bookmark_name@, pr.number, bp.base@))
            } else {
                r
            },
            None => r,
        }
    }
}

/// Computes the base changes of a plan.
pub fn base_updates(plan: &SubmissionPlan) -> (r: Vec<BaseUpdate>)
    ensures
        r@.map_values(|u: BaseUpdate| (u.0@, u.1, u.2@)) == base_updates_of(
            plan.bookmark_plans@,
            plan.bookmark_plans@.len(),
        ),
{
    let mut out: Vec<BaseUpdate> = Vec::new();
    let mut i: usize = 0;
    while i < plan.bookmark_plans.len()
        invariant
            i <= plan.bookmark_plans@.len(),
            out@.map_values(|u: BaseUpdate| (u.0@, u.1, u.2@)) == base_updates_of(
                plan.bookmark_plans@,
                i as nat,
            ),
        decreases plan.bookmark_plans@.len() - i,
    {
        let bp = &plan.bookmark_plans[i];
        if bp.needs_base_update {
            match &bp.existing_pr {
                Some(pr) => {
                    let ghost before = out@.map_values(|u: BaseUpdate| (u.0@, u.1, u.2@));
                    out.push((bp.bookmark_name.clone(), pr.number, bp.base.clone()));
                    assert(out@.map_values(|u: BaseUpdate| (u.0@, u.1, u.2@)) =~= before.push(
                        (bp.bookmark_name@, pr.number, bp.base@),
                    ));
                },
                None => {},
            }
        }
        i = i + 1;
    }
    out
}

/// The parameters to create the pull request of a plan entry that has none
/// yet; `None` when it already exists.
pub fn create_params(bp: &BookmarkPlan, draft: bool) -> (r: Option<CreatePrParams>)
    ensures
        bp.existing_pr is Some <==> r is None,
        r matches Some(p) ==> p.title@ == bp.title@ && p.head@ == bp.bookmark_name@ && p.base@
            == bp.base@ && p.draft == draft && match (p.body, bp.body) {
            (Some(a), Some(b)) => a@ == b@,
            (None, None) => true,
            _ => false,
        },
{
    if bp.existing_pr.is_some() {
        return None;
    }
    let body = match &bp.body {
        Some(b) => Some(b.clone()),
        None => None,
    };
    Some(
        CreatePrParams {
            title: bp.title.clone(),
            head: bp.bookmark_name.clone(),
            base: bp.base.clone(),
            body,
            draft,
        },
    )
}

/// The stack entry of a plan entry, from its pull request.
pub fn stack_entry_for(bp: &BookmarkPlan, pr: &PullRequest) -> (r: StackEntry)
    ensures
        r@ == (bp.bookmark_name@, pr.html_url@, pr.number),
{
    StackEntry { bookmark_name: bp.bookmark_name.clone(), pr_url: pr.html_url.clone(), pr_number: pr.number }
}

/// What to do with a pull request's status comment.
#[derive(Debug, PartialEq, Eq, Structural)]
pub enum CommentAction {
    /// Update the managed comment with this id.
    Update(u64),
    /// No managed comment: create one.
    Create,
}

/// Update the first managed comment among `comments`, or create one.
pub fn comment_action(comments: &Vec<Comment>) -> (r: CommentAction)
    ensures
        match r {
            CommentAction::Update(id) => exists|i: int|
                0 <= i < comments@.len() && comments@[i].id == id && is_managed(comments@[i])
                    && forall|k: int| 0 <= k < i ==> !is_managed(#[trigger] comments@[k]),
            CommentAction::Create => forall|k: int|
                0 <= k < comments@.len() ==> !is_managed(#[trigger] comments@[k]),
        },
{
    match find_stack_comment(comments) {
        Some(c) => CommentAction::Update(c.id),
        None => CommentAction::Create,
    }
}

/// The first error of a batch whose members all ran, in the batch's
/// order; `Ok` when none failed.
pub fn first_error(results: Vec<Result<(), SubmitError>>) -> (r: Result<(), SubmitError>)
    ensures
        r is Ok <==> forall|k: int| 0 <= k < results@.len() ==> (#[trigger] results@[k]) is Ok,
        r is Err ==> exists|i: int|
            0 <= i < results@.len() && results@[i] == r && forall|k: int|
                0 <= k < i ==> (#[trigger] results@[k]) is Ok,
{
    let ghost all = results@;
    let mut rest = results;
    let n = rest.len();
    let mut i: usize = 0;
    while i < n
        invariant
            n == all.len(),
            all == results@,
            i <= n,
            rest@ == all.subrange(i as int, n as int),
            forall|k: int| 0 <= k < i ==> (#[trigger] all[k]) is Ok,
        decreases n - i,
    {
        assert(rest@[0] == all[i as int]);
        let x = rest.remove(0);
        match x {
            Err(e) => {
                assert(all[i as int] == Err::<(), SubmitError>(e));
                return Err(e);
            },
            Ok(()) => {},
        }
        assert(rest@ =~= all.subrange(i + 1, n as int));
        i = i + 1;
    }
    Ok(())
}

/// The bookmarks of a plan's entries that need pushing, trunk to leaf.
pub open spec fn pushes_of(v: Seq<BookmarkPlan>, n: nat) -> Seq<Seq<char>>
    decreases n,
{
    if n == 0 {
        Seq::empty()
    } else if v[n - 1].needs_push {
        pushes_of(v, (n - 1) as nat).push(v[n - 1].bookmark_name@)
    } else {
        pushes_of(v, (n - 1) as nat)
    }
}

/// The bookmarks to push, in order: those of the entries that need it,
/// trunk to leaf. The pushes run one after another and the first failure
/// stops the submission.
pub fn pushes(plan: &SubmissionPlan) -> (r: Vec<String>)
    ensures
        views(r@) == pushes_of(plan.bookmark_plans@, plan.bookmark_plans@.len()),
{
    let mut out: Vec<String> = Vec::new();
    let mut i: usize = 0;
    while i < plan.bookmark_plans.len()
        invariant
            i <= plan.bookmark_plans@.len(),
            views(out@) == pushes_of(plan.bookmark_plans@, i as nat),
        decreases plan.bookmark_plans@.len() - i,
    {
        let bp = &plan.bookmark_plans[i];
        if bp.needs_push {
            let ghost before = views(out@);
            out.push(bp.bookmark_name.clone());
            assert(views(out@) =~= before.push(bp.bookmark_name@));
        }
        i = i + 1;
    }
    out
}

/// The data recorded in every status comment of a submission: format
/// version 0 and the submitted entries, trunk to leaf.
pub fn comment_data(entries: &Vec<StackEntry>) -> (r: StackCommentData)
    ensures
        r.version == 0,
        entry_views(r.stack@) == entry_views(entries@),
{
    let mut stack: Vec<StackEntry> = Vec::new();
    let mut i: usize = 0;
    while i < entries.len()
        invariant
            i <= entries@.len(),
            entry_views(stack@) == entry_views(entries@).subrange(0, i as int),
        decreases entries@.len() - i,
    {
        let e = &entries[i];
        let ghost before = entry_views(stack@);
        assert(before.len() == i);
        assert(stack@.len() == i);
        stack.push(StackEntry { bookmark_name: e.bookmark_name.clone(), pr_url: e.pr_url.clone(), pr_number: e.pr_number });
        assert(entry_views(stack@)[i as int] == e@);
        assert(entry_views(stack@) =~= entry_views(entries@).subrange(0, i + 1));
        i = i + 1;
    }
    assert(entry_views(entries@).subrange(0, entries@.len() as int) =~= entry_views(entries@));
    StackCommentData { version: 0, stack }
}

} // verus!
