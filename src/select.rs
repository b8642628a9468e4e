//! Rows for picking a stack and then a bookmark within it: what each row
//! shows, computed from a read-only change graph.

use vstd::prelude::*;
use crate::text::{trim, trim_str, first_line, first_line_of, join, str_eq};
use crate::vcs::{views, join_strs};
use crate::graph::{BookmarkSegment, BranchStack, ChangeGraph, SegmentCommit};
use crate::comment::{decimal, decimal_string};

verus! {

/// A stack, shown as one row.
#[derive(Debug, Clone)]
pub struct StackChoice {
    /// Index into the graph's stacks.
    pub stack_index: usize,
    /// Primary bookmark names, trunk first.
    pub bookmark_names: Vec<String>,
    /// Commits over all segments (saturating).
    pub commit_count: usize,
    /// Segments shared with other stacks: the segment's name and the leaf
    /// names of those stacks.
    pub shared_with: Vec<(String, Vec<String>)>,
    /// Summary of the leaf segment's first commit.
    pub leaf_summary: String,
}

/// A bookmark within a stack, shown as one row.
#[derive(Debug, Clone)]
pub struct BookmarkChoice {
    pub bookmark_name: String,
    /// Position in the stack, 0 closest to trunk.
    pub segment_index: usize,
    /// Segments in the stack.
    pub stack_len: usize,
    /// Summary of each commit of the segment.
    pub commit_summaries: Vec<String>,
}

/// Name shown for a segment without a bookmark.
pub open spec fn unnamed() -> Seq<char> {
    "(unnamed)"@
}

/// Summary shown for a commit without a description.
pub open spec fn no_description() -> Seq<char> {
    "(no description)"@
}

/// A segment's shown name: its first bookmark name.
pub open spec fn shown_name(seg: BookmarkSegment) -> Seq<char> {
    if seg.bookmark_names@.len() > 0 {
        seg.bookmark_names@[0]@
    } else {
        unnamed()
    }
}

/// A commit's summary: its first line, trimmed, when that is not empty.
pub open spec fn summary(desc: Seq<char>) -> Seq<char> {
    if trim(first_line(desc)).len() > 0 {
        trim(first_line(desc))
    } else {
        no_description()
    }
}

fn shown_name_of(seg: &BookmarkSegment) -> (r: String)
    ensures
        r@ == shown_name(*seg),
{
    if seg.bookmark_names.len() > 0 {
        seg.bookmark_names[0].clone()
    } else {
        String::from_str("(unnamed)")
    }
}

fn summary_of(desc: &str) -> (r: String)
    ensures
        r@ == summary(desc@),
{
    let t = trim_str(first_line_of(desc).as_str());
    if t.unicode_len() > 0 {
        t
    } else {
        String::from_str("(no description)")
    }
}

/// The name of the leaf of a stack.
pub open spec fn leaf_name(st: BranchStack) -> Seq<char> {
    if st.segments@.len() > 0 {
        shown_name(st.segments@.last())
    } else {
        unnamed()
    }
}

/// The summary of a stack's leaf: its first commit's summary.
pub open spec fn leaf_summary_of(st: BranchStack) -> Seq<char> {
    if st.segments@.len() > 0 && st.segments@.last().commits@.len() > 0 {
        summary(st.segments@.last().commits@[0].description@)
    } else {
        no_description()
    }
}

/// Commits over the first `n` segments, saturating at `usize::MAX`.
pub open spec fn commit_total(segs: Seq<BookmarkSegment>, n: nat) -> nat
    decreases n,
{
    if n == 0 {
        0
    } else {
        let t = commit_total(segs, (n - 1) as nat) + segs[n - 1].commits@.len();
        if t > usize::MAX {
            usize::MAX as nat
        } else {
            t
        }
    }
}

/// Whether stack `st` has a segment on change `id`.
pub open spec fn stack_has_change(st: BranchStack, id: Seq<char>) -> bool {
    exists|k: int| 0 <= k < st.segments@.len() && (#[trigger] st.segments@[k]).change_id@ == id
}

/// Leaf names of the stacks among the first `n`, other than `me`, that
/// have a segment on `id`, in stack order.
pub open spec fn others_with(stacks: Seq<BranchStack>, me: int, id: Seq<char>, n: nat) -> Seq<Seq<char>>
    decreases n,
{
    if n == 0 {
        Seq::empty()
    } else {
        let r = others_with(stacks, me, id, (n - 1) as nat);
        if n - 1 != me && stack_has_change(stacks[n - 1], id) {
            r.push(leaf_name(stacks[n - 1]))
        } else {
            r
        }
    }
}

/// The shared segments among the first `n` of stack `me`.
pub open spec fn shared_of(stacks: Seq<BranchStack>, me: int, n: nat) -> Seq<(Seq<char>, Seq<Seq<char>>)>
    decreases n,
{
    if n == 0 {
        Seq::empty()
    } else {
        let r = shared_of(stacks, me, (n - 1) as nat);
        let seg = stacks[me].segments@[n - 1];
        let others = others_with(stacks, me, seg.change_id@, stacks.len());
        if others.len() > 0 {
            r.push((shown_name(seg), others))
        } else {
            r
        }
    }
}

/// The model of a list of shared segments.
pub open spec fn shared_views(v: Seq<(String, Vec<String>)>) -> Seq<(Seq<char>, Seq<Seq<char>>)> {
    v.map_values(|x: (String, Vec<String>)| (x.0@, views(x.1@)))
}

/// `c` is the row of stack `s` of `stacks`.
pub open spec fn stack_choice_of(stacks: Seq<BranchStack>, s: int, c: StackChoice) -> bool {
    let st = stacks[s];
    &&& c.stack_index == s
    &&& views(c.bookmark_names@) == st.segments@.map_values(|g: BookmarkSegment| shown_name(g))
    &&& c.commit_count == commit_total(st.segments@, st.segments@.len())
    &&& shared_views(c.shared_with@) == shared_of(stacks, s, st.segments@.len())
    &&& c.leaf_summary@ == leaf_summary_of(st)
}

fn stack_has_change_exec(st: &BranchStack, id: &str) -> (r: bool)
    ensures
        r == stack_has_change(*st, id@),
{
    let mut k: usize = 0;
    while k < st.segments.len()
        invariant
            k <= st.segments.len(),
            forall|j: int| 0 <= j < k ==> (#[trigger] st.segments@[j]).change_id@ != id@,
        decreases st.segments.len() - k,
    {
        if str_eq(st.segments[k].change_id.as_str(), id) {
            return true;
        }
        k = k + 1;
    }
    false
}

fn leaf_name_of(st: &BranchStack) -> (r: String)
    ensures
        r@ == leaf_name(*st),
{
    if st.segments.len() > 0 {
        shown_name_of(&st.segments[st.segments.len() - 1])
    } else {
        String::from_str("(unnamed)")
    }
}

fn stack_choice(stacks: &Vec<BranchStack>, s: usize) -> (r: StackChoice)
    requires
        s < stacks@.len(),
    ensures
        stack_choice_of(stacks@, s as int, r),
{
    let st = &stacks[s];
    let ghost segs = st.segments@;
    let mut names: Vec<String> = Vec::new();
    let mut count: usize = 0;
    let mut shared: Vec<(String, Vec<String>)> = Vec::new();
    let mut k: usize = 0;
    while k < st.segments.len()
        invariant
            s < stacks@.len(),
            st == &stacks@[s as int],
            segs == st.segments@,
            k <= segs.len(),
            names@.len() == k,
            forall|j: int| 0 <= j < k ==> (#[trigger] names@[j])@ == shown_name(segs[j]),
            count == commit_total(segs, k as nat),
            shared_views(shared@) == shared_of(stacks@, s as int, k as nat),
        decreases segs.len() - k,
    {
        let seg = &st.segments[k];
        let name = shown_name_of(seg);
        names.push(name.clone());
        count = count.saturating_add(seg.commits.len());
        let mut others: Vec<String> = Vec::new();
        let mut i: usize = 0;
        while i < stacks.len()
            invariant
                s < stacks@.len(),
                k < segs.len(),
                seg == &segs[k as int],
                i <= stacks@.len(),
                views(others@) == others_with(stacks@, s as int, seg.change_id@, i as nat),
            decreases stacks@.len() - i,
        {
            if i != s && stack_has_change_exec(&stacks[i], seg.change_id.as_str()) {
                let l = leaf_name_of(&stacks[i]);
                let ghost before = views(others@);
                others.push(l);
                assert(views(others@) =~= before.push(leaf_name(stacks@[i as int])));
            }
            i = i + 1;
        }
        if others.len() > 0 {
            let ghost before = shared_views(shared@);
            let ghost item = (name@, views(others@));
            shared.push((name, others));
            assert(shared_views(shared@) =~= before.push(item));
        } else {
            assert(views(others@).len() == 0);
        }
        k = k + 1;
    }
    assert(views(names@) =~= segs.map_values(|g: BookmarkSegment| shown_name(g)));
    let leaf_summary = if st.segments.len() > 0 && st.segments[st.segments.len() - 1].commits.len()
        > 0 {
        summary_of(st.segments[st.segments.len() - 1].commits[0].description.as_str())
    } else {
        String::from_str("(no description)")
    };
    StackChoice {
        stack_index: s,
        bookmark_names: names,
        commit_count: count,
        shared_with: shared,
        leaf_summary,
    }
}

/// One row per stack of the graph, in the graph's order.
pub fn collect_stack_choices(graph: &ChangeGraph) -> (r: Vec<StackChoice>)
    ensures
        r@.len() == graph.stacks@.len(),
        forall|s: int| 0 <= s < r@.len() ==> stack_choice_of(graph.stacks@, s, #[trigger] r@[s]),
{
    let mut out: Vec<StackChoice> = Vec::new();
    let mut s: usize = 0;
    while s < graph.stacks.len()
        invariant
            s <= graph.stacks@.len(),
            out@.len() == s,
            forall|j: int| 0 <= j < s ==> stack_choice_of(graph.stacks@, j, #[trigger] out@[j]),
        decreases graph.stacks@.len() - s,
    {
        out.push(stack_choice(&graph.stacks, s));
        s = s + 1;
    }
    out
}

/// `c` is the row of the `i`-th segment of `st`.
pub open spec fn bookmark_choice_of(st: BranchStack, i: int, c: BookmarkChoice) -> bool {
    let seg = st.segments@[i];
    &&& c.bookmark_name@ == shown_name(seg)
    &&& c.segment_index == i
    &&& c.stack_len == st.segments@.len()
    &&& views(c.commit_summaries@) == seg.commits@.map_values(|m: SegmentCommit| summary(m.description@))
}

/// One row per segment of the stack, leaf first.
pub fn collect_bookmark_choices(stack: &BranchStack) -> (r: Vec<BookmarkChoice>)
    ensures
        r@.len() == stack.segments@.len(),
        forall|k: int|
            0 <= k < r@.len() ==> bookmark_choice_of(
                *stack,
                stack.segments@.len() - 1 - k,
                #[trigger] r@[k],
            ),
{
    let n = stack.segments.len();
    let mut out: Vec<BookmarkChoice> = Vec::new();
    let mut k: usize = 0;
    while k < n
        invariant
            n == stack.segments@.len(),
            k <= n,
            out@.len() == k,
            forall|j: int| 0 <= j < k ==> bookmark_choice_of(*stack, n - 1 - j, #[trigger] out@[j]),
        decreases n - k,
    {
        let i = n - 1 - k;
        let seg = &stack.segments[i];
        let mut sums: Vec<String> = Vec::new();
        let mut c: usize = 0;
        while c < seg.commits.len()
            invariant
                c <= seg.commits@.len(),
                sums@.len() == c,
                forall|j: int| 0 <= j < c ==> (#[trigger] sums@[j])@ == summary(seg.commits@[j].description@),
            decreases seg.commits@.len() - c,
        {
            sums.push(summary_of(seg.commits[c].description.as_str()));
            c = c + 1;
        }
        assert(views(sums@) =~= seg.commits@.map_values(|m: SegmentCommit| summary(m.description@)));
        out.push(
            BookmarkChoice {
                bookmark_name: shown_name_of(seg),
                segment_index: i,
                stack_len: n,
                commit_summaries: sums,
            },
        );
        k = k + 1;
    }
    out
}

/// The shared-segment notes of a stack row.
pub open spec fn shared_text(sh: Seq<(Seq<char>, Seq<Seq<char>>)>, n: nat) -> Seq<char>
    decreases n,
{
    if n == 0 {
        Seq::empty()
    } else {
        shared_text(sh, (n - 1) as nat) + "  ["@ + sh[n - 1].0 + " also in "@ + join(
            sh[n - 1].1,
            ", "@,
        ) + "]"@
    }
}

/// The text of a stack row.
pub open spec fn stack_row(
    names: Seq<Seq<char>>,
    shared: Seq<(Seq<char>, Seq<Seq<char>>)>,
    leaf_summary: Seq<char>,
) -> Seq<char> {
    "\u{25cb} \u{2190} "@ + join(names, " \u{2190} "@) + (if names.len() == 1 {
        "  (1 PR: "@ + leaf_summary + ")"@
    } else {
        "  ("@ + decimal(names.len()) + " PRs)"@
    }) + shared_text(shared, shared.len())
}

impl StackChoice {
    /// The row's text: the chain from trunk to leaf, the number of pull
    /// requests, and the segments shared with other stacks.
    pub fn to_string(&self) -> (r: String)
        ensures
            r@ == stack_row(views(self.bookmark_names@), shared_views(self.shared_with@), self.leaf_summary@),
    {
        let mut out = String::from_str("\u{25cb} \u{2190} ");
        out.append(join_strs(&self.bookmark_names, " \u{2190} ").as_str());
        let n = self.bookmark_names.len();
        if n == 1 {
            out.append("  (1 PR: ");
            out.append(self.leaf_summary.as_str());
            out.append(")");
        } else {
            out.append("  (");
            out.append(decimal_string(n as u64).as_str());
            out.append(" PRs)");
        }
        let ghost head = out@;
        let ghost sh = shared_views(self.shared_with@);
        let mut i: usize = 0;
        while i < self.shared_with.len()
            invariant
                i <= self.shared_with@.len(),
                sh == shared_views(self.shared_with@),
                out@ == head + shared_text(sh, i as nat),
            decreases self.shared_with@.len() - i,
        {
            let item = &self.shared_with[i];
            out.append("  [");
            out.append(item.0.as_str());
            out.append(" also in ");
            out.append(join_strs(&item.1, ", ").as_str());
            out.append("]");
            proof {
                assert(sh[i as int] == (item.0@, views(item.1@)));
                assert(out@ =~= head + shared_text(sh, (i + 1) as nat));
            }
            i = i + 1;
        }
        assert(out@ =~= stack_row(views(self.bookmark_names@), sh, self.leaf_summary@));
        out
    }
}

/// The commit summaries of a bookmark row, one indented line each.
pub open spec fn summaries_text(s: Seq<Seq<char>>, n: nat) -> Seq<char>
    decreases n,
{
    if n == 0 {
        Seq::empty()
    } else {
        summaries_text(s, (n - 1) as nat) + "\n    "@ + s[n - 1]
    }
}

/// The position label of a bookmark row.
pub open spec fn position_label(index: nat, len: nat) -> Seq<char> {
    if len <= 1 {
        Seq::empty()
    } else if index == len - 1 {
        "leaf, "@
    } else if index == 0 {
        "base, "@
    } else {
        Seq::empty()
    }
}

/// The text of a bookmark row.
pub open spec fn bookmark_row(c: BookmarkChoice) -> Seq<char> {
    let count = c.commit_summaries@.len();
    let prs = c.segment_index + 1;
    c.bookmark_name@ + " ("@ + position_label(c.segment_index as nat, c.stack_len as nat)
        + decimal(count) + (if count == 1 {
        " commit"@
    } else {
        " commits"@
    }) + ") \u{2192} "@ + decimal(prs as nat) + (if prs == 1 {
        " PR"@
    } else {
        " PRs"@
    }) + summaries_text(views(c.commit_summaries@), count)
}

impl BookmarkChoice {
    /// The row's text: name, position, commit count, the number of pull
    /// requests submitted with it, and one line per commit.
    pub fn to_string(&self) -> (r: String)
        requires
            self.segment_index < self.stack_len,
        ensures
            r@ == bookmark_row(*self),
    {
        let count = self.commit_summaries.len();
        let prs = self.segment_index + 1;
        let mut out = self.bookmark_name.clone();
        out.append(" (");
        if self.stack_len <= 1 {
        } else if self.segment_index == self.stack_len - 1 {
            out.append("leaf, ");
        } else if self.segment_index == 0 {
            out.append("base, ");
        }
        out.append(decimal_string(count as u64).as_str());
        if count == 1 {
            out.append(" commit");
        } else {
            out.append(" commits");
        }
        out.append(") \u{2192} ");
        out.append(decimal_string(prs as u64).as_str());
        if prs == 1 {
            out.append(" PR");
        } else {
            out.append(" PRs");
        }
        let ghost head = out@;
        let ghost sv = views(self.commit_summaries@);
        let mut i: usize = 0;
        while i < count
            invariant
                count == self.commit_summaries@.len(),
                i <= count,
                sv == views(self.commit_summaries@),
                out@ == head + summaries_text(sv, i as nat),
            decreases count - i,
        {
            out.append("\n    ");
            out.append(self.commit_summaries[i].as_str());
            proof {
                assert(sv[i as int] == self.commit_summaries@[i as int]@);
                assert(out@ =~= head + summaries_text(sv, (i + 1) as nat));
            }
            i = i + 1;
        }
        assert(out@ =~= bookmark_row(*self));
        out
    }
}

/// The first step of choosing a bookmark to submit.
#[derive(Debug)]
pub enum FirstPick {
    /// No stacks: nothing to choose.
    NoStacks,
    /// One bookmark in all: it is chosen, with its summary.
    Only { name: String, summary: String },
    /// One stack: go on to choose within it.
    Stack(usize),
    /// Several stacks: the user picks one of these rows first.
    PickStack(Vec<StackChoice>),
}

/// Segments over all stacks, saturating at `usize::MAX`.
pub open spec fn total_segments(stacks: Seq<BranchStack>, n: nat) -> nat
    decreases n,
{
    if n == 0 {
        0
    } else {
        let t = total_segments(stacks, (n - 1) as nat) + stacks[n - 1].segments@.len();
        if t > usize::MAX {
            usize::MAX as nat
        } else {
            t
        }
    }
}

/// `r` goes on to choose within stack `i`.
pub open spec fn picks_stack(r: FirstPick, i: usize) -> bool {
    match r {
        FirstPick::Stack(j) => j == i,
        _ => false,
    }
}

/// `r` chooses the one bookmark of `st`, with its summary.
pub open spec fn only_pick(r: FirstPick, st: BranchStack) -> bool {
    match r {
        FirstPick::Only { name, summary } => name@ == shown_name(st.segments@[0]) && summary@ == (
        if st.segments@[0].commits@.len() > 0 {
            crate::select::summary(st.segments@[0].commits@[0].description@)
        } else {
            no_description()
        }),
        _ => false,
    }
}

/// What to do first when the bookmark to submit is to be chosen.
pub fn first_pick(graph: &ChangeGraph) -> (r: FirstPick)
    ensures
        graph.stacks@.len() == 0 <==> r is NoStacks,
        graph.stacks@.len() == 1 && total_segments(graph.stacks@, 1) == 1 ==> only_pick(r, graph.stacks@[0]),
        graph.stacks@.len() == 1 && total_segments(graph.stacks@, 1) != 1 ==> picks_stack(r, 0),
        graph.stacks@.len() > 1 && total_segments(graph.stacks@, graph.stacks@.len()) != 1 ==> r is PickStack,
{
    if graph.stacks.len() == 0 {
        return FirstPick::NoStacks;
    }
    let mut total: usize = 0;
    let mut s: usize = 0;
    while s < graph.stacks.len()
        invariant
            s <= graph.stacks@.len(),
            total == total_segments(graph.stacks@, s as nat),
        decreases graph.stacks@.len() - s,
    {
        total = total.saturating_add(graph.stacks[s].segments.len());
        s = s + 1;
    }
    proof {
        if graph.stacks@.len() == 1 {
            assert(total_segments(graph.stacks@, 0) == 0);
            assert(total_segments(graph.stacks@, 1) == 1 ==> graph.stacks@[0].segments@.len() == 1);
        }
    }
    if total == 1 {
        let st = &graph.stacks[0];
        if st.segments.len() > 0 {
            let seg = &st.segments[0];
            let summary = if seg.commits.len() > 0 {
                summary_of(seg.commits[0].description.as_str())
            } else {
                String::from_str("(no description)")
            };
            return FirstPick::Only { name: shown_name_of(seg), summary };
        }
    }
    if graph.stacks.len() == 1 {
        FirstPick::Stack(0)
    } else {
        FirstPick::PickStack(collect_stack_choices(graph))
    }
}

/// The bookmark of a stack with a single segment, which needs no asking;
/// `None` when the stack has several segments (or none).
pub fn only_bookmark(stack: &BranchStack) -> (r: Option<String>)
    ensures
        stack.segments@.len() == 1 <==> r is Some,
        r matches Some(name) ==> name@ == shown_name(stack.segments@[0]),
{
    if stack.segments.len() == 1 {
        Some(shown_name_of(&stack.segments[0]))
    } else {
        None
    }
}

} // verus!
