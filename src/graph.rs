//! The change graph: bookmark segments discovered by walking each bookmark's
//! history toward trunk, the parent edges between them, and the stacks they
//! form.

use vstd::prelude::*;
use crate::text::str_eq;
use crate::vcs::{views, copy_strs, has_str, Bookmark, LogEntry};
use crate::stacks::{group_segments_into_stacks, stacks_of_leaves, stack_views};

verus! {

/// A commit within a bookmark segment.
#[derive(Debug, Clone)]
pub struct SegmentCommit {
    pub commit_id: String,
    pub change_id: String,
    pub description: String,
    pub author_name: String,
}

/// Model of a segment commit: commit id, change id, description, author.
pub type CommitModel = (Seq<char>, Seq<char>, Seq<char>, Seq<char>);

impl View for SegmentCommit {
    type V = CommitModel;

    open spec fn view(&self) -> CommitModel {
        (self.commit_id@, self.change_id@, self.description@, self.author_name@)
    }
}

/// A run of commits that one or more bookmarks on one change id name.
/// Commits are newest first; the first is the one the bookmarks point at.
#[derive(Debug, Clone)]
pub struct BookmarkSegment {
    pub bookmark_names: Vec<String>,
    pub change_id: String,
    pub commits: Vec<SegmentCommit>,
}

/// Model of a segment: its bookmark names, change id and commits.
pub type SegmentModel = (Seq<Seq<char>>, Seq<char>, Seq<CommitModel>);

pub open spec fn commit_views(v: Seq<SegmentCommit>) -> Seq<CommitModel> {
    v.map_values(|c: SegmentCommit| c@)
}

impl View for BookmarkSegment {
    type V = SegmentModel;

    open spec fn view(&self) -> SegmentModel {
        (views(self.bookmark_names@), self.change_id@, commit_views(self.commits@))
    }
}

pub open spec fn segment_views(v: Seq<BookmarkSegment>) -> Seq<SegmentModel> {
    v.map_values(|s: BookmarkSegment| s@)
}

/// A path of segments from trunk to one leaf, trunk first.
#[derive(Debug, Clone)]
pub struct BranchStack {
    pub segments: Vec<BookmarkSegment>,
}

/// All segments, the parent edges between them, and the resulting stacks.
///
/// `adjacency_list` maps a child change id to its parent change id (toward
/// trunk), each child at most once; `segments` holds each change id at most
/// once. These maps and sets are lists with unique keys: the standard hash
/// collections have specifications only for keys with a known hashing model,
/// which `String` keys lack, so nothing could be proved of them here.
#[derive(Debug)]
pub struct ChangeGraph {
    pub adjacency_list: Vec<(String, String)>,
    pub stack_leaves: Vec<String>,
    pub stack_roots: Vec<String>,
    pub segments: Vec<BookmarkSegment>,
    pub tainted_change_ids: Vec<String>,
    pub excluded_bookmark_count: usize,
    pub stacks: Vec<BranchStack>,
}

pub fn copy_commit(c: &SegmentCommit) -> (r: SegmentCommit)
    ensures
        r@ == c@,
{
    SegmentCommit {
        commit_id: c.commit_id.clone(),
        change_id: c.change_id.clone(),
        description: c.description.clone(),
        author_name: c.author_name.clone(),
    }
}

/// A copy of a segment, equal to it in every field.
pub fn copy_segment(s: &BookmarkSegment) -> (r: BookmarkSegment)
    ensures
        r@ == s@,
{
    let mut commits: Vec<SegmentCommit> = Vec::new();
    let mut i: usize = 0;
    while i < s.commits.len()
        invariant
            i <= s.commits.len(),
            commit_views(commits@) == commit_views(s.commits@).subrange(0, i as int),
        decreases s.commits.len() - i,
    {
        assert(commit_views(commits@).len() == i);
        assert(commits@.len() == i);
        commits.push(copy_commit(&s.commits[i]));
        assert(commit_views(commits@) =~= commit_views(s.commits@).subrange(0, i + 1));
        i = i + 1;
    }
    assert(commit_views(s.commits@).subrange(0, s.commits.len() as int) =~= commit_views(
        s.commits@,
    ));
    BookmarkSegment {
        bookmark_names: copy_strs(&s.bookmark_names),
        change_id: s.change_id.clone(),
        commits,
    }
}

/// The change ids of a list of segments.
pub open spec fn seg_ids(v: Seq<BookmarkSegment>) -> Seq<Seq<char>> {
    v.map_values(|s: BookmarkSegment| s.change_id@)
}

/// No two entries of `v` are equal.
pub open spec fn distinct(v: Seq<Seq<char>>) -> bool {
    forall|i: int, j: int| 0 <= i < v.len() && 0 <= j < v.len() && v[i] == v[j] ==> i == j
}

/// The keys (children) of an edge list.
pub open spec fn edge_keys(v: Seq<(String, String)>) -> Seq<Seq<char>> {
    v.map_values(|e: (String, String)| e.0@)
}

/// The values (parents) of an edge list.
pub open spec fn edge_values(v: Seq<(String, String)>) -> Seq<Seq<char>> {
    v.map_values(|e: (String, String)| e.1@)
}

/// Whether the edge list maps `k` to `p`.
pub open spec fn has_edge(v: Seq<(String, String)>, k: Seq<char>, p: Seq<char>) -> bool {
    exists|i: int| 0 <= i < v.len() && v[i].0@ == k && v[i].1@ == p
}

proof fn lemma_push_to_set<A>(s: Seq<A>, x: A)
    ensures
        s.push(x).to_set() == s.to_set().insert(x),
{
    assert(s.push(x) == s + seq![x]);
    Seq::lemma_to_set_insert_commutes(s, x);
}

/// Model of an edge list: child and parent change ids.
pub type EdgeModel = Seq<(Seq<char>, Seq<char>)>;

pub open spec fn edge_models(v: Seq<(String, String)>) -> EdgeModel {
    v.map_values(|e: (String, String)| (e.0@, e.1@))
}

/// The first index at or after `i` whose edge has child `k`.
pub open spec fn key_pos(m: EdgeModel, k: Seq<char>, i: nat) -> Option<nat>
    decreases m.len() - i,
{
    if i >= m.len() {
        None
    } else if m[i as int].0 == k {
        Some(i)
    } else {
        key_pos(m, k, i + 1)
    }
}

/// The edges after setting `k`'s parent to `p`: the entry of `k` is
/// replaced in place, or a new one is appended.
pub open spec fn edge_put(m: EdgeModel, k: Seq<char>, p: Seq<char>) -> EdgeModel {
    match key_pos(m, k, 0) {
        Some(i) => m.update(i as int, (k, p)),
        None => m.push((k, p)),
    }
}

/// The first index at or after `i` whose segment has change id `id`.
pub open spec fn id_pos(m: Seq<SegmentModel>, id: Seq<char>, i: nat) -> Option<nat>
    decreases m.len() - i,
{
    if i >= m.len() {
        None
    } else if m[i as int].1 == id {
        Some(i)
    } else {
        id_pos(m, id, i + 1)
    }
}

/// The segments after storing `x` under its change id: a segment already
/// stored there is replaced in place, or `x` is appended.
pub open spec fn seg_put(m: Seq<SegmentModel>, x: SegmentModel) -> Seq<SegmentModel> {
    match id_pos(m, x.1, 0) {
        Some(i) => m.update(i as int, x),
        None => m.push(x),
    }
}

/// `v` with `x` appended unless it holds it already.
pub open spec fn set_put(v: Seq<Seq<char>>, x: Seq<char>) -> Seq<Seq<char>> {
    if v.contains(x) {
        v
    } else {
        v.push(x)
    }
}

/// Sets `k`'s parent to `p`, replacing an earlier parent of `k`.
pub fn insert_edge(v: &mut Vec<(String, String)>, k: String, p: String)
    requires
        distinct(edge_keys(old(v)@)),
    ensures
        distinct(edge_keys(final(v)@)),
        has_edge(final(v)@, k@, p@),
        forall|k2: Seq<char>, q2: Seq<char>|
            k2 != k@ ==> (has_edge(final(v)@, k2, q2) == has_edge(old(v)@, k2, q2)),
        edge_keys(final(v)@).to_set() == edge_keys(old(v)@).to_set().insert(k@),
        edge_models(final(v)@) == edge_put(edge_models(old(v)@), k@, p@),
{
    let ghost old_v = v@;
    let ghost kv = k@;
    let ghost pv = p@;
    let mut i: usize = 0;
    while i < v.len()
        invariant
            v@ == old_v,
            old_v == old(v)@,
            distinct(edge_keys(old_v)),
            k@ == kv,
            p@ == pv,
            i <= v.len(),
            forall|j: int| 0 <= j < i ==> v@[j].0@ != kv,
            key_pos(edge_models(old_v), kv, 0) == key_pos(edge_models(old_v), kv, i as nat),
        decreases v.len() - i,
    {
        if str_eq(v[i].0.as_str(), k.as_str()) {
            let ghost ii = i as int;
            let pair = (k, p);
            assert(pair.0@ == kv && pair.1@ == pv);
            v.set(i, pair);
            proof {
                assert(v@ == old_v.update(ii, pair));
                assert(old_v[ii].0@ == kv);
                assert(v@[ii].0@ == kv && v@[ii].1@ == pv);
                assert(edge_keys(v@) =~= edge_keys(old_v));
                assert(has_edge(v@, kv, pv));
                assert forall|k2: Seq<char>, q2: Seq<char>| k2 != kv implies (has_edge(
                    v@,
                    k2,
                    q2,
                ) == has_edge(old_v, k2, q2)) by {
                    if has_edge(v@, k2, q2) {
                        let j = choose|j: int| 0 <= j < v@.len() && v@[j].0@ == k2 && v@[j].1@ == q2;
                        assert(old_v[j] == v@[j]);
                    }
                    if has_edge(old_v, k2, q2) {
                        let j = choose|j: int|
                            0 <= j < old_v.len() && old_v[j].0@ == k2 && old_v[j].1@ == q2;
                        assert(old_v[j] == v@[j]);
                    }
                }
                assert(edge_keys(old_v)[ii] == kv);
                assert(edge_keys(old_v).to_set().insert(kv) =~= edge_keys(old_v).to_set());
                assert(edge_models(v@) =~= edge_models(old_v).update(ii, (kv, pv)));
            }
            return;
        }
        i = i + 1;
    }
    let pair = (k, p);
    assert(pair.0@ == kv && pair.1@ == pv);
    v.push(pair);
    proof {
        assert(edge_keys(v@) =~= edge_keys(old_v).push(kv));
        assert(v@[old_v.len() as int] == pair);
        assert(has_edge(v@, kv, pv));
        assert forall|k2: Seq<char>, q2: Seq<char>| k2 != kv implies (has_edge(v@, k2, q2)
            == has_edge(old_v, k2, q2)) by {
            if has_edge(v@, k2, q2) {
                let j = choose|j: int| 0 <= j < v@.len() && v@[j].0@ == k2 && v@[j].1@ == q2;
                assert(old_v[j] == v@[j]);
            }
            if has_edge(old_v, k2, q2) {
                let j = choose|j: int|
                    0 <= j < old_v.len() && old_v[j].0@ == k2 && old_v[j].1@ == q2;
                assert(old_v[j] == v@[j]);
            }
        }
        lemma_push_to_set(edge_keys(old_v), kv);
        assert(edge_models(v@) =~= edge_models(old_v).push((kv, pv)));
    }
}

/// Adds `s` to `v` unless it is there already.
pub fn insert_str(v: &mut Vec<String>, s: String)
    ensures
        views(final(v)@).to_set() == views(old(v)@).to_set().insert(s@),
        distinct(views(old(v)@)) ==> distinct(views(final(v)@)),
        views(final(v)@) == set_put(views(old(v)@), s@),
{
    if has_str(v, s.as_str()) {
        proof {
            assert(views(old(v)@).to_set().insert(s@) =~= views(old(v)@).to_set());
        }
    } else {
        let ghost sv = s@;
        v.push(s);
        proof {
            assert(views(v@) =~= views(old(v)@).push(sv));
            lemma_push_to_set(views(old(v)@), sv);
        }
    }
}

/// Stores `seg` under its change id, replacing a segment already stored
/// under that id.
pub fn insert_segment(v: &mut Vec<BookmarkSegment>, seg: BookmarkSegment)
    requires
        distinct(seg_ids(old(v)@)),
    ensures
        distinct(seg_ids(final(v)@)),
        seg_ids(final(v)@).to_set() == seg_ids(old(v)@).to_set().insert(seg.change_id@),
        segment_views(final(v)@).contains(seg@),
        forall|x: SegmentModel|
            x.1 != seg.change_id@ ==> (segment_views(final(v)@).contains(x) == segment_views(
                old(v)@,
            ).contains(x)),
        segment_views(final(v)@) == seg_put(segment_views(old(v)@), seg@),
{
    let ghost old_v = v@;
    let ghost sv = seg@;
    let mut i: usize = 0;
    while i < v.len()
        invariant
            v@ == old_v,
            old_v == old(v)@,
            distinct(seg_ids(old_v)),
            seg@ == sv,
            id_pos(segment_views(old_v), sv.1, 0) == id_pos(segment_views(old_v), sv.1, i as nat),
            i <= v.len(),
            forall|j: int| 0 <= j < i ==> v@[j].change_id@ != seg.change_id@,
        decreases v.len() - i,
    {
        if str_eq(v[i].change_id.as_str(), seg.change_id.as_str()) {
            let ghost ii = i as int;
            let ghost sg = seg;
            v.set(i, seg);
            proof {
                assert(v@ == old_v.update(ii, sg));
                assert(old_v[ii].change_id@ == sv.1);
                assert(v@[ii].change_id@ == sv.1);
                assert(seg_ids(v@) =~= seg_ids(old_v));
                assert(segment_views(v@)[ii] == sv);
                assert(segment_views(v@)[ii] == sv);
                assert forall|x: SegmentModel| x.1 != sv.1 implies (segment_views(v@).contains(x)
                    == segment_views(old_v).contains(x)) by {
                    if segment_views(v@).contains(x) {
                        let j = choose|j: int| 0 <= j < segment_views(v@).len() && segment_views(v@)[j] == x;
                        assert(segment_views(old_v)[j] == x);
                    }
                    if segment_views(old_v).contains(x) {
                        let j = choose|j: int| 0 <= j < segment_views(old_v).len() && segment_views(old_v)[j] == x;
                        assert(segment_views(v@)[j] == x);
                    }
                }
                assert(seg_ids(old_v)[ii] == sv.1);
                assert(seg_ids(old_v).to_set().insert(sv.1) =~= seg_ids(old_v).to_set());
                assert(segment_views(v@) =~= segment_views(old_v).update(ii, sv));
            }
            return;
        }
        i = i + 1;
    }
    v.push(seg);
    proof {
        assert(seg_ids(v@) =~= seg_ids(old_v).push(sv.1));
        assert(segment_views(v@) =~= segment_views(old_v).push(sv));
        assert(segment_views(v@)[old_v.len() as int] == sv);
        lemma_push_to_set(seg_ids(old_v), sv.1);
        assert forall|x: SegmentModel| x.1 != sv.1 implies (segment_views(v@).contains(x)
            == segment_views(old_v).contains(x)) by {
            if segment_views(v@).contains(x) {
                let j = choose|j: int| 0 <= j < segment_views(v@).len() && segment_views(v@)[j] == x;
                assert(segment_views(old_v)[j] == x);
            }
            if segment_views(old_v).contains(x) {
                let j = choose|j: int| 0 <= j < segment_views(old_v).len() && segment_views(old_v)[j] == x;
                assert(segment_views(v@)[j] == x);
            }
        }
    }
}


/// The user's own bookmarks among `names`, in their order.
pub open spec fn owned(names: Seq<Seq<char>>, user: Seq<Seq<char>>) -> Seq<Seq<char>> {
    names.filter(|n: Seq<char>| user.contains(n))
}

/// Computes the user's own bookmarks among `names`.
pub fn owned_names(names: &Vec<String>, user: &Vec<String>) -> (r: Vec<String>)
    ensures
        views(r@) == owned(views(names@), views(user@)),
{
    let mut out: Vec<String> = Vec::new();
    let mut i: usize = 0;
    while i < names.len()
        invariant
            i <= names.len(),
            views(out@) == owned(views(names@).subrange(0, i as int), views(user@)),
        decreases names.len() - i,
    {
        let ghost pre = views(names@).subrange(0, i as int);
        proof {
            assert(views(names@).subrange(0, i + 1) == pre.push(names@[i as int]@));
            pre.lemma_filter_push(names@[i as int]@, |n: Seq<char>| views(user@).contains(n));
        }
        if has_str(user, names[i].as_str()) {
            out.push(names[i].clone());
            assert(views(out@) == views(out@).drop_last().push(names@[i as int]@));
        }
        i = i + 1;
    }
    assert(views(names@).subrange(0, names.len() as int) == views(names@));
    out
}

/// Whether some string of `a` is among those of `b`.
pub fn any_shared(a: &Vec<String>, b: &Vec<String>) -> (r: bool)
    ensures
        r == exists|k: int| 0 <= k < a@.len() && views(b@).contains(#[trigger] a@[k]@),
{
    let mut i: usize = 0;
    while i < a.len()
        invariant
            i <= a.len(),
            forall|k: int| 0 <= k < i ==> !views(b@).contains(#[trigger] a@[k]@),
        decreases a.len() - i,
    {
        if has_str(b, a[i].as_str()) {
            return true;
        }
        i = i + 1;
    }
    false
}

/// Adds every string of `ids` to `set`.
pub fn insert_all(set: &mut Vec<String>, ids: &Vec<String>)
    ensures
        views(final(set)@).to_set() == views(old(set)@).to_set() + views(ids@).to_set(),
        distinct(views(old(set)@)) ==> distinct(views(final(set)@)),
{
    let mut i: usize = 0;
    while i < ids.len()
        invariant
            i <= ids.len(),
            views(set@).to_set() == views(old(set)@).to_set() + views(ids@).subrange(
                0,
                i as int,
            ).to_set(),
            distinct(views(old(set)@)) ==> distinct(views(set@)),
        decreases ids.len() - i,
    {
        insert_str(set, ids[i].clone());
        proof {
            assert(views(ids@).subrange(0, i + 1) =~= views(ids@).subrange(0, i as int).push(
                ids@[i as int]@,
            ));
            lemma_push_to_set(views(ids@).subrange(0, i as int), ids@[i as int]@);
            assert(views(set@).to_set() =~= views(old(set)@).to_set() + views(ids@).subrange(
                0,
                i + 1,
            ).to_set());
        }
        i = i + 1;
    }
    assert(views(ids@).subrange(0, ids.len() as int) =~= views(ids@));
}

/// State of one walk from a bookmark toward trunk.
#[derive(Debug)]
pub struct Traversal {
    /// The bookmark the walk started from.
    pub bookmark_name: String,
    /// The commit the walk started from.
    pub commit_id: String,
    /// Closed segments, newest first.
    pub segments: Vec<BookmarkSegment>,
    /// The segment that commits are being added to.
    pub current: Option<BookmarkSegment>,
    /// Change ids seen so far, in the order seen.
    pub seen_change_ids: Vec<String>,
}

/// What one log entry did to a walk.
#[derive(Debug)]
pub enum EntryOutcome {
    /// The walk goes on.
    Continue,
    /// A merge commit or a tainted change: the bookmark is excluded.
    Excluded,
    /// A bookmark already collected by an earlier walk, on this change id.
    ReachedCollected(String),
    /// A commit before any bookmark: the listing has an unexpected shape.
    Orphan,
}

/// Model of the commit that a log entry adds to a segment.
pub open spec fn entry_commit(e: LogEntry) -> CommitModel {
    (e.commit_id@, e.change_id@, e.description@, e.author.name@)
}

/// Whether a log entry excludes the walk: a merge, or a tainted change.
pub open spec fn taints(e: LogEntry, tainted: Seq<Seq<char>>) -> bool {
    e.parents@.len() > 1 || tainted.contains(e.change_id@)
}

/// The closed segments after a boundary: the open one, if any, is closed.
pub open spec fn closed_after_boundary(t: Traversal) -> Seq<SegmentModel> {
    match t.current {
        Some(c) => segment_views(t.segments@).push(c@),
        None => segment_views(t.segments@),
    }
}

/// Model of a walk: closed segments (newest first), the open segment, and
/// the change ids seen.
pub type WalkModel = (Seq<SegmentModel>, Option<SegmentModel>, Seq<Seq<char>>);

pub open spec fn walk_model(t: Traversal) -> WalkModel {
    (
        segment_views(t.segments@),
        match t.current {
            Some(c) => Some(c@),
            None => None,
        },
        views(t.seen_change_ids@),
    )
}

/// How a log entry leaves a walk (a model of `EntryOutcome`).
pub enum WalkEnd {
    Continue,
    Excluded,
    Reached(Seq<char>),
    Orphan,
}

pub open spec fn outcome_end(r: EntryOutcome) -> WalkEnd {
    match r {
        EntryOutcome::Continue => WalkEnd::Continue,
        EntryOutcome::Excluded => WalkEnd::Excluded,
        EntryOutcome::ReachedCollected(id) => WalkEnd::Reached(id@),
        EntryOutcome::Orphan => WalkEnd::Orphan,
    }
}

/// The closed segments once the open one, if any, is closed.
pub open spec fn closed_of(w: WalkModel) -> Seq<SegmentModel> {
    match w.1 {
        Some(c) => w.0.push(c),
        None => w.0,
    }
}

/// One log entry applied to a walk, for user bookmark names `user`,
/// collected names `collected` and tainted change ids `tainted`:
/// - a merge or a tainted change excludes the walk;
/// - an entry with user bookmarks closes the open segment, and either
///   stops at a collected bookmark or opens a segment with those names;
/// - any other entry joins the open segment, or, with none open, is an
///   orphan.
pub open spec fn entry_step(
    w: WalkModel,
    e: LogEntry,
    user: Seq<Seq<char>>,
    collected: Seq<Seq<char>>,
    tainted: Set<Seq<char>>,
) -> (WalkModel, WalkEnd) {
    let seen = w.2.push(e.change_id@);
    let own = owned(views(e.local_bookmark_names@), user);
    if e.parents@.len() > 1 || tainted.contains(e.change_id@) {
        ((w.0, w.1, seen), WalkEnd::Excluded)
    } else if own.len() > 0 {
        if exists|k: int| 0 <= k < own.len() && collected.contains(#[trigger] own[k]) {
            ((closed_of(w), None, seen), WalkEnd::Reached(e.change_id@))
        } else {
            ((closed_of(w), Some((own, e.change_id@, seq![entry_commit(e)])), seen), WalkEnd::Continue)
        }
    } else {
        match w.1 {
            Some(c) => ((w.0, Some((c.0, c.1, c.2.push(entry_commit(e)))), seen), WalkEnd::Continue),
            None => ((w.0, None, seen), WalkEnd::Orphan),
        }
    }
}

/// The entries of `page` from `i` on applied to a walk, up to the first one
/// that does not continue it: the walk after it, how it ended, and the
/// index where it ended (`page.len()` when every entry continued).
pub open spec fn walk_entries(
    w: WalkModel,
    page: Seq<LogEntry>,
    i: nat,
    user: Seq<Seq<char>>,
    collected: Seq<Seq<char>>,
    tainted: Set<Seq<char>>,
) -> (WalkModel, WalkEnd, nat)
    decreases page.len() - i,
{
    if i >= page.len() {
        (w, WalkEnd::Continue, i)
    } else {
        let st = entry_step(w, page[i as int], user, collected, tainted);
        if st.1 is Continue {
            walk_entries(st.0, page, i + 1, user, collected, tainted)
        } else {
            (st.0, st.1, i)
        }
    }
}

/// Applies one log entry to a walk.
pub fn process_entry(
    t: &mut Traversal,
    e: &LogEntry,
    user: &Vec<String>,
    collected: &Vec<String>,
    tainted: &mut Vec<String>,
) -> (r: EntryOutcome)
    ensures
        views(final(t).seen_change_ids@) == views(old(t).seen_change_ids@).push(e.change_id@),
        ({
            let st = entry_step(
                walk_model(*old(t)),
                *e,
                views(user@),
                views(collected@),
                views(old(tainted)@).to_set(),
            );
            walk_model(*final(t)) == st.0 && outcome_end(r) == st.1
        }),
        final(t).bookmark_name@ == old(t).bookmark_name@,
        final(t).commit_id@ == old(t).commit_id@,
        taints(*e, views(old(tainted)@)) ==> r is Excluded && views(final(tainted)@).to_set()
            == views(old(tainted)@).to_set() + views(final(t).seen_change_ids@).to_set(),
        distinct(views(old(tainted)@)) ==> distinct(views(final(tainted)@)),
        !taints(*e, views(old(tainted)@)) ==> {
            let own = owned(views(e.local_bookmark_names@), views(user@));
            &&& final(tainted)@ == old(tainted)@
            &&& own.len() > 0 ==> {
                &&& segment_views(final(t).segments@) == closed_after_boundary(*old(t))
                &&& if exists|k: int| 0 <= k < own.len() && views(collected@).contains(#[trigger] own[k]) {
                    &&& r matches EntryOutcome::ReachedCollected(id) && id@ == e.change_id@
                    &&& final(t).current is None
                } else {
                    &&& r is Continue
                    &&& final(t).current matches Some(c) && c@ == (own, e.change_id@, seq![entry_commit(*e)])
                }
            }
            &&& own.len() == 0 ==> {
                &&& segment_views(final(t).segments@) == segment_views(old(t).segments@)
                &&& match old(t).current {
                    None => r is Orphan,
                    Some(c) => r is Continue && (final(t).current matches Some(c2) && c2@ == (c@.0, c@.1, c@.2.push(entry_commit(*e)))),
                }
            }
        },
{
    t.seen_change_ids.push(e.change_id.clone());
    proof {
        assert(views(t.seen_change_ids@) == views(old(t).seen_change_ids@).push(e.change_id@));
    }
    if e.parents.len() > 1 || has_str(tainted, e.change_id.as_str()) {
        insert_all(tainted, &t.seen_change_ids);
        return EntryOutcome::Excluded;
    }
    let own = owned_names(&e.local_bookmark_names, user);
    let commit = SegmentCommit {
        commit_id: e.commit_id.clone(),
        change_id: e.change_id.clone(),
        description: e.description.clone(),
        author_name: e.author.name.clone(),
    };
    if own.len() > 0 {
        let cur = t.current.take();
        match cur {
            Some(seg) => {
                t.segments.push(seg);
                proof {
                    assert(segment_views(t.segments@) == segment_views(old(t).segments@).push(seg@));
                }
            },
            None => {},
        }
        if any_shared(&own, collected) {
            proof {
                let k = choose|k: int| 0 <= k < own@.len() && views(collected@).contains(#[trigger] own@[k]@);
                assert(views(own@)[k] == own@[k]@);
            }
            return EntryOutcome::ReachedCollected(e.change_id.clone());
        }
        proof {
            assert forall|k: int| 0 <= k < views(own@).len() implies !views(collected@).contains(#[trigger] views(own@)[k]) by {
                assert(views(own@)[k] == own@[k]@);
            }
        }
        let mut commits: Vec<SegmentCommit> = Vec::new();
        commits.push(commit);
        let seg = BookmarkSegment { bookmark_names: own, change_id: e.change_id.clone(), commits };
        proof {
            assert(commit_views(seg.commits@) == seq![entry_commit(*e)]);
        }
        t.current = Some(seg);
        return EntryOutcome::Continue;
    }
    let cur = t.current.take();
    match cur {
        Some(seg) => {
            let mut seg = seg;
            let ghost before = seg@;
            seg.commits.push(commit);
            proof {
                assert(commit_views(seg.commits@) == before.2.push(entry_commit(*e)));
            }
            t.current = Some(seg);
            EntryOutcome::Continue
        },
        None => EntryOutcome::Orphan,
    }
}


/// Entries per page of a log listing; a shorter page is the last one.
pub const PAGE_SIZE: usize = 100;

/// What the builder needs next.
#[derive(Debug)]
pub enum BuildStep {
    /// The next page, newest first, of the commits between trunk and `to`,
    /// leaving out `after` and everything after it.
    Fetch { to: String, after: Option<String> },
    /// Every bookmark has been walked: call `finish`.
    Done,
}

/// The log listing had a commit before any bookmark.
#[derive(Debug, Clone)]
pub struct GraphError {
    pub change_id: String,
    pub bookmark: String,
}

impl GraphError {
    /// The error's message.
    pub fn message(&self) -> (r: String)
        ensures
            r@ == "change "@ + self.change_id@ + " before any bookmark from "@ + self.bookmark@,
    {
        let mut r = String::from_str("change ");
        proof {
            reveal_strlit("change ");
            reveal_strlit(" before any bookmark from ");
        }
        r.append(self.change_id.as_str());
        r.append(" before any bookmark from ");
        r.append(self.bookmark.as_str());
        r
    }
}

/// The names of a list of bookmarks.
pub open spec fn bookmark_names(bms: Seq<Bookmark>) -> Seq<Seq<char>> {
    bms.map_values(|b: Bookmark| b.name@)
}

/// The first bookmark at or after `from` whose name is not collected.
pub open spec fn first_uncollected(bms: Seq<Bookmark>, from: nat, collected: Seq<Seq<char>>) -> Option<
    nat,
>
    decreases bms.len() - from,
{
    if from >= bms.len() {
        None
    } else if !collected.contains(bms[from as int].name@) {
        Some(from)
    } else {
        first_uncollected(bms, from + 1, collected)
    }
}

/// `first_uncollected` is the first index at or after `from` whose name is
/// not collected, and is `None` exactly when every such name is collected.
pub proof fn lemma_first_uncollected(bms: Seq<Bookmark>, from: nat, collected: Seq<Seq<char>>)
    ensures
        first_uncollected(bms, from, collected) is None <==> forall|i: int|
            from <= i < bms.len() ==> collected.contains(#[trigger] bms[i].name@),
        first_uncollected(bms, from, collected) matches Some(i) ==> from <= i < bms.len()
            && !collected.contains(bms[i as int].name@) && forall|k: int|
            from <= k < i ==> collected.contains(#[trigger] bms[k].name@),
    decreases bms.len() - from,
{
    if from < bms.len() && collected.contains(bms[from as int].name@) {
        lemma_first_uncollected(bms, from + 1, collected);
    }
}

/// A walk that has not seen any entry yet.
pub open spec fn fresh_walk() -> WalkModel {
    (Seq::empty(), None, Seq::empty())
}

/// `step` asks for the page of `to` after `after`.
pub open spec fn is_fetch(step: BuildStep, to: Seq<char>, after: Option<Seq<char>>) -> bool {
    match step {
        BuildStep::Fetch { to: t, after: a } => t@ == to && match a {
            Some(x) => after == Some(x@),
            None => after is None,
        },
        BuildStep::Done => false,
    }
}

/// `post` and `step` are what starting the next walk gives, from cursor
/// `from` over bookmarks `bms` with names `collected` collected: the walk of
/// the first uncollected bookmark at or after `from`, which asks for its
/// first page; or, when there is none, `Done`.
pub open spec fn start_result(
    bms: Seq<Bookmark>,
    from: nat,
    collected: Seq<Seq<char>>,
    post: GraphBuilder,
    step: BuildStep,
) -> bool {
    match first_uncollected(bms, from, collected) {
        Some(i) => post.cursor() == i + 1 && post.walk() == Some(fresh_walk()) && post.walk_commit()
            == bms[i as int].commit_id@ && post.walk_name() == bms[i as int].name@ && is_fetch(
            step,
            bms[i as int].commit_id@,
            None,
        ),
        None => post.cursor() == bms.len() && post.walk() is None && step is Done,
    }
}

/// The names of the first `n` segments, in order.
pub open spec fn names_of(ms: Seq<SegmentModel>, n: nat) -> Seq<Seq<char>>
    decreases n,
{
    if n == 0 || n > ms.len() {
        Seq::empty()
    } else {
        names_of(ms, (n - 1) as nat) + ms[n - 1].0
    }
}

/// The segments after storing the first `n` of `ms`.
pub open spec fn put_all(store: Seq<SegmentModel>, ms: Seq<SegmentModel>, n: nat) -> Seq<SegmentModel>
    decreases n,
{
    if n == 0 || n > ms.len() {
        store
    } else {
        seg_put(put_all(store, ms, (n - 1) as nat), ms[n - 1])
    }
}

/// The edges after linking `ids[k]` to `ids[k + 1]` for each `k < n`.
pub open spec fn link(e: EdgeModel, ids: Seq<Seq<char>>, n: nat) -> EdgeModel
    decreases n,
{
    if n == 0 || n >= ids.len() {
        e
    } else {
        edge_put(link(e, ids, (n - 1) as nat), ids[n - 1], ids[n as int])
    }
}

/// The edges after recording a walk's segments `ms` (newest first):
/// consecutive segments are child and parent, and the last one is the
/// child of the collected change id `reached`, if the walk stopped there.
pub open spec fn recorded_edges(e: EdgeModel, ms: Seq<SegmentModel>, reached: Option<Seq<char>>) -> EdgeModel {
    let ids = ms.map_values(|m: SegmentModel| m.1);
    if ms.len() == 0 {
        e
    } else {
        let linked = link(e, ids, (ms.len() - 1) as nat);
        match reached {
            Some(id) => edge_put(linked, ids[ms.len() - 1], id),
            None => linked,
        }
    }
}

/// The roots after recording a walk's segments `ms`: a walk that reached
/// trunk makes its last segment a root.
pub open spec fn recorded_roots(roots: Seq<Seq<char>>, ms: Seq<SegmentModel>, reached: Option<Seq<char>>) -> Seq<Seq<char>> {
    if ms.len() > 0 && reached is None {
        set_put(roots, ms[ms.len() - 1].1)
    } else {
        roots
    }
}

/// `post` holds what `pre` held plus a finished walk's segments `ms`, their
/// edges and root; taint and exclusions are unchanged.
pub open spec fn recorded(
    pre: GraphBuilder,
    ms: Seq<SegmentModel>,
    reached: Option<Seq<char>>,
    post: GraphBuilder,
) -> bool {
    &&& post.segment_models() == put_all(pre.segment_models(), ms, ms.len())
    &&& post.edges() == recorded_edges(pre.edges(), ms, reached)
    &&& post.roots() == recorded_roots(pre.roots(), ms, reached)
    &&& post.tainted_ids() == pre.tainted_ids()
    &&& post.excluded() == pre.excluded()
    &&& post.bookmark_list() == pre.bookmark_list()
}

/// `post` holds the same graph so far as `pre`.
pub open spec fn same_store(pre: GraphBuilder, post: GraphBuilder) -> bool {
    &&& post.segment_models() == pre.segment_models()
    &&& post.edges() == pre.edges()
    &&& post.roots() == pre.roots()
    &&& post.collected() == pre.collected()
    &&& post.tainted_ids() == pre.tainted_ids()
    &&& post.excluded() == pre.excluded()
    &&& post.bookmark_list() == pre.bookmark_list()
}

/// What feeding `page` to the walk under way in `pre` gives: the entries
/// are applied in order until one does not continue the walk.
/// - An orphan entry fails, naming it and the walk's bookmark.
/// - An excluding entry counts the bookmark as excluded, taints every change
///   id the walk has seen, and starts the next walk.
/// - Reaching a collected bookmark records the walk with an edge to it; a
///   page shorter than `PAGE_SIZE` ends the walk at trunk and records it
///   with a root. Either way the walk's names are collected and the next
///   walk starts.
/// - A full page asks for the next page of the same walk, after the page's
///   last commit.
pub open spec fn fed(
    pre: GraphBuilder,
    page: Seq<LogEntry>,
    post: GraphBuilder,
    r: Result<BuildStep, GraphError>,
) -> bool {
    let out = walk_entries(
        pre.walk()->Some_0,
        page,
        0,
        bookmark_names(pre.bookmark_list()),
        pre.collected(),
        pre.tainted_ids(),
    );
    let w = out.0;
    match out.1 {
        WalkEnd::Orphan => r matches Err(e) && e.change_id@ == page[out.2 as int].change_id@
            && e.bookmark@ == pre.walk_name(),
        WalkEnd::Excluded => r matches Ok(step) && post.excluded() == pre.excluded() + 1
            && post.tainted_ids() == pre.tainted_ids() + w.2.to_set() && post.segment_models()
            == pre.segment_models() && post.edges() == pre.edges() && post.roots() == pre.roots()
            && post.collected() == pre.collected() && post.bookmark_list() == pre.bookmark_list()
            && start_result(pre.bookmark_list(), pre.cursor(), pre.collected(), post, step),
        WalkEnd::Reached(id) => r matches Ok(step) && recorded(pre, closed_of(w), Some(id), post)
            && post.collected() == pre.collected() + names_of(closed_of(w), closed_of(w).len())
            && start_result(pre.bookmark_list(), pre.cursor(), post.collected(), post, step),
        WalkEnd::Continue => if page.len() < PAGE_SIZE {
            r matches Ok(step) && recorded(pre, closed_of(w), None, post) && post.collected()
                == pre.collected() + names_of(closed_of(w), closed_of(w).len()) && start_result(
                pre.bookmark_list(),
                pre.cursor(),
                post.collected(),
                post,
                step,
            )
        } else {
            r matches Ok(step) && is_fetch(step, pre.walk_commit(), Some(page.last().commit_id@))
                && same_store(pre, post) && post.cursor() == pre.cursor() && post.walk() == Some(w)
                && post.walk_commit() == pre.walk_commit() && post.walk_name() == pre.walk_name()
        },
    }
}

/// Builds a change graph from the user's bookmarks and pages of log
/// entries, one walk per bookmark not yet collected.
#[derive(Debug)]
pub struct GraphBuilder {
    bookmarks: Vec<Bookmark>,
    user_names: Vec<String>,
    next_index: usize,
    fully_collected: Vec<String>,
    adjacency_list: Vec<(String, String)>,
    segments: Vec<BookmarkSegment>,
    stack_roots: Vec<String>,
    tainted: Vec<String>,
    excluded_count: usize,
    walk: Option<Traversal>,
}

impl GraphBuilder {
    /// The builder's invariant.
    pub closed spec fn wf(&self) -> bool {
        &&& self.next_index <= self.bookmarks@.len()
        &&& self.excluded_count + (if self.walk is Some { 1int } else { 0int }) <= self.next_index
        &&& views(self.user_names@) == bookmark_names(self.bookmarks@)
        &&& distinct(edge_keys(self.adjacency_list@))
        &&& distinct(seg_ids(self.segments@))
        &&& distinct(views(self.tainted@))
        &&& distinct(views(self.stack_roots@))
    }

    /// Bookmarks excluded so far.
    pub closed spec fn excluded(&self) -> nat {
        self.excluded_count as nat
    }

    /// Change ids tainted so far.
    pub closed spec fn tainted_ids(&self) -> Set<Seq<char>> {
        views(self.tainted@).to_set()
    }

    /// Segments stored so far.
    pub closed spec fn segment_models(&self) -> Seq<SegmentModel> {
        segment_views(self.segments@)
    }

    /// Child-to-parent edges recorded so far.
    pub closed spec fn edges(&self) -> EdgeModel {
        edge_models(self.adjacency_list@)
    }

    /// Roots recorded so far.
    pub closed spec fn roots(&self) -> Seq<Seq<char>> {
        views(self.stack_roots@)
    }

    /// The bookmarks the builder was made with.
    pub closed spec fn bookmark_list(&self) -> Seq<Bookmark> {
        self.bookmarks@
    }

    /// Bookmark names collected so far.
    pub closed spec fn collected(&self) -> Seq<Seq<char>> {
        views(self.fully_collected@)
    }

    /// Index of the next bookmark to consider.
    pub closed spec fn cursor(&self) -> nat {
        self.next_index as nat
    }

    /// The walk under way, if any.
    pub closed spec fn walk(&self) -> Option<WalkModel> {
        match self.walk {
            Some(t) => Some(walk_model(t)),
            None => None,
        }
    }

    /// The commit the walk under way started from.
    pub closed spec fn walk_commit(&self) -> Seq<char> {
        match self.walk {
            Some(t) => t.commit_id@,
            None => Seq::empty(),
        }
    }

    /// The bookmark the walk under way started from.
    pub closed spec fn walk_name(&self) -> Seq<char> {
        match self.walk {
            Some(t) => t.bookmark_name@,
            None => Seq::empty(),
        }
    }

    /// Whether a walk is under way.
    pub open spec fn walking(&self) -> bool {
        self.walk() is Some
    }

    /// A builder for `bookmarks`, which are all the user's own.
    pub fn new(bookmarks: Vec<Bookmark>) -> (r: GraphBuilder)
        ensures
            r.wf(),
            r.walk() is None,
            r.cursor() == 0,
            r.excluded() == 0,
            r.tainted_ids() == Set::<Seq<char>>::empty(),
            r.segment_models() == Seq::<SegmentModel>::empty(),
            r.edges() == EdgeModel::empty(),
            r.roots() == Seq::<Seq<char>>::empty(),
            r.collected() == Seq::<Seq<char>>::empty(),
            r.bookmark_list() == bookmarks@,
    {
        let mut user_names: Vec<String> = Vec::new();
        let mut i: usize = 0;
        while i < bookmarks.len()
            invariant
                i <= bookmarks.len(),
                user_names@.len() == i,
                forall|k: int| 0 <= k < i ==> #[trigger] user_names@[k]@ == bookmarks@[k].name@,
            decreases bookmarks.len() - i,
        {
            user_names.push(bookmarks[i].name.clone());
            i = i + 1;
        }
        assert(views(user_names@) =~= bookmark_names(bookmarks@));
        let r = GraphBuilder {
            bookmarks,
            user_names,
            next_index: 0,
            fully_collected: Vec::new(),
            adjacency_list: Vec::new(),
            segments: Vec::new(),
            stack_roots: Vec::new(),
            tainted: Vec::new(),
            excluded_count: 0,
            walk: None,
        };
        assert(views(r.tainted@).to_set() =~= Set::<Seq<char>>::empty());
        assert(segment_views(r.segments@) =~= Seq::<SegmentModel>::empty());
        assert(edge_models(r.adjacency_list@) =~= EdgeModel::empty());
        assert(views(r.stack_roots@) =~= Seq::<Seq<char>>::empty());
        assert(views(r.fully_collected@) =~= Seq::<Seq<char>>::empty());
        r
    }

    /// Starts the walk of the first bookmark at or after the cursor that no
    /// earlier walk collected, and asks for its first page; `Done` when every
    /// remaining bookmark is collected.
    pub fn start_next(&mut self) -> (r: BuildStep)
        requires
            old(self).wf(),
            !old(self).walking(),
        ensures
            final(self).wf(),
            start_result(old(self).bookmark_list(), old(self).cursor(), old(self).collected(), *final(self), r),
            r is Done <==> forall|i: int|
                old(self).cursor() <= i < old(self).bookmark_list().len() ==> old(self).collected().contains(
                    #[trigger] old(self).bookmark_list()[i].name@,
                ),
            same_store(*old(self), *final(self)),
    {
        let ghost b0 = self.bookmarks@;
        let ghost c0 = views(self.fully_collected@);
        let ghost from = self.next_index as nat;
        proof {
            lemma_first_uncollected(b0, from, c0);
        }
        while self.next_index < self.bookmarks.len()
            invariant
                self.wf(),
                self.walk is None,
                same_store(*old(self), *self),
                b0 == self.bookmarks@,
                c0 == views(self.fully_collected@),
                b0 == old(self).bookmark_list(),
                c0 == old(self).collected(),
                from == old(self).cursor(),
                first_uncollected(b0, from, c0) == first_uncollected(b0, self.next_index as nat, c0),
            decreases self.bookmarks.len() - self.next_index,
        {
            let i = self.next_index;
            self.next_index = i + 1;
            if !has_str(&self.fully_collected, self.bookmarks[i].name.as_str()) {
                let b = &self.bookmarks[i];
                let t = Traversal {
                    bookmark_name: b.name.clone(),
                    commit_id: b.commit_id.clone(),
                    segments: Vec::new(),
                    current: None,
                    seen_change_ids: Vec::new(),
                };
                assert(walk_model(t) =~= fresh_walk()) by {
                    assert(segment_views(t.segments@) =~= Seq::<SegmentModel>::empty());
                    assert(views(t.seen_change_ids@) =~= Seq::<Seq<char>>::empty());
                }
                self.walk = Some(t);
                proof {
                    assert(!c0.contains(b0[i as int].name@));
                    assert(first_uncollected(b0, i as nat, c0) == Some(i as nat));
                    lemma_first_uncollected(b0, from, c0);
                }
                return BuildStep::Fetch { to: self.bookmarks[i].commit_id.clone(), after: None };
            }
        }
        proof {
            lemma_first_uncollected(b0, from, c0);
        }
        BuildStep::Done
    }

    /// Records a finished walk's segments (newest first): stores them,
    /// collects their names, links consecutive ones, and links the last to
    /// `reached` or makes it a root.
    fn record_walk(&mut self, segments: Vec<BookmarkSegment>, reached: Option<String>)
        requires
            old(self).wf(),
            old(self).walk is None,
        ensures
            final(self).wf(),
            final(self).walk is None,
            final(self).cursor() == old(self).cursor(),
            recorded(*old(self), segment_views(segments@), match reached {
                Some(id) => Some(id@),
                None => None,
            }, *final(self)),
            final(self).collected() == old(self).collected() + names_of(
                segment_views(segments@),
                segments@.len(),
            ),
    {
        let ghost ms = segment_views(segments@);
        let ghost ids = ms.map_values(|m: SegmentModel| m.1);
        let ghost pre = *self;
        let n = segments.len();
        // Every bookmark name of the walk is now collected.
        let mut i: usize = 0;
        while i < n
            invariant
                self.wf(),
                self.walk is None,
                self.adjacency_list@ == pre.adjacency_list@,
                self.segments@ == pre.segments@,
                self.stack_roots@ == pre.stack_roots@,
                self.tainted@ == pre.tainted@,
                self.excluded_count == pre.excluded_count,
                self.next_index == pre.next_index,
                self.bookmarks@ == pre.bookmarks@,
                ms == segment_views(segments@),
                n == segments.len(),
                i <= n,
                views(self.fully_collected@) == views(pre.fully_collected@) + names_of(ms, i as nat),
            decreases n - i,
        {
            let ghost base = views(self.fully_collected@);
            let mut j: usize = 0;
            while j < segments[i].bookmark_names.len()
                invariant
                    self.wf(),
                    self.walk is None,
                    self.adjacency_list@ == pre.adjacency_list@,
                    self.segments@ == pre.segments@,
                    self.stack_roots@ == pre.stack_roots@,
                    self.tainted@ == pre.tainted@,
                    self.excluded_count == pre.excluded_count,
                    self.next_index == pre.next_index,
                    self.bookmarks@ == pre.bookmarks@,
                    n == segments.len(),
                    i < n,
                    j <= segments[i as int].bookmark_names.len(),
                    views(self.fully_collected@) == base + views(segments[i as int].bookmark_names@).subrange(0, j as int),
                decreases segments[i as int].bookmark_names.len() - j,
            {
                let ghost before = views(self.fully_collected@);
                self.fully_collected.push(segments[i].bookmark_names[j].clone());
                assert(views(self.fully_collected@) =~= before.push(segments@[i as int].bookmark_names@[j as int]@));
                assert(views(segments[i as int].bookmark_names@).subrange(0, j + 1) =~= views(
                    segments[i as int].bookmark_names@,
                ).subrange(0, j as int).push(segments@[i as int].bookmark_names@[j as int]@));
                j = j + 1;
            }
            proof {
                assert(views(segments[i as int].bookmark_names@).subrange(0, j as int) =~= ms[i as int].0);
                assert(names_of(ms, (i + 1) as nat) == names_of(ms, i as nat) + ms[i as int].0);
                assert(views(self.fully_collected@) =~= views(pre.fully_collected@) + names_of(ms, (i + 1) as nat));
            }
            i = i + 1;
        }
        let ghost coll = self.fully_collected@;
        // Consecutive segments are child and parent.
        let mut i: usize = 0;
        while n > 0 && i < n - 1
            invariant
                self.wf(),
                self.walk is None,
                self.segments@ == pre.segments@,
                self.stack_roots@ == pre.stack_roots@,
                self.tainted@ == pre.tainted@,
                self.excluded_count == pre.excluded_count,
                self.next_index == pre.next_index,
                self.bookmarks@ == pre.bookmarks@,
                self.fully_collected@ == coll,
                ms == segment_views(segments@),
                ids == ms.map_values(|m: SegmentModel| m.1),
                n == segments.len(),
                i <= n,
                n > 0 ==> i <= n - 1,
                edge_models(self.adjacency_list@) == link(edge_models(pre.adjacency_list@), ids, i as nat),
            decreases n - i,
        {
            proof {
                assert(ids[i as int] == segments@[i as int].change_id@);
                assert(ids[i + 1] == segments@[i + 1].change_id@);
            }
            insert_edge(
                &mut self.adjacency_list,
                segments[i].change_id.clone(),
                segments[i + 1].change_id.clone(),
            );
            i = i + 1;
        }
        if n > 0 {
            proof {
                assert(ids[n - 1] == segments@[n - 1].change_id@);
            }
            match reached {
                Some(id) => {
                    insert_edge(&mut self.adjacency_list, segments[n - 1].change_id.clone(), id);
                },
                None => {
                    insert_str(&mut self.stack_roots, segments[n - 1].change_id.clone());
                },
            }
        }
        let ghost edges = self.adjacency_list@;
        let ghost roots = self.stack_roots@;
        // Store the segments.
        let mut i: usize = 0;
        while i < n
            invariant
                self.wf(),
                self.walk is None,
                self.tainted@ == pre.tainted@,
                self.excluded_count == pre.excluded_count,
                self.next_index == pre.next_index,
                self.bookmarks@ == pre.bookmarks@,
                self.fully_collected@ == coll,
                self.adjacency_list@ == edges,
                self.stack_roots@ == roots,
                n == segments.len(),
                ms == segment_views(segments@),
                i <= n,
                segment_views(self.segments@) == put_all(segment_views(pre.segments@), ms, i as nat),
            decreases n - i,
        {
            let seg = copy_segment(&segments[i]);
            assert(ms[i as int] == seg@);
            insert_segment(&mut self.segments, seg);
            i = i + 1;
        }
    }

    /// Closes the open segment of a walk and returns its segments.
    fn close_walk(walk: Traversal) -> (r: Vec<BookmarkSegment>)
        ensures
            segment_views(r@) == closed_of(walk_model(walk)),
    {
        let mut walk = walk;
        let ghost expected = closed_of(walk_model(walk));
        let cur = walk.current.take();
        match cur {
            Some(c) => {
                walk.segments.push(c);
            },
            None => {},
        }
        assert(segment_views(walk.segments@) =~= expected);
        walk.segments
    }

    /// Applies one page of the walk under way (see `fed`): the next page of
    /// the same walk is asked for, or the next walk starts, or a commit
    /// before any bookmark fails the build.
    pub fn feed_page(&mut self, page: &Vec<LogEntry>) -> (r: Result<BuildStep, GraphError>)
        requires
            old(self).wf(),
            old(self).walking(),
        ensures
            r is Ok ==> final(self).wf(),
            r is Ok ==> (r matches Ok(BuildStep::Done) <==> !final(self).walking()),
            fed(*old(self), page@, *final(self), r),
    {
        let ghost pre = *self;
        let ghost w0 = self.walk()->Some_0;
        let ghost user = bookmark_names(self.bookmarks@);
        let ghost coll = views(self.fully_collected@);
        let ghost taint = self.tainted_ids();
        let ghost out = walk_entries(w0, page@, 0, user, coll, taint);
        let walk = self.walk.take();
        let mut walk = match walk {
            Some(w) => w,
            None => {
                assert(false);
                return Ok(BuildStep::Done);
            },
        };
        let mut i: usize = 0;
        while i < page.len()
            invariant
                self.wf(),
                self.walk is None,
                self.excluded_count < self.next_index,
                self.adjacency_list@ == pre.adjacency_list@,
                self.segments@ == pre.segments@,
                self.stack_roots@ == pre.stack_roots@,
                self.tainted@ == pre.tainted@,
                self.excluded_count == pre.excluded_count,
                self.next_index == pre.next_index,
                self.bookmarks@ == pre.bookmarks@,
                self.fully_collected@ == pre.fully_collected@,
                self.user_names@ == pre.user_names@,
                pre == *old(self),
                w0 == pre.walk()->Some_0,
                user == bookmark_names(pre.bookmarks@),
                coll == views(pre.fully_collected@),
                taint == views(pre.tainted@).to_set(),
                walk.bookmark_name@ == pre.walk_name(),
                walk.commit_id@ == pre.walk_commit(),
                out == walk_entries(w0, page@, 0, user, coll, taint),
                out == walk_entries(walk_model(walk), page@, i as nat, user, coll, taint),
                i <= page.len(),
            decreases page.len() - i,
        {
            let ghost wb = walk_model(walk);
            let out_i = process_entry(
                &mut walk,
                &page[i],
                &self.user_names,
                &self.fully_collected,
                &mut self.tainted,
            );
            let ghost st = entry_step(wb, page@[i as int], user, coll, taint);
            proof {
                assert(walk_model(walk) == st.0 && outcome_end(out_i) == st.1);
                if !(st.1 is Continue) {
                    assert(out == (st.0, st.1, i as nat));
                }
                assert(taint.contains(page@[i as int].change_id@) == views(pre.tainted@).contains(
                    page@[i as int].change_id@,
                ));
            }
            match out_i {
                EntryOutcome::Continue => {},
                EntryOutcome::Excluded => {
                    proof {
                        assert(views(self.tainted@).to_set() == taint + out.0.2.to_set());
                    }
                    self.excluded_count = self.excluded_count + 1;
                    proof {
                        let mid = *self;
                        assert(out.1 is Excluded);
                        assert(mid.excluded() == pre.excluded() + 1);
                        assert(mid.tainted_ids() == pre.tainted_ids() + out.0.2.to_set());
                        assert(mid.segment_models() == pre.segment_models());
                        assert(mid.edges() == pre.edges());
                        assert(mid.roots() == pre.roots());
                        assert(mid.collected() == pre.collected());
                        assert(mid.cursor() == pre.cursor());
                        assert(mid.bookmark_list() == pre.bookmark_list());
                    }
                    let step = self.start_next();
                    return Ok(step);
                },
                EntryOutcome::ReachedCollected(id) => {
                    let ghost idv = id@;
                    let segs = Self::close_walk(walk);
                    proof {
                        assert(out.1 == WalkEnd::Reached(idv));
                        assert(segment_views(segs@) == closed_of(out.0));
                        let mid = *self;
                        assert(mid.segment_models() == pre.segment_models());
                        assert(mid.edges() == pre.edges());
                        assert(mid.roots() == pre.roots());
                        assert(mid.tainted_ids() == pre.tainted_ids());
                        assert(mid.collected() == pre.collected());
                    }
                    self.record_walk(segs, Some(id));
                    proof {
                        assert(recorded(pre, closed_of(out.0), Some(idv), *self));
                    }
                    let step = self.start_next();
                    return Ok(step);
                },
                EntryOutcome::Orphan => {
                    return Err(
                        GraphError {
                            change_id: page[i].change_id.clone(),
                            bookmark: walk.bookmark_name.clone(),
                        },
                    );
                },
            }
            i = i + 1;
        }
        if page.len() < PAGE_SIZE {
            let segs = Self::close_walk(walk);
            self.record_walk(segs, None);
            let step = self.start_next();
            return Ok(step);
        }
        let to = walk.commit_id.clone();
        let after = page[page.len() - 1].commit_id.clone();
        self.walk = Some(walk);
        Ok(BuildStep::Fetch { to, after: Some(after) })
    }

    /// The graph: the stored segments, edges, roots and taint; leaves are
    /// the stored change ids that are nobody's parent, with one stack per
    /// leaf.
    pub fn finish(self) -> (r: ChangeGraph)
        requires
            self.wf(),
        ensures
            segment_views(r.segments@) == self.segment_models(),
            edge_models(r.adjacency_list@) == self.edges(),
            views(r.stack_roots@) == self.roots(),
            views(r.tainted_change_ids@).to_set() == self.tainted_ids(),
            r.excluded_bookmark_count == self.excluded(),
            distinct(edge_keys(r.adjacency_list@)),
            distinct(seg_ids(r.segments@)),
            distinct(views(r.stack_leaves@)),
            distinct(views(r.stack_roots@)),
            views(r.stack_leaves@).to_set() == seg_ids(r.segments@).to_set().filter(
                |id: Seq<char>| !edge_values(r.adjacency_list@).contains(id),
            ),
            stacks_of_leaves(
                stack_views(r.stacks@),
                views(r.stack_leaves@).to_set(),
                r.adjacency_list@,
                r.segments@,
            ),
    {
        let mut leaves: Vec<String> = Vec::new();
        assert(views(leaves@) =~= Seq::<Seq<char>>::empty());
        let ghost ids = seg_ids(self.segments@);
        let ghost vals = edge_values(self.adjacency_list@);
        let ghost leafish = |id: Seq<char>| !vals.contains(id);
        let mut i: usize = 0;
        while i < self.segments.len()
            invariant
                i <= self.segments.len(),
                ids == seg_ids(self.segments@),
                vals == edge_values(self.adjacency_list@),
                forall|x: Seq<char>| #[trigger] leafish(x) == !vals.contains(x),
                distinct(views(leaves@)),
                views(leaves@).to_set() == ids.subrange(0, i as int).to_set().filter(leafish),
            decreases self.segments.len() - i,
        {
            let id = &self.segments[i].change_id;
            let is_parent = is_edge_value(&self.adjacency_list, id.as_str());
            let ghost before = views(leaves@).to_set();
            if !is_parent {
                insert_str(&mut leaves, id.clone());
            }
            proof {
                let pre = ids.subrange(0, i as int);
                assert(ids.subrange(0, i + 1) =~= pre.push(ids[i as int]));
                lemma_push_to_set(pre, ids[i as int]);
                assert(ids[i as int] == self.segments@[i as int].change_id@);
                let idv = ids[i as int];
                assert forall|x: Seq<char>| #[trigger] views(leaves@).to_set().contains(x) <==> pre.push(
                    idv,
                ).to_set().filter(leafish).contains(x) by {
                    assert(pre.push(idv).to_set().contains(x) <==> (pre.to_set().contains(x) || x
                        == idv));
                    assert(pre.to_set().filter(leafish).contains(x) <==> (pre.to_set().contains(x)
                        && leafish(x)));
                    assert(pre.push(idv).to_set().filter(leafish).contains(x) <==> (pre.push(
                        idv,
                    ).to_set().contains(x) && leafish(x)));
                    assert(leafish(idv) == !is_parent);
                }
                assert(views(leaves@).to_set() =~= pre.push(idv).to_set().filter(leafish));
            }
            i = i + 1;
        }
        assert(ids.subrange(0, self.segments.len() as int) =~= ids);
        assert(views(leaves@).to_set() =~= ids.to_set().filter(
            |id: Seq<char>| !edge_values(self.adjacency_list@).contains(id),
        ));
        let stacks = group_segments_into_stacks(&leaves, &self.adjacency_list, &self.segments);
        ChangeGraph {
            adjacency_list: self.adjacency_list,
            stack_leaves: leaves,
            stack_roots: self.stack_roots,
            segments: self.segments,
            tainted_change_ids: self.tainted,
            excluded_bookmark_count: self.excluded_count,
            stacks,
        }
    }
}

/// Whether `id` is the parent in some edge.
pub fn is_edge_value(adj: &Vec<(String, String)>, id: &str) -> (r: bool)
    ensures
        r == edge_values(adj@).contains(id@),
{
    let mut i: usize = 0;
    while i < adj.len()
        invariant
            i <= adj.len(),
            forall|k: int| 0 <= k < i ==> adj@[k].1@ != id@,
        decreases adj.len() - i,
    {
        if str_eq(adj[i].1.as_str(), id) {
            assert(edge_values(adj@)[i as int] == id@);
            return true;
        }
        i = i + 1;
    }
    assert forall|k: int| 0 <= k < edge_values(adj@).len() implies edge_values(adj@)[k] != id@ by {
        assert(edge_values(adj@)[k] == adj@[k].1@);
    }
    false
}

} // verus!
