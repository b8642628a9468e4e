//! Stack assembly: the walk from each leaf to its root, in a deterministic
//! order of leaves, and the leaves-first topological order of the graph.

use vstd::prelude::*;
use crate::text::{str_eq, str_less, str_lt, lemma_str_lt_total, lemma_str_lt_trans};
use crate::vcs::views;
use crate::graph::{
    BookmarkSegment, BranchStack, ChangeGraph, SegmentModel, copy_segment, segment_views,
    edge_values,
};

verus! {

/// The parent of `id`: the parent of the first edge whose child is `id`.
pub open spec fn parent_in(adj: Seq<(String, String)>, id: Seq<char>) -> Option<Seq<char>>
    decreases adj.len(),
{
    if adj.len() == 0 {
        None
    } else if adj[0].0@ == id {
        Some(adj[0].1@)
    } else {
        parent_in(adj.drop_first(), id)
    }
}

proof fn lemma_parent_in_skip(adj: Seq<(String, String)>, id: Seq<char>, i: int)
    requires
        0 <= i < adj.len(),
        adj[i].0@ != id,
    ensures
        parent_in(adj.subrange(i, adj.len() as int), id) == parent_in(
            adj.subrange(i + 1, adj.len() as int),
            id,
        ),
{
    let t = adj.subrange(i, adj.len() as int);
    assert(t.drop_first() =~= adj.subrange(i + 1, adj.len() as int));
}

/// The parent of `id` in `adj`, if it has one.
pub fn parent_of(adj: &Vec<(String, String)>, id: &str) -> (r: Option<String>)
    ensures
        match r {
            Some(p) => parent_in(adj@, id@) == Some(p@),
            None => parent_in(adj@, id@) is None,
        },
{
    let mut i: usize = 0;
    assert(adj@.subrange(0, adj@.len() as int) =~= adj@);
    while i < adj.len()
        invariant
            i <= adj.len(),
            parent_in(adj@, id@) == parent_in(adj@.subrange(i as int, adj@.len() as int), id@),
        decreases adj.len() - i,
    {
        if str_eq(adj[i].0.as_str(), id) {
            let ghost t = adj@.subrange(i as int, adj@.len() as int);
            assert(t[0] == adj@[i as int]);
            return Some(adj[i].1.clone());
        }
        proof {
            lemma_parent_in_skip(adj@, id@, i as int);
        }
        i = i + 1;
    }
    None
}

/// The change ids from `id` toward the root, following at most `fuel`
/// parent edges.
pub open spec fn chain(adj: Seq<(String, String)>, id: Seq<char>, fuel: nat) -> Seq<Seq<char>>
    decreases fuel,
{
    if fuel == 0 {
        seq![id]
    } else {
        match parent_in(adj, id) {
            Some(p) => seq![id] + chain(adj, p, (fuel - 1) as nat),
            None => seq![id],
        }
    }
}

/// The segment stored under `id`: the first one with that change id.
pub open spec fn seg_lookup(segs: Seq<BookmarkSegment>, id: Seq<char>) -> Option<SegmentModel>
    decreases segs.len(),
{
    if segs.len() == 0 {
        None
    } else if segs[0].change_id@ == id {
        Some(segs[0]@)
    } else {
        seg_lookup(segs.drop_first(), id)
    }
}

/// The segments stored under `ids`, in order, skipping ids without one.
pub open spec fn resolve(ids: Seq<Seq<char>>, segs: Seq<BookmarkSegment>) -> Seq<SegmentModel>
    decreases ids.len(),
{
    if ids.len() == 0 {
        Seq::empty()
    } else {
        let r = resolve(ids.drop_last(), segs);
        match seg_lookup(segs, ids.last()) {
            Some(m) => r.push(m),
            None => r,
        }
    }
}

/// The stack that ends at `leaf`: the segments on the path from the root
/// to `leaf`, trunk first. The path follows at most as many edges as there
/// are, which is every edge of a path in an acyclic graph.
pub open spec fn stack_of(
    adj: Seq<(String, String)>,
    segs: Seq<BookmarkSegment>,
    leaf: Seq<char>,
) -> Seq<SegmentModel> {
    resolve(chain(adj, leaf, adj.len()).reverse(), segs)
}

/// The index of the segment stored under `id`, if any.
pub fn find_segment(segs: &Vec<BookmarkSegment>, id: &str) -> (r: Option<usize>)
    ensures
        match r {
            Some(i) => i < segs@.len() && seg_lookup(segs@, id@) == Some(segs@[i as int]@),
            None => seg_lookup(segs@, id@) is None,
        },
{
    let mut i: usize = 0;
    assert(segs@.subrange(0, segs@.len() as int) =~= segs@);
    while i < segs.len()
        invariant
            i <= segs.len(),
            seg_lookup(segs@, id@) == seg_lookup(segs@.subrange(i as int, segs@.len() as int), id@),
        decreases segs.len() - i,
    {
        let ghost t = segs@.subrange(i as int, segs@.len() as int);
        assert(t[0] == segs@[i as int]);
        if str_eq(segs[i].change_id.as_str(), id) {
            return Some(i);
        }
        assert(t.drop_first() =~= segs@.subrange(i + 1, segs@.len() as int));
        i = i + 1;
    }
    None
}

/// The stack that ends at `leaf`.
pub fn build_stack(
    leaf: &String,
    adjacency: &Vec<(String, String)>,
    segments: &Vec<BookmarkSegment>,
) -> (r: BranchStack)
    ensures
        segment_views(r.segments@) == stack_of(adjacency@, segments@, leaf@),
{
    let ghost full = chain(adjacency@, leaf@, adjacency@.len());
    let mut path: Vec<String> = Vec::new();
    path.push(leaf.clone());
    let mut cur = leaf.clone();
    let mut fuel: usize = adjacency.len();
    let mut done = false;
    assert(views(path@) =~= seq![leaf@]);
    assert(chain(adjacency@, leaf@, fuel as nat) == seq![leaf@] + chain(
        adjacency@,
        leaf@,
        fuel as nat,
    ).drop_first());
    while fuel > 0 && !done
        invariant
            full == chain(adjacency@, leaf@, adjacency@.len()),
            views(path@) + chain(adjacency@, cur@, fuel as nat).drop_first() == full,
            done ==> chain(adjacency@, cur@, fuel as nat) == seq![cur@],
        decreases fuel + (if done { 0int } else { 1int }),
    {
        match parent_of(adjacency, cur.as_str()) {
            Some(p) => {
                let ghost before = views(path@);
                let ghost rest = chain(adjacency@, p@, (fuel - 1) as nat);
                assert(chain(adjacency@, cur@, fuel as nat) == seq![cur@] + rest);
                assert((seq![cur@] + rest).drop_first() =~= rest);
                assert(rest == seq![p@] + rest.drop_first()) by {
                    assert(rest[0] == p@);
                    assert(rest =~= seq![p@] + rest.drop_first());
                }
                path.push(p.clone());
                assert(views(path@) =~= before.push(p@));
                assert(before.push(p@) + rest.drop_first() =~= before + rest);
                cur = p;
                fuel = fuel - 1;
            },
            None => {
                assert(chain(adjacency@, cur@, fuel as nat) == seq![cur@]);
                done = true;
            },
        }
    }
    assert(chain(adjacency@, cur@, fuel as nat).drop_first() =~= Seq::<Seq<char>>::empty()) by {
        if fuel == 0 {
            assert(chain(adjacency@, cur@, 0) == seq![cur@]);
        }
    }
    assert(views(path@) =~= full);
    let ghost ids = full.reverse();
    let mut out: Vec<BookmarkSegment> = Vec::new();
    let n = path.len();
    let mut k: usize = 0;
    while k < n
        invariant
            n == path@.len(),
            views(path@) == full,
            ids == full.reverse(),
            k <= n,
            segment_views(out@) == resolve(ids.subrange(0, k as int), segments@),
        decreases n - k,
    {
        let id = &path[n - 1 - k];
        proof {
            assert(ids[k as int] == full[n - 1 - k]);
            assert(views(path@)[n - 1 - k] == path@[n - 1 - k]@);
            assert(ids.subrange(0, k + 1).drop_last() =~= ids.subrange(0, k as int));
            assert(ids.subrange(0, k + 1).last() == ids[k as int]);
        }
        match find_segment(segments, id.as_str()) {
            Some(j) => {
                let seg = copy_segment(&segments[j]);
                out.push(seg);
                assert(segment_views(out@) =~= resolve(ids.subrange(0, k as int), segments@).push(
                    seg@,
                ));
            },
            None => {},
        }
        k = k + 1;
    }
    assert(ids.subrange(0, n as int) =~= ids);
    BranchStack { segments: out }
}

/// `v` is in strictly increasing lexicographic order.
pub open spec fn sorted_strict(v: Seq<Seq<char>>) -> bool {
    forall|i: int, j: int| 0 <= i < j < v.len() ==> str_lt(#[trigger] v[i], #[trigger] v[j])
}

/// Inserts `s` into the sorted list `v`, unless it is there already.
pub fn sorted_insert(v: &mut Vec<String>, s: String)
    requires
        sorted_strict(views(old(v)@)),
    ensures
        sorted_strict(views(final(v)@)),
        views(final(v)@).to_set() == views(old(v)@).to_set().insert(s@),
{
    let ghost sv = s@;
    let mut p: usize = 0;
    while p < v.len() && str_less(v[p].as_str(), s.as_str())
        invariant
            p <= v.len(),
            v@ == old(v)@,
            s@ == sv,
            forall|k: int| 0 <= k < p ==> str_lt(#[trigger] v@[k]@, sv),
        decreases v.len() - p,
    {
        p = p + 1;
    }
    if p < v.len() && str_eq(v[p].as_str(), s.as_str()) {
        proof {
            assert(views(v@)[p as int] == sv);
            assert(views(v@).to_set().insert(sv) =~= views(v@).to_set());
        }
        return;
    }
    let ghost old_views = views(v@);
    proof {
        if p < v.len() {
            lemma_str_lt_total(v@[p as int]@, sv);
        }
    }
    v.insert(p, s);
    proof {
        let nv = views(v@);
        assert(nv =~= old_views.insert(p as int, sv));
        assert forall|i: int, j: int| 0 <= i < j < nv.len() implies str_lt(#[trigger] nv[i], #[trigger] nv[j]) by {
            if j < p {
                assert(nv[i] == old_views[i] && nv[j] == old_views[j]);
            } else if j == p {
                assert(nv[i] == old_views[i]);
                assert(str_lt(v@[i]@, sv));
            } else if i == p {
                assert(nv[j] == old_views[j - 1]);
                if j - 1 > p {
                    assert(str_lt(old_views[p as int], old_views[j - 1]));
                    lemma_str_lt_trans(sv, old_views[p as int], old_views[j - 1]);
                }
            } else if i < p {
                assert(nv[i] == old_views[i] && nv[j] == old_views[j - 1]);
                assert(str_lt(old_views[i], sv));
                if j - 1 > p {
                    assert(str_lt(old_views[p as int], old_views[j - 1]));
                    lemma_str_lt_trans(sv, old_views[p as int], old_views[j - 1]);
                }
                lemma_str_lt_trans(old_views[i], sv, old_views[j - 1]);
            } else {
                assert(nv[i] == old_views[i - 1] && nv[j] == old_views[j - 1]);
            }
        }
        assert(nv.to_set() =~= old_views.to_set().insert(sv)) by {
            assert forall|x: Seq<char>| nv.contains(x) <==> (old_views.contains(x) || x == sv) by {
                if nv.contains(x) {
                    let i = choose|i: int| 0 <= i < nv.len() && nv[i] == x;
                    if i < p {
                        assert(nv[i] == old_views[i]);
                    } else if i > p {
                        assert(nv[i] == old_views[i - 1]);
                    }
                }
                if old_views.contains(x) {
                    let i = choose|i: int| 0 <= i < old_views.len() && old_views[i] == x;
                    if i < p {
                        assert(nv[i] == x);
                    } else {
                        assert(nv[i + 1] == x);
                    }
                }
                if x == sv {
                    assert(nv[p as int] == x);
                }
            }
        }
    }
}

/// The distinct strings of `v` in strictly increasing order.
pub fn sort_strs(v: &Vec<String>) -> (r: Vec<String>)
    ensures
        sorted_strict(views(r@)),
        views(r@).to_set() == views(v@).to_set(),
{
    let mut out: Vec<String> = Vec::new();
    let mut i: usize = 0;
    assert(views(out@).to_set() =~= views(v@).subrange(0, 0).to_set());
    while i < v.len()
        invariant
            i <= v.len(),
            sorted_strict(views(out@)),
            views(out@).to_set() == views(v@).subrange(0, i as int).to_set(),
        decreases v.len() - i,
    {
        sorted_insert(&mut out, v[i].clone());
        proof {
            let pre = views(v@).subrange(0, i as int);
            assert(views(v@).subrange(0, i + 1) =~= pre.push(v@[i as int]@));
            assert(pre.push(v@[i as int]@) == pre + seq![v@[i as int]@]);
            Seq::lemma_to_set_insert_commutes(pre, v@[i as int]@);
        }
        i = i + 1;
    }
    assert(views(v@).subrange(0, v.len() as int) =~= views(v@));
    out
}

/// Two strictly sorted sequences that hold the same elements are equal.
pub proof fn lemma_sorted_unique(a: Seq<Seq<char>>, b: Seq<Seq<char>>)
    requires
        sorted_strict(a),
        sorted_strict(b),
        a.to_set() == b.to_set(),
    ensures
        a == b,
    decreases a.len(),
{
    if a.len() == 0 {
        if b.len() > 0 {
            assert(b.to_set().contains(b[0]));
            assert(a.to_set().contains(b[0]));
        }
        assert(a =~= b);
    } else {
        assert(a.to_set().contains(a[0]));
        assert(b.len() > 0);
        assert(b.to_set().contains(b[0]));
        let j = choose|j: int| 0 <= j < b.len() && b[j] == a[0];
        let i = choose|i: int| 0 <= i < a.len() && a[i] == b[0];
        if a[0] != b[0] {
            assert(j > 0 && i > 0);
            assert(str_lt(b[0], b[j]));
            assert(str_lt(a[0], a[i]));
            lemma_str_lt_total(a[0], b[0]);
        }
        let a1 = a.drop_first();
        let b1 = b.drop_first();
        assert forall|x: Seq<char>| a1.to_set().contains(x) <==> b1.to_set().contains(x) by {
            if a1.contains(x) {
                let k = choose|k: int| 0 <= k < a1.len() && a1[k] == x;
                assert(a[k + 1] == x);
                assert(str_lt(a[0], a[k + 1]));
                lemma_str_lt_total(a[0], a[0]);
                assert(a.contains(x));
                assert(a.to_set().contains(x));
                assert(b.to_set().contains(x));
                assert(b.contains(x));
                let m = choose|m: int| 0 <= m < b.len() && b[m] == x;
                if m == 0 {
                    assert(x == b[0]);
                    assert(false);
                }
                assert(b1[m - 1] == x);
            }
            if b1.contains(x) {
                let k = choose|k: int| 0 <= k < b1.len() && b1[k] == x;
                assert(b[k + 1] == x);
                assert(str_lt(b[0], b[k + 1]));
                lemma_str_lt_total(b[0], b[0]);
                assert(b.contains(x));
                assert(b.to_set().contains(x));
                assert(a.to_set().contains(x));
                assert(a.contains(x));
                let m = choose|m: int| 0 <= m < a.len() && a[m] == x;
                if m == 0 {
                    assert(x == a[0]);
                    assert(false);
                }
                assert(a1[m - 1] == x);
            }
        }
        assert(a1.to_set() =~= b1.to_set());
        assert(sorted_strict(a1)) by {
            assert forall|p: int, q: int| 0 <= p < q < a1.len() implies str_lt(#[trigger] a1[p], #[trigger] a1[q]) by {
                assert(a1[p] == a[p + 1] && a1[q] == a[q + 1]);
            }
        }
        assert(sorted_strict(b1)) by {
            assert forall|p: int, q: int| 0 <= p < q < b1.len() implies str_lt(#[trigger] b1[p], #[trigger] b1[q]) by {
                assert(b1[p] == b[p + 1] && b1[q] == b[q + 1]);
            }
        }
        lemma_sorted_unique(a1, b1);
        assert(a =~= seq![a[0]] + a1);
        assert(b =~= seq![b[0]] + b1);
    }
}

/// `stacks` are the stacks of the leaves `leaves`, one per leaf, leaves in
/// increasing order of change id.
pub open spec fn stacks_of_leaves(
    stacks: Seq<Seq<SegmentModel>>,
    leaves: Set<Seq<char>>,
    adj: Seq<(String, String)>,
    segs: Seq<BookmarkSegment>,
) -> bool {
    exists|order: Seq<Seq<char>>|
        sorted_strict(order) && order.to_set() == leaves && stacks == order.map_values(
            |l: Seq<char>| stack_of(adj, segs, l),
        )
}

/// The models of the stacks in `v`.
pub open spec fn stack_views(v: Seq<BranchStack>) -> Seq<Seq<SegmentModel>> {
    v.map_values(|s: BranchStack| segment_views(s.segments@))
}

/// One stack per leaf, leaves in increasing order of change id, each stack
/// the walk from its leaf to its root, trunk first.
pub fn group_segments_into_stacks(
    stack_leaves: &Vec<String>,
    adjacency_list: &Vec<(String, String)>,
    segments: &Vec<BookmarkSegment>,
) -> (r: Vec<BranchStack>)
    ensures
        stacks_of_leaves(stack_views(r@), views(stack_leaves@).to_set(), adjacency_list@, segments@),
{
    let leaves = sort_strs(stack_leaves);
    let ghost order = views(leaves@);
    let mut stacks: Vec<BranchStack> = Vec::new();
    let mut i: usize = 0;
    while i < leaves.len()
        invariant
            i <= leaves.len(),
            order == views(leaves@),
            stack_views(stacks@) == order.subrange(0, i as int).map_values(
                |l: Seq<char>| stack_of(adjacency_list@, segments@, l),
            ),
        decreases leaves.len() - i,
    {
        let st = build_stack(&leaves[i], adjacency_list, segments);
        assert(stacks@.len() == i) by {
            assert(stack_views(stacks@).len() == i);
        }
        let ghost sv = segment_views(st.segments@);
        let ghost prev = stacks@;
        assert(sv == stack_of(adjacency_list@, segments@, order[i as int]));
        stacks.push(st);
        assert(stack_views(stacks@)[i as int] == sv);
        assert forall|k: int| 0 <= k < i implies #[trigger] stack_views(stacks@)[k] == stack_of(
            adjacency_list@,
            segments@,
            order[k],
        ) by {
            assert(stacks@[k] == prev[k]);
            assert(stack_views(prev)[k] == order.subrange(0, i as int).map_values(
                |l: Seq<char>| stack_of(adjacency_list@, segments@, l),
            )[k]);
        }
        assert(stack_views(stacks@) =~= order.subrange(0, i + 1).map_values(
            |l: Seq<char>| stack_of(adjacency_list@, segments@, l),
        ));
        i = i + 1;
    }
    assert(order.subrange(0, leaves.len() as int) =~= order);
    stacks
}

/// Stack assembly depends on the set of leaves alone, not on the order in
/// which they are listed: two assemblies from the same leaves, edges and
/// segments are equal.
pub proof fn lemma_stacks_deterministic(
    s1: Seq<Seq<SegmentModel>>,
    s2: Seq<Seq<SegmentModel>>,
    leaves: Set<Seq<char>>,
    adj: Seq<(String, String)>,
    segs: Seq<BookmarkSegment>,
)
    requires
        stacks_of_leaves(s1, leaves, adj, segs),
        stacks_of_leaves(s2, leaves, adj, segs),
    ensures
        s1 == s2,
{
    let o1 = choose|order: Seq<Seq<char>>|
        sorted_strict(order) && order.to_set() == leaves && s1 == order.map_values(
            |l: Seq<char>| stack_of(adj, segs, l),
        );
    let o2 = choose|order: Seq<Seq<char>>|
        sorted_strict(order) && order.to_set() == leaves && s2 == order.map_values(
            |l: Seq<char>| stack_of(adj, segs, l),
        );
    lemma_sorted_unique(o1, o2);
}

/// Model of in-degree entries: a change id and how many children name it.
pub type DegreeModel = Seq<(Seq<char>, nat)>;

pub open spec fn degree_views(v: Seq<(String, usize)>) -> DegreeModel {
    v.map_values(|e: (String, usize)| (e.0@, e.1 as nat))
}

/// The first index at or after `i` whose entry is for `id`.
pub open spec fn degree_at(d: DegreeModel, id: Seq<char>, i: nat) -> Option<nat>
    decreases d.len() - i,
{
    if i >= d.len() {
        None
    } else if d[i as int].0 == id {
        Some(i)
    } else {
        degree_at(d, id, i + 1)
    }
}

/// In-degrees after counting the parents of the first `n` edges.
pub open spec fn degrees_of(adj: Seq<(String, String)>, n: nat) -> DegreeModel
    decreases n,
{
    if n == 0 {
        Seq::empty()
    } else {
        let d = degrees_of(adj, (n - 1) as nat);
        let p = adj[n - 1].1@;
        match degree_at(d, p, 0) {
            Some(j) => d.update(j as int, (d[j as int].0, d[j as int].1 + 1)),
            None => d.push((p, 1)),
        }
    }
}

proof fn lemma_degree_at_found(d: DegreeModel, id: Seq<char>, i: nat)
    ensures
        degree_at(d, id, i) matches Some(j) ==> i <= j < d.len() && d[j as int].0 == id,
    decreases d.len() - i,
{
    if i < d.len() && d[i as int].0 != id {
        lemma_degree_at_found(d, id, i + 1);
    }
}

proof fn lemma_degrees_bounded(adj: Seq<(String, String)>, n: nat)
    requires
        n <= adj.len(),
    ensures
        forall|j: int| 0 <= j < degrees_of(adj, n).len() ==> (#[trigger] degrees_of(adj, n)[j]).1 <= n,
    decreases n,
{
    if n > 0 {
        lemma_degrees_bounded(adj, (n - 1) as nat);
        lemma_degree_at_found(degrees_of(adj, (n - 1) as nat), adj[n - 1].1@, 0);
    }
}

/// One step of Kahn's algorithm: list the head of the queue, and count it
/// off its parent; a parent with no children left goes to the front.
pub open spec fn kahn_step(
    adj: Seq<(String, String)>,
    q: Seq<Seq<char>>,
    d: DegreeModel,
) -> (Seq<Seq<char>>, DegreeModel) {
    let rest = q.drop_first();
    match parent_in(adj, q[0]) {
        Some(p) => match degree_at(d, p, 0) {
            Some(j) => if d[j as int].1 > 0 {
                let d2 = d.update(j as int, (d[j as int].0, (d[j as int].1 - 1) as nat));
                if d[j as int].1 == 1 {
                    (seq![p] + rest, d2)
                } else {
                    (rest, d2)
                }
            } else {
                (rest, d)
            },
            None => (rest, d),
        },
        None => (rest, d),
    }
}

/// The ids Kahn's algorithm lists from queue `q` and in-degrees `d`, in at
/// most `fuel` steps.
pub open spec fn kahn(adj: Seq<(String, String)>, q: Seq<Seq<char>>, d: DegreeModel, fuel: nat) -> Seq<
    Seq<char>,
>
    decreases fuel,
{
    if fuel == 0 || q.len() == 0 {
        Seq::empty()
    } else {
        let next = kahn_step(adj, q, d);
        seq![q[0]] + kahn(adj, next.0, next.1, (fuel - 1) as nat)
    }
}

/// Steps allowed: one per leaf and one per edge, saturating.
pub open spec fn step_bound(leaves: nat, edges: nat) -> nat {
    if leaves + edges > usize::MAX {
        usize::MAX as nat
    } else {
        leaves + edges
    }
}

/// `r` is the leaves-first order of the graph: Kahn's algorithm started
/// from the leaves in increasing order of change id.
pub open spec fn topo_order(
    adj: Seq<(String, String)>,
    leaves: Set<Seq<char>>,
    r: Seq<Seq<char>>,
) -> bool {
    exists|order: Seq<Seq<char>>|
        sorted_strict(order) && order.to_set() == leaves && r == kahn(
            adj,
            order,
            degrees_of(adj, adj.len()),
            step_bound(order.len(), adj.len()),
        )
}

proof fn lemma_kahn_follows(
    adj: Seq<(String, String)>,
    q: Seq<Seq<char>>,
    d: DegreeModel,
    fuel: nat,
    leaves: Seq<Seq<char>>,
)
    requires
        forall|k: int| 1 <= k < q.len() ==> leaves.contains(#[trigger] q[k]),
    ensures
        ({
            let r = kahn(adj, q, d, fuel);
            &&& r.len() > 0 ==> r[0] == q[0]
            &&& forall|k: int|
                0 <= k && k + 1 < r.len() && !leaves.contains(#[trigger] r[k + 1]) ==> parent_in(
                    adj,
                    r[k],
                ) == Some(r[k + 1])
        }),
    decreases fuel,
{
    if fuel > 0 && q.len() > 0 {
        let next = kahn_step(adj, q, d);
        let rest = q.drop_first();
        assert forall|k: int| 1 <= k < next.0.len() implies leaves.contains(#[trigger] next.0[k]) by {
            if next.0 == rest {
                assert(next.0[k] == q[k + 1]);
            } else {
                assert(next.0[k] == rest[k - 1]);
                assert(rest[k - 1] == q[k]);
            }
        }
        lemma_kahn_follows(adj, next.0, next.1, (fuel - 1) as nat, leaves);
        let sub = kahn(adj, next.0, next.1, (fuel - 1) as nat);
        let r = kahn(adj, q, d, fuel);
        assert(r == seq![q[0]] + sub);
        assert forall|k: int|
            0 <= k && k + 1 < r.len() && !leaves.contains(#[trigger] r[k + 1]) implies parent_in(
                adj,
                r[k],
            ) == Some(r[k + 1]) by {
            if k == 0 {
                assert(r[1] == sub[0]);
                assert(sub[0] == next.0[0]);
                let pushed = match parent_in(adj, q[0]) {
                    Some(p) => match degree_at(d, p, 0) {
                        Some(j) => d[j as int].1 == 1,
                        None => false,
                    },
                    None => false,
                };
                if pushed {
                    let p = parent_in(adj, q[0])->Some_0;
                    assert(next.0 == seq![p] + rest);
                    assert(next.0[0] == p);
                } else {
                    assert(next.0 == rest);
                    assert(rest[0] == q[1]);
                    assert(leaves.contains(q[1]));
                }
            } else {
                let k1 = k - 1;
                assert(r[k] == sub[k1]);
                assert(r[k + 1] == sub[k1 + 1]);
                assert(!leaves.contains(sub[k1 + 1]));
                assert(parent_in(adj, sub[k1]) == Some(sub[k1 + 1]));
            }
        }
    }
}

/// In the leaves-first order, every id that is not a leaf comes right
/// after one of its children: a parent is listed as soon as its last child
/// is.
pub proof fn lemma_topo_parent_follows_child(
    adj: Seq<(String, String)>,
    leaves: Set<Seq<char>>,
    r: Seq<Seq<char>>,
)
    requires
        topo_order(adj, leaves, r),
    ensures
        forall|k: int|
            0 <= k && k + 1 < r.len() && !leaves.contains(#[trigger] r[k + 1]) ==> parent_in(
                adj,
                r[k],
            ) == Some(r[k + 1]),
        r.len() > 0 ==> leaves.contains(r[0]),
{
    let order = choose|order: Seq<Seq<char>>|
        sorted_strict(order) && order.to_set() == leaves && r == kahn(
            adj,
            order,
            degrees_of(adj, adj.len()),
            step_bound(order.len(), adj.len()),
        );
    assert forall|k: int| 1 <= k < order.len() implies order.contains(#[trigger] order[k]) by {}
    lemma_kahn_follows(adj, order, degrees_of(adj, adj.len()), step_bound(order.len(), adj.len()), order);
    assert forall|x: Seq<char>| leaves.contains(x) == order.contains(x) by {
        assert(order.to_set().contains(x) == order.contains(x));
    }
    if r.len() > 0 {
        assert(order.contains(order[0]));
    }
}

/// The index of `id`'s in-degree entry.
fn find_degree(degrees: &Vec<(String, usize)>, id: &str) -> (r: Option<usize>)
    ensures
        match r {
            Some(i) => degree_at(degree_views(degrees@), id@, 0) == Some(i as nat),
            None => degree_at(degree_views(degrees@), id@, 0) is None,
        },
{
    let ghost d = degree_views(degrees@);
    let mut i: usize = 0;
    while i < degrees.len()
        invariant
            i <= degrees@.len(),
            d == degree_views(degrees@),
            degree_at(d, id@, 0) == degree_at(d, id@, i as nat),
        decreases degrees@.len() - i,
    {
        assert(d[i as int].0 == degrees@[i as int].0@);
        if str_eq(degrees[i].0.as_str(), id) {
            return Some(i);
        }
        i = i + 1;
    }
    None
}

/// Change ids of the graph, leaves first and roots last (Kahn's algorithm).
///
/// The leaves are taken in increasing order of change id. A parent whose
/// children have all been listed goes to the front of the work queue, so
/// that the members of one stack stay together. The loop runs at most once
/// per leaf and per edge, which bounds it for every input.
pub fn topological_sort(graph: &ChangeGraph) -> (r: Vec<String>)
    ensures
        topo_order(graph.adjacency_list@, views(graph.stack_leaves@).to_set(), views(r@)),
{
    let adj = &graph.adjacency_list;
    // In-degrees: how many children name each parent.
    let mut degrees: Vec<(String, usize)> = Vec::new();
    let mut i: usize = 0;
    assert(degree_views(degrees@) =~= degrees_of(adj@, 0));
    while i < adj.len()
        invariant
            i <= adj@.len(),
            adj == &graph.adjacency_list,
            degree_views(degrees@) == degrees_of(adj@, i as nat),
        decreases adj@.len() - i,
    {
        proof {
            lemma_degrees_bounded(adj@, i as nat);
        }
        let ghost before = degree_views(degrees@);
        match find_degree(&degrees, adj[i].1.as_str()) {
            Some(j) => {
                proof {
                    lemma_degree_at_found(before, adj@[i as int].1@, 0);
                    assert(before[j as int].1 <= i);
                }
                let d = degrees[j].1;
                let name = degrees[j].0.clone();
                degrees.set(j, (name, d + 1));
                assert(degree_views(degrees@) =~= before.update(j as int, (before[j as int].0, before[j as int].1 + 1)));
            },
            None => {
                degrees.push((adj[i].1.clone(), 1));
                assert(degree_views(degrees@) =~= before.push((adj@[i as int].1@, 1)));
            },
        }
        i = i + 1;
    }
    let leaves = sort_strs(&graph.stack_leaves);
    let ghost order = views(leaves@);
    let limit: usize = if leaves.len() <= usize::MAX - adj.len() {
        leaves.len() + adj.len()
    } else {
        usize::MAX
    };
    assert(limit == step_bound(order.len(), adj@.len()));
    let ghost total = kahn(adj@, order, degrees_of(adj@, adj@.len()), limit as nat);
    let mut queue = leaves;
    let mut result: Vec<String> = Vec::new();
    let mut steps: usize = 0;
    while queue.len() > 0 && steps < limit
        invariant
            adj == &graph.adjacency_list,
            steps <= limit,
            views(result@) + kahn(adj@, views(queue@), degree_views(degrees@), (limit - steps) as nat)
                == total,
        decreases limit - steps,
    {
        let ghost q = views(queue@);
        let ghost d = degree_views(degrees@);
        let ghost next = kahn_step(adj@, q, d);
        let id = queue.remove(0);
        assert(views(queue@) =~= q.drop_first());
        assert(q[0] == id@);
        match parent_of(adj, id.as_str()) {
            Some(p) => {
                match find_degree(&degrees, p.as_str()) {
                    Some(j) => {
                        proof {
                            lemma_degree_at_found(d, p@, 0);
                        }
                        let c = degrees[j].1;
                        if c > 0 {
                            let name = degrees[j].0.clone();
                            degrees.set(j, (name, c - 1));
                            assert(degree_views(degrees@) =~= d.update(j as int, (d[j as int].0, (d[j as int].1 - 1) as nat)));
                            if c == 1 {
                                let ghost pv = p@;
                                queue.insert(0, p);
                                assert(views(queue@) =~= seq![pv] + q.drop_first());
                            }
                        }
                    },
                    None => {},
                }
            },
            None => {},
        }
        assert(views(queue@) == next.0 && degree_views(degrees@) == next.1);
        let ghost before = views(result@);
        result.push(id);
        assert(views(result@) =~= before + seq![q[0]]);
        assert(kahn(adj@, q, d, (limit - steps) as nat) == seq![q[0]] + kahn(adj@, next.0, next.1, (limit - steps - 1) as nat));
        assert(before + seq![q[0]] + kahn(adj@, next.0, next.1, (limit - steps - 1) as nat) =~= before + (seq![q[0]] + kahn(adj@, next.0, next.1, (limit - steps - 1) as nat)));
        steps = steps + 1;
    }
    assert(kahn(adj@, views(queue@), degree_views(degrees@), (limit - steps) as nat) =~= Seq::<Seq<char>>::empty());
    assert(views(result@) =~= total);
    result
}

} // verus!
