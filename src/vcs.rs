//! Plain data read from the version-control tool, and the decisions taken on
//! its raw listings.

use vstd::prelude::*;
use crate::text::{
    str_eq, join, occurs_at, matches_at, substring, trim, trim_str, first_line, first_line_of,
    line_end, line_end_of, after_first_line, after_first_line_of,
};

verus! {

/// The characters of each string in `v`.
pub open spec fn views(v: Seq<String>) -> Seq<Seq<char>> {
    v.map_values(|x: String| x@)
}

/// Whether `s` is among the strings of `v`.
pub fn has_str(v: &Vec<String>, s: &str) -> (r: bool)
    ensures
        r == views(v@).contains(s@),
{
    let mut i: usize = 0;
    while i < v.len()
        invariant
            i <= v.len(),
            forall|k: int| 0 <= k < i ==> v@[k]@ != s@,
        decreases v.len() - i,
    {
        if str_eq(v[i].as_str(), s) {
            assert(views(v@)[i as int] == s@);
            return true;
        }
        i = i + 1;
    }
    assert forall|k: int| 0 <= k < views(v@).len() implies views(v@)[k] != s@ by {
        assert(views(v@)[k] == v@[k]@);
    }
    false
}

/// The strings of `parts` joined with `sep` between consecutive ones.
pub fn join_strs(parts: &Vec<String>, sep: &str) -> (r: String)
    ensures
        r@ == join(views(parts@), sep@),
{
    let mut out = String::new();
    let mut i: usize = 0;
    while i < parts.len()
        invariant
            i <= parts.len(),
            out@ == join(views(parts@).subrange(0, i as int), sep@),
        decreases parts.len() - i,
    {
        if i > 0 {
            out.append(sep);
        }
        out.append(parts[i].as_str());
        proof {
            let pre = views(parts@).subrange(0, i + 1);
            assert(pre.drop_last() =~= views(parts@).subrange(0, i as int));
            assert(pre.last() == parts@[i as int]@);
            if i == 0 {
                assert(join(pre, sep@) == pre[0]);
            }
        }
        i = i + 1;
    }
    assert(views(parts@).subrange(0, parts.len() as int) =~= views(parts@));
    out
}

/// A copy of a list of strings.
pub fn copy_strs(v: &Vec<String>) -> (r: Vec<String>)
    ensures
        views(r@) == views(v@),
{
    let mut out: Vec<String> = Vec::new();
    let mut i: usize = 0;
    while i < v.len()
        invariant
            i <= v.len(),
            views(out@) == views(v@).subrange(0, i as int),
        decreases v.len() - i,
    {
        assert(views(out@).len() == i);
        assert(out@.len() == i);
        out.push(v[i].clone());
        assert(views(out@) =~= views(v@).subrange(0, i + 1));
        i = i + 1;
    }
    assert(views(v@).subrange(0, v.len() as int) =~= views(v@));
    out
}

/// Author or committer of a commit.
#[derive(Debug, Clone)]
pub struct Signature {
    pub name: String,
    pub email: String,
    pub timestamp: String,
}

/// Commit data as the version-control tool prints it.
#[derive(Debug, Clone)]
pub struct CommitData {
    pub commit_id: String,
    pub parents: Vec<String>,
    pub change_id: String,
    pub description: String,
    pub author: Signature,
    pub committer: Signature,
}

/// A bookmark reference attached to a log entry.
#[derive(Debug, Clone)]
pub struct CommitRefData {
    pub name: String,
    pub target: Vec<String>,
    pub remote: Option<String>,
    pub tracking_target: Option<Vec<String>>,
}

/// One raw log line: a commit with its local and remote bookmarks.
#[derive(Debug, Clone)]
pub struct LogEntryRaw {
    pub commit: CommitData,
    pub local_bookmarks: Vec<CommitRefData>,
    pub remote_bookmarks: Vec<CommitRefData>,
}

/// One raw bookmark line; `target` is `None` for a conflicted bookmark.
#[derive(Debug, Clone)]
pub struct BookmarkEntryRaw {
    pub name: String,
    pub synced: bool,
    pub target: Option<CommitData>,
}

/// A bookmark owned by the current user.
#[derive(Debug, Clone)]
pub struct Bookmark {
    pub name: String,
    pub commit_id: String,
    pub change_id: String,
    pub synced: bool,
}

/// One commit of a log listing, newest first within a page.
#[derive(Debug, Clone)]
pub struct LogEntry {
    pub commit_id: String,
    pub change_id: String,
    pub description: String,
    pub parents: Vec<String>,
    pub author: Signature,
    pub local_bookmark_names: Vec<String>,
    pub remote_bookmark_names: Vec<String>,
}

/// A git remote: its name and URL.
#[derive(Debug, Clone)]
pub struct GitRemote {
    pub name: String,
    pub url: String,
}

/// Model of a bookmark: name, commit id, change id, whether synced.
pub open spec fn bookmark_model(b: Bookmark) -> (Seq<char>, Seq<char>, Seq<char>, bool) {
    (b.name@, b.commit_id@, b.change_id@, b.synced)
}

/// Whether the `i`-th raw entry gives a bookmark: the first entry of its
/// name (a bookmark that is not synced is listed once more for its remote
/// target), and not conflicted.
pub open spec fn gives_bookmark(raw: Seq<BookmarkEntryRaw>, i: int) -> bool {
    &&& forall|k: int| 0 <= k < i ==> (#[trigger] raw[k]).name@ != raw[i].name@
    &&& raw[i].target is Some
}

/// The bookmarks of the first `n` raw entries.
pub open spec fn bookmarks_of(raw: Seq<BookmarkEntryRaw>, n: nat) -> Seq<(Seq<char>, Seq<char>, Seq<char>, bool)>
    decreases n,
{
    if n == 0 {
        Seq::empty()
    } else {
        let r = bookmarks_of(raw, (n - 1) as nat);
        let e = raw[n - 1];
        if gives_bookmark(raw, n - 1) {
            r.push((e.name@, e.target->Some_0.commit_id@, e.target->Some_0.change_id@, e.synced))
        } else {
            r
        }
    }
}

/// The bookmarks of a raw listing, in order.
pub fn bookmarks_from_entries(raw: &Vec<BookmarkEntryRaw>) -> (r: Vec<Bookmark>)
    ensures
        r@.map_values(|b: Bookmark| bookmark_model(b)) == bookmarks_of(raw@, raw@.len()),
{
    let mut seen: Vec<String> = Vec::new();
    let mut out: Vec<Bookmark> = Vec::new();
    let mut i: usize = 0;
    while i < raw.len()
        invariant
            i <= raw@.len(),
            views(seen@) == raw@.subrange(0, i as int).map_values(|e: BookmarkEntryRaw| e.name@),
            out@.map_values(|b: Bookmark| bookmark_model(b)) == bookmarks_of(raw@, i as nat),
        decreases raw@.len() - i,
    {
        let e = &raw[i];
        let dup = has_str(&seen, e.name.as_str());
        proof {
            if !dup {
                assert forall|k: int| 0 <= k < i implies (#[trigger] raw@[k]).name@ != raw@[i as int].name@ by {
                    assert(views(seen@)[k] == raw@[k].name@);
                }
            } else {
                let k = choose|k: int| 0 <= k < views(seen@).len() && views(seen@)[k] == e.name@;
                assert(raw@[k].name@ == raw@[i as int].name@);
            }
        }
        let ghost before = out@.map_values(|b: Bookmark| bookmark_model(b));
        if !dup {
            match &e.target {
                Some(t) => {
                    out.push(
                        Bookmark {
                            name: e.name.clone(),
                            commit_id: t.commit_id.clone(),
                            change_id: t.change_id.clone(),
                            synced: e.synced,
                        },
                    );
                    assert(out@.map_values(|b: Bookmark| bookmark_model(b)) =~= before.push(
                        (e.name@, t.commit_id@, t.change_id@, e.synced),
                    ));
                },
                None => {},
            }
        }
        let ghost sb = views(seen@);
        seen.push(e.name.clone());
        assert(views(seen@) =~= raw@.subrange(0, i + 1).map_values(|e: BookmarkEntryRaw| e.name@)) by {
            assert(views(seen@) =~= sb.push(e.name@));
        }
        i = i + 1;
    }
    out
}

/// How a remote bookmark is named: `name@remote`, or `name` without a
/// remote.
pub open spec fn remote_ref_name(r: CommitRefData) -> Seq<char> {
    match r.remote {
        Some(remote) => r.name@ + seq!['@'] + remote@,
        None => r.name@,
    }
}

/// A log entry from its raw form: the commit's fields, the names of its
/// local bookmarks, and its remote bookmarks as `name@remote`.
pub fn log_entry_from_raw(raw: &LogEntryRaw) -> (r: LogEntry)
    ensures
        r.commit_id@ == raw.commit.commit_id@,
        r.change_id@ == raw.commit.change_id@,
        r.description@ == raw.commit.description@,
        views(r.parents@) == views(raw.commit.parents@),
        r.author.name@ == raw.commit.author.name@,
        views(r.local_bookmark_names@) == raw.local_bookmarks@.map_values(|b: CommitRefData| b.name@),
        views(r.remote_bookmark_names@) == raw.remote_bookmarks@.map_values(
            |b: CommitRefData| remote_ref_name(b),
        ),
{
    let mut local: Vec<String> = Vec::new();
    let mut i: usize = 0;
    while i < raw.local_bookmarks.len()
        invariant
            i <= raw.local_bookmarks@.len(),
            local@.len() == i,
            forall|k: int| 0 <= k < i ==> (#[trigger] local@[k])@ == raw.local_bookmarks@[k].name@,
        decreases raw.local_bookmarks@.len() - i,
    {
        local.push(raw.local_bookmarks[i].name.clone());
        i = i + 1;
    }
    let mut remote: Vec<String> = Vec::new();
    let mut i: usize = 0;
    while i < raw.remote_bookmarks.len()
        invariant
            i <= raw.remote_bookmarks@.len(),
            remote@.len() == i,
            forall|k: int| 0 <= k < i ==> (#[trigger] remote@[k])@ == remote_ref_name(raw.remote_bookmarks@[k]),
        decreases raw.remote_bookmarks@.len() - i,
    {
        let b = &raw.remote_bookmarks[i];
        let name = match &b.remote {
            Some(r) => {
                let mut n = b.name.clone();
                n.append("@");
                proof {
                    reveal_strlit("@");
                }
                n.append(r.as_str());
                n
            },
            None => b.name.clone(),
        };
        remote.push(name);
        i = i + 1;
    }
    assert(views(local@) =~= raw.local_bookmarks@.map_values(|b: CommitRefData| b.name@));
    assert(views(remote@) =~= raw.remote_bookmarks@.map_values(|b: CommitRefData| remote_ref_name(b)));
    let c = &raw.commit;
    LogEntry {
        commit_id: c.commit_id.clone(),
        change_id: c.change_id.clone(),
        description: c.description.clone(),
        parents: copy_strs(&c.parents),
        author: Signature {
            name: c.author.name.clone(),
            email: c.author.email.clone(),
            timestamp: c.author.timestamp.clone(),
        },
        local_bookmark_names: local,
        remote_bookmark_names: remote,
    }
}

/// Whether `s` ends with `@git`, the tool's internal remote.
pub open spec fn is_internal_ref(s: Seq<char>) -> bool {
    s.len() >= 4 && occurs_at(s, "@git"@, s.len() - 4)
}

/// `s` up to its first `'@'`.
pub open spec fn before_at(s: Seq<char>) -> Seq<char>
    decreases s.len(),
{
    if s.len() == 0 || s[0] == '@' {
        Seq::empty()
    } else {
        seq![s[0]] + before_at(s.drop_first())
    }
}

/// The default branch from the remote bookmarks at trunk: the branch part
/// of the first one that is not on the internal remote.
pub open spec fn default_branch_of(names: Seq<Seq<char>>) -> Option<Seq<char>> {
    if exists|i: int| 0 <= i < names.len() && !is_internal_ref(#[trigger] names[i]) {
        let i = choose|i: int|
            0 <= i < names.len() && !is_internal_ref(#[trigger] names[i]) && forall|k: int|
                0 <= k < i ==> is_internal_ref(#[trigger] names[k]);
        Some(before_at(names[i]))
    } else {
        None
    }
}

fn before_at_of(s: &str) -> (r: String)
    ensures
        r@ == before_at(s@),
{
    let n = s.unicode_len();
    let mut k: usize = 0;
    assert(s@.subrange(0, n as int) =~= s@);
    assert(s@.subrange(0, 0) + before_at(s@) =~= before_at(s@));
    while k < n && s.get_char(k) != '@'
        invariant
            k <= n,
            n == s@.len(),
            forall|j: int| 0 <= j < k ==> #[trigger] s@[j] != '@',
            before_at(s@) == s@.subrange(0, k as int) + before_at(s@.subrange(k as int, n as int)),
        decreases n - k,
    {
        proof {
            let t = s@.subrange(k as int, n as int);
            assert(t[0] == s@[k as int]);
            assert(t.drop_first() =~= s@.subrange(k + 1, n as int));
            assert(s@.subrange(0, k + 1) =~= s@.subrange(0, k as int) + seq![s@[k as int]]);
        }
        k = k + 1;
    }
    proof {
        let t = s@.subrange(k as int, n as int);
        if k < n {
            assert(t[0] == s@[k as int]);
        }
        assert(before_at(t) =~= Seq::<char>::empty());
        assert(s@.subrange(0, 0) =~= Seq::<char>::empty());
    }
    substring(s, 0, k)
}

/// The default branch named by the remote bookmarks at trunk, if any.
pub fn default_branch_from(remote_names: &Vec<String>) -> (r: Option<String>)
    ensures
        match r {
            Some(b) => default_branch_of(views(remote_names@)) == Some(b@),
            None => default_branch_of(views(remote_names@)) is None,
        },
{
    let ghost names = views(remote_names@);
    let mut i: usize = 0;
    while i < remote_names.len()
        invariant
            i <= remote_names@.len(),
            names == views(remote_names@),
            forall|k: int| 0 <= k < i ==> is_internal_ref(#[trigger] names[k]),
        decreases remote_names@.len() - i,
    {
        let s = remote_names[i].as_str();
        let n = s.unicode_len();
        let internal = n >= 4 && matches_at(s, "@git", n - 4);
        assert(names[i as int] == s@);
        if !internal {
            proof {
                let w = choose|w: int|
                    0 <= w < names.len() && !is_internal_ref(#[trigger] names[w]) && forall|k: int|
                        0 <= k < w ==> is_internal_ref(#[trigger] names[k]);
                if w < i {
                } else if w > i {
                    assert(is_internal_ref(names[i as int]));
                }
            }
            return Some(before_at_of(s));
        }
        i = i + 1;
    }
    None
}

/// The revset of a page of the log from `trunk` to `to`: everything between
/// them, less `after` and its descendants when given.
pub open spec fn log_revset(trunk: Seq<char>, to: Seq<char>, after: Option<Seq<char>>) -> Seq<char> {
    match after {
        Some(last) => "("@ + trunk + ".."@ + to + ") ~ "@ + last + "::"@,
        None => trunk + ".."@ + to,
    }
}

/// Builds the revset of a page of the log.
pub fn log_revset_of(trunk: &str, to: &str, after: Option<&str>) -> (r: String)
    ensures
        r@ == log_revset(trunk@, to@, match after {
            Some(a) => Some(a@),
            None => None,
        }),
{
    match after {
        Some(last) => {
            let mut r = String::from_str("(");
            r.append(trunk);
            r.append("..");
            r.append(to);
            r.append(") ~ ");
            r.append(last);
            r.append("::");
            r
        },
        None => {
            let mut r = String::from_str(trunk);
            r.append("..");
            r.append(to);
            r
        },
    }
}

/// The trimmed, non-empty lines of `s`, in order.
pub open spec fn record_lines(s: Seq<char>) -> Seq<Seq<char>>
    decreases s.len(),
{
    if s.len() == 0 {
        Seq::empty()
    } else {
        let tail = if line_end(s) < s.len() {
            record_lines(after_first_line(s))
        } else {
            Seq::empty()
        };
        let line = trim(first_line(s));
        if line.len() > 0 {
            seq![line] + tail
        } else {
            tail
        }
    }
}

/// Splits a listing of one record per line into its trimmed, non-empty
/// lines.
pub fn record_lines_of(output: &str) -> (r: Vec<String>)
    ensures
        views(r@) == record_lines(output@),
{
    let mut out: Vec<String> = Vec::new();
    let mut rest = substring(output, 0, output.unicode_len());
    assert(rest@ =~= output@);
    while rest.unicode_len() > 0
        invariant
            views(out@) + record_lines(rest@) == record_lines(output@),
        decreases rest@.len(),
    {
        let line = trim_str(first_line_of(rest.as_str()).as_str());
        let e = line_end_of(rest.as_str());
        let ghost tail = if line_end(rest@) < rest@.len() {
            record_lines(after_first_line(rest@))
        } else {
            Seq::empty()
        };
        if line.unicode_len() > 0 {
            let ghost before = views(out@);
            let ghost lv = line@;
            assert(out@.len() == before.len());
            out.push(line);
            assert(views(out@) =~= before + seq![lv]);
            assert(before + seq![lv] + tail =~= before + (seq![lv] + tail));
        }
        if e < rest.unicode_len() {
            rest = after_first_line_of(rest.as_str());
        } else {
            rest = String::new();
            assert(record_lines(rest@) =~= Seq::<Seq<char>>::empty());
        }
    }
    assert(record_lines(rest@) =~= Seq::<Seq<char>>::empty());
    assert(views(out@) + record_lines(rest@) =~= views(out@));
    out
}

} // verus!
