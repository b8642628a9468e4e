//! Git remotes: the `jj git remote list` listing, and GitHub owner/repo
//! from a remote URL.

use vstd::prelude::*;
use crate::text::{
    is_ws, is_whitespace_char, trim, trim_str, substring, matches_at, occurs_at, first_line,
    first_line_of, line_end, line_end_of, after_first_line, after_first_line_of,
};
use crate::vcs::GitRemote;

verus! {

/// A GitHub repository: owner and name.
#[derive(Debug, Clone, PartialEq, Eq)]
pub struct GitHubRepo {
    pub owner: String,
    pub repo: String,
}

impl GitHubRepo {
    /// `owner/repo`.
    pub fn to_string(&self) -> (r: String)
        ensures
            r@ == self.owner@ + seq!['/'] + self.repo@,
    {
        let mut r = self.owner.clone();
        r.append("/");
        proof {
            reveal_strlit("/");
        }
        r.append(self.repo.as_str());
        r
    }
}

/// `s` without the prefix `x`, if it starts with it.
pub open spec fn after_prefix(s: Seq<char>, x: Seq<char>) -> Option<Seq<char>> {
    if occurs_at(s, x, 0) {
        Some(s.subrange(x.len() as int, s.len() as int))
    } else {
        None
    }
}

/// `s` without the suffix `x` if it ends with it, else `s`.
pub open spec fn strip_suffix(s: Seq<char>, x: Seq<char>) -> Seq<char> {
    if x.len() <= s.len() && occurs_at(s, x, s.len() - x.len()) {
        s.subrange(0, s.len() - x.len())
    } else {
        s
    }
}

fn strip_prefix_of(s: &str, x: &str) -> (r: Option<String>)
    ensures
        match r {
            Some(t) => after_prefix(s@, x@) == Some(t@),
            None => after_prefix(s@, x@) is None,
        },
{
    if matches_at(s, x, 0) {
        Some(substring(s, x.unicode_len(), s.unicode_len()))
    } else {
        None
    }
}

fn strip_suffix_of(s: &str, x: &str) -> (r: String)
    ensures
        r@ == strip_suffix(s@, x@),
{
    let n = s.unicode_len();
    let m = x.unicode_len();
    if m <= n && matches_at(s, x, n - m) {
        substring(s, 0, n - m)
    } else {
        substring(s, 0, n)
    }
}

/// Position of the first `'/'` in `s`, or its length.
pub open spec fn slash_at(s: Seq<char>) -> nat
    decreases s.len(),
{
    if s.len() == 0 || s[0] == '/' {
        0
    } else {
        1 + slash_at(s.drop_first())
    }
}

proof fn lemma_slash_at(s: Seq<char>, e: nat)
    requires
        e <= s.len(),
        forall|k: int| 0 <= k < e ==> #[trigger] s[k] != '/',
        e == s.len() || s[e as int] == '/',
    ensures
        slash_at(s) == e,
    decreases e,
{
    if e > 0 {
        let t = s.drop_first();
        assert forall|k: int| 0 <= k < e - 1 implies #[trigger] t[k] != '/' by {
            assert(t[k] == s[k + 1]);
        }
        if e - 1 < t.len() {
            assert(t[e - 1] == s[e as int]);
        }
        assert(s[0] != '/');
        lemma_slash_at(t, (e - 1) as nat);
    }
}

fn slash_of(s: &str) -> (r: usize)
    ensures
        r == slash_at(s@),
        r <= s@.len(),
{
    let n = s.unicode_len();
    let mut e: usize = 0;
    while e < n && s.get_char(e) != '/'
        invariant
            e <= n,
            n == s@.len(),
            forall|k: int| 0 <= k < e ==> #[trigger] s@[k] != '/',
        decreases n - e,
    {
        e = e + 1;
    }
    proof {
        lemma_slash_at(s@, e as nat);
    }
    e
}

/// Owner and repository of a path `owner/repo`, with an optional `.git`
/// and then an optional `/` at its end: both non-empty, and no further
/// path segment.
pub open spec fn owner_repo(path: Seq<char>) -> Option<(Seq<char>, Seq<char>)> {
    let p = strip_suffix(strip_suffix(path, ".git"@), "/"@);
    let k = slash_at(p);
    let owner = p.subrange(0, k as int);
    let rest = if k < p.len() {
        p.subrange(k + 1int, p.len() as int)
    } else {
        Seq::empty()
    };
    let repo = rest.subrange(0, slash_at(rest) as int);
    if owner.len() == 0 || k == p.len() || repo.len() == 0 || slash_at(rest) < rest.len() {
        None
    } else {
        Some((owner, repo))
    }
}

/// Parses `owner/repo` (see `owner_repo`).
pub fn parse_owner_repo(path: &str) -> (r: Option<GitHubRepo>)
    ensures
        match r {
            Some(g) => owner_repo(path@) == Some((g.owner@, g.repo@)),
            None => owner_repo(path@) is None,
        },
{
    let no_git = strip_suffix_of(path, ".git");
    let p = strip_suffix_of(no_git.as_str(), "/");
    let n = p.unicode_len();
    let k = slash_of(p.as_str());
    if k == 0 || k == n {
        return None;
    }
    let rest = substring(p.as_str(), k + 1, n);
    let m = rest.unicode_len();
    let k2 = slash_of(rest.as_str());
    if k2 == 0 || k2 < m {
        return None;
    }
    let owner = substring(p.as_str(), 0, k);
    let repo = substring(rest.as_str(), 0, k2);
    Some(GitHubRepo { owner, repo })
}

/// Owner and repository of a GitHub remote URL: SSH
/// (`git@github.com:owner/repo.git`) or HTTPS/HTTP
/// (`https://github.com/owner/repo`); `None` for any other URL.
pub open spec fn github_url(url: Seq<char>) -> Option<(Seq<char>, Seq<char>)> {
    match after_prefix(url, "git@github.com:"@) {
        Some(path) => owner_repo(path),
        None => match after_prefix(url, "https://github.com/"@) {
            Some(path) => owner_repo(path),
            None => match after_prefix(url, "http://github.com/"@) {
                Some(path) => owner_repo(path),
                None => None,
            },
        },
    }
}

/// Parses a GitHub remote URL (see `github_url`).
pub fn parse_github_url(url: &str) -> (r: Option<GitHubRepo>)
    ensures
        match r {
            Some(g) => github_url(url@) == Some((g.owner@, g.repo@)),
            None => github_url(url@) is None,
        },
{
    if let Some(path) = strip_prefix_of(url, "git@github.com:") {
        return parse_owner_repo(path.as_str());
    }
    if let Some(path) = strip_prefix_of(url, "https://github.com/") {
        return parse_owner_repo(path.as_str());
    }
    if let Some(path) = strip_prefix_of(url, "http://github.com/") {
        return parse_owner_repo(path.as_str());
    }
    None
}

/// Position of the first whitespace character of `s`, or its length.
pub open spec fn ws_at(s: Seq<char>) -> nat
    decreases s.len(),
{
    if s.len() == 0 || is_ws(s[0]) {
        0
    } else {
        1 + ws_at(s.drop_first())
    }
}

proof fn lemma_ws_at(s: Seq<char>, e: nat)
    requires
        e <= s.len(),
        forall|k: int| 0 <= k < e ==> !is_ws(#[trigger] s[k]),
        e == s.len() || is_ws(s[e as int]),
    ensures
        ws_at(s) == e,
    decreases e,
{
    if e > 0 {
        let t = s.drop_first();
        assert forall|k: int| 0 <= k < e - 1 implies !is_ws(#[trigger] t[k]) by {
            assert(t[k] == s[k + 1]);
        }
        if e - 1 < t.len() {
            assert(t[e - 1] == s[e as int]);
        }
        assert(!is_ws(s[0]));
        lemma_ws_at(t, (e - 1) as nat);
    }
}

/// The remote that one line of the listing names: the text before its
/// first whitespace character, and the rest after that character, both
/// trimmed and non-empty.
pub open spec fn remote_of(line: Seq<char>) -> Option<(Seq<char>, Seq<char>)> {
    let k = ws_at(line);
    if k == line.len() {
        None
    } else {
        let name = trim(line.subrange(0, k as int));
        let url = trim(line.subrange(k + 1int, line.len() as int));
        if name.len() == 0 || url.len() == 0 {
            None
        } else {
            Some((name, url))
        }
    }
}

/// The remotes of a listing, one per line that names one.
pub open spec fn remotes_of(s: Seq<char>) -> Seq<(Seq<char>, Seq<char>)>
    decreases s.len(),
{
    if s.len() == 0 {
        Seq::empty()
    } else {
        let tail = if line_end(s) < s.len() {
            remotes_of(after_first_line(s))
        } else {
            Seq::empty()
        };
        match remote_of(first_line(s)) {
            Some(r) => seq![r] + tail,
            None => tail,
        }
    }
}

fn remote_line(line: &str) -> (r: Option<GitRemote>)
    ensures
        match r {
            Some(g) => remote_of(line@) == Some((g.name@, g.url@)),
            None => remote_of(line@) is None,
        },
{
    let n = line.unicode_len();
    let mut k: usize = 0;
    while k < n && !is_whitespace_char(line.get_char(k))
        invariant
            k <= n,
            n == line@.len(),
            forall|j: int| 0 <= j < k ==> !is_ws(#[trigger] line@[j]),
        decreases n - k,
    {
        k = k + 1;
    }
    proof {
        lemma_ws_at(line@, k as nat);
    }
    if k == n {
        return None;
    }
    let name = trim_str(substring(line, 0, k).as_str());
    let url = trim_str(substring(line, k + 1, n).as_str());
    if name.unicode_len() == 0 || url.unicode_len() == 0 {
        return None;
    }
    Some(GitRemote { name, url })
}

/// The model of a list of remotes.
pub open spec fn remote_views(v: Seq<GitRemote>) -> Seq<(Seq<char>, Seq<char>)> {
    v.map_values(|g: GitRemote| (g.name@, g.url@))
}

/// The remotes named by the lines of `output`, in order.
pub fn parse_git_remote_list(output: &str) -> (r: Vec<GitRemote>)
    ensures
        remote_views(r@) == remotes_of(output@),
{
    let mut out: Vec<GitRemote> = Vec::new();
    let mut rest = substring(output, 0, output.unicode_len());
    assert(rest@ =~= output@);
    while rest.unicode_len() > 0
        invariant
            remote_views(out@) + remotes_of(rest@) == remotes_of(output@),
        decreases rest@.len(),
    {
        let line = first_line_of(rest.as_str());
        let e = line_end_of(rest.as_str());
        let ghost tail = if line_end(rest@) < rest@.len() {
            remotes_of(after_first_line(rest@))
        } else {
            Seq::empty()
        };
        match remote_line(line.as_str()) {
            Some(g) => {
                let ghost gv = (g.name@, g.url@);
                let ghost before = remote_views(out@);
                assert(out@.len() == before.len());
                out.push(g);
                assert(remote_views(out@) =~= before + seq![gv]);
                assert(remotes_of(rest@) == seq![gv] + tail);
                assert(before + seq![gv] + tail =~= before + (seq![gv] + tail));
            },
            None => {},
        }
        if e < rest.unicode_len() {
            rest = after_first_line_of(rest.as_str());
        } else {
            rest = String::new();
            assert(tail =~= Seq::<(Seq<char>, Seq<char>)>::empty());
            assert(remotes_of(rest@) =~= Seq::<(Seq<char>, Seq<char>)>::empty());
        }
    }
    assert(remotes_of(rest@) =~= Seq::<(Seq<char>, Seq<char>)>::empty());
    assert(remote_views(out@) + remotes_of(rest@) =~= remote_views(out@));
    out
}

/// The first remote whose URL is a GitHub repository, with that
/// repository.
pub fn first_github_remote(remotes: &Vec<GitRemote>) -> (r: Option<(String, GitHubRepo)>)
    ensures
        match r {
            Some((name, g)) => exists|i: int|
                0 <= i < remotes@.len() && remotes@[i].name@ == name@ && github_url(
                    remotes@[i].url@,
                ) == Some((g.owner@, g.repo@)) && forall|k: int|
                    0 <= k < i ==> github_url((#[trigger] remotes@[k]).url@) is None,
            None => forall|k: int| 0 <= k < remotes@.len() ==> github_url((#[trigger] remotes@[k]).url@) is None,
        },
{
    let mut i: usize = 0;
    while i < remotes.len()
        invariant
            i <= remotes@.len(),
            forall|k: int| 0 <= k < i ==> github_url((#[trigger] remotes@[k]).url@) is None,
        decreases remotes@.len() - i,
    {
        match parse_github_url(remotes[i].url.as_str()) {
            Some(g) => {
                return Some((remotes[i].name.clone(), g));
            },
            None => {},
        }
        i = i + 1;
    }
    None
}

} // verus!
