use stakk::remote::{first_github_remote, parse_git_remote_list, parse_github_url, GitHubRepo};
use stakk::vcs::GitRemote;

fn repo(owner: &str, name: &str) -> Option<GitHubRepo> {
    Some(GitHubRepo { owner: owner.into(), repo: name.into() })
}

#[test]
fn https_with_git_suffix() {
    assert_eq!(parse_github_url("https://github.com/glennib/stakk.git"), repo("glennib", "stakk"));
}

#[test]
fn https_without_git_suffix() {
    assert_eq!(parse_github_url("https://github.com/glennib/stakk"), repo("glennib", "stakk"));
}

#[test]
fn ssh_with_git_suffix() {
    assert_eq!(parse_github_url("git@github.com:glennib/stakk.git"), repo("glennib", "stakk"));
}

#[test]
fn ssh_without_git_suffix() {
    assert_eq!(parse_github_url("git@github.com:glennib/stakk"), repo("glennib", "stakk"));
}

#[test]
fn https_with_trailing_slash() {
    assert_eq!(parse_github_url("https://github.com/owner/repo/"), repo("owner", "repo"));
}

#[test]
fn http_scheme_accepted() {
    assert_eq!(parse_github_url("http://github.com/owner/repo.git"), repo("owner", "repo"));
}

#[test]
fn non_github_https() {
    assert_eq!(parse_github_url("https://gitlab.com/owner/repo.git"), None);
}

#[test]
fn non_github_ssh() {
    assert_eq!(parse_github_url("git@gitlab.com:owner/repo.git"), None);
}

#[test]
fn empty_string() {
    assert_eq!(parse_github_url(""), None);
}

#[test]
fn missing_repo() {
    assert_eq!(parse_github_url("https://github.com/owner"), None);
}

#[test]
fn extra_path_segments() {
    assert_eq!(parse_github_url("https://github.com/owner/repo/extra"), None);
}

#[test]
fn repo_display() {
    assert_eq!(GitHubRepo { owner: "o".into(), repo: "r".into() }.to_string(), "o/r");
}

#[test]
fn parse_git_remote_list_single() {
    let remotes = parse_git_remote_list("origin git@github.com:glennib/stakk.git\n");
    assert_eq!(remotes.len(), 1);
    assert_eq!(remotes[0].name, "origin");
    assert_eq!(remotes[0].url, "git@github.com:glennib/stakk.git");
}

#[test]
fn parse_git_remote_list_multiple() {
    let remotes = parse_git_remote_list(
        "origin git@github.com:owner/repo.git\nupstream https://github.com/other/repo.git\n",
    );
    assert_eq!(remotes.len(), 2);
    assert_eq!(remotes[0].name, "origin");
    assert_eq!(remotes[1].name, "upstream");
    assert_eq!(remotes[1].url, "https://github.com/other/repo.git");
}

#[test]
fn parse_git_remote_list_empty() {
    let remotes = parse_git_remote_list("");
    assert!(remotes.is_empty());
}

#[test]
fn parse_git_remote_list_skips_incomplete_lines() {
    let remotes = parse_git_remote_list("lonely\n\norigin\t  url  \r\n");
    assert_eq!(remotes.len(), 1);
    assert_eq!(remotes[0].name, "origin");
    assert_eq!(remotes[0].url, "url");
}

#[test]
fn first_github_remote_skips_others() {
    let remotes = vec![
        GitRemote { name: "lab".into(), url: "https://gitlab.com/a/b".into() },
        GitRemote { name: "origin".into(), url: "git@github.com:o/r.git".into() },
    ];
    let (name, r) = first_github_remote(&remotes).unwrap();
    assert_eq!(name, "origin");
    assert_eq!(r, GitHubRepo { owner: "o".into(), repo: "r".into() });
    assert!(first_github_remote(&remotes[..1].to_vec()).is_none());
}
