//! Choosing the GitHub token: the CLI's token first, then the
//! `GITHUB_TOKEN` and `GH_TOKEN` environment variables.

use vstd::prelude::*;
use crate::text::{trim, trim_str};

verus! {

/// Where the token came from.
#[derive(Debug, Clone, Copy, PartialEq, Eq, Structural)]
pub enum TokenSource {
    /// `gh auth token`.
    GitHubCli,
    /// The `GITHUB_TOKEN` environment variable.
    GitHubTokenEnv,
    /// The `GH_TOKEN` environment variable.
    GhTokenEnv,
}

/// How a token source is described to the user.
pub open spec fn source_text(s: TokenSource) -> Seq<char> {
    match s {
        TokenSource::GitHubCli => "GitHub CLI (gh auth token)"@,
        TokenSource::GitHubTokenEnv => "GITHUB_TOKEN environment variable"@,
        TokenSource::GhTokenEnv => "GH_TOKEN environment variable"@,
    }
}

impl TokenSource {
    /// The description of this source.
    pub fn to_string(&self) -> (r: String)
        ensures
            r@ == source_text(*self),
    {
        match self {
            TokenSource::GitHubCli => String::from_str("GitHub CLI (gh auth token)"),
            TokenSource::GitHubTokenEnv => String::from_str("GITHUB_TOKEN environment variable"),
            TokenSource::GhTokenEnv => String::from_str("GH_TOKEN environment variable"),
        }
    }
}

/// A token and where it came from.
#[derive(Debug, Clone)]
pub struct AuthToken {
    pub token: String,
    pub source: TokenSource,
}

/// Why no token could be had.
#[derive(Debug)]
pub enum AuthError {
    /// No source gave a token.
    NoAuthFound,
    /// Running `gh auth token` failed; `message` is the system's report.
    GhCliError { message: String },
}

impl AuthError {
    /// The error's message.
    pub fn message(&self) -> (r: String)
        ensures
            match self {
                AuthError::NoAuthFound => r@ == "no GitHub authentication found"@,
                AuthError::GhCliError { message } => r@ == "failed to run `gh auth token`: "@ + message@,
            },
    {
        match self {
            AuthError::NoAuthFound => String::from_str("no GitHub authentication found"),
            AuthError::GhCliError { message } => {
                let mut r = String::from_str("failed to run `gh auth token`: ");
                r.append(message.as_str());
                r
            },
        }
    }

    /// Advice on how to recover, where there is some.
    pub fn help(&self) -> (r: Option<String>)
        ensures
            *self is NoAuthFound <==> r is Some,
            r matches Some(h) ==> h@ == "Run `gh auth login` or set GITHUB_TOKEN/GH_TOKEN"@,
    {
        match self {
            AuthError::NoAuthFound => Some(
                String::from_str("Run `gh auth login` or set GITHUB_TOKEN/GH_TOKEN"),
            ),
            AuthError::GhCliError { .. } => None,
        }
    }
}

/// The token the sources give, in order of priority: the CLI's output
/// (trimmed), then `GITHUB_TOKEN`, then `GH_TOKEN`, each only when not
/// empty.
pub open spec fn token_choice(
    gh_output: Option<Seq<char>>,
    github_token: Option<Seq<char>>,
    gh_token: Option<Seq<char>>,
) -> Option<(Seq<char>, TokenSource)> {
    if gh_output matches Some(o) && trim(o).len() > 0 {
        Some((trim(gh_output->Some_0), TokenSource::GitHubCli))
    } else if github_token matches Some(t) && t.len() > 0 {
        Some((github_token->Some_0, TokenSource::GitHubTokenEnv))
    } else if gh_token matches Some(t) && t.len() > 0 {
        Some((gh_token->Some_0, TokenSource::GhTokenEnv))
    } else {
        None
    }
}

pub open spec fn opt_view(o: Option<String>) -> Option<Seq<char>> {
    match o {
        Some(s) => Some(s@),
        None => None,
    }
}

/// Chooses the token from what each source gave: the output of
/// `gh auth token` (when it ran and succeeded) and the two environment
/// variables.
pub fn choose_token(
    gh_output: Option<String>,
    github_token: Option<String>,
    gh_token: Option<String>,
) -> (r: Result<AuthToken, AuthError>)
    ensures
        match token_choice(opt_view(gh_output), opt_view(github_token), opt_view(gh_token)) {
            Some((t, s)) => r matches Ok(a) && a.token@ == t && a.source == s,
            None => r matches Err(AuthError::NoAuthFound),
        },
{
    if let Some(o) = gh_output {
        let t = trim_str(o.as_str());
        if t.unicode_len() > 0 {
            return Ok(AuthToken { token: t, source: TokenSource::GitHubCli });
        }
    }
    if let Some(t) = github_token {
        if t.unicode_len() > 0 {
            return Ok(AuthToken { token: t, source: TokenSource::GitHubTokenEnv });
        }
    }
    if let Some(t) = gh_token {
        if t.unicode_len() > 0 {
            return Ok(AuthToken { token: t, source: TokenSource::GhTokenEnv });
        }
    }
    Err(AuthError::NoAuthFound)
}

} // verus!
