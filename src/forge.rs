//! Forge-side values: pull requests, comments, and the errors of forge
//! calls.

use vstd::prelude::*;

verus! {

/// Errors from forge operations.
#[derive(Debug, Clone)]
pub enum ForgeError {
    Api { message: String },
    PrNotFound { number: u64 },
    AuthFailed { message: String },
    RateLimited { retry_after_seconds: u64 },
}

/// A copy of a forge error.
pub fn copy_forge_error(e: &ForgeError) -> (r: ForgeError)
    ensures
        r == *e,
{
    match e {
        ForgeError::Api { message } => ForgeError::Api { message: message.clone() },
        ForgeError::PrNotFound { number } => ForgeError::PrNotFound { number: *number },
        ForgeError::AuthFailed { message } => ForgeError::AuthFailed { message: message.clone() },
        ForgeError::RateLimited { retry_after_seconds } => ForgeError::RateLimited {
            retry_after_seconds: *retry_after_seconds,
        },
    }
}

/// State of a pull request.
#[derive(Debug, Clone, Copy, PartialEq, Eq, Structural)]
pub enum PrState {
    Open,
    Closed,
    Merged,
}

/// A pull request.
#[derive(Debug, Clone)]
pub struct PullRequest {
    pub number: u64,
    pub html_url: String,
    pub title: String,
    pub head_ref: String,
    pub base_ref: String,
    pub state: PrState,
}

/// Model of a pull request: number, URL, title, head, base, state.
pub type PrModel = (u64, Seq<char>, Seq<char>, Seq<char>, Seq<char>, PrState);

impl View for PullRequest {
    type V = PrModel;

    open spec fn view(&self) -> PrModel {
        (self.number, self.html_url@, self.title@, self.head_ref@, self.base_ref@, self.state)
    }
}

/// A copy of a pull request, equal to it in every field.
pub fn copy_pr(p: &PullRequest) -> (r: PullRequest)
    ensures
        r@ == p@,
{
    PullRequest {
        number: p.number,
        html_url: p.html_url.clone(),
        title: p.title.clone(),
        head_ref: p.head_ref.clone(),
        base_ref: p.base_ref.clone(),
        state: p.state,
    }
}

/// A comment on a pull request.
#[derive(Debug, Clone)]
pub struct Comment {
    pub id: u64,
    pub body: String,
}

/// Parameters for creating a pull request.
#[derive(Debug, Clone)]
pub struct CreatePrParams {
    pub title: String,
    pub head: String,
    pub base: String,
    pub body: Option<String>,
    pub draft: bool,
}

/// The state of a pull request from what the forge reports: merged when
/// it has a merge time, else closed when closed, else open.
pub fn pr_state(closed: bool, merged: bool) -> (r: PrState)
    ensures
        r == (if merged {
            PrState::Merged
        } else if closed {
            PrState::Closed
        } else {
            PrState::Open
        }),
{
    if merged {
        PrState::Merged
    } else if closed {
        PrState::Closed
    } else {
        PrState::Open
    }
}

/// Unauthorized or forbidden.
pub open spec fn is_auth_status(status: Option<u16>) -> bool {
    status == Some(401u16) || status == Some(403u16)
}

/// The error of a failed forge call: an authentication failure when the
/// forge answered 401 or 403 (with the forge's `message`), else an API
/// error described by `text`.
pub fn forge_error_from_status(status: Option<u16>, message: String, text: String) -> (r: ForgeError)
    ensures
        is_auth_status(status) ==> r == (ForgeError::AuthFailed { message }),
        !is_auth_status(status) ==> r == (ForgeError::Api { message: text }),
{
    match status {
        Some(code) => {
            if code == 401 || code == 403 {
                return ForgeError::AuthFailed { message };
            }
        },
        None => {},
    }
    ForgeError::Api { message: text }
}

} // verus!
