//! Requests to outside services that may fail and be tried again.

use vstd::prelude::*;
use vstd::string::*;

use crate::text::{from_chars, to_chars};

verus! {

/// Why an attempt failed, and whether another one may succeed.
#[derive(Clone, Debug)]
pub struct AttemptError {
    pub retryable: bool,
    pub message: String,
}

/// What an [`AttemptError`] stands for.
pub struct AttemptErrorView {
    pub retryable: bool,
    pub message: Seq<char>,
}

impl View for AttemptError {
    type V = AttemptErrorView;

    open spec fn view(&self) -> AttemptErrorView {
        AttemptErrorView { retryable: self.retryable, message: self.message@ }
    }
}

/// The longest report of a failure that is shown.
pub const PREVIEW_MAX_CHARS: usize = 1000;

/// The first `limit` characters of a text.
pub open spec fn preview(s: Seq<char>, limit: nat) -> Seq<char> {
    s.take(if s.len() <= limit { s.len() as int } else { limit as int })
}

/// The first `limit` characters of a text.
pub fn preview_text(s: &str, limit: usize) -> (r: String)
    ensures
        r@ == preview(s@, limit as nat),
{
    let chars = to_chars(s);
    let n: usize = if chars.len() <= limit {
        chars.len()
    } else {
        limit
    };
    let r = from_chars(&chars, 0, n);
    assert(r@ =~= preview(s@, limit as nat));
    r
}

/// What is shown of the body of a response.
pub fn preview_body(body: &str) -> (r: String)
    ensures
        r@ == preview(body@, PREVIEW_MAX_CHARS as nat),
{
    preview_text(body, PREVIEW_MAX_CHARS)
}

impl AttemptError {
    pub fn retryable(message: String) -> (r: AttemptError)
        ensures
            r@ == (AttemptErrorView { retryable: true, message: message@ }),
    {
        AttemptError { retryable: true, message }
    }

    /// What is shown of the failure.
    pub fn summary(&self) -> (r: String)
        ensures
            r@ == preview(self@.message, PREVIEW_MAX_CHARS as nat),
    {
        preview_body(self.message.as_str())
    }
}

/// Whether a response with an HTTP status may be followed by a better one: too
/// many requests, or a fault of the server or a gateway.
pub open spec fn status_is_retryable(status: u16) -> bool {
    status == 429 || status == 500 || status == 502 || status == 503 || status == 504
}

pub fn is_retryable_status(status: u16) -> (r: bool)
    ensures
        r == status_is_retryable(status),
{
    status == 429 || status == 500 || status == 502 || status == 503 || status == 504
}

/// How many seconds to wait after a failed attempt, counted from 1: one second
/// after the first, and twice as long after each further one.
pub fn retry_backoff_secs(attempt: usize) -> (r: u64)
    requires
        1 <= attempt <= 64,
    ensures
        r == vstd::arithmetic::power2::pow2((attempt - 1) as nat),
{
    let mut r: u64 = 1;
    let mut i: usize = 1;
    proof {
        vstd::arithmetic::power2::lemma2_to64();
    }
    while i < attempt
        invariant
            1 <= i <= attempt <= 64,
            r == vstd::arithmetic::power2::pow2((i - 1) as nat),
        decreases attempt - i,
    {
        proof {
            vstd::arithmetic::power2::lemma_pow2_unfold(i as nat);
            vstd::arithmetic::power2::lemma_pow2_strictly_increases(i as nat, 64);
            vstd::arithmetic::power2::lemma2_to64();
        }
        r = r * 2;
        i += 1;
    }
    r
}

/// What follows a failed attempt.
#[derive(Clone, Debug)]
pub enum RetryDecision {
    /// Wait for some seconds and try again.
    Wait { seconds: u64 },
    /// Give up with the message of the failure.
    GiveUp { message: String },
}

/// What follows a failed attempt: as long as it may succeed and attempts are
/// left, another one after a pause.
pub open spec fn decision_is(
    r: RetryDecision,
    e: AttemptErrorView,
    attempt: nat,
    max_attempts: nat,
) -> bool {
    match r {
        RetryDecision::Wait { seconds } => e.retryable && attempt < max_attempts && seconds
            == vstd::arithmetic::power2::pow2((attempt - 1) as nat),
        RetryDecision::GiveUp { message } => !(e.retryable && attempt < max_attempts) && message@
            == e.message,
    }
}

/// Decides what follows a failed attempt.
pub fn after_failure(error: &AttemptError, attempt: usize, max_attempts: usize) -> (r:
    RetryDecision)
    requires
        1 <= attempt <= max_attempts <= 64,
    ensures
        decision_is(r, error@, attempt as nat, max_attempts as nat),
{
    if error.retryable && attempt < max_attempts {
        RetryDecision::Wait { seconds: retry_backoff_secs(attempt) }
    } else {
        RetryDecision::GiveUp { message: error.message.clone() }
    }
}

/// Only too many requests and the faults of a server or a gateway may be followed by
/// something better: no answer that is fine or refused for good.
pub proof fn faults_of_the_server_may_pass(status: u16)
    ensures
        status < 429 ==> !status_is_retryable(status),
        429 < status < 500 ==> !status_is_retryable(status),
        500 <= status <= 504 ==> (status_is_retryable(status) <==> status != 501),
        status > 504 ==> !status_is_retryable(status),
        status == 429 ==> status_is_retryable(status),
{
}

/// What is shown of a text is its start: all of it where it is short enough.
pub proof fn previews_are_starts(s: Seq<char>, limit: nat)
    ensures
        preview(s, limit).len() <= limit,
        preview(s, limit) == s.take(preview(s, limit).len() as int),
        s.len() <= limit ==> preview(s, limit) == s,
        s.len() > limit ==> preview(s, limit).len() == limit,
{
    assert(s.take(s.len() as int) =~= s);
}

/// A failed attempt is followed by another one after a pause if and only if it may
/// pass and attempts are left; the pause doubles with every attempt. Else the
/// failure is reported as it is.
pub proof fn attempts_are_repeated_while_they_may_pass(
    r: RetryDecision,
    e: AttemptErrorView,
    attempt: nat,
    max_attempts: nat,
)
    requires
        decision_is(r, e, attempt, max_attempts),
        attempt >= 1,
    ensures
        r is Wait <==> e.retryable && attempt < max_attempts,
        r is GiveUp ==> r->message@ == e.message,
        r is Wait && attempt == 1 ==> r->seconds == 1,
        r is Wait && attempt > 1 ==> r->seconds == 2 * vstd::arithmetic::power2::pow2(
            (attempt - 2) as nat,
        ),
{
    vstd::arithmetic::power2::lemma2_to64();
    if attempt > 1 {
        vstd::arithmetic::power2::lemma_pow2_unfold((attempt - 1) as nat);
    }
}

} // verus!
