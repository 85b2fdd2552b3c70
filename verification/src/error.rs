//! What a failure of the database is to a caller.
use crate::model::{ErrorView, UsageCollectorPluginError};
use vstd::prelude::*;
use vstd::string::*;

verus! {

/// A failure of the database, with its message.
#[derive(Debug)]
pub enum ChFailure {
    /// The database could not be reached, or the connection broke.
    Network(String),
    /// The time for an answer ran out.
    TimedOut(String),
    /// The answer was none that the protocol knows.
    BadResponse(String),
    /// Any other failure.
    Other(String),
}

/// The view of a [`ChFailure`].
pub enum ChFailureView {
    Network(Seq<char>),
    TimedOut(Seq<char>),
    BadResponse(Seq<char>),
    Other(Seq<char>),
}

impl View for ChFailure {
    type V = ChFailureView;

    open spec fn view(&self) -> ChFailureView {
        match *self {
            ChFailure::Network(s) => ChFailureView::Network(s@),
            ChFailure::TimedOut(s) => ChFailureView::TimedOut(s@),
            ChFailure::BadResponse(s) => ChFailureView::BadResponse(s@),
            ChFailure::Other(s) => ChFailureView::Other(s@),
        }
    }
}

/// What a failure is to a caller: worth another try where the database could not
/// be reached, took too long or answered with what looks like a passing fault.
pub open spec fn failure_error(failure: ChFailureView) -> ErrorView {
    match failure {
        ChFailureView::Network(detail) => ErrorView::Transient { detail, retry_after_seconds: None },
        ChFailureView::TimedOut(detail) => ErrorView::Transient {
            detail,
            retry_after_seconds: None,
        },
        ChFailureView::BadResponse(detail) => ErrorView::Transient {
            detail,
            retry_after_seconds: None,
        },
        ChFailureView::Other(detail) => ErrorView::Internal(detail),
    }
}

/// What a failure is to a caller.
pub fn map_ch_failure(failure: ChFailure) -> (e: UsageCollectorPluginError)
    ensures
        e@ == failure_error(failure@),
{
    match failure {
        ChFailure::Network(detail)
        | ChFailure::TimedOut(detail)
        | ChFailure::BadResponse(detail) => UsageCollectorPluginError::Transient {
            detail,
            retry_after_seconds: None,
        },
        ChFailure::Other(detail) => UsageCollectorPluginError::internal(detail),
    }
}

/// What an error of the database client is to a caller.
pub fn map_ch_err(err: &clickhouse::error::Error) -> (e: UsageCollectorPluginError)
    ensures
        e@ == failure_error(ch_failure(*err)),
{
    map_ch_failure(classify_ch_err(err))
}

// ---- trusted: the crate `clickhouse` ----

/// An error of the database client.
#[verifier::external_type_specification]
#[verifier::external_body]
pub struct ExChError(clickhouse::error::Error);

/// The variant of an error of the database client, with its `Display` text.
pub uninterp spec fn ch_failure(err: clickhouse::error::Error) -> ChFailureView;

/// The variants `Network`, `TimedOut` and `BadResponse` of
/// `clickhouse::error::Error`, and all others, each with the error's `Display`
/// text.
#[verifier::external_body]
fn classify_ch_err(err: &clickhouse::error::Error) -> (f: ChFailure)
    ensures
        f@ == ch_failure(*err),
{
    let shown = err.to_string();
    match err {
        clickhouse::error::Error::Network(_) => ChFailure::Network(shown),
        clickhouse::error::Error::TimedOut => ChFailure::TimedOut(shown),
        clickhouse::error::Error::BadResponse(_) => ChFailure::BadResponse(shown),
        _ => ChFailure::Other(shown),
    }
}

/// A failure is worth another try exactly where the database could not be reached,
/// took too long or gave an answer that is none; each failure keeps its message,
/// and none says when to try again.
pub proof fn law_passing_failures_are_worth_another_try(failure: ChFailureView)
    ensures
        match failure {
            ChFailureView::Network(shown)
            | ChFailureView::TimedOut(shown)
            | ChFailureView::BadResponse(shown) => failure_error(failure) == (
            ErrorView::Transient { detail: shown, retry_after_seconds: None }),
            ChFailureView::Other(shown) => failure_error(failure) == ErrorView::Internal(shown),
        },
{
}

} // verus!
