//! What can be observed of a translation while it runs.
use std::time::Duration;
use vstd::prelude::*;

verus! {

/// An event of a translation.
#[derive(Debug)]
pub enum TranslationProgress<'a> {
    /// The batches are planned, and the translation of a target begins.
    Started { locale: &'a str, total_units: usize, total_batches: usize },
    /// A request for a batch is about to be sent.
    BatchAttemptStarted {
        locale: &'a str,
        batch_index: usize,
        total_batches: usize,
        attempt: usize,
        max_attempts: usize,
        unit_count: usize,
    },
    /// A request failed or its reply was refused; without a delay there is no further attempt.
    BatchAttemptFailed {
        locale: &'a str,
        batch_index: usize,
        total_batches: usize,
        attempt: usize,
        max_attempts: usize,
        elapsed: Duration,
        reason: &'a str,
        retry_delay: Option<Duration>,
    },
    /// The reply to a batch was accepted.
    BatchCompleted {
        locale: &'a str,
        batch_index: usize,
        total_batches: usize,
        completed_units: usize,
        total_units: usize,
        elapsed: Duration,
    },
}

/// Receives the events of a translation; an implementation must not block it.
pub trait TranslationProgressReporter: Send + Sync {
    /// Receives an event. The reason of a failure is text that is not to be trusted.
    fn report(&self, progress: TranslationProgress<'_>);
}

/// Ignores all events.
pub struct NoopTranslationProgress;

impl TranslationProgressReporter for NoopTranslationProgress {
    fn report(&self, progress: TranslationProgress<'_>) {
    }
}

} // verus!
