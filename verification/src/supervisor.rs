//! Lifecycle decisions of the job supervisor.
//!
//! A job moves `Idle → Starting → Running → {Completed, Failed, Cancelled}`.
//! Every transition is decided here, as a pure function of the current state
//! and of an event that the embedding application reports: the registry's
//! admission verdict, the probe's and the spawn's results, the process's exit
//! together with its drained diagnostics, or a cancellation reaping the job.
//! The application performs the processes' and files' actual work and feeds
//! the results back in; what outcome each result yields is fixed here.

use vstd::prelude::*;
use vstd::string::StrSliceExecFns;

verus! {

/// The typed outcome a caller receives for a start or cancel request.
pub enum JobOutcome {
    /// The job ran to completion (for a start), or the job was reaped and
    /// its partial output removed (for a cancellation).
    Succeeded,
    /// The process exited badly or wrote to its diagnostics stream; the
    /// text is carried verbatim.
    FailedWithDiagnostics(String),
    /// Another job already produces this output target; an expected
    /// outcome, not an error.
    AlreadyRunning,
    /// A cancellation named a key with no registered job.
    NotFound,
    /// The total duration of the input could not be learnt.
    ProbeError,
    /// The external process could not be launched.
    SpawnError(String),
    /// The termination signal could not be delivered; the process state is
    /// unknown, so no file cleanup is attempted.
    KillError(String),
    /// The partial output file could not be deleted for a reason other
    /// than its absence.
    CleanupError(String),
}

/// Where one job stands in its life.
#[derive(Clone, Copy, Debug, PartialEq, Eq, Structural)]
pub enum JobState {
    Idle,
    Starting,
    Running,
    Completed,
    Failed,
    Cancelled,
}

/// What the embedding application observed, handed to [`step`].
pub enum JobEvent {
    /// The registry refused the key: the same target is already produced.
    AdmitRefused,
    /// The registry reserved the key.
    Admitted,
    /// The duration probe failed; the start attempt dies.
    ProbeFailed,
    /// The external process could not be launched.
    SpawnFailed(String),
    /// The external process runs; its readers are attached.
    SpawnSucceeded,
    /// The process exited and its diagnostics stream is fully drained.
    ProcessExited { exit_success: bool, diagnostics: String },
    /// A concurrent cancellation removed the job's registry entry.
    CancelReaped,
}

pub open spec fn is_terminal(s: JobState) -> bool {
    s is Completed || s is Failed || s is Cancelled
}

/// The state transition relation.  A run that exits cleanly but wrote to
/// its diagnostics stream has failed: either bad signal is authoritative.
/// An event that its state does not expect changes nothing.
pub open spec fn step_spec(s: JobState, e: JobEvent) -> JobState {
    match (s, e) {
        (JobState::Idle, JobEvent::Admitted) => JobState::Starting,
        (JobState::Idle, JobEvent::AdmitRefused) => JobState::Idle,
        (JobState::Starting, JobEvent::ProbeFailed) => JobState::Failed,
        (JobState::Starting, JobEvent::SpawnFailed(_)) => JobState::Failed,
        (JobState::Starting, JobEvent::SpawnSucceeded) => JobState::Running,
        (JobState::Starting, JobEvent::CancelReaped) => JobState::Cancelled,
        (
            JobState::Running,
            JobEvent::ProcessExited { exit_success, diagnostics },
        ) => if exit_success && diagnostics@.len() == 0 {
            JobState::Completed
        } else {
            JobState::Failed
        },
        (JobState::Running, JobEvent::CancelReaped) => JobState::Cancelled,
        (state, _) => state,
    }
}

/// Advance a job's state by one observed event.
pub fn step(s: JobState, e: &JobEvent) -> (r: JobState)
    ensures
        r == step_spec(s, *e),
{
    match (s, e) {
        (JobState::Idle, JobEvent::Admitted) => JobState::Starting,
        (JobState::Idle, JobEvent::AdmitRefused) => JobState::Idle,
        (JobState::Starting, JobEvent::ProbeFailed) => JobState::Failed,
        (JobState::Starting, JobEvent::SpawnFailed(_)) => JobState::Failed,
        (JobState::Starting, JobEvent::SpawnSucceeded) => JobState::Running,
        (JobState::Starting, JobEvent::CancelReaped) => JobState::Cancelled,
        (JobState::Running, JobEvent::ProcessExited { exit_success, diagnostics }) => {
            if *exit_success && diagnostics.as_str().is_empty() {
                JobState::Completed
            } else {
                JobState::Failed
            }
        },
        (JobState::Running, JobEvent::CancelReaped) => JobState::Cancelled,
        (state, _) => state,
    }
}

/// Once terminal, a state never moves again.
pub proof fn lemma_terminal_states_stay(s: JobState, e: JobEvent)
    requires
        is_terminal(s),
    ensures
        step_spec(s, e) == s,
{
}

/// The text reported when the process fails without diagnostics.
pub open spec fn exit_failure_text() -> Seq<char> {
    "FFmpeg process failed with non-zero exit status"@
}

/// Reconcile a finished job: non-empty diagnostics are an authoritative
/// failure whatever the exit status said, a bad exit status fails even a
/// silent run, and only a clean, silent run succeeds.
pub fn finish_outcome(exit_success: bool, diagnostics: String) -> (r: JobOutcome)
    ensures
        diagnostics@.len() > 0 ==> r == JobOutcome::FailedWithDiagnostics(diagnostics),
        diagnostics@.len() == 0 && !exit_success ==> (r matches JobOutcome::FailedWithDiagnostics(t)
            && t@ == exit_failure_text()),
        diagnostics@.len() == 0 && exit_success ==> r == JobOutcome::Succeeded,
{
    if !diagnostics.as_str().is_empty() {
        JobOutcome::FailedWithDiagnostics(diagnostics)
    } else if exit_success {
        JobOutcome::Succeeded
    } else {
        JobOutcome::FailedWithDiagnostics(
            "FFmpeg process failed with non-zero exit status".to_owned(),
        )
    }
}

/// What the embedding application reports about deleting a partial output
/// file after a cancellation.
pub enum RemovalReport {
    /// The file existed and was deleted.
    Removed,
    /// The file did not exist — the process had not created it yet.
    AlreadyAbsent,
    /// Deletion failed for another reason; the text is carried verbatim.
    FailedOther(String),
}

/// Judge a cancellation's file cleanup: absence of the partial file counts
/// as success; any other deletion failure is surfaced.
pub fn cleanup_outcome(removal: RemovalReport) -> (r: JobOutcome)
    ensures
        r == (match removal {
            RemovalReport::Removed => JobOutcome::Succeeded,
            RemovalReport::AlreadyAbsent => JobOutcome::Succeeded,
            RemovalReport::FailedOther(e) => JobOutcome::CleanupError(e),
        }),
{
    match removal {
        RemovalReport::Removed => JobOutcome::Succeeded,
        RemovalReport::AlreadyAbsent => JobOutcome::Succeeded,
        RemovalReport::FailedOther(e) => JobOutcome::CleanupError(e),
    }
}

} // verus!
