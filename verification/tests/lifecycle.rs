use simpleff::supervisor::{
    cleanup_outcome, finish_outcome, step, JobEvent, JobOutcome, JobState, RemovalReport,
};

#[test]
fn start_path_reaches_completed() {
    let s = JobState::Idle;
    let s = step(s, &JobEvent::Admitted);
    assert_eq!(s, JobState::Starting);
    let s = step(s, &JobEvent::SpawnSucceeded);
    assert_eq!(s, JobState::Running);
    let s = step(
        s,
        &JobEvent::ProcessExited { exit_success: true, diagnostics: String::new() },
    );
    assert_eq!(s, JobState::Completed);
}

#[test]
fn refused_admission_stays_idle() {
    assert_eq!(step(JobState::Idle, &JobEvent::AdmitRefused), JobState::Idle);
}

#[test]
fn probe_and_spawn_failures_fail_the_start() {
    assert_eq!(step(JobState::Starting, &JobEvent::ProbeFailed), JobState::Failed);
    assert_eq!(
        step(JobState::Starting, &JobEvent::SpawnFailed(String::from("no such binary"))),
        JobState::Failed
    );
}

#[test]
fn diagnostics_fail_even_a_clean_exit() {
    let s = step(
        JobState::Running,
        &JobEvent::ProcessExited {
            exit_success: true,
            diagnostics: String::from("decoder error"),
        },
    );
    assert_eq!(s, JobState::Failed);
}

#[test]
fn bad_exit_fails_a_silent_run() {
    let s = step(
        JobState::Running,
        &JobEvent::ProcessExited { exit_success: false, diagnostics: String::new() },
    );
    assert_eq!(s, JobState::Failed);
}

#[test]
fn cancellation_reaps_running_and_starting_jobs() {
    assert_eq!(step(JobState::Running, &JobEvent::CancelReaped), JobState::Cancelled);
    assert_eq!(step(JobState::Starting, &JobEvent::CancelReaped), JobState::Cancelled);
}

#[test]
fn terminal_states_do_not_move() {
    assert_eq!(step(JobState::Completed, &JobEvent::CancelReaped), JobState::Completed);
    assert_eq!(step(JobState::Cancelled, &JobEvent::Admitted), JobState::Cancelled);
    assert_eq!(
        step(
            JobState::Failed,
            &JobEvent::ProcessExited { exit_success: true, diagnostics: String::new() },
        ),
        JobState::Failed
    );
}

#[test]
fn finish_outcome_prefers_diagnostics() {
    match finish_outcome(true, String::from("warning: corrupt frame")) {
        JobOutcome::FailedWithDiagnostics(t) => assert_eq!(t, "warning: corrupt frame"),
        _ => panic!("expected a failure carrying the diagnostics"),
    }
}

#[test]
fn finish_outcome_reports_bad_exit() {
    match finish_outcome(false, String::new()) {
        JobOutcome::FailedWithDiagnostics(t) => {
            assert_eq!(t, "FFmpeg process failed with non-zero exit status")
        },
        _ => panic!("expected a failure"),
    }
}

#[test]
fn finish_outcome_accepts_clean_silent_run() {
    assert!(matches!(finish_outcome(true, String::new()), JobOutcome::Succeeded));
}

#[test]
fn cleanup_treats_absence_as_success() {
    assert!(matches!(cleanup_outcome(RemovalReport::Removed), JobOutcome::Succeeded));
    assert!(matches!(cleanup_outcome(RemovalReport::AlreadyAbsent), JobOutcome::Succeeded));
}

#[test]
fn cleanup_surfaces_other_errors() {
    match cleanup_outcome(RemovalReport::FailedOther(String::from("permission denied"))) {
        JobOutcome::CleanupError(t) => assert_eq!(t, "permission denied"),
        _ => panic!("expected a cleanup error"),
    }
}
