use libproiectio::{
    exit_code, Aborted, ApplyOutcome, ApplyReport, Error, IoRole, Manifest, Refused, Report,
    Stopped,
};

fn aborted(stopped: Stopped, rows: Vec<(&str, ApplyOutcome)>) -> Aborted {
    Aborted {
        stopped,
        applied: ApplyReport {
            report: Report { rows: rows.into_iter().map(|(p, o)| (p.to_string(), o)).collect() },
            dropped: vec![],
            manifest: Manifest::new(),
        },
    }
}

fn refusal() -> Error {
    Error::Refused(Refused::Drift { paths: vec!["x".to_string()] })
}

#[test]
fn a_stop_names_what_stopped_the_run_and_whether_it_was_recorded() {
    let applying = Stopped::Applying(refusal());
    assert!(applying.error().is_refusal());
    assert!(applying.recording().is_none());
    assert!(applying.recorded());

    let both = Stopped::ApplyingAndRecording {
        applying: refusal(),
        recording: Error::OwnerNotNamed { owner: String::new() },
    };
    assert!(both.error().is_refusal());
    assert!(matches!(both.recording(), Some(Error::OwnerNotNamed { .. })));
    assert!(!both.recorded());

    let recording = Stopped::Recording(Error::OwnerNotNamed { owner: " ".to_string() });
    assert!(!recording.error().is_refusal());
    assert!(recording.recording().is_some());
    assert!(!recording.recorded());
}

#[test]
fn an_abort_says_whether_anything_was_applied() {
    assert!(!aborted(Stopped::Applying(refusal()), vec![]).applied_anything());
    assert!(aborted(Stopped::Applying(refusal()), vec![("a", ApplyOutcome::Written)]).applied_anything());
}

#[test]
fn the_exit_code_splits_refusals_from_failures() {
    assert_eq!(exit_code(&Ok(())), 0);
    assert_eq!(exit_code(&Err(refusal())), 2);
    assert_eq!(exit_code(&Err(Error::OwnerNotNamed { owner: String::new() })), 1);
    let io = Error::Io { role: IoRole::Archive, path: "/a".to_string(), source: std::io::Error::other("x") };
    assert!(!io.is_refusal());
    assert_eq!(exit_code(&Err(io)), 1);
}
