use bk::restore::{exit_code, RestoreOutcome, RestoreSession, RestoreStage};

#[test]
fn confirmed_restore_runs_the_steps_in_order() {
    let mut sess = RestoreSession::begin("report.csv.bak.2").unwrap();
    assert_eq!(sess.backup, "report.csv.bak.2");
    assert_eq!(sess.original, "report.csv");
    assert!(matches!(sess.stage, RestoreStage::Confirming));

    sess.answer("y\n");
    assert!(matches!(sess.stage, RestoreStage::RemovingOriginal));

    sess.step_done(Ok(()));
    assert!(matches!(sess.stage, RestoreStage::Copying));

    sess.step_done(Ok(()));
    assert!(matches!(sess.stage, RestoreStage::RemovingBackup));

    sess.step_done(Ok(()));
    match &sess.stage {
        RestoreStage::Done(outcome) => {
            assert!(matches!(outcome, RestoreOutcome::Restored));
            assert_eq!(exit_code(outcome), 0);
        },
        _ => panic!("restore did not finish"),
    }
}

#[test]
fn declined_restore_asks_for_no_file_operation() {
    let mut sess = RestoreSession::begin("report.csv.bak.2").unwrap();
    sess.answer("n\n");
    match &sess.stage {
        RestoreStage::Done(outcome) => {
            assert!(matches!(outcome, RestoreOutcome::Declined));
            assert_eq!(exit_code(outcome), 0);
        },
        _ => panic!("a declined restore must end at once"),
    }
}

#[test]
fn an_empty_answer_declines() {
    let mut sess = RestoreSession::begin("a.txt.bak").unwrap();
    sess.answer("");
    assert!(matches!(sess.stage, RestoreStage::Done(RestoreOutcome::Declined)));
}

#[test]
fn a_non_backup_path_is_rejected() {
    let r = RestoreSession::begin("report.csv");
    match r {
        Err(outcome) => {
            assert!(matches!(outcome, RestoreOutcome::NotABackup));
            assert_eq!(exit_code(&outcome), 1);
        },
        Ok(_) => panic!("a non-backup name must be rejected"),
    }
}

#[test]
fn a_copy_failure_stops_before_the_backup_is_deleted() {
    // The window the design leaves open: the original is already deleted,
    // the copy fails, and the backup is never asked to be deleted — so of
    // the two files only the backup survives.
    let mut sess = RestoreSession::begin("report.csv.bak.2").unwrap();
    sess.answer("y\n");
    sess.step_done(Ok(()));
    assert!(matches!(sess.stage, RestoreStage::Copying));
    sess.step_done(Err("copy failed: disk full".to_string()));
    match &sess.stage {
        RestoreStage::Done(RestoreOutcome::Failed(cause)) => {
            assert_eq!(cause, "copy failed: disk full");
            assert_eq!(exit_code(&RestoreOutcome::Failed(cause.clone())), 1);
        },
        _ => panic!("a failed copy must end the sequence"),
    }
}

#[test]
fn a_late_delete_failure_still_reports_an_error() {
    let mut sess = RestoreSession::begin("a.txt.bak.1").unwrap();
    sess.answer("yes\n");
    sess.step_done(Ok(()));
    sess.step_done(Ok(()));
    sess.step_done(Err("permission denied".to_string()));
    match &sess.stage {
        RestoreStage::Done(RestoreOutcome::Failed(cause)) => {
            assert_eq!(cause, "permission denied");
        },
        _ => panic!("a failed delete must end the sequence"),
    }
}

#[test]
fn a_freshly_allocated_backup_can_be_restored() {
    let name = bk::allocate::next_backup_name("notes.txt", &vec!["notes.txt.bak.3".to_string()], true);
    assert_eq!(name, "notes.txt.bak.4");
    let sess = RestoreSession::begin(&name).unwrap();
    assert_eq!(sess.original, "notes.txt");
}

#[test]
fn a_delete_original_failure_stops_the_sequence() {
    let mut sess = RestoreSession::begin("a.txt.bak.1").unwrap();
    sess.answer("y");
    sess.step_done(Err("is a directory".to_string()));
    assert!(matches!(sess.stage, RestoreStage::Done(RestoreOutcome::Failed(_))));
}
