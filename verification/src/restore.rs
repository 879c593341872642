//! The restore controller, as a state machine over plain values.
//!
//! Restoring a backup runs through five steps: classify the path, ask the
//! user, delete the original, copy the backup over the original name, and
//! delete the backup. Only the caller touches the file system; it drives a
//! [`RestoreSession`] and performs, between steps, exactly the operation
//! the current stage names. The machine decides the order of the steps,
//! stops the sequence on the first failure, and fixes the exit code of
//! every outcome.
//!
//! The sequence is deliberately not atomic, as the stage order records: a
//! copy failure strikes after the original was deleted and before the
//! backup is, so of the two files only the backup then survives.

use vstd::prelude::*;

use crate::pattern::{is_backup, is_backup_name, original_name, original_of};

verus! {

/// How a restore ended.
#[derive(Debug)]
pub enum RestoreOutcome {
    /// The original was replaced by the backup's contents and the backup
    /// removed.
    Restored,
    /// The user did not confirm; nothing was touched. Not an error.
    Declined,
    /// The path to restore is not a backup name; nothing was touched.
    NotABackup,
    /// A file operation failed, with its reported cause. The steps after
    /// the failing one were never asked for.
    Failed(String),
}

/// The step a restore session is at. In the three file-system stages the
/// caller must perform the named operation and report how it went.
#[derive(Debug)]
pub enum RestoreStage {
    /// Waiting for the user's answer to the confirmation prompt.
    Confirming,
    /// The caller must delete the file at the original name, if present.
    RemovingOriginal,
    /// The caller must copy the backup over the original name.
    Copying,
    /// The caller must delete the backup file.
    RemovingBackup,
    /// The sequence has ended.
    Done(RestoreOutcome),
}

/// One restore in progress: the backup being restored, the original name
/// derived from it, and the current stage.
pub struct RestoreSession {
    pub backup: String,
    pub original: String,
    pub stage: RestoreStage,
}

impl RestoreSession {
    /// The session's names fit together: the backup is a backup name and
    /// the original is the name resolved from it.
    pub open spec fn wf(self) -> bool {
        &&& is_backup_name(self.backup@)
        &&& self.original@ == original_of(self.backup@)
    }

    /// Classifies `path` and opens a session for it: rejected with
    /// [`RestoreOutcome::NotABackup`] exactly when it is not a backup name,
    /// and otherwise waiting for confirmation.
    pub fn begin(path: &str) -> (r: Result<RestoreSession, RestoreOutcome>)
        ensures
            r is Ok <==> is_backup_name(path@),
            r matches Ok(s) ==> s.wf() && s.backup@ == path@ && s.original@ == original_of(path@)
                && s.stage is Confirming,
            r matches Err(o) ==> o == RestoreOutcome::NotABackup,
    {
        if is_backup(path) {
            let original = original_name(path);
            Ok(
                RestoreSession {
                    backup: path.to_owned(),
                    original,
                    stage: RestoreStage::Confirming,
                },
            )
        } else {
            Err(RestoreOutcome::NotABackup)
        }
    }

    /// Takes the user's answer. An affirmative answer moves on to deleting
    /// the original; anything else ends the session declined, before any
    /// file was touched.
    pub fn answer(&mut self, line: &str)
        requires
            old(self).stage is Confirming,
        ensures
            final(self).backup == old(self).backup,
            final(self).original == old(self).original,
            final(self).stage == if affirmative(line@) {
                RestoreStage::RemovingOriginal
            } else {
                RestoreStage::Done(RestoreOutcome::Declined)
            },
    {
        if is_affirmative(line) {
            self.stage = RestoreStage::RemovingOriginal;
        } else {
            self.stage = RestoreStage::Done(RestoreOutcome::Declined);
        }
    }

    /// Takes the result of the file operation the current stage asked for.
    /// Success moves to the next step in order — delete the original, copy
    /// the backup over it, delete the backup, done — and any failure ends
    /// the session at once with the reported cause.
    pub fn step_done(&mut self, result: Result<(), String>)
        requires
            old(self).stage is RemovingOriginal || old(self).stage is Copying || old(
                self,
            ).stage is RemovingBackup,
        ensures
            final(self).backup == old(self).backup,
            final(self).original == old(self).original,
            result matches Err(cause) ==> final(self).stage == RestoreStage::Done(
                RestoreOutcome::Failed(cause),
            ),
            result is Ok ==> final(self).stage == (if old(self).stage is RemovingOriginal {
                RestoreStage::Copying
            } else if old(self).stage is Copying {
                RestoreStage::RemovingBackup
            } else {
                RestoreStage::Done(RestoreOutcome::Restored)
            }),
    {
        match result {
            Err(cause) => {
                self.stage = RestoreStage::Done(RestoreOutcome::Failed(cause));
            },
            Ok(()) => {
                self.stage = match &self.stage {
                    RestoreStage::RemovingOriginal => RestoreStage::Copying,
                    RestoreStage::Copying => RestoreStage::RemovingBackup,
                    _ => RestoreStage::Done(RestoreOutcome::Restored),
                };
            },
        }
    }
}

/// The process exit code an outcome calls for: declining is a normal end,
/// so only a rejected path or a failed file operation is an error.
pub fn exit_code(outcome: &RestoreOutcome) -> (c: i32)
    ensures
        c == (match outcome {
            RestoreOutcome::Restored => 0i32,
            RestoreOutcome::Declined => 0i32,
            RestoreOutcome::NotABackup => 1i32,
            RestoreOutcome::Failed(_) => 1i32,
        }),
{
    match outcome {
        RestoreOutcome::Restored => 0,
        RestoreOutcome::Declined => 0,
        RestoreOutcome::NotABackup => 1,
        RestoreOutcome::Failed(_) => 1,
    }
}

/// True when the first character of an answer line affirms a prompt:
/// a lowercase or uppercase `y`.
pub open spec fn affirmative(line: Seq<char>) -> bool {
    line.len() > 0 && (line[0] == 'y' || line[0] == 'Y')
}

/// Decides whether an answer read from the user confirms a restore.
/// An empty line (for example when the input stream is closed) declines.
pub fn is_affirmative(line: &str) -> (r: bool)
    ensures
        r == affirmative(line@),
{
    if line.unicode_len() == 0 {
        false
    } else {
        let c = line.get_char(0);
        c == 'y' || c == 'Y'
    }
}

} // verus!
