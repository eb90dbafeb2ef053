//! What the download workers decide: how many of them there are, and what becomes
//! of a task once its download has returned.

use crate::diff::{Task, TaskView};
use crate::error::OngakuError;
use crate::merge::Completed;
use vstd::prelude::*;

verus! {

/// What became of one task.
#[derive(Debug, Clone, PartialEq, Eq)]
pub enum Settled {
    /// The download went through; this goes on to be merged.
    Completed(Completed),
    /// The download failed; the task is dropped, and this line reports it.
    Failed(String),
}

/// The line that reports that a track could not be downloaded.
pub open spec fn download_warning(task: TaskView, cause: Seq<char>) -> Seq<char> {
    "Failed to download track at "@ + task.track_url + ": "@ + cause
}

/// The number of workers for a machine that can run `available` threads at once:
/// that number, and one where it is unknown or zero.
pub open spec fn workers_for(available: Option<usize>) -> usize {
    match available {
        Some(threads) => if threads == 0 {
            1
        } else {
            threads
        },
        None => 1,
    }
}

/// The number of download workers to start. It is never zero.
pub fn pool_size(available: Option<usize>) -> (workers: usize)
    ensures
        workers == workers_for(available),
        workers >= 1,
{
    match available {
        Some(threads) => if threads == 0 {
            1
        } else {
            threads
        },
        None => 1,
    }
}

/// Decides what becomes of a task whose download has returned.
///
/// A download that went through yields the task with the file's path. A failed one
/// yields a warning that names the track and the cause, and nothing else: the
/// failure of one task is no failure of the run.
pub fn settle(task: Task, outcome: Result<String, OngakuError>) -> (settled: Settled)
    ensures
        match outcome {
            Ok(file) => settled == Settled::Completed(Completed { task, file }),
            Err(error) => settled matches Settled::Failed(line) && line@ == download_warning(
                task@,
                error.text(),
            ),
        },
{
    match outcome {
        Ok(file) => Settled::Completed(Completed { task, file }),
        Err(error) => {
            let mut line = String::from_str("Failed to download track at ");
            line.append(task.track_url.as_str());
            line.append(": ");
            let cause = error.message();
            line.append(cause.as_str());
            Settled::Failed(line)
        },
    }
}

} // verus!
