use vstd::prelude::*;

use crate::board::{BoardError, JobBoard, WorkState};

verus! {

/// Returns a type's default value.
pub fn default<D: Default>() -> D {
    Default::default()
}

impl JobBoard {
    /// The load decision for the persisted state file.  A missing file, or
    /// one that is present but empty, yields the default empty board;
    /// non-empty contents that parsed yield exactly the parsed board;
    /// non-empty contents that failed to parse are fatal (`MalformedState`)
    /// rather than silently resetting state.
    pub fn load(file_present: bool, contents_empty: bool, parsed: Option<JobBoard>) -> (r: Result<
        JobBoard,
        BoardError,
    >)
        ensures
            (!file_present || contents_empty) ==> (match r {
                Ok(b) => b.active_stack@.len() == 0 && b.suspended_stacks@.len() == 0
                    && b.work_state == WorkState::Off,
                Err(_) => false,
            }),
            (file_present && !contents_empty) ==> (match parsed {
                Some(b) => r == Ok::<JobBoard, BoardError>(b),
                None => r == Err::<JobBoard, BoardError>(BoardError::MalformedState),
            }),
    {
        if !file_present || contents_empty {
            Ok(JobBoard::default())
        } else {
            match parsed {
                Some(b) => Ok(b),
                None => Err(BoardError::MalformedState),
            }
        }
    }
}

} // verus!
