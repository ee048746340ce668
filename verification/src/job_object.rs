//! How a group of processes is closed, and how they are counted.

use vstd::prelude::*;

verus! {

/// What becomes of the processes when their group is closed.
#[derive(Debug, Clone, Copy, PartialEq, Eq, Structural)]
pub enum ClosePolicy {
    PreserveProcesses,
    TerminateProcesses,
}

impl ClosePolicy {
    /// The limit flags that a group of this policy is configured with; none
    /// where it is left as it is.
    pub fn limit_flags(self) -> (r: Option<u32>)
        ensures
            r == match self {
                ClosePolicy::PreserveProcesses => None::<u32>,
                ClosePolicy::TerminateProcesses => Some(0x2000),
            },
    {
        match self {
            ClosePolicy::PreserveProcesses => None,
            ClosePolicy::TerminateProcesses => Some(0x2000),
        }
    }
}

/// How many processes a group has.
#[derive(Debug, Clone, Copy, PartialEq, Eq, Structural)]
pub struct JobAccounting {
    pub total_processes: u32,
    pub active_processes: u32,
    pub terminated_processes: u32,
}

impl Default for JobAccounting {
    fn default() -> (r: JobAccounting)
        ensures
            r == (JobAccounting {
                total_processes: 0,
                active_processes: 0,
                terminated_processes: 0,
            }),
    {
        JobAccounting { total_processes: 0, active_processes: 0, terminated_processes: 0 }
    }
}

} // verus!
