//! Scheduling policies under which sieve workers can be run, and the parameters that the
//! kernel is asked for under each.

use vstd::prelude::*;

verus! {

/// A thread scheduling policy.
#[derive(Clone, Copy, Debug, PartialEq, Eq, Structural)]
pub enum SchedulingPolicy {
    /// The default time-sharing scheduler.
    Other,
    /// Real-time first-in, first-out.
    Fifo,
    /// Real-time round robin.
    Rr,
    /// Every policy in turn, for comparison.
    All,
}

impl SchedulingPolicy {
    /// The policy's conventional name.
    pub open spec fn label(self) -> Seq<char> {
        match self {
            SchedulingPolicy::Other => "SCHED_OTHER"@,
            SchedulingPolicy::Fifo => "SCHED_FIFO"@,
            SchedulingPolicy::Rr => "SCHED_RR"@,
            SchedulingPolicy::All => "ALL"@,
        }
    }

    /// The policy's conventional name.
    pub fn to_string(&self) -> (s: String)
        ensures
            s@ == self.label(),
    {
        match self {
            SchedulingPolicy::Other => "SCHED_OTHER".to_owned(),
            SchedulingPolicy::Fifo => "SCHED_FIFO".to_owned(),
            SchedulingPolicy::Rr => "SCHED_RR".to_owned(),
            SchedulingPolicy::All => "ALL".to_owned(),
        }
    }

    /// The static priority to ask the kernel for under this policy: 0 for time sharing,
    /// `priority` clamped to `[1, 99]` for the real-time policies, and nothing for `All`,
    /// which names no single policy.
    pub fn kernel_priority(&self, priority: i32) -> (p: Option<i32>)
        ensures
            p == match *self {
                SchedulingPolicy::Other => Some(0i32),
                SchedulingPolicy::Fifo | SchedulingPolicy::Rr => Some(
                    if priority < 1 {
                        1i32
                    } else if priority > 99 {
                        99i32
                    } else {
                        priority
                    },
                ),
                SchedulingPolicy::All => None,
            },
    {
        match self {
            SchedulingPolicy::Other => Some(0),
            SchedulingPolicy::Fifo | SchedulingPolicy::Rr => Some(
                if priority < 1 {
                    1
                } else if priority > 99 {
                    99
                } else {
                    priority
                },
            ),
            SchedulingPolicy::All => None,
        }
    }
}

/// A nice value clamped to the range `[-20, 19]` that the kernel accepts.
pub fn clamp_nice(nice: i32) -> (v: i32)
    ensures
        v == if nice < -20 {
            -20i32
        } else if nice > 19 {
            19i32
        } else {
            nice
        },
{
    if nice < -20 {
        -20
    } else if nice > 19 {
        19
    } else {
        nice
    }
}

/// Why setting a nice value failed in a way that matters.
#[derive(Clone, Copy, Debug, PartialEq, Eq, Structural)]
pub enum NiceError {
    /// The kernel refused a negative nice value, which needs privileges.
    NeedsPrivilege,
}

/// What setting the nice value `nice_value` amounts to, given the kernel call's return
/// value: a refusal (`-1`) is an error only for a negative value, since values of 0 and
/// above need no privileges.
pub fn nice_outcome(nice_value: i32, call_result: i32) -> (r: Result<(), NiceError>)
    ensures
        r is Err <==> (call_result == -1 && nice_value < 0),
        r matches Err(e) ==> e == NiceError::NeedsPrivilege,
{
    if call_result == -1 && nice_value < 0 {
        Err(NiceError::NeedsPrivilege)
    } else {
        Ok(())
    }
}

} // verus!
