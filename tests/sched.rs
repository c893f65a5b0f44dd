use primes::sched::{clamp_nice, nice_outcome, NiceError, SchedulingPolicy};

#[test]
fn test_scheduling_policy_display() {
    assert_eq!(SchedulingPolicy::Other.to_string(), "SCHED_OTHER");
    assert_eq!(SchedulingPolicy::Fifo.to_string(), "SCHED_FIFO");
    assert_eq!(SchedulingPolicy::Rr.to_string(), "SCHED_RR");
}

#[test]
fn all_policies_label() {
    assert_eq!(SchedulingPolicy::All.to_string(), "ALL");
}

#[test]
fn kernel_priorities() {
    assert_eq!(SchedulingPolicy::Other.kernel_priority(50), Some(0));
    assert_eq!(SchedulingPolicy::Fifo.kernel_priority(50), Some(50));
    assert_eq!(SchedulingPolicy::Rr.kernel_priority(0), Some(1));
    assert_eq!(SchedulingPolicy::Fifo.kernel_priority(150), Some(99));
    assert_eq!(SchedulingPolicy::All.kernel_priority(50), None);
}

#[test]
fn nice_values_are_clamped() {
    assert_eq!(clamp_nice(-30), -20);
    assert_eq!(clamp_nice(25), 19);
    assert_eq!(clamp_nice(5), 5);
}

#[test]
fn nice_refusal_matters_only_below_zero() {
    assert_eq!(nice_outcome(-5, -1), Err(NiceError::NeedsPrivilege));
    assert_eq!(nice_outcome(5, -1), Ok(()));
    assert_eq!(nice_outcome(0, -1), Ok(()));
    assert_eq!(nice_outcome(-5, 0), Ok(()));
}
