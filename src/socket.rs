//! The decisions of the socket strategy: what the coordinator sends each worker, and
//! what a worker answers to the work message it receives.

use vstd::prelude::*;
use vstd::bytes::spec_u32_to_le_bytes;
use crate::engine::SievePlan;
use crate::sieve::{segment_survivors, sieve_segment, strikers};
use crate::wire::{
    announced_count, announced_len, decode_work, encode_result, encode_work, parse_work,
    work_message, ProtocolError, MAX_BASE_PRIMES, WORK_HEADER_LEN,
};

verus! {

/// Why a worker cannot answer a work message.
#[derive(Clone, Copy, Debug, PartialEq, Eq, Structural)]
pub enum WorkError {
    /// The bytes are not a work message.
    Malformed(ProtocolError),
    /// A base prime is below 2, so striking with it would not end or would strike everything.
    BadBasePrime,
    /// The range holds more values than one segment can.
    SegmentTooLarge,
    /// The count does not fit in a result message.
    CountTooLarge,
}

/// The work message for worker `worker_id` of `plan`, or `None` when the plan has more base
/// primes than one message can carry.
pub fn work_message_for(plan: &SievePlan, worker_id: usize) -> (msg: Option<Vec<u8>>)
    requires
        worker_id < plan.workers(),
    ensures
        msg is Some <==> plan.base_primes@.len() <= MAX_BASE_PRIMES,
        msg matches Some(m) ==> m@ == work_message(
            plan.ranges@[worker_id as int].low,
            plan.ranges@[worker_id as int].high,
            plan.base_primes@,
        ),
{
    if plan.base_primes.len() > MAX_BASE_PRIMES {
        return None;
    }
    let r = plan.ranges[worker_id];
    Some(encode_work(r.low, r.high, plan.base_primes.as_slice()))
}

/// A worker's answer to a work message: the result message with the number of primes in
/// its range.
pub fn work_reply(msg: &[u8]) -> (reply: Result<Vec<u8>, WorkError>)
    ensures
        msg@.len() < WORK_HEADER_LEN ==> reply == Err::<Vec<u8>, WorkError>(
            WorkError::Malformed(ProtocolError::Truncated),
        ),
        msg@.len() >= WORK_HEADER_LEN && announced_len(msg@) != msg@.len() - 4 ==> reply == Err::<
            Vec<u8>,
            WorkError,
        >(WorkError::Malformed(ProtocolError::LengthMismatch)),
        msg@.len() >= WORK_HEADER_LEN && announced_len(msg@) == msg@.len() - 4 && msg@.len()
            - WORK_HEADER_LEN != 8 * announced_count(msg@) ==> reply == Err::<Vec<u8>, WorkError>(
            WorkError::Malformed(ProtocolError::CountMismatch),
        ),
        parse_work(msg@) is None ==> reply matches Err(WorkError::Malformed(_)),
        parse_work(msg@) matches Some((low, high, base)) ==> {
            let count = segment_survivors(low as int, high as int, base).len();
            &&& !strikers(base) <==> reply == Err::<Vec<u8>, WorkError>(WorkError::BadBasePrime)
            &&& (strikers(base) && low <= high && high - low >= usize::MAX) <==> reply == Err::<
                Vec<u8>,
                WorkError,
            >(WorkError::SegmentTooLarge)
            &&& (strikers(base) && (low > high || high - low < usize::MAX) && count > u32::MAX)
                <==> reply == Err::<Vec<u8>, WorkError>(WorkError::CountTooLarge)
            &&& reply matches Ok(bytes) ==> bytes@ == spec_u32_to_le_bytes(count as u32)
            &&& !(reply matches Err(WorkError::Malformed(_)))
        },
{
    let work = match decode_work(msg) {
        Ok(w) => w,
        Err(e) => {
            return Err(WorkError::Malformed(e));
        },
    };
    let mut i: usize = 0;
    while i < work.base_primes.len()
        invariant
            parse_work(msg@) == Some((work.low, work.high, work.base_primes@)),
            i <= work.base_primes@.len(),
            forall|j: int| 0 <= j < i ==> #[trigger] work.base_primes@[j] >= 2,
        decreases work.base_primes@.len() - i,
    {
        if work.base_primes[i] < 2 {
            return Err(WorkError::BadBasePrime);
        }
        i = i + 1;
    }
    if work.low <= work.high && work.high - work.low >= usize::MAX as u64 {
        return Err(WorkError::SegmentTooLarge);
    }
    let primes = sieve_segment(work.low, work.high, work.base_primes.as_slice());
    if primes.len() > u32::MAX as usize {
        return Err(WorkError::CountTooLarge);
    }
    Ok(encode_result(primes.len() as u32))
}

} // verus!
