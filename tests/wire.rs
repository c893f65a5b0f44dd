use primes::partition::Range;
use primes::engine::SievePlan;
use primes::socket::{work_message_for, work_reply, WorkError};
use primes::wire::{
    decode_length, decode_result, decode_work, encode_result, encode_work, ProtocolError,
};

fn round_trip(low: u64, high: u64, base: &[u64]) {
    let msg = encode_work(low, high, base);
    assert_eq!(msg.len(), 28 + 8 * base.len());
    let work = decode_work(&msg).unwrap();
    assert_eq!(work.low, low);
    assert_eq!(work.high, high);
    assert_eq!(work.base_primes, base.to_vec());
}

#[test]
fn round_trip_without_base_primes() {
    round_trip(7, 9, &[]);
}

#[test]
fn round_trip_with_one_base_prime() {
    round_trip(u64::MAX - 1, u64::MAX, &[2]);
}

#[test]
fn round_trip_with_many_base_primes() {
    round_trip(101, 2575, &[2, 3, 5, 7, 11, 13, 17, 19, 23, 29, 31, 37, 41, 43, 47, 53, 59, 61]);
}

#[test]
fn work_message_layout() {
    let msg = encode_work(0x0102, 0x0304, &[5]);
    assert_eq!(&msg[0..4], &[32, 0, 0, 0]);
    assert_eq!(&msg[4..12], &[2, 1, 0, 0, 0, 0, 0, 0]);
    assert_eq!(&msg[12..20], &[4, 3, 0, 0, 0, 0, 0, 0]);
    assert_eq!(&msg[20..28], &[1, 0, 0, 0, 0, 0, 0, 0]);
    assert_eq!(&msg[28..36], &[5, 0, 0, 0, 0, 0, 0, 0]);
    assert_eq!(decode_length(&msg[0..4]), Ok(32));
}

#[test]
fn truncated_work_message() {
    let msg = encode_work(1, 2, &[3]);
    assert!(matches!(decode_work(&msg[..27]), Err(ProtocolError::Truncated)));
    assert_eq!(decode_length(&msg[..3]), Err(ProtocolError::Truncated));
}

#[test]
fn length_prefix_mismatch() {
    let mut msg = encode_work(1, 2, &[3]);
    msg.push(0);
    assert!(matches!(decode_work(&msg), Err(ProtocolError::LengthMismatch)));
}

#[test]
fn base_prime_count_mismatch() {
    let mut msg = encode_work(1, 2, &[3, 5]);
    msg[20] = 3;
    assert!(matches!(decode_work(&msg), Err(ProtocolError::CountMismatch)));
}

#[test]
fn result_message() {
    assert_eq!(encode_result(1229), vec![0xcd, 0x04, 0, 0]);
    assert_eq!(decode_result(&[0xcd, 0x04, 0, 0]), Ok(1229));
    assert_eq!(decode_result(&[1, 2, 3]), Err(ProtocolError::BadResultLength));
}

#[test]
fn worker_replies_with_its_count() {
    let msg = encode_work(10, 30, &[2, 3, 5, 7]);
    assert_eq!(work_reply(&msg), Ok(vec![6, 0, 0, 0]));
}

#[test]
fn worker_rejects_bad_messages() {
    assert_eq!(work_reply(&[1, 2, 3]), Err(WorkError::Malformed(ProtocolError::Truncated)));
    let msg = encode_work(10, 30, &[2, 1]);
    assert_eq!(work_reply(&msg), Err(WorkError::BadBasePrime));
    let msg = encode_work(0, u64::MAX, &[2]);
    assert_eq!(work_reply(&msg), Err(WorkError::SegmentTooLarge));
    let mut msg = encode_work(10, 30, &[2]);
    msg.push(0);
    assert_eq!(work_reply(&msg), Err(WorkError::Malformed(ProtocolError::LengthMismatch)));
    let mut msg = encode_work(10, 30, &[2]);
    msg[20] = 2;
    assert_eq!(work_reply(&msg), Err(WorkError::Malformed(ProtocolError::CountMismatch)));
}

#[test]
fn message_for_a_share_past_the_limit() {
    let plan = SievePlan::new(5, 4);
    let work = decode_work(&work_message_for(&plan, 3).unwrap()).unwrap();
    assert_eq!(work.low, 7);
    assert_eq!(work.high, 5);
    assert_eq!(work_reply(&work_message_for(&plan, 3).unwrap()), Ok(vec![0, 0, 0, 0]));
}

#[test]
fn coordinator_messages_follow_the_plan() {
    let plan = SievePlan::new(10000, 3);
    for worker in 0..3 {
        let msg = work_message_for(&plan, worker).unwrap();
        let work = decode_work(&msg).unwrap();
        let r = plan.ranges[worker];
        assert_eq!(Range { low: work.low, high: work.high }, r);
        assert_eq!(work.base_primes, plan.base_primes);
        let reply = work_reply(&msg).unwrap();
        assert_eq!(decode_result(&reply).unwrap() as usize, plan.sieve_worker(worker).len());
    }
}
