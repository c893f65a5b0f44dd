//! The byte messages of the socket strategy: the work message that a coordinator sends to
//! a worker, and the result message that the worker sends back. All integers are unsigned
//! and little-endian.

use vstd::prelude::*;
use vstd::bytes::{
    lemma_auto_spec_u32_to_from_le_bytes, lemma_auto_spec_u64_to_from_le_bytes,
    spec_u32_from_le_bytes, spec_u32_to_le_bytes, spec_u64_from_le_bytes, spec_u64_to_le_bytes,
    u32_from_le_bytes, u32_to_le_bytes, u64_from_le_bytes, u64_to_le_bytes,
};
use vstd::slice::slice_subrange;

verus! {

/// Bytes of a work message before its first base prime: the length prefix, `low`, `high`
/// and the count of base primes.
pub const WORK_HEADER_LEN: usize = 28;

/// The largest number of base primes whose work message length fits in its `u32` prefix.
pub const MAX_BASE_PRIMES: usize = 536870908;

/// The bytes of `xs`, one little-endian word after another.
pub open spec fn words(xs: Seq<u64>) -> Seq<u8>
    decreases xs.len(),
{
    if xs.len() == 0 {
        Seq::empty()
    } else {
        words(xs.drop_last()) + spec_u64_to_le_bytes(xs.last())
    }
}

/// The body of a work message: `low`, `high`, the count of base primes, then the primes.
pub open spec fn work_body(low: u64, high: u64, base_primes: Seq<u64>) -> Seq<u8> {
    spec_u64_to_le_bytes(low) + spec_u64_to_le_bytes(high) + spec_u64_to_le_bytes(
        base_primes.len() as u64,
    ) + words(base_primes)
}

/// A whole work message: the body's length as a `u32`, then the body.
pub open spec fn work_message(low: u64, high: u64, base_primes: Seq<u64>) -> Seq<u8> {
    spec_u32_to_le_bytes(work_body(low, high, base_primes).len() as u32) + work_body(
        low,
        high,
        base_primes,
    )
}

/// The little-endian word at byte `at` of `msg`.
pub open spec fn word_at(msg: Seq<u8>, at: int) -> u64 {
    spec_u64_from_le_bytes(msg.subrange(at, at + 8))
}

/// The length that the prefix of `msg` announces.
pub open spec fn announced_len(msg: Seq<u8>) -> int {
    spec_u32_from_le_bytes(msg.subrange(0, 4)) as int
}

/// The count of base primes that `msg` announces.
pub open spec fn announced_count(msg: Seq<u8>) -> int {
    word_at(msg, 20) as int
}

/// What a work message says: `(low, high, base_primes)`, or nothing when the bytes are not
/// a work message.
pub open spec fn parse_work(msg: Seq<u8>) -> Option<(u64, u64, Seq<u64>)> {
    if msg.len() < WORK_HEADER_LEN || announced_len(msg) != msg.len() - 4 || msg.len()
        - WORK_HEADER_LEN != 8 * announced_count(msg) {
        None
    } else {
        Some(
            (
                word_at(msg, 4),
                word_at(msg, 12),
                Seq::new(announced_count(msg) as nat, |i: int| word_at(msg, 28 + 8 * i)),
            ),
        )
    }
}

/// Why bytes are not a message.
#[derive(Clone, Copy, Debug, PartialEq, Eq, Structural)]
pub enum ProtocolError {
    /// Fewer bytes than the message's fixed part.
    Truncated,
    /// The length prefix disagrees with the number of bytes that follow it.
    LengthMismatch,
    /// The count of base primes disagrees with the number of bytes that hold them.
    CountMismatch,
    /// A result message that is not exactly four bytes long.
    BadResultLength,
}

/// A decoded work message: the range to sieve and the base primes to sieve it with.
pub struct WorkMessage {
    pub low: u64,
    pub high: u64,
    pub base_primes: Vec<u64>,
}

/// Each word of `words(xs)` is the encoding of the matching value of `xs`.
pub proof fn lemma_words(xs: Seq<u64>)
    ensures
        words(xs).len() == 8 * xs.len(),
        forall|i: int|
            0 <= i < xs.len() ==> #[trigger] words(xs).subrange(8 * i, 8 * i + 8)
                == spec_u64_to_le_bytes(xs[i]),
    decreases xs.len(),
{
    lemma_auto_spec_u64_to_from_le_bytes();
    if xs.len() > 0 {
        let prev = xs.drop_last();
        lemma_words(prev);
        let a = words(prev);
        let b = spec_u64_to_le_bytes(xs.last());
        assert forall|i: int| 0 <= i < xs.len() implies #[trigger] words(xs).subrange(
            8 * i,
            8 * i + 8,
        ) == spec_u64_to_le_bytes(xs[i]) by {
            if i < prev.len() {
                assert((a + b).subrange(8 * i, 8 * i + 8) =~= a.subrange(8 * i, 8 * i + 8));
                assert(prev[i] == xs[i]);
            } else {
                assert((a + b).subrange(8 * i, 8 * i + 8) =~= b);
            }
        }
    }
}

/// Appends the little-endian bytes of `x` to `out`.
fn push_word(out: &mut Vec<u8>, x: u64)
    ensures
        final(out)@ == old(out)@ + spec_u64_to_le_bytes(x),
{
    let mut bytes = u64_to_le_bytes(x);
    out.append(&mut bytes);
}

/// Encodes the work message that hands `[low, high]` and the base primes to a worker.
pub fn encode_work(low: u64, high: u64, base_primes: &[u64]) -> (msg: Vec<u8>)
    requires
        base_primes@.len() <= MAX_BASE_PRIMES,
    ensures
        msg@ == work_message(low, high, base_primes@),
{
    proof {
        lemma_auto_spec_u64_to_from_le_bytes();
        lemma_words(base_primes@);
    }
    let n = base_primes.len();
    let body_len = (24 + 8 * n) as u32;
    let mut msg = u32_to_le_bytes(body_len);
    push_word(&mut msg, low);
    push_word(&mut msg, high);
    push_word(&mut msg, n as u64);
    let ghost header = msg@;
    let mut i: usize = 0;
    while i < n
        invariant
            n == base_primes@.len(),
            i <= n,
            msg@ == header + words(base_primes@.subrange(0, i as int)),
        decreases n - i,
    {
        push_word(&mut msg, base_primes[i]);
        proof {
            let done = base_primes@.subrange(0, i + 1);
            assert(done.drop_last() =~= base_primes@.subrange(0, i as int));
            assert(header + words(base_primes@.subrange(0, i as int)) + spec_u64_to_le_bytes(
                base_primes@[i as int],
            ) == header + words(done));
        }
        i = i + 1;
    }
    assert(base_primes@.subrange(0, n as int) =~= base_primes@);
    assert(msg@ =~= work_message(low, high, base_primes@));
    msg
}

/// The number of body bytes that the four-byte length prefix of a work message announces.
pub fn decode_length(prefix: &[u8]) -> (r: Result<u32, ProtocolError>)
    ensures
        r is Ok <==> prefix@.len() == 4,
        r matches Ok(n) ==> n == spec_u32_from_le_bytes(prefix@),
        r matches Err(e) ==> e == ProtocolError::Truncated,
{
    if prefix.len() != 4 {
        return Err(ProtocolError::Truncated);
    }
    Ok(u32_from_le_bytes(prefix))
}

/// Decodes a whole work message, length prefix included.
pub fn decode_work(msg: &[u8]) -> (r: Result<WorkMessage, ProtocolError>)
    ensures
        r is Ok <==> parse_work(msg@) is Some,
        r matches Ok(w) ==> parse_work(msg@) == Some((w.low, w.high, w.base_primes@)),
        r == Err::<WorkMessage, ProtocolError>(ProtocolError::Truncated) <==> msg@.len()
            < WORK_HEADER_LEN,
        r == Err::<WorkMessage, ProtocolError>(ProtocolError::LengthMismatch) <==> msg@.len()
            >= WORK_HEADER_LEN && announced_len(msg@) != msg@.len() - 4,
        r == Err::<WorkMessage, ProtocolError>(ProtocolError::CountMismatch) <==> msg@.len()
            >= WORK_HEADER_LEN && announced_len(msg@) == msg@.len() - 4 && msg@.len()
            - WORK_HEADER_LEN != 8 * announced_count(msg@),
{
    let len = msg.len();
    if len < WORK_HEADER_LEN {
        return Err(ProtocolError::Truncated);
    }
    let announced = u32_from_le_bytes(slice_subrange(msg, 0, 4));
    if announced as usize != len - 4 {
        return Err(ProtocolError::LengthMismatch);
    }
    let low = u64_from_le_bytes(slice_subrange(msg, 4, 12));
    let high = u64_from_le_bytes(slice_subrange(msg, 12, 20));
    let count = u64_from_le_bytes(slice_subrange(msg, 20, 28));
    let rest = len - WORK_HEADER_LEN;
    if rest % 8 != 0 || (rest / 8) as u64 != count {
        return Err(ProtocolError::CountMismatch);
    }
    let n = rest / 8;
    let mut base_primes: Vec<u64> = Vec::new();
    let mut i: usize = 0;
    while i < n
        invariant
            n == announced_count(msg@),
            len == msg@.len(),
            len == WORK_HEADER_LEN + 8 * n,
            i <= n,
            base_primes@ == Seq::new(i as nat, |k: int| word_at(msg@, 28 + 8 * k)),
        decreases n - i,
    {
        let at = WORK_HEADER_LEN + 8 * i;
        let p = u64_from_le_bytes(slice_subrange(msg, at, at + 8));
        base_primes.push(p);
        i = i + 1;
        assert(base_primes@ =~= Seq::new(i as nat, |k: int| word_at(msg@, 28 + 8 * k)));
    }
    Ok(WorkMessage { low, high, base_primes })
}

/// Decoding an encoded work message gives back the range and the base primes unchanged.
pub proof fn lemma_work_round_trip(low: u64, high: u64, base_primes: Seq<u64>)
    requires
        base_primes.len() <= MAX_BASE_PRIMES,
    ensures
        parse_work(work_message(low, high, base_primes)) == Some((low, high, base_primes)),
{
    lemma_auto_spec_u32_to_from_le_bytes();
    lemma_auto_spec_u64_to_from_le_bytes();
    lemma_words(base_primes);
    let n = base_primes.len();
    let lo = spec_u64_to_le_bytes(low);
    let hi = spec_u64_to_le_bytes(high);
    let cnt = spec_u64_to_le_bytes(n as u64);
    let ws = words(base_primes);
    let body = work_body(low, high, base_primes);
    let prefix = spec_u32_to_le_bytes(body.len() as u32);
    let msg = work_message(low, high, base_primes);
    assert(msg == prefix + (lo + hi + cnt + ws));
    assert(msg.len() == 28 + 8 * n);
    assert(msg.subrange(0, 4) =~= prefix);
    assert(msg.subrange(4, 12) =~= lo);
    assert(msg.subrange(12, 20) =~= hi);
    assert(msg.subrange(20, 28) =~= cnt);
    assert(announced_count(msg) == n);
    assert forall|i: int| 0 <= i < n implies #[trigger] word_at(msg, 28 + 8 * i)
        == base_primes[i] by {
        assert(msg.subrange(28 + 8 * i, 28 + 8 * i + 8) =~= ws.subrange(8 * i, 8 * i + 8));
    }
    assert(Seq::new(n as nat, |i: int| word_at(msg, 28 + 8 * i)) =~= base_primes);
}

/// Encodes the result message that reports a worker's count.
pub fn encode_result(count: u32) -> (msg: Vec<u8>)
    ensures
        msg@ == spec_u32_to_le_bytes(count),
{
    u32_to_le_bytes(count)
}

/// Decodes a result message: exactly four bytes holding the count.
pub fn decode_result(msg: &[u8]) -> (r: Result<u32, ProtocolError>)
    ensures
        r is Ok <==> msg@.len() == 4,
        r matches Ok(n) ==> n == spec_u32_from_le_bytes(msg@),
        r matches Err(e) ==> e == ProtocolError::BadResultLength,
{
    if msg.len() != 4 {
        return Err(ProtocolError::BadResultLength);
    }
    Ok(u32_from_le_bytes(msg))
}

} // verus!
