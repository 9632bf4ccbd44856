//! The slot clock: which instant a slot begins at, and which slot an
//! instant falls in.  Instants are milliseconds.

use crate::error::ConsensusError;
use crate::slot::Slot;
use vstd::prelude::*;

verus! {

/// Whether the clock is usable: at least one thread, and a slot duration
/// `t0` of at least one millisecond per thread.
pub open spec fn clock_ok(thread_count: u8, t0: u64) -> bool {
    thread_count > 0 && t0 >= thread_count
}

/// The instant at which `slot` begins: the threads of one period start
/// `t0 / thread_count` apart, the periods `t0` apart.
pub open spec fn slot_instant(thread_count: u8, t0: u64, genesis_timestamp: u64, slot: Slot) -> int {
    genesis_timestamp + slot.period * t0 + slot.thread * (t0 / (thread_count as u64))
}

/// The instant at which `slot` begins.  Fails where the clock is unusable
/// or the instant does not fit 64 bits.
pub fn get_block_slot_timestamp(thread_count: u8, t0: u64, genesis_timestamp: u64, slot: Slot) -> (out:
    Result<u64, ConsensusError>)
    ensures
        match out {
            Ok(instant) => clock_ok(thread_count, t0) && instant == slot_instant(
                thread_count,
                t0,
                genesis_timestamp,
                slot,
            ),
            Err(e) => e == ConsensusError::TimeOverflowError && !(clock_ok(thread_count, t0)
                && slot_instant(thread_count, t0, genesis_timestamp, slot) <= u64::MAX),
        },
{
    if thread_count == 0 || t0 < thread_count as u64 {
        return Err(ConsensusError::TimeOverflowError);
    }
    let step: u64 = t0 / (thread_count as u64);
    proof {
        assert(step * (slot.thread as u64) == slot.thread * step) by (nonlinear_arith);
        assert(t0 * slot.period == slot.period * t0) by (nonlinear_arith);
        assert(slot.thread * step >= 0 && slot.period * t0 >= 0) by (nonlinear_arith);
    }
    let base = match step.checked_mul(slot.thread as u64) {
        Some(base) => base,
        None => {
            return Err(ConsensusError::TimeOverflowError);
        },
    };
    let shift = match t0.checked_mul(slot.period) {
        Some(shift) => shift,
        None => {
            return Err(ConsensusError::TimeOverflowError);
        },
    };
    match genesis_timestamp.checked_add(shift) {
        None => Err(ConsensusError::TimeOverflowError),
        Some(partial) => match partial.checked_add(base) {
            None => Err(ConsensusError::TimeOverflowError),
            Some(instant) => Ok(instant),
        },
    }
}

/// The latest slot that has begun at `timestamp`, or `None` before the
/// genesis instant.  Fails where the clock is unusable.
pub fn get_latest_block_slot_at_timestamp(
    thread_count: u8,
    t0: u64,
    genesis_timestamp: u64,
    timestamp: u64,
) -> (out: Result<Option<Slot>, ConsensusError>)
    ensures
        match out {
            Ok(None) => clock_ok(thread_count, t0) && timestamp < genesis_timestamp,
            Ok(Some(slot)) => {
                &&& clock_ok(thread_count, t0)
                &&& slot.thread < thread_count
                &&& slot_instant(thread_count, t0, genesis_timestamp, slot) <= timestamp
                &&& forall|other: Slot|
                    other.thread < thread_count && #[trigger] slot_instant(
                        thread_count,
                        t0,
                        genesis_timestamp,
                        other,
                    ) <= timestamp ==> other.precedes_or_is(slot)
            },
            Err(e) => e == ConsensusError::TimeOverflowError && !clock_ok(thread_count, t0),
        },
{
    if thread_count == 0 || t0 < thread_count as u64 {
        return Err(ConsensusError::TimeOverflowError);
    }
    if timestamp < genesis_timestamp {
        return Ok(None);
    }
    let since: u64 = timestamp - genesis_timestamp;
    let step: u64 = t0 / (thread_count as u64);
    assert(step > 0) by (nonlinear_arith)
        requires
            step == t0 / (thread_count as u64),
            t0 >= thread_count,
            thread_count > 0,
    ;
    let period: u64 = since / t0;
    let within: u64 = since % t0;
    let ahead: u64 = within / step;
    let thread: u8 = if ahead >= thread_count as u64 {
        thread_count - 1
    } else {
        ahead as u8
    };
    let slot = Slot { period, thread };
    proof {
        assert(since == period * t0 + within) by (nonlinear_arith)
            requires
                period == since / t0,
                within == since % t0,
                t0 > 0,
        ;
        assert(thread * step <= within) by (nonlinear_arith)
            requires
                thread <= within / step,
                step > 0,
        ;
        assert forall|other: Slot|
            other.thread < thread_count && #[trigger] slot_instant(
                thread_count,
                t0,
                genesis_timestamp,
                other,
            ) <= timestamp implies other.precedes_or_is(slot) by {
            lemma_not_later(other.period as int, other.thread as int, period as int, within as int,
                t0 as int, step as int, thread_count as int, thread as int);
        }
    }
    Ok(Some(slot))
}

/// A slot that has begun by the instant `p * t0 + within` past genesis does
/// not come after `(p, thread)`.
proof fn lemma_not_later(
    op: int,
    ot: int,
    p: int,
    within: int,
    t0: int,
    step: int,
    thread_count: int,
    thread: int,
)
    requires
        0 <= op,
        0 <= ot < thread_count,
        0 <= p,
        0 <= within < t0,
        0 < step,
        thread == if within / step >= thread_count {
            thread_count - 1
        } else {
            within / step
        },
        op * t0 + ot * step <= p * t0 + within,
    ensures
        op < p || (op == p && ot <= thread),
{
    if op > p {
        assert(op * t0 >= (p + 1) * t0) by (nonlinear_arith)
            requires
                op >= p + 1,
                t0 > 0,
        ;
        assert((p + 1) * t0 == p * t0 + t0) by (nonlinear_arith);
        assert(ot * step >= 0) by (nonlinear_arith)
            requires
                ot >= 0,
                step > 0,
        ;
    } else if op == p {
        assert(ot <= within / step) by (nonlinear_arith)
            requires
                ot * step <= within,
                step > 0,
                ot >= 0,
        ;
    }
}

} // verus!
