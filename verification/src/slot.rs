//! Slots: a period and a thread, ordered by period first.

use crate::error::{DeserializeError, ModelsError};
use crate::varint::{
    lemma_encoding_of_parse, lemma_parse_of_encoding, read_varint, varint_encoding, varint_parse,
    write_varint,
};
use vstd::prelude::*;
use vstd::slice::slice_subrange;

verus! {

/// A time slot of one thread.
#[derive(Clone, Copy, Debug, PartialEq, Eq, Structural, PartialOrd, Ord, Hash)]
pub struct Slot {
    /// How many slots of this thread came before.
    pub period: u64,
    /// The thread.
    pub thread: u8,
}

/// The bytes of a slot: the period as a variable-width integer, then the
/// thread as one byte.
pub open spec fn slot_encoding(slot: Slot) -> Seq<u8> {
    varint_encoding(slot.period as nat) + seq![slot.thread]
}

/// The slot at the start of `bytes` and the number of bytes it occupies;
/// `None` unless the period is a minimally encoded 64-bit value and the
/// thread is below `thread_count`.
pub open spec fn slot_parse(bytes: Seq<u8>, thread_count: u8) -> Option<(Slot, nat)> {
    match varint_parse(bytes) {
        Some((period, used)) => if period <= u64::MAX && used < bytes.len() && bytes[used as int]
            < thread_count {
            Some((Slot { period: period as u64, thread: bytes[used as int] }, used + 1))
        } else {
            None
        },
        None => None,
    }
}

/// Reading an encoded slot gives the slot back, whatever follows it.
pub proof fn lemma_slot_parse_of_encoding(slot: Slot, thread_count: u8, rest: Seq<u8>)
    requires
        slot.thread < thread_count,
    ensures
        slot_parse(slot_encoding(slot) + rest, thread_count) == Some(
            (slot, slot_encoding(slot).len()),
        ),
{
    let period = varint_encoding(slot.period as nat);
    let all = slot_encoding(slot) + rest;
    assert(all =~= period + (seq![slot.thread] + rest));
    lemma_parse_of_encoding(slot.period as nat, seq![slot.thread] + rest);
    assert(all[period.len() as int] == slot.thread);
}

/// Encoding a slot that was read gives the bytes that were read.
pub proof fn lemma_slot_encoding_of_parse(bytes: Seq<u8>, thread_count: u8)
    ensures
        match slot_parse(bytes, thread_count) {
            Some((slot, used)) => used <= bytes.len() && slot.thread < thread_count
                && slot_encoding(slot) == bytes.subrange(0, used as int),
            None => true,
        },
{
    lemma_encoding_of_parse(bytes);
    match slot_parse(bytes, thread_count) {
        Some((slot, used)) => {
            assert(slot_encoding(slot) =~= bytes.subrange(0, used as int));
        },
        None => {},
    }
}

impl Slot {
    /// The slot of `thread` in `period`.
    pub fn new(period: u64, thread: u8) -> (slot: Slot)
        ensures
            slot == (Slot { period, thread }),
    {
        Slot { period, thread }
    }

    /// Whether `self` comes strictly before `other`.
    pub open spec fn precedes(self, other: Slot) -> bool {
        self.period < other.period || (self.period == other.period && self.thread < other.thread)
    }

    /// Whether `self` comes before `other` or is `other`.
    pub open spec fn precedes_or_is(self, other: Slot) -> bool {
        self.precedes(other) || self == other
    }

    /// The slot that follows `self` when there are `thread_count` threads.
    pub open spec fn successor(self, thread_count: u8) -> Slot {
        if self.thread + 1 >= thread_count {
            Slot { period: (self.period + 1) as u64, thread: 0 }
        } else {
            Slot { period: self.period, thread: (self.thread + 1) as u8 }
        }
    }

    /// Whether `self` has a successor: it has none only in the last thread
    /// of period `u64::MAX`.
    pub open spec fn has_successor(self, thread_count: u8) -> bool {
        self.thread + 1 < thread_count || self.period < u64::MAX
    }

    /// Whether `self` comes strictly before `other`.
    pub fn is_before(&self, other: &Slot) -> (before: bool)
        ensures
            before == self.precedes(*other),
    {
        self.period < other.period || (self.period == other.period && self.thread < other.thread)
    }

    /// The next slot: the next thread of the same period, or thread 0 of the
    /// next period after the last thread.
    pub fn get_next_slot(&self, thread_count: u8) -> (out: Result<Slot, ModelsError>)
        ensures
            self.has_successor(thread_count) ==> out == Ok::<Slot, ModelsError>(
                self.successor(thread_count),
            ),
            !self.has_successor(thread_count) ==> out == Err::<Slot, ModelsError>(
                ModelsError::PeriodOverflowError,
            ),
    {
        if self.thread == u8::MAX || self.thread + 1 >= thread_count {
            if self.period == u64::MAX {
                Err(ModelsError::PeriodOverflowError)
            } else {
                Ok(Slot { period: self.period + 1, thread: 0 })
            }
        } else {
            Ok(Slot { period: self.period, thread: self.thread + 1 })
        }
    }

    /// Appends the bytes of the slot to `buffer`.
    pub fn serialize(&self, buffer: &mut Vec<u8>)
        ensures
            final(buffer)@ == old(buffer)@ + slot_encoding(*self),
    {
        write_varint(self.period, buffer);
        buffer.push(self.thread);
        assert(buffer@ =~= old(buffer)@ + slot_encoding(*self));
    }

    /// Reads a slot of one of `thread_count` threads from the start of
    /// `buffer` and returns it with the bytes that follow it.
    pub fn deserialize(buffer: &[u8], thread_count: u8) -> (out: Result<
        (&[u8], Slot),
        DeserializeError,
    >)
        ensures
            match out {
                Ok((rest, slot)) => slot_parse(buffer@, thread_count) matches Some((s, used))
                    && s == slot && rest@ == buffer@.skip(used as int),
                Err(e) => e == DeserializeError::Slot && slot_parse(buffer@, thread_count)
                    is None,
            },
    {
        match read_varint(buffer, u64::MAX) {
            None => Err(DeserializeError::Slot),
            Some((period, used)) => {
                if used >= buffer.len() {
                    return Err(DeserializeError::Slot);
                }
                let thread: u8 = buffer[used];
                if thread >= thread_count {
                    return Err(DeserializeError::Slot);
                }
                let rest = slice_subrange(buffer, used + 1, buffer.len());
                assert(rest@ =~= buffer@.skip(used + 1));
                assert(slot_parse(buffer@, thread_count) == Some(
                    (Slot { period, thread }, (used + 1) as nat),
                ));
                Ok((rest, Slot { period, thread }))
            },
        }
    }
}

} // verus!
