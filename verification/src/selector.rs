//! Stake-weighted leader selection: a pure function from a seed, a list of
//! weights and a slot to the index of a participant.
//!
//! Each thread has a key, the digest of the seed followed by the thread.
//! The sample of a slot is the digest of the thread's key followed by the
//! period; reduced modulo the total weight it falls into the range of
//! exactly one participant, the ranges being laid out in index order.

use crate::error::ConsensusError;
use crate::hash::{blake3_digest, blake3_of};
use crate::slot::Slot;
use vstd::prelude::*;

verus! {

/// The sum of `weights`.
pub open spec fn total_weight(weights: Seq<u64>) -> nat
    decreases weights.len(),
{
    if weights.len() == 0 {
        0
    } else {
        total_weight(weights.drop_last()) + weights.last() as nat
    }
}

/// The participant whose range holds `point`: the least index `i` such that
/// `point` is below the sum of the first `i + 1` weights.
pub open spec fn pick(weights: Seq<u64>, point: nat) -> nat
    decreases weights.len(),
{
    if weights.len() == 0 {
        0
    } else if point < total_weight(weights.drop_last()) {
        pick(weights.drop_last(), point)
    } else {
        (weights.len() - 1) as nat
    }
}

/// The number whose digits in base 256 are `bytes`, least significant
/// first.
pub open spec fn le_value(bytes: Seq<u8>) -> nat
    decreases bytes.len(),
{
    if bytes.len() == 0 {
        0
    } else {
        bytes[0] as nat + 256 * le_value(bytes.drop_first())
    }
}

/// The `count` lowest digits of `n` in base 256, least significant first.
pub open spec fn le_bytes(n: nat, count: nat) -> Seq<u8>
    decreases count,
{
    if count == 0 {
        Seq::empty()
    } else {
        seq![(n % 256) as u8] + le_bytes(n / 256, (count - 1) as nat)
    }
}

/// The key of a thread under `seed`.
pub open spec fn thread_key(seed: Seq<u8>, thread: u8) -> Seq<u8> {
    blake3_digest(seed.push(thread))
}

/// The sample of `slot` under `seed`: the first sixteen bytes of the digest
/// of the thread's key followed by the period, read as a number.
pub open spec fn slot_sample(seed: Seq<u8>, slot: Slot) -> nat {
    le_value(
        blake3_digest(thread_key(seed, slot.thread) + le_bytes(slot.period as nat, 8)).subrange(
            0,
            16,
        ),
    )
}

/// The index drawn for `slot` from `weights` under `seed`.
pub open spec fn drawn_index(seed: Seq<u8>, weights: Seq<u64>, slot: Slot) -> nat {
    pick(weights, slot_sample(seed, slot) % total_weight(weights))
}

/// Whether a selector can be built from `seed` and `weights`.
pub open spec fn selector_inputs_ok(seed: Seq<u8>, weights: Seq<u64>) -> bool {
    seed.len() == 32 && 0 < weights.len() <= u32::MAX && total_weight(weights) > 0
}

/// The sum of a prefix grows with the prefix, and each weight is at most
/// `u64::MAX`.
pub proof fn lemma_total_weight_prefix(weights: Seq<u64>, i: int, j: int)
    requires
        0 <= i <= j <= weights.len(),
    ensures
        total_weight(weights.take(i)) <= total_weight(weights.take(j)) <= j * u64::MAX,
    decreases j,
{
    if j == 0 {
        assert(weights.take(0).len() == 0);
    } else {
        assert(weights.take(j).drop_last() =~= weights.take(j - 1));
        assert(total_weight(weights.take(j)) == total_weight(weights.take(j - 1)) + weights[j
            - 1] as nat);
        if i < j {
            lemma_total_weight_prefix(weights, i, j - 1);
        } else {
            lemma_total_weight_prefix(weights, j - 1, j - 1);
        }
        assert(j * u64::MAX == (j - 1) * u64::MAX + u64::MAX) by (nonlinear_arith);
    }
}

/// `pick` finds the one participant whose range holds `point`.
pub proof fn lemma_pick_unique(weights: Seq<u64>, point: nat, i: int)
    requires
        0 <= i < weights.len(),
        total_weight(weights.take(i)) <= point < total_weight(weights.take(i + 1)),
    ensures
        pick(weights, point) == i,
        weights[i] > 0,
    decreases weights.len(),
{
    assert(weights.take(i + 1).drop_last() =~= weights.take(i));
    assert(weights.drop_last() =~= weights.take(weights.len() - 1));
    if i < weights.len() - 1 {
        lemma_total_weight_prefix(weights, i + 1, weights.len() - 1);
        assert(weights.drop_last().take(i) =~= weights.take(i));
        assert(weights.drop_last().take(i + 1) =~= weights.take(i + 1));
        lemma_pick_unique(weights.drop_last(), point, i);
    }
}

/// Selects one participant per slot, with probability proportional to the
/// participant's weight.
pub struct RandomSelector {
    seed: Vec<u8>,
    weights: Vec<u64>,
    total: u128,
    keys: Vec<[u8; 32]>,
}

impl RandomSelector {
    /// The seed and the weights are such that a selector can be built, the
    /// total is the sum of the weights, and the keys are those of the
    /// first threads.
    #[verifier::type_invariant]
    spec fn inv(&self) -> bool {
        &&& selector_inputs_ok(self.seed@, self.weights@)
        &&& self.total == total_weight(self.weights@)
        &&& self.keys@.len() <= 256
        &&& forall|t: int|
            0 <= t < self.keys@.len() ==> (#[trigger] self.keys@[t])@ == thread_key(
                self.seed@,
                t as u8,
            )
    }

    /// The seed the selector was built with.
    pub closed spec fn seed(&self) -> Seq<u8> {
        self.seed@
    }

    /// The weights the selector was built with.
    pub closed spec fn weights(&self) -> Seq<u64> {
        self.weights@
    }

    /// The index that `draw` returns for `slot`.
    pub open spec fn spec_draw(&self, slot: Slot) -> nat {
        drawn_index(self.seed(), self.weights(), slot)
    }

    /// Builds the selector of `seed` and `participant_weights`, with the
    /// keys of the first `thread_count` threads computed ahead.  Fails
    /// unless the seed has 32 bytes and there are between one and
    /// `u32::MAX` weights, not all of them zero.
    pub fn new(seed: &Vec<u8>, thread_count: u8, participant_weights: Vec<u64>) -> (out: Result<
        RandomSelector,
        ConsensusError,
    >)
        ensures
            match out {
                Ok(selector) => selector_inputs_ok(seed@, participant_weights@) && selector.seed()
                    == seed@ && selector.weights() == participant_weights@,
                Err(e) => e == ConsensusError::SelectionError && !selector_inputs_ok(
                    seed@,
                    participant_weights@,
                ),
            },
    {
        if seed.len() != 32 || participant_weights.len() == 0 || participant_weights.len()
            > u32::MAX as usize {
            return Err(ConsensusError::SelectionError);
        }
        let mut total: u128 = 0;
        let mut i: usize = 0;
        while i < participant_weights.len()
            invariant
                i <= participant_weights@.len() <= u32::MAX,
                total == total_weight(participant_weights@.take(i as int)),
            decreases participant_weights@.len() - i,
        {
            proof {
                lemma_total_weight_prefix(participant_weights@, i as int, i + 1);
                assert(participant_weights@.take(i + 1).drop_last() =~= participant_weights@.take(
                    i as int,
                ));
                assert((i + 1) * u64::MAX <= u32::MAX * u64::MAX) by (nonlinear_arith)
                    requires
                        i + 1 <= u32::MAX,
                ;
            }
            total = total + participant_weights[i] as u128;
            i += 1;
        }
        assert(participant_weights@.take(i as int) =~= participant_weights@);
        if total == 0 {
            return Err(ConsensusError::SelectionError);
        }
        let mut own_seed: Vec<u8> = Vec::new();
        let mut k: usize = 0;
        while k < 32
            invariant
                k <= 32,
                seed@.len() == 32,
                own_seed@ == seed@.take(k as int),
            decreases 32 - k,
        {
            own_seed.push(seed[k]);
            assert(seed@.take(k + 1) =~= seed@.take(k as int).push(seed@[k as int]));
            k += 1;
        }
        assert(own_seed@ =~= seed@);
        let mut keys: Vec<[u8; 32]> = Vec::new();
        let mut thread: u8 = 0;
        while thread < thread_count
            invariant
                thread <= thread_count,
                own_seed@ == seed@,
                keys@.len() == thread,
                forall|t: int|
                    0 <= t < keys@.len() ==> (#[trigger] keys@[t])@ == thread_key(seed@, t as u8),
            decreases thread_count - thread,
        {
            keys.push(key_of_thread(&own_seed, thread));
            thread += 1;
        }
        Ok(RandomSelector { seed: own_seed, weights: participant_weights, total, keys })
    }

    /// The index of the participant entitled to `slot`: a function of the
    /// seed, the weights and the slot alone, always the index of a
    /// participant of non-zero weight.
    pub fn draw(&self, slot: Slot) -> (index: u32)
        ensures
            index == self.spec_draw(slot),
            index < self.weights().len(),
            self.weights()[index as int] > 0,
    {
        proof {
            use_type_invariant(self);
        }
        let key: [u8; 32] = if (slot.thread as usize) < self.keys.len() {
            self.keys[slot.thread as usize]
        } else {
            key_of_thread(&self.seed, slot.thread)
        };
        let mut message: Vec<u8> = Vec::new();
        let mut k: usize = 0;
        while k < 32
            invariant
                k <= 32,
                message@ == key@.take(k as int),
            decreases 32 - k,
        {
            message.push(key[k]);
            assert(key@.take(k + 1) =~= key@.take(k as int).push(key@[k as int]));
            k += 1;
        }
        assert(key@.take(32) =~= key@);
        write_le_u64(slot.period, &mut message);
        let digest = blake3_of(message.as_slice());
        self.index_of_sample(read_le_u128(&digest))
    }

    /// The index of the participant whose range holds `sample` once it is
    /// reduced modulo the total weight.
    pub fn index_of_sample(&self, sample: u128) -> (index: u32)
        ensures
            index == pick(self.weights(), sample as nat % total_weight(self.weights())),
            index < self.weights().len(),
            self.weights()[index as int] > 0,
    {
        proof {
            use_type_invariant(self);
        }
        let point: u128 = sample % self.total;
        let mut below: u128 = 0;
        let mut i: usize = 0;
        proof {
            assert(self.weights@.take(0).len() == 0);
            assert(self.weights@.take(self.weights@.len() as int) =~= self.weights@);
            lemma_total_weight_prefix(self.weights@, 0, self.weights@.len() as int);
            assert(self.weights@.len() * u64::MAX <= u32::MAX * u64::MAX) by (nonlinear_arith)
                requires
                    self.weights@.len() <= u32::MAX,
            ;
        }
        while below + (self.weights[i] as u128) <= point
            invariant
                0 <= i < self.weights@.len() <= u32::MAX,
                total_weight(self.weights@) <= u32::MAX * u64::MAX,
                below == total_weight(self.weights@.take(i as int)),
                below <= point < total_weight(self.weights@),
            decreases self.weights@.len() - i,
        {
            proof {
                assert(self.weights@.take(i + 1).drop_last() =~= self.weights@.take(i as int));
                assert(self.weights@.take(self.weights@.len() as int) =~= self.weights@);
            }
            below = below + self.weights[i] as u128;
            i += 1;
        }
        proof {
            assert(self.weights@.take(i + 1).drop_last() =~= self.weights@.take(i as int));
            lemma_pick_unique(self.weights@, point as nat, i as int);
        }
        i as u32
    }
}

/// The key of `thread` under `seed`.
fn key_of_thread(seed: &Vec<u8>, thread: u8) -> (key: [u8; 32])
    ensures
        key@ == thread_key(seed@, thread),
{
    let mut input: Vec<u8> = Vec::new();
    let mut k: usize = 0;
    while k < seed.len()
        invariant
            k <= seed@.len(),
            input@ == seed@.take(k as int),
        decreases seed@.len() - k,
    {
        input.push(seed[k]);
        assert(seed@.take(k + 1) =~= seed@.take(k as int).push(seed@[k as int]));
        k += 1;
    }
    assert(seed@.take(seed@.len() as int) =~= seed@);
    input.push(thread);
    blake3_of(input.as_slice())
}

/// Appends the eight bytes of `value`, least significant first.
pub fn write_le_u64(value: u64, buffer: &mut Vec<u8>)
    ensures
        final(buffer)@ == old(buffer)@ + le_bytes(value as nat, 8),
{
    let mut rest: u64 = value;
    let mut k: u8 = 0;
    while k < 8
        invariant
            k <= 8,
            buffer@ + le_bytes(rest as nat, (8 - k) as nat) == old(buffer)@ + le_bytes(
                value as nat,
                8,
            ),
        decreases 8 - k,
    {
        proof {
            assert(le_bytes(rest as nat, (8 - k) as nat) == seq![(rest % 256) as u8] + le_bytes(
                (rest / 256) as nat,
                (8 - k - 1) as nat,
            ));
            assert(buffer@.push((rest % 256) as u8) + le_bytes(
                (rest / 256) as nat,
                (8 - k - 1) as nat,
            ) =~= buffer@ + le_bytes(rest as nat, (8 - k) as nat));
        }
        buffer.push((rest % 256) as u8);
        rest = rest / 256;
        k += 1;
    }
    assert(buffer@ + le_bytes(rest as nat, 0) =~= buffer@);
}

/// The number written in the first sixteen bytes of `digest`, least
/// significant first.
pub fn read_le_u128(digest: &[u8; 32]) -> (value: u128)
    ensures
        value == le_value(digest@.subrange(0, 16)),
{
    let ghost low = digest@.subrange(0, 16);
    let mut value: u128 = 0;
    let mut k: usize = 16;
    proof {
        assert(low.skip(16).len() == 0);
        lemma_le_value_bound(low.skip(16));
    }
    while k > 0
        invariant
            k <= 16,
            low == digest@.subrange(0, 16),
            value == le_value(low.skip(k as int)),
            value < pow256((16 - k) as nat),
        decreases k,
    {
        k -= 1;
        proof {
            assert(low.skip(k as int).drop_first() =~= low.skip(k + 1));
            assert(low.skip(k as int)[0] == digest@[k as int]);
            lemma_le_value_bound(low.skip(k as int));
            lemma_pow256_monotonic((16 - k) as nat, 16);
            lemma_pow256_16();
            assert(pow256((16 - k) as nat) == 256 * pow256((16 - k - 1) as nat));
        }
        value = value * 256 + digest[k] as u128;
    }
    assert(low.skip(0) =~= low);
    value
}

/// 256 to the power `k`.
pub open spec fn pow256(k: nat) -> nat
    decreases k,
{
    if k == 0 {
        1
    } else {
        256 * pow256((k - 1) as nat)
    }
}

/// A number of `n` digits in base 256 is below 256 to the power `n`.
proof fn lemma_le_value_bound(bytes: Seq<u8>)
    ensures
        le_value(bytes) < pow256(bytes.len()),
    decreases bytes.len(),
{
    if bytes.len() > 0 {
        lemma_le_value_bound(bytes.drop_first());
    }
}

/// The powers of 256 grow with the exponent.
proof fn lemma_pow256_monotonic(a: nat, b: nat)
    requires
        a <= b,
    ensures
        pow256(a) <= pow256(b),
    decreases b,
{
    if a < b {
        lemma_pow256_monotonic(a, (b - 1) as nat);
    }
}

/// 256 to the power 16 is 2 to the power 128.
proof fn lemma_pow256_16()
    ensures
        pow256(16) == 0x1_0000_0000_0000_0000_0000_0000_0000_0000,
{
    reveal_with_fuel(pow256, 17);
}

} // verus!
