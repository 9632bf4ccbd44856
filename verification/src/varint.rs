//! Variable-width unsigned integers: seven payload bits per byte, least
//! significant group first, the high bit of a byte announcing that another
//! byte follows.  Only the shortest encoding of a value is accepted.

use vstd::prelude::*;

verus! {

/// The encoding of `n`.
pub open spec fn varint_encoding(n: nat) -> Seq<u8>
    decreases n,
{
    if n < 128 {
        seq![n as u8]
    } else {
        seq![(128 + n % 128) as u8] + varint_encoding(n / 128)
    }
}

/// What a reader finds at the start of `bytes`: the value and the number of
/// bytes it occupies, or `None` where the bytes end too early or the
/// encoding is not the shortest one.
pub open spec fn varint_parse(bytes: Seq<u8>) -> Option<(nat, nat)>
    decreases bytes.len(),
{
    if bytes.len() == 0 {
        None
    } else if bytes[0] < 128 {
        Some((bytes[0] as nat, 1nat))
    } else {
        match varint_parse(bytes.drop_first()) {
            Some((high, used)) => if high == 0 {
                None
            } else {
                Some((((bytes[0] - 128) + 128 * high) as nat, used + 1))
            },
            None => None,
        }
    }
}

/// `varint_parse` restricted to values of at most `max`.
pub open spec fn varint_parse_bounded(bytes: Seq<u8>, max: nat) -> Option<(nat, nat)> {
    match varint_parse(bytes) {
        Some((value, used)) => if value <= max {
            Some((value, used))
        } else {
            None
        },
        None => None,
    }
}

/// 128 to the power `k`.
pub open spec fn pow128(k: nat) -> nat
    decreases k,
{
    if k == 0 {
        1
    } else {
        128 * pow128((k - 1) as nat)
    }
}

/// A value that takes `used` bytes is at least `128^(used - 1)` when
/// `used > 1`, and the reader never runs past the end of its input.
pub proof fn lemma_parse_bounds(bytes: Seq<u8>)
    ensures
        match varint_parse(bytes) {
            Some((value, used)) => 1 <= used <= bytes.len() && (used > 1 ==> value >= pow128(
                (used - 1) as nat,
            )),
            None => true,
        },
    decreases bytes.len(),
{
    if bytes.len() > 0 && bytes[0] >= 128 {
        lemma_parse_bounds(bytes.drop_first());
        match varint_parse(bytes.drop_first()) {
            Some((high, used)) => {
                if high != 0 {
                    if used > 1 {
                        assert(pow128(used) == 128 * pow128((used - 1) as nat));
                        assert(128 * high >= 128 * pow128((used - 1) as nat)) by (nonlinear_arith)
                            requires
                                high >= pow128((used - 1) as nat),
                        ;
                    } else {
                        assert(pow128(1) == 128 * pow128(0));
                    }
                }
            },
            None => {},
        }
    }
}

/// Reading what was written gives the value back, whatever follows it.
pub proof fn lemma_parse_of_encoding(n: nat, rest: Seq<u8>)
    ensures
        varint_parse(varint_encoding(n) + rest) == Some((n, varint_encoding(n).len())),
    decreases n,
{
    let all = varint_encoding(n) + rest;
    if n < 128 {
        assert(all[0] == n as u8);
    } else {
        let tail = varint_encoding(n / 128);
        lemma_parse_of_encoding(n / 128, rest);
        assert(all[0] == (128 + n % 128) as u8);
        assert(all.drop_first() =~= tail + rest);
        assert(varint_encoding(n).len() == tail.len() + 1);
    }
}

/// Writing what was read gives the bytes back: the accepted encodings are
/// exactly the ones the writer produces.
pub proof fn lemma_encoding_of_parse(bytes: Seq<u8>)
    ensures
        match varint_parse(bytes) {
            Some((value, used)) => used <= bytes.len() && varint_encoding(value)
                == bytes.subrange(0, used as int),
            None => true,
        },
    decreases bytes.len(),
{
    lemma_parse_bounds(bytes);
    if bytes.len() > 0 {
        if bytes[0] < 128 {
            assert(varint_encoding(bytes[0] as nat) =~= bytes.subrange(0, 1));
        } else {
            lemma_encoding_of_parse(bytes.drop_first());
            lemma_parse_bounds(bytes.drop_first());
            match varint_parse(bytes.drop_first()) {
                Some((high, used)) => {
                    if high != 0 {
                        let value = ((bytes[0] - 128) + 128 * high) as nat;
                        assert(value / 128 == high);
                        assert(value % 128 == bytes[0] - 128);
                        assert(bytes.drop_first().subrange(0, used as int) =~= bytes.subrange(
                            1,
                            used as int + 1,
                        ));
                        assert(varint_encoding(value) =~= bytes.subrange(0, used as int + 1));
                    }
                },
                None => {},
            }
        }
    }
}

/// Appends the encoding of `value` to `buffer`.
pub fn write_varint(value: u64, buffer: &mut Vec<u8>)
    ensures
        final(buffer)@ == old(buffer)@ + varint_encoding(value as nat),
{
    let mut rest: u64 = value;
    while rest >= 128
        invariant
            buffer@ + varint_encoding(rest as nat) == old(buffer)@ + varint_encoding(value as nat),
        decreases rest,
    {
        let low: u8 = (rest % 128) as u8;
        proof {
            assert(varint_encoding(rest as nat) == seq![(128 + rest % 128) as u8]
                + varint_encoding((rest / 128) as nat));
            assert(buffer@.push((128 + low) as u8) + varint_encoding((rest / 128) as nat)
                =~= buffer@ + varint_encoding(rest as nat));
        }
        buffer.push(128 + low);
        rest = rest / 128;
    }
    proof {
        assert(buffer@.push(rest as u8) =~= buffer@ + varint_encoding(rest as nat));
    }
    buffer.push(rest as u8);
}

/// Reads one value from `bytes` at `start`, looking at no more than `budget`
/// bytes.
fn read_varint_within(bytes: &[u8], start: usize, budget: u8) -> (out: Option<(u64, usize)>)
    requires
        start <= bytes@.len(),
    ensures
        match out {
            Some((value, used)) => used <= budget && varint_parse(bytes@.skip(start as int))
                == Some((value as nat, used as nat)),
            None => !(varint_parse(bytes@.skip(start as int)) matches Some((value, used))
                && value <= u64::MAX && used <= budget),
        },
    decreases budget,
{
    let ghost input = bytes@.skip(start as int);
    proof {
        lemma_parse_bounds(input);
    }
    if budget == 0 || start >= bytes.len() {
        return None;
    }
    let first: u8 = bytes[start];
    assert(input[0] == first);
    if first < 128 {
        return Some((first as u64, 1));
    }
    assert(input.drop_first() =~= bytes@.skip(start + 1));
    proof {
        lemma_parse_bounds(input.drop_first());
    }
    match read_varint_within(bytes, start + 1, budget - 1) {
        None => None,
        Some((high, used)) => {
            if high == 0 {
                return None;
            }
            match high.checked_mul(128) {
                None => None,
                Some(shifted) => match shifted.checked_add((first - 128) as u64) {
                    None => None,
                    Some(value) => Some((value, used + 1)),
                },
            }
        },
    }
}

/// Reads one value of at most `max` from the start of `bytes`; on success
/// the second component is the number of bytes read.
pub fn read_varint(bytes: &[u8], max: u64) -> (out: Option<(u64, usize)>)
    ensures
        match out {
            Some((value, used)) => value <= max && 1 <= used <= bytes@.len() && varint_parse(
                bytes@,
            ) == Some((value as nat, used as nat)),
            None => varint_parse_bounded(bytes@, max as nat) is None,
        },
{
    proof {
        lemma_parse_bounds(bytes@);
        assert(bytes@.skip(0) =~= bytes@);
        lemma_pow128_10();
        match varint_parse(bytes@) {
            Some((value, used)) => {
                if used > 10 {
                    lemma_pow128_monotonic(10, (used - 1) as nat);
                }
            },
            None => {},
        }
    }
    match read_varint_within(bytes, 0, 10) {
        Some((value, used)) => if value <= max {
            Some((value, used))
        } else {
            None
        },
        None => None,
    }
}

/// 128 to the power 10 exceeds every 64-bit value.
proof fn lemma_pow128_10()
    ensures
        pow128(10) > u64::MAX,
{
    reveal_with_fuel(pow128, 11);
    assert(pow128(10) == 1180591620717411303424);
}

/// The powers of 128 grow with the exponent.
proof fn lemma_pow128_monotonic(a: nat, b: nat)
    requires
        a <= b,
    ensures
        pow128(a) <= pow128(b),
    decreases b,
{
    if a < b {
        lemma_pow128_monotonic(a, (b - 1) as nat);
    }
}

} // verus!
