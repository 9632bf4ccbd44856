//! The textual forms of numbers, slots and endorsements.

use crate::endorsement::Endorsement;
use crate::hash::bs58check_text;
use crate::slot::Slot;
use vstd::prelude::*;

verus! {

/// The character of a decimal digit.
pub open spec fn digit_char(digit: nat) -> char {
    if digit == 0 {
        '0'
    } else if digit == 1 {
        '1'
    } else if digit == 2 {
        '2'
    } else if digit == 3 {
        '3'
    } else if digit == 4 {
        '4'
    } else if digit == 5 {
        '5'
    } else if digit == 6 {
        '6'
    } else if digit == 7 {
        '7'
    } else if digit == 8 {
        '8'
    } else {
        '9'
    }
}

/// The decimal digits of `n`, the most significant first, without leading
/// zeros.
pub open spec fn decimal(n: nat) -> Seq<char>
    decreases n,
{
    if n < 10 {
        seq![digit_char(n)]
    } else {
        decimal(n / 10).push(digit_char(n % 10))
    }
}

/// The text of a slot.
pub open spec fn slot_text(slot: Slot) -> Seq<char> {
    "(period: "@ + decimal(slot.period as nat) + ", thread: "@ + decimal(slot.thread as nat)
        + ")"@
}

/// The text of an endorsement of the block whose text is `block`: the
/// block and the slot on one line, the index on the next.
pub open spec fn endorsement_text_of(block: Seq<char>, slot: Slot, index: u32) -> Seq<char> {
    "Endorsed block: "@ + block + " at slot "@ + slot_text(slot) + "\n"@ + "Index: "@ + decimal(
        index as nat,
    ) + "\n"@
}

/// The text of an endorsement: the endorsed block in Base58Check and the
/// slot on one line, the index on the next.
pub open spec fn endorsement_text(slot: Slot, index: u32, endorsed_block: Seq<u8>) -> Seq<char> {
    endorsement_text_of(bs58check_text(endorsed_block), slot, index)
}

/// The decimal digit `digit` as a text.
fn digit_text(digit: u8) -> (text: &'static str)
    requires
        digit < 10,
    ensures
        text@ == seq![digit_char(digit as nat)],
{
    proof {
        reveal_strlit("0");
        reveal_strlit("1");
        reveal_strlit("2");
        reveal_strlit("3");
        reveal_strlit("4");
        reveal_strlit("5");
        reveal_strlit("6");
        reveal_strlit("7");
        reveal_strlit("8");
        reveal_strlit("9");
    }
    let text = match digit {
        0 => "0",
        1 => "1",
        2 => "2",
        3 => "3",
        4 => "4",
        5 => "5",
        6 => "6",
        7 => "7",
        8 => "8",
        _ => "9",
    };
    assert(text@ =~= seq![digit_char(digit as nat)]);
    text
}

/// Appends the decimal digits of `n` to `text`.
pub fn push_decimal(n: u64, text: &mut String)
    ensures
        final(text)@ == old(text)@ + decimal(n as nat),
    decreases n,
{
    if n >= 10 {
        push_decimal(n / 10, text);
    }
    text.append(digit_text((n % 10) as u8));
    assert(text@ =~= old(text)@ + decimal(n as nat));
}

impl Slot {
    /// The text of the slot: `(period: P, thread: T)`.
    pub fn to_text(&self) -> (text: String)
        ensures
            text@ == slot_text(*self),
    {
        let mut text = String::new();
        text.append("(period: ");
        push_decimal(self.period, &mut text);
        text.append(", thread: ");
        push_decimal(self.thread as u64, &mut text);
        text.append(")");
        assert(text@ =~= slot_text(*self));
        text
    }
}

/// The text of an endorsement of the block whose text is `block`:
/// `Endorsed block: B at slot S`, a line feed, `Index: I`, a line feed.
pub fn endorsement_to_text(block: &str, slot: Slot, index: u32) -> (text: String)
    ensures
        text@ == endorsement_text_of(block@, slot, index),
{
    let mut text = String::new();
    text.append("Endorsed block: ");
    text.append(block);
    text.append(" at slot ");
    let slot_text = slot.to_text();
    text.append(slot_text.as_str());
    text.append("\n");
    text.append("Index: ");
    push_decimal(index as u64, &mut text);
    text.append("\n");
    assert(text@ =~= endorsement_text_of(block@, slot, index));
    text
}

impl Endorsement {
    /// The text of the endorsement: the endorsed block in Base58Check and
    /// the slot on one line, the index on the next.
    pub fn to_text(&self) -> (text: String)
        ensures
            text@ == endorsement_text(self.slot, self.index, self.endorsed_block@),
    {
        let block = self.endorsed_block.0.to_bs58_check();
        endorsement_to_text(block.as_str(), self.slot, self.index)
    }
}

} // verus!
