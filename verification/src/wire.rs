//! Readers for the bytes of operations, headers and blocks.
//!
//! A signed header is written as the bytes that its identifier covers,
//! followed by the 64 bytes of the signature; a block as its signed header,
//! the number of its operations and the operations.  Each reader accepts
//! exactly what the writer produces, so that reading and writing again
//! gives the bytes that were read.

use crate::block::{
    Block, BlockHeader, BlockId, BlockView, endorsements_encoding, header_encoding, HeaderView,
    ids_encoding, kind_byte, Operation, operation_encoding, OperationKind, operations_encoding,
};
use crate::endorsement::{
    Endorsement, endorsement_encoding, endorsement_in_range, endorsement_parse,
    EndorsementDeserializer, lemma_endorsement_encoding_of_parse,
    lemma_endorsement_parse_of_encoding, read_hash,
};
use crate::error::DeserializeError;
use crate::signature::{PublicKey, Signature};
use crate::slot::{
    lemma_slot_encoding_of_parse, lemma_slot_parse_of_encoding, Slot, slot_encoding, slot_parse,
};
use crate::varint::{
    lemma_encoding_of_parse, lemma_parse_of_encoding, read_varint, varint_encoding, varint_parse,
    varint_parse_bounded, write_varint,
};
use vstd::prelude::*;
use vstd::slice::slice_subrange;

verus! {

/// The number of bytes that an operation takes at the start of `bytes`, or
/// the reason why there is none.
pub open spec fn operation_scan(bytes: Seq<u8>) -> Result<nat, DeserializeError> {
    if bytes.len() < 32 {
        Err(DeserializeError::Key)
    } else if bytes.len() < 33 || bytes[32] > 2 {
        Err(DeserializeError::Operation)
    } else {
        match varint_parse(bytes.skip(33)) {
            Some((amount, used)) => if amount <= u64::MAX {
                Ok(33 + used)
            } else {
                Err(DeserializeError::Operation)
            },
            None => Err(DeserializeError::Operation),
        }
    }
}

/// The bytes of an operation are read as the operation, whatever follows
/// them.
pub proof fn lemma_operation_scan_of_encoding(op: Operation, rest: Seq<u8>)
    ensures
        operation_scan(operation_encoding(op) + rest) == Ok::<nat, DeserializeError>(
            operation_encoding(op).len(),
        ),
{
    let all = operation_encoding(op) + rest;
    let amount = varint_encoding(op.amount as nat);
    assert(op.sender@.len() == 32);
    assert(all[32] == kind_byte(op.kind));
    assert(all.skip(33) =~= amount + rest);
    lemma_parse_of_encoding(op.amount as nat, rest);
}

/// Two operations with the same bytes, whatever follows them, are the same
/// operation, and the same bytes follow them.
pub proof fn lemma_operation_unique(a: Operation, rest_a: Seq<u8>, b: Operation, rest_b: Seq<u8>)
    requires
        operation_encoding(a) + rest_a == operation_encoding(b) + rest_b,
    ensures
        a == b,
        rest_a == rest_b,
{
    let all = operation_encoding(a) + rest_a;
    assert(a.sender@.len() == 32 && b.sender@.len() == 32);
    assert(a.sender@ =~= all.subrange(0, 32));
    assert(b.sender@ =~= all.subrange(0, 32));
    assert(a.sender.0 =~= b.sender.0);
    assert(all[32] == kind_byte(a.kind));
    assert(all[32] == kind_byte(b.kind));
    assert(all.skip(33) =~= varint_encoding(a.amount as nat) + rest_a);
    assert(all.skip(33) =~= varint_encoding(b.amount as nat) + rest_b);
    lemma_parse_of_encoding(a.amount as nat, rest_a);
    lemma_parse_of_encoding(b.amount as nat, rest_b);
    assert(rest_a =~= all.skip(33).skip(varint_encoding(a.amount as nat).len() as int));
    assert(rest_b =~= all.skip(33).skip(varint_encoding(b.amount as nat).len() as int));
}

/// Copies the first 32 bytes of `buffer` into a key.
fn read_key(buffer: &[u8]) -> (out: Option<(&[u8], PublicKey)>)
    ensures
        match out {
            Some((rest, key)) => buffer@.len() >= 32 && key@ == buffer@.subrange(0, 32) && rest@
                == buffer@.skip(32),
            None => buffer@.len() < 32,
        },
{
    match read_hash(buffer) {
        Some((rest, hash)) => Some((rest, PublicKey(hash.into_bytes()))),
        None => None,
    }
}

impl Operation {
    /// Reads one operation from the start of `buffer` and returns it with
    /// the bytes that follow it.
    pub fn deserialize(buffer: &[u8]) -> (out: Result<(&[u8], Operation), DeserializeError>)
        ensures
            match out {
                Ok((rest, op)) => operation_scan(buffer@) matches Ok(used) && used <= buffer@.len()
                    && operation_encoding(op) == buffer@.subrange(0, used as int) && rest@
                    == buffer@.skip(used as int),
                Err(kind) => operation_scan(buffer@) == Err::<nat, DeserializeError>(kind),
            },
    {
        let (after_key, sender) = match read_key(buffer) {
            Some(pair) => pair,
            None => {
                return Err(DeserializeError::Key);
            },
        };
        if after_key.len() < 1 {
            return Err(DeserializeError::Operation);
        }
        let kind = match after_key[0] {
            0 => OperationKind::Transaction,
            1 => OperationKind::RollBuy,
            2 => OperationKind::RollSell,
            _ => {
                return Err(DeserializeError::Operation);
            },
        };
        let after_kind = slice_subrange(after_key, 1, after_key.len());
        assert(after_kind@ =~= buffer@.skip(33));
        proof {
            lemma_encoding_of_parse(buffer@.skip(33));
        }
        match read_varint(after_kind, u64::MAX) {
            None => Err(DeserializeError::Operation),
            Some((amount, used)) => {
                let rest = slice_subrange(after_kind, used, after_kind.len());
                let op = Operation { sender, kind, amount };
                proof {
                    assert(rest@ =~= buffer@.skip(33 + used));
                    assert(buffer@.skip(33).subrange(0, used as int) =~= buffer@.subrange(
                        33,
                        33 + used,
                    ));
                    assert(operation_encoding(op) =~= buffer@.subrange(0, 33 + used));
                }
                Ok((rest, op))
            },
        }
    }
}

/// The number of bytes that `count` operations take at the start of
/// `bytes`, or the reason why there are not that many.
pub open spec fn operations_scan(bytes: Seq<u8>, count: nat) -> Result<nat, DeserializeError>
    decreases count,
{
    if count == 0 {
        Ok(0)
    } else {
        match operations_scan(bytes, (count - 1) as nat) {
            Ok(used) => if used > bytes.len() {
                Err(DeserializeError::Operation)
            } else {
                match operation_scan(bytes.skip(used as int)) {
                    Ok(more) => Ok(used + more),
                    Err(kind) => Err(kind),
                }
            },
            Err(kind) => Err(kind),
        }
    }
}

/// The bytes of a list of operations are read as that many operations,
/// whatever follows them.
pub proof fn lemma_operations_scan_of_encoding(ops: Seq<Operation>, rest: Seq<u8>)
    ensures
        operations_scan(operations_encoding(ops) + rest, ops.len()) == Ok::<nat, DeserializeError>(
            operations_encoding(ops).len(),
        ),
    decreases ops.len(),
{
    if ops.len() > 0 {
        let head = operations_encoding(ops.drop_last());
        let last = operation_encoding(ops.last());
        let all = operations_encoding(ops) + rest;
        assert(all =~= head + (last + rest));
        lemma_operations_scan_of_encoding(ops.drop_last(), last + rest);
        assert(all.skip(head.len() as int) =~= last + rest);
        lemma_operation_scan_of_encoding(ops.last(), rest);
    }
}

/// Two lists of as many operations with the same bytes, whatever follows
/// them, are the same list, and the same bytes follow them.
pub proof fn lemma_operations_unique(
    a: Seq<Operation>,
    rest_a: Seq<u8>,
    b: Seq<Operation>,
    rest_b: Seq<u8>,
)
    requires
        a.len() == b.len(),
        operations_encoding(a) + rest_a == operations_encoding(b) + rest_b,
    ensures
        a == b,
        rest_a == rest_b,
    decreases a.len(),
{
    if a.len() > 0 {
        let last_a = operation_encoding(a.last());
        let last_b = operation_encoding(b.last());
        assert(operations_encoding(a) + rest_a =~= operations_encoding(a.drop_last()) + (last_a
            + rest_a));
        assert(operations_encoding(b) + rest_b =~= operations_encoding(b.drop_last()) + (last_b
            + rest_b));
        lemma_operations_unique(a.drop_last(), last_a + rest_a, b.drop_last(), last_b + rest_b);
        lemma_operation_unique(a.last(), rest_a, b.last(), rest_b);
        assert(a =~= a.drop_last().push(a.last()));
        assert(b =~= b.drop_last().push(b.last()));
    } else {
        assert(a =~= b);
        assert(rest_a =~= operations_encoding(a) + rest_a);
        assert(rest_b =~= operations_encoding(b) + rest_b);
    }
}

/// Reads `count` operations from the start of `buffer` and returns them
/// with the bytes that follow them.
pub fn read_operations(buffer: &[u8], count: usize) -> (out: Result<
    (&[u8], Vec<Operation>),
    DeserializeError,
>)
    ensures
        match out {
            Ok((rest, ops)) => ops@.len() == count && (operations_scan(
                buffer@,
                count as nat,
            ) matches Ok(used) && used <= buffer@.len() && operations_encoding(ops@)
                == buffer@.subrange(0, used as int) && rest@ == buffer@.skip(used as int)),
            Err(kind) => operations_scan(buffer@, count as nat) == Err::<nat, DeserializeError>(
                kind,
            ),
        },
{
    let mut ops: Vec<Operation> = Vec::new();
    let mut rest: &[u8] = buffer;
    let ghost mut used: nat = 0;
    proof {
        assert(buffer@.skip(0) =~= buffer@);
        assert(buffer@.subrange(0, 0) =~= Seq::<u8>::empty());
    }
    let mut i: usize = 0;
    while i < count
        invariant
            i <= count,
            ops@.len() == i,
            used <= buffer@.len(),
            operations_scan(buffer@, i as nat) == Ok::<nat, DeserializeError>(used),
            operations_encoding(ops@) == buffer@.subrange(0, used as int),
            rest@ == buffer@.skip(used as int),
        decreases count - i,
    {
        match Operation::deserialize(rest) {
            Err(kind) => {
                proof {
                    lemma_scan_fails_on(buffer@, (i + 1) as nat, count as nat);
                }
                return Err(kind);
            },
            Ok((after, op)) => {
                proof {
                    let more = operation_scan(rest@)->Ok_0;
                    assert(ops@.push(op).drop_last() =~= ops@);
                    assert(buffer@.subrange(0, (used + more) as int) =~= buffer@.subrange(
                        0,
                        used as int,
                    ) + rest@.subrange(0, more as int));
                    assert(after@ =~= buffer@.skip((used + more) as int));
                    used = used + more;
                }
                ops.push(op);
                rest = after;
            },
        }
        i += 1;
    }
    Ok((rest, ops))
}

/// Where fewer operations cannot be read, more cannot be read.
proof fn lemma_scan_fails_on(bytes: Seq<u8>, few: nat, many: nat)
    requires
        few <= many,
        operations_scan(bytes, few) is Err,
    ensures
        operations_scan(bytes, many) == operations_scan(bytes, few),
    decreases many,
{
    if few < many {
        lemma_scan_fails_on(bytes, few, (many - 1) as nat);
    }
}

/// The bytes of a list of identifiers are 32 for each.
pub proof fn lemma_ids_encoding_len(ids: Seq<BlockId>)
    ensures
        ids_encoding(ids).len() == 32 * ids.len(),
    decreases ids.len(),
{
    if ids.len() > 0 {
        lemma_ids_encoding_len(ids.drop_last());
        ids.last().lemma_view(ids.last());
    }
}

/// Two lists of as many identifiers with the same bytes are the same list.
pub proof fn lemma_ids_unique(a: Seq<BlockId>, b: Seq<BlockId>)
    requires
        a.len() == b.len(),
        ids_encoding(a) == ids_encoding(b),
    ensures
        a == b,
    decreases a.len(),
{
    if a.len() > 0 {
        lemma_ids_encoding_len(a.drop_last());
        lemma_ids_encoding_len(b.drop_last());
        a.last().lemma_view(b.last());
        b.last().lemma_view(a.last());
        let all = ids_encoding(a);
        let cut = 32 * (a.len() - 1);
        assert(ids_encoding(a.drop_last()) =~= all.subrange(0, cut));
        assert(ids_encoding(b.drop_last()) =~= all.subrange(0, cut));
        assert(a.last()@ =~= all.subrange(cut, cut + 32));
        assert(b.last()@ =~= all.subrange(cut, cut + 32));
        lemma_ids_unique(a.drop_last(), b.drop_last());
        assert(a =~= a.drop_last().push(a.last()));
        assert(b =~= b.drop_last().push(b.last()));
    } else {
        assert(a =~= b);
    }
}

/// Reads `count` identifiers from the start of `buffer` and returns them
/// with the bytes that follow them; `None` where fewer than 32 bytes for
/// each are left.
pub fn read_ids(buffer: &[u8], count: usize) -> (out: Option<(&[u8], Vec<BlockId>)>)
    ensures
        match out {
            Some((rest, ids)) => ids@.len() == count && 32 * count <= buffer@.len()
                && ids_encoding(ids@) == buffer@.subrange(0, 32 * count) && rest@ == buffer@.skip(
                32 * count,
            ),
            None => buffer@.len() < 32 * count,
        },
{
    let mut ids: Vec<BlockId> = Vec::new();
    let mut rest: &[u8] = buffer;
    proof {
        assert(buffer@.skip(0) =~= buffer@);
        assert(buffer@.subrange(0, 0) =~= Seq::<u8>::empty());
    }
    let mut i: usize = 0;
    while i < count
        invariant
            i <= count,
            ids@.len() == i,
            32 * i <= buffer@.len(),
            ids_encoding(ids@) == buffer@.subrange(0, 32 * i),
            rest@ == buffer@.skip(32 * i),
        decreases count - i,
    {
        match read_hash(rest) {
            None => {
                return None;
            },
            Some((after, hash)) => {
                proof {
                    assert(ids@.push(BlockId(hash)).drop_last() =~= ids@);
                    assert(buffer@.subrange(0, 32 * (i + 1)) =~= buffer@.subrange(0, 32 * i)
                        + rest@.subrange(0, 32));
                    assert(after@ =~= buffer@.skip(32 * (i + 1)));
                }
                ids.push(BlockId(hash));
                rest = after;
            },
        }
        i += 1;
    }
    Some((rest, ids))
}

/// The number of bytes that `count` endorsements take at the start of
/// `bytes`, or the reason why there are not that many.
pub open spec fn endorsements_scan(
    bytes: Seq<u8>,
    count: nat,
    thread_count: u8,
    endorsement_count: u32,
) -> Result<nat, DeserializeError>
    decreases count,
{
    if count == 0 {
        Ok(0)
    } else {
        match endorsements_scan(bytes, (count - 1) as nat, thread_count, endorsement_count) {
            Ok(used) => if used > bytes.len() {
                Err(DeserializeError::Slot)
            } else {
                match endorsement_parse(bytes.skip(used as int), thread_count, endorsement_count) {
                    Ok((_, more)) => Ok(used + more),
                    Err(kind) => Err(kind),
                }
            },
            Err(kind) => Err(kind),
        }
    }
}

/// Whether a reader for `thread_count` threads and `endorsement_count`
/// endorsements per block accepts each of `es`.
pub open spec fn endorsements_in_range(
    es: Seq<Endorsement>,
    thread_count: u8,
    endorsement_count: u32,
) -> bool {
    forall|i: int|
        0 <= i < es.len() ==> endorsement_in_range(
            (#[trigger] es[i])@,
            thread_count,
            endorsement_count,
        )
}

/// The bytes of a list of endorsements are read as that many endorsements,
/// whatever follows them.
pub proof fn lemma_endorsements_scan_of_encoding(
    es: Seq<Endorsement>,
    thread_count: u8,
    endorsement_count: u32,
    rest: Seq<u8>,
)
    requires
        endorsements_in_range(es, thread_count, endorsement_count),
    ensures
        endorsements_scan(
            endorsements_encoding(es) + rest,
            es.len(),
            thread_count,
            endorsement_count,
        ) == Ok::<nat, DeserializeError>(endorsements_encoding(es).len()),
    decreases es.len(),
{
    if es.len() > 0 {
        let head = endorsements_encoding(es.drop_last());
        let last = endorsement_encoding(es.last()@);
        let all = endorsements_encoding(es) + rest;
        assert(all =~= head + (last + rest));
        assert forall|i: int| 0 <= i < es.drop_last().len() implies endorsement_in_range(
            (#[trigger] es.drop_last()[i])@,
            thread_count,
            endorsement_count,
        ) by {
            assert(es.drop_last()[i] == es[i]);
        }
        lemma_endorsements_scan_of_encoding(
            es.drop_last(),
            thread_count,
            endorsement_count,
            last + rest,
        );
        assert(all.skip(head.len() as int) =~= last + rest);
        assert(endorsement_in_range(es[es.len() - 1]@, thread_count, endorsement_count));
        lemma_endorsement_parse_of_encoding(es.last()@, thread_count, endorsement_count, rest);
    }
}

/// Two lists of as many endorsements with the same bytes, whatever follows
/// them, are the same list, and the same bytes follow them.
pub proof fn lemma_endorsements_unique(
    a: Seq<Endorsement>,
    rest_a: Seq<u8>,
    b: Seq<Endorsement>,
    rest_b: Seq<u8>,
    thread_count: u8,
    endorsement_count: u32,
)
    requires
        a.len() == b.len(),
        endorsements_in_range(a, thread_count, endorsement_count),
        endorsements_in_range(b, thread_count, endorsement_count),
        endorsements_encoding(a) + rest_a == endorsements_encoding(b) + rest_b,
    ensures
        a == b,
        rest_a == rest_b,
    decreases a.len(),
{
    if a.len() > 0 {
        let last_a = endorsement_encoding(a.last()@);
        let last_b = endorsement_encoding(b.last()@);
        assert(endorsements_encoding(a) + rest_a =~= endorsements_encoding(a.drop_last()) + (
        last_a + rest_a));
        assert(endorsements_encoding(b) + rest_b =~= endorsements_encoding(b.drop_last()) + (
        last_b + rest_b));
        assert forall|i: int| 0 <= i < a.drop_last().len() implies endorsement_in_range(
            (#[trigger] a.drop_last()[i])@,
            thread_count,
            endorsement_count,
        ) by {
            assert(a.drop_last()[i] == a[i]);
        }
        assert forall|i: int| 0 <= i < b.drop_last().len() implies endorsement_in_range(
            (#[trigger] b.drop_last()[i])@,
            thread_count,
            endorsement_count,
        ) by {
            assert(b.drop_last()[i] == b[i]);
        }
        lemma_endorsements_unique(
            a.drop_last(),
            last_a + rest_a,
            b.drop_last(),
            last_b + rest_b,
            thread_count,
            endorsement_count,
        );
        assert(endorsement_in_range(a[a.len() - 1]@, thread_count, endorsement_count));
        assert(endorsement_in_range(b[b.len() - 1]@, thread_count, endorsement_count));
        lemma_endorsement_parse_of_encoding(a.last()@, thread_count, endorsement_count, rest_a);
        lemma_endorsement_parse_of_encoding(b.last()@, thread_count, endorsement_count, rest_b);
        assert(rest_a =~= (last_a + rest_a).skip(last_a.len() as int));
        assert(rest_b =~= (last_b + rest_b).skip(last_b.len() as int));
        a.last().endorsed_block.lemma_view(b.last().endorsed_block);
        assert(a.last() == b.last());
        assert(a =~= a.drop_last().push(a.last()));
        assert(b =~= b.drop_last().push(b.last()));
    } else {
        assert(a =~= b);
        assert(rest_a =~= endorsements_encoding(a) + rest_a);
        assert(rest_b =~= endorsements_encoding(b) + rest_b);
    }
}

/// Where fewer endorsements cannot be read, more cannot be read.
proof fn lemma_endorsements_fail_on(
    bytes: Seq<u8>,
    few: nat,
    many: nat,
    thread_count: u8,
    endorsement_count: u32,
)
    requires
        few <= many,
        endorsements_scan(bytes, few, thread_count, endorsement_count) is Err,
    ensures
        endorsements_scan(bytes, many, thread_count, endorsement_count) == endorsements_scan(
            bytes,
            few,
            thread_count,
            endorsement_count,
        ),
    decreases many,
{
    if few < many {
        lemma_endorsements_fail_on(bytes, few, (many - 1) as nat, thread_count, endorsement_count);
    }
}

/// Reads `count` endorsements from the start of `buffer` and returns them
/// with the bytes that follow them.
pub fn read_endorsements(
    buffer: &[u8],
    count: usize,
    thread_count: u8,
    endorsement_count: u32,
) -> (out: Result<(&[u8], Vec<Endorsement>), DeserializeError>)
    ensures
        match out {
            Ok((rest, es)) => es@.len() == count && endorsements_in_range(
                es@,
                thread_count,
                endorsement_count,
            ) && (endorsements_scan(
                buffer@,
                count as nat,
                thread_count,
                endorsement_count,
            ) matches Ok(used) && used <= buffer@.len() && endorsements_encoding(es@)
                == buffer@.subrange(0, used as int) && rest@ == buffer@.skip(used as int)),
            Err(kind) => endorsements_scan(
                buffer@,
                count as nat,
                thread_count,
                endorsement_count,
            ) == Err::<nat, DeserializeError>(kind),
        },
{
    let reader = EndorsementDeserializer::new(thread_count, endorsement_count);
    let mut es: Vec<Endorsement> = Vec::new();
    let mut rest: &[u8] = buffer;
    let ghost mut used: nat = 0;
    proof {
        assert(buffer@.skip(0) =~= buffer@);
        assert(buffer@.subrange(0, 0) =~= Seq::<u8>::empty());
    }
    let mut i: usize = 0;
    while i < count
        invariant
            i <= count,
            es@.len() == i,
            reader.thread_count() == thread_count,
            reader.endorsement_count() == endorsement_count,
            used <= buffer@.len(),
            endorsements_in_range(es@, thread_count, endorsement_count),
            endorsements_scan(buffer@, i as nat, thread_count, endorsement_count) == Ok::<
                nat,
                DeserializeError,
            >(used),
            endorsements_encoding(es@) == buffer@.subrange(0, used as int),
            rest@ == buffer@.skip(used as int),
        decreases count - i,
    {
        match reader.deserialize(rest) {
            Err(kind) => {
                proof {
                    lemma_endorsements_fail_on(
                        buffer@,
                        (i + 1) as nat,
                        count as nat,
                        thread_count,
                        endorsement_count,
                    );
                }
                return Err(kind);
            },
            Ok((after, e)) => {
                proof {
                    lemma_endorsement_encoding_of_parse(rest@, thread_count, endorsement_count);
                    let more = endorsement_parse(rest@, thread_count, endorsement_count)->Ok_0.1;
                    assert(es@.push(e).drop_last() =~= es@);
                    assert(buffer@.subrange(0, (used + more) as int) =~= buffer@.subrange(
                        0,
                        used as int,
                    ) + rest@.subrange(0, more as int));
                    assert(after@ =~= buffer@.skip((used + more) as int));
                    let before = es@;
                    assert forall|k: int| 0 <= k < before.push(e).len() implies endorsement_in_range(
                        (#[trigger] before.push(e)[k])@,
                        thread_count,
                        endorsement_count,
                    ) by {
                        if k < before.len() {
                            assert(before.push(e)[k] == before[k]);
                        }
                    }
                    used = used + more;
                }
                es.push(e);
                rest = after;
            },
        }
        i += 1;
    }
    Ok((rest, es))
}

/// The bytes of a signed header: the bytes that the identifier covers, then
/// the signature.
pub open spec fn signed_header_encoding(h: HeaderView) -> Seq<u8> {
    header_encoding(h) + h.signature@
}

/// Whether a reader for `thread_count` threads and `endorsement_count`
/// endorsements per block accepts the header `h`.
pub open spec fn header_in_range(h: HeaderView, thread_count: u8, endorsement_count: u32) -> bool {
    &&& h.slot.thread < thread_count
    &&& h.parents.len() <= thread_count
    &&& h.endorsements.len() <= endorsement_count
    &&& endorsements_in_range(h.endorsements, thread_count, endorsement_count)
}

/// The bytes of the front of a header: the creator, the slot, the number of
/// parents, the parents and the operations root.
pub open spec fn front_encoding(h: HeaderView) -> Seq<u8> {
    h.creator@ + slot_encoding(h.slot) + varint_encoding(h.parents.len()) + ids_encoding(h.parents)
        + h.operations_root@
}

/// The bytes of the back of a signed header: the number of endorsements, the
/// endorsements and the signature.
pub open spec fn back_encoding(h: HeaderView) -> Seq<u8> {
    varint_encoding(h.endorsements.len()) + endorsements_encoding(h.endorsements) + h.signature@
}

/// A signed header is its front followed by its back.
pub proof fn lemma_front_and_back(h: HeaderView)
    ensures
        signed_header_encoding(h) == front_encoding(h) + back_encoding(h),
{
    assert(signed_header_encoding(h) =~= front_encoding(h) + back_encoding(h));
}

/// The number of bytes that the front of a header takes at the start of
/// `bytes`, or the reason why there is none.
pub open spec fn front_scan(bytes: Seq<u8>, thread_count: u8) -> Result<nat, DeserializeError> {
    if bytes.len() < 32 {
        Err(DeserializeError::Key)
    } else {
        match slot_parse(bytes.skip(32), thread_count) {
            None => Err(DeserializeError::Slot),
            Some((_, slot_len)) => match varint_parse_bounded(
                bytes.skip(32 + slot_len as int),
                thread_count as nat,
            ) {
                None => Err(DeserializeError::Count),
                Some((parents, count_len)) => if bytes.len() < 32 + slot_len + count_len + 32
                    * parents + 32 {
                    Err(DeserializeError::Hash)
                } else {
                    Ok(32 + slot_len + count_len + 32 * parents + 32)
                },
            },
        }
    }
}

/// The number of bytes that the back of a signed header takes at the start
/// of `bytes`, or the reason why there is none.
pub open spec fn back_scan(bytes: Seq<u8>, thread_count: u8, endorsement_count: u32) -> Result<
    nat,
    DeserializeError,
> {
    match varint_parse_bounded(bytes, endorsement_count as nat) {
        None => Err(DeserializeError::Count),
        Some((endorsements, count_len)) => match endorsements_scan(
            bytes.skip(count_len as int),
            endorsements,
            thread_count,
            endorsement_count,
        ) {
            Err(kind) => Err(kind),
            Ok(used) => if bytes.len() < count_len + used + 64 {
                Err(DeserializeError::Key)
            } else {
                Ok(count_len + used + 64)
            },
        },
    }
}

/// The number of bytes that a signed header takes at the start of `bytes`,
/// or the reason why there is none.
pub open spec fn header_scan(bytes: Seq<u8>, thread_count: u8, endorsement_count: u32) -> Result<
    nat,
    DeserializeError,
> {
    match front_scan(bytes, thread_count) {
        Err(kind) => Err(kind),
        Ok(front) => match back_scan(bytes.skip(front as int), thread_count, endorsement_count) {
            Err(kind) => Err(kind),
            Ok(back) => Ok(front + back),
        },
    }
}

/// The bytes of the front of a header are read as a front, whatever follows
/// them.
pub proof fn lemma_front_scan_of_encoding(h: HeaderView, thread_count: u8, rest: Seq<u8>)
    requires
        h.slot.thread < thread_count,
        h.parents.len() <= thread_count,
    ensures
        front_scan(front_encoding(h) + rest, thread_count) == Ok::<nat, DeserializeError>(
            front_encoding(h).len(),
        ),
{
    let all = front_encoding(h) + rest;
    let slot = slot_encoding(h.slot);
    let count = varint_encoding(h.parents.len());
    let ids = ids_encoding(h.parents);
    let root = h.operations_root@;
    h.operations_root.lemma_len();
    lemma_ids_encoding_len(h.parents);
    assert(h.creator@.len() == 32);
    assert(all.skip(32) =~= slot + (count + ids + root + rest));
    lemma_slot_parse_of_encoding(h.slot, thread_count, count + ids + root + rest);
    assert(all.skip(32 + slot.len() as int) =~= count + (ids + root + rest));
    lemma_parse_of_encoding(h.parents.len(), ids + root + rest);
}

/// The bytes of the back of a signed header are read as a back, whatever
/// follows them.
pub proof fn lemma_back_scan_of_encoding(
    h: HeaderView,
    thread_count: u8,
    endorsement_count: u32,
    rest: Seq<u8>,
)
    requires
        h.endorsements.len() <= endorsement_count,
        endorsements_in_range(h.endorsements, thread_count, endorsement_count),
    ensures
        back_scan(back_encoding(h) + rest, thread_count, endorsement_count) == Ok::<
            nat,
            DeserializeError,
        >(back_encoding(h).len()),
{
    let all = back_encoding(h) + rest;
    let count = varint_encoding(h.endorsements.len());
    let list = endorsements_encoding(h.endorsements);
    assert(h.signature@.len() == 64);
    assert(all =~= count + (list + h.signature@ + rest));
    lemma_parse_of_encoding(h.endorsements.len(), list + h.signature@ + rest);
    assert(all.skip(count.len() as int) =~= list + (h.signature@ + rest));
    lemma_endorsements_scan_of_encoding(
        h.endorsements,
        thread_count,
        endorsement_count,
        h.signature@ + rest,
    );
}

/// The bytes of a signed header in range are read as a signed header,
/// whatever follows them.
pub proof fn lemma_header_scan_of_encoding(
    h: HeaderView,
    thread_count: u8,
    endorsement_count: u32,
    rest: Seq<u8>,
)
    requires
        header_in_range(h, thread_count, endorsement_count),
    ensures
        header_scan(signed_header_encoding(h) + rest, thread_count, endorsement_count) == Ok::<
            nat,
            DeserializeError,
        >(signed_header_encoding(h).len()),
{
    lemma_front_and_back(h);
    let all = signed_header_encoding(h) + rest;
    assert(all =~= front_encoding(h) + (back_encoding(h) + rest));
    lemma_front_scan_of_encoding(h, thread_count, back_encoding(h) + rest);
    assert(all.skip(front_encoding(h).len() as int) =~= back_encoding(h) + rest);
    lemma_back_scan_of_encoding(h, thread_count, endorsement_count, rest);
}

/// Two headers in range whose fronts have the same bytes, whatever follows
/// them, have the same creator, slot, parents and operations root, and the
/// same bytes follow them.
#[verifier::rlimit(30)]
pub proof fn lemma_front_unique(
    a: HeaderView,
    rest_a: Seq<u8>,
    b: HeaderView,
    rest_b: Seq<u8>,
    thread_count: u8,
)
    requires
        a.slot.thread < thread_count,
        a.parents.len() <= thread_count,
        b.slot.thread < thread_count,
        b.parents.len() <= thread_count,
        front_encoding(a) + rest_a == front_encoding(b) + rest_b,
    ensures
        a.creator == b.creator,
        a.slot == b.slot,
        a.parents == b.parents,
        a.operations_root == b.operations_root,
        rest_a == rest_b,
{
    let all = front_encoding(a) + rest_a;
    a.operations_root.lemma_len();
    b.operations_root.lemma_len();
    lemma_ids_encoding_len(a.parents);
    lemma_ids_encoding_len(b.parents);
    assert(a.creator@.len() == 32 && b.creator@.len() == 32);
    assert(a.creator@ =~= all.subrange(0, 32));
    assert(b.creator@ =~= all.subrange(0, 32));
    assert(a.creator.0 =~= b.creator.0);
    let tail_a = varint_encoding(a.parents.len()) + ids_encoding(a.parents) + a.operations_root@
        + rest_a;
    let tail_b = varint_encoding(b.parents.len()) + ids_encoding(b.parents) + b.operations_root@
        + rest_b;
    assert(all.skip(32) =~= slot_encoding(a.slot) + tail_a);
    assert(all.skip(32) =~= slot_encoding(b.slot) + tail_b);
    lemma_slot_parse_of_encoding(a.slot, thread_count, tail_a);
    lemma_slot_parse_of_encoding(b.slot, thread_count, tail_b);
    let slot_len = slot_encoding(a.slot).len() as int;
    assert(tail_a =~= all.skip(32).skip(slot_len));
    assert(tail_b =~= all.skip(32).skip(slot_len));
    let more_a = ids_encoding(a.parents) + a.operations_root@ + rest_a;
    let more_b = ids_encoding(b.parents) + b.operations_root@ + rest_b;
    assert(tail_a =~= varint_encoding(a.parents.len()) + more_a);
    assert(tail_b =~= varint_encoding(b.parents.len()) + more_b);
    lemma_parse_of_encoding(a.parents.len(), more_a);
    lemma_parse_of_encoding(b.parents.len(), more_b);
    let count_len = varint_encoding(a.parents.len()).len() as int;
    assert(more_a =~= tail_a.skip(count_len));
    assert(more_b =~= tail_b.skip(count_len));
    let ids_len: int = 32 * (a.parents.len() as int);
    assert(ids_encoding(a.parents) =~= more_a.subrange(0, ids_len));
    assert(ids_encoding(b.parents) =~= more_b.subrange(0, ids_len));
    lemma_ids_unique(a.parents, b.parents);
    assert(a.operations_root@ =~= more_a.subrange(ids_len, ids_len + 32));
    assert(b.operations_root@ =~= more_b.subrange(ids_len, ids_len + 32));
    a.operations_root.lemma_view_injective(b.operations_root);
    assert(rest_a =~= more_a.skip(ids_len + 32));
    assert(rest_b =~= more_b.skip(ids_len + 32));
}

/// Two headers in range whose backs have the same bytes, whatever follows
/// them, have the same endorsements and the same signature, and the same
/// bytes follow them.
pub proof fn lemma_back_unique(
    a: HeaderView,
    rest_a: Seq<u8>,
    b: HeaderView,
    rest_b: Seq<u8>,
    thread_count: u8,
    endorsement_count: u32,
)
    requires
        endorsements_in_range(a.endorsements, thread_count, endorsement_count),
        endorsements_in_range(b.endorsements, thread_count, endorsement_count),
        back_encoding(a) + rest_a == back_encoding(b) + rest_b,
    ensures
        a.endorsements == b.endorsements,
        a.signature == b.signature,
        rest_a == rest_b,
{
    let all = back_encoding(a) + rest_a;
    assert(a.signature@.len() == 64 && b.signature@.len() == 64);
    let more_a = endorsements_encoding(a.endorsements) + (a.signature@ + rest_a);
    let more_b = endorsements_encoding(b.endorsements) + (b.signature@ + rest_b);
    assert(all =~= varint_encoding(a.endorsements.len()) + more_a);
    assert(all =~= varint_encoding(b.endorsements.len()) + more_b);
    lemma_parse_of_encoding(a.endorsements.len(), more_a);
    lemma_parse_of_encoding(b.endorsements.len(), more_b);
    let count_len = varint_encoding(a.endorsements.len()).len() as int;
    assert(more_a =~= all.skip(count_len));
    assert(more_b =~= all.skip(count_len));
    lemma_endorsements_unique(
        a.endorsements,
        a.signature@ + rest_a,
        b.endorsements,
        b.signature@ + rest_b,
        thread_count,
        endorsement_count,
    );
    let end = a.signature@ + rest_a;
    assert(a.signature@ =~= end.subrange(0, 64));
    assert(b.signature@ =~= end.subrange(0, 64));
    assert(a.signature.0 =~= b.signature.0);
    assert(rest_a =~= end.skip(64));
    assert(rest_b =~= end.skip(64));
}

/// Two signed headers in range with the same bytes, whatever follows them,
/// are the same header, and the same bytes follow them.
pub proof fn lemma_header_unique(
    a: HeaderView,
    rest_a: Seq<u8>,
    b: HeaderView,
    rest_b: Seq<u8>,
    thread_count: u8,
    endorsement_count: u32,
)
    requires
        header_in_range(a, thread_count, endorsement_count),
        header_in_range(b, thread_count, endorsement_count),
        signed_header_encoding(a) + rest_a == signed_header_encoding(b) + rest_b,
    ensures
        a == b,
        rest_a == rest_b,
{
    lemma_front_and_back(a);
    lemma_front_and_back(b);
    assert(signed_header_encoding(a) + rest_a =~= front_encoding(a) + (back_encoding(a)
        + rest_a));
    assert(signed_header_encoding(b) + rest_b =~= front_encoding(b) + (back_encoding(b)
        + rest_b));
    lemma_front_unique(
        a,
        back_encoding(a) + rest_a,
        b,
        back_encoding(b) + rest_b,
        thread_count,
    );
    lemma_back_unique(a, rest_a, b, rest_b, thread_count, endorsement_count);
}

/// Copies the first 64 bytes of `buffer` into a signature.
fn read_signature(buffer: &[u8]) -> (out: Option<(&[u8], Signature)>)
    ensures
        match out {
            Some((rest, signature)) => buffer@.len() >= 64 && signature@ == buffer@.subrange(0, 64)
                && rest@ == buffer@.skip(64),
            None => buffer@.len() < 64,
        },
{
    if buffer.len() < 64 {
        return None;
    }
    let mut bytes: [u8; 64] = [0u8; 64];
    let mut i: usize = 0;
    while i < 64
        invariant
            i <= 64,
            buffer@.len() >= 64,
            forall|j: int| 0 <= j < i ==> bytes@[j] == buffer@[j],
        decreases 64 - i,
    {
        bytes[i] = buffer[i];
        i += 1;
    }
    let signature = Signature(bytes);
    assert(signature@ =~= buffer@.subrange(0, 64));
    let rest = slice_subrange(buffer, 64, buffer.len());
    assert(rest@ =~= buffer@.skip(64));
    Some((rest, signature))
}

/// Appends the 64 bytes of `signature` to `buffer`.
fn write_signature(signature: &Signature, buffer: &mut Vec<u8>)
    ensures
        final(buffer)@ == old(buffer)@ + signature@,
{
    let mut i: usize = 0;
    while i < 64
        invariant
            i <= 64,
            buffer@ == old(buffer)@ + signature@.subrange(0, i as int),
        decreases 64 - i,
    {
        buffer.push(signature.0[i]);
        assert(signature@.subrange(0, i + 1) =~= signature@.subrange(0, i as int).push(
            signature@[i as int],
        ));
        i += 1;
    }
    assert(signature@.subrange(0, 64) =~= signature@);
}

/// Appends `bytes` to `buffer`.
fn write_all(bytes: &Vec<u8>, buffer: &mut Vec<u8>)
    ensures
        final(buffer)@ == old(buffer)@ + bytes@,
{
    let mut i: usize = 0;
    while i < bytes.len()
        invariant
            i <= bytes@.len(),
            buffer@ == old(buffer)@ + bytes@.subrange(0, i as int),
        decreases bytes@.len() - i,
    {
        buffer.push(bytes[i]);
        assert(bytes@.subrange(0, i + 1) =~= bytes@.subrange(0, i as int).push(bytes@[i as int]));
        i += 1;
    }
    assert(bytes@.subrange(0, bytes@.len() as int) =~= bytes@);
}

impl BlockHeader {
    /// Appends the bytes of the signed header to `buffer`.
    pub fn serialize(&self, buffer: &mut Vec<u8>)
        ensures
            final(buffer)@ == old(buffer)@ + signed_header_encoding(self@),
    {
        let content = self.content_bytes();
        write_all(&content, buffer);
        write_signature(&self.signature, buffer);
        assert(buffer@ =~= old(buffer)@ + signed_header_encoding(self@));
    }

    /// Reads one signed header from the start of `buffer` and returns it
    /// with the bytes that follow it.  The header has a thread below
    /// `thread_count`, at most `thread_count` parents and at most
    /// `endorsement_count` endorsements, each in range.
    pub fn deserialize(buffer: &[u8], thread_count: u8, endorsement_count: u32) -> (out: Result<
        (&[u8], BlockHeader),
        DeserializeError,
    >)
        ensures
            match out {
                Ok((rest, header)) => header_in_range(header@, thread_count, endorsement_count)
                    && (header_scan(buffer@, thread_count, endorsement_count) matches Ok(used)
                    && used <= buffer@.len() && signed_header_encoding(header@)
                    == buffer@.subrange(0, used as int) && rest@ == buffer@.skip(used as int)),
                Err(kind) => header_scan(buffer@, thread_count, endorsement_count) == Err::<
                    nat,
                    DeserializeError,
                >(kind),
            },
    {
        let (after_front, mut header) = match read_front(buffer, thread_count) {
            Ok(pair) => pair,
            Err(kind) => {
                return Err(kind);
            },
        };
        let ghost front = front_scan(buffer@, thread_count)->Ok_0;
        let ghost partial = header@;
        let (rest, endorsements, signature) = match read_back(
            after_front,
            thread_count,
            endorsement_count,
        ) {
            Ok(triple) => triple,
            Err(kind) => {
                return Err(kind);
            },
        };
        header.endorsements = endorsements;
        header.signature = signature;
        proof {
            let back = back_scan(after_front@, thread_count, endorsement_count)->Ok_0;
            lemma_front_and_back(header@);
            assert(front_encoding(header@) == front_encoding(partial));
            assert(rest@ =~= buffer@.skip((front + back) as int));
            assert(buffer@.subrange(0, (front + back) as int) =~= buffer@.subrange(0, front as int)
                + after_front@.subrange(0, back as int));
        }
        Ok((rest, header))
    }
}

/// Reads the front of a header: the creator, the slot, the parents and the
/// operations root.  The header that is returned has no endorsement yet, and
/// a signature of zeros.
fn read_front(buffer: &[u8], thread_count: u8) -> (out: Result<
    (&[u8], BlockHeader),
    DeserializeError,
>)
    ensures
        match out {
            Ok((rest, header)) => header@.slot.thread < thread_count && header@.parents.len()
                <= thread_count && (front_scan(buffer@, thread_count) matches Ok(used) && used
                <= buffer@.len() && front_encoding(header@) == buffer@.subrange(0, used as int)
                && rest@ == buffer@.skip(used as int)),
            Err(kind) => front_scan(buffer@, thread_count) == Err::<nat, DeserializeError>(kind),
        },
{
    let (after_key, creator) = match read_key(buffer) {
        Some(pair) => pair,
        None => {
            return Err(DeserializeError::Key);
        },
    };
    proof {
        lemma_slot_encoding_of_parse(after_key@, thread_count);
    }
    let (after_slot, slot) = match Slot::deserialize(after_key, thread_count) {
        Ok(pair) => pair,
        Err(_) => {
            return Err(DeserializeError::Slot);
        },
    };
    let ghost found = slot_parse(after_key@, thread_count)->0;
    let ghost slot_len = found.1;
    proof {
        assert(after_slot@ =~= buffer@.skip(32 + slot_len as int));
        lemma_encoding_of_parse(after_slot@);
    }
    let (parents_count, count_len) = match read_varint(after_slot, thread_count as u64) {
        Some(pair) => pair,
        None => {
            return Err(DeserializeError::Count);
        },
    };
    let after_count = slice_subrange(after_slot, count_len, after_slot.len());
    let ghost parents_at = (32 + slot_len + count_len) as nat;
    proof {
        assert(after_count@ =~= buffer@.skip(parents_at as int));
    }
    let (after_parents, parents) = match read_ids(after_count, parents_count as usize) {
        Some(pair) => pair,
        None => {
            return Err(DeserializeError::Hash);
        },
    };
    let (rest, operations_root) = match read_hash(after_parents) {
        Some(pair) => pair,
        None => {
            return Err(DeserializeError::Hash);
        },
    };
    let header = BlockHeader {
        creator,
        slot,
        parents,
        operations_root,
        endorsements: Vec::new(),
        signature: Signature([0u8; 64]),
    };
    proof {
        let used = parents_at + 32 * parents_count + 32;
        let all = buffer@;
        assert(rest@ =~= all.skip(used as int));
        assert(creator@ =~= all.subrange(0, 32));
        assert(slot_encoding(slot) =~= all.subrange(32, 32 + slot_len as int));
        assert(varint_encoding(parents_count as nat) =~= all.subrange(
            32 + slot_len as int,
            parents_at as int,
        ));
        assert(ids_encoding(header@.parents) =~= all.subrange(
            parents_at as int,
            parents_at + 32 * parents_count,
        ));
        assert(operations_root@ =~= all.subrange(parents_at + 32 * parents_count, used as int));
        assert(front_encoding(header@) =~= all.subrange(0, used as int));
    }
    Ok((rest, header))
}

/// Reads the back of a signed header: the endorsements and the signature.
fn read_back(buffer: &[u8], thread_count: u8, endorsement_count: u32) -> (out: Result<
    (&[u8], Vec<Endorsement>, Signature),
    DeserializeError,
>)
    ensures
        match out {
            Ok((rest, endorsements, signature)) => endorsements@.len() <= endorsement_count
                && endorsements_in_range(endorsements@, thread_count, endorsement_count) && (
            back_scan(buffer@, thread_count, endorsement_count) matches Ok(used) && used
                <= buffer@.len() && varint_encoding(endorsements@.len()) + endorsements_encoding(
                endorsements@,
            ) + signature@ == buffer@.subrange(0, used as int) && rest@ == buffer@.skip(
                used as int,
            )),
            Err(kind) => back_scan(buffer@, thread_count, endorsement_count) == Err::<
                nat,
                DeserializeError,
            >(kind),
        },
{
    proof {
        lemma_encoding_of_parse(buffer@);
    }
    let (count, count_len) = match read_varint(buffer, endorsement_count as u64) {
        Some(pair) => pair,
        None => {
            return Err(DeserializeError::Count);
        },
    };
    let after_count = slice_subrange(buffer, count_len, buffer.len());
    assert(after_count@ =~= buffer@.skip(count_len as int));
    let (after_list, endorsements) = match read_endorsements(
        after_count,
        count as usize,
        thread_count,
        endorsement_count,
    ) {
        Ok(pair) => pair,
        Err(kind) => {
            return Err(kind);
        },
    };
    let ghost listed = endorsements_scan(
        after_count@,
        count as nat,
        thread_count,
        endorsement_count,
    )->Ok_0;
    let (rest, signature) = match read_signature(after_list) {
        Some(pair) => pair,
        None => {
            return Err(DeserializeError::Key);
        },
    };
    proof {
        let used = count_len + listed + 64;
        let all = buffer@;
        assert(rest@ =~= all.skip(used as int));
        assert(varint_encoding(count as nat) =~= all.subrange(0, count_len as int));
        assert(endorsements_encoding(endorsements@) =~= all.subrange(
            count_len as int,
            (count_len + listed) as int,
        ));
        assert(signature@ =~= all.subrange((count_len + listed) as int, used as int));
        assert(varint_encoding(endorsements@.len()) + endorsements_encoding(endorsements@)
            + signature@ =~= all.subrange(0, used as int));
    }
    Ok((rest, endorsements, signature))
}

/// The bytes of a block: its signed header, the number of its operations,
/// and the operations.
pub open spec fn block_encoding(b: BlockView) -> Seq<u8> {
    signed_header_encoding(b.header) + varint_encoding(b.operations.len()) + operations_encoding(
        b.operations,
    )
}

/// Whether a reader for `thread_count` threads, `endorsement_count`
/// endorsements and `operation_count` operations per block accepts `b`.
pub open spec fn block_in_range(
    b: BlockView,
    thread_count: u8,
    endorsement_count: u32,
    operation_count: u32,
) -> bool {
    header_in_range(b.header, thread_count, endorsement_count) && b.operations.len()
        <= operation_count
}

/// The number of bytes that a block takes at the start of `bytes`, or the
/// reason why there is none.
pub open spec fn block_scan(
    bytes: Seq<u8>,
    thread_count: u8,
    endorsement_count: u32,
    operation_count: u32,
) -> Result<nat, DeserializeError> {
    match header_scan(bytes, thread_count, endorsement_count) {
        Err(kind) => Err(kind),
        Ok(head) => match varint_parse_bounded(bytes.skip(head as int), operation_count as nat) {
            None => Err(DeserializeError::Count),
            Some((count, count_len)) => match operations_scan(
                bytes.skip((head + count_len) as int),
                count,
            ) {
                Err(kind) => Err(kind),
                Ok(used) => Ok(head + count_len + used),
            },
        },
    }
}

/// The bytes of a block in range are read as a block, whatever follows
/// them.
pub proof fn lemma_block_scan_of_encoding(
    b: BlockView,
    thread_count: u8,
    endorsement_count: u32,
    operation_count: u32,
    rest: Seq<u8>,
)
    requires
        block_in_range(b, thread_count, endorsement_count, operation_count),
    ensures
        block_scan(block_encoding(b) + rest, thread_count, endorsement_count, operation_count)
            == Ok::<nat, DeserializeError>(block_encoding(b).len()),
{
    let all = block_encoding(b) + rest;
    let head = signed_header_encoding(b.header);
    let count = varint_encoding(b.operations.len());
    let ops = operations_encoding(b.operations);
    assert(all =~= head + (count + ops + rest));
    lemma_header_scan_of_encoding(b.header, thread_count, endorsement_count, count + ops + rest);
    assert(all.skip(head.len() as int) =~= count + (ops + rest));
    lemma_parse_of_encoding(b.operations.len(), ops + rest);
    assert(all.skip((head.len() + count.len()) as int) =~= ops + rest);
    lemma_operations_scan_of_encoding(b.operations, rest);
}

/// Two blocks in range with the same bytes, whatever follows them, are the
/// same block, and the same bytes follow them.
pub proof fn lemma_block_unique(
    a: BlockView,
    rest_a: Seq<u8>,
    b: BlockView,
    rest_b: Seq<u8>,
    thread_count: u8,
    endorsement_count: u32,
)
    requires
        header_in_range(a.header, thread_count, endorsement_count),
        header_in_range(b.header, thread_count, endorsement_count),
        block_encoding(a) + rest_a == block_encoding(b) + rest_b,
    ensures
        a == b,
        rest_a == rest_b,
{
    let tail_a = varint_encoding(a.operations.len()) + operations_encoding(a.operations) + rest_a;
    let tail_b = varint_encoding(b.operations.len()) + operations_encoding(b.operations) + rest_b;
    assert(block_encoding(a) + rest_a =~= signed_header_encoding(a.header) + tail_a);
    assert(block_encoding(b) + rest_b =~= signed_header_encoding(b.header) + tail_b);
    lemma_header_unique(a.header, tail_a, b.header, tail_b, thread_count, endorsement_count);
    let more_a = operations_encoding(a.operations) + rest_a;
    let more_b = operations_encoding(b.operations) + rest_b;
    assert(tail_a =~= varint_encoding(a.operations.len()) + more_a);
    assert(tail_b =~= varint_encoding(b.operations.len()) + more_b);
    lemma_parse_of_encoding(a.operations.len(), more_a);
    lemma_parse_of_encoding(b.operations.len(), more_b);
    let count_len = varint_encoding(a.operations.len()).len() as int;
    assert(more_a =~= tail_a.skip(count_len));
    assert(more_b =~= tail_b.skip(count_len));
    lemma_operations_unique(a.operations, rest_a, b.operations, rest_b);
}

impl Block {
    /// Appends the bytes of the block to `buffer`.
    pub fn serialize(&self, buffer: &mut Vec<u8>)
        ensures
            final(buffer)@ == old(buffer)@ + block_encoding(self@),
    {
        self.header.serialize(buffer);
        write_varint(self.operations.len() as u64, buffer);
        let ghost head = buffer@;
        let mut i: usize = 0;
        while i < self.operations.len()
            invariant
                i <= self.operations@.len(),
                buffer@ == head + operations_encoding(self.operations@.take(i as int)),
            decreases self.operations@.len() - i,
        {
            assert(self.operations@.take(i + 1).drop_last() =~= self.operations@.take(i as int));
            self.operations[i].serialize(buffer);
            assert(buffer@ =~= head + operations_encoding(self.operations@.take(i + 1)));
            i += 1;
        }
        assert(self.operations@.take(self.operations@.len() as int) =~= self.operations@);
        assert(buffer@ =~= old(buffer)@ + block_encoding(self@));
    }

    /// Reads one block from the start of `buffer` and returns it with the
    /// bytes that follow it.  The block has a header in range and at most
    /// `operation_count` operations.
    #[verifier::rlimit(30)]
    pub fn deserialize(
        buffer: &[u8],
        thread_count: u8,
        endorsement_count: u32,
        operation_count: u32,
    ) -> (out: Result<(&[u8], Block), DeserializeError>)
        ensures
            match out {
                Ok((rest, block)) => block_in_range(
                    block@,
                    thread_count,
                    endorsement_count,
                    operation_count,
                ) && (block_scan(
                    buffer@,
                    thread_count,
                    endorsement_count,
                    operation_count,
                ) matches Ok(used) && used <= buffer@.len() && block_encoding(block@)
                    == buffer@.subrange(0, used as int) && rest@ == buffer@.skip(used as int)),
                Err(kind) => block_scan(
                    buffer@,
                    thread_count,
                    endorsement_count,
                    operation_count,
                ) == Err::<nat, DeserializeError>(kind),
            },
    {
        let (after_header, header) = match BlockHeader::deserialize(
            buffer,
            thread_count,
            endorsement_count,
        ) {
            Ok(pair) => pair,
            Err(kind) => {
                return Err(kind);
            },
        };
        let ghost head = header_scan(buffer@, thread_count, endorsement_count)->Ok_0;
        proof {
            lemma_encoding_of_parse(after_header@);
        }
        let (count, count_len) = match read_varint(after_header, operation_count as u64) {
            Some(pair) => pair,
            None => {
                return Err(DeserializeError::Count);
            },
        };
        let after_count = slice_subrange(after_header, count_len, after_header.len());
        assert(after_count@ =~= buffer@.skip((head + count_len) as int));
        let (rest, operations) = match read_operations(after_count, count as usize) {
            Ok(pair) => pair,
            Err(kind) => {
                return Err(kind);
            },
        };
        let block = Block { header, operations };
        proof {
            let listed = operations_scan(after_count@, count as nat)->Ok_0;
            let used = head + count_len + listed;
            let all = buffer@;
            assert(rest@ =~= all.skip(used as int));
            assert(varint_encoding(count as nat) =~= all.subrange(
                head as int,
                (head + count_len) as int,
            ));
            assert(operations_encoding(block@.operations) =~= all.subrange(
                (head + count_len) as int,
                used as int,
            ));
            assert(block_encoding(block@) =~= all.subrange(0, used as int));
        }
        Ok((rest, block))
    }
}

} // verus!
