//! Blocks, block headers and their canonical bytes.
//!
//! The bytes of a header are the creator's key, the slot, the number of
//! parents and the parents, the operations root, the number of
//! endorsements and the endorsements.  The identifier of a block is the
//! digest of these bytes, and the signature of a header covers them.

use crate::endorsement::{Endorsement, endorsement_encoding, EndorsementSerializer, write_hash};
use crate::hash::blake3_digest;
use crate::signature::{
    ed25519_public_key, ed25519_signature, ed25519_verifies, PrivateKey, PublicKey, Signature,
    SignatureEngine,
};
use crate::slot::{Slot, slot_encoding};
use crate::varint::{varint_encoding, write_varint};
use vstd::prelude::*;

verus! {

/// The identifier of a block: the hash of its header.
#[derive(Clone, Copy, Debug, PartialEq, Eq, PartialOrd, Ord, Hash)]
pub struct BlockId(pub crate::hash::Hash);

impl View for BlockId {
    type V = Seq<u8>;

    open spec fn view(&self) -> Seq<u8> {
        self.0@
    }
}

impl BlockId {
    /// The identifier made of `hash`.
    pub fn new(hash: crate::hash::Hash) -> (id: BlockId)
        ensures
            id == BlockId(hash),
    {
        BlockId(hash)
    }

    /// Whether two identifiers are the same.
    pub fn same(&self, other: &BlockId) -> (same: bool)
        ensures
            same == (*self == *other),
            same == (self@ == other@),
    {
        self.0.same(&other.0)
    }

    /// Identifiers with equal bytes are equal, and each has 32 bytes.
    pub proof fn lemma_view(self, other: BlockId)
        ensures
            self@.len() == 32,
            self@ == other@ <==> self == other,
    {
        self.0.lemma_len();
        if self@ == other@ {
            self.0.lemma_view_injective(other.0);
        }
    }
}

/// What an operation does.
#[derive(Clone, Copy, Debug, PartialEq, Eq, Structural)]
pub enum OperationKind {
    /// Moves coins.
    Transaction,
    /// Buys rolls.
    RollBuy,
    /// Sells rolls.
    RollSell,
}

/// An operation carried by a block.  The library carries operations and
/// measures them; it does not execute them.
#[derive(Clone, Copy, Debug, PartialEq, Eq)]
pub struct Operation {
    /// Who issued the operation.
    pub sender: PublicKey,
    /// What it does.
    pub kind: OperationKind,
    /// How many coins or rolls it is about.
    pub amount: u64,
}

/// The byte that stands for an operation kind.
pub open spec fn kind_byte(kind: OperationKind) -> u8 {
    match kind {
        OperationKind::Transaction => 0,
        OperationKind::RollBuy => 1,
        OperationKind::RollSell => 2,
    }
}

/// The bytes of an operation: the sender, the kind, the amount.
pub open spec fn operation_encoding(op: Operation) -> Seq<u8> {
    op.sender@ + seq![kind_byte(op.kind)] + varint_encoding(op.amount as nat)
}

/// The bytes of a list of operations, one after the other.
pub open spec fn operations_encoding(ops: Seq<Operation>) -> Seq<u8>
    decreases ops.len(),
{
    if ops.len() == 0 {
        Seq::empty()
    } else {
        operations_encoding(ops.drop_last()) + operation_encoding(ops.last())
    }
}

/// The root of a list of operations: the digest of their bytes.
pub open spec fn operations_root(ops: Seq<Operation>) -> Seq<u8> {
    blake3_digest(operations_encoding(ops))
}

/// The bytes of a list of block identifiers, one after the other.
pub open spec fn ids_encoding(ids: Seq<BlockId>) -> Seq<u8>
    decreases ids.len(),
{
    if ids.len() == 0 {
        Seq::empty()
    } else {
        ids_encoding(ids.drop_last()) + ids.last()@
    }
}

/// The bytes of a list of endorsements, one after the other.
pub open spec fn endorsements_encoding(es: Seq<Endorsement>) -> Seq<u8>
    decreases es.len(),
{
    if es.len() == 0 {
        Seq::empty()
    } else {
        endorsements_encoding(es.drop_last()) + endorsement_encoding(es.last()@)
    }
}

/// A signed block header.
#[derive(Clone, Debug, PartialEq, Eq)]
pub struct BlockHeader {
    /// Who created the block.
    pub creator: PublicKey,
    /// The slot of the block.
    pub slot: Slot,
    /// One parent per thread; the entry of the block's own thread is its
    /// predecessor in that thread.
    pub parents: Vec<BlockId>,
    /// The root of the block's operations.
    pub operations_root: crate::hash::Hash,
    /// The endorsements the block carries.
    pub endorsements: Vec<Endorsement>,
    /// The creator's signature over the bytes of the fields above.
    pub signature: Signature,
}

/// What a header says.
pub struct HeaderView {
    pub creator: PublicKey,
    pub slot: Slot,
    pub parents: Seq<BlockId>,
    pub operations_root: crate::hash::Hash,
    pub endorsements: Seq<Endorsement>,
    pub signature: Signature,
}

impl View for BlockHeader {
    type V = HeaderView;

    open spec fn view(&self) -> HeaderView {
        HeaderView {
            creator: self.creator,
            slot: self.slot,
            parents: self.parents@,
            operations_root: self.operations_root,
            endorsements: self.endorsements@,
            signature: self.signature,
        }
    }
}

/// The bytes of a header that its identifier and its signature cover.
pub open spec fn header_encoding(h: HeaderView) -> Seq<u8> {
    h.creator@ + slot_encoding(h.slot) + varint_encoding(h.parents.len()) + ids_encoding(h.parents)
        + h.operations_root@ + varint_encoding(h.endorsements.len()) + endorsements_encoding(
        h.endorsements,
    )
}

/// The identifier of the block with header `h`.
pub open spec fn header_id(h: HeaderView) -> Seq<u8> {
    blake3_digest(header_encoding(h))
}

/// Whether the signature of `h` is accepted under the creator's key.
pub open spec fn header_signed(h: HeaderView) -> bool {
    ed25519_verifies(h.creator@, header_encoding(h), h.signature@)
}

/// A block: a header and the operations it commits to.
#[derive(Clone, Debug, PartialEq, Eq)]
pub struct Block {
    /// The header.
    pub header: BlockHeader,
    /// The operations.
    pub operations: Vec<Operation>,
}

/// What a block says.
pub struct BlockView {
    pub header: HeaderView,
    pub operations: Seq<Operation>,
}

impl View for Block {
    type V = BlockView;

    open spec fn view(&self) -> BlockView {
        BlockView { header: self.header@, operations: self.operations@ }
    }
}

/// A copy of `v`.
pub fn copy_vec<T: Copy>(v: &Vec<T>) -> (copy: Vec<T>)
    ensures
        copy@ == v@,
{
    let mut copy: Vec<T> = Vec::new();
    let mut i: usize = 0;
    while i < v.len()
        invariant
            i <= v@.len(),
            copy@ == v@.take(i as int),
        decreases v@.len() - i,
    {
        copy.push(v[i]);
        assert(v@.take(i + 1) =~= v@.take(i as int).push(v@[i as int]));
        i += 1;
    }
    assert(v@.take(v@.len() as int) =~= v@);
    copy
}

/// Appends the 32 bytes of `key` to `buffer`.
fn write_bytes32(bytes: &[u8; 32], buffer: &mut Vec<u8>)
    ensures
        final(buffer)@ == old(buffer)@ + bytes@,
{
    let mut i: usize = 0;
    while i < 32
        invariant
            i <= 32,
            buffer@ == old(buffer)@ + bytes@.subrange(0, i as int),
        decreases 32 - i,
    {
        buffer.push(bytes[i]);
        assert(bytes@.subrange(0, i + 1) =~= bytes@.subrange(0, i as int).push(bytes@[i as int]));
        i += 1;
    }
    assert(bytes@.subrange(0, 32) =~= bytes@);
}

impl Operation {
    /// Appends the bytes of the operation to `buffer`.
    pub fn serialize(&self, buffer: &mut Vec<u8>)
        ensures
            final(buffer)@ == old(buffer)@ + operation_encoding(*self),
    {
        write_bytes32(&self.sender.0, buffer);
        let kind: u8 = match self.kind {
            OperationKind::Transaction => 0,
            OperationKind::RollBuy => 1,
            OperationKind::RollSell => 2,
        };
        buffer.push(kind);
        write_varint(self.amount, buffer);
        assert(buffer@ =~= old(buffer)@ + operation_encoding(*self));
    }
}

/// The bytes of `ops`, one operation after the other.
pub fn serialize_operations(ops: &Vec<Operation>) -> (bytes: Vec<u8>)
    ensures
        bytes@ == operations_encoding(ops@),
{
    let mut bytes: Vec<u8> = Vec::new();
    let mut i: usize = 0;
    while i < ops.len()
        invariant
            i <= ops@.len(),
            bytes@ == operations_encoding(ops@.take(i as int)),
        decreases ops@.len() - i,
    {
        assert(ops@.take(i + 1).drop_last() =~= ops@.take(i as int));
        ops[i].serialize(&mut bytes);
        i += 1;
    }
    assert(ops@.take(ops@.len() as int) =~= ops@);
    bytes
}

/// The root of `ops`.
pub fn compute_operations_root(ops: &Vec<Operation>) -> (root: crate::hash::Hash)
    ensures
        root@ == operations_root(ops@),
{
    let bytes = serialize_operations(ops);
    crate::hash::Hash::compute_from(bytes.as_slice())
}

impl BlockHeader {
    /// The bytes that the identifier and the signature cover.
    pub fn content_bytes(&self) -> (bytes: Vec<u8>)
        ensures
            bytes@ == header_encoding(self@),
    {
        let mut bytes: Vec<u8> = Vec::new();
        write_bytes32(&self.creator.0, &mut bytes);
        self.slot.serialize(&mut bytes);
        write_varint(self.parents.len() as u64, &mut bytes);
        let ghost head = bytes@;
        let mut i: usize = 0;
        while i < self.parents.len()
            invariant
                i <= self.parents@.len(),
                bytes@ == head + ids_encoding(self.parents@.take(i as int)),
            decreases self.parents@.len() - i,
        {
            assert(self.parents@.take(i + 1).drop_last() =~= self.parents@.take(i as int));
            write_hash(&self.parents[i].0, &mut bytes);
            assert(bytes@ =~= head + ids_encoding(self.parents@.take(i + 1)));
            i += 1;
        }
        assert(self.parents@.take(self.parents@.len() as int) =~= self.parents@);
        write_hash(&self.operations_root, &mut bytes);
        write_varint(self.endorsements.len() as u64, &mut bytes);
        let ghost middle = bytes@;
        let serializer = EndorsementSerializer::new();
        let mut j: usize = 0;
        while j < self.endorsements.len()
            invariant
                j <= self.endorsements@.len(),
                bytes@ == middle + endorsements_encoding(self.endorsements@.take(j as int)),
            decreases self.endorsements@.len() - j,
        {
            assert(self.endorsements@.take(j + 1).drop_last() =~= self.endorsements@.take(
                j as int,
            ));
            serializer.serialize(&self.endorsements[j], &mut bytes);
            assert(bytes@ =~= middle + endorsements_encoding(self.endorsements@.take(j + 1)));
            j += 1;
        }
        assert(self.endorsements@.take(self.endorsements@.len() as int) =~= self.endorsements@);
        assert(bytes@ =~= header_encoding(self@));
        bytes
    }

    /// The identifier of the block with this header.
    pub fn compute_id(&self) -> (id: BlockId)
        ensures
            id@ == header_id(self@),
    {
        let bytes = self.content_bytes();
        BlockId(crate::hash::Hash::compute_from(bytes.as_slice()))
    }

    /// Whether the signature is accepted under the creator's key.
    pub fn verify_signature(&self) -> (accepted: bool)
        ensures
            accepted == header_signed(self@),
    {
        let bytes = self.content_bytes();
        SignatureEngine::new().verify(bytes.as_slice(), &self.signature, &self.creator)
    }

    /// The header with the given fields, created and signed by the owner of
    /// `private_key`, and its identifier.
    pub fn new_signed(
        private_key: &PrivateKey,
        slot: Slot,
        parents: Vec<BlockId>,
        operations_root: crate::hash::Hash,
        endorsements: Vec<Endorsement>,
    ) -> (out: (BlockId, BlockHeader))
        ensures
            out.0@ == header_id(out.1@),
            out.1@.creator@ == ed25519_public_key(private_key@),
            out.1@.slot == slot,
            out.1@.parents == parents@,
            out.1@.operations_root == operations_root,
            out.1@.endorsements == endorsements@,
            out.1@.signature@ == ed25519_signature(private_key@, header_encoding(out.1@)),
    {
        let engine = SignatureEngine::new();
        let creator = engine.derive_public_key(private_key);
        let mut header = BlockHeader {
            creator,
            slot,
            parents,
            operations_root,
            endorsements,
            signature: Signature([0u8; 64]),
        };
        let bytes = header.content_bytes();
        let ghost unsigned = header@;
        header.signature = engine.sign(bytes.as_slice(), private_key);
        assert(header_encoding(header@) == header_encoding(unsigned));
        let id = BlockId(crate::hash::Hash::compute_from(bytes.as_slice()));
        (id, header)
    }

    /// A copy of the header.
    pub fn duplicate(&self) -> (copy: BlockHeader)
        ensures
            copy@ == self@,
    {
        BlockHeader {
            creator: self.creator,
            slot: self.slot,
            parents: copy_vec(&self.parents),
            operations_root: self.operations_root,
            endorsements: copy_vec(&self.endorsements),
            signature: self.signature,
        }
    }
}

impl Block {
    /// A copy of the block.
    pub fn duplicate(&self) -> (copy: Block)
        ensures
            copy@ == self@,
    {
        Block { header: self.header.duplicate(), operations: copy_vec(&self.operations) }
    }
}

} // verus!
