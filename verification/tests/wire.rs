use consensus_core::block::{compute_operations_root, Block, BlockHeader, BlockId, Operation, OperationKind};
use consensus_core::endorsement::Endorsement;
use consensus_core::error::DeserializeError;
use consensus_core::signature::{PrivateKey, SignatureEngine};
use consensus_core::slot::Slot;
use consensus_core::wire::{read_endorsements, read_ids, read_operations};

fn sample_ops() -> Vec<Operation> {
    let sender = SignatureEngine::new().derive_public_key(&PrivateKey([3; 32]));
    vec![
        Operation { sender, kind: OperationKind::Transaction, amount: 0 },
        Operation { sender, kind: OperationKind::RollBuy, amount: 1 },
        Operation { sender, kind: OperationKind::RollSell, amount: 300 },
    ]
}

fn id(n: u8) -> BlockId {
    BlockId(consensus_core::hash::Hash::from_bytes(&[n; 32]))
}

fn sample_block() -> (BlockId, Block) {
    let operations = sample_ops();
    let endorsements = vec![
        Endorsement { slot: Slot::new(6, 1), index: 2, endorsed_block: id(8) },
        Endorsement { slot: Slot::new(6, 1), index: 0, endorsed_block: id(8) },
    ];
    let (hash, header) = BlockHeader::new_signed(
        &PrivateKey([5; 32]),
        Slot::new(7, 1),
        vec![id(7), id(8), id(9)],
        compute_operations_root(&operations),
        endorsements,
    );
    (hash, Block { header, operations })
}

#[test]
fn operation_bytes_are_sender_kind_amount() {
    let ops = sample_ops();
    let mut buffer: Vec<u8> = Vec::new();
    ops[2].serialize(&mut buffer);
    let mut expected = ops[2].sender.0.to_vec();
    expected.extend_from_slice(&[2, 0xac, 0x02]);
    assert_eq!(buffer, expected);
    buffer.push(0x55);
    let (rest, back) = Operation::deserialize(&buffer).unwrap();
    assert_eq!(back, ops[2]);
    assert_eq!(rest, &[0x55u8][..]);
    assert_eq!(Operation::deserialize(&buffer[..31]), Err(DeserializeError::Key));
    assert_eq!(Operation::deserialize(&buffer[..32]), Err(DeserializeError::Operation));
    assert_eq!(Operation::deserialize(&buffer[..33]), Err(DeserializeError::Operation));
    assert_eq!(Operation::deserialize(&buffer[..34]), Err(DeserializeError::Operation));
    let mut unknown = buffer.clone();
    unknown[32] = 3;
    assert_eq!(Operation::deserialize(&unknown), Err(DeserializeError::Operation));
}

#[test]
fn lists_are_read_one_after_the_other() {
    let ops = sample_ops();
    let mut buffer: Vec<u8> = Vec::new();
    for op in &ops {
        op.serialize(&mut buffer);
    }
    let (rest, back) = read_operations(&buffer, 3).unwrap();
    assert!(rest.is_empty());
    assert_eq!(back, ops);
    let (rest, back) = read_operations(&buffer, 2).unwrap();
    assert_eq!(rest.len(), 35);
    assert_eq!(back, ops[..2].to_vec());
    assert_eq!(read_operations(&buffer, 4), Err(DeserializeError::Key));
    assert_eq!(read_operations(&buffer, 0).map(|p| p.1.len()), Ok(0));
    let ids = [7u8; 64];
    let (rest, two) = read_ids(&ids, 2).unwrap();
    assert!(rest.is_empty());
    assert_eq!(two, vec![id(7), id(7)]);
    assert!(read_ids(&ids, 3).is_none());
    assert!(read_endorsements(&[], 1, 2, 2).is_err());
    assert_eq!(read_endorsements(&[1, 2, 3], 0, 2, 2).map(|p| p.0.len()), Ok(3));
}

#[test]
fn header_bytes_round_trip() {
    let (hash, block) = sample_block();
    let mut buffer: Vec<u8> = vec![0xee];
    block.header.serialize(&mut buffer);
    // the bytes that the hash covers, then the signature
    let content = block.header.content_bytes();
    assert_eq!(buffer[1..1 + content.len()], content[..]);
    assert_eq!(buffer[1 + content.len()..], block.header.signature.0[..]);
    assert_eq!(consensus_core::hash::Hash::compute_from(&content), hash.0);
    // creator, slot (7, 1), three parents, root, two endorsements
    assert_eq!(content[..32], block.header.creator.0[..]);
    assert_eq!(content[32..35], [7, 1, 3]);
    assert_eq!(content[35..67], [7u8; 32]);
    assert_eq!(content[131..163], block.header.operations_root.to_bytes()[..]);
    assert_eq!(content[163..167], [2, 6, 1, 2]);
    assert_eq!(content.len(), 164 + 2 * 35);
    buffer.extend_from_slice(&[1, 2, 3]);
    let (rest, back) = BlockHeader::deserialize(&buffer[1..], 3, 4).unwrap();
    assert_eq!(back, block.header);
    assert_eq!(rest, &[1u8, 2, 3][..]);
    assert_eq!(back.compute_id(), hash);
    assert!(back.verify_signature());
    // writing what was read gives the bytes that were read
    let mut again: Vec<u8> = Vec::new();
    back.serialize(&mut again);
    assert_eq!(again[..], buffer[1..buffer.len() - 3]);
}

#[test]
fn header_reader_names_the_rejected_part() {
    let (_, block) = sample_block();
    let mut buffer: Vec<u8> = Vec::new();
    block.header.serialize(&mut buffer);
    let read = |bytes: &[u8], threads: u8, endorsements: u32| {
        BlockHeader::deserialize(bytes, threads, endorsements).map(|p| p.1)
    };
    assert_eq!(read(&buffer, 3, 3), Ok(block.header.clone()));
    // thread 1 does not exist in one thread
    assert_eq!(read(&buffer, 1, 3), Err(DeserializeError::Slot));
    // three parents are too many for two threads
    assert_eq!(read(&buffer, 2, 3), Err(DeserializeError::Count));
    // two endorsements are too many where one is allowed
    assert_eq!(read(&buffer, 3, 1), Err(DeserializeError::Count));
    // index 2 is not below 2
    assert_eq!(read(&buffer, 3, 2), Err(DeserializeError::Index));
    assert_eq!(read(&buffer[..20], 3, 3), Err(DeserializeError::Key));
    assert_eq!(read(&buffer[..33], 3, 3), Err(DeserializeError::Slot));
    assert_eq!(read(&buffer[..34], 3, 3), Err(DeserializeError::Count));
    assert_eq!(read(&buffer[..100], 3, 3), Err(DeserializeError::Hash));
    assert_eq!(read(&buffer[..150], 3, 3), Err(DeserializeError::Hash));
    assert_eq!(read(&buffer[..163], 3, 3), Err(DeserializeError::Count));
    assert_eq!(read(&buffer[..165], 3, 3), Err(DeserializeError::Slot));
    assert_eq!(read(&buffer[..168], 3, 3), Err(DeserializeError::Hash));
    assert_eq!(read(&buffer[..buffer.len() - 1], 3, 3), Err(DeserializeError::Key));
}

#[test]
fn block_bytes_round_trip() {
    let (_, block) = sample_block();
    let mut buffer: Vec<u8> = Vec::new();
    block.serialize(&mut buffer);
    let mut header: Vec<u8> = Vec::new();
    block.header.serialize(&mut header);
    assert_eq!(buffer[..header.len()], header[..]);
    assert_eq!(buffer[header.len()], 3);
    buffer.push(9);
    let (rest, back) = Block::deserialize(&buffer, 3, 3, 3).unwrap();
    assert_eq!(back, block);
    assert_eq!(rest, &[9u8][..]);
    let mut again: Vec<u8> = Vec::new();
    back.serialize(&mut again);
    assert_eq!(again[..], buffer[..buffer.len() - 1]);
    assert_eq!(Block::deserialize(&buffer, 3, 3, 2).map(|p| p.1), Err(DeserializeError::Count));
    assert_eq!(
        Block::deserialize(&buffer[..buffer.len() - 2], 3, 3, 3).map(|p| p.1),
        Err(DeserializeError::Operation)
    );
    assert_eq!(Block::deserialize(&header, 3, 3, 3).map(|p| p.1), Err(DeserializeError::Count));
}
