use consensus_core::block::BlockId;
use consensus_core::endorsement::{
    Endorsement, EndorsementDeserializer, EndorsementId, EndorsementSerializer,
};
use consensus_core::error::{DeserializeError, ModelsError};
use consensus_core::slot::Slot;

#[test]
fn test_endorsement_serialization() {
    let content = Endorsement {
        slot: Slot::new(10, 1),
        index: 0,
        endorsed_block: BlockId(consensus_core::hash::Hash::compute_from("blk".as_bytes())),
    };
    let mut ser_endorsement: Vec<u8> = Vec::new();
    let serializer = EndorsementSerializer::new();
    serializer.serialize(&content, &mut ser_endorsement);
    let (_, res_endorsement) = EndorsementDeserializer::new(32, 1)
        .deserialize(&ser_endorsement)
        .unwrap();
    assert_eq!(format!("{:?}", res_endorsement), format!("{:?}", content));
}

#[test]
fn endorsement_bytes_are_slot_index_block() {
    let block = consensus_core::hash::Hash::compute_from("test".as_bytes());
    let e = Endorsement { slot: Slot::new(300, 2), index: 5, endorsed_block: BlockId(block) };
    let mut buffer: Vec<u8> = vec![0xff];
    EndorsementSerializer::new().serialize(&e, &mut buffer);
    let mut expected: Vec<u8> = vec![0xff, 0xac, 0x02, 2, 5];
    expected.extend_from_slice(block.to_bytes());
    assert_eq!(buffer, expected);
    let (rest, back) = EndorsementDeserializer::new(32, 10).deserialize(&buffer[1..]).unwrap();
    assert_eq!(rest.len(), 0);
    assert_eq!(back, e);
}

#[test]
fn endorsement_reader_leaves_the_rest() {
    let block = consensus_core::hash::Hash::compute_from(&[1, 2, 3]);
    let e = Endorsement { slot: Slot::new(1, 2), index: 0, endorsed_block: BlockId(block) };
    let mut buffer: Vec<u8> = Vec::new();
    EndorsementSerializer::default().serialize(&e, &mut buffer);
    buffer.extend_from_slice(&[9, 8, 7]);
    let (rest, back) = EndorsementDeserializer::new(3, 1).deserialize(&buffer).unwrap();
    assert_eq!(rest, &[9u8, 8, 7][..]);
    assert_eq!(back, e);
}

#[test]
fn endorsement_reader_names_the_rejected_part() {
    let block = consensus_core::hash::Hash::compute_from(&[1, 2, 3]);
    let e = Endorsement { slot: Slot::new(7, 4), index: 3, endorsed_block: BlockId(block) };
    let mut buffer: Vec<u8> = Vec::new();
    EndorsementSerializer::new().serialize(&e, &mut buffer);
    // thread 4 does not exist among 4 threads
    assert_eq!(
        EndorsementDeserializer::new(4, 10).deserialize(&buffer).unwrap_err(),
        DeserializeError::Slot
    );
    // index 3 is not below 3
    assert_eq!(
        EndorsementDeserializer::new(5, 3).deserialize(&buffer).unwrap_err(),
        DeserializeError::Index
    );
    // one byte of the block identifier is missing
    assert_eq!(
        EndorsementDeserializer::new(5, 4).deserialize(&buffer[..buffer.len() - 1]).unwrap_err(),
        DeserializeError::Hash
    );
    assert_eq!(
        EndorsementDeserializer::new(5, 4).deserialize(&[]).unwrap_err(),
        DeserializeError::Slot
    );
    // an index that does not fit 32 bits
    let wide: Vec<u8> = vec![7, 4, 0x80, 0x80, 0x80, 0x80, 0x10];
    assert_eq!(
        EndorsementDeserializer::new(5, u32::MAX).deserialize(&wide).unwrap_err(),
        DeserializeError::Index
    );
    // an index with a needless trailing zero group
    let padded: Vec<u8> = vec![7, 4, 0x81, 0x00];
    assert_eq!(
        EndorsementDeserializer::new(5, 4).deserialize(&padded).unwrap_err(),
        DeserializeError::Index
    );
}

#[test]
fn endorsement_id_bytes_round_trip() {
    let hash = consensus_core::hash::Hash::compute_from("blk".as_bytes());
    let id = EndorsementId::new(hash);
    assert_eq!(id.get_hash(), &hash);
    assert_eq!(id.to_bytes(), hash.to_bytes());
    assert_eq!(id.into_bytes(), hash.into_bytes());
    assert_eq!(EndorsementId::from_bytes(id.to_bytes()), id);
}

#[test]
fn endorsement_id_text_round_trip() {
    let id = EndorsementId::from_bytes(&[7u8; 32]);
    let text = id.to_bs58_check();
    assert_ne!(text.as_bytes(), &[7u8; 32][..]);
    assert_eq!(EndorsementId::from_bs58_check(&text), Ok(id));
    assert_eq!(EndorsementId::from_bs58_check("not base58 0OIl"), Err(ModelsError::HashError));
    // a well-formed text whose payload is not 32 bytes long
    assert_eq!(EndorsementId::from_bs58_check("3QJmnh"), Err(ModelsError::HashError));
}

#[test]
fn endorsement_text_names_block_slot_and_index() {
    let block = consensus_core::hash::Hash::from_bytes(&[0u8; 32]);
    let e = Endorsement { slot: Slot::new(1205, 31), index: 4_000_000_000, endorsed_block: BlockId(block) };
    assert_eq!(Slot::new(1205, 31).to_text(), "(period: 1205, thread: 31)");
    assert_eq!(Slot::new(0, 0).to_text(), "(period: 0, thread: 0)");
    assert_eq!(Slot::new(u64::MAX, 255).to_text(), "(period: 18446744073709551615, thread: 255)");
    assert_eq!(
        e.to_text(),
        format!(
            "Endorsed block: {} at slot (period: 1205, thread: 31)\nIndex: 4000000000\n",
            block.to_bs58_check()
        )
    );
}

#[test]
fn decimal_digits() {
    let text = |n: u64| {
        let mut s = String::from("n=");
        consensus_core::text::push_decimal(n, &mut s);
        s
    };
    assert_eq!(text(0), "n=0");
    assert_eq!(text(9), "n=9");
    assert_eq!(text(10), "n=10");
    assert_eq!(text(907), "n=907");
    assert_eq!(text(u64::MAX), "n=18446744073709551615");
}

#[test]
fn endorsement_text_is_built_around_the_text_of_the_block() {
    assert_eq!(
        consensus_core::text::endorsement_to_text("BLOCK", Slot::new(3, 1), 7),
        "Endorsed block: BLOCK at slot (period: 3, thread: 1)\nIndex: 7\n"
    );
}
