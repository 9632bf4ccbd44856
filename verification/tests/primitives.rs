use consensus_core::error::{ConsensusError, DeserializeError, ModelsError};
use consensus_core::hash::HashError;
use consensus_core::selector::{read_le_u128, write_le_u64, RandomSelector};
use consensus_core::signature::{PrivateKey, PublicKey, Signature, SignatureEngine};
use consensus_core::slot::Slot;
use consensus_core::timeslots::{get_block_slot_timestamp, get_latest_block_slot_at_timestamp};
use consensus_core::varint::{read_varint, write_varint};

#[test]
fn varint_bytes_are_seven_bits_each_low_group_first() {
    let encode = |n: u64| {
        let mut buffer: Vec<u8> = Vec::new();
        write_varint(n, &mut buffer);
        buffer
    };
    assert_eq!(encode(0), vec![0]);
    assert_eq!(encode(1), vec![1]);
    assert_eq!(encode(127), vec![0x7f]);
    assert_eq!(encode(128), vec![0x80, 0x01]);
    assert_eq!(encode(300), vec![0xac, 0x02]);
    assert_eq!(encode(16384), vec![0x80, 0x80, 0x01]);
    assert_eq!(encode(u64::MAX), vec![0xff, 0xff, 0xff, 0xff, 0xff, 0xff, 0xff, 0xff, 0xff, 0x01]);
    let mut buffer: Vec<u8> = vec![9];
    write_varint(5, &mut buffer);
    assert_eq!(buffer, vec![9, 5]);
}

#[test]
fn varint_reader_accepts_the_shortest_form_only() {
    assert_eq!(read_varint(&[0], u64::MAX), Some((0, 1)));
    assert_eq!(read_varint(&[0xac, 0x02, 7], u64::MAX), Some((300, 2)));
    assert_eq!(read_varint(&[0xac, 0x02], 299), None);
    assert_eq!(read_varint(&[0xac, 0x02], 300), Some((300, 2)));
    assert_eq!(read_varint(&[], u64::MAX), None);
    assert_eq!(read_varint(&[0x80], u64::MAX), None);
    assert_eq!(read_varint(&[0x80, 0x00], u64::MAX), None);
    assert_eq!(read_varint(&[0x81, 0x80, 0x00], u64::MAX), None);
    let max = [0xff, 0xff, 0xff, 0xff, 0xff, 0xff, 0xff, 0xff, 0xff, 0x01];
    assert_eq!(read_varint(&max, u64::MAX), Some((u64::MAX, 10)));
    let too_large = [0xff, 0xff, 0xff, 0xff, 0xff, 0xff, 0xff, 0xff, 0xff, 0x02];
    assert_eq!(read_varint(&too_large, u64::MAX), None);
    let too_long = [0x80, 0x80, 0x80, 0x80, 0x80, 0x80, 0x80, 0x80, 0x80, 0x80, 0x01];
    assert_eq!(read_varint(&too_long, u64::MAX), None);
}

#[test]
fn slot_order_and_successor() {
    assert!(Slot::new(1, 3).is_before(&Slot::new(2, 0)));
    assert!(Slot::new(1, 0).is_before(&Slot::new(1, 1)));
    assert!(!Slot::new(1, 1).is_before(&Slot::new(1, 1)));
    assert!(!Slot::new(2, 0).is_before(&Slot::new(1, 3)));
    assert_eq!(Slot::new(5, 0).get_next_slot(2), Ok(Slot::new(5, 1)));
    assert_eq!(Slot::new(5, 1).get_next_slot(2), Ok(Slot::new(6, 0)));
    assert_eq!(Slot::new(5, 255).get_next_slot(255), Ok(Slot::new(6, 0)));
    assert_eq!(Slot::new(u64::MAX, 0).get_next_slot(2), Ok(Slot::new(u64::MAX, 1)));
    assert_eq!(Slot::new(u64::MAX, 1).get_next_slot(2), Err(ModelsError::PeriodOverflowError));
}

#[test]
fn slot_bytes_are_period_then_thread() {
    let mut buffer: Vec<u8> = Vec::new();
    Slot::new(300, 2).serialize(&mut buffer);
    assert_eq!(buffer, vec![0xac, 0x02, 2]);
    buffer.push(77);
    let (rest, slot) = Slot::deserialize(&buffer, 3).unwrap();
    assert_eq!(slot, Slot::new(300, 2));
    assert_eq!(rest, &[77u8][..]);
    assert_eq!(Slot::deserialize(&buffer, 2), Err(DeserializeError::Slot));
    assert_eq!(Slot::deserialize(&buffer[..2], 3), Err(DeserializeError::Slot));
    assert_eq!(Slot::deserialize(&[0x80, 0x00, 1], 3), Err(DeserializeError::Slot));
}

#[test]
fn slot_instants() {
    // two threads, periods of 1000 ms, genesis at 10000
    assert_eq!(get_block_slot_timestamp(2, 1000, 10_000, Slot::new(0, 0)), Ok(10_000));
    assert_eq!(get_block_slot_timestamp(2, 1000, 10_000, Slot::new(0, 1)), Ok(10_500));
    assert_eq!(get_block_slot_timestamp(2, 1000, 10_000, Slot::new(3, 1)), Ok(13_500));
    // three threads in 10 ms: the threads are 3 ms apart
    assert_eq!(get_block_slot_timestamp(3, 10, 0, Slot::new(2, 2)), Ok(26));
    assert_eq!(
        get_block_slot_timestamp(2, 1000, 10_000, Slot::new(u64::MAX, 0)),
        Err(ConsensusError::TimeOverflowError)
    );
    assert_eq!(
        get_block_slot_timestamp(0, 1000, 10_000, Slot::new(1, 0)),
        Err(ConsensusError::TimeOverflowError)
    );
    assert_eq!(
        get_block_slot_timestamp(4, 3, 10_000, Slot::new(1, 0)),
        Err(ConsensusError::TimeOverflowError)
    );
}

#[test]
fn latest_slot_at_an_instant() {
    assert_eq!(get_latest_block_slot_at_timestamp(2, 1000, 10_000, 9_999), Ok(None));
    assert_eq!(get_latest_block_slot_at_timestamp(2, 1000, 10_000, 10_000), Ok(Some(Slot::new(0, 0))));
    assert_eq!(get_latest_block_slot_at_timestamp(2, 1000, 10_000, 10_499), Ok(Some(Slot::new(0, 0))));
    assert_eq!(get_latest_block_slot_at_timestamp(2, 1000, 10_000, 10_500), Ok(Some(Slot::new(0, 1))));
    assert_eq!(get_latest_block_slot_at_timestamp(2, 1000, 10_000, 13_750), Ok(Some(Slot::new(3, 1))));
    // three threads in 10 ms: the last millisecond still belongs to the last thread
    assert_eq!(get_latest_block_slot_at_timestamp(3, 10, 0, 29), Ok(Some(Slot::new(2, 2))));
    assert_eq!(get_latest_block_slot_at_timestamp(3, 10, 0, 25), Ok(Some(Slot::new(2, 1))));
    assert_eq!(
        get_latest_block_slot_at_timestamp(0, 10, 0, 29),
        Err(ConsensusError::TimeOverflowError)
    );
    assert_eq!(
        get_latest_block_slot_at_timestamp(20, 10, 0, 29),
        Err(ConsensusError::TimeOverflowError)
    );
}

#[test]
fn selector_is_built_from_a_seed_of_32_bytes_and_weights_not_all_zero() {
    let seed = vec![0u8; 32];
    assert!(RandomSelector::new(&seed, 2, vec![1, 2, 3]).is_ok());
    assert!(RandomSelector::new(&seed, 0, vec![0, 1]).is_ok());
    assert_eq!(RandomSelector::new(&seed, 2, vec![]).err(), Some(ConsensusError::SelectionError));
    assert_eq!(RandomSelector::new(&seed, 2, vec![0, 0]).err(), Some(ConsensusError::SelectionError));
    assert_eq!(
        RandomSelector::new(&vec![0u8; 31], 2, vec![1]).err(),
        Some(ConsensusError::SelectionError)
    );
    assert_eq!(
        RandomSelector::new(&vec![0u8; 33], 2, vec![1]).err(),
        Some(ConsensusError::SelectionError)
    );
}

#[test]
fn draws_are_a_function_of_seed_weights_and_slot() {
    let seed: Vec<u8> = (0u8..32).collect();
    let a = RandomSelector::new(&seed, 2, vec![5, 1, 0, 10]).unwrap();
    let b = RandomSelector::new(&seed, 4, vec![5, 1, 0, 10]).unwrap();
    let mut seen = [0u32; 4];
    for period in 0..200u64 {
        for thread in 0..3u8 {
            let slot = Slot::new(period, thread);
            let index = a.draw(slot);
            assert_eq!(a.draw(slot), index);
            // the keys of threads that were not computed ahead are the same keys
            assert_eq!(b.draw(slot), index);
            seen[index as usize] += 1;
        }
    }
    // a participant of weight zero is never drawn, the others are
    assert_eq!(seen[2], 0);
    assert!(seen[0] > 0 && seen[1] > 0 && seen[3] > 0);
    assert!(seen[3] > seen[0] && seen[0] > seen[1]);
    // another seed gives other draws
    let other = RandomSelector::new(&vec![7u8; 32], 2, vec![5, 1, 0, 10]).unwrap();
    assert!((0..50u64).any(|p| other.draw(Slot::new(p, 0)) != a.draw(Slot::new(p, 0))));
    // the threads have streams of their own
    assert!((0..50u64).any(|p| a.draw(Slot::new(p, 0)) != a.draw(Slot::new(p, 1))));
}

#[test]
fn draw_is_the_sample_reduced_into_the_ranges_of_the_weights() {
    let seed = vec![0u8; 32];
    let weights = vec![3u64, 0, 4];
    let selector = RandomSelector::new(&seed, 1, weights.clone()).unwrap();
    for period in 0..20u64 {
        let slot = Slot::new(period, 0);
        let mut keyed = seed.clone();
        keyed.push(0);
        let key = consensus_core::hash::Hash::compute_from(&keyed);
        let mut message = key.to_bytes().to_vec();
        write_le_u64(period, &mut message);
        let digest = consensus_core::hash::Hash::compute_from(&message);
        let point = read_le_u128(digest.to_bytes()) % 7;
        let expected = if point < 3 { 0 } else { 2 };
        assert_eq!(selector.draw(slot), expected);
    }
}

#[test]
fn little_endian_helpers() {
    let mut buffer: Vec<u8> = vec![1];
    write_le_u64(0x0102030405060708, &mut buffer);
    assert_eq!(buffer, vec![1, 8, 7, 6, 5, 4, 3, 2, 1]);
    let mut digest = [0u8; 32];
    digest[0] = 2;
    digest[1] = 1;
    digest[15] = 0x80;
    digest[16] = 0xff;
    assert_eq!(read_le_u128(&digest), (0x80u128 << 120) + 258);
}

#[test]
fn digest_is_blake3() {
    // the digest of the empty input and of "abc", from the test vectors of BLAKE3
    let empty = consensus_core::hash::Hash::compute_from(&[]);
    assert_eq!(empty.to_bytes()[..4], [0xaf, 0x13, 0x49, 0xb9]);
    let abc = consensus_core::hash::Hash::compute_from(b"abc");
    assert_eq!(abc.to_bytes()[..4], [0x64, 0x37, 0xb3, 0xac]);
    assert_ne!(empty, abc);
    assert!(empty.same(&empty));
    assert!(!empty.same(&abc));
}

#[test]
fn hash_text_is_base58check() {
    let hash = consensus_core::hash::Hash::from_bytes(&[0u8; 32]);
    let text = hash.to_bs58_check();
    // 32 zero bytes give 32 leading ones in Base58
    assert!(text.starts_with("11111111111111111111111111111111"));
    assert!(text.len() > 32);
    assert_eq!(consensus_core::hash::Hash::from_bs58_check(&text), Ok(hash));
    // a changed character breaks the checksum
    let mut broken = text.clone().into_bytes();
    let last = broken.len() - 1;
    broken[last] = if broken[last] == b'2' { b'3' } else { b'2' };
    assert!(consensus_core::hash::Hash::from_bs58_check(std::str::from_utf8(&broken).unwrap()).is_err());
    assert!(consensus_core::hash::Hash::from_bs58_check("").is_err());
    assert!(consensus_core::hash::Hash::from_bs58_check("0").is_err());
}

#[test]
fn signatures_are_ed25519() {
    let engine = SignatureEngine::new();
    // the first test vector of RFC 8032
    let secret = PrivateKey([
        0x9d, 0x61, 0xb1, 0x9d, 0xef, 0xfd, 0x5a, 0x60, 0xba, 0x84, 0x4a, 0xf4, 0x92, 0xec, 0x2c,
        0xc4, 0x44, 0x49, 0xc5, 0x69, 0x7b, 0x32, 0x69, 0x19, 0x70, 0x3b, 0xac, 0x03, 0x1c, 0xae,
        0x7f, 0x60,
    ]);
    let public = engine.derive_public_key(&secret);
    assert_eq!(
        public,
        PublicKey([
            0xd7, 0x5a, 0x98, 0x01, 0x82, 0xb1, 0x0a, 0xb7, 0xd5, 0x4b, 0xfe, 0xd3, 0xc9, 0x64,
            0x07, 0x3a, 0x0e, 0xe1, 0x72, 0xf3, 0xda, 0xa6, 0x23, 0x25, 0xaf, 0x02, 0x1a, 0x68,
            0xf7, 0x07, 0x51, 0x1a,
        ])
    );
    let signature = engine.sign(&[], &secret);
    assert_eq!(signature.0[..4], [0xe5, 0x56, 0x43, 0x00]);
    assert!(engine.verify(&[], &signature, &public));
    assert!(!engine.verify(&[1], &signature, &public));
    let mut forged = signature;
    forged.0[63] ^= 1;
    assert!(!engine.verify(&[], &forged, &public));
    assert!(!engine.verify(&[], &Signature([0u8; 64]), &public));
    // signing draws no randomness
    assert_eq!(engine.sign(b"block", &secret), engine.sign(b"block", &secret));
    // a key that is no point of the curve accepts nothing
    let mut off_curve = [0xffu8; 32];
    off_curve[0] = 0xee;
    let _ = engine.verify(&[], &signature, &PublicKey(off_curve));
    assert!(public.same(&public));
    assert!(!public.same(&PublicKey([0u8; 32])));
}

#[test]
fn sample_falls_into_the_range_of_one_participant() {
    let selector = RandomSelector::new(&vec![0u8; 32], 1, vec![3, 0, 4, 1]).unwrap();
    let picked: Vec<u32> = (0u128..10).map(|sample| selector.index_of_sample(sample)).collect();
    assert_eq!(picked, vec![0, 0, 0, 2, 2, 2, 2, 3, 0, 0]);
    assert_eq!(selector.index_of_sample(u128::MAX), selector.index_of_sample(u128::MAX % 8));
    let single = RandomSelector::new(&vec![0u8; 32], 1, vec![0, u64::MAX]).unwrap();
    assert_eq!(single.index_of_sample(12345), 1);
}

#[test]
fn hash_from_payload_wants_32_bytes() {
    let nines = consensus_core::hash::Hash::from_bytes(&[9u8; 32]);
    assert_eq!(consensus_core::hash::Hash::from_payload(&[9u8; 32]), Ok(nines));
    assert_eq!(consensus_core::hash::Hash::from_payload(&[9u8; 31]), Err(HashError::InvalidText));
    assert_eq!(consensus_core::hash::Hash::from_payload(&[9u8; 33]), Err(HashError::InvalidText));
    assert_eq!(consensus_core::hash::Hash::from_payload(&[]), Err(HashError::InvalidText));
}
