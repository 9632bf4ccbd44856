use consensus_core::block::{compute_operations_root, Block, BlockHeader, BlockId, Operation, OperationKind};
use consensus_core::block_graph::{BlockGraph, BlockState};
use consensus_core::config::ConsensusConfig;
use consensus_core::error::ConsensusError;
use consensus_core::selector::RandomSelector;
use consensus_core::signature::{PrivateKey, PublicKey, SignatureEngine};
use consensus_core::slot::Slot;
use consensus_core::worker::{
    choose_operations, difference, ConsensusAction, ConsensusCommand, ConsensusEvent,
    ConsensusManagementCommand,
    ConsensusResponse, ConsensusWorker, ProtocolEvent,
};

fn key(n: u8) -> PrivateKey {
    PrivateKey([n; 32])
}

fn public(n: u8) -> PublicKey {
    SignatureEngine::new().derive_public_key(&key(n))
}

fn config(thread_count: u8, node_count: u8) -> ConsensusConfig {
    ConsensusConfig {
        thread_count,
        t0: 1000,
        genesis_timestamp: 10_000,
        genesis_key: key(200),
        nodes: (1..=node_count).map(|n| (public(n), key(n))).collect(),
        current_node_index: 0,
        delta_f0: 3,
        endorsement_count: 4,
        max_operations_per_block: 2,
        max_block_size: 10_000,
        disable_block_creation: true,
        force_keep_final_periods: 0,
        discard_ttl: 2,
    }
}

fn start(
    cfg: ConsensusConfig,
    has_storage: bool,
    graph: BlockGraph,
    now: u64,
) -> Result<ConsensusWorker, ConsensusError> {
    let weights = vec![1u64; cfg.nodes.len()];
    ConsensusWorker::new(cfg, has_storage, graph, &vec![0u8; 32], weights, now)
}

fn worker(cfg: &ConsensusConfig, has_storage: bool, now: u64) -> ConsensusWorker {
    let graph = BlockGraph::new(cfg).unwrap();
    start(cfg.clone(), has_storage, graph, now).unwrap()
}

fn selector(cfg: &ConsensusConfig) -> RandomSelector {
    RandomSelector::new(&vec![0u8; 32], cfg.thread_count, vec![1u64; cfg.nodes.len()]).unwrap()
}

fn genesis(cfg: &ConsensusConfig) -> Vec<BlockId> {
    (0..cfg.thread_count)
        .map(|t| {
            let root = compute_operations_root(&Vec::new());
            BlockHeader::new_signed(&cfg.genesis_key, Slot::new(0, t), Vec::new(), root, Vec::new()).0
        })
        .collect()
}

fn block(cfg: &ConsensusConfig, slot: Slot, parents: &[BlockId], operations: Vec<Operation>) -> (BlockId, Block) {
    let creator = selector(cfg).draw(slot) as usize;
    let root = compute_operations_root(&operations);
    let (id, header) =
        BlockHeader::new_signed(&cfg.nodes[creator].1, slot, parents.to_vec(), root, Vec::new());
    (id, Block { header, operations })
}

fn draws(w: &ConsensusWorker, start: Slot, end: Slot) -> Result<Vec<(Slot, PublicKey)>, ConsensusError> {
    match w.process_consensus_command(ConsensusCommand::GetSelectionDraws { start, end }) {
        ConsensusResponse::SelectionDraws(r) => r,
        other => panic!("unexpected answer {:?}", other),
    }
}

#[test]
fn selection_draws_of_an_empty_range_are_empty() {
    let cfg = config(2, 3);
    let w = worker(&cfg, false, 0);
    assert_eq!(draws(&w, Slot::new(4, 1), Slot::new(4, 1)), Ok(vec![]));
    assert_eq!(draws(&w, Slot::new(4, 1), Slot::new(3, 0)), Ok(vec![]));
}

#[test]
fn selection_draws_walk_the_slots_in_order() {
    let cfg = config(2, 3);
    let w = worker(&cfg, false, 0);
    let sel = selector(&cfg);
    let got = draws(&w, Slot::new(0, 1), Slot::new(2, 1)).unwrap();
    let slots: Vec<Slot> = got.iter().map(|p| p.0).collect();
    assert_eq!(slots, vec![Slot::new(0, 1), Slot::new(1, 0), Slot::new(1, 1), Slot::new(2, 0)]);
    let genesis_key = SignatureEngine::new().derive_public_key(&cfg.genesis_key);
    assert_eq!(got[0].1, genesis_key);
    for (slot, key) in &got[1..] {
        assert_eq!(*key, cfg.nodes[sel.draw(*slot) as usize].0);
    }
    // the same question has the same answer
    assert_eq!(draws(&w, Slot::new(0, 1), Slot::new(2, 1)).unwrap(), got);
}

#[test]
fn period_0_resolves_to_the_genesis_key() {
    let cfg = config(3, 2);
    let w = worker(&cfg, false, 0);
    let genesis_key = SignatureEngine::new().derive_public_key(&cfg.genesis_key);
    let got = draws(&w, Slot::new(0, 0), Slot::new(1, 0)).unwrap();
    assert_eq!(got.len(), 3);
    assert!(got.iter().all(|(slot, key)| slot.period == 0 && *key == genesis_key));
}

#[test]
fn selection_draws_past_the_last_slot_overflow() {
    let cfg = config(2, 3);
    let w = worker(&cfg, false, 0);
    assert_eq!(
        draws(&w, Slot::new(u64::MAX, 0), Slot::new(u64::MAX, 2)),
        Err(ConsensusError::SlotOverflowError)
    );
    assert_eq!(
        draws(&w, Slot::new(u64::MAX, 0), Slot::new(u64::MAX, 1)).map(|v| v.len()),
        Ok(1)
    );
}

#[test]
fn worker_starts_at_the_slot_of_the_clock() {
    let cfg = config(2, 2);
    // before the genesis instant nothing has begun
    let mut w = worker(&cfg, false, 9_999);
    let actions = w.slot_tick(&Vec::new()).unwrap();
    assert!(actions.is_empty());
    // 2.6 periods after genesis the latest slot is (2, 1)
    let graph = BlockGraph::new(&cfg).unwrap();
    let w = start(cfg.clone(), false, graph, 12_600).unwrap();
    assert_eq!(draws(&w, Slot::new(0, 0), Slot::new(0, 0)), Ok(vec![]));
    // a clock with less than a millisecond per thread is refused
    let mut bad = cfg.clone();
    bad.t0 = 1;
    let graph = BlockGraph::new(&bad).unwrap();
    assert_eq!(
        start(bad, false, graph, 0).err(),
        Some(ConsensusError::TimeOverflowError)
    );
    // no node, no selector
    let mut empty = cfg.clone();
    empty.nodes.clear();
    let graph = BlockGraph::new(&empty).unwrap();
    assert_eq!(
        start(empty, false, graph, 0).err(),
        Some(ConsensusError::SelectionError)
    );
    // a graph with other threads than the configuration
    let graph = BlockGraph::new(&config(3, 2)).unwrap();
    assert_eq!(
        start(cfg, false, graph, 0).err(),
        Some(ConsensusError::ConfigError)
    );
}

#[test]
fn wishlist_delta_follows_the_missing_parent() {
    let cfg = config(2, 2);
    // the clock stands at slot (3, 0)
    let mut w = worker(&cfg, false, 13_000);
    let g = genesis(&cfg);
    let (p, parent) = block(&cfg, Slot::new(1, 0), &g, Vec::new());
    let (c, child) = block(&cfg, Slot::new(2, 0), &[p, g[1]], Vec::new());
    let actions = w.process_protocol_event(ProtocolEvent::ReceivedBlockHeader {
        hash: c,
        header: child.header.clone(),
    });
    assert_eq!(actions, vec![ConsensusAction::SendWishlistDelta { new: vec![p], remove: vec![] }]);
    // nothing changes: no delta
    let actions = w.process_protocol_event(ProtocolEvent::ReceivedBlockHeader {
        hash: c,
        header: child.header.clone(),
    });
    assert!(actions.is_empty());
    // the parent arrives and is integrated; the child still lacks its operations
    let actions = w.process_protocol_event(ProtocolEvent::ReceivedBlock { hash: p, block: parent.clone() });
    assert_eq!(
        actions,
        vec![
            ConsensusAction::IntegratedBlock { hash: p, block: parent },
            ConsensusAction::SendWishlistDelta { new: vec![], remove: vec![p] },
        ]
    );
    let actions = w.process_protocol_event(ProtocolEvent::ReceivedBlock { hash: c, block: child.clone() });
    assert_eq!(actions, vec![ConsensusAction::IntegratedBlock { hash: c, block: child }]);
}

#[test]
fn attack_is_reported_once_and_one_block_is_integrated() {
    let cfg = config(2, 2);
    let mut w = worker(&cfg, false, 11_000);
    let g = genesis(&cfg);
    let slot = Slot::new(1, 0);
    let (a, first) = block(&cfg, slot, &g, Vec::new());
    let ops = vec![Operation { sender: public(1), kind: OperationKind::Transaction, amount: 7 }];
    let (b, second) = block(&cfg, slot, &g, ops);
    let actions = w.process_protocol_event(ProtocolEvent::ReceivedBlock { hash: a, block: first.clone() });
    assert_eq!(actions, vec![ConsensusAction::IntegratedBlock { hash: a, block: first.clone() }]);
    let actions = w.process_protocol_event(ProtocolEvent::ReceivedBlock { hash: b, block: second.clone() });
    let attacker = consensus_core::hash::Hash::compute_from(&first.header.creator.0);
    assert_eq!(actions, vec![ConsensusAction::NotifyBlockAttack { attacker }]);
    // handing either block in again reports nothing
    for (hash, blk) in [(a, first), (b, second)] {
        assert!(w.process_protocol_event(ProtocolEvent::ReceivedBlock { hash, block: blk }).is_empty());
    }
}

#[test]
fn get_block_falls_back_to_the_archive() {
    let cfg = config(2, 2);
    let g = genesis(&cfg);
    let (h, blk) = block(&cfg, Slot::new(1, 0), &g, Vec::new());
    // without an archive an unknown block is not found
    let mut w = worker(&cfg, false, 11_000);
    assert_eq!(
        w.process_protocol_event(ProtocolEvent::GetBlock(h)),
        vec![ConsensusAction::BlockNotFound { hash: h }]
    );
    // with an archive the archive is asked, and its answer is passed on
    let mut w = worker(&cfg, true, 11_000);
    assert_eq!(
        w.process_protocol_event(ProtocolEvent::GetBlock(h)),
        vec![ConsensusAction::GetBlockFromStorage { hash: h }]
    );
    assert_eq!(
        ConsensusWorker::storage_answer(h, Some(blk.clone())),
        ConsensusAction::FoundBlock { hash: h, block: blk.clone() }
    );
    assert_eq!(ConsensusWorker::storage_answer(h, None), ConsensusAction::BlockNotFound { hash: h });
    // an active block is found in memory
    let actions = w.process_protocol_event(ProtocolEvent::ReceivedBlock { hash: h, block: blk.clone() });
    assert_eq!(
        actions,
        vec![
            ConsensusAction::AddBlockBatch { blocks: vec![] },
            ConsensusAction::IntegratedBlock { hash: h, block: blk.clone() },
        ]
    );
    assert_eq!(
        w.process_protocol_event(ProtocolEvent::GetBlock(h)),
        vec![ConsensusAction::FoundBlock { hash: h, block: blk.clone() }]
    );
    match w.process_consensus_command(ConsensusCommand::GetActiveBlock { hash: h }) {
        ConsensusResponse::ActiveBlock(found) => assert_eq!(found, Some(blk)),
        other => panic!("unexpected answer {:?}", other),
    }
}

#[test]
fn transactions_go_to_the_pool() {
    let cfg = config(2, 2);
    let mut w = worker(&cfg, false, 0);
    let operation = Operation { sender: public(1), kind: OperationKind::RollSell, amount: 3 };
    assert_eq!(
        w.process_protocol_event(ProtocolEvent::ReceivedTransaction(operation)),
        vec![ConsensusAction::AddToPool { operation }]
    );
}

#[test]
fn final_block_is_archived_exactly_once() {
    let mut cfg = config(2, 1);
    cfg.force_keep_final_periods = 0;
    let mut w = worker(&cfg, true, 20_000);
    let g = genesis(&cfg);
    // a chain that alternates between the two threads
    let (b1, blk1) = block(&cfg, Slot::new(1, 0), &g, Vec::new());
    let (b2, blk2) = block(&cfg, Slot::new(1, 1), &[b1, g[1]], Vec::new());
    let (b3, blk3) = block(&cfg, Slot::new(2, 0), &[b1, b2], Vec::new());
    let (b4, blk4) = block(&cfg, Slot::new(2, 1), &[b3, b2], Vec::new());
    let (b5, blk5) = block(&cfg, Slot::new(3, 0), &[b3, b4], Vec::new());
    let (b6, blk6) = block(&cfg, Slot::new(3, 1), &[b5, b4], Vec::new());
    let (b7, blk7) = block(&cfg, Slot::new(4, 0), &[b5, b6], Vec::new());
    let mut archived: Vec<Vec<BlockId>> = Vec::new();
    let mut integrated: Vec<BlockId> = Vec::new();
    let chain = vec![(b1, blk1), (b2, blk2), (b3, blk3), (b4, blk4), (b5, blk5), (b6, blk6), (b7, blk7)];
    for (hash, blk) in chain.iter().cloned().chain(chain.iter().cloned()) {
        for action in w.process_protocol_event(ProtocolEvent::ReceivedBlock { hash, block: blk }) {
            match action {
                ConsensusAction::AddBlockBatch { blocks } => {
                    archived.push(blocks.iter().map(|p| p.0).collect())
                }
                ConsensusAction::IntegratedBlock { hash, .. } => integrated.push(hash),
                other => panic!("unexpected action {:?}", other),
            }
        }
    }
    assert_eq!(integrated, vec![b1, b2, b3, b4, b5, b6, b7]);
    // with b5 the block b1 has four descendants and becomes final: the
    // genesis block of its thread lies behind it and leaves; with b6 the same
    // holds of b2; with b7 the block b3 becomes final, and b1, which no
    // active block names any more, leaves
    let none: Vec<BlockId> = Vec::new();
    assert_eq!(archived[..4], vec![none.clone(), none.clone(), none.clone(), none.clone()][..]);
    assert_eq!(archived[4], vec![g[0]]);
    assert_eq!(archived[5], vec![g[1]]);
    assert_eq!(archived[6], vec![b1]);
    assert!(archived[7..].iter().all(|batch| batch.is_empty()));
    match w.process_consensus_command(ConsensusCommand::GetBlockGraphStatus) {
        ConsensusResponse::BlockGraphStatus(export) => {
            let state = |id: &BlockId| export.blocks.iter().find(|b| &b.id == id).map(|b| b.state);
            // b1 left the memory, was handed in again, and was discarded as stale
            assert_eq!(state(&b1), Some(BlockState::Discarded));
            assert_eq!(state(&b2), Some(BlockState::Final));
            assert_eq!(state(&b3), Some(BlockState::Final));
            assert_eq!(state(&b4), Some(BlockState::Active));
            assert_eq!(state(&g[0]), None);
            assert_eq!(export.best_parents, vec![b7, b6]);
            assert_eq!(export.cliques.len(), 1);
            assert_eq!(export.cliques[0].members, vec![b4, b5, b6, b7]);
            assert_eq!(export.cliques[0].fitness, 4);
        }
        other => panic!("unexpected answer {:?}", other),
    }
    // a discarded hash stays discarded
    assert_eq!(
        w.process_protocol_event(ProtocolEvent::ReceivedBlock { hash: b1, block: chain[0].1.clone() }),
        vec![ConsensusAction::AddBlockBatch { blocks: vec![] }]
    );
}

#[test]
fn slot_tick_creates_the_block_of_the_node_that_is_drawn() {
    let mut cfg = config(2, 1);
    cfg.disable_block_creation = false;
    // the clock stands before genesis: the first ticks are the slots of period 0
    let mut w = worker(&cfg, false, 0);
    assert!(w.slot_tick(&Vec::new()).unwrap().is_empty());
    assert!(w.slot_tick(&Vec::new()).unwrap().is_empty());
    // slot (1, 0): the only node is drawn and takes two of the three operations
    let pool: Vec<Operation> = (1..=3)
        .map(|n| Operation { sender: public(1), kind: OperationKind::RollBuy, amount: n })
        .collect();
    let actions = w.slot_tick(&pool).unwrap();
    assert_eq!(actions.len(), 1);
    match &actions[0] {
        ConsensusAction::IntegratedBlock { hash, block } => {
            assert_eq!(block.header.slot, Slot::new(1, 0));
            assert_eq!(block.header.creator, public(1));
            assert_eq!(block.header.parents, genesis(&cfg));
            assert_eq!(block.operations, pool[..2].to_vec());
            assert_eq!(block.header.compute_id(), *hash);
            assert!(block.header.verify_signature());
        }
        other => panic!("unexpected action {:?}", other),
    }
}

#[test]
fn operations_are_chosen_by_count_and_size() {
    let op = |amount: u64| Operation { sender: public(1), kind: OperationKind::Transaction, amount };
    let pool = vec![op(1), op(2), op(300)];
    // each of the first two takes 34 bytes, the third 35
    assert_eq!(choose_operations(&pool, 10, 1000), pool);
    assert_eq!(choose_operations(&pool, 2, 1000), pool[..2].to_vec());
    assert_eq!(choose_operations(&pool, 10, 68), pool[..2].to_vec());
    assert_eq!(choose_operations(&pool, 10, 67), pool[..1].to_vec());
    assert_eq!(choose_operations(&pool, 10, 103), pool);
    assert_eq!(choose_operations(&pool, 10, 102), pool[..2].to_vec());
    assert!(choose_operations(&pool, 0, 1000).is_empty());
    assert!(choose_operations(&pool, 10, 33).is_empty());
}

#[test]
fn difference_keeps_what_the_other_lacks() {
    let id = |n: u8| BlockId(consensus_core::hash::Hash::from_bytes(&[n; 32]));
    let a = vec![id(1), id(2), id(3)];
    let b = vec![id(2), id(4)];
    assert_eq!(difference(&a, &b), vec![id(1), id(3)]);
    assert_eq!(difference(&b, &a), vec![id(4)]);
    assert_eq!(difference(&a, &a), vec![]);
}

#[test]
fn management_command_is_a_plain_value() {
    assert_eq!(ConsensusManagementCommand::KeepAlive, ConsensusManagementCommand::KeepAlive);
}

#[test]
fn controller_event_is_a_plain_value() {
    assert_eq!(ConsensusEvent::Nothing, ConsensusEvent::Nothing);
}

#[test]
fn selection_follows_the_weights_that_are_set() {
    let cfg = config(2, 3);
    let mut w = worker(&cfg, false, 0);
    let before = draws(&w, Slot::new(1, 0), Slot::new(30, 0)).unwrap();
    // all the weight on the last node
    assert_eq!(w.set_selection(&vec![1u8; 32], vec![0, 0, 5]), Ok(()));
    let after = draws(&w, Slot::new(1, 0), Slot::new(30, 0)).unwrap();
    assert!(after.iter().all(|(_, key)| *key == cfg.nodes[2].0));
    assert_ne!(before, after);
    // one weight for each node, not all of them zero, and a seed of 32 bytes
    assert_eq!(w.set_selection(&vec![1u8; 32], vec![1, 1]), Err(ConsensusError::SelectionError));
    assert_eq!(w.set_selection(&vec![1u8; 32], vec![0, 0, 0]), Err(ConsensusError::SelectionError));
    assert_eq!(w.set_selection(&vec![1u8; 3], vec![1, 1, 1]), Err(ConsensusError::SelectionError));
    assert_eq!(draws(&w, Slot::new(1, 0), Slot::new(30, 0)).unwrap(), after);
}

#[test]
fn the_last_slot_of_all_has_no_successor() {
    let mut cfg = config(1, 1);
    cfg.t0 = 1;
    cfg.genesis_timestamp = 0;
    // at the last millisecond the latest slot is the last slot of all
    let graph = BlockGraph::new(&cfg).unwrap();
    assert_eq!(
        start(cfg.clone(), false, graph, u64::MAX).err(),
        Some(ConsensusError::SlotOverflowError)
    );
    // one millisecond earlier the next slot is the last; its tick cannot be
    // followed by another, and changes nothing
    let graph = BlockGraph::new(&cfg).unwrap();
    let mut w = start(cfg, false, graph, u64::MAX - 1).unwrap();
    assert_eq!(w.get_next_slot(), Slot::new(u64::MAX, 0));
    assert_eq!(w.slot_tick(&Vec::new()).err(), Some(ConsensusError::SlotOverflowError));
    assert_eq!(w.get_next_slot(), Slot::new(u64::MAX, 0));
}

#[test]
fn worker_draws_with_the_seed_and_the_weights_it_is_given() {
    let cfg = config(2, 3);
    let graph = BlockGraph::new(&cfg).unwrap();
    // all the weight on the last node
    let w = ConsensusWorker::new(cfg.clone(), false, graph, &vec![7u8; 32], vec![0, 0, 5], 0).unwrap();
    let all = draws(&w, Slot::new(1, 0), Slot::new(30, 0)).unwrap();
    assert_eq!(all.len(), 58);
    assert!(all.iter().all(|(_, key)| *key == cfg.nodes[2].0));
    // two workers with one seed and one set of weights draw alike
    let seed: Vec<u8> = (0u8..32).collect();
    let one = ConsensusWorker::new(cfg.clone(), false, BlockGraph::new(&cfg).unwrap(), &seed, vec![3, 1, 2], 0)
        .unwrap();
    let two = ConsensusWorker::new(cfg.clone(), true, BlockGraph::new(&cfg).unwrap(), &seed, vec![3, 1, 2], 50_000)
        .unwrap();
    let first = draws(&one, Slot::new(1, 0), Slot::new(40, 0)).unwrap();
    assert_eq!(first, draws(&two, Slot::new(1, 0), Slot::new(40, 0)).unwrap());
    // and as the selector of that seed and those weights does
    let selector = RandomSelector::new(&seed, cfg.thread_count, vec![3, 1, 2]).unwrap();
    for (slot, key) in first.iter() {
        assert_eq!(*key, cfg.nodes[selector.draw(*slot) as usize].0);
    }
    // another seed gives other draws
    let other = ConsensusWorker::new(cfg.clone(), false, BlockGraph::new(&cfg).unwrap(), &vec![9u8; 32], vec![3, 1, 2], 0)
        .unwrap();
    assert_ne!(first, draws(&other, Slot::new(1, 0), Slot::new(40, 0)).unwrap());
}

#[test]
fn worker_refuses_a_seed_or_weights_that_do_not_fit() {
    let cfg = config(2, 3);
    let fresh = || BlockGraph::new(&cfg).unwrap();
    let seed = vec![0u8; 32];
    let refused = Some(ConsensusError::SelectionError);
    // one weight for each node
    assert_eq!(ConsensusWorker::new(cfg.clone(), false, fresh(), &seed, vec![1, 1], 0).err(), refused);
    assert_eq!(ConsensusWorker::new(cfg.clone(), false, fresh(), &seed, vec![1, 1, 1, 1], 0).err(), refused);
    // not all of them zero
    assert_eq!(ConsensusWorker::new(cfg.clone(), false, fresh(), &seed, vec![0, 0, 0], 0).err(), refused);
    // a seed of 32 bytes
    assert_eq!(ConsensusWorker::new(cfg.clone(), false, fresh(), &vec![0u8; 31], vec![1, 1, 1], 0).err(), refused);
    assert_eq!(ConsensusWorker::new(cfg.clone(), false, fresh(), &Vec::new(), vec![1, 1, 1], 0).err(), refused);
    // the graph is looked at first, then the selector, then the clock
    let other = BlockGraph::new(&config(3, 3)).unwrap();
    assert_eq!(
        ConsensusWorker::new(cfg.clone(), false, other, &seed, vec![1, 1], 0).err(),
        Some(ConsensusError::ConfigError)
    );
    let mut bad = cfg.clone();
    bad.t0 = 1;
    assert_eq!(
        ConsensusWorker::new(bad.clone(), false, BlockGraph::new(&bad).unwrap(), &seed, vec![1, 1], 0).err(),
        refused
    );
    assert_eq!(
        ConsensusWorker::new(bad.clone(), false, BlockGraph::new(&bad).unwrap(), &seed, vec![1, 1, 1], 0).err(),
        Some(ConsensusError::TimeOverflowError)
    );
    assert!(ConsensusWorker::new(cfg.clone(), false, fresh(), &seed, vec![1, 1, 1], 0).is_ok());
}

#[test]
fn second_pass_does_nothing() {
    let cfg = config(2, 2);
    for has_storage in [false, true] {
        let mut w = worker(&cfg, has_storage, 13_000);
        let quiet: Vec<ConsensusAction> =
            if has_storage { vec![ConsensusAction::AddBlockBatch { blocks: vec![] }] } else { vec![] };
        let g = genesis(&cfg);
        let (p, parent) = block(&cfg, Slot::new(1, 0), &g, Vec::new());
        let (c, child) = block(&cfg, Slot::new(2, 0), &[p, g[1]], Vec::new());
        let header = ProtocolEvent::ReceivedBlockHeader { hash: c, header: child.header.clone() };
        let actions = w.process_protocol_event(header);
        assert_eq!(actions.last(), Some(&ConsensusAction::SendWishlistDelta { new: vec![p], remove: vec![] }));
        assert_eq!(w.block_db_changed(), quiet);
        assert_eq!(w.block_db_changed(), quiet);
        let actions = w.process_protocol_event(ProtocolEvent::ReceivedBlock { hash: p, block: parent.clone() });
        assert_eq!(actions.len(), quiet.len() + 2);
        assert_eq!(w.block_db_changed(), quiet);
        // a block that is known changes nothing and sends nothing
        assert_eq!(w.process_protocol_event(ProtocolEvent::ReceivedBlock { hash: p, block: parent }), quiet);
    }
}

#[test]
fn first_header_of_two_for_one_slot_keeps_its_state() {
    let cfg = config(2, 2);
    let mut w = worker(&cfg, false, 11_000);
    let g = genesis(&cfg);
    let slot = Slot::new(1, 0);
    let (a, first) = block(&cfg, slot, &g, Vec::new());
    let ops = vec![Operation { sender: public(1), kind: OperationKind::Transaction, amount: 7 }];
    let (b, second) = block(&cfg, slot, &g, ops);
    let state = |w: &ConsensusWorker, id: &BlockId| match w.process_consensus_command(
        ConsensusCommand::GetBlockGraphStatus,
    ) {
        ConsensusResponse::BlockGraphStatus(export) => {
            export.blocks.iter().find(|b| &b.id == id).map(|b| b.state)
        }
        other => panic!("unexpected answer {:?}", other),
    };
    // the first header waits for its operations
    assert!(w.process_protocol_event(ProtocolEvent::ReceivedBlockHeader { hash: a, header: first.header.clone() })
        .is_empty());
    assert_eq!(state(&w, &a), Some(BlockState::WaitingForDeps));
    // the second is an attack; the first still waits
    let actions = w.process_protocol_event(ProtocolEvent::ReceivedBlockHeader { hash: b, header: second.header });
    let attacker = consensus_core::hash::Hash::compute_from(&first.header.creator.0);
    assert_eq!(actions, vec![ConsensusAction::NotifyBlockAttack { attacker }]);
    assert_eq!(state(&w, &a), Some(BlockState::WaitingForDeps));
    assert_eq!(state(&w, &b), Some(BlockState::Discarded));
    // and is integrated once its operations come
    let actions = w.process_protocol_event(ProtocolEvent::ReceivedBlock { hash: a, block: first.clone() });
    assert_eq!(actions, vec![ConsensusAction::IntegratedBlock { hash: a, block: first }]);
    assert_eq!(state(&w, &a), Some(BlockState::Active));
}

#[test]
fn block_told_and_old_enough_leaves_in_the_same_pass() {
    let mut cfg = config(1, 1);
    cfg.delta_f0 = 0;
    cfg.force_keep_final_periods = 0;
    let mut w = worker(&cfg, true, 50_000);
    let g = genesis(&cfg);
    let (b1, blk1) = block(&cfg, Slot::new(1, 0), &g, Vec::new());
    let (b2, blk2) = block(&cfg, Slot::new(2, 0), &[b1], Vec::new());
    let (b3, blk3) = block(&cfg, Slot::new(3, 0), &[b2], Vec::new());
    let (b4, blk4) = block(&cfg, Slot::new(4, 0), &[b3], Vec::new());
    let none = ConsensusAction::AddBlockBatch { blocks: vec![] };
    // the chain comes in from its end: every block waits for the one before it
    let actions = w.process_protocol_event(ProtocolEvent::ReceivedBlock { hash: b4, block: blk4.clone() });
    assert_eq!(actions, vec![none.clone(), ConsensusAction::SendWishlistDelta { new: vec![b3], remove: vec![] }]);
    let actions = w.process_protocol_event(ProtocolEvent::ReceivedBlock { hash: b3, block: blk3.clone() });
    assert_eq!(actions, vec![none.clone(), ConsensusAction::SendWishlistDelta { new: vec![b2], remove: vec![b3] }]);
    let actions = w.process_protocol_event(ProtocolEvent::ReceivedBlock { hash: b2, block: blk2.clone() });
    assert_eq!(actions, vec![none.clone(), ConsensusAction::SendWishlistDelta { new: vec![b1], remove: vec![b2] }]);
    // with the first block all of them become active, and all but the last
    // final; what is final and lies behind the latest final block leaves at
    // once, though it is told in this very pass
    let actions = w.process_protocol_event(ProtocolEvent::ReceivedBlock { hash: b1, block: blk1.clone() });
    assert_eq!(
        actions,
        vec![
            ConsensusAction::AddBlockBatch {
                blocks: vec![(g[0], genesis_block(&cfg, 0)), (b2, blk2.clone()), (b1, blk1.clone())]
            },
            ConsensusAction::IntegratedBlock { hash: b1, block: blk1 },
            ConsensusAction::IntegratedBlock { hash: b2, block: blk2 },
            ConsensusAction::IntegratedBlock { hash: b3, block: blk3 },
            ConsensusAction::IntegratedBlock { hash: b4, block: blk4 },
            ConsensusAction::SendWishlistDelta { new: vec![], remove: vec![b1] },
        ]
    );
    // and the next pass has nothing to do
    assert_eq!(w.block_db_changed(), vec![none.clone()]);
    match w.process_consensus_command(ConsensusCommand::GetBlockGraphStatus) {
        ConsensusResponse::BlockGraphStatus(export) => {
            let ids: Vec<BlockId> = export.blocks.iter().map(|b| b.id).collect();
            // in the order in which the hashes were first heard of
            assert_eq!(ids, vec![b3, b4]);
        }
        other => panic!("unexpected answer {:?}", other),
    }
}

fn genesis_block(cfg: &ConsensusConfig, thread: u8) -> Block {
    let root = compute_operations_root(&Vec::new());
    let header = BlockHeader::new_signed(&cfg.genesis_key, Slot::new(0, thread), Vec::new(), root, Vec::new()).1;
    Block { header, operations: Vec::new() }
}
