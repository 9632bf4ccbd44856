use consensus_core::block::{compute_operations_root, Block, BlockHeader, BlockId, Operation, OperationKind};
use consensus_core::block_graph::admission::judge_structure;
use consensus_core::block_graph::{Admission, BlockGraph, BlockState, RejectReason};
use consensus_core::config::ConsensusConfig;
use consensus_core::endorsement::Endorsement;
use consensus_core::selector::RandomSelector;
use consensus_core::signature::{PrivateKey, PublicKey, SignatureEngine};
use consensus_core::slot::Slot;

fn key(n: u8) -> PrivateKey {
    PrivateKey([n; 32])
}

fn public(n: u8) -> PublicKey {
    SignatureEngine::new().derive_public_key(&key(n))
}

fn config(thread_count: u8, node_count: u8, delta_f0: u64) -> ConsensusConfig {
    ConsensusConfig {
        thread_count,
        t0: 1000,
        genesis_timestamp: 0,
        genesis_key: key(200),
        nodes: (1..=node_count).map(|n| (public(n), key(n))).collect(),
        current_node_index: 0,
        delta_f0,
        endorsement_count: 4,
        max_operations_per_block: 10,
        max_block_size: 10_000,
        disable_block_creation: false,
        force_keep_final_periods: 1,
        discard_ttl: 2,
    }
}

fn selector(cfg: &ConsensusConfig) -> RandomSelector {
    RandomSelector::new(&vec![0u8; 32], cfg.thread_count, vec![1u64; cfg.nodes.len()]).unwrap()
}

fn genesis(graph: &BlockGraph, cfg: &ConsensusConfig) -> Vec<BlockId> {
    (0..cfg.thread_count)
        .map(|t| {
            let root = compute_operations_root(&Vec::new());
            BlockHeader::new_signed(&cfg.genesis_key, Slot::new(0, t), Vec::new(), root, Vec::new()).0
        })
        .inspect(|id| assert_eq!(graph.get_state(id), Some(BlockState::Final)))
        .collect()
}

fn block(
    cfg: &ConsensusConfig,
    sel: &RandomSelector,
    slot: Slot,
    parents: &[BlockId],
    operations: Vec<Operation>,
    endorsements: Vec<Endorsement>,
) -> (BlockId, Block) {
    let creator = sel.draw(slot) as usize;
    let root = compute_operations_root(&operations);
    let (id, header) =
        BlockHeader::new_signed(&cfg.nodes[creator].1, slot, parents.to_vec(), root, endorsements);
    (id, Block { header, operations })
}

#[test]
fn genesis_blocks_are_final() {
    let cfg = config(2, 2, 3);
    let mut graph = BlockGraph::new(&cfg).unwrap();
    let ids = genesis(&graph, &cfg);
    assert_eq!(ids.len(), 2);
    assert_ne!(ids[0], ids[1]);
    assert!(graph.get_blocks_to_propagate().is_empty());
    assert!(graph.get_attack_attempts().is_empty());
    assert!(graph.get_block_wishlist().is_empty());
    let g0 = graph.get_active_block(&ids[0]).unwrap();
    assert_eq!(g0.header.creator, SignatureEngine::new().derive_public_key(&cfg.genesis_key));
    assert_eq!(g0.header.slot, Slot::new(0, 0));
    assert!(g0.header.verify_signature());
}

#[test]
fn graph_needs_a_thread() {
    let cfg = config(0, 2, 3);
    assert!(BlockGraph::new(&cfg).is_err());
}

#[test]
fn block_on_genesis_is_integrated_and_propagated_once() {
    let cfg = config(2, 2, 3);
    let sel = selector(&cfg);
    let mut graph = BlockGraph::new(&cfg).unwrap();
    let g = genesis(&graph, &cfg);
    let (id, b) = block(&cfg, &sel, Slot::new(1, 0), &g, Vec::new(), Vec::new());
    let out = graph.incoming_block(id, b.clone(), &sel, Some(Slot::new(1, 0)));
    assert_eq!(out, Admission::Integrated);
    assert_eq!(graph.get_state(&id), Some(BlockState::Active));
    assert_eq!(graph.get_active_block(&id), Some(b.clone()));
    assert_eq!(graph.get_blocks_to_propagate(), vec![(id, b.clone())]);
    // handing the block in again changes nothing
    let again = graph.incoming_block(id, b.clone(), &sel, Some(Slot::new(1, 0)));
    assert_eq!(again, Admission::AlreadyKnown);
    assert!(graph.get_blocks_to_propagate().is_empty());
    assert_eq!(graph.get_state(&id), Some(BlockState::Active));
}

#[test]
fn future_slot_is_left_out() {
    let cfg = config(2, 2, 3);
    let sel = selector(&cfg);
    let mut graph = BlockGraph::new(&cfg).unwrap();
    let g = genesis(&graph, &cfg);
    let (id, b) = block(&cfg, &sel, Slot::new(1, 1), &g, Vec::new(), Vec::new());
    assert_eq!(graph.incoming_block(id, b.clone(), &sel, Some(Slot::new(1, 0))), Admission::FutureSlot);
    assert_eq!(graph.incoming_block(id, b.clone(), &sel, None), Admission::FutureSlot);
    assert_eq!(graph.get_state(&id), None);
    assert_eq!(graph.incoming_block(id, b, &sel, Some(Slot::new(1, 1))), Admission::Integrated);
}

#[test]
fn malformed_and_badly_signed_blocks_are_discarded() {
    let cfg = config(2, 2, 3);
    let sel = selector(&cfg);
    let mut graph = BlockGraph::new(&cfg).unwrap();
    let g = genesis(&graph, &cfg);
    let now = Some(Slot::new(5, 0));
    // a thread that does not exist
    let (id, b) = block(&cfg, &sel, Slot::new(1, 2), &g, Vec::new(), Vec::new());
    assert_eq!(graph.incoming_block(id, b, &sel, now), Admission::Discarded(RejectReason::Malformed));
    assert_eq!(graph.get_state(&id), Some(BlockState::Discarded));
    // one parent only
    let (id, b) = block(&cfg, &sel, Slot::new(1, 0), &g[..1], Vec::new(), Vec::new());
    assert_eq!(graph.incoming_block(id, b, &sel, now), Admission::Discarded(RejectReason::Malformed));
    // a hash that is not the hash of the header
    let (id, b) = block(&cfg, &sel, Slot::new(1, 1), &g, Vec::new(), Vec::new());
    assert_eq!(
        graph.incoming_block(g_other(&id), b.clone(), &sel, now),
        Admission::Discarded(RejectReason::Malformed)
    );
    // operations that the header does not name
    let mut wrong = b.clone();
    wrong.operations.push(Operation { sender: public(1), kind: OperationKind::RollBuy, amount: 1 });
    assert_eq!(graph.incoming_block(id, wrong, &sel, now), Admission::Discarded(RejectReason::Malformed));
    // a signature that is not the creator's
    let (id, b) = block(&cfg, &sel, Slot::new(2, 0), &g, Vec::new(), Vec::new());
    let mut forged = b.clone();
    forged.header.signature.0[0] ^= 1;
    assert_eq!(
        graph.incoming_block(id, forged, &sel, now),
        Admission::Discarded(RejectReason::InvalidSignature)
    );
    // once discarded, always discarded
    assert_eq!(graph.incoming_block(id, b, &sel, now), Admission::AlreadyKnown);
    assert_eq!(graph.get_state(&id), Some(BlockState::Discarded));
}

fn g_other(id: &BlockId) -> BlockId {
    let mut bytes = id.0.into_bytes();
    bytes[0] ^= 0xff;
    BlockId(consensus_core::hash::Hash::from_bytes(&bytes))
}

#[test]
fn wrong_creator_is_discarded() {
    let cfg = config(2, 2, 3);
    let sel = selector(&cfg);
    let mut graph = BlockGraph::new(&cfg).unwrap();
    let g = genesis(&graph, &cfg);
    let slot = Slot::new(1, 0);
    let other = 1 - sel.draw(slot) as usize;
    let root = compute_operations_root(&Vec::new());
    let (id, header) = BlockHeader::new_signed(&cfg.nodes[other].1, slot, g.clone(), root, Vec::new());
    assert_eq!(
        graph.incoming_header(id, header, &sel, Some(slot)),
        Admission::Discarded(RejectReason::WrongCreator)
    );
}

#[test]
fn header_waits_for_its_parent_and_follows_it() {
    let cfg = config(2, 2, 3);
    let sel = selector(&cfg);
    let mut graph = BlockGraph::new(&cfg).unwrap();
    let g = genesis(&graph, &cfg);
    let now = Some(Slot::new(2, 0));
    let (p, parent) = block(&cfg, &sel, Slot::new(1, 0), &g, Vec::new(), Vec::new());
    let (c, child) = block(&cfg, &sel, Slot::new(2, 0), &[p, g[1]], Vec::new(), Vec::new());
    assert_eq!(graph.incoming_block(c, child.clone(), &sel, now), Admission::Waiting);
    assert_eq!(graph.get_state(&c), Some(BlockState::WaitingForDeps));
    assert_eq!(graph.get_state(&p), Some(BlockState::Incoming));
    assert_eq!(graph.get_block_wishlist(), vec![p]);
    assert!(graph.get_blocks_to_propagate().is_empty());
    // the parent arrives: both become active, the parent first
    assert_eq!(graph.incoming_block(p, parent.clone(), &sel, now), Admission::Integrated);
    assert_eq!(graph.get_state(&p), Some(BlockState::Active));
    assert_eq!(graph.get_state(&c), Some(BlockState::Active));
    assert!(graph.get_block_wishlist().is_empty());
    assert_eq!(graph.get_blocks_to_propagate(), vec![(p, parent), (c, child)]);
}

#[test]
fn header_alone_waits_for_its_operations() {
    let cfg = config(2, 2, 3);
    let sel = selector(&cfg);
    let mut graph = BlockGraph::new(&cfg).unwrap();
    let g = genesis(&graph, &cfg);
    let now = Some(Slot::new(1, 0));
    let ops = vec![Operation { sender: public(1), kind: OperationKind::RollBuy, amount: 1 }];
    let (id, b) = block(&cfg, &sel, Slot::new(1, 0), &g, ops, Vec::new());
    assert_eq!(graph.incoming_header(id, b.header.clone(), &sel, now), Admission::Waiting);
    assert_eq!(graph.incoming_header(id, b.header.clone(), &sel, now), Admission::AlreadyKnown);
    assert!(graph.get_block_wishlist().is_empty());
    // operations that the header does not name are not kept
    let mut wrong = b.clone();
    wrong.operations.clear();
    assert_eq!(graph.incoming_block(id, wrong, &sel, now), Admission::AlreadyKnown);
    assert_eq!(graph.get_state(&id), Some(BlockState::WaitingForDeps));
    assert_eq!(graph.incoming_block(id, b.clone(), &sel, now), Admission::Integrated);
    assert_eq!(graph.get_active_block(&id), Some(b));
}

#[test]
fn second_block_of_a_creator_for_a_slot_is_an_attack() {
    let cfg = config(2, 2, 3);
    let sel = selector(&cfg);
    let mut graph = BlockGraph::new(&cfg).unwrap();
    let g = genesis(&graph, &cfg);
    let slot = Slot::new(1, 0);
    let (a, first) = block(&cfg, &sel, slot, &g, Vec::new(), Vec::new());
    let ops = vec![Operation { sender: public(1), kind: OperationKind::Transaction, amount: 7 }];
    let (b, second) = block(&cfg, &sel, slot, &g, ops, Vec::new());
    assert_ne!(a, b);
    assert_eq!(graph.incoming_block(a, first.clone(), &sel, Some(slot)), Admission::Integrated);
    assert_eq!(
        graph.incoming_block(b, second, &sel, Some(slot)),
        Admission::Discarded(RejectReason::Attack)
    );
    assert_eq!(graph.get_state(&b), Some(BlockState::Discarded));
    assert_eq!(graph.get_state(&a), Some(BlockState::Active));
    let creator = first.header.creator;
    assert_eq!(
        graph.get_attack_attempts(),
        vec![consensus_core::hash::Hash::compute_from(&creator.0)]
    );
    assert!(graph.get_attack_attempts().is_empty());
    assert_eq!(graph.get_blocks_to_propagate(), vec![(a, first)]);
}

#[test]
fn endorsements_must_endorse_the_predecessor_with_distinct_indices() {
    let cfg = config(2, 2, 3);
    let sel = selector(&cfg);
    let mut graph = BlockGraph::new(&cfg).unwrap();
    let g = genesis(&graph, &cfg);
    let slot = Slot::new(1, 0);
    let good = |index: u32| Endorsement { slot: Slot::new(0, 0), index, endorsed_block: g[0] };
    let (id, b) = block(&cfg, &sel, slot, &g, Vec::new(), vec![good(0), good(0)]);
    assert_eq!(graph.incoming_block(id, b, &sel, Some(slot)), Admission::Discarded(RejectReason::Malformed));
    let (id, b) = block(&cfg, &sel, slot, &g, Vec::new(), vec![good(4)]);
    assert_eq!(graph.incoming_block(id, b, &sel, Some(slot)), Admission::Discarded(RejectReason::Malformed));
    let elsewhere = Endorsement { slot: Slot::new(0, 1), index: 1, endorsed_block: g[1] };
    let (id, b) = block(&cfg, &sel, slot, &g, Vec::new(), vec![good(0), elsewhere]);
    assert_eq!(graph.incoming_block(id, b, &sel, Some(slot)), Admission::Discarded(RejectReason::Malformed));
    let (id, b) = block(&cfg, &sel, slot, &g, Vec::new(), vec![good(3), good(1)]);
    assert_eq!(graph.incoming_block(id, b, &sel, Some(slot)), Admission::Integrated);
}

#[test]
fn block_becomes_final_when_its_descendants_lead_by_more_than_delta_f0() {
    let cfg = config(2, 1, 3);
    let sel = selector(&cfg);
    let mut graph = BlockGraph::new(&cfg).unwrap();
    let g = genesis(&graph, &cfg);
    let now = Some(Slot::new(10, 1));
    // a chain that alternates between the two threads
    let (b1, blk1) = block(&cfg, &sel, Slot::new(1, 0), &g, Vec::new(), Vec::new());
    let (b2, blk2) = block(&cfg, &sel, Slot::new(1, 1), &[b1, g[1]], Vec::new(), Vec::new());
    let (b3, blk3) = block(&cfg, &sel, Slot::new(2, 0), &[b1, b2], Vec::new(), Vec::new());
    let (b4, blk4) = block(&cfg, &sel, Slot::new(2, 1), &[b3, b2], Vec::new(), Vec::new());
    let (b5, blk5) = block(&cfg, &sel, Slot::new(3, 0), &[b3, b4], Vec::new(), Vec::new());
    for (id, b) in [(b1, blk1), (b2, blk2), (b3, blk3), (b4, blk4)] {
        assert_eq!(graph.incoming_block(id, b, &sel, now), Admission::Integrated);
    }
    // three descendants of fitness one each do not exceed three
    assert_eq!(graph.get_state(&b1), Some(BlockState::Active));
    assert_eq!(graph.incoming_block(b5, blk5, &sel, now), Admission::Integrated);
    assert_eq!(graph.get_state(&b1), Some(BlockState::Final));
    assert_eq!(graph.get_state(&b2), Some(BlockState::Active));
    assert_eq!(graph.get_state(&b5), Some(BlockState::Active));
}

#[test]
fn fork_makes_two_cliques_and_finality_discards_the_loser() {
    let cfg = config(2, 1, 3);
    let sel = selector(&cfg);
    let mut graph = BlockGraph::new(&cfg).unwrap();
    let g = genesis(&graph, &cfg);
    let now = Some(Slot::new(10, 1));
    // a1 and a2 both follow the genesis block of thread 0
    let (a1, blk_a1) = block(&cfg, &sel, Slot::new(1, 0), &g, Vec::new(), Vec::new());
    let (a2, blk_a2) = block(&cfg, &sel, Slot::new(2, 0), &g, Vec::new(), Vec::new());
    assert_eq!(graph.incoming_block(a1, blk_a1, &sel, now), Admission::Integrated);
    assert_eq!(graph.incoming_block(a2, blk_a2, &sel, now), Admission::Integrated);
    let export = graph.export();
    assert_eq!(export.cliques.len(), 2);
    assert_eq!(export.cliques[0].members, vec![a1]);
    assert_eq!(export.cliques[1].members, vec![a2]);
    // of two cliques of the same fitness the one that comes later in the
    // order of the dictionary is the blockclique
    let best = if a1 < a2 { a2 } else { a1 };
    assert_eq!(export.best_parents, vec![best, g[1]]);
    // a block that names a2 and a descendant of a1 as parents cannot stand
    let (b1, blk_b1) = block(&cfg, &sel, Slot::new(1, 1), &[a1, g[1]], Vec::new(), Vec::new());
    assert_eq!(graph.incoming_block(b1, blk_b1, &sel, now), Admission::Integrated);
    let (x, blk_x) = block(&cfg, &sel, Slot::new(4, 1), &[a2, b1], Vec::new(), Vec::new());
    assert_eq!(
        graph.incoming_block(x, blk_x, &sel, now),
        Admission::Discarded(RejectReason::Incompatible)
    );
    // the chain on a1 grows until a1 is final: a2 is discarded
    let (b2, blk_b2) = block(&cfg, &sel, Slot::new(2, 1), &[a1, b1], Vec::new(), Vec::new());
    let (a3, blk_a3) = block(&cfg, &sel, Slot::new(3, 0), &[a1, b2], Vec::new(), Vec::new());
    let (b3, blk_b3) = block(&cfg, &sel, Slot::new(3, 1), &[a3, b2], Vec::new(), Vec::new());
    assert_eq!(graph.incoming_block(b2, blk_b2, &sel, now), Admission::Integrated);
    assert_eq!(graph.incoming_block(a3, blk_a3, &sel, now), Admission::Integrated);
    assert_eq!(graph.get_state(&a1), Some(BlockState::Active));
    assert_eq!(graph.get_state(&a2), Some(BlockState::Active));
    assert_eq!(graph.incoming_block(b3, blk_b3, &sel, now), Admission::Integrated);
    assert_eq!(graph.get_state(&a1), Some(BlockState::Final));
    assert_eq!(graph.get_state(&a2), Some(BlockState::Discarded));
    let export = graph.export();
    assert_eq!(export.cliques.len(), 1);
    assert_eq!(export.cliques[0].members, vec![b1, b2, a3, b3]);
    assert_eq!(export.best_parents, vec![a3, b3]);
    // every parent of an active block is active or final, and no two final
    // blocks have the same slot or the same predecessor in a thread
    let state = |id: &BlockId| export.blocks.iter().find(|b| &b.id == id).map(|b| b.state);
    for shown in export.blocks.iter().filter(|b| b.state == BlockState::Active) {
        for parent in &shown.header.as_ref().unwrap().parents {
            assert!(matches!(state(parent), Some(BlockState::Active) | Some(BlockState::Final)));
        }
    }
    let finals: Vec<&BlockHeader> = export
        .blocks
        .iter()
        .filter(|b| b.state == BlockState::Final)
        .map(|b| b.header.as_ref().unwrap())
        .collect();
    assert_eq!(finals.len(), 3);
    for (i, a) in finals.iter().enumerate() {
        for b in &finals[i + 1..] {
            assert_ne!(a.slot, b.slot);
            if a.slot.thread == b.slot.thread && a.slot.period > 0 && b.slot.period > 0 {
                assert_ne!(a.parents[a.slot.thread as usize], b.parents[b.slot.thread as usize]);
            }
        }
    }
    // what was queued for propagation and is discarded since is not handed out
    let handed: Vec<BlockId> = graph.get_blocks_to_propagate().iter().map(|p| p.0).collect();
    assert_eq!(handed, vec![a1, b1, b2, a3, b3]);
    // a block of a slot that is not after the latest final block is stale
    let (s, blk_s) = block(&cfg, &sel, Slot::new(1, 0), &g, vec![op(5)], Vec::new());
    assert_eq!(graph.incoming_block(s, blk_s, &sel, now), Admission::Discarded(RejectReason::Stale));
}

fn op(amount: u64) -> Operation {
    Operation { sender: public(1), kind: OperationKind::Transaction, amount }
}

#[test]
fn parents_must_stand_in_their_thread_and_come_before() {
    let cfg = config(2, 1, 3);
    let sel = selector(&cfg);
    let mut graph = BlockGraph::new(&cfg).unwrap();
    let g = genesis(&graph, &cfg);
    let now = Some(Slot::new(10, 1));
    let (a1, blk_a1) = block(&cfg, &sel, Slot::new(2, 0), &g, Vec::new(), Vec::new());
    assert_eq!(graph.incoming_block(a1, blk_a1, &sel, now), Admission::Integrated);
    // the parents in the wrong order of threads
    let (x, blk_x) = block(&cfg, &sel, Slot::new(3, 0), &[g[1], a1], Vec::new(), Vec::new());
    assert_eq!(
        graph.incoming_block(x, blk_x, &sel, now),
        Admission::Discarded(RejectReason::InvalidParents)
    );
    // a parent that does not come before the block
    let (y, blk_y) = block(&cfg, &sel, Slot::new(1, 1), &[a1, g[1]], Vec::new(), Vec::new());
    assert_eq!(
        graph.incoming_block(y, blk_y, &sel, now),
        Admission::Discarded(RejectReason::InvalidParents)
    );
    // a block on a discarded block is discarded
    let (z, blk_z) = block(&cfg, &sel, Slot::new(4, 1), &[a1, y], Vec::new(), Vec::new());
    assert_eq!(
        graph.incoming_block(z, blk_z, &sel, now),
        Admission::Discarded(RejectReason::InvalidParents)
    );
}

#[test]
fn waiting_blocks_follow_a_discarded_parent() {
    let cfg = config(2, 1, 3);
    let sel = selector(&cfg);
    let mut graph = BlockGraph::new(&cfg).unwrap();
    let g = genesis(&graph, &cfg);
    let now = Some(Slot::new(10, 1));
    let (p, mut parent) = block(&cfg, &sel, Slot::new(1, 0), &g, Vec::new(), Vec::new());
    let (c, child) = block(&cfg, &sel, Slot::new(2, 0), &[p, g[1]], Vec::new(), Vec::new());
    let (d, grandchild) = block(&cfg, &sel, Slot::new(3, 0), &[c, g[1]], Vec::new(), Vec::new());
    assert_eq!(graph.incoming_block(d, grandchild, &sel, now), Admission::Waiting);
    assert_eq!(graph.incoming_block(c, child, &sel, now), Admission::Waiting);
    assert_eq!(graph.get_block_wishlist(), vec![p]);
    // the parent arrives with a forged signature
    parent.header.signature.0[10] ^= 4;
    assert_eq!(
        graph.incoming_block(p, parent, &sel, now),
        Admission::Discarded(RejectReason::InvalidSignature)
    );
    assert_eq!(graph.get_state(&c), Some(BlockState::Discarded));
    assert_eq!(graph.get_state(&d), Some(BlockState::Discarded));
    assert!(graph.get_block_wishlist().is_empty());
    assert!(graph.get_blocks_to_propagate().is_empty());
}

#[test]
fn slot_tick_forgets_what_is_over() {
    let cfg = config(2, 1, 3);
    let sel = selector(&cfg);
    let mut graph = BlockGraph::new(&cfg).unwrap();
    let g = genesis(&graph, &cfg);
    // a block that is discarded in period 5
    let (x, mut blk_x) = block(&cfg, &sel, Slot::new(1, 0), &g, Vec::new(), Vec::new());
    blk_x.header.signature.0[0] ^= 1;
    assert_eq!(
        graph.incoming_block(x, blk_x, &sel, Some(Slot::new(5, 0))),
        Admission::Discarded(RejectReason::InvalidSignature)
    );
    // it is remembered for two periods
    graph.slot_tick(None);
    graph.slot_tick(Some(Slot::new(6, 0)));
    graph.slot_tick(Some(Slot::new(7, 1)));
    assert_eq!(graph.get_state(&x), Some(BlockState::Discarded));
    graph.slot_tick(Some(Slot::new(8, 0)));
    assert_eq!(graph.get_state(&x), None);
    // a hash that was heard of only stays while a waiting block names it
    let (p, _) = block(&cfg, &sel, Slot::new(1, 1), &g, Vec::new(), Vec::new());
    let (c, child) = block(&cfg, &sel, Slot::new(2, 1), &[g[0], p], Vec::new(), Vec::new());
    assert_eq!(graph.incoming_block(c, child, &sel, Some(Slot::new(8, 0))), Admission::Waiting);
    graph.slot_tick(Some(Slot::new(20, 0)));
    assert_eq!(graph.get_state(&p), Some(BlockState::Incoming));
    assert_eq!(graph.get_state(&c), Some(BlockState::WaitingForDeps));
    assert_eq!(graph.get_block_wishlist(), vec![p]);
}

#[test]
fn prune_hands_out_nothing_twice() {
    let mut cfg = config(2, 1, 3);
    cfg.force_keep_final_periods = 0;
    let sel = selector(&cfg);
    let mut graph = BlockGraph::new(&cfg).unwrap();
    let g = genesis(&graph, &cfg);
    let now = Some(Slot::new(10, 1));
    let (b1, blk1) = block(&cfg, &sel, Slot::new(1, 0), &g, Vec::new(), Vec::new());
    let (b2, blk2) = block(&cfg, &sel, Slot::new(1, 1), &[b1, g[1]], Vec::new(), Vec::new());
    let (b3, blk3) = block(&cfg, &sel, Slot::new(2, 0), &[b1, b2], Vec::new(), Vec::new());
    let (b4, blk4) = block(&cfg, &sel, Slot::new(2, 1), &[b3, b2], Vec::new(), Vec::new());
    let (b5, blk5) = block(&cfg, &sel, Slot::new(3, 0), &[b3, b4], Vec::new(), Vec::new());
    for (id, b) in [(b1, blk1), (b2, blk2), (b3, blk3), (b4, blk4), (b5, blk5)] {
        assert_eq!(graph.incoming_block(id, b, &sel, now), Admission::Integrated);
    }
    assert_eq!(graph.get_state(&b1), Some(BlockState::Final));
    // the genesis block of thread 0 lies behind b1 and no living block names it
    let out = graph.prune();
    assert_eq!(out.len(), 1);
    assert_eq!(out[0].0, g[0]);
    assert_eq!(out[0].1.header.slot, Slot::new(0, 0));
    assert_eq!(graph.get_state(&g[0]), None);
    assert_eq!(graph.get_state(&g[1]), Some(BlockState::Final));
    assert!(graph.prune().is_empty());
    assert!(graph.prune().is_empty());
    // with one more period to keep, nothing would have left
    cfg.force_keep_final_periods = 1;
    let mut kept = BlockGraph::new(&cfg).unwrap();
    let (b1, blk1) = block(&cfg, &sel, Slot::new(1, 0), &g, Vec::new(), Vec::new());
    let (b2, blk2) = block(&cfg, &sel, Slot::new(1, 1), &[b1, g[1]], Vec::new(), Vec::new());
    let (b3, blk3) = block(&cfg, &sel, Slot::new(2, 0), &[b1, b2], Vec::new(), Vec::new());
    let (b4, blk4) = block(&cfg, &sel, Slot::new(2, 1), &[b3, b2], Vec::new(), Vec::new());
    let (b5, blk5) = block(&cfg, &sel, Slot::new(3, 0), &[b3, b4], Vec::new(), Vec::new());
    for (id, b) in [(b1, blk1), (b2, blk2), (b3, blk3), (b4, blk4), (b5, blk5)] {
        assert_eq!(kept.incoming_block(id, b, &sel, now), Admission::Integrated);
    }
    assert!(kept.prune().is_empty());
}

#[test]
fn endorsements_add_to_the_fitness() {
    let cfg = config(2, 1, 3);
    let sel = selector(&cfg);
    let mut graph = BlockGraph::new(&cfg).unwrap();
    let g = genesis(&graph, &cfg);
    let now = Some(Slot::new(10, 1));
    let (b1, blk1) = block(&cfg, &sel, Slot::new(1, 0), &g, Vec::new(), Vec::new());
    // a block with three endorsements has the fitness four
    let endorse = |i: u32| Endorsement { slot: Slot::new(0, 1), index: i, endorsed_block: g[1] };
    let (b2, blk2) = block(
        &cfg,
        &sel,
        Slot::new(1, 1),
        &[b1, g[1]],
        Vec::new(),
        vec![endorse(0), endorse(1), endorse(2)],
    );
    assert_eq!(graph.incoming_block(b1, blk1, &sel, now), Admission::Integrated);
    assert_eq!(graph.incoming_block(b2, blk2, &sel, now), Admission::Integrated);
    assert_eq!(graph.get_state(&b1), Some(BlockState::Final));
    let export = graph.export();
    assert_eq!(export.cliques.len(), 1);
    assert_eq!(export.cliques[0].fitness, 4);
    assert_eq!(export.blocks.len(), 4);
    assert_eq!(export.blocks[2].id, b1);
    assert_eq!(export.blocks[2].header.as_ref().map(|h| h.slot), Some(Slot::new(1, 0)));
}

#[test]
fn created_block_is_taken_in() {
    let cfg = config(2, 1, 3);
    let sel = selector(&cfg);
    let mut graph = BlockGraph::new(&cfg).unwrap();
    let g = genesis(&graph, &cfg);
    assert_eq!(graph.best_parents(), g);
    let (id, blk) = graph.create_block(vec![op(9)], Slot::new(1, 1), &key(1));
    assert_eq!(blk.header.parents, g);
    assert_eq!(blk.header.operations_root, compute_operations_root(&blk.operations));
    assert_eq!(graph.incoming_block(id, blk, &sel, Some(Slot::new(1, 1))), Admission::Integrated);
    assert_eq!(graph.best_parents(), vec![g[0], id]);
}

#[test]
fn structure_is_judged_from_the_header_and_what_was_computed() {
    let cfg = config(2, 1, 3);
    let sel = selector(&cfg);
    let graph = BlockGraph::new(&cfg).unwrap();
    let g = genesis(&graph, &cfg);
    let (_, good) = block(&cfg, &sel, Slot::new(1, 1), &g, Vec::new(), Vec::new());
    let h = &good.header;
    assert_eq!(judge_structure(2, 4, h, true, true, true), None);
    assert_eq!(judge_structure(2, 4, h, true, true, false), Some(RejectReason::InvalidSignature));
    assert_eq!(judge_structure(2, 4, h, false, true, true), Some(RejectReason::Malformed));
    assert_eq!(judge_structure(2, 4, h, true, false, true), Some(RejectReason::Malformed));
    assert_eq!(judge_structure(2, 4, h, false, false, false), Some(RejectReason::Malformed));
    // thread 1 does not exist in one thread; two parents are not three
    assert_eq!(judge_structure(1, 4, h, true, true, true), Some(RejectReason::Malformed));
    assert_eq!(judge_structure(3, 4, h, true, true, true), Some(RejectReason::Malformed));
    let (_, early) = block(&cfg, &sel, Slot::new(0, 1), &g, Vec::new(), Vec::new());
    assert_eq!(judge_structure(2, 4, &early.header, true, true, true), Some(RejectReason::Malformed));
}

#[test]
fn policy_is_judged_from_the_index_that_was_drawn() {
    let cfg = config(2, 2, 3);
    let sel = selector(&cfg);
    let mut graph = BlockGraph::new(&cfg).unwrap();
    let g = genesis(&graph, &cfg);
    let slot = Slot::new(1, 0);
    let drawn = sel.draw(slot);
    let (a, first) = block(&cfg, &sel, slot, &g, Vec::new(), Vec::new());
    assert_eq!(graph.check_policy(&a, &first.header, drawn), None);
    assert_eq!(graph.check_policy(&a, &first.header, 1 - drawn), Some(RejectReason::WrongCreator));
    assert_eq!(graph.check_policy(&a, &first.header, 2), Some(RejectReason::UnknownDraw));
    assert_eq!(graph.incoming_block(a, first.clone(), &sel, Some(slot)), Admission::Integrated);
    // the same block is no attack on itself, another block of the slot is
    assert_eq!(graph.check_policy(&a, &first.header, drawn), None);
    let (b, second) = block(&cfg, &sel, slot, &g, vec![op(1)], Vec::new());
    assert_eq!(graph.check_policy(&b, &second.header, drawn), Some(RejectReason::Attack));
    // a header of period 0 is not after the genesis block
    let (c, third) = block(&cfg, &sel, Slot::new(0, 0), &g, Vec::new(), Vec::new());
    let drawn = sel.draw(Slot::new(0, 0));
    assert_eq!(graph.check_policy(&c, &third.header, drawn), Some(RejectReason::Stale));
}

#[test]
fn cliques_split_where_a_block_cannot_stand_with_a_member() {
    let cfg = config(2, 1, 100);
    let sel = selector(&cfg);
    let mut graph = BlockGraph::new(&cfg).unwrap();
    let g = genesis(&graph, &cfg);
    let now = Some(Slot::new(10, 1));
    let members = |graph: &BlockGraph| -> Vec<Vec<BlockId>> {
        graph.export().cliques.iter().map(|c| c.members.clone()).collect()
    };
    // a1 and a2 fork thread 0; y stands with both
    let (a1, blk_a1) = block(&cfg, &sel, Slot::new(1, 0), &g, Vec::new(), Vec::new());
    let (a2, blk_a2) = block(&cfg, &sel, Slot::new(2, 0), &g, Vec::new(), Vec::new());
    let (y, blk_y) = block(&cfg, &sel, Slot::new(1, 1), &g, Vec::new(), Vec::new());
    for (id, b) in [(a1, blk_a1), (a2, blk_a2), (y, blk_y)] {
        assert_eq!(graph.incoming_block(id, b, &sel, now), Admission::Integrated);
    }
    assert_eq!(members(&graph), vec![vec![a1, y], vec![a2, y]]);
    // x follows a1 and forks thread 1 beside y: it stands with a1 alone
    let (x, blk_x) = block(&cfg, &sel, Slot::new(2, 1), &[a1, g[1]], Vec::new(), Vec::new());
    assert_eq!(graph.incoming_block(x, blk_x, &sel, now), Admission::Integrated);
    assert_eq!(members(&graph), vec![vec![a1, y], vec![a2, y], vec![a1, x]]);
    // b follows a1 in thread 0: it stands with a1, x and y, not with a2
    let (b, blk_b) = block(&cfg, &sel, Slot::new(3, 0), &[a1, g[1]], Vec::new(), Vec::new());
    assert_eq!(graph.incoming_block(b, blk_b, &sel, now), Admission::Integrated);
    assert_eq!(members(&graph), vec![vec![a1, y, b], vec![a2, y], vec![a1, x, b]]);
    let export = graph.export();
    let fitness: Vec<u128> = export.cliques.iter().map(|c| c.fitness).collect();
    assert_eq!(fitness, vec![3, 2, 3]);
    // of the two fittest cliques the later in the order of the dictionary is
    // the blockclique; its latest blocks are the best parents
    let first = vec![a1, y, b];
    let third = vec![a1, x, b];
    let best = if first > third { first } else { third };
    assert_eq!(export.best_parents, vec![b, best[1]]);
}

#[test]
fn draw_that_names_no_node_is_refused() {
    let cfg = config(2, 2, 3);
    let mut graph = BlockGraph::new(&cfg).unwrap();
    let g = genesis(&graph, &cfg);
    // a selector with all the weight on a third participant
    let wide = RandomSelector::new(&vec![0u8; 32], 2, vec![0, 0, 1]).unwrap();
    let root = compute_operations_root(&Vec::new());
    let slot = Slot::new(1, 0);
    let (id, header) = BlockHeader::new_signed(&cfg.nodes[0].1, slot, g.clone(), root, Vec::new());
    assert_eq!(
        graph.incoming_header(id, header, &wide, Some(slot)),
        Admission::Discarded(RejectReason::UnknownDraw)
    );
    assert_eq!(graph.get_state(&id), Some(BlockState::Discarded));
}

#[test]
fn slot_tick_leaves_the_queues_and_the_settled_blocks() {
    let cfg = config(2, 1, 3);
    let sel = selector(&cfg);
    let mut graph = BlockGraph::new(&cfg).unwrap();
    let g = genesis(&graph, &cfg);
    let now = Some(Slot::new(3, 0));
    let (a, blk_a) = block(&cfg, &sel, Slot::new(1, 0), &g, Vec::new(), Vec::new());
    let (b, blk_b) = block(&cfg, &sel, Slot::new(1, 1), &[a, g[1]], Vec::new(), Vec::new());
    assert_eq!(graph.incoming_block(a, blk_a.clone(), &sel, now), Admission::Integrated);
    assert_eq!(graph.incoming_block(b, blk_b.clone(), &sel, now), Admission::Integrated);
    // a header that waits for a parent nobody has
    let (p, _) = block(&cfg, &sel, Slot::new(2, 0), &[a, b], Vec::new(), Vec::new());
    let (c, child) = block(&cfg, &sel, Slot::new(3, 0), &[p, b], Vec::new(), Vec::new());
    assert_eq!(graph.incoming_header(c, child.header, &sel, now), Admission::Waiting);
    let before = graph.export();
    graph.slot_tick(Some(Slot::new(3, 1)));
    graph.slot_tick(Some(Slot::new(4, 0)));
    let after = graph.export();
    assert_eq!(before, after);
    assert_eq!(graph.get_state(&a), Some(BlockState::Active));
    assert_eq!(graph.get_state(&c), Some(BlockState::WaitingForDeps));
    // what was queued before the ticks is queued after them, in its order
    assert_eq!(graph.get_blocks_to_propagate(), vec![(a, blk_a), (b, blk_b)]);
    assert!(graph.get_attack_attempts().is_empty());
}

#[test]
fn refused_block_leaves_the_others_as_they_are() {
    let cfg = config(2, 1, 3);
    let sel = selector(&cfg);
    let mut graph = BlockGraph::new(&cfg).unwrap();
    let g = genesis(&graph, &cfg);
    let now = Some(Slot::new(5, 0));
    let (a, blk_a) = block(&cfg, &sel, Slot::new(1, 0), &g, Vec::new(), Vec::new());
    let (w, waiting) = block(&cfg, &sel, Slot::new(1, 1), &g, Vec::new(), Vec::new());
    assert_eq!(graph.incoming_block(a, blk_a, &sel, now), Admission::Integrated);
    assert_eq!(graph.incoming_header(w, waiting.header, &sel, now), Admission::Waiting);
    assert_eq!(graph.get_blocks_to_propagate().len(), 1);
    let before = graph.export();
    // a second block of the creator of `a` for its slot
    let (x, blk_x) = block(&cfg, &sel, Slot::new(1, 0), &g, vec![op(3)], Vec::new());
    assert_eq!(graph.incoming_block(x, blk_x, &sel, now), Admission::Discarded(RejectReason::Attack));
    let after = graph.export();
    assert_eq!(after.blocks.len(), before.blocks.len() + 1);
    assert_eq!(after.blocks[..before.blocks.len()], before.blocks[..]);
    assert_eq!(after.cliques, before.cliques);
    assert_eq!(after.best_parents, before.best_parents);
    assert_eq!(graph.get_state(&a), Some(BlockState::Active));
    assert_eq!(graph.get_state(&w), Some(BlockState::WaitingForDeps));
    assert!(graph.get_blocks_to_propagate().is_empty());
}

#[test]
fn slot_tick_discards_what_waits_for_a_slot_that_is_over_and_what_hangs_on_it() {
    let cfg = config(2, 1, 0);
    let sel = selector(&cfg);
    let mut graph = BlockGraph::new(&cfg).unwrap();
    let g = genesis(&graph, &cfg);
    let now = Some(Slot::new(6, 0));
    // a block that nobody hands in, and a block that waits for it
    let (x, _) = block(&cfg, &sel, Slot::new(1, 0), &g, vec![op(1)], Vec::new());
    let (w, waiting) = block(&cfg, &sel, Slot::new(1, 1), &[x, g[1]], Vec::new(), Vec::new());
    assert_eq!(graph.incoming_block(w, waiting, &sel, now), Admission::Waiting);
    assert_eq!(graph.get_state(&x), Some(BlockState::Incoming));
    // the chain goes on without them, and becomes final
    let (b1, blk1) = block(&cfg, &sel, Slot::new(1, 0), &g, Vec::new(), Vec::new());
    let (b2, blk2) = block(&cfg, &sel, Slot::new(2, 1), &[b1, g[1]], Vec::new(), Vec::new());
    let (b3, blk3) = block(&cfg, &sel, Slot::new(3, 0), &[b1, b2], Vec::new(), Vec::new());
    for (id, b) in [(b1, blk1), (b2, blk2), (b3, blk3)] {
        assert_eq!(graph.incoming_block(id, b, &sel, now), Admission::Integrated);
    }
    assert_eq!(graph.get_state(&b2), Some(BlockState::Final));
    // a block that waits for the block that waits
    let (c, child) = block(&cfg, &sel, Slot::new(5, 1), &[b3, w], Vec::new(), Vec::new());
    assert_eq!(graph.incoming_block(c, child, &sel, now), Admission::Waiting);
    // a block that waits for its operations, in a slot that can still be filled
    let (d, other) = block(&cfg, &sel, Slot::new(4, 1), &[b3, b2], vec![op(2)], Vec::new());
    assert_eq!(graph.incoming_header(d, other.header, &sel, now), Admission::Waiting);
    assert_eq!(graph.get_block_wishlist(), vec![x]);
    let queued = graph.get_blocks_to_propagate().len();
    assert_eq!(queued, 3);
    graph.slot_tick(Some(Slot::new(6, 1)));
    // the slot (1, 1) lies behind the latest final block of its thread
    assert_eq!(graph.get_state(&w), Some(BlockState::Discarded));
    assert_eq!(graph.get_state(&c), Some(BlockState::Discarded));
    assert_eq!(graph.get_state(&d), Some(BlockState::WaitingForDeps));
    // nobody waits for the missing block any more
    assert_eq!(graph.get_state(&x), None);
    assert!(graph.get_block_wishlist().is_empty());
    assert_eq!(graph.get_state(&b3), Some(BlockState::Active));
    assert!(graph.get_blocks_to_propagate().is_empty());
}

#[test]
fn every_active_block_stands_in_a_clique() {
    let cfg = config(2, 1, 3);
    let sel = selector(&cfg);
    let mut graph = BlockGraph::new(&cfg).unwrap();
    let g = genesis(&graph, &cfg);
    let now = Some(Slot::new(10, 1));
    let covered = |graph: &BlockGraph| {
        let export = graph.export();
        for b in export.blocks.iter().filter(|b| b.state == BlockState::Active) {
            assert!(export.cliques.iter().any(|c| c.members.contains(&b.id)), "{:?}", b.id);
        }
        for c in export.cliques.iter() {
            assert!(!c.members.is_empty());
            for m in c.members.iter() {
                assert_eq!(graph.get_state(m), Some(BlockState::Active));
            }
        }
        export.cliques.len()
    };
    assert_eq!(covered(&graph), 0);
    // a chain, and a block beside it that names the genesis blocks again
    let (b1, blk1) = block(&cfg, &sel, Slot::new(1, 0), &g, Vec::new(), Vec::new());
    let (b2, blk2) = block(&cfg, &sel, Slot::new(1, 1), &[b1, g[1]], Vec::new(), Vec::new());
    let (b3, blk3) = block(&cfg, &sel, Slot::new(2, 0), &[b1, b2], Vec::new(), Vec::new());
    let (f, fork) = block(&cfg, &sel, Slot::new(2, 1), &[g[0], g[1]], Vec::new(), Vec::new());
    let (b4, blk4) = block(&cfg, &sel, Slot::new(3, 1), &[b3, b2], Vec::new(), Vec::new());
    let (b5, blk5) = block(&cfg, &sel, Slot::new(3, 0), &[b3, b2], Vec::new(), Vec::new());
    let (b6, blk6) = block(&cfg, &sel, Slot::new(4, 1), &[b5, b4], Vec::new(), Vec::new());
    let mut most = 0;
    for (id, b) in [(b1, blk1), (b2, blk2), (f, fork), (b3, blk3), (b4, blk4), (b5, blk5), (b6, blk6)] {
        let out = graph.incoming_block(id, b, &sel, now);
        assert!(out == Admission::Integrated || matches!(out, Admission::Discarded(_)), "{:?}", out);
        most = most.max(covered(&graph));
    }
    // the block beside the chain stood in a clique of its own
    assert!(most >= 2);
    graph.slot_tick(Some(Slot::new(11, 0)));
    graph.prune();
    covered(&graph);
}
