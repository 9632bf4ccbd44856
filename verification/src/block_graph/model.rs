//! What the graph holds and what is said of it: the states, the entries,
//! and the conditions that the entries meet.

use crate::block::{
    BlockHeader, BlockId, header_encoding, header_id, header_signed, HeaderView, Operation,
    operations_root,
};
use crate::signature::{ed25519_public_key, ed25519_signature, PrivateKey};
use crate::slot::Slot;
use vstd::prelude::*;

verus! {

/// The state of a hash that the graph knows.
#[derive(Clone, Copy, Debug, PartialEq, Eq, Structural)]
pub enum BlockState {
    /// Heard of, no header yet.
    Incoming,
    /// Header known; a parent or the block's own operations are missing.
    WaitingForDeps,
    /// All parents are active or final.
    Active,
    /// Decided.
    Final,
    /// Rejected; remembered for a while so that it is not taken in again.
    Discarded,
}

/// Why a block is discarded on arrival.
#[derive(Clone, Copy, Debug, PartialEq, Eq, Structural)]
pub enum RejectReason {
    /// The thread does not exist, the period is 0, the parents are not one
    /// per thread, the endorsements are out of range, repeated or endorse
    /// another block than the predecessor, the hash is not the hash of the
    /// header, or the operations do not have the root that the header
    /// names.
    Malformed,
    /// The signature is not the creator's.
    InvalidSignature,
    /// The selector drew an index that names no node.
    UnknownDraw,
    /// The creator is not the node drawn for the slot.
    WrongCreator,
    /// The slot is not after the latest final block of its thread.
    Stale,
    /// The creator has already signed another block for the slot.
    Attack,
    /// A parent is discarded, stands in the wrong thread, or does not come
    /// before the block.
    InvalidParents,
    /// The block or one of its ancestors cannot stand beside another of
    /// its ancestors or beside a final block.
    Incompatible,
}

/// What became of a header or a block that was handed to the graph.
#[derive(Clone, Copy, Debug, PartialEq, Eq, Structural)]
pub enum Admission {
    /// The hash was known and nothing new was learned; nothing changed.
    AlreadyKnown,
    /// The slot has not begun; nothing changed.
    FutureSlot,
    /// The block is discarded.
    Discarded(RejectReason),
    /// The block waits for a parent or for its operations.
    Waiting,
    /// The block is active, or already final.
    Integrated,
}

/// Where a block stands in its thread: its identifier, its slot and its
/// predecessor in the thread (none for a genesis block).
#[derive(Clone, Copy, Debug, PartialEq, Eq)]
pub struct Link {
    pub id: BlockId,
    pub slot: Slot,
    pub parent: Option<BlockId>,
}

/// Whether two blocks cannot both stand in one thread: they are distinct
/// blocks of the same thread and either share the slot or share the
/// predecessor.
pub open spec fn direct_conflict(a: Link, b: Link) -> bool {
    a.id != b.id && a.slot.thread == b.slot.thread && (a.slot.period == b.slot.period || (
    a.parent is Some && a.parent == b.parent))
}

/// Whether two lineages hold blocks that cannot both stand in one thread.
pub open spec fn lineages_conflict(a: Seq<Link>, b: Seq<Link>) -> bool {
    exists|i: int, j: int|
        0 <= i < a.len() && 0 <= j < b.len() && direct_conflict(#[trigger] a[i], #[trigger] b[j])
}

/// The link of the block `id` with header `h`.
pub open spec fn link_of(id: BlockId, h: HeaderView) -> Link {
    Link {
        id,
        slot: h.slot,
        parent: if h.slot.thread < h.parents.len() {
            Some(h.parents[h.slot.thread as int])
        } else {
            None
        },
    }
}

/// What the graph holds for one hash.
pub struct Entry {
    pub id: BlockId,
    pub state: BlockState,
    pub header: Option<BlockHeader>,
    pub operations: Option<Vec<Operation>>,
    /// The link of the block and the links of the ancestors that were
    /// active when the block became active.
    pub lineage: Vec<Link>,
    /// The period in which the entry was discarded.
    pub stamp: u64,
}

impl Entry {
    /// Whether the entry is active or final.
    pub open spec fn settled(&self) -> bool {
        self.state == BlockState::Active || self.state == BlockState::Final
    }

    /// The header of the entry.
    pub open spec fn head(&self) -> HeaderView {
        self.header->0@
    }

    /// Whether the entry is consistent with its state.
    pub open spec fn well_formed(&self, thread_count: u8) -> bool {
        &&& self.state == BlockState::Incoming ==> self.header is None
        &&& (self.state == BlockState::WaitingForDeps || self.settled()) ==> self.header is Some
        &&& self.header is Some ==> self.id@ == header_id(self.head()) && self.head().slot.thread
            < thread_count
        &&& self.state == BlockState::WaitingForDeps ==> self.head().parents.len() == thread_count
        &&& self.settled() ==> {
            &&& self.operations is Some
            &&& self.lineage@.len() >= 1
            &&& self.lineage@[0] == link_of(self.id, self.head())
        }
        &&& self.state == BlockState::Active ==> self.head().parents.len() == thread_count
    }
}

/// One maximal set of mutually compatible active blocks.
pub struct Clique {
    pub members: Vec<BlockId>,
}

/// The index of the entry of `id`, if there is one.
pub open spec fn position(entries: Seq<Entry>, id: BlockId) -> Option<int> {
    if exists|i: int| 0 <= i < entries.len() && entries[i].id == id {
        Some(choose|i: int| 0 <= i < entries.len() && entries[i].id == id)
    } else {
        None
    }
}

/// Whether `id` is the identifier of an active or final entry.
pub open spec fn is_settled(entries: Seq<Entry>, id: BlockId) -> bool {
    exists|j: int| 0 <= j < entries.len() && #[trigger] entries[j].id == id && entries[j].settled()
}

/// No identifier occurs twice.
pub open spec fn ids_unique(entries: Seq<Entry>) -> bool {
    forall|i: int, j: int|
        0 <= i < j < entries.len() ==> #[trigger] entries[i].id != #[trigger] entries[j].id
}

/// Every parent of an active block is active or final.
#[verifier::opaque]
pub open spec fn parents_settled(entries: Seq<Entry>) -> bool {
    forall|i: int, k: int|
        0 <= i < entries.len() && entries[i].state == BlockState::Active && 0 <= k
            < entries[i].head().parents.len() ==> is_settled(
            entries,
            #[trigger] entries[i].head().parents[k],
        )
}

/// Whether a final block names `id` as a parent.
pub open spec fn named_by_final(entries: Seq<Entry>, id: BlockId) -> bool {
    exists|j: int|
        0 <= j < entries.len() && (#[trigger] entries[j]).state == BlockState::Final && holds(
            entries[j].head().parents,
            id,
        )
}

/// No final block has a parent that waits or is active: a parent of a final
/// block is final, unless it has left the memory.
#[verifier::opaque]
pub open spec fn finals_rooted(entries: Seq<Entry>) -> bool {
    forall|p: int|
        0 <= p < entries.len() && ((#[trigger] entries[p]).state == BlockState::WaitingForDeps
            || entries[p].state == BlockState::Active) ==> !named_by_final(entries, entries[p].id)
}

/// No two final blocks conflict.
#[verifier::opaque]
pub open spec fn finals_agree(entries: Seq<Entry>) -> bool {
    forall|i: int, j: int|
        0 <= i < entries.len() && 0 <= j < entries.len() && entries[i].state == BlockState::Final
            && entries[j].state == BlockState::Final ==> !direct_conflict(
            #[trigger] entries[i].lineage@[0],
            #[trigger] entries[j].lineage@[0],
        )
}

/// No block in the lineage of an active block conflicts with a final block.
#[verifier::opaque]
pub open spec fn actives_respect_finals(entries: Seq<Entry>) -> bool {
    forall|i: int, j: int, n: int|
        0 <= i < entries.len() && 0 <= j < entries.len() && entries[i].state == BlockState::Active
            && entries[j].state == BlockState::Final && 0 <= n < entries[i].lineage@.len()
            ==> !direct_conflict(
            #[trigger] entries[i].lineage@[n],
            #[trigger] entries[j].lineage@[0],
        )
}

/// Whether `link` occurs in `lineage`.
pub open spec fn in_lineage(lineage: Seq<Link>, link: Link) -> bool {
    exists|n: int| 0 <= n < lineage.len() && #[trigger] lineage[n] == link
}

/// The lineage of an active block holds the lineage of each of its active
/// parents.
#[verifier::opaque]
pub open spec fn lineages_closed(entries: Seq<Entry>) -> bool {
    forall|i: int, j: int, n: int|
        #![trigger entries[i].lineage@, entries[j].lineage@[n]]
        0 <= i < entries.len() && 0 <= j < entries.len() && entries[i].state == BlockState::Active
            && entries[j].state == BlockState::Active && 0 <= n < entries[j].lineage@.len() && (
        exists|k: int|
            0 <= k < entries[i].head().parents.len() && #[trigger] entries[i].head().parents[k]
                == entries[j].id) ==> in_lineage(entries[i].lineage@, entries[j].lineage@[n])
}

/// Whether the endorsements of `h` are at most `endorsement_count`, carry
/// distinct indices below `endorsement_count`, and endorse the predecessor
/// of the block in its thread.
pub open spec fn endorsements_ok(h: HeaderView, endorsement_count: u32) -> bool {
    &&& h.endorsements.len() <= endorsement_count
    &&& forall|i: int|
        0 <= i < h.endorsements.len() ==> (#[trigger] h.endorsements[i]).index < endorsement_count
            && h.endorsements[i].endorsed_block == h.parents[h.slot.thread as int]
    &&& forall|i: int, j: int|
        0 <= i < j < h.endorsements.len() ==> (#[trigger] h.endorsements[i]).index != (
        #[trigger] h.endorsements[j]).index
}

/// What is wrong with a header, and with the operations that came with it,
/// whatever the graph holds.
pub open spec fn structure_fault(
    thread_count: u8,
    endorsement_count: u32,
    id: BlockId,
    h: HeaderView,
    operations: Option<Seq<Operation>>,
) -> Option<RejectReason> {
    if h.slot.thread >= thread_count || h.slot.period == 0 || h.parents.len() != thread_count
        || !endorsements_ok(h, endorsement_count) || id@ != header_id(h) {
        Some(RejectReason::Malformed)
    } else if operations is Some && operations_root(operations->0) != h.operations_root@ {
        Some(RejectReason::Malformed)
    } else if !header_signed(h) {
        Some(RejectReason::InvalidSignature)
    } else {
        None
    }
}

/// What the parents of a header allow.
#[derive(Clone, Copy, Debug, PartialEq, Eq, Structural)]
pub enum Review {
    /// A parent is discarded, stands in the wrong thread or does not come
    /// before the block.
    Invalid,
    /// No parent is at fault, and one is unknown, incoming or waiting.
    Pending,
    /// Every parent is active or final, in its thread, before the block.
    Ready,
}

/// Whether the parent of `h` in thread `k` rules the block out.
pub open spec fn parent_fault(entries: Seq<Entry>, h: HeaderView, k: int) -> bool {
    match position(entries, h.parents[k]) {
        Some(j) => entries[j].state == BlockState::Discarded || (entries[j].settled() && !(
        entries[j].head().slot.thread == k && entries[j].head().slot.precedes(h.slot))),
        None => false,
    }
}

/// Whether the parent of `h` in thread `k` is still missing.
pub open spec fn parent_pending(entries: Seq<Entry>, h: HeaderView, k: int) -> bool {
    match position(entries, h.parents[k]) {
        Some(j) => entries[j].state == BlockState::Incoming || entries[j].state
            == BlockState::WaitingForDeps,
        None => true,
    }
}

/// What the parents of `h` allow.
pub open spec fn parents_review(entries: Seq<Entry>, h: HeaderView) -> Review {
    if exists|k: int| 0 <= k < h.parents.len() && parent_fault(entries, h, k) {
        Review::Invalid
    } else if exists|k: int| 0 <= k < h.parents.len() && parent_pending(entries, h, k) {
        Review::Pending
    } else {
        Review::Ready
    }
}

/// Whether `link` is the link of the block `id` with header `h`, or stands
/// in the lineage of one of its active parents.
pub open spec fn in_ancestry(entries: Seq<Entry>, id: BlockId, h: HeaderView, link: Link) -> bool {
    link == link_of(id, h) || exists|k: int, j: int, n: int|
        0 <= k < h.parents.len() && 0 <= j < entries.len() && #[trigger] h.parents[k]
            == entries[j].id && entries[j].state == BlockState::Active && 0 <= n
            < entries[j].lineage@.len() && #[trigger] entries[j].lineage@[n] == link
}

/// `in_ancestry`, with the parents limited to the threads below `threads`.
pub open spec fn in_ancestry_below(
    entries: Seq<Entry>,
    id: BlockId,
    h: HeaderView,
    threads: int,
    link: Link,
) -> bool {
    link == link_of(id, h) || exists|k: int, j: int, n: int|
        0 <= k < threads && 0 <= j < entries.len() && #[trigger] h.parents[k] == entries[j].id
            && entries[j].state == BlockState::Active && 0 <= n < entries[j].lineage@.len()
            && #[trigger] entries[j].lineage@[n] == link
}

/// Whether the block `id` with header `h` cannot become active: two blocks
/// of its ancestry conflict, or the block conflicts with a final block.
pub open spec fn incompatible(entries: Seq<Entry>, id: BlockId, h: HeaderView) -> bool {
    ||| exists|a: Link, b: Link|
        in_ancestry(entries, id, h, a) && in_ancestry(entries, id, h, b) && direct_conflict(a, b)
    ||| exists|j: int|
        0 <= j < entries.len() && #[trigger] entries[j].state == BlockState::Final
            && direct_conflict(link_of(id, h), entries[j].lineage@[0])
}

/// Whether no waiting block could move on: each waits for a parent, or has
/// all its parents and waits for its operations.
#[verifier::opaque]
pub open spec fn waiting_rest(entries: Seq<Entry>) -> bool {
    forall|i: int|
        0 <= i < entries.len() && (#[trigger] entries[i]).state == BlockState::WaitingForDeps ==> {
            let review = parents_review(entries, entries[i].head());
            review == Review::Pending || (review == Review::Ready && entries[i].operations is None)
        }
}

/// The number of entries in state `state`.
pub open spec fn count_state(entries: Seq<Entry>, state: BlockState) -> nat
    decreases entries.len(),
{
    if entries.len() == 0 {
        0
    } else {
        count_state(entries.drop_last(), state) + if entries.last().state == state {
            1nat
        } else {
            0nat
        }
    }
}

/// The number of waiting entries.
pub open spec fn count_waiting(entries: Seq<Entry>) -> nat {
    count_state(entries, BlockState::WaitingForDeps)
}

/// Whether an entry may pass from state `a` to state `b`: it may stay, move
/// forward, or be discarded unless it is final.
pub open spec fn step_allowed(a: BlockState, b: BlockState) -> bool {
    a == b || match a {
        BlockState::Incoming => true,
        BlockState::WaitingForDeps => b != BlockState::Incoming,
        BlockState::Active => b == BlockState::Final || b == BlockState::Discarded,
        BlockState::Final => false,
        BlockState::Discarded => false,
    }
}

/// Whether `after` holds the entries of `before`, in place, each in a state
/// that it may have passed to, and possibly more entries behind them.
pub open spec fn grown(before: Seq<Entry>, after: Seq<Entry>) -> bool {
    &&& before.len() <= after.len()
    &&& forall|i: int|
        0 <= i < before.len() ==> (#[trigger] after[i]).id == before[i].id && step_allowed(
            before[i].state,
            after[i].state,
        )
}

/// Whether a change of `a` into `b` leaves every review as it was: a
/// missing entry stays missing, a discarded one discarded, and a settled one
/// settled in its slot.
pub open spec fn same_standing(a: Entry, b: Entry) -> bool {
    &&& a.id == b.id
    &&& (a.state == BlockState::Incoming || a.state == BlockState::WaitingForDeps) == (b.state
        == BlockState::Incoming || b.state == BlockState::WaitingForDeps)
    &&& (a.state == BlockState::Discarded) == (b.state == BlockState::Discarded)
    &&& a.settled() ==> b.head().slot == a.head().slot
}

/// Whether every identifier of `queue` is the identifier of an active or
/// final entry.
#[verifier::opaque]
pub open spec fn queue_ok(entries: Seq<Entry>, queue: Seq<BlockId>) -> bool {
    forall|q: int| 0 <= q < queue.len() ==> is_settled(entries, #[trigger] queue[q])
}

/// Whether what was queued and is active or final among `after` is still
/// queued.
pub open spec fn queue_kept(after: Seq<Entry>, queue_before: Seq<BlockId>, queue_after: Seq<BlockId>) -> bool {
    forall|id: BlockId|
        holds(queue_before, id) && is_settled(after, id) ==> #[trigger] holds(queue_after, id)
}

/// Whether each thread's latest final block is a final entry, and no final
/// entry of the thread has a later period.
#[verifier::opaque]
pub open spec fn latest_ok(entries: Seq<Entry>, latest: Seq<Link>, thread_count: u8) -> bool {
    &&& latest.len() == thread_count
    &&& forall|t: int|
        #![trigger latest[t]]
        0 <= t < thread_count ==> latest[t].slot.thread == t && exists|j: int|
            0 <= j < entries.len() && #[trigger] entries[j].state == BlockState::Final
                && entries[j].lineage@[0] == latest[t]
    &&& forall|j: int|
        0 <= j < entries.len() && #[trigger] entries[j].state == BlockState::Final
            ==> entries[j].head().slot.thread < thread_count && entries[j].head().slot.period
            <= latest[entries[j].head().slot.thread as int].slot.period
}

/// Whether the entry `e`, if it waits, could not move on in `entries`.
pub open spec fn at_rest(entries: Seq<Entry>, e: Entry) -> bool {
    e.state == BlockState::WaitingForDeps ==> {
        let review = parents_review(entries, e.head());
        review == Review::Pending || (review == Review::Ready && e.operations is None)
    }
}

/// What is to be done with an entry.
pub enum Act {
    /// Nothing.
    Keep,
    /// It is to be discarded.
    Drop(RejectReason),
    /// It is to become active with this lineage.
    Raise(Vec<Link>),
}

/// Whether `id` is the identifier of an active entry.
pub open spec fn is_active(entries: Seq<Entry>, id: BlockId) -> bool {
    exists|j: int|
        0 <= j < entries.len() && #[trigger] entries[j].id == id && entries[j].state
            == BlockState::Active
}

/// Whether `id` occurs in `members`.
pub open spec fn holds(members: Seq<BlockId>, id: BlockId) -> bool {
    exists|m: int| 0 <= m < members.len() && #[trigger] members[m] == id
}

/// Whether every member of every clique is an active block.
#[verifier::opaque]
pub open spec fn cliques_ok(entries: Seq<Entry>, cliques: Seq<Clique>) -> bool {
    forall|c: int, m: int|
        0 <= c < cliques.len() && 0 <= m < cliques[c].members@.len() ==> is_active(
            entries,
            #[trigger] cliques[c].members@[m],
        )
}

/// The lineage stored for the block `id`; empty where the graph does not
/// know the hash.
pub open spec fn lineage_of(entries: Seq<Entry>, id: BlockId) -> Seq<Link> {
    match position(entries, id) {
        Some(j) => entries[j].lineage@,
        None => Seq::empty(),
    }
}

/// Whether the blocks `a` and `b` can stand in one clique: no block of the
/// lineage of one conflicts with a block of the lineage of the other.
pub open spec fn stand_together(entries: Seq<Entry>, a: BlockId, b: BlockId) -> bool {
    !lineages_conflict(lineage_of(entries, a), lineage_of(entries, b))
}

/// Whether every clique holds each of its members once, and its members can
/// all stand together.
#[verifier::opaque]
pub open spec fn cliques_agree(entries: Seq<Entry>, cliques: Seq<Clique>) -> bool {
    forall|c: int, m: int, n: int|
        #![trigger cliques[c].members@[m], cliques[c].members@[n]]
        0 <= c < cliques.len() && 0 <= m < n < cliques[c].members@.len()
            ==> cliques[c].members@[m] != cliques[c].members@[n] && stand_together(
            entries,
            cliques[c].members@[m],
            cliques[c].members@[n],
        )
}

/// Whether `members` could be a clique: each is an active block, none occurs
/// twice, and any two can stand together.
pub open spec fn good_clique(entries: Seq<Entry>, members: Seq<BlockId>) -> bool {
    &&& forall|a: int| 0 <= a < members.len() ==> is_active(entries, #[trigger] members[a])
    &&& forall|m: int, n: int|
        #![trigger members[m], members[n]]
        0 <= m < n < members.len() ==> members[m] != members[n] && stand_together(
            entries,
            members[m],
            members[n],
        )
}

/// Whether the graph knows the block `member`, and the block can stand with
/// the block `id`.
pub open spec fn can_join(entries: Seq<Entry>, member: BlockId, id: BlockId) -> bool {
    position(entries, member) is Some && stand_together(entries, member, id)
}

/// The test that a block passes where it can stand with the block `id`.
pub open spec fn joiner(entries: Seq<Entry>, id: BlockId) -> spec_fn(BlockId) -> bool {
    |member: BlockId| can_join(entries, member, id)
}

/// The test that a block passes where it is active or final.
pub open spec fn settled_now(entries: Seq<Entry>) -> spec_fn(BlockId) -> bool {
    |id: BlockId| is_settled(entries, id)
}

/// The test that a block passes where it is active.
pub open spec fn living(entries: Seq<Entry>) -> spec_fn(BlockId) -> bool {
    |member: BlockId| is_active(entries, member)
}

/// Whether the block `id` can stand with every one of `members`.
pub open spec fn welcome(entries: Seq<Entry>, members: Seq<BlockId>, id: BlockId) -> bool {
    forall|m: int| 0 <= m < members.len() ==> can_join(entries, #[trigger] members[m], id)
}

/// The clique that the block `id` opens beside `members`: those of them
/// with which it can stand, in their order, and behind them the block
/// itself.
pub open spec fn around(entries: Seq<Entry>, members: Seq<BlockId>, id: BlockId) -> Seq<BlockId> {
    members.filter(joiner(entries, id)).push(id)
}

/// The members of each clique, in the order of the cliques.
pub open spec fn member_lists(cliques: Seq<Clique>) -> Seq<Seq<BlockId>> {
    Seq::new(cliques.len(), |c: int| cliques[c].members@)
}

/// The lists `lists`, each without what is not active among `entries`, and
/// without those that are left empty, in their order.
pub open spec fn refreshed(entries: Seq<Entry>, lists: Seq<Seq<BlockId>>) -> Seq<Seq<BlockId>>
    decreases lists.len(),
{
    if lists.len() == 0 {
        Seq::empty()
    } else {
        let rest = refreshed(entries, lists.drop_last());
        let kept = lists.last().filter(living(entries));
        if kept.len() > 0 {
            rest.push(kept)
        } else {
            rest
        }
    }
}

/// What each list holds, in the order of the lists.
pub open spec fn list_views(lists: Seq<Vec<BlockId>>) -> Seq<Seq<BlockId>> {
    Seq::new(lists.len(), |k: int| lists[k]@)
}

/// Whether `clique` holds every one of `members`.
pub open spec fn holds_all(clique: Seq<BlockId>, members: Seq<BlockId>) -> bool {
    forall|m: int| 0 <= m < members.len() ==> holds(clique, #[trigger] members[m])
}

/// Whether one of `cliques` holds every one of `members`.
pub open spec fn covered(cliques: Seq<Seq<BlockId>>, members: Seq<BlockId>) -> bool {
    exists|c: int| 0 <= c < cliques.len() && holds_all(#[trigger] cliques[c], members)
}

/// The cliques that the block `id` opens beside the first `count` of
/// `cliques`: one beside each that has a member with which the block
/// cannot stand, in their order.
pub open spec fn splits(
    entries: Seq<Entry>,
    cliques: Seq<Seq<BlockId>>,
    id: BlockId,
    count: nat,
) -> Seq<Seq<BlockId>>
    decreases count,
{
    if count == 0 {
        Seq::empty()
    } else {
        let before = splits(entries, cliques, id, (count - 1) as nat);
        if welcome(entries, cliques[count - 1], id) {
            before
        } else {
            before.push(around(entries, cliques[count - 1], id))
        }
    }
}

/// The cliques that the block `id` gives rise to: one beside each of
/// `cliques` that has a member with which the block cannot stand; where
/// there is no clique, the clique of the block alone.
pub open spec fn split_of(entries: Seq<Entry>, cliques: Seq<Seq<BlockId>>, id: BlockId) -> Seq<
    Seq<BlockId>,
> {
    if cliques.len() == 0 {
        seq![around(entries, Seq::empty(), id)]
    } else {
        splits(entries, cliques, id, cliques.len())
    }
}

/// The cliques once the block `id` has joined those of the first `count`
/// whose members can all stand with it.
pub open spec fn joined_lists(
    entries: Seq<Entry>,
    cliques: Seq<Seq<BlockId>>,
    id: BlockId,
    count: int,
) -> Seq<Seq<BlockId>> {
    Seq::new(
        cliques.len(),
        |c: int|
            if c < count && welcome(entries, cliques[c], id) {
                cliques[c].push(id)
            } else {
                cliques[c]
            },
    )
}

/// The cliques once the first `count` of `candidates` have been added, each
/// unless a clique that is there already holds all its members.
pub open spec fn with_candidates(
    cliques: Seq<Seq<BlockId>>,
    candidates: Seq<Seq<BlockId>>,
    count: nat,
) -> Seq<Seq<BlockId>>
    decreases count,
{
    if count == 0 {
        cliques
    } else {
        let before = with_candidates(cliques, candidates, (count - 1) as nat);
        if covered(before, candidates[count - 1]) {
            before
        } else {
            before.push(candidates[count - 1])
        }
    }
}

/// The cliques once the block `id`, which stands in none of `cliques`, has
/// been taken in: it joins every clique whose members can all stand with
/// it, and the cliques that it gives rise to are added, each unless a
/// clique that is there already holds all its members.
pub open spec fn cliques_with(entries: Seq<Entry>, cliques: Seq<Seq<BlockId>>, id: BlockId) -> Seq<
    Seq<BlockId>,
> {
    with_candidates(
        joined_lists(entries, cliques, id, cliques.len() as int),
        split_of(entries, cliques, id),
        split_of(entries, cliques, id).len(),
    )
}

/// The fitness of the block `member`: one, and one more for each
/// endorsement it carries; 0 where the graph holds no header for it.
pub open spec fn fitness_of(entries: Seq<Entry>, member: BlockId) -> nat {
    match position(entries, member) {
        Some(j) => if entries[j].header is Some {
            1 + entries[j].head().endorsements.len()
        } else {
            0
        },
        None => 0,
    }
}

/// Whether `member` is a descendant of the block with link `b`: another
/// block whose lineage holds `b`.
pub open spec fn descends(entries: Seq<Entry>, member: BlockId, b: Link) -> bool {
    member != b.id && match position(entries, member) {
        Some(j) => in_lineage(entries[j].lineage@, b),
        None => false,
    }
}

/// The fitness of the descendants of the block with link `b` among
/// `members`.
pub open spec fn lead(entries: Seq<Entry>, members: Seq<BlockId>, b: Link) -> nat
    decreases members.len(),
{
    if members.len() == 0 {
        0
    } else {
        lead(entries, members.drop_last(), b) + if descends(entries, members.last(), b) {
            fitness_of(entries, members.last())
        } else {
            0
        }
    }
}

/// The fitness of a clique: the sum of the fitness of its members.
pub open spec fn clique_fitness(entries: Seq<Entry>, members: Seq<BlockId>) -> nat
    decreases members.len(),
{
    if members.len() == 0 {
        0
    } else {
        clique_fitness(entries, members.drop_last()) + fitness_of(entries, members.last())
    }
}

/// Whether every parent named by `h` is a final block.
pub open spec fn parents_final(entries: Seq<Entry>, h: HeaderView) -> bool {
    forall|k: int|
        0 <= k < h.parents.len() ==> (position(entries, #[trigger] h.parents[k]) matches Some(j)
            && entries[j].state == BlockState::Final)
}

/// Whether the entry `i` is to become final: it is active, its parents are
/// final, it stands in a clique, and in every clique in which it stands the
/// fitness of its descendants exceeds `delta_f0`.
pub open spec fn final_ready(entries: Seq<Entry>, cliques: Seq<Clique>, delta_f0: u64, i: int) -> bool {
    &&& entries[i].state == BlockState::Active
    &&& parents_final(entries, entries[i].head())
    &&& exists|c: int|
        0 <= c < cliques.len() && holds(#[trigger] cliques[c].members@, entries[i].id)
    &&& forall|c: int|
        0 <= c < cliques.len() && holds(#[trigger] cliques[c].members@, entries[i].id) ==> lead(
            entries,
            cliques[c].members@,
            entries[i].lineage@[0],
        ) > delta_f0
}

/// Whether no active block is to become final.
#[verifier::opaque]
pub open spec fn finality_rest(entries: Seq<Entry>, cliques: Seq<Clique>, delta_f0: u64) -> bool {
    forall|i: int| 0 <= i < entries.len() ==> !final_ready(entries, cliques, delta_f0, i)
}

/// Whether a block of `lineage` conflicts with the block with link `b`.
pub open spec fn touches(lineage: Seq<Link>, b: Link) -> bool {
    exists|n: int| 0 <= n < lineage.len() && direct_conflict(#[trigger] lineage[n], b)
}

/// Whether the entry `e` is discarded when the block with link `b` becomes
/// final: it is another, active block and a block of its lineage conflicts
/// with that block.
pub open spec fn doomed(e: Entry, b: Link) -> bool {
    e.state == BlockState::Active && e.id != b.id && touches(e.lineage@, b)
}

/// Whether `after` is `before` once the entry `i` has become final: that
/// entry is final, the doomed entries are discarded, and nothing else has
/// changed.
pub open spec fn finalized(before: Seq<Entry>, after: Seq<Entry>, i: int) -> bool {
    &&& before.len() == after.len()
    &&& 0 <= i < before.len()
    &&& before[i].state == BlockState::Active
    &&& forall|j: int|
        0 <= j < before.len() ==> {
            let a = #[trigger] after[j];
            let e = before[j];
            &&& a.id == e.id
            &&& a.header == e.header
            &&& a.operations == e.operations
            &&& a.lineage == e.lineage
            &&& a.state == if j == i {
                BlockState::Final
            } else if doomed(e, before[i].lineage@[0]) {
                BlockState::Discarded
            } else {
                e.state
            }
            &&& a.state == e.state ==> a == e
        }
}

/// The latest final blocks once the block with link `b` has become final.
pub open spec fn latest_after(latest: Seq<Link>, b: Link) -> Seq<Link> {
    if latest[b.slot.thread as int].slot.period < b.slot.period {
        latest.update(b.slot.thread as int, b)
    } else {
        latest
    }
}

/// Whether the bytes `a` come before the bytes `b` in the order of the
/// dictionary.
pub open spec fn bytes_before(a: Seq<u8>, b: Seq<u8>) -> bool
    decreases a.len(),
{
    if b.len() == 0 {
        false
    } else if a.len() == 0 {
        true
    } else if a[0] != b[0] {
        a[0] < b[0]
    } else {
        bytes_before(a.drop_first(), b.drop_first())
    }
}

/// Whether the identifiers `a` come before the identifiers `b` in the order
/// of the dictionary, each identifier being compared by its bytes.
pub open spec fn ids_before(a: Seq<BlockId>, b: Seq<BlockId>) -> bool
    decreases a.len(),
{
    if b.len() == 0 {
        false
    } else if a.len() == 0 {
        true
    } else if a[0] != b[0] {
        bytes_before(a[0]@, b[0]@)
    } else {
        ids_before(a.drop_first(), b.drop_first())
    }
}

/// Whether the clique `a` is preferred to the clique `b`: it is fitter, or
/// as fit and later in the order of the dictionary.
pub open spec fn preferred(entries: Seq<Entry>, a: Seq<BlockId>, b: Seq<BlockId>) -> bool {
    clique_fitness(entries, a) > clique_fitness(entries, b) || (clique_fitness(entries, a)
        == clique_fitness(entries, b) && ids_before(b, a))
}

/// What becomes of a block whose header has passed the checks that look at
/// the header alone and at the rules of the chain: it is discarded where a
/// parent rules it out, waits where a parent or the operations are missing,
/// is discarded where it conflicts, and is integrated otherwise.
pub open spec fn entry_verdict(
    entries: Seq<Entry>,
    id: BlockId,
    h: HeaderView,
    has_operations: bool,
) -> Admission {
    match parents_review(entries, h) {
        Review::Invalid => Admission::Discarded(RejectReason::InvalidParents),
        Review::Pending => Admission::Waiting,
        Review::Ready => if !has_operations {
            Admission::Waiting
        } else if incompatible(entries, id, h) {
            Admission::Discarded(RejectReason::Incompatible)
        } else {
            Admission::Integrated
        },
    }
}

/// Whether `out` is what `expected` allows: the same, or a block that was
/// integrated and discarded at once because a block that became final with
/// its help conflicts with it.
pub open spec fn allowed(expected: Admission, out: Admission) -> bool {
    out == expected || (expected == Admission::Integrated && out == Admission::Discarded(
        RejectReason::Incompatible,
    ))
}

/// Whether the graph does not know `id`, or has heard of it only.
pub open spec fn missing(entries: Seq<Entry>, id: BlockId) -> bool {
    match position(entries, id) {
        Some(i) => entries[i].state == BlockState::Incoming,
        None => true,
    }
}

/// Whether `id` occurs in `parents`.
pub open spec fn named_in(parents: Seq<BlockId>, id: BlockId) -> bool {
    holds(parents, id)
}

/// Whether one of the first `limit` entries waits and names `id` as a
/// parent.
pub open spec fn named_by(entries: Seq<Entry>, limit: int, id: BlockId) -> bool {
    exists|j: int|
        0 <= j < limit && j < entries.len() && (#[trigger] entries[j]).state
            == BlockState::WaitingForDeps && named_in(entries[j].head().parents, id)
}

/// Whether the graph wants the block `id`: a waiting block names it as a
/// parent, and the graph does not know it or has heard of it only.
pub open spec fn wanted(entries: Seq<Entry>, id: BlockId) -> bool {
    missing(entries, id) && named_by(entries, entries.len() as int, id)
}

/// No identifier occurs twice in `ids`.
pub open spec fn distinct(ids: Seq<BlockId>) -> bool {
    forall|a: int, b: int| 0 <= a < b < ids.len() ==> ids[a] != ids[b]
}

/// Whether a waiting or an active block names `id` as a parent.
pub open spec fn referenced(entries: Seq<Entry>, id: BlockId) -> bool {
    exists|x: int|
        0 <= x < entries.len() && ((#[trigger] entries[x]).state == BlockState::WaitingForDeps
            || entries[x].state == BlockState::Active) && named_in(entries[x].head().parents, id)
}

/// Whether the entry `j` may leave the memory: it neither waits nor is
/// active, no waiting or active block names it as a parent, and where it is
/// final it is not queued for propagation and is not the latest final block
/// of its thread.
pub open spec fn removable(entries: Seq<Entry>, latest: Seq<Link>, queue: Seq<BlockId>, j: int) -> bool {
    &&& 0 <= j < entries.len()
    &&& !referenced(entries, entries[j].id)
    &&& entries[j].state != BlockState::WaitingForDeps
    &&& entries[j].state != BlockState::Active
    &&& entries[j].state == BlockState::Final ==> !holds(queue, entries[j].id)
        && entries[j].lineage@[0] != latest[entries[j].lineage@[0].slot.thread as int]
}

/// Whether `after` is `before` without its entry `j`.
pub open spec fn removed(before: Seq<Entry>, after: Seq<Entry>, j: int) -> bool {
    &&& 0 <= j < before.len()
    &&& after.len() == before.len() - 1
    &&& forall|y: int|
        0 <= y < after.len() ==> #[trigger] after[y] == before[if y < j {
            y
        } else {
            y + 1
        }]
}

/// Which entries a sweep takes out of the memory.
#[derive(Clone, Copy, Debug, PartialEq, Eq, Structural)]
pub enum Sweep {
    /// The final blocks that lie more than the configured number of periods
    /// behind the latest final block of their thread.
    Evict,
    /// The discarded hashes whose time is over in the given period, and the
    /// hashes that were heard of only.
    Forget(u64),
}

/// Whether `e` is one of `entries`.
pub open spec fn among(entries: Seq<Entry>, e: Entry) -> bool {
    exists|x: int| 0 <= x < entries.len() && #[trigger] entries[x] == e
}

/// Whether `after` and `gone` together hold the entries of `before`, each
/// in one of them, and nothing else.
pub open spec fn split(before: Seq<Entry>, after: Seq<Entry>, gone: Seq<Entry>) -> bool {
    &&& forall|y: int| 0 <= y < after.len() ==> among(before, #[trigger] after[y])
    &&& forall|q: int| 0 <= q < gone.len() ==> among(before, #[trigger] gone[q])
    &&& forall|x: int|
        0 <= x < before.len() ==> among(after, #[trigger] before[x]) || among(gone, before[x])
    &&& forall|y: int, q: int|
        0 <= y < after.len() && 0 <= q < gone.len() ==> (#[trigger] after[y]).id != (
        #[trigger] gone[q]).id
}

/// Whether `id` is an active or final block of thread `thread`.
pub open spec fn settled_in_thread(entries: Seq<Entry>, id: BlockId, thread: int) -> bool {
    exists|j: int|
        0 <= j < entries.len() && #[trigger] entries[j].id == id && entries[j].settled()
            && entries[j].head().slot.thread == thread
}

/// Whether `parents` names one active or final block of each thread, in the
/// order of the threads.
pub open spec fn sound_parents(entries: Seq<Entry>, parents: Seq<BlockId>, thread_count: u8) -> bool {
    &&& parents.len() == thread_count
    &&& forall|t: int|
        0 <= t < thread_count ==> settled_in_thread(entries, #[trigger] parents[t], t)
}

/// What the graph shows of one hash.
#[derive(Clone, Debug, PartialEq, Eq)]
pub struct ExportedBlock {
    pub id: BlockId,
    pub state: BlockState,
    pub header: Option<BlockHeader>,
}

/// What the graph shows of one clique.
#[derive(Clone, Debug, PartialEq, Eq)]
pub struct ExportedClique {
    pub members: Vec<BlockId>,
    pub fitness: u128,
}

/// A summary of the graph, without the operations of the blocks.
#[derive(Clone, Debug, PartialEq, Eq)]
pub struct BlockGraphExport {
    /// The hashes, in the order in which they were first heard of.
    pub blocks: Vec<ExportedBlock>,
    /// The cliques and their fitness.
    pub cliques: Vec<ExportedClique>,
    /// The parents that a block created now would name.
    pub best_parents: Vec<BlockId>,
}

/// Whether the clique `b` is the blockclique: no clique is preferred to it.
pub open spec fn is_blockclique(entries: Seq<Entry>, cliques: Seq<Clique>, b: int) -> bool {
    &&& 0 <= b < cliques.len()
    &&& forall|c: int|
        0 <= c < cliques.len() ==> !preferred(
            entries,
            (#[trigger] cliques[c]).members@,
            cliques[b].members@,
        )
}

/// The latest block of thread `thread` among the active blocks `members`,
/// with its period, or `floor` where none of them has a later period than
/// `floor`.  Of two of the same period the first counts.
pub open spec fn tip(
    entries: Seq<Entry>,
    members: Seq<BlockId>,
    thread: u8,
    floor: (BlockId, u64),
) -> (BlockId, u64)
    decreases members.len(),
{
    if members.len() == 0 {
        floor
    } else {
        let before = tip(entries, members.drop_last(), thread, floor);
        match position(entries, members.last()) {
            Some(j) => if entries[j].state == BlockState::Active && entries[j].header is Some
                && entries[j].head().slot.thread == thread && entries[j].head().slot.period
                > before.1 {
                (members.last(), entries[j].head().slot.period)
            } else {
                before
            },
            None => before,
        }
    }
}

/// What the header of the genesis block of `thread` says when signed with
/// `key`: no parent, no operation, no endorsement, period 0.
pub open spec fn genesis_header(key: PrivateKey, thread: u8, header: HeaderView) -> bool {
    &&& header.creator@ == ed25519_public_key(key@)
    &&& header.slot == (Slot { period: 0, thread })
    &&& header.parents.len() == 0
    &&& header.operations_root@ == operations_root(Seq::empty())
    &&& header.endorsements.len() == 0
    &&& header.signature@ == ed25519_signature(key@, header_encoding(header))
}

/// Whether `first` and `second` are the headers of the genesis blocks of
/// the threads `a` and `b`, and have the same hash.
pub open spec fn clashing(key: PrivateKey, a: int, b: int, first: HeaderView, second: HeaderView) -> bool {
    &&& 0 <= a < b < 256
    &&& genesis_header(key, a as u8, first)
    &&& genesis_header(key, b as u8, second)
    &&& header_id(first) == header_id(second)
}

/// Whether the genesis blocks of two of `thread_count` threads have the
/// same hash.
pub open spec fn genesis_clash(key: PrivateKey, thread_count: u8) -> bool {
    exists|a: int, b: int, first: HeaderView, second: HeaderView|
        b < thread_count && #[trigger] clashing(key, a, b, first, second)
}

} // verus!
