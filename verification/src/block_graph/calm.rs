//! What a change of the entries leaves as it was, and what it may discard.

use crate::block::{BlockId, HeaderView};
use super::model::{
    at_rest, BlockState, direct_conflict, doomed, Entry, finalized, grown, holds, ids_unique,
    in_ancestry, in_lineage, is_settled, Link, link_of, parent_fault, parent_pending, parents_review,
    position, queue_ok, Review, step_allowed, touches, waiting_rest,
};
use super::lemmas::lemma_position;
use vstd::prelude::*;

verus! {

/// Whether the parent of `h` in thread `k` is a discarded entry.
pub open spec fn discarded_parent(entries: Seq<Entry>, h: HeaderView, k: int) -> bool {
    position(entries, h.parents[k]) matches Some(p) && entries[p].state == BlockState::Discarded
}

/// Whether a parent of `h` is a discarded entry.
pub open spec fn struck(entries: Seq<Entry>, h: HeaderView) -> bool {
    exists|k: int| 0 <= k < h.parents.len() && discarded_parent(entries, h, k)
}

/// Whether every waiting entry is at rest or has a discarded parent: none
/// can become active.
#[verifier::opaque]
pub open spec fn calm(entries: Seq<Entry>) -> bool {
    forall|i: int|
        0 <= i < entries.len() && (#[trigger] entries[i]).state == BlockState::WaitingForDeps
            ==> at_rest(entries, entries[i]) || struck(entries, entries[i].head())
}

/// Whether `after` is `before` but for the entry `i`, which keeps its
/// identifier where it stood in `before`, or stands behind the others.
pub open spec fn one_changed(before: Seq<Entry>, after: Seq<Entry>, i: int) -> bool {
    &&& before.len() <= after.len()
    &&& 0 <= i < after.len()
    &&& forall|j: int| 0 <= j < before.len() ==> (#[trigger] after[j]).id == before[j].id
    &&& forall|j: int|
        0 <= j < after.len() && j != i ==> j < before.len() && #[trigger] after[j] == before[j]
}

/// Whether every entry of `after` that is not as it was in `before` bears
/// the stamp `stamp`.
pub open spec fn stamped(before: Seq<Entry>, after: Seq<Entry>, stamp: u64) -> bool {
    &&& before.len() == after.len()
    &&& forall|j: int|
        0 <= j < before.len() ==> #[trigger] after[j] == before[j] || after[j].stamp == stamp
}

/// Whether `after` holds the entries of `before` in place, and possibly
/// more behind them, and no entry has become active or final: the settled
/// entries are as they were, the discarded ones are discarded, and what is
/// new is not settled.
pub open spec fn settles_nothing(before: Seq<Entry>, after: Seq<Entry>) -> bool {
    &&& before.len() <= after.len()
    &&& forall|j: int| 0 <= j < before.len() ==> (#[trigger] after[j]).id == before[j].id
    &&& forall|j: int|
        0 <= j < after.len() && (#[trigger] after[j]).settled() ==> j < before.len() && after[j]
            == before[j]
    &&& forall|j: int|
        0 <= j < before.len() && (#[trigger] before[j]).settled() ==> after[j] == before[j]
    &&& forall|j: int|
        0 <= j < before.len() && (#[trigger] before[j]).state == BlockState::Discarded
            ==> after[j].state == BlockState::Discarded
}

/// Whether the entry `was` has become the entry `is` by being discarded
/// with a parent: it waited, it is discarded, and in `entries` a parent of
/// it is discarded.
pub open spec fn dragged(entries: Seq<Entry>, was: Entry, is: Entry) -> bool {
    &&& was.state == BlockState::WaitingForDeps
    &&& is.state == BlockState::Discarded
    &&& is.id == was.id
    &&& is.header == was.header
    &&& struck(entries, was.head())
}

/// Whether `after` is `before` but for waiting entries that were discarded
/// with a parent.
pub open spec fn hushed(before: Seq<Entry>, after: Seq<Entry>) -> bool {
    &&& after.len() == before.len()
    &&& forall|j: int|
        0 <= j < before.len() ==> #[trigger] after[j] == before[j] || dragged(
            after,
            before[j],
            after[j],
        )
}

/// Whether `later` is `earlier` but for the entry of `id` and for new
/// entries, which are the entry of `id` or hashes that were heard of only.
pub open spec fn untouched(earlier: Seq<Entry>, later: Seq<Entry>, id: BlockId) -> bool {
    &&& earlier.len() <= later.len()
    &&& forall|j: int|
        0 <= j < earlier.len() && (#[trigger] earlier[j]).id != id ==> later[j] == earlier[j]
    &&& forall|j: int|
        earlier.len() <= j < later.len() ==> (#[trigger] later[j]).id == id || later[j].state
            == BlockState::Incoming
}

/// Whether `later` is `earlier` but for the entry of `id`, for waiting
/// entries that were discarded with a parent, and for new entries,
/// which are the entry of `id` or hashes that were heard of only.
pub open spec fn quiet(earlier: Seq<Entry>, later: Seq<Entry>, id: BlockId) -> bool {
    &&& earlier.len() <= later.len()
    &&& forall|j: int|
        0 <= j < earlier.len() && (#[trigger] earlier[j]).id != id ==> later[j] == earlier[j]
            || dragged(later, earlier[j], later[j])
    &&& forall|j: int|
        earlier.len() <= j < later.len() ==> (#[trigger] later[j]).id == id || later[j].state
            == BlockState::Incoming
}

/// Whether `after` holds, in place and as it was, every entry of `before`
/// that is final, discarded or heard of only, but for the entry of `id`.
pub open spec fn steady_kept(before: Seq<Entry>, after: Seq<Entry>, id: Option<BlockId>) -> bool {
    &&& before.len() <= after.len()
    &&& forall|j: int|
        0 <= j < before.len() && (#[trigger] before[j]).state != BlockState::WaitingForDeps
            && before[j].state != BlockState::Active && Some(before[j].id) != id ==> after[j]
            == before[j]
}

/// Whether `after` holds, in place, the header and the operations of each
/// entry of `before`.
pub open spec fn content_kept(before: Seq<Entry>, after: Seq<Entry>) -> bool {
    &&& before.len() <= after.len()
    &&& forall|j: int|
        0 <= j < before.len() ==> (#[trigger] after[j]).id == before[j].id && after[j].header
            == before[j].header && after[j].operations == before[j].operations
}

/// Whether `later` holds the entries of `earlier` in place, with their
/// headers and operations but for the entry of `id`, and what is new is the
/// entry of `id` or a hash that was heard of only.
pub open spec fn framed(earlier: Seq<Entry>, later: Seq<Entry>, id: BlockId) -> bool {
    &&& earlier.len() <= later.len()
    &&& forall|j: int|
        0 <= j < earlier.len() ==> (#[trigger] later[j]).id == earlier[j].id && (earlier[j].id
            != id ==> later[j].header == earlier[j].header && later[j].operations
            == earlier[j].operations)
    &&& forall|j: int|
        earlier.len() <= j < later.len() ==> (#[trigger] later[j]).id == id || later[j].state
            == BlockState::Incoming
}

/// Whether a block of `lineage`, the lineage of the block `id`, conflicts
/// with a block other than `id` that is final in `after` and was not final
/// in `before`.
pub open spec fn outlived(
    before: Seq<Entry>,
    after: Seq<Entry>,
    id: BlockId,
    lineage: Seq<Link>,
) -> bool {
    exists|f: int|
        0 <= f < after.len() && (#[trigger] after[f]).state == BlockState::Final && (f
            < before.len() ==> before[f].state != BlockState::Final) && after[f].id != id
            && touches(lineage, after[f].lineage@[0])
}

/// Whether the block `id` with header `h`, which could become active in
/// `before`, has lost to a block that has become final on the way to
/// `after`: a block of its ancestry conflicts with that block.
pub open spec fn lost_to_final(
    before: Seq<Entry>,
    after: Seq<Entry>,
    id: BlockId,
    h: HeaderView,
) -> bool {
    exists|f: int, l: Link|
        #![trigger after[f], in_ancestry(before, id, h, l)]
        0 <= f < after.len() && after[f].state == BlockState::Final && (f < before.len()
            ==> before[f].state != BlockState::Final) && after[f].id != id && in_ancestry(
            before,
            id,
            h,
            l,
        ) && direct_conflict(l, after[f].lineage@[0])
}

/// A block whose lineage is its ancestry has lost to a final block where
/// its lineage was outlived.
pub(crate) proof fn lemma_lost(
    before: Seq<Entry>,
    after: Seq<Entry>,
    id: BlockId,
    h: HeaderView,
    lineage: Seq<Link>,
)
    requires
        outlived(before, after, id, lineage),
        forall|l: Link| in_lineage(lineage, l) <==> in_ancestry(before, id, h, l),
    ensures
        lost_to_final(before, after, id, h),
{
    let f = choose|f: int|
        0 <= f < after.len() && (#[trigger] after[f]).state == BlockState::Final && (f
            < before.len() ==> before[f].state != BlockState::Final) && after[f].id != id
            && touches(lineage, after[f].lineage@[0]);
    let n = choose|n: int|
        0 <= n < lineage.len() && direct_conflict(#[trigger] lineage[n], after[f].lineage@[0]);
    assert(in_lineage(lineage, lineage[n]));
    assert(after[f].state == BlockState::Final && in_ancestry(before, id, h, lineage[n]));
}

/// What was outlived since the entry `i` became active was outlived since
/// before.
pub(crate) proof fn lemma_outlived_from(
    before: Seq<Entry>,
    middle: Seq<Entry>,
    after: Seq<Entry>,
    i: int,
    lineage: Seq<Link>,
)
    requires
        ids_unique(after),
        0 <= i < before.len(),
        before.len() == middle.len(),
        middle.len() == after.len(),
        forall|j: int| 0 <= j < before.len() && j != i ==> #[trigger] middle[j] == before[j],
        after[i].id == before[i].id,
        outlived(middle, after, before[i].id, lineage),
    ensures
        outlived(before, after, before[i].id, lineage),
{
    let f = choose|f: int|
        0 <= f < after.len() && (#[trigger] after[f]).state == BlockState::Final && (f
            < middle.len() ==> middle[f].state != BlockState::Final) && after[f].id
            != before[i].id && touches(lineage, after[f].lineage@[0]);
    assert(f != i);
    assert(middle[f] == before[f]);
}

/// What was outlived in one of two changes was outlived over both.
pub(crate) proof fn lemma_outlived_widen(
    a: Seq<Entry>,
    b: Seq<Entry>,
    c: Seq<Entry>,
    id: BlockId,
    lineage: Seq<Link>,
)
    requires
        a.len() == b.len(),
        grown(a, b),
        grown(b, c),
        outlived(a, b, id, lineage) || outlived(b, c, id, lineage),
        forall|f: int|
            0 <= f < b.len() && (#[trigger] b[f]).state == BlockState::Final ==> c[f] == b[f],
    ensures
        outlived(a, c, id, lineage),
{
    if outlived(a, b, id, lineage) {
        let f = choose|f: int|
            0 <= f < b.len() && (#[trigger] b[f]).state == BlockState::Final && (f < a.len()
                ==> a[f].state != BlockState::Final) && b[f].id != id && touches(
                lineage,
                b[f].lineage@[0],
            );
        assert(c[f] == b[f]);
    } else {
        let f = choose|f: int|
            0 <= f < c.len() && (#[trigger] c[f]).state == BlockState::Final && (f < b.len()
                ==> b[f].state != BlockState::Final) && c[f].id != id && touches(
                lineage,
                c[f].lineage@[0],
            );
        if f < a.len() {
            assert(b[f].id == a[f].id && step_allowed(a[f].state, b[f].state));
        }
    }
}

/// Whether every entry of `before` that was active and is discarded in
/// `after` has lost to a block that has become final on the way: a block
/// of its lineage conflicts with that block.
pub open spec fn felled(before: Seq<Entry>, after: Seq<Entry>) -> bool {
    &&& before.len() <= after.len()
    &&& forall|j: int|
        0 <= j < before.len() && (#[trigger] before[j]).state == BlockState::Active
            && after[j].state == BlockState::Discarded ==> outlived(
            before,
            after,
            before[j].id,
            before[j].lineage@,
        )
}

/// Whether every entry of `before` that is in the same state in `after` is
/// as it was.
pub open spec fn same_while(before: Seq<Entry>, after: Seq<Entry>) -> bool {
    &&& before.len() <= after.len()
    &&& forall|j: int|
        0 <= j < before.len() && (#[trigger] after[j]).state == before[j].state ==> after[j]
            == before[j]
}

/// Whether every entry of `before` that waited and waits no more in `after`
/// could not go on waiting: among `after`, a parent rules it out, or it has
/// all its parents and its operations.
pub open spec fn waned(before: Seq<Entry>, after: Seq<Entry>) -> bool {
    &&& before.len() <= after.len()
    &&& forall|j: int|
        0 <= j < before.len() && (#[trigger] before[j]).state == BlockState::WaitingForDeps
            && after[j].state != BlockState::WaitingForDeps ==> !at_rest(after, before[j])
}

/// `waned`, but for the entry of `id`.
pub open spec fn waned_but(before: Seq<Entry>, after: Seq<Entry>, id: BlockId) -> bool {
    &&& before.len() <= after.len()
    &&& forall|j: int|
        0 <= j < before.len() && (#[trigger] before[j]).state == BlockState::WaitingForDeps
            && before[j].id != id && after[j].state != BlockState::WaitingForDeps ==> !at_rest(
            after,
            before[j],
        )
}

/// A waiting entry that cannot go on waiting cannot go on waiting after a
/// change that keeps the headers and takes no entry back.
pub(crate) proof fn lemma_unrest_stays(before: Seq<Entry>, after: Seq<Entry>, e: Entry)
    requires
        ids_unique(before),
        ids_unique(after),
        grown(before, after),
        content_kept(before, after),
        e.state == BlockState::WaitingForDeps,
        !at_rest(before, e),
    ensures
        !at_rest(after, e),
{
    let h = e.head();
    assert forall|k: int| 0 <= k < h.parents.len() && position(before, h.parents[k]) is Some implies {
        let p = position(before, h.parents[k])->0;
        &&& position(after, h.parents[k]) == Some(p)
        &&& after[p].header == before[p].header
        &&& step_allowed(before[p].state, after[p].state)
    } by {
        let p = position(before, h.parents[k])->0;
        assert(after[p].id == before[p].id && step_allowed(before[p].state, after[p].state));
        lemma_position(after, p);
    }
    if parents_review(before, h) == Review::Invalid {
        let k = choose|k: int| 0 <= k < h.parents.len() && parent_fault(before, h, k);
        assert(parent_fault(after, h, k));
    } else {
        assert(parents_review(before, h) == Review::Ready);
        assert forall|k: int| 0 <= k < h.parents.len() implies !parent_pending(after, h, k) by {
            assert(!parent_pending(before, h, k));
            assert(!parent_fault(before, h, k));
        }
    }
}

/// What waned over two changes waned over both.
pub(crate) proof fn lemma_waned_twice(a: Seq<Entry>, b: Seq<Entry>, c: Seq<Entry>)
    requires
        a.len() == b.len(),
        ids_unique(b),
        ids_unique(c),
        grown(a, b),
        grown(b, c),
        content_kept(b, c),
        same_while(a, b),
        waned(a, b),
        waned(b, c),
    ensures
        waned(a, c),
{
    assert forall|j: int|
        0 <= j < a.len() && (#[trigger] a[j]).state == BlockState::WaitingForDeps && c[j].state
            != BlockState::WaitingForDeps implies !at_rest(c, a[j]) by {
        if b[j].state == BlockState::WaitingForDeps {
            assert(b[j] == a[j]);
        } else {
            lemma_unrest_stays(b, c, a[j]);
        }
    }
}

/// Where an entry becomes final, what is discarded with it is felled, and
/// what stays in its state stays as it was.
pub(crate) proof fn lemma_finalized_felled(before: Seq<Entry>, after: Seq<Entry>, i: int)
    requires
        finalized(before, after, i),
        before[i].lineage@.len() >= 1,
        before[i].lineage@[0].id == before[i].id,
    ensures
        felled(before, after),
        same_while(before, after),
{
    assert(after[i].state == BlockState::Final && after[i].lineage == before[i].lineage
        && after[i].id == before[i].id);
    assert forall|j: int|
        0 <= j < before.len() && (#[trigger] before[j]).state == BlockState::Active
            && after[j].state == BlockState::Discarded implies outlived(
        before,
        after,
        before[j].id,
        before[j].lineage@,
    ) by {
        assert(after[j].id == before[j].id);
        assert(doomed(before[j], before[i].lineage@[0]));
        assert(after[i].state == BlockState::Final && before[i].state != BlockState::Final);
    }
    assert forall|j: int|
        0 <= j < before.len() && (#[trigger] after[j]).state == before[j].state implies after[j]
        == before[j] by {
        assert(after[j].id == before[j].id);
    }
}

/// What was felled over two changes was felled over both.
pub(crate) proof fn lemma_felled_twice(a: Seq<Entry>, b: Seq<Entry>, c: Seq<Entry>)
    requires
        a.len() == b.len(),
        grown(a, b),
        grown(b, c),
        felled(a, b),
        felled(b, c),
        same_while(a, b),
        same_while(b, c),
    ensures
        felled(a, c),
        same_while(a, c),
{
    assert forall|f: int| 0 <= f < b.len() && (#[trigger] b[f]).state
        == BlockState::Final implies c[f] == b[f] by {
        assert(c[f].id == b[f].id && step_allowed(b[f].state, c[f].state));
    }
    assert forall|j: int|
        0 <= j < a.len() && (#[trigger] a[j]).state == BlockState::Active && c[j].state
            == BlockState::Discarded implies outlived(a, c, a[j].id, a[j].lineage@) by {
        assert(b[j].id == a[j].id && step_allowed(a[j].state, b[j].state));
        assert(c[j].id == b[j].id && step_allowed(b[j].state, c[j].state));
        if b[j].state != BlockState::Discarded {
            assert(b[j] == a[j]);
        }
        lemma_outlived_widen(a, b, c, a[j].id, a[j].lineage@);
    }
    assert forall|j: int|
        0 <= j < a.len() && (#[trigger] c[j]).state == a[j].state implies c[j] == a[j] by {
        assert(b[j].id == a[j].id && step_allowed(a[j].state, b[j].state));
        assert(c[j].id == b[j].id && step_allowed(b[j].state, c[j].state));
        assert(b[j].state == a[j].state);
        assert(b[j] == a[j]);
    }
}

/// Whether `inner` holds nothing that `outer` does not hold.
pub open spec fn within(inner: Seq<BlockId>, outer: Seq<BlockId>) -> bool {
    forall|id: BlockId| #[trigger] holds(inner, id) ==> holds(outer, id)
}

/// Whether what is queued after a change was queued before it, or was
/// neither active nor final before it: nothing is queued a second time.
pub open spec fn queue_fresh(
    before: Seq<Entry>,
    queue_before: Seq<BlockId>,
    queue_after: Seq<BlockId>,
) -> bool {
    forall|id: BlockId|
        #[trigger] holds(queue_after, id) ==> holds(queue_before, id) || !is_settled(before, id)
}

/// Whether every block that is active or final in `after` and was not in
/// `before` is queued.
pub open spec fn announced(before: Seq<Entry>, after: Seq<Entry>, queue_after: Seq<BlockId>) -> bool {
    forall|j: int|
        0 <= j < after.len() && (#[trigger] after[j]).settled() && (j < before.len()
            ==> !before[j].settled()) ==> holds(queue_after, after[j].id)
}

/// What was announced over two changes was announced over both.
pub(crate) proof fn lemma_announced_twice(
    a: Seq<Entry>,
    b: Seq<Entry>,
    queue_b: Seq<BlockId>,
    c: Seq<Entry>,
    queue_c: Seq<BlockId>,
)
    requires
        a.len() <= b.len(),
        b.len() == c.len(),
        grown(b, c),
        announced(a, b, queue_b),
        announced(b, c, queue_c),
        forall|id: BlockId|
            holds(queue_b, id) && is_settled(c, id) ==> #[trigger] holds(queue_c, id),
    ensures
        announced(a, c, queue_c),
{
    assert forall|j: int|
        0 <= j < c.len() && (#[trigger] c[j]).settled() && (j < a.len() ==> !a[j].settled())
    implies holds(queue_c, c[j].id) by {
        assert(c[j].id == b[j].id && step_allowed(b[j].state, c[j].state));
        if b[j].settled() {
            assert(holds(queue_b, b[j].id));
            assert(is_settled(c, c[j].id));
        }
    }
}

/// What was announced since a hash was seated was announced since before.
pub(crate) proof fn lemma_seated_announced(
    before: Seq<Entry>,
    after: Seq<Entry>,
    last: Seq<Entry>,
    hash: BlockId,
    i: int,
    queue: Seq<BlockId>,
)
    requires
        seated(before, after, hash, i),
        !after[i].settled(),
        last.len() == after.len(),
        announced(after, last, queue),
    ensures
        announced(before, last, queue),
{
    assert forall|j: int|
        0 <= j < last.len() && (#[trigger] last[j]).settled() && (j < before.len()
            ==> !before[j].settled()) implies holds(queue, last[j].id) by {
        if j != i {
            if j < before.len() {
                assert(after[j] == before[j]);
            } else {
                assert(after[j].state == BlockState::Incoming);
            }
        }
    }
}

/// What is fresh in the queue over two changes is fresh over both.
pub(crate) proof fn lemma_queue_fresh_step(
    first: Seq<Entry>,
    queue_first: Seq<BlockId>,
    second: Seq<Entry>,
    queue_second: Seq<BlockId>,
    third: Seq<Entry>,
    queue_third: Seq<BlockId>,
)
    requires
        grown(first, second),
        grown(second, third),
        ids_unique(third),
        queue_ok(third, queue_third),
        queue_fresh(first, queue_first, queue_second),
        queue_fresh(second, queue_second, queue_third),
    ensures
        queue_fresh(first, queue_first, queue_third),
{
    reveal(queue_ok);
    assert forall|id: BlockId| #[trigger] holds(queue_third, id) implies holds(queue_first, id)
        || !is_settled(first, id) by {
        if !holds(queue_second, id) && is_settled(first, id) {
            let j = choose|j: int|
                0 <= j < first.len() && #[trigger] first[j].id == id && first[j].settled();
            assert(second[j].id == first[j].id && step_allowed(first[j].state, second[j].state));
            assert(third[j].id == second[j].id && step_allowed(second[j].state, third[j].state));
            if second[j].settled() {
                assert(is_settled(second, id));
            }
            let q = choose|q: int| 0 <= q < queue_third.len() && #[trigger] queue_third[q] == id;
            assert(is_settled(third, queue_third[q]));
            let w = choose|w: int|
                0 <= w < third.len() && #[trigger] third[w].id == id && third[w].settled();
            if w < j {
                assert(third[w].id != third[j].id);
            } else if j < w {
                assert(third[j].id != third[w].id);
            }
        }
    }
}

/// A review looks at the parents only: where one entry changes, and the
/// header does not name it, the review stays.
pub(crate) proof fn lemma_review_local(before: Seq<Entry>, after: Seq<Entry>, i: int, h: HeaderView)
    requires
        ids_unique(before),
        ids_unique(after),
        one_changed(before, after, i),
        forall|k: int| 0 <= k < h.parents.len() ==> h.parents[k] != after[i].id,
    ensures
        parents_review(after, h) == parents_review(before, h),
{
    assert forall|k: int| 0 <= k < h.parents.len() implies parent_fault(after, h, k)
        == parent_fault(before, h, k) && parent_pending(after, h, k) == parent_pending(
        before,
        h,
        k,
    ) by {
        let p = h.parents[k];
        match position(before, p) {
            Some(a) => {
                assert(after[a].id == before[a].id);
                assert(after[a] == before[a]);
                lemma_position(after, a);
            },
            None => {
                if position(after, p) is Some {
                    let b = position(after, p)->0;
                    assert(after[b] == before[b]);
                }
            },
        }
    }
}

/// A header with a discarded parent is ruled out.
pub(crate) proof fn lemma_struck_invalid(entries: Seq<Entry>, h: HeaderView)
    requires
        struck(entries, h),
    ensures
        parents_review(entries, h) == Review::Invalid,
{
    let k = choose|k: int| 0 <= k < h.parents.len() && discarded_parent(entries, h, k);
    assert(parent_fault(entries, h, k));
}

/// Where nothing is settled by a change, a parent that was discarded
/// before it is discarded after it.
pub(crate) proof fn lemma_struck_stays(before: Seq<Entry>, after: Seq<Entry>, h: HeaderView)
    requires
        ids_unique(after),
        settles_nothing(before, after),
        struck(before, h),
    ensures
        struck(after, h),
{
    let k = choose|k: int| 0 <= k < h.parents.len() && discarded_parent(before, h, k);
    let j = position(before, h.parents[k])->0;
    assert(after[j].id == before[j].id);
    assert(before[j].state == BlockState::Discarded);
    lemma_position(after, j);
    assert(discarded_parent(after, h, k));
}

/// Where one entry that was neither active nor final is discarded, or a
/// discarded entry is added, and every other waiting entry was at rest or
/// had a discarded parent, the entries are calm, and nothing was settled.
pub(crate) proof fn lemma_calm(before: Seq<Entry>, after: Seq<Entry>, i: int)
    requires
        ids_unique(before),
        ids_unique(after),
        one_changed(before, after, i),
        after[i].state == BlockState::Discarded,
        i < before.len() ==> !before[i].settled(),
        forall|j: int|
            0 <= j < before.len() && j != i && (#[trigger] before[j]).state
                == BlockState::WaitingForDeps ==> at_rest(before, before[j]) || struck(
                before,
                before[j].head(),
            ),
    ensures
        calm(after),
        settles_nothing(before, after),
{
    reveal(calm);
    assert(settles_nothing(before, after)) by {
        assert forall|j: int| 0 <= j < after.len() && (#[trigger] after[j]).settled() implies j
            < before.len() && after[j] == before[j] by {}
        assert forall|j: int| 0 <= j < before.len() && (#[trigger] before[j]).settled() implies after[j]
            == before[j] by {
            assert(after[j].id == before[j].id);
        }
        assert forall|j: int|
            0 <= j < before.len() && (#[trigger] before[j]).state
                == BlockState::Discarded implies after[j].state == BlockState::Discarded by {
            assert(after[j].id == before[j].id);
        }
    }
    lemma_position(after, i);
    assert forall|j: int|
        0 <= j < after.len() && (#[trigger] after[j]).state
            == BlockState::WaitingForDeps implies at_rest(after, after[j]) || struck(
        after,
        after[j].head(),
    ) by {
        let h = after[j].head();
        assert(after[j] == before[j]);
        if struck(before, h) {
            lemma_struck_stays(before, after, h);
        } else if exists|k: int| 0 <= k < h.parents.len() && h.parents[k] == after[i].id {
            let k = choose|k: int| 0 <= k < h.parents.len() && h.parents[k] == after[i].id;
            assert(discarded_parent(after, h, k));
        } else {
            lemma_review_local(before, after, i, h);
        }
    }
}

/// Where the entries are calm and the waiting entry `i`, which is not at
/// rest, is discarded, the change is hushed, and the entries are calm.
pub(crate) proof fn lemma_dropped(before: Seq<Entry>, after: Seq<Entry>, i: int)
    requires
        ids_unique(before),
        ids_unique(after),
        calm(before),
        one_changed(before, after, i),
        after.len() == before.len(),
        before[i].state == BlockState::WaitingForDeps,
        !at_rest(before, before[i]),
        after[i].state == BlockState::Discarded,
        after[i].header == before[i].header,
    ensures
        hushed(before, after),
        calm(after),
{
    assert(struck(before, before[i].head())) by {
        reveal(calm);
    }
    assert forall|j: int|
        0 <= j < before.len() && j != i && (#[trigger] before[j]).state
            == BlockState::WaitingForDeps implies at_rest(before, before[j]) || struck(
        before,
        before[j].head(),
    ) by {
        reveal(calm);
    }
    lemma_calm(before, after, i);
    lemma_struck_stays(before, after, before[i].head());
    assert(after[i].id == before[i].id);
}

/// Where every waiting entry is at rest, the entries are calm.
pub(crate) proof fn lemma_rest_is_calm(entries: Seq<Entry>)
    requires
        waiting_rest(entries),
    ensures
        calm(entries),
{
    reveal(calm);
    reveal(waiting_rest);
}

/// What calm entries say of a waiting entry.
pub(crate) proof fn lemma_calm_at(entries: Seq<Entry>, i: int)
    requires
        calm(entries),
        0 <= i < entries.len(),
        entries[i].state == BlockState::WaitingForDeps,
    ensures
        at_rest(entries, entries[i]) || struck(entries, entries[i].head()),
{
    reveal(calm);
}

/// Calm entries hold no waiting entry that can become active.
pub(crate) proof fn lemma_calm_waits(entries: Seq<Entry>, i: int)
    requires
        calm(entries),
        0 <= i < entries.len(),
        entries[i].state == BlockState::WaitingForDeps,
    ensures
        !(parents_review(entries, entries[i].head()) == Review::Ready && entries[i].operations
            is Some),
{
    reveal(calm);
    if struck(entries, entries[i].head()) {
        lemma_struck_invalid(entries, entries[i].head());
    }
}

/// Where the waiting entry `i` is discarded and the change that follows is
/// hushed, the whole is quiet but for that entry.
pub(crate) proof fn lemma_drop_quiet(first: Seq<Entry>, middle: Seq<Entry>, last: Seq<Entry>, i: int)
    requires
        ids_unique(first),
        0 <= i < first.len(),
        middle.len() == first.len(),
        forall|j: int| 0 <= j < first.len() && j != i ==> #[trigger] middle[j] == first[j],
        hushed(middle, last),
    ensures
        quiet(first, last, first[i].id),
{
    assert forall|j: int|
        0 <= j < first.len() && (#[trigger] first[j]).id != first[i].id implies last[j] == first[j]
        || dragged(last, first[j], last[j]) by {
        assert(middle[j] == first[j]);
        assert(last[j] == middle[j] || dragged(last, middle[j], last[j]));
    }
}

/// Whether `after` is `before` once the hash `hash` has got the entry `i`,
/// in the place of the entry it had or behind the others, and hashes that
/// were heard of only have got entries behind the others.
pub open spec fn seated(before: Seq<Entry>, after: Seq<Entry>, hash: BlockId, i: int) -> bool {
    &&& before.len() <= after.len()
    &&& 0 <= i < after.len()
    &&& after[i].id == hash
    &&& i < before.len() ==> before[i].id == hash && !before[i].settled()
    &&& forall|j: int|
        0 <= j < before.len() && j != i ==> #[trigger] after[j] == before[j] && before[j].id
            != hash
    &&& forall|j: int|
        before.len() <= j < after.len() && j != i ==> (#[trigger] after[j]).state
            == BlockState::Incoming
}

/// What holds of the entries `last` that follow on the entries `after`, in
/// which a hash was seated, by a change that keeps headers, operations and
/// what is final, discarded or heard of only.
pub(crate) proof fn lemma_seated(
    before: Seq<Entry>,
    after: Seq<Entry>,
    last: Seq<Entry>,
    hash: BlockId,
    i: int,
)
    requires
        ids_unique(after),
        seated(before, after, hash, i),
        last.len() == after.len(),
        grown(after, last),
        content_kept(after, last),
        steady_kept(after, last, None),
        !after[i].settled(),
    ensures
        framed(before, last, hash),
        steady_kept(before, last, Some(hash)),
        last == after ==> untouched(before, last, hash),
        quiet(after, last, hash) ==> quiet(before, last, hash),
        untouched(before, last, hash) ==> forall|j: int|
            0 <= j < last.len() && j != i ==> #[trigger] last[j] == after[j],
        felled(after, last) ==> felled(before, last),
        waned(after, last) ==> waned_but(before, last, hash),
        forall|h: HeaderView|
            lost_to_final(after, last, hash, h) ==> #[trigger] lost_to_final(
                before,
                last,
                hash,
                h,
            ),
{
    assert forall|f: int| 0 <= f < before.len() && (#[trigger] before[f]).state
        == BlockState::Final implies after[f].state == BlockState::Final by {
        assert(f != i);
        assert(after[f] == before[f]);
    }
    if untouched(before, last, hash) {
        assert forall|j: int| 0 <= j < last.len() && j != i implies #[trigger] last[j]
            == after[j] by {
            if j < before.len() {
                assert(after[j] == before[j] && before[j].id != hash);
            } else {
                assert(after[j].state == BlockState::Incoming);
            }
        }
    }
    if waned(after, last) {
        assert forall|j: int|
            0 <= j < before.len() && (#[trigger] before[j]).state == BlockState::WaitingForDeps
                && before[j].id != hash && last[j].state
                != BlockState::WaitingForDeps implies !at_rest(last, before[j]) by {
            assert(j != i);
            assert(after[j] == before[j]);
        }
    }
    if felled(after, last) {
        assert forall|j: int|
            0 <= j < before.len() && (#[trigger] before[j]).state == BlockState::Active
                && last[j].state == BlockState::Discarded implies outlived(
            before,
            last,
            before[j].id,
            before[j].lineage@,
        ) by {
            assert(j != i);
            assert(after[j] == before[j]);
            let f = choose|f: int|
                0 <= f < last.len() && (#[trigger] last[f]).state == BlockState::Final && (f
                    < after.len() ==> after[f].state != BlockState::Final) && last[f].id
                    != after[j].id && touches(after[j].lineage@, last[f].lineage@[0]);
            assert(last[f].state == BlockState::Final);
        }
    }
    assert forall|h: HeaderView| lost_to_final(after, last, hash, h) implies #[trigger] lost_to_final(
        before,
        last,
        hash,
        h,
    ) by {
        let (f, l) = choose|f: int, l: Link|
            #![trigger last[f], in_ancestry(after, hash, h, l)]
            0 <= f < last.len() && last[f].state == BlockState::Final && (f < after.len()
                ==> after[f].state != BlockState::Final) && last[f].id != hash && in_ancestry(
                after,
                hash,
                h,
                l,
            ) && direct_conflict(l, last[f].lineage@[0]);
        if l != link_of(hash, h) {
            let (k, j, n) = choose|k: int, j: int, n: int|
                0 <= k < h.parents.len() && 0 <= j < after.len() && #[trigger] h.parents[k]
                    == after[j].id && after[j].state == BlockState::Active && 0 <= n
                    < after[j].lineage@.len() && #[trigger] after[j].lineage@[n] == l;
            assert(j != i);
            if j >= before.len() {
                assert(after[j].state == BlockState::Incoming);
            }
            assert(after[j] == before[j]);
            assert(h.parents[k] == before[j].id && before[j].lineage@[n] == l);
        }
        assert(in_ancestry(before, hash, h, l));
        assert(last[f].state == BlockState::Final && in_ancestry(before, hash, h, l));
    }
    assert forall|j: int| 0 <= j < before.len() implies (#[trigger] last[j]).id == before[j].id && (
    before[j].id != hash ==> last[j].header == before[j].header && last[j].operations
        == before[j].operations) by {
        assert(last[j].id == after[j].id && last[j].header == after[j].header);
        if j != i {
            assert(after[j] == before[j]);
        }
    }
    assert forall|j: int| before.len() <= j < last.len() implies (#[trigger] last[j]).id == hash
        || last[j].state == BlockState::Incoming by {
        assert(last[j].id == after[j].id);
        if j != i {
            assert(after[j].state == BlockState::Incoming);
        }
    }
    assert forall|j: int|
        0 <= j < before.len() && (#[trigger] before[j]).state != BlockState::WaitingForDeps
            && before[j].state != BlockState::Active && Some(before[j].id) != Some(
            hash,
        ) implies last[j] == before[j] by {
        assert(after[j] == before[j]);
    }
    if last == after {
        assert forall|j: int|
            0 <= j < before.len() && (#[trigger] before[j]).id != hash implies last[j]
            == before[j] by {
            assert(after[j] == before[j]);
        }
    }
    if quiet(after, last, hash) {
        assert forall|j: int|
            0 <= j < before.len() && (#[trigger] before[j]).id != hash implies last[j]
            == before[j] || dragged(last, before[j], last[j]) by {
            assert(after[j] == before[j]);
        }
    }
}

/// What was fresh in the queue after a hash was seated is fresh in the
/// queue of before.
pub(crate) proof fn lemma_seated_queue(
    before: Seq<Entry>,
    after: Seq<Entry>,
    hash: BlockId,
    i: int,
    queue_before: Seq<BlockId>,
    queue_after: Seq<BlockId>,
)
    requires
        seated(before, after, hash, i),
        queue_fresh(after, queue_before, queue_after),
    ensures
        queue_fresh(before, queue_before, queue_after),
{
    assert forall|x: BlockId| is_settled(before, x) implies is_settled(after, x) by {
        let w = choose|w: int|
            0 <= w < before.len() && #[trigger] before[w].id == x && before[w].settled();
        assert(after[w] == before[w]);
    }
}

/// What is hushed has settled nothing.
pub(crate) proof fn lemma_hushed_settles(before: Seq<Entry>, after: Seq<Entry>)
    requires
        hushed(before, after),
    ensures
        settles_nothing(before, after),
{
}

/// Hushed changes add up.
pub(crate) proof fn lemma_hushed_twice(a: Seq<Entry>, b: Seq<Entry>, c: Seq<Entry>)
    requires
        ids_unique(b),
        ids_unique(c),
        hushed(a, b),
        hushed(b, c),
    ensures
        hushed(a, c),
{
    lemma_hushed_settles(b, c);
    assert forall|j: int| 0 <= j < a.len() implies #[trigger] c[j] == a[j] || dragged(
        c,
        a[j],
        c[j],
    ) by {
        if b[j] != a[j] {
            assert(dragged(b, a[j], b[j]));
            assert(c[j] == b[j]);
            lemma_struck_stays(b, c, a[j].head());
        }
    }
}

/// A quiet change followed by a hushed one is quiet.
pub(crate) proof fn lemma_quiet_hushed(a: Seq<Entry>, b: Seq<Entry>, c: Seq<Entry>, id: BlockId)
    requires
        ids_unique(b),
        ids_unique(c),
        quiet(a, b, id),
        hushed(b, c),
    ensures
        quiet(a, c, id),
{
    lemma_hushed_settles(b, c);
    assert forall|j: int| 0 <= j < a.len() && (#[trigger] a[j]).id != id implies c[j] == a[j]
        || dragged(c, a[j], c[j]) by {
        if b[j] != a[j] {
            assert(dragged(b, a[j], b[j]));
            assert(c[j] == b[j]);
            lemma_struck_stays(b, c, a[j].head());
        }
    }
    assert forall|j: int| a.len() <= j < c.len() implies (#[trigger] c[j]).id == id || c[j].state
        == BlockState::Incoming by {
        assert(b[j].id == id || b[j].state == BlockState::Incoming);
        assert(c[j] == b[j] || dragged(c, b[j], c[j]));
    }
}

} // verus!
