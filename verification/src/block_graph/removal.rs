//! Why the conditions on the entries hold on when an entry leaves.

use crate::block::{BlockId, HeaderView};
use super::model::{
    actives_respect_finals, among, at_rest, BlockState, Clique, cliques_agree, cliques_ok,
    direct_conflict, Entry, final_ready, finality_rest, finals_agree, holds, ids_unique, in_lineage,
    is_active, is_settled, latest_ok, lead, lineages_closed, Link, named_by, named_in, parent_fault,
    parent_pending, parents_final, parents_review, parents_settled, position, queue_ok, referenced,
    removed, split, stand_together, waiting_rest, wanted,
};
use super::lemmas::lemma_position;
use vstd::prelude::*;

verus! {

/// The members of the cliques can stand together once an entry that is not
/// active has left.
pub(crate) proof fn lemma_removal_agree(before: Seq<Entry>, after: Seq<Entry>, j: int, cliques: Seq<Clique>)
    requires
        removed(before, after, j),
        ids_unique(before),
        before[j].state != BlockState::Active,
        cliques_ok(before, cliques),
        cliques_agree(before, cliques),
    ensures
        cliques_agree(after, cliques),
{
    reveal(cliques_ok);
    reveal(cliques_agree);
    assert forall|c: int, m: int, n: int|
        #![trigger cliques[c].members@[m], cliques[c].members@[n]]
        0 <= c < cliques.len() && 0 <= m < n < cliques[c].members@.len()
            implies cliques[c].members@[m] != cliques[c].members@[n] && stand_together(
        after,
        cliques[c].members@[m],
        cliques[c].members@[n],
    ) by {
        let x = cliques[c].members@[m];
        let y = cliques[c].members@[n];
        assert(is_active(before, x));
        assert(is_active(before, y));
        let wx = choose|w: int|
            0 <= w < before.len() && #[trigger] before[w].id == x && before[w].state
                == BlockState::Active;
        let wy = choose|w: int|
            0 <= w < before.len() && #[trigger] before[w].id == y && before[w].state
                == BlockState::Active;
        lemma_position(before, wx);
        lemma_position(before, wy);
        lemma_removal_position(before, after, j, x);
        lemma_removal_position(before, after, j, y);
    }
}

/// Where the identifiers stand once the entry `j` has left.
pub(crate) proof fn lemma_removal_position(before: Seq<Entry>, after: Seq<Entry>, j: int, id: BlockId)
    requires
        removed(before, after, j),
        ids_unique(before),
    ensures
        ids_unique(after),
        id == before[j].id ==> position(after, id) is None,
        id != before[j].id ==> match position(before, id) {
            Some(x) => x != j && position(after, id) == Some(
                if x < j {
                    x
                } else {
                    x - 1
                },
            ),
            None => position(after, id) is None,
        },
{
    assert forall|x: int, y: int| 0 <= x < y < after.len() implies #[trigger] after[x].id
        != #[trigger] after[y].id by {
        let sx = if x < j {
            x
        } else {
            x + 1
        };
        let sy = if y < j {
            y
        } else {
            y + 1
        };
        assert(before[sx].id != before[sy].id);
    }
    if exists|y: int| 0 <= y < after.len() && after[y].id == id {
        let y = choose|y: int| 0 <= y < after.len() && after[y].id == id;
        let sy = if y < j {
            y
        } else {
            y + 1
        };
        assert(before[sy].id == id);
        lemma_position(before, sy);
        lemma_position(after, y);
        if sy < j {
            assert(before[sy].id != before[j].id);
        } else {
            assert(before[j].id != before[sy].id);
        }
    }
    if id != before[j].id {
        match position(before, id) {
            Some(x) => {
                let y = if x < j {
                    x
                } else {
                    x - 1
                };
                assert(after[y].id == id);
                lemma_position(after, y);
            },
            None => {},
        }
    }
}

/// The entries are well formed, and the final blocks agree, once an entry
/// has left.
pub(crate) proof fn lemma_removal_finals(before: Seq<Entry>, after: Seq<Entry>, j: int, thread_count: u8)
    requires
        removed(before, after, j),
        forall|a: int| 0 <= a < before.len() ==> (#[trigger] before[a]).well_formed(thread_count),
        finals_agree(before),
    ensures
        forall|a: int| 0 <= a < after.len() ==> (#[trigger] after[a]).well_formed(thread_count),
        finals_agree(after),
{
    reveal(finals_agree);
    assert forall|a: int| 0 <= a < after.len() implies (#[trigger] after[a]).well_formed(
        thread_count,
    ) by {
        let sa = if a < j {
            a
        } else {
            a + 1
        };
        assert(before[sa].well_formed(thread_count));
    }
    assert forall|x: int, y: int|
        0 <= x < after.len() && 0 <= y < after.len() && after[x].state == BlockState::Final
            && after[y].state == BlockState::Final implies !direct_conflict(
        #[trigger] after[x].lineage@[0],
        #[trigger] after[y].lineage@[0],
    ) by {
        let sx = if x < j {
            x
        } else {
            x + 1
        };
        let sy = if y < j {
            y
        } else {
            y + 1
        };
        assert(!direct_conflict(before[sx].lineage@[0], before[sy].lineage@[0]));
    }
}

/// The active blocks respect the final blocks once an entry has left.
pub(crate) proof fn lemma_removal_respect(before: Seq<Entry>, after: Seq<Entry>, j: int)
    requires
        removed(before, after, j),
        actives_respect_finals(before),
    ensures
        actives_respect_finals(after),
{
    reveal(actives_respect_finals);
    assert forall|x: int, y: int, n: int|
        0 <= x < after.len() && 0 <= y < after.len() && after[x].state == BlockState::Active
            && after[y].state == BlockState::Final && 0 <= n
            < after[x].lineage@.len() implies !direct_conflict(
        #[trigger] after[x].lineage@[n],
        #[trigger] after[y].lineage@[0],
    ) by {
        let sx = if x < j {
            x
        } else {
            x + 1
        };
        let sy = if y < j {
            y
        } else {
            y + 1
        };
        assert(!direct_conflict(before[sx].lineage@[n], before[sy].lineage@[0]));
    }
}

/// The lineages are closed once an entry has left.
pub(crate) proof fn lemma_removal_closed(before: Seq<Entry>, after: Seq<Entry>, j: int)
    requires
        removed(before, after, j),
        lineages_closed(before),
    ensures
        lineages_closed(after),
{
    reveal(lineages_closed);
    assert forall|x: int, y: int, n: int|
        #![trigger after[x].lineage@, after[y].lineage@[n]]
        0 <= x < after.len() && 0 <= y < after.len() && after[x].state == BlockState::Active
            && after[y].state == BlockState::Active && 0 <= n < after[y].lineage@.len() && (
        exists|k: int|
            0 <= k < after[x].head().parents.len() && #[trigger] after[x].head().parents[k]
                == after[y].id) implies in_lineage(after[x].lineage@, after[y].lineage@[n]) by {
        let sx = if x < j {
            x
        } else {
            x + 1
        };
        let sy = if y < j {
            y
        } else {
            y + 1
        };
        let k = choose|k: int|
            0 <= k < after[x].head().parents.len() && #[trigger] after[x].head().parents[k]
                == after[y].id;
        assert(before[sx].head().parents[k] == before[sy].id);
        assert(in_lineage(before[sx].lineage@, before[sy].lineage@[n]));
    }
}

/// What is settled, and what is active, once an entry has left.
pub(crate) proof fn lemma_removal_settled(before: Seq<Entry>, after: Seq<Entry>, j: int, id: BlockId)
    requires
        removed(before, after, j),
        id != before[j].id,
    ensures
        is_settled(after, id) == is_settled(before, id),
        is_active(after, id) == is_active(before, id),
{
    if is_settled(before, id) {
        let w = choose|w: int|
            0 <= w < before.len() && #[trigger] before[w].id == id && before[w].settled();
        let y = if w < j {
            w
        } else {
            w - 1
        };
        assert(after[y].id == id && after[y].settled());
    }
    if is_settled(after, id) {
        let y = choose|y: int|
            0 <= y < after.len() && #[trigger] after[y].id == id && after[y].settled();
        let w = if y < j {
            y
        } else {
            y + 1
        };
        assert(before[w].id == id && before[w].settled());
    }
    if is_active(before, id) {
        let w = choose|w: int|
            0 <= w < before.len() && #[trigger] before[w].id == id && before[w].state
                == BlockState::Active;
        let y = if w < j {
            w
        } else {
            w - 1
        };
        assert(after[y].id == id && after[y].state == BlockState::Active);
    }
    if is_active(after, id) {
        let y = choose|y: int|
            0 <= y < after.len() && #[trigger] after[y].id == id && after[y].state
                == BlockState::Active;
        let w = if y < j {
            y
        } else {
            y + 1
        };
        assert(before[w].id == id && before[w].state == BlockState::Active);
    }
}

/// The parents of the active blocks are settled once an entry that no
/// active block names has left.
pub(crate) proof fn lemma_removal_parents(before: Seq<Entry>, after: Seq<Entry>, j: int)
    requires
        removed(before, after, j),
        !referenced(before, before[j].id),
        parents_settled(before),
    ensures
        parents_settled(after),
{
    reveal(parents_settled);
    assert forall|x: int, k: int|
        0 <= x < after.len() && after[x].state == BlockState::Active && 0 <= k
            < after[x].head().parents.len() implies is_settled(
        after,
        #[trigger] after[x].head().parents[k],
    ) by {
        let sx = if x < j {
            x
        } else {
            x + 1
        };
        let p = before[sx].head().parents[k];
        assert(is_settled(before, p));
        if p == before[j].id {
            assert(named_in(before[sx].head().parents, p));
            assert(referenced(before, before[j].id));
        }
        lemma_removal_settled(before, after, j, p);
    }
}

/// The latest final blocks are in order once a final block that is not one
/// of them, or an entry that is not final, has left.
pub(crate) proof fn lemma_removal_latest(
    before: Seq<Entry>,
    after: Seq<Entry>,
    j: int,
    latest: Seq<Link>,
    thread_count: u8,
)
    requires
        removed(before, after, j),
        before[j].state == BlockState::Final ==> before[j].lineage@[0]
            != latest[before[j].lineage@[0].slot.thread as int],
        latest_ok(before, latest, thread_count),
    ensures
        latest_ok(after, latest, thread_count),
{
    reveal(latest_ok);
    assert forall|t: int| #![trigger latest[t]] 0 <= t < thread_count implies latest[t].slot.thread
        == t && exists|y: int|
        0 <= y < after.len() && #[trigger] after[y].state == BlockState::Final
            && after[y].lineage@[0] == latest[t] by {
        let w = choose|w: int|
            0 <= w < before.len() && #[trigger] before[w].state == BlockState::Final
                && before[w].lineage@[0] == latest[t];
        assert(latest[t].slot.thread == t);
        assert(w != j);
        let y = if w < j {
            w
        } else {
            w - 1
        };
        assert(after[y].state == BlockState::Final && after[y].lineage@[0] == latest[t]);
    }
    assert forall|y: int|
        0 <= y < after.len() && #[trigger] after[y].state
            == BlockState::Final implies after[y].head().slot.thread < thread_count
        && after[y].head().slot.period
        <= latest[after[y].head().slot.thread as int].slot.period by {
        let w = if y < j {
            y
        } else {
            y + 1
        };
        assert(before[w].state == BlockState::Final);
    }
}

/// The queue holds settled blocks once an entry that is not settled, or a
/// final block that is not queued, has left.
pub(crate) proof fn lemma_removal_queue(before: Seq<Entry>, after: Seq<Entry>, j: int, queue: Seq<BlockId>)
    requires
        removed(before, after, j),
        ids_unique(before),
        !before[j].settled() || !holds(queue, before[j].id),
        queue_ok(before, queue),
    ensures
        queue_ok(after, queue),
{
    reveal(queue_ok);
    assert forall|q: int| 0 <= q < queue.len() implies is_settled(after, #[trigger] queue[q]) by {
        assert(is_settled(before, queue[q]));
        if queue[q] == before[j].id {
            let w = choose|w: int|
                0 <= w < before.len() && #[trigger] before[w].id == queue[q]
                    && before[w].settled();
            lemma_position(before, w);
            lemma_position(before, j);
            assert(holds(queue, before[j].id));
        }
        lemma_removal_settled(before, after, j, queue[q]);
    }
}

/// The cliques hold active blocks once an entry that is not active has
/// left.
pub(crate) proof fn lemma_removal_cliques(before: Seq<Entry>, after: Seq<Entry>, j: int, cliques: Seq<Clique>)
    requires
        removed(before, after, j),
        ids_unique(before),
        before[j].state != BlockState::Active,
        cliques_ok(before, cliques),
    ensures
        cliques_ok(after, cliques),
{
    reveal(cliques_ok);
    assert forall|c: int, m: int|
        0 <= c < cliques.len() && 0 <= m < cliques[c].members@.len() implies is_active(
        after,
        #[trigger] cliques[c].members@[m],
    ) by {
        let id = cliques[c].members@[m];
        assert(is_active(before, id));
        if id == before[j].id {
            let w = choose|w: int|
                0 <= w < before.len() && #[trigger] before[w].id == id && before[w].state
                    == BlockState::Active;
            lemma_position(before, w);
            lemma_position(before, j);
        }
        lemma_removal_settled(before, after, j, id);
    }
}

/// The review of a header that does not name the entry `j` is the same
/// once that entry has left.
pub(crate) proof fn lemma_removal_review(before: Seq<Entry>, after: Seq<Entry>, j: int, h: HeaderView)
    requires
        removed(before, after, j),
        ids_unique(before),
        !named_in(h.parents, before[j].id),
    ensures
        parents_review(after, h) == parents_review(before, h),
{
    assert forall|k: int| 0 <= k < h.parents.len() implies parent_fault(after, h, k)
        == parent_fault(before, h, k) && parent_pending(after, h, k) == parent_pending(
        before,
        h,
        k,
    ) by {
        assert(h.parents[k] != before[j].id);
        lemma_removal_position(before, after, j, h.parents[k]);
    }
    if exists|k: int| 0 <= k < h.parents.len() && parent_fault(after, h, k) {
        let k = choose|k: int| 0 <= k < h.parents.len() && parent_fault(after, h, k);
        assert(parent_fault(before, h, k));
    }
    if exists|k: int| 0 <= k < h.parents.len() && parent_fault(before, h, k) {
        let k = choose|k: int| 0 <= k < h.parents.len() && parent_fault(before, h, k);
        assert(parent_fault(after, h, k));
    }
    if exists|k: int| 0 <= k < h.parents.len() && parent_pending(after, h, k) {
        let k = choose|k: int| 0 <= k < h.parents.len() && parent_pending(after, h, k);
        assert(parent_pending(before, h, k));
    }
    if exists|k: int| 0 <= k < h.parents.len() && parent_pending(before, h, k) {
        let k = choose|k: int| 0 <= k < h.parents.len() && parent_pending(before, h, k);
        assert(parent_pending(after, h, k));
    }
}

/// The lead of a block among active members is the same once an entry that
/// is not active has left.
pub(crate) proof fn lemma_removal_lead(
    before: Seq<Entry>,
    after: Seq<Entry>,
    j: int,
    members: Seq<BlockId>,
    b: Link,
)
    requires
        removed(before, after, j),
        ids_unique(before),
        before[j].state != BlockState::Active,
        forall|m: int| 0 <= m < members.len() ==> is_active(before, #[trigger] members[m]),
    ensures
        lead(after, members, b) == lead(before, members, b),
    decreases members.len(),
{
    if members.len() > 0 {
        assert forall|m: int| 0 <= m < members.drop_last().len() implies is_active(
            before,
            #[trigger] members.drop_last()[m],
        ) by {
            assert(members.drop_last()[m] == members[m]);
        }
        lemma_removal_lead(before, after, j, members.drop_last(), b);
        let id = members.last();
        assert(is_active(before, members[members.len() - 1]));
        let w = choose|w: int|
            0 <= w < before.len() && #[trigger] before[w].id == id && before[w].state
                == BlockState::Active;
        lemma_position(before, w);
        lemma_removal_position(before, after, j, id);
    }
}

/// The waiting blocks are at rest once an entry that no waiting block names
/// has left.
pub(crate) proof fn lemma_removal_waiting(before: Seq<Entry>, after: Seq<Entry>, j: int)
    requires
        removed(before, after, j),
        ids_unique(before),
        !referenced(before, before[j].id),
        waiting_rest(before),
    ensures
        waiting_rest(after),
{
    reveal(waiting_rest);
    assert forall|x: int|
        0 <= x < after.len() && (#[trigger] after[x]).state
            == BlockState::WaitingForDeps implies at_rest(after, after[x]) by {
        let sx = if x < j {
            x
        } else {
            x + 1
        };
        assert(before[sx].state == BlockState::WaitingForDeps);
        if named_in(before[sx].head().parents, before[j].id) {
            assert(referenced(before, before[j].id));
        }
        lemma_removal_review(before, after, j, before[sx].head());
        assert(at_rest(before, before[sx]));
    }
}

/// The entry of `after` that stood at `sx` in `before` is to become final
/// only if it was.
pub(crate) proof fn lemma_removal_ready(
    before: Seq<Entry>,
    after: Seq<Entry>,
    j: int,
    cliques: Seq<Clique>,
    delta_f0: u64,
    x: int,
)
    requires
        removed(before, after, j),
        ids_unique(before),
        !referenced(before, before[j].id),
        before[j].state != BlockState::Active,
        forall|c: int, m: int|
            0 <= c < cliques.len() && 0 <= m < cliques[c].members@.len() ==> is_active(
                before,
                #[trigger] cliques[c].members@[m],
            ),
        0 <= x < after.len(),
        final_ready(after, cliques, delta_f0, x),
    ensures
        final_ready(
            before,
            cliques,
            delta_f0,
            if x < j {
                x
            } else {
                x + 1
            },
        ),
{
    let sx = if x < j {
        x
    } else {
        x + 1
    };
    assert(after[x] == before[sx]);
    let h = before[sx].head();
    assert forall|k: int| 0 <= k < h.parents.len() implies (position(
        before,
        #[trigger] h.parents[k],
    ) matches Some(w) && before[w].state == BlockState::Final) by {
        if h.parents[k] == before[j].id {
            assert(named_in(h.parents, before[j].id));
            assert(referenced(before, before[j].id));
        }
        lemma_removal_position(before, after, j, h.parents[k]);
    }
    assert(parents_final(before, h));
    assert forall|c: int|
        0 <= c < cliques.len() && holds(#[trigger] cliques[c].members@, before[sx].id) implies lead(
        before,
        cliques[c].members@,
        before[sx].lineage@[0],
    ) > delta_f0 by {
        lemma_removal_lead(before, after, j, cliques[c].members@, before[sx].lineage@[0]);
    }
}

/// No active block is to become final once an entry that is not active and
/// that no active block names has left.
pub(crate) proof fn lemma_removal_finality(
    before: Seq<Entry>,
    after: Seq<Entry>,
    j: int,
    cliques: Seq<Clique>,
    delta_f0: u64,
)
    requires
        removed(before, after, j),
        ids_unique(before),
        !referenced(before, before[j].id),
        before[j].state != BlockState::Active,
        cliques_ok(before, cliques),
        finality_rest(before, cliques, delta_f0),
    ensures
        finality_rest(after, cliques, delta_f0),
{
    reveal(finality_rest);
    reveal(cliques_ok);
    assert forall|x: int| 0 <= x < after.len() implies !final_ready(after, cliques, delta_f0, x) by {
        if final_ready(after, cliques, delta_f0, x) {
            lemma_removal_ready(before, after, j, cliques, delta_f0, x);
        }
    }
}

/// Whether an entry is named as a parent is the same once an entry that
/// neither waits nor is active has left.
pub(crate) proof fn lemma_removal_referenced(before: Seq<Entry>, after: Seq<Entry>, j: int, id: BlockId)
    requires
        removed(before, after, j),
        before[j].state != BlockState::WaitingForDeps,
        before[j].state != BlockState::Active,
    ensures
        referenced(after, id) == referenced(before, id),
{
    if referenced(before, id) {
        let x = choose|x: int|
            0 <= x < before.len() && ((#[trigger] before[x]).state == BlockState::WaitingForDeps
                || before[x].state == BlockState::Active) && named_in(
                before[x].head().parents,
                id,
            );
        let y = if x < j {
            x
        } else {
            x - 1
        };
        assert(after[y] == before[x]);
        assert((after[y].state == BlockState::WaitingForDeps || after[y].state
            == BlockState::Active) && named_in(after[y].head().parents, id));
    }
    if referenced(after, id) {
        let y = choose|y: int|
            0 <= y < after.len() && ((#[trigger] after[y]).state == BlockState::WaitingForDeps
                || after[y].state == BlockState::Active) && named_in(after[y].head().parents, id);
        let x = if y < j {
            y
        } else {
            y + 1
        };
        assert((before[x].state == BlockState::WaitingForDeps || before[x].state
            == BlockState::Active) && named_in(before[x].head().parents, id));
    }
}

/// The wishes stay when an entry leaves that neither waits nor is active
/// and that no waiting or active block names.
pub(crate) proof fn lemma_removal_wanted(before: Seq<Entry>, after: Seq<Entry>, j: int, id: BlockId)
    requires
        removed(before, after, j),
        ids_unique(before),
        before[j].state != BlockState::WaitingForDeps,
        before[j].state != BlockState::Active,
        !referenced(before, before[j].id),
    ensures
        wanted(after, id) == wanted(before, id),
{
    lemma_removal_position(before, after, j, id);
    if named_by(before, before.len() as int, id) {
        let x = choose|x: int|
            0 <= x < before.len() && x < before.len() && (#[trigger] before[x]).state
                == BlockState::WaitingForDeps && named_in(before[x].head().parents, id);
        let y = if x < j {
            x
        } else {
            x - 1
        };
        assert(after[y] == before[x]);
        assert(after[y].state == BlockState::WaitingForDeps && named_in(
            after[y].head().parents,
            id,
        ));
        assert(named_by(after, after.len() as int, id));
        assert(referenced(before, id));
    }
    if named_by(after, after.len() as int, id) {
        let y = choose|y: int|
            0 <= y < after.len() && y < after.len() && (#[trigger] after[y]).state
                == BlockState::WaitingForDeps && named_in(after[y].head().parents, id);
        let x = if y < j {
            y
        } else {
            y + 1
        };
        assert(before[x].state == BlockState::WaitingForDeps && named_in(
            before[x].head().parents,
            id,
        ));
        assert(named_by(before, before.len() as int, id));
    }
    if id != before[j].id {
        match position(before, id) {
            Some(x) => {
                let y = if x < j {
                    x
                } else {
                    x - 1
                };
                assert(after[y] == before[x]);
            },
            None => {},
        }
    }
}

/// `split` once one more entry has left.
pub(crate) proof fn lemma_split_step(
    before: Seq<Entry>,
    current: Seq<Entry>,
    next: Seq<Entry>,
    gone: Seq<Entry>,
    j: int,
)
    requires
        split(before, current, gone),
        removed(current, next, j),
        ids_unique(current),
    ensures
        split(before, next, gone.push(current[j])),
{
    let more = gone.push(current[j]);
    assert forall|y: int| 0 <= y < next.len() implies among(before, #[trigger] next[y]) by {
        let sy = if y < j {
            y
        } else {
            y + 1
        };
        assert(among(before, current[sy]));
    }
    assert forall|q: int| 0 <= q < more.len() implies among(before, #[trigger] more[q]) by {
        if q < gone.len() {
            assert(among(before, gone[q]));
        } else {
            assert(among(before, current[j]));
        }
    }
    assert forall|x: int| 0 <= x < before.len() implies among(next, #[trigger] before[x]) || among(
        more,
        before[x],
    ) by {
        if among(current, before[x]) {
            let c = choose|c: int| 0 <= c < current.len() && #[trigger] current[c] == before[x];
            if c == j {
                assert(more[gone.len() as int] == before[x]);
            } else {
                let y = if c < j {
                    c
                } else {
                    c - 1
                };
                assert(next[y] == before[x]);
            }
        } else {
            let q = choose|q: int| 0 <= q < gone.len() && #[trigger] gone[q] == before[x];
            assert(more[q] == before[x]);
        }
    }
    assert forall|y: int, q: int| 0 <= y < next.len() && 0 <= q < more.len() implies (
    #[trigger] next[y]).id != (#[trigger] more[q]).id by {
        let sy = if y < j {
            y
        } else {
            y + 1
        };
        if q < gone.len() {
            assert(current[sy].id != gone[q].id);
        } else {
            if sy < j {
                assert(current[sy].id != current[j].id);
            } else {
                assert(current[j].id != current[sy].id);
            }
        }
    }
}

} // verus!
