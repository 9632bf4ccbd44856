//! Why a waiting block is discarded.

use crate::block::BlockId;
use super::calm::{content_kept, felled, lemma_outlived_widen, outlived, same_while, seated};
use super::model::{
    at_rest, BlockState, Entry, grown, incompatible, parents_review, Review, step_allowed,
    touches,
};
use super::rise::lineage_kept;
use vstd::prelude::*;

verus! {

/// Whether `mid` is a state of the entries on the way from `before` to
/// `after`: each entry is in a state between the one it had and the one it
/// has, with the header and the operations it has, as it is where it is in
/// the state it has, and with the lineage it has once it has become
/// active.
pub open spec fn between(before: Seq<Entry>, mid: Seq<Entry>, after: Seq<Entry>) -> bool {
    &&& before.len() <= mid.len()
    &&& mid.len() == after.len()
    &&& forall|x: int|
        0 <= x < mid.len() ==> {
            &&& (#[trigger] mid[x]).id == after[x].id
            &&& mid[x].header == after[x].header
            &&& mid[x].operations == after[x].operations
            &&& step_allowed(mid[x].state, after[x].state)
            &&& x < before.len() ==> step_allowed(before[x].state, mid[x].state)
            &&& mid[x].state == after[x].state ==> mid[x] == after[x]
            &&& mid[x].state != BlockState::Incoming && mid[x].state != BlockState::WaitingForDeps
                ==> mid[x].lineage == after[x].lineage
        }
}

/// Whether the entry `j`, which waited, was discarded on the way from
/// `before` to `after` because it could not go on waiting and could not
/// become active: in a state on the way, a parent ruled it out, or it had
/// all its parents and its operations and conflicted.
pub open spec fn dropped_at(before: Seq<Entry>, after: Seq<Entry>, j: int) -> bool {
    exists|mid: Seq<Entry>|
        #![trigger between(before, mid, after)]
        between(before, mid, after) && mid[j].state == BlockState::WaitingForDeps && !at_rest(
            mid,
            mid[j],
        ) && (parents_review(mid, mid[j].head()) == Review::Ready ==> incompatible(
            mid,
            mid[j].id,
            mid[j].head(),
        ))
}

/// Whether every entry of `before` that waited and is discarded in `after`
/// was discarded for a reason: it could neither go on waiting nor become
/// active, or it became active and lost to a block that became final.
pub open spec fn fell(before: Seq<Entry>, after: Seq<Entry>) -> bool {
    &&& before.len() <= after.len()
    &&& forall|j: int|
        0 <= j < before.len() && (#[trigger] before[j]).state == BlockState::WaitingForDeps
            && after[j].state == BlockState::Discarded ==> dropped_at(before, after, j)
            || outlived(before, after, after[j].id, after[j].lineage@)
}

/// A state on the way to `b` is a state on the way to `c`, which follows
/// on `b`.
pub(crate) proof fn lemma_between_on(a: Seq<Entry>, m: Seq<Entry>, b: Seq<Entry>, c: Seq<Entry>)
    requires
        b.len() == c.len(),
        between(a, m, b),
        grown(b, c),
        content_kept(b, c),
        lineage_kept(b, c),
        same_while(b, c),
    ensures
        between(a, m, c),
{
    assert forall|x: int| 0 <= x < m.len() implies {
        &&& (#[trigger] m[x]).id == c[x].id
        &&& m[x].header == c[x].header
        &&& m[x].operations == c[x].operations
        &&& step_allowed(m[x].state, c[x].state)
        &&& x < a.len() ==> step_allowed(a[x].state, m[x].state)
        &&& m[x].state == c[x].state ==> m[x] == c[x]
        &&& m[x].state != BlockState::Incoming && m[x].state != BlockState::WaitingForDeps
            ==> m[x].lineage == c[x].lineage
    } by {
        assert(c[x].id == b[x].id && step_allowed(b[x].state, c[x].state));
        assert(c[x].header == b[x].header && c[x].operations == b[x].operations);
        if m[x].state == c[x].state {
            assert(b[x].state == m[x].state);
            assert(c[x] == b[x]);
        }
    }
}

/// A state on the way from `b` is a state on the way from `a`, on which
/// `b` follows.
pub(crate) proof fn lemma_between_from(a: Seq<Entry>, b: Seq<Entry>, m: Seq<Entry>, c: Seq<Entry>)
    requires
        a.len() <= b.len(),
        between(b, m, c),
        forall|x: int|
            0 <= x < a.len() ==> step_allowed((#[trigger] a[x]).state, b[x].state),
    ensures
        between(a, m, c),
{
    assert forall|x: int| 0 <= x < m.len() implies {
        &&& (#[trigger] m[x]).id == c[x].id
        &&& m[x].header == c[x].header
        &&& m[x].operations == c[x].operations
        &&& step_allowed(m[x].state, c[x].state)
        &&& x < a.len() ==> step_allowed(a[x].state, m[x].state)
        &&& m[x].state == c[x].state ==> m[x] == c[x]
        &&& m[x].state != BlockState::Incoming && m[x].state != BlockState::WaitingForDeps
            ==> m[x].lineage == c[x].lineage
    } by {
        if x < a.len() {
            assert(step_allowed(a[x].state, b[x].state));
            assert(step_allowed(b[x].state, m[x].state));
        }
    }
}

/// Where the waiting entry `i`, which could neither go on waiting nor become
/// active, is discarded and nothing else changes, what fell fell for a
/// reason.
pub(crate) proof fn lemma_dropped_here(before: Seq<Entry>, after: Seq<Entry>, i: int)
    requires
        0 <= i < before.len(),
        before.len() == after.len(),
        forall|j: int| 0 <= j < before.len() && j != i ==> #[trigger] after[j] == before[j],
        before[i].state == BlockState::WaitingForDeps,
        after[i].state == BlockState::Discarded,
        after[i].id == before[i].id,
        after[i].header == before[i].header,
        after[i].operations == before[i].operations,
        !at_rest(before, before[i]),
        parents_review(before, before[i].head()) == Review::Ready ==> incompatible(
            before,
            before[i].id,
            before[i].head(),
        ),
    ensures
        fell(before, after),
{
    assert(between(before, before, after)) by {
        assert forall|x: int| 0 <= x < before.len() implies {
            &&& (#[trigger] before[x]).id == after[x].id
            &&& before[x].header == after[x].header
            &&& before[x].operations == after[x].operations
            &&& step_allowed(before[x].state, after[x].state)
            &&& before[x].state == after[x].state ==> before[x] == after[x]
            &&& before[x].state != BlockState::Incoming && before[x].state
                != BlockState::WaitingForDeps ==> before[x].lineage == after[x].lineage
        } by {
            if x != i {
                assert(after[x] == before[x]);
            }
        }
    }
    assert forall|j: int|
        0 <= j < before.len() && (#[trigger] before[j]).state == BlockState::WaitingForDeps
            && after[j].state == BlockState::Discarded implies dropped_at(before, after, j) by {
        if j != i {
            assert(after[j] == before[j]);
        }
    }
}

/// What fell since a discarded entry was put in the place of the entry
/// `i`, or behind the others, fell since before.
pub(crate) proof fn lemma_unseated_fell(
    before: Seq<Entry>,
    after: Seq<Entry>,
    last: Seq<Entry>,
    i: int,
)
    requires
        before.len() <= after.len(),
        0 <= i < after.len(),
        i < before.len() ==> before[i].state == BlockState::Incoming,
        forall|j: int| 0 <= j < before.len() && j != i ==> #[trigger] after[j] == before[j],
        after[i].state == BlockState::Discarded,
        last.len() == after.len(),
        fell(after, last),
    ensures
        fell(before, last),
{
    assert forall|x: int| 0 <= x < before.len() implies step_allowed(
        (#[trigger] before[x]).state,
        after[x].state,
    ) by {
        if x != i {
            assert(after[x] == before[x]);
        }
    }
    assert forall|j: int|
        0 <= j < before.len() && (#[trigger] before[j]).state == BlockState::WaitingForDeps
            && last[j].state == BlockState::Discarded implies dropped_at(before, last, j)
        || outlived(before, last, last[j].id, last[j].lineage@) by {
        assert(j != i);
        assert(after[j] == before[j]);
        if dropped_at(after, last, j) {
            let m = choose|m: Seq<Entry>|
                #![trigger between(after, m, last)]
                between(after, m, last) && m[j].state == BlockState::WaitingForDeps && !at_rest(
                    m,
                    m[j],
                ) && (parents_review(m, m[j].head()) == Review::Ready ==> incompatible(
                    m,
                    m[j].id,
                    m[j].head(),
                ));
            lemma_between_from(before, after, m, last);
            assert(between(before, m, last));
        } else {
            let f = choose|f: int|
                0 <= f < last.len() && (#[trigger] last[f]).state == BlockState::Final && (f
                    < after.len() ==> after[f].state != BlockState::Final) && last[f].id
                    != last[j].id && touches(last[j].lineage@, last[f].lineage@[0]);
            if f < before.len() && f != i {
                assert(after[f] == before[f]);
            }
            assert(last[f].state == BlockState::Final);
        }
    }
}

/// What fell over two changes fell over both.
pub(crate) proof fn lemma_fell_twice(a: Seq<Entry>, b: Seq<Entry>, c: Seq<Entry>)
    requires
        a.len() == b.len(),
        b.len() == c.len(),
        grown(a, b),
        grown(b, c),
        content_kept(b, c),
        lineage_kept(b, c),
        same_while(a, b),
        same_while(b, c),
        felled(b, c),
        fell(a, b),
        fell(b, c),
    ensures
        fell(a, c),
{
    assert forall|f: int| 0 <= f < b.len() && (#[trigger] b[f]).state
        == BlockState::Final implies c[f] == b[f] by {
        assert(c[f].id == b[f].id && step_allowed(b[f].state, c[f].state));
    }
    assert forall|j: int|
        0 <= j < a.len() && (#[trigger] a[j]).state == BlockState::WaitingForDeps && c[j].state
            == BlockState::Discarded implies dropped_at(a, c, j) || outlived(
        a,
        c,
        c[j].id,
        c[j].lineage@,
    ) by {
        assert(b[j].id == a[j].id && step_allowed(a[j].state, b[j].state));
        assert(c[j].id == b[j].id && step_allowed(b[j].state, c[j].state));
        if b[j].state == BlockState::Discarded {
            assert(c[j] == b[j]);
            if dropped_at(a, b, j) {
                let m = choose|m: Seq<Entry>|
                    #![trigger between(a, m, b)]
                    between(a, m, b) && m[j].state == BlockState::WaitingForDeps && !at_rest(
                        m,
                        m[j],
                    ) && (parents_review(m, m[j].head()) == Review::Ready ==> incompatible(
                        m,
                        m[j].id,
                        m[j].head(),
                    ));
                lemma_between_on(a, m, b, c);
                assert(between(a, m, c));
            } else {
                lemma_outlived_widen(a, b, c, c[j].id, c[j].lineage@);
            }
        } else if b[j].state == BlockState::WaitingForDeps {
            assert(b[j] == a[j]);
            if dropped_at(b, c, j) {
                let m = choose|m: Seq<Entry>|
                    #![trigger between(b, m, c)]
                    between(b, m, c) && m[j].state == BlockState::WaitingForDeps && !at_rest(
                        m,
                        m[j],
                    ) && (parents_review(m, m[j].head()) == Review::Ready ==> incompatible(
                        m,
                        m[j].id,
                        m[j].head(),
                    ));
                assert forall|x: int| 0 <= x < a.len() implies step_allowed(
                    (#[trigger] a[x]).state,
                    b[x].state,
                ) by {
                    assert(b[x].id == a[x].id && step_allowed(a[x].state, b[x].state));
                }
                lemma_between_from(a, b, m, c);
                assert(between(a, m, c));
            } else {
                lemma_outlived_widen(a, b, c, c[j].id, c[j].lineage@);
            }
        } else {
            assert(b[j].state == BlockState::Active);
            assert(c[j].lineage == b[j].lineage);
            assert(outlived(b, c, b[j].id, b[j].lineage@));
            lemma_outlived_widen(a, b, c, c[j].id, c[j].lineage@);
        }
    }
}

/// What fell since a hash was seated fell since before.
pub(crate) proof fn lemma_seated_fell(
    before: Seq<Entry>,
    after: Seq<Entry>,
    last: Seq<Entry>,
    hash: BlockId,
    i: int,
)
    requires
        seated(before, after, hash, i),
        i < before.len() ==> before[i].state == BlockState::Incoming || before[i].state
            == BlockState::WaitingForDeps,
        after[i].state == BlockState::WaitingForDeps,
        last.len() == after.len(),
        fell(after, last),
    ensures
        fell(before, last),
{
    assert forall|x: int| 0 <= x < before.len() implies step_allowed(
        (#[trigger] before[x]).state,
        after[x].state,
    ) by {
        if x != i {
            assert(after[x] == before[x]);
        }
    }
    assert forall|j: int|
        0 <= j < before.len() && (#[trigger] before[j]).state == BlockState::WaitingForDeps
            && last[j].state == BlockState::Discarded implies dropped_at(before, last, j)
        || outlived(before, last, last[j].id, last[j].lineage@) by {
        if j != i {
            assert(after[j] == before[j]);
        }
        assert(after[j].state == BlockState::WaitingForDeps);
        if dropped_at(after, last, j) {
            let m = choose|m: Seq<Entry>|
                #![trigger between(after, m, last)]
                between(after, m, last) && m[j].state == BlockState::WaitingForDeps && !at_rest(
                    m,
                    m[j],
                ) && (parents_review(m, m[j].head()) == Review::Ready ==> incompatible(
                    m,
                    m[j].id,
                    m[j].head(),
                ));
            lemma_between_from(before, after, m, last);
            assert(between(before, m, last));
        } else {
            let f = choose|f: int|
                0 <= f < last.len() && (#[trigger] last[f]).state == BlockState::Final && (f
                    < after.len() ==> after[f].state != BlockState::Final) && last[f].id
                    != last[j].id && touches(
                    last[j].lineage@,
                    last[f].lineage@[0],
                );
            if f < before.len() && f != i {
                assert(after[f] == before[f]);
            }
            assert(last[f].state == BlockState::Final);
        }
    }
}

} // verus!
