//! The laws the pool obeys, stated and proved once and for all states.

use vstd::prelude::*;

use crate::pool::FilledEntry;
use crate::pool::Pool;
use crate::pool::PoolEntry;
use crate::sorted::lemma_sorted_insert_present;
use crate::sorted::lemma_sorted_remove_absent;
use crate::sorted::lemma_sorted_remove_insert;
use crate::sorted::lemma_sorted_remove_not_contains;
use crate::sorted::sorted_insert;
use crate::sorted::strictly_increasing;

verus! {

/// Ascending order: in every well-formed pool, enumerating the free indices
/// from the head yields a strictly increasing sequence.
pub proof fn lemma_free_indexes_ascending(p: Pool)
    requires
        p.wf(),
    ensures
        strictly_increasing(p.free_seq()),
{
}

/// Set equality: in every well-formed pool, the free-slot enumeration holds
/// exactly the indices whose slot is free.
pub proof fn lemma_free_indexes_set_equality(p: Pool)
    requires
        p.wf(),
    ensures
        forall|j: usize|
            j < p.len()
                ==> (p.free_seq().contains(j) <==> (#[trigger] p.entry_at(j as int)).is_free()),
{
    assert forall|j: usize|
        j < p.len()
            implies (p.free_seq().contains(j) <==> (#[trigger] p.entry_at(j as int)).is_free()) by {
        if p.free_seq().contains(j) {
            let k = choose|k: int| 0 <= k < p.free_seq().len() && p.free_seq()[k] == j;
            assert(p.free_seq()[k] == j);
            assert(p.entry_at(p.free_seq()[k] as int).is_free());
        }
    }
}

/// Idempotence of release: releasing the same index twice, with no
/// intervening fill, leaves the pool exactly as releasing it once did.
pub proof fn lemma_release_idempotent(p0: Pool, p1: Pool, p2: Pool, idx: usize)
    requires
        p0.wf(),
        idx < p0.len(),
        Pool::release_step(p0, p1, idx),
        Pool::release_step(p1, p2, idx),
    ensures
        p2.len() == p1.len(),
        p2.free_seq() == p1.free_seq(),
        p2.spec_head() == p1.spec_head(),
        forall|j: usize|
            j < p1.len() ==> #[trigger] p2.entry_at(j as int) == p1.entry_at(j as int),
{
    assert(p1.entry_at(idx as int).is_free());
    assert(p1.free_seq().contains(idx));
    lemma_sorted_insert_present(p1.free_seq(), idx);
    assert(p2.free_seq() == p1.free_seq());
    assert forall|j: usize|
        j < p1.len() implies #[trigger] p2.entry_at(j as int) == p1.entry_at(j as int) by {
        if p1.entry_at(j as int).is_free() {
            assert(p1.free_seq().contains(j));
            let k = choose|k: int| 0 <= k < p1.free_seq().len() && p1.free_seq()[k] == j;
            assert(p1.entry_at(p1.free_seq()[k] as int) == Pool::link_at(p1.free_seq(), k));
            assert(p2.entry_at(p2.free_seq()[k] as int) == Pool::link_at(p2.free_seq(), k));
        } else {
            assert(j != idx);
        }
    }
}

/// Idempotence of fill: filling the same occupied slot again, with another
/// payload, changes that slot's payload and nothing else; the free list and
/// every other slot stay exactly as they were.
pub proof fn lemma_fill_overwrite(
    p0: Pool,
    p1: Pool,
    p2: Pool,
    idx: usize,
    d1: FilledEntry,
    d2: FilledEntry,
)
    requires
        p0.wf(),
        idx < p0.len(),
        Pool::fill_step(p0, p1, idx, d1),
        Pool::fill_step(p1, p2, idx, d2),
    ensures
        p2.len() == p1.len(),
        p2.free_seq() == p1.free_seq(),
        p2.spec_head() == p1.spec_head(),
        p2.entry_at(idx as int) == (PoolEntry::Data(d2)),
        forall|j: usize|
            j < p1.len() && j != idx ==> #[trigger] p2.entry_at(j as int) == p1.entry_at(j as int),
{
    lemma_sorted_remove_not_contains(p0.free_seq(), idx);
    lemma_sorted_remove_absent(p1.free_seq(), idx);
    assert(p2.free_seq() == p1.free_seq());
    assert forall|j: usize|
        j < p1.len() && j != idx implies #[trigger] p2.entry_at(j as int) == p1.entry_at(
        j as int,
    ) by {
        if p1.entry_at(j as int).is_free() {
            assert(p1.free_seq().contains(j));
            let k = choose|k: int| 0 <= k < p1.free_seq().len() && p1.free_seq()[k] == j;
            assert(p1.entry_at(p1.free_seq()[k] as int) == Pool::link_at(p1.free_seq(), k));
            assert(p2.entry_at(p2.free_seq()[k] as int) == Pool::link_at(p2.free_seq(), k));
        }
    }
}

/// Round trip: filling a slot and releasing it again leaves the slot free,
/// with its index back in the enumeration at its sorted position; a slot
/// that was free to begin with comes back to exactly the old free list.
pub proof fn lemma_fill_release_round_trip(
    p0: Pool,
    p1: Pool,
    p2: Pool,
    idx: usize,
    data: FilledEntry,
)
    requires
        p0.wf(),
        idx < p0.len(),
        Pool::fill_step(p0, p1, idx, data),
        Pool::release_step(p1, p2, idx),
    ensures
        p2.entry_at(idx as int).is_free(),
        p2.free_seq() == sorted_insert(p0.free_seq(), idx),
        p0.entry_at(idx as int).is_free() ==> p2.free_seq() == p0.free_seq(),
        p2.free_seq().contains(idx),
        strictly_increasing(p2.free_seq()),
{
    let s = p0.free_seq();
    if s.contains(idx) {
        lemma_sorted_remove_insert(s, idx);
        lemma_sorted_insert_present(s, idx);
    } else {
        lemma_sorted_remove_absent(s, idx);
    }
    assert(p2.entry_at(idx as int).is_free());
    assert(p2.free_seq().contains(idx));
}

} // verus!

