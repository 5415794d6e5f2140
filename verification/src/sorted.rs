//! Ascending sequences of slot indices, and sorted insertion and removal on
//! them. These are the mathematical counterparts of the pool's free-list
//! operations: releasing a slot inserts its index at the sorted position,
//! filling a free slot removes its index.

use vstd::prelude::*;

verus! {

/// Every element is strictly smaller than the elements after it.
pub open spec fn strictly_increasing(s: Seq<usize>) -> bool {
    forall|i: int, j: int| 0 <= i < j < s.len() ==> s[i] < s[j]
}

/// `v` inserted into the ascending sequence `s` just before the first element
/// larger than `v`; `s` itself if `v` already occurs.
pub open spec fn sorted_insert(s: Seq<usize>, v: usize) -> Seq<usize>
    decreases s.len(),
{
    if s.len() == 0 {
        seq![v]
    } else if v < s[0] {
        seq![v] + s
    } else if v == s[0] {
        s
    } else {
        seq![s[0]] + sorted_insert(s.drop_first(), v)
    }
}

/// `s` without the first occurrence of `v`; `s` itself if `v` does not occur.
pub open spec fn sorted_remove(s: Seq<usize>, v: usize) -> Seq<usize>
    decreases s.len(),
{
    if s.len() == 0 {
        s
    } else if s[0] == v {
        s.drop_first()
    } else {
        seq![s[0]] + sorted_remove(s.drop_first(), v)
    }
}

/// When every element before position `pos` is below `v` and every element
/// from `pos` on is above it, `sorted_insert` places `v` exactly at `pos`.
pub proof fn lemma_sorted_insert_at(s: Seq<usize>, v: usize, pos: int)
    requires
        0 <= pos <= s.len(),
        forall|j: int| 0 <= j < pos ==> s[j] < v,
        forall|j: int| pos <= j < s.len() ==> s[j] > v,
    ensures
        sorted_insert(s, v) == s.insert(pos, v),
    decreases s.len(),
{
    s.insert_ensures(pos, v);
    if s.len() == 0 {
        assert(sorted_insert(s, v) =~= s.insert(pos, v));
    } else if v < s[0] {
        assert(pos == 0);
        assert(seq![v] + s =~= s.insert(0, v));
    } else {
        assert(pos > 0);
        assert(s[0] < v);
        let t = s.drop_first();
        assert forall|j: int| 0 <= j < pos - 1 implies t[j] < v by {
            assert(t[j] == s[j + 1]);
        }
        assert forall|j: int| pos - 1 <= j < t.len() implies t[j] > v by {
            assert(t[j] == s[j + 1]);
        }
        lemma_sorted_insert_at(t, v, pos - 1);
        t.insert_ensures(pos - 1, v);
        assert(seq![s[0]] + t.insert(pos - 1, v) =~= s.insert(pos, v));
    }
}

/// Inserting an element that is already present leaves an ascending sequence
/// unchanged.
pub proof fn lemma_sorted_insert_present(s: Seq<usize>, v: usize)
    requires
        strictly_increasing(s),
        s.contains(v),
    ensures
        sorted_insert(s, v) == s,
    decreases s.len(),
{
    let i = choose|i: int| 0 <= i < s.len() && s[i] == v;
    if s[0] == v {
    } else {
        assert(i > 0);
        assert(s[0] < s[i]);
        let t = s.drop_first();
        assert(t[i - 1] == v);
        assert(t.contains(v));
        assert forall|a: int, b: int| 0 <= a < b < t.len() implies t[a] < t[b] by {
            assert(t[a] == s[a + 1]);
            assert(t[b] == s[b + 1]);
        }
        lemma_sorted_insert_present(t, v);
        assert(seq![s[0]] + t =~= s);
    }
}

/// When `v` first occurs at position `pos`, `sorted_remove` deletes exactly
/// that position.
pub proof fn lemma_sorted_remove_at(s: Seq<usize>, v: usize, pos: int)
    requires
        0 <= pos < s.len(),
        s[pos] == v,
        forall|j: int| 0 <= j < pos ==> s[j] != v,
    ensures
        sorted_remove(s, v) == s.remove(pos),
    decreases s.len(),
{
    s.remove_ensures(pos);
    if s[0] == v {
        assert(pos == 0);
        assert(s.drop_first() =~= s.remove(0));
    } else {
        assert(pos > 0);
        let t = s.drop_first();
        assert(t[pos - 1] == v);
        assert forall|j: int| 0 <= j < pos - 1 implies t[j] != v by {
            assert(t[j] == s[j + 1]);
        }
        lemma_sorted_remove_at(t, v, pos - 1);
        t.remove_ensures(pos - 1);
        assert(seq![s[0]] + t.remove(pos - 1) =~= s.remove(pos));
    }
}

/// Removing an element that does not occur leaves the sequence unchanged.
pub proof fn lemma_sorted_remove_absent(s: Seq<usize>, v: usize)
    requires
        !s.contains(v),
    ensures
        sorted_remove(s, v) == s,
    decreases s.len(),
{
    if s.len() == 0 {
    } else {
        assert(s[0] != v);
        let t = s.drop_first();
        assert forall|j: int| 0 <= j < t.len() implies t[j] != v by {
            assert(t[j] == s[j + 1]);
        }
        assert(!t.contains(v));
        lemma_sorted_remove_absent(t, v);
        assert(seq![s[0]] + t =~= s);
    }
}

/// An ascending sequence has no duplicates, so removing `v` once removes it
/// entirely.
pub proof fn lemma_sorted_remove_not_contains(s: Seq<usize>, v: usize)
    requires
        strictly_increasing(s),
    ensures
        !sorted_remove(s, v).contains(v),
    decreases s.len(),
{
    if s.len() == 0 {
    } else if s[0] == v {
        let t = s.drop_first();
        assert forall|j: int| 0 <= j < t.len() implies t[j] != v by {
            assert(t[j] == s[j + 1]);
            assert(s[0] < s[j + 1]);
        }
    } else {
        let t = s.drop_first();
        assert forall|a: int, b: int| 0 <= a < b < t.len() implies t[a] < t[b] by {
            assert(t[a] == s[a + 1]);
            assert(t[b] == s[b + 1]);
        }
        lemma_sorted_remove_not_contains(t, v);
        let r = seq![s[0]] + sorted_remove(t, v);
        assert forall|j: int| 0 <= j < r.len() implies r[j] != v by {
            if j > 0 {
                assert(r[j] == sorted_remove(t, v)[j - 1]);
                assert(sorted_remove(t, v).contains(sorted_remove(t, v)[j - 1])) by {
                    assert(0 <= j - 1 < sorted_remove(t, v).len());
                }
            }
        }
    }
}

/// Round trip: removing an element of an ascending sequence and inserting it
/// back restores the sequence.
pub proof fn lemma_sorted_remove_insert(s: Seq<usize>, v: usize)
    requires
        strictly_increasing(s),
        s.contains(v),
    ensures
        sorted_insert(sorted_remove(s, v), v) == s,
{
    let pos = choose|i: int| 0 <= i < s.len() && s[i] == v;
    assert forall|j: int| 0 <= j < pos implies s[j] != v by {
        assert(s[j] < s[pos]);
    }
    lemma_sorted_remove_at(s, v, pos);
    s.remove_ensures(pos);
    let r = s.remove(pos);
    assert forall|j: int| 0 <= j < pos implies r[j] < v by {
        assert(r[j] == s[j]);
    }
    assert forall|j: int| pos <= j < r.len() implies r[j] > v by {
        assert(r[j] == s[j + 1]);
    }
    lemma_sorted_insert_at(r, v, pos);
    r.insert_ensures(pos, v);
    assert(r.insert(pos, v) =~= s);
}

} // verus!
