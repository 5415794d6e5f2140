//! The pool itself: a preallocated array of slots, each either occupied by a
//! payload or free. Free slots carry the intrusive links of an index-ordered,
//! doubly linked free list, so releasing into sorted position costs a walk of
//! the free slots before the insertion point and filling a named slot costs
//! only the pointer rewrites around it.

use vstd::prelude::*;

use crate::sorted::lemma_sorted_insert_at;
use crate::sorted::lemma_sorted_insert_present;
use crate::sorted::lemma_sorted_remove_absent;
use crate::sorted::lemma_sorted_remove_at;
use crate::sorted::sorted_insert;
use crate::sorted::sorted_remove;
use crate::sorted::strictly_increasing;

verus! {

/// The payload of an occupied slot: an opaque byte buffer.
#[derive(Debug)]
pub struct FilledEntry {
    pub inner: Vec<u8>,
}

/// The intrusive links of a free slot: the indices of its neighbours on the
/// free list, in ascending order.
#[derive(Debug)]
pub struct EmptyEntry {
    pub prev: Option<usize>,
    pub next: Option<usize>,
}

/// One slot of the pool: occupied by a payload, or free and linked into the
/// free list.
#[derive(Debug)]
pub enum PoolEntry {
    Data(FilledEntry),
    Empty(EmptyEntry),
}

impl PoolEntry {
    /// Whether this slot is free.
    pub open spec fn is_free(self) -> bool {
        match self {
            PoolEntry::Empty(_) => true,
            PoolEntry::Data(_) => false,
        }
    }
}

/// A fixed number of slots together with the head of the free list.
pub struct Pool {
    entries: Vec<PoolEntry>,
    first_free: Option<usize>,
    free_list: Ghost<Seq<usize>>,
}

impl Pool {
    /// Number of slots, fixed at construction.
    pub closed spec fn len(&self) -> nat {
        self.entries@.len()
    }

    /// The slot at position `i`.
    pub closed spec fn entry_at(&self, i: int) -> PoolEntry {
        self.entries@[i]
    }

    /// The indices of the free slots, in ascending order.
    pub closed spec fn free_seq(&self) -> Seq<usize> {
        self.free_list@
    }

    /// The index of the first free slot, if any.
    pub closed spec fn spec_head(&self) -> Option<usize> {
        self.first_free
    }

    /// The slot value demanded at position `k` of the free sequence `s`: a
    /// free slot whose `prev` is the previous free index (none at the head)
    /// and whose `next` is the following one (none at the tail).
    pub open spec fn link_at(s: Seq<usize>, k: int) -> PoolEntry {
        PoolEntry::Empty(EmptyEntry {
            prev: if k == 0 {
                None
            } else {
                Some(s[k - 1])
            },
            next: if k == s.len() - 1 {
                None
            } else {
                Some(s[k + 1])
            },
        })
    }

    /// Each free slot's links agree with its position in the ascending free
    /// sequence.
    pub open spec fn free_links_ok(&self) -> bool {
        forall|k: int|
            #![trigger self.entry_at(self.free_seq()[k] as int)]
            0 <= k < self.free_seq().len() ==> {
                &&& self.free_seq()[k] < self.len()
                &&& self.entry_at(self.free_seq()[k] as int) == Self::link_at(self.free_seq(), k)
            }
    }

    /// The pool's invariant: the free sequence ascends strictly, the links
    /// thread it in order, every free slot is on it, and the head is its
    /// first element.
    pub open spec fn wf(&self) -> bool {
        &&& strictly_increasing(self.free_seq())
        &&& self.free_links_ok()
        &&& (forall|j: int|
            0 <= j < self.len() && (#[trigger] self.entry_at(j)).is_free()
                ==> self.free_seq().contains(j as usize))
        &&& self.spec_head() == (if self.free_seq().len() == 0 {
            None::<usize>
        } else {
            Some(self.free_seq()[0])
        })
    }

    /// How `set` changes a pool when `idx` is in range: slot `idx` now holds
    /// the payload, `idx` has left the free sequence, and every other slot
    /// keeps its state, occupied ones untouched.
    pub open spec fn fill_step(pre: Pool, post: Pool, idx: usize, data: FilledEntry) -> bool {
        &&& post.wf()
        &&& post.len() == pre.len()
        &&& post.entry_at(idx as int) == (PoolEntry::Data(data))
        &&& post.free_seq() == sorted_remove(pre.free_seq(), idx)
        &&& (forall|j: int|
            0 <= j < pre.len() && j != idx
                ==> (#[trigger] post.entry_at(j)).is_free() == pre.entry_at(j).is_free())
        &&& (forall|j: int|
            0 <= j < pre.len() && j != idx && !pre.entry_at(j).is_free()
                ==> #[trigger] post.entry_at(j) == pre.entry_at(j))
    }

    /// How `free` changes a pool when `idx` is in range: slot `idx` is free,
    /// `idx` stands at its sorted position in the free sequence, and every
    /// other slot keeps its state, occupied ones untouched.
    pub open spec fn release_step(pre: Pool, post: Pool, idx: usize) -> bool {
        &&& post.wf()
        &&& post.len() == pre.len()
        &&& post.entry_at(idx as int).is_free()
        &&& post.free_seq() == sorted_insert(pre.free_seq(), idx)
        &&& (forall|j: int|
            0 <= j < pre.len() && j != idx
                ==> (#[trigger] post.entry_at(j)).is_free() == pre.entry_at(j).is_free())
        &&& (forall|j: int|
            0 <= j < pre.len() && j != idx && !pre.entry_at(j).is_free()
                ==> #[trigger] post.entry_at(j) == pre.entry_at(j))
    }

    /// Create a pool of `size` slots, all free, linked in ascending order.
    #[verifier::loop_isolation(false)]
    pub fn new(size: usize) -> (r: Pool)
        ensures
            r.wf(),
            r.len() == size,
            r.free_seq() == Seq::new(size as nat, |i: int| i as usize),
            forall|j: int| 0 <= j < size ==> (#[trigger] r.entry_at(j)).is_free(),
            r.spec_head() == (if size == 0 {
                None::<usize>
            } else {
                Some(0usize)
            }),
    {
        let mut entries: Vec<PoolEntry> = Vec::new();
        let mut i: usize = 0;
        while i < size
            invariant
                i <= size,
                entries@.len() == i,
                forall|j: int|
                    0 <= j < i ==> #[trigger] entries@[j] == (PoolEntry::Empty(EmptyEntry {
                        prev: if j == 0 {
                            None
                        } else {
                            Some((j - 1) as usize)
                        },
                        next: if j + 1 == size {
                            None
                        } else {
                            Some((j + 1) as usize)
                        },
                    })),
            decreases size - i,
        {
            let prev: Option<usize> = if i == 0 {
                None
            } else {
                Some(i - 1)
            };
            let next: Option<usize> = if i + 1 == size {
                None
            } else {
                Some(i + 1)
            };
            entries.push(PoolEntry::Empty(EmptyEntry::new(prev, next)));
            i = i + 1;
        }
        let first_free: Option<usize> = if size > 0 {
            Some(0)
        } else {
            None
        };
        let r = Pool { entries, first_free, free_list: Ghost(Seq::new(size as nat, |i: int| i as usize)) };
        proof {
            let s = r.free_seq();
            assert forall|k: int|
                #![trigger r.entry_at(r.free_seq()[k] as int)]
                0 <= k < s.len() implies {
                &&& s[k] < r.len()
                &&& r.entry_at(s[k] as int) == Self::link_at(s, k)
            } by {
                assert(s[k] == k as usize);
                assert(r.entry_at(k) == r.entries@[k]);
            }
            assert forall|j: int|
                0 <= j < r.len() && (#[trigger] r.entry_at(j)).is_free()
                    implies r.free_seq().contains(j as usize) by {
                assert(s[j] == j as usize);
            }
        }
        r
    }

    /// The index of the first (smallest-index) free slot, or none if the pool
    /// is full.
    pub fn first_free(&self) -> (r: Option<usize>)
        ensures
            r == self.spec_head(),
    {
        self.first_free
    }

    /// Write `data` into slot `idx`: an overflowing index is ignored and
    /// signalled by `None`, an occupied slot has its payload overwritten in
    /// place, and a free slot is first unlinked from the free list in
    /// constant time through its own neighbour pointers.
    #[verifier::rlimit(60)]
    pub fn set(&mut self, idx: usize, data: FilledEntry) -> (r: Option<usize>)
        requires
            old(self).wf(),
        ensures
            final(self).wf(),
            idx < old(self).len() ==> r == Some(idx) && Pool::fill_step(
                *old(self),
                *final(self),
                idx,
                data,
            ),
            idx >= old(self).len() ==> r == None::<usize> && *final(self) == *old(self),
    {
        if idx >= self.entries.len() {
            return None;
        }
        let ghost s = self.free_seq();
        let links: Option<(Option<usize>, Option<usize>)> = match &self.entries[idx] {
            PoolEntry::Data(_) => None,
            PoolEntry::Empty(e) => Some((e.prev, e.next)),
        };
        match links {
            None => {
                // Already occupied: overwrite the payload, the free list is untouched.
                self.entries[idx] = PoolEntry::Data(data);
                proof {
                    assert(!s.contains(idx)) by {
                        if s.contains(idx) {
                            let k0 = choose|k0: int| 0 <= k0 < s.len() && s[k0] == idx;
                            assert(old(self).entry_at(s[k0] as int).is_free());
                        }
                    }
                    lemma_sorted_remove_absent(s, idx);
                    assert forall|k2: int|
                        #![trigger self.entry_at(self.free_seq()[k2] as int)]
                        0 <= k2 < self.free_seq().len() implies {
                        &&& self.free_seq()[k2] < self.len()
                        &&& self.entry_at(self.free_seq()[k2] as int) == Self::link_at(
                            self.free_seq(),
                            k2,
                        )
                    } by {
                        assert(old(self).entry_at(s[k2] as int) == Self::link_at(s, k2));
                        assert(s[k2] != idx);
                    }
                    assert forall|j: int|
                        0 <= j < self.len() && (#[trigger] self.entry_at(j)).is_free()
                            implies self.free_seq().contains(j as usize) by {
                        assert(j != idx);
                        assert(self.entry_at(j) == old(self).entry_at(j));
                    }
                }
                Some(idx)
            },
            Some((prev, next)) => {
                proof {
                    assert(old(self).entry_at(idx as int).is_free());
                    assert(s.contains(idx));
                }
                let ghost k = choose|k: int| 0 <= k < s.len() && s[k] == idx;
                proof {
                    assert(old(self).entry_at(s[k] as int) == Self::link_at(s, k));
                    assert(prev == (if k == 0 {
                        None::<usize>
                    } else {
                        Some(s[k - 1])
                    }));
                    assert(next == (if k == s.len() - 1 {
                        None::<usize>
                    } else {
                        Some(s[k + 1])
                    }));
                }
                let at_head = match self.first_free {
                    Some(h) => h == idx,
                    None => false,
                };
                if at_head {
                    self.first_free = next;
                }
                if let Some(p) = prev {
                    proof {
                        assert(k > 0 && p == s[k - 1]);
                        assert(old(self).entry_at(s[k - 1] as int) == Self::link_at(s, k - 1));
                        assert(s[k - 1] < old(self).len());
                    }
                    let p_prev = match &self.entries[p] {
                        PoolEntry::Empty(e) => e.prev,
                        PoolEntry::Data(_) => None,
                    };
                    self.entries[p] = PoolEntry::Empty(EmptyEntry { prev: p_prev, next });
                }
                if let Some(n) = next {
                    proof {
                        assert(k < s.len() - 1 && n == s[k + 1]);
                        assert(old(self).entry_at(s[k + 1] as int) == Self::link_at(s, k + 1));
                        assert(s[k + 1] < old(self).len());
                        if k > 0 {
                            assert(s[k - 1] != s[k + 1]);
                        }
                    }
                    let n_next = match &self.entries[n] {
                        PoolEntry::Empty(e) => e.next,
                        PoolEntry::Data(_) => None,
                    };
                    self.entries[n] = PoolEntry::Empty(EmptyEntry { prev, next: n_next });
                }
                self.entries[idx] = PoolEntry::Data(data);
                self.free_list = Ghost(s.remove(k));
                proof {
                    s.remove_ensures(k);
                    assert forall|j: int| 0 <= j < k implies s[j] != idx by {
                        assert(s[j] < s[k]);
                    }
                    lemma_sorted_remove_at(s, idx, k);
                    let news = self.free_seq();
                    assert(news == s.remove(k));
                    assert forall|a: int, b: int| 0 <= a < b < news.len() implies news[a]
                        < news[b] by {
                        assert(news[a] == (if a < k {
                            s[a]
                        } else {
                            s[a + 1]
                        }));
                        assert(news[b] == (if b < k {
                            s[b]
                        } else {
                            s[b + 1]
                        }));
                    }
                    assert forall|k2: int|
                        #![trigger self.entry_at(self.free_seq()[k2] as int)]
                        0 <= k2 < news.len() implies {
                        &&& news[k2] < self.len()
                        &&& self.entry_at(news[k2] as int) == Self::link_at(news, k2)
                    } by {
                        if k2 < k - 1 {
                            assert(old(self).entry_at(s[k2] as int) == Self::link_at(s, k2));
                            assert(news[k2] == s[k2]);
                            assert(s[k2] < s[k - 1] && s[k2] < s[k]);
                            if k < s.len() - 1 {
                                assert(s[k2] < s[k + 1]);
                            }
                        } else if k2 == k - 1 {
                            assert(news[k2] == s[k - 1]);
                            if k < s.len() - 1 {
                                assert(s[k - 1] != s[k + 1]);
                            }
                        } else if k2 == k {
                            assert(news[k2] == s[k + 1]);
                            assert(old(self).entry_at(s[k + 1] as int) == Self::link_at(s, k + 1));
                        } else {
                            assert(news[k2] == s[k2 + 1]);
                            assert(old(self).entry_at(s[k2 + 1] as int) == Self::link_at(
                                s,
                                k2 + 1,
                            ));
                            assert(s[k2 + 1] > s[k]);
                            if k > 0 {
                                assert(s[k2 + 1] > s[k - 1]);
                            }
                            if k < s.len() - 1 {
                                assert(k2 + 1 > k + 1 ==> s[k2 + 1] > s[k + 1]);
                            }
                        }
                    }
                    assert forall|j: int|
                        0 <= j < self.len() && (#[trigger] self.entry_at(j)).is_free()
                            implies self.free_seq().contains(j as usize) by {
                        assert(j != idx);
                        assert(old(self).entry_at(j).is_free());
                        assert(s.contains(j as usize));
                        let m = choose|m: int| 0 <= m < s.len() && s[m] == j as usize;
                        assert(m != k);
                        if m < k {
                            assert(news[m] == j as usize);
                        } else {
                            assert(news[m - 1] == j as usize);
                        }
                    }
                    if k == 0 {
                        assert(at_head);
                    } else {
                        assert(s[0] < s[k]);
                        assert(!at_head);
                        assert(news[0] == s[0]);
                    }
                }
                Some(idx)
            },
        }
    }

    /// Mark slot `idx` free: an overflowing index is ignored and signalled by
    /// `None`; a slot that is already free is left exactly as it is; an
    /// occupied slot is spliced into the free list at its sorted position.
    pub fn free(&mut self, idx: usize) -> (r: Option<usize>)
        requires
            old(self).wf(),
        ensures
            final(self).wf(),
            idx < old(self).len() ==> r == Some(idx) && Pool::release_step(
                *old(self),
                *final(self),
                idx,
            ),
            idx >= old(self).len() ==> r == None::<usize> && *final(self) == *old(self),
    {
        if idx >= self.entries.len() {
            return None;
        }
        let occupied = match &self.entries[idx] {
            PoolEntry::Data(_) => true,
            PoolEntry::Empty(_) => false,
        };
        if occupied {
            self.insert_on_free_list(idx);
        } else {
            proof {
                assert(old(self).entry_at(idx as int).is_free());
                assert(old(self).free_seq().contains(idx));
                lemma_sorted_insert_present(old(self).free_seq(), idx);
            }
        }
        Some(idx)
    }

    /// Splice the occupied slot `insert_index` into the free list at its
    /// sorted position: in front of the head if its index is smallest,
    /// otherwise after the last free slot whose index is below it, found by
    /// walking the list from the head.
    #[verifier::loop_isolation(false)]
    #[verifier::rlimit(60)]
    fn insert_on_free_list(&mut self, insert_index: usize)
        requires
            old(self).wf(),
            insert_index < old(self).len(),
            !old(self).entry_at(insert_index as int).is_free(),
        ensures
            final(self).wf(),
            Pool::release_step(*old(self), *final(self), insert_index),
    {
        let ghost s = old(self).free_seq();
        let first_free_index = match self.first_free {
            Some(f) => f,
            None => {
                // The free list is empty: the slot becomes its sole node.
                self.entries[insert_index] = PoolEntry::Empty(EmptyEntry { prev: None, next: None });
                self.first_free = Some(insert_index);
                let ghost sole: Seq<usize> = seq![insert_index];
                self.free_list = Ghost(sole);
                proof {
                    assert(s.len() == 0);
                    assert(sorted_insert(s, insert_index) =~= seq![insert_index]);
                    let news = self.free_seq();
                    assert forall|k2: int|
                        #![trigger self.entry_at(self.free_seq()[k2] as int)]
                        0 <= k2 < news.len() implies {
                        &&& news[k2] < self.len()
                        &&& self.entry_at(news[k2] as int) == Self::link_at(news, k2)
                    } by {
                        assert(k2 == 0);
                    }
                    assert forall|j: int|
                        0 <= j < self.len() && (#[trigger] self.entry_at(j)).is_free()
                            implies self.free_seq().contains(j as usize) by {
                        if j != insert_index {
                            assert(old(self).entry_at(j).is_free());
                            assert(s.contains(j as usize));
                        } else {
                            assert(self.free_seq()[0] == insert_index);
                        }
                    }
                }
                return;
            },
        };
        proof {
            assert(s.len() > 0 && first_free_index == s[0]);
            assert(old(self).entry_at(s[0] as int) == Self::link_at(s, 0));
            assert(s[0] < old(self).len());
            assert(insert_index != first_free_index);
        }
        if insert_index < first_free_index {
            // New smallest index: the slot becomes the new head.
            let h_next = match &self.entries[first_free_index] {
                PoolEntry::Empty(e) => e.next,
                PoolEntry::Data(_) => None,
            };
            self.entries[first_free_index] = PoolEntry::Empty(EmptyEntry {
                prev: Some(insert_index),
                next: h_next,
            });
            self.entries[insert_index] = PoolEntry::Empty(EmptyEntry {
                prev: None,
                next: Some(first_free_index),
            });
            self.first_free = Some(insert_index);
            let ghost fronted: Seq<usize> = seq![insert_index] + s;
            self.free_list = Ghost(fronted);
            proof {
                assert forall|j: int| 0 <= j < s.len() implies s[j] > insert_index by {
                    assert(s[0] <= s[j]);
                }
                lemma_sorted_insert_at(s, insert_index, 0);
                s.insert_ensures(0, insert_index);
                assert(seq![insert_index] + s =~= s.insert(0, insert_index));
                let news = self.free_seq();
                assert forall|k2: int|
                    #![trigger self.entry_at(self.free_seq()[k2] as int)]
                    0 <= k2 < news.len() implies {
                    &&& news[k2] < self.len()
                    &&& self.entry_at(news[k2] as int) == Self::link_at(news, k2)
                } by {
                    if k2 == 0 {
                        assert(news[0] == insert_index);
                        assert(news[1] == s[0]);
                    } else if k2 == 1 {
                        assert(news[1] == s[0]);
                    } else {
                        assert(news[k2] == s[k2 - 1]);
                        assert(old(self).entry_at(s[k2 - 1] as int) == Self::link_at(s, k2 - 1));
                        assert(s[k2 - 1] > s[0] && s[k2 - 1] > insert_index);
                    }
                }
                assert forall|a: int, b: int| 0 <= a < b < news.len() implies news[a] < news[b] by {
                    if a > 0 {
                        assert(news[a] == s[a - 1]);
                    }
                    assert(news[b] == s[b - 1]);
                }
                assert forall|j: int|
                    0 <= j < self.len() && (#[trigger] self.entry_at(j)).is_free()
                        implies self.free_seq().contains(j as usize) by {
                    if j == insert_index {
                        assert(news[0] == insert_index);
                    } else {
                        assert(old(self).entry_at(j).is_free());
                        assert(s.contains(j as usize));
                        let m = choose|m: int| 0 <= m < s.len() && s[m] == j as usize;
                        assert(news[m + 1] == j as usize);
                    }
                }
            }
            return;
        }
        proof {
            assert(s[0] < insert_index);
        }
        let mut current_idx = first_free_index;
        let ghost mut k: int = 0;
        let mut done = false;
        while !done
            invariant
                0 <= k < s.len(),
                s[k] == current_idx,
                forall|j: int| 0 <= j <= k ==> s[j] < insert_index,
                done ==> k == s.len() - 1 || s[k + 1] > insert_index,
            decreases s.len() - k + (if done {
                0int
            } else {
                1int
            }),
        {
            proof {
                assert(old(self).entry_at(s[k] as int) == Self::link_at(s, k));
                assert(s[k] < old(self).len());
            }
            let next_opt = match &self.entries[current_idx] {
                PoolEntry::Empty(e) => e.next,
                PoolEntry::Data(_) => None,
            };
            match next_opt {
                Some(n_idx) => {
                    if n_idx > insert_index {
                        done = true;
                    } else {
                        proof {
                            assert(k < s.len() - 1 && n_idx == s[k + 1]);
                            assert(old(self).entry_at(s[k + 1] as int).is_free());
                            assert(n_idx != insert_index);
                            k = k + 1;
                        }
                        current_idx = n_idx;
                    }
                },
                None => {
                    proof {
                        assert(k == s.len() - 1);
                    }
                    done = true;
                },
            }
        }
        // Splice in immediately after `current_idx`.
        let (cur_prev, former_next) = match &self.entries[current_idx] {
            PoolEntry::Empty(e) => (e.prev, e.next),
            PoolEntry::Data(_) => (None, None),
        };
        proof {
            assert(old(self).entry_at(s[k] as int) == Self::link_at(s, k));
            assert(former_next == (if k == s.len() - 1 {
                None::<usize>
            } else {
                Some(s[k + 1])
            }));
        }
        self.entries[current_idx] = PoolEntry::Empty(EmptyEntry {
            prev: cur_prev,
            next: Some(insert_index),
        });
        if let Some(n) = former_next {
            proof {
                assert(k < s.len() - 1 && n == s[k + 1]);
                assert(old(self).entry_at(s[k + 1] as int) == Self::link_at(s, k + 1));
                assert(s[k + 1] < old(self).len());
                assert(s[k] != s[k + 1]);
            }
            let n_next = match &self.entries[n] {
                PoolEntry::Empty(e) => e.next,
                PoolEntry::Data(_) => None,
            };
            self.entries[n] = PoolEntry::Empty(EmptyEntry {
                prev: Some(insert_index),
                next: n_next,
            });
        }
        self.entries[insert_index] = PoolEntry::Empty(EmptyEntry {
            prev: Some(current_idx),
            next: former_next,
        });
        self.free_list = Ghost(s.insert(k + 1, insert_index));
        proof {
            assert forall|j: int| k + 1 <= j < s.len() implies s[j] > insert_index by {
                if j > k + 1 {
                    assert(s[k + 1] < s[j]);
                }
            }
            lemma_sorted_insert_at(s, insert_index, k + 1);
            s.insert_ensures(k + 1, insert_index);
            let news = self.free_seq();
            assert(news == s.insert(k + 1, insert_index));
            assert forall|a: int, b: int| 0 <= a < b < news.len() implies news[a] < news[b] by {
                assert(news[a] == (if a < k + 1 {
                    s[a]
                } else if a == k + 1 {
                    insert_index
                } else {
                    s[a - 1]
                }));
                assert(news[b] == (if b < k + 1 {
                    s[b]
                } else if b == k + 1 {
                    insert_index
                } else {
                    s[b - 1]
                }));
            }
            assert forall|k2: int|
                #![trigger self.entry_at(self.free_seq()[k2] as int)]
                0 <= k2 < news.len() implies {
                &&& news[k2] < self.len()
                &&& self.entry_at(news[k2] as int) == Self::link_at(news, k2)
            } by {
                if k2 < k {
                    assert(news[k2] == s[k2]);
                    assert(old(self).entry_at(s[k2] as int) == Self::link_at(s, k2));
                    assert(s[k2] < s[k] && s[k2] < insert_index);
                    if k < s.len() - 1 {
                        assert(s[k2] < s[k + 1]);
                    }
                } else if k2 == k {
                    assert(news[k2] == s[k]);
                } else if k2 == k + 1 {
                    assert(news[k2] == insert_index);
                } else if k2 == k + 2 {
                    assert(news[k2] == s[k + 1]);
                } else {
                    assert(news[k2] == s[k2 - 1]);
                    assert(old(self).entry_at(s[k2 - 1] as int) == Self::link_at(s, k2 - 1));
                    assert(s[k2 - 1] > s[k + 1] && s[k2 - 1] > s[k]);
                    assert(s[k2 - 1] > insert_index);
                }
            }
            assert forall|j: int|
                0 <= j < self.len() && (#[trigger] self.entry_at(j)).is_free()
                    implies self.free_seq().contains(j as usize) by {
                if j == insert_index {
                    assert(news[k + 1] == insert_index);
                } else {
                    assert(old(self).entry_at(j).is_free());
                    assert(s.contains(j as usize));
                    let m = choose|m: int| 0 <= m < s.len() && s[m] == j as usize;
                    if m < k + 1 {
                        assert(news[m] == j as usize);
                    } else {
                        assert(news[m + 1] == j as usize);
                    }
                }
            }
            assert(news[0] == s[0]);
        }
    }

    /// A read-only view of the slot at `idx`, or none if `idx` is out of
    /// range.
    pub fn entry(&self, idx: usize) -> (r: Option<&PoolEntry>)
        ensures
            idx < self.len() ==> (r matches Some(e) && *e == self.entry_at(idx as int)),
            idx >= self.len() ==> r is None,
    {
        if idx < self.entries.len() {
            Some(&self.entries[idx])
        } else {
            None
        }
    }

    /// A fresh traversal of the free list, starting from the current head.
    pub fn free_indexes(&self) -> (r: PoolFreeIterator)
        requires
            self.wf(),
        ensures
            r.wf(),
            r.spec_pool() == *self,
            r.spec_pos() == 0,
    {
        PoolFreeIterator { pool: self, current_index: self.first_free, pos: Ghost(0) }
    }

    /// All free indices, in ascending order, collected by one traversal of
    /// the free list.
    #[verifier::loop_isolation(false)]
    pub fn free_index_vec(&self) -> (r: Vec<usize>)
        requires
            self.wf(),
        ensures
            r@ == self.free_seq(),
    {
        let mut it = self.free_indexes();
        let mut out: Vec<usize> = Vec::new();
        let mut done = false;
        while !done
            invariant
                it.wf(),
                it.spec_pool() == *self,
                out@ == self.free_seq().subrange(0, it.spec_pos()),
                done ==> it.spec_pos() == self.free_seq().len(),
            decreases self.free_seq().len() - it.spec_pos() + (if done {
                0int
            } else {
                1int
            }),
        {
            match it.next() {
                Some(i) => {
                    out.push(i);
                    proof {
                        assert(out@ =~= self.free_seq().subrange(0, it.spec_pos()));
                    }
                },
                None => {
                    done = true;
                },
            }
        }
        proof {
            assert(out@ =~= self.free_seq());
        }
        out
    }
}

/// A lazy, restartable traversal of a pool's free list, yielding the free
/// indices in ascending order.
pub struct PoolFreeIterator<'s> {
    pool: &'s Pool,
    current_index: Option<usize>,
    pos: Ghost<int>,
}

impl<'s> PoolFreeIterator<'s> {
    /// The pool being traversed.
    pub closed spec fn spec_pool(&self) -> Pool {
        *self.pool
    }

    /// How many free indices have been yielded so far.
    pub closed spec fn spec_pos(&self) -> int {
        self.pos@
    }

    /// The index the traversal stands on, or none once past the end.
    pub closed spec fn spec_current(&self) -> Option<usize> {
        self.current_index
    }

    /// The traversal stands at position `pos` of the free sequence, holding
    /// the index found there, or nothing once past the end.
    pub open spec fn wf(&self) -> bool {
        &&& self.spec_pool().wf()
        &&& 0 <= self.spec_pos() <= self.spec_pool().free_seq().len()
        &&& self.spec_current() == (if self.spec_pos() == self.spec_pool().free_seq().len() {
            None::<usize>
        } else {
            Some(self.spec_pool().free_seq()[self.spec_pos()])
        })
    }

    /// The next free index, in ascending order, or none once the traversal
    /// is done. A node claiming to be its own successor would mean a cycle;
    /// the traversal halts there rather than looping forever, though a
    /// well-formed pool never reaches that guard.
    pub fn next(&mut self) -> (r: Option<usize>)
        requires
            old(self).wf(),
        ensures
            final(self).wf(),
            final(self).spec_pool() == old(self).spec_pool(),
            old(self).spec_pos() < old(self).spec_pool().free_seq().len() ==> r == Some(
                old(self).spec_pool().free_seq()[old(self).spec_pos()],
            ) && final(self).spec_pos() == old(self).spec_pos() + 1,
            old(self).spec_pos() >= old(self).spec_pool().free_seq().len() ==> r == None::<usize>
                && final(self).spec_pos() == old(self).spec_pos(),
    {
        let p: &Pool = self.pool;
        let ghost s = p.free_seq();
        let ghost pos = self.pos@;
        let current_index = match self.current_index {
            Some(i) => i,
            None => {
                return None;
            },
        };
        proof {
            assert(current_index == s[pos]);
            assert(p.entry_at(s[pos] as int) == Pool::link_at(s, pos));
            assert(s[pos] < p.len());
        }
        match p.entry(current_index) {
            Some(e) => match e {
                PoolEntry::Empty(entry) => {
                    let stuck = match entry.next {
                        Some(nx) => nx == current_index,
                        None => false,
                    };
                    if stuck {
                        // Unreachable in a well-formed pool: the successor of a
                        // free slot has a strictly larger index.
                        proof {
                            assert(pos < s.len() - 1 && entry.next == Some(s[pos + 1]));
                            assert(s[pos] < s[pos + 1]);
                        }
                        return None;
                    }
                    self.current_index = entry.next;
                    self.pos = Ghost(pos + 1);
                    proof {
                        if pos + 1 == s.len() {
                            assert(entry.next == None::<usize>);
                        } else {
                            assert(entry.next == Some(s[pos + 1]));
                        }
                    }
                    Some(current_index)
                },
                PoolEntry::Data(_) => {
                    // Unreachable in a well-formed pool: every node on the
                    // free list is free.
                    proof {
                        assert(p.entry_at(s[pos] as int).is_free());
                    }
                    None
                },
            },
            None => {
                // Unreachable in a well-formed pool: every node on the free
                // list is in range.
                proof {
                    assert(s[pos] < p.len());
                }
                None
            },
        }
    }
}

impl EmptyEntry {
    /// Links a free slot to the given neighbours.
    pub fn new(prev: Option<usize>, next: Option<usize>) -> (r: EmptyEntry)
        ensures
            r.prev == prev,
            r.next == next,
    {
        EmptyEntry { prev, next }
    }
}

} // verus!
