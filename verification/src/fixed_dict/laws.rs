//! What holds of every table, proved from the definitions of insertion and
//! draw.

use vstd::prelude::*;
use vstd::arithmetic::power2::is_pow2;
use crate::error::Error;
use crate::iterator::IndexGenerator;
use crate::fixed_dict::layout::Slot;
use crate::fixed_dict::model::DictModel;

verus! {

/// One for an occupied slot, zero for a free one.
pub open spec fn weight(slot: Slot) -> nat {
    if slot.occupied {
        1
    } else {
        0
    }
}

/// The number of occupied slots among `slots`.
pub open spec fn occupied_count(slots: Seq<Slot>) -> nat
    decreases slots.len(),
{
    if slots.len() == 0 {
        0
    } else {
        occupied_count(slots.drop_last()) + weight(slots.last())
    }
}

/// There are at most as many occupied slots as slots, and as many exactly
/// when every slot is occupied.
pub proof fn lemma_occupied_count_bounds(slots: Seq<Slot>)
    ensures
        occupied_count(slots) <= slots.len(),
        occupied_count(slots) == slots.len() <==> forall|i: int|
            0 <= i < slots.len() ==> (#[trigger] slots[i]).occupied,
    decreases slots.len(),
{
    if slots.len() > 0 {
        let front = slots.drop_last();
        lemma_occupied_count_bounds(front);
        if occupied_count(slots) == slots.len() {
            assert forall|i: int| 0 <= i < slots.len() implies (#[trigger] slots[i]).occupied by {
                if i < front.len() {
                    assert(front[i].occupied);
                }
            }
        }
        if forall|i: int| 0 <= i < slots.len() ==> (#[trigger] slots[i]).occupied {
            assert forall|i: int| 0 <= i < front.len() implies (#[trigger] front[i]).occupied by {
                assert(slots[i].occupied);
            }
        }
    }
}

/// The count is zero exactly when every slot is free.
pub proof fn lemma_occupied_count_zero(slots: Seq<Slot>)
    ensures
        occupied_count(slots) == 0 <==> forall|i: int|
            0 <= i < slots.len() ==> !(#[trigger] slots[i]).occupied,
    decreases slots.len(),
{
    if slots.len() > 0 {
        let front = slots.drop_last();
        lemma_occupied_count_zero(front);
        if occupied_count(slots) == 0 {
            assert forall|i: int| 0 <= i < slots.len() implies !(#[trigger] slots[i]).occupied by {
                if i < front.len() {
                    assert(!front[i].occupied);
                }
            }
        }
        if forall|i: int| 0 <= i < slots.len() ==> !(#[trigger] slots[i]).occupied {
            assert forall|i: int| 0 <= i < front.len() implies !(#[trigger] front[i]).occupied by {
                assert(!slots[i].occupied);
            }
            assert(!slots[slots.len() - 1].occupied);
        }
    }
}

/// Replacing one slot changes the count by what the slot's own state
/// changes.
pub proof fn lemma_occupied_count_update(slots: Seq<Slot>, i: int, slot: Slot)
    requires
        0 <= i < slots.len(),
    ensures
        occupied_count(slots.update(i, slot)) + weight(slots[i]) == occupied_count(slots) + weight(
            slot,
        ),
    decreases slots.len(),
{
    let after = slots.update(i, slot);
    if i == slots.len() - 1 {
        assert(after.drop_last() =~= slots.drop_last());
    } else {
        assert(after.drop_last() =~= slots.drop_last().update(i, slot));
        lemma_occupied_count_update(slots.drop_last(), i, slot);
    }
}

impl DictModel {
    /// Whether some occupied slot is bound to `key`.
    pub open spec fn contains(self, key: usize) -> bool {
        exists|i: int| 0 <= i < self.capacity() && #[trigger] self.holds(i, key)
    }

    /// Whether slot `p`, and no other, is occupied and bound to `key`.
    pub open spec fn only_at(self, key: usize, p: int) -> bool {
        &&& 0 <= p < self.capacity()
        &&& self.holds(p, key)
        &&& forall|i: int| 0 <= i < self.capacity() && i != p ==> !#[trigger] self.holds(i, key)
    }

    /// Whether every slot is occupied.
    pub open spec fn is_full(self) -> bool {
        forall|i: int| 0 <= i < self.capacity() ==> (#[trigger] self.slots[i]).occupied
    }

    /// The number of occupied slots.
    pub open spec fn occupied(self) -> nat {
        occupied_count(self.slots)
    }

    /// No two occupied slots are bound to one key.
    pub open spec fn keys_distinct(self) -> bool {
        forall|i: int, j: int|
            #![trigger self.slots[i], self.slots[j]]
            0 <= i < j < self.capacity() && self.slots[i].occupied && self.slots[j].occupied
                ==> self.slots[i].key != self.slots[j].key
    }

    /// Every occupied slot has a draw left.
    pub open spec fn counters_positive(self) -> bool {
        forall|i: int|
            #![trigger self.slots[i]]
            0 <= i < self.capacity() && self.slots[i].occupied ==> self.slots[i].counter > 0
    }

    /// What holds of a table whose users insert no key that is still
    /// bound and no binding without a task.
    pub open spec fn well_used(self) -> bool {
        &&& self.wf()
        &&& self.keys_distinct()
        &&& self.counters_positive()
    }

    /// The table after `n` draws for `key`.
    pub open spec fn after_gets(self, key: usize, n: nat) -> DictModel
        decreases n,
    {
        if n == 0 {
            self
        } else {
            self.get(key).after_gets(key, (n - 1) as nat)
        }
    }

    /// The table after the insertions of `keys`, in order, each with the
    /// number of tasks that `tasks` gives at the same place.
    pub open spec fn after_sets(self, keys: Seq<usize>, tasks: Seq<usize>) -> DictModel
        decreases keys.len(),
    {
        if keys.len() == 0 {
            self
        } else {
            self.after_sets(keys.drop_last(), tasks.drop_last()).set(keys.last(), tasks.last())
        }
    }

    /// Where some probe meets a slot bound to `key`, some probe is the first
    /// to do so.
    proof fn lemma_first_match_exists(self, key: usize, j: int)
        requires
            0 <= j < self.capacity(),
            self.holds(self.probe(key, j), key),
        ensures
            exists|w: int| self.is_first_match(key, w),
        decreases j,
    {
        if forall|k: int| 0 <= k < j ==> !self.holds(#[trigger] self.probe(key, k), key) {
            assert(self.is_first_match(key, j));
        } else {
            let k = choose|k: int| 0 <= k < j && self.holds(#[trigger] self.probe(key, k), key);
            self.lemma_first_match_exists(key, k);
        }
    }

    /// Where some probe meets a free slot, some probe is the first to do so.
    proof fn lemma_first_free_exists(self, key: usize, j: int)
        requires
            0 <= j < self.capacity(),
            !self.slots[self.probe(key, j)].occupied,
        ensures
            exists|w: int| self.is_first_free(key, w),
        decreases j,
    {
        if forall|k: int| 0 <= k < j ==> self.slots[#[trigger] self.probe(key, k)].occupied {
            assert(self.is_first_free(key, j));
        } else {
            let k = choose|k: int| 0 <= k < j && !self.slots[#[trigger] self.probe(key, k)].occupied;
            self.lemma_first_free_exists(key, k);
        }
    }

    /// A draw for `key` finds a slot exactly when some occupied slot is
    /// bound to `key`, wherever in the table it lies.
    pub proof fn lemma_find_iff_contains(self, key: usize)
        requires
            is_pow2(self.capacity() as int),
        ensures
            self.find(key) is Some <==> self.contains(key),
            self.get_result(key) is Err <==> !self.contains(key),
    {
        if self.contains(key) {
            let i = choose|i: int| 0 <= i < self.capacity() && #[trigger] self.holds(i, key);
            let j = self.lemma_probe_covers(key, i);
            self.lemma_first_match_exists(key, j);
        }
        if self.find(key) is Some {
            self.lemma_find_holds(key);
        }
    }

    /// An insertion finds a slot exactly when some slot is free, wherever in
    /// the table it lies and wherever the probe sequence starts.
    pub proof fn lemma_set_fails_iff_full(self, key: usize)
        requires
            is_pow2(self.capacity() as int),
        ensures
            self.first_free(key) is None <==> self.is_full(),
            self.set_result(key) is Err <==> self.is_full(),
            self.is_full() <==> self.occupied() == self.capacity(),
    {
        lemma_occupied_count_bounds(self.slots);
        if !self.is_full() {
            let i = choose|i: int| 0 <= i < self.capacity() && !(#[trigger] self.slots[i]).occupied;
            let j = self.lemma_probe_covers(key, i);
            self.lemma_first_free_exists(key, j);
        }
        if self.first_free(key) is Some {
            self.lemma_first_free_is_free(key);
        }
    }

    /// Where only slot `p` is bound to `key`, a draw for `key` reaches `p`.
    pub proof fn lemma_find_only_at(self, key: usize, p: int)
        requires
            is_pow2(self.capacity() as int),
            self.only_at(key, p),
        ensures
            self.find(key) == Some(p),
    {
        self.lemma_find_iff_contains(key);
        self.lemma_find_holds(key);
    }

    /// A successful insertion occupies one slot more; a failed one changes
    /// nothing. It succeeds exactly while fewer than `capacity` slots are
    /// occupied.
    pub proof fn lemma_set_occupies(self, key: usize, total_tasks: usize)
        requires
            self.wf(),
        ensures
            self.set_result(key) is Ok <==> self.occupied() < self.capacity(),
            self.set_result(key) is Ok ==> self.set(key, total_tasks).occupied() == self.occupied()
                + 1,
            self.set_result(key) is Err ==> self.set(key, total_tasks) == self,
    {
        self.lemma_set_fails_iff_full(key);
        lemma_occupied_count_bounds(self.slots);
        if self.first_free(key) is Some {
            self.lemma_first_free_is_free(key);
            lemma_occupied_count_update(
                self.slots,
                self.first_free(key).unwrap(),
                self.fresh_slot(key, total_tasks),
            );
        }
    }

    /// After any insertions the table is well formed, has the capacity it
    /// had, and holds one binding more for each insertion until it is full.
    pub proof fn lemma_after_sets(self, keys: Seq<usize>, tasks: Seq<usize>)
        requires
            self.wf(),
            keys.len() == tasks.len(),
        ensures
            ({
                let table = self.after_sets(keys, tasks);
                let asked = self.occupied() + keys.len();
                &&& table.wf()
                &&& table.capacity() == self.capacity()
                &&& asked <= self.capacity() ==> table.occupied() == asked
                &&& asked >= self.capacity() ==> table.occupied() == self.capacity()
            }),
        decreases keys.len(),
    {
        lemma_occupied_count_bounds(self.slots);
        if keys.len() > 0 {
            let before = self.after_sets(keys.drop_last(), tasks.drop_last());
            self.lemma_after_sets(keys.drop_last(), tasks.drop_last());
            before.lemma_wf_kept(keys.last(), tasks.last());
            before.lemma_set_occupies(keys.last(), tasks.last());
        }
    }

    /// A table without bindings takes `capacity` insertions, whatever the
    /// keys are and wherever their probe sequences start: after fewer than
    /// `capacity` insertions the next one succeeds, and after `capacity` of
    /// them the next one fails for want of a free slot.
    pub proof fn lemma_exhaustion(self, keys: Seq<usize>, tasks: Seq<usize>, key: usize)
        requires
            self.wf(),
            self.occupied() == 0,
            keys.len() == tasks.len(),
            keys.len() <= self.capacity(),
        ensures
            ({
                let result = self.after_sets(keys, tasks).set_result(key);
                &&& keys.len() < self.capacity() ==> result == Ok::<(), Error>(())
                &&& keys.len() == self.capacity() ==> result == Err::<(), Error>(Error::NoFreeSlot)
            }),
    {
        self.lemma_after_sets(keys, tasks);
        self.after_sets(keys, tasks).lemma_set_occupies(key, 0);
        self.after_sets(keys, tasks).lemma_set_fails_iff_full(key);
    }

    /// What is done for one key leaves the bindings of every other key as
    /// they are.
    pub proof fn lemma_other_keys_kept(self, key: usize, total_tasks: usize, i: int)
        requires
            self.wf(),
            0 <= i < self.capacity(),
            self.slots[i].occupied,
            self.slots[i].key != key,
        ensures
            self.set(key, total_tasks).slots[i] == self.slots[i],
            self.get(key).slots[i] == self.slots[i],
    {
        if self.first_free(key) is Some {
            self.lemma_first_free_is_free(key);
        }
        if self.find(key) is Some {
            self.lemma_find_holds(key);
        }
    }

    /// Draws from the one slot bound to `key`: while the slot has tasks left
    /// each draw returns the next position of the slot's generator, the
    /// other slots stay as they are, and the draw that uses the last task
    /// leaves no slot bound to `key`.
    pub proof fn lemma_draws(self, key: usize, p: int, k: nat)
        requires
            self.wf(),
            self.only_at(key, p),
            self.slots[p].counter >= 1,
            k <= self.slots[p].counter,
        ensures
            ({
                let table = self.after_gets(key, k);
                let index = self.slots[p].index.advanced_by(k);
                let counter = (self.slots[p].counter - k) as usize;
                &&& table.wf()
                &&& table.capacity() == self.capacity()
                &&& table.nb_of_queues == self.nb_of_queues
                &&& forall|i: int|
                    0 <= i < self.capacity() && i != p ==> #[trigger] table.slots[i]
                        == self.slots[i]
                &&& counter > 0 ==> table.slots[p] == (Slot { key, index, counter, occupied: true })
                &&& counter > 0 ==> table.get_result(key) == Ok::<usize, Error>(index.current_index)
                &&& counter == 0 ==> !table.slots[p].occupied
                &&& counter == 0 ==> !table.contains(key)
            }),
        decreases k,
    {
        self.lemma_find_only_at(key, p);
        if k > 0 {
            let u = self.get(key);
            self.lemma_wf_kept(key, 0);
            if self.slots[p].counter == 1 {
                assert(u.after_gets(key, 0) == u);
                assert forall|i: int| 0 <= i < u.capacity() implies !#[trigger] u.holds(i, key) by {
                    if i != p {
                        assert(!self.holds(i, key));
                    }
                }
            } else {
                assert forall|i: int| 0 <= i < u.capacity() && i != p implies !#[trigger] u.holds(
                    i,
                    key,
                ) by {
                    assert(!self.holds(i, key));
                }
                u.lemma_draws(key, p, (k - 1) as nat);
            }
        }
    }

    /// Round robin. A key that is not bound, inserted with `total_tasks`
    /// tasks into a table with a free slot, is drawn `total_tasks` times:
    /// draw number `i`, counted from zero, returns `i mod nb_of_queues`. The
    /// key stays bound up to the last of these draws, which frees the slot,
    /// so that one more draw fails.
    pub proof fn lemma_round_robin(self, key: usize, total_tasks: usize, i: nat)
        requires
            self.wf(),
            !self.contains(key),
            !self.is_full(),
            total_tasks >= 1,
            i <= total_tasks,
        ensures
            self.set_result(key) == Ok::<(), Error>(()),
            ({
                let table = self.set(key, total_tasks).after_gets(key, i);
                let queue = ((i as int) % (self.nb_of_queues as int)) as usize;
                &&& i < total_tasks ==> table.contains(key)
                &&& i < total_tasks ==> table.get_result(key) == Ok::<usize, Error>(queue)
                &&& i == total_tasks ==> !table.contains(key)
                &&& i == total_tasks ==> table.get_result(key) == Err::<usize, Error>(
                    Error::KeyNotFound,
                )
            }),
    {
        self.lemma_set_fails_iff_full(key);
        self.lemma_first_free_is_free(key);
        self.lemma_wf_kept(key, total_tasks);
        let p = self.first_free(key).unwrap();
        let t = self.set(key, total_tasks);
        assert forall|j: int| 0 <= j < t.capacity() && j != p implies !#[trigger] t.holds(j, key) by {
            assert(!self.holds(j, key));
        }
        t.lemma_draws(key, p, i);
        t.after_gets(key, i).lemma_find_iff_contains(key);
        let fresh = IndexGenerator { nb_of_queues: self.nb_of_queues, current_index: 0 };
        fresh.lemma_advanced_by(i);
        if i < total_tasks {
            assert(t.after_gets(key, i).holds(p, key));
        }
    }

    /// Reuse. Once the draw that uses a key's last task has freed its slot,
    /// the key can be inserted again, and its draws start over at zero.
    pub proof fn lemma_reuse(self, key: usize, total_tasks: usize)
        requires
            self.wf(),
            self.keys_distinct(),
            self.find(key) is Some,
            self.slots[self.find(key).unwrap()].counter == 1,
        ensures
            !self.get(key).contains(key),
            self.get(key).set_result(key) == Ok::<(), Error>(()),
            self.get(key).set(key, total_tasks).get_result(key) == Ok::<usize, Error>(0),
    {
        self.lemma_find_holds(key);
        self.lemma_wf_kept(key, total_tasks);
        let p = self.find(key).unwrap();
        let u = self.get(key);
        assert forall|i: int| 0 <= i < u.capacity() implies !#[trigger] u.holds(i, key) by {
            if i != p && self.holds(i, key) {
                if i < p {
                    assert(self.slots[i].occupied && self.slots[p].occupied);
                } else {
                    assert(self.slots[p].occupied && self.slots[i].occupied);
                }
            }
        }
        assert(!u.slots[p].occupied);
        u.lemma_set_fails_iff_full(key);
        u.lemma_first_free_is_free(key);
        u.lemma_wf_kept(key, total_tasks);
        let q = u.first_free(key).unwrap();
        let t = u.set(key, total_tasks);
        assert forall|j: int| 0 <= j < t.capacity() && j != q implies !#[trigger] t.holds(j, key) by {
            assert(!u.holds(j, key));
        }
        t.lemma_find_only_at(key, q);
    }

    /// `well_used` survives an insertion of a key that is not bound, with
    /// at least one task, and every draw.
    pub proof fn lemma_well_used_kept(self, key: usize, total_tasks: usize)
        requires
            self.well_used(),
        ensures
            !self.contains(key) && total_tasks >= 1 ==> self.set(key, total_tasks).well_used(),
            self.get(key).well_used(),
    {
        self.lemma_wf_kept(key, total_tasks);
        if !self.contains(key) && total_tasks >= 1 && self.first_free(key) is Some {
            self.lemma_first_free_is_free(key);
            let p = self.first_free(key).unwrap();
            let t = self.set(key, total_tasks);
            assert forall|i: int, j: int|
                #![trigger t.slots[i], t.slots[j]]
                0 <= i < j < t.capacity() && t.slots[i].occupied && t.slots[j].occupied implies
                t.slots[i].key != t.slots[j].key by {
                if i == p {
                    assert(!self.holds(j, key));
                } else if j == p {
                    assert(!self.holds(i, key));
                } else {
                    assert(self.slots[i].occupied && self.slots[j].occupied);
                }
            }
            assert forall|i: int|
                #![trigger t.slots[i]]
                0 <= i < t.capacity() && t.slots[i].occupied implies t.slots[i].counter > 0 by {
                if i != p {
                    assert(self.slots[i].occupied);
                }
            }
        }
        if self.find(key) is Some {
            self.lemma_find_holds(key);
            let p = self.find(key).unwrap();
            let u = self.get(key);
            assert(self.slots[p].occupied);
            assert forall|i: int, j: int|
                #![trigger u.slots[i], u.slots[j]]
                0 <= i < j < u.capacity() && u.slots[i].occupied && u.slots[j].occupied implies
                u.slots[i].key != u.slots[j].key by {
                assert(self.slots[i].occupied && self.slots[j].occupied);
            }
            assert forall|i: int|
                #![trigger u.slots[i]]
                0 <= i < u.capacity() && u.slots[i].occupied implies u.slots[i].counter > 0 by {
                assert(self.slots[i].occupied);
            }
        }
    }
}

} // verus!
