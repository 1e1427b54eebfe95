//! What holds of every stack, proved from the definitions of push and draw.

use vstd::prelude::*;
use crate::error::Error;
use crate::iterator::IndexGenerator;
use crate::fixed_list::layout::Slot;
use crate::fixed_list::model::ListModel;

verus! {

impl ListModel {
    /// The stack after `n` draws.
    pub open spec fn after_nexts(self, n: nat) -> ListModel
        decreases n,
    {
        if n == 0 {
            self
        } else {
            self.next().after_nexts((n - 1) as nat)
        }
    }

    /// Drawing `a` times and then `b` times is drawing `a + b` times.
    pub proof fn lemma_after_nexts_sum(self, a: nat, b: nat)
        ensures
            self.after_nexts(a + b) == self.after_nexts(a).after_nexts(b),
        decreases a,
    {
        if a > 0 {
            self.next().lemma_after_nexts_sum((a - 1) as nat, b);
        }
    }

    /// Draws from the top entry: while the entry has tasks left each draw
    /// returns the next position of the entry's generator and the entries
    /// below stay as they are, and the draw that uses the last task pops the
    /// entry.
    pub proof fn lemma_drain_top(self, k: nat)
        requires
            self.wf(),
            self.entries.len() >= 1,
            self.entries.last().counter >= 1,
            k <= self.entries.last().counter,
        ensures
            ({
                let stack = self.after_nexts(k);
                let index = self.entries.last().index.advanced_by(k);
                let counter = (self.entries.last().counter - k) as usize;
                &&& stack.capacity == self.capacity
                &&& stack.nb_of_queues == self.nb_of_queues
                &&& counter > 0 ==> stack.entries == self.entries.update(
                    self.entries.len() - 1,
                    Slot { index, counter },
                )
                &&& counter > 0 ==> stack.next_result() == Ok::<usize, Error>(index.current_index)
                &&& counter == 0 ==> stack.entries == self.entries.drop_last()
            }),
        decreases k,
    {
        let last = self.entries.len() - 1;
        let top = self.entries.last();
        if k == 0 {
            assert(self.entries.update(last, top) =~= self.entries);
        } else {
            let u = self.next();
            self.lemma_wf_kept(0);
            if top.counter == 1 {
                assert(u.after_nexts(0) == u);
            } else {
                u.lemma_drain_top((k - 1) as nat);
                if k < top.counter {
                    assert(u.entries.update(
                        last,
                        Slot {
                            index: top.index.advanced_by(k),
                            counter: (top.counter - k) as usize,
                        },
                    ) =~= self.entries.update(
                        last,
                        Slot {
                            index: top.index.advanced_by(k),
                            counter: (top.counter - k) as usize,
                        },
                    ));
                } else {
                    assert(u.entries.drop_last() =~= self.entries.drop_last());
                }
            }
        }
    }

    /// Last in, first out. After two pushes the next draw is the first draw
    /// of the entry pushed second, and leaves the entry pushed first as it
    /// was pushed.
    pub proof fn lemma_lifo(self, first: usize, second: usize)
        requires
            self.wf(),
            self.end_index() + 2 <= self.capacity,
        ensures
            ({
                let pushed = self.add(first).add(second);
                let below = self.end_index() as int;
                &&& pushed.next_result() == Ok::<usize, Error>(0)
                &&& pushed.next().end_index() > below
                &&& pushed.next().entries[below] == self.fresh_slot(first)
                &&& pushed.next().entries.take(below) == self.entries
            }),
    {
        let pushed = self.add(first).add(second);
        assert(pushed.next().entries.take(self.end_index() as int) =~= self.entries);
    }

    /// The whole of it: after a push of `first` tasks and a push of `second`
    /// tasks, draw number `i`, counted from zero, returns `i mod
    /// nb_of_queues` while `i < second`, and `(i - second) mod nb_of_queues`
    /// from there on, up to the draw that uses the last task of the entry
    /// pushed first; after that the stack is what it was before the two
    /// pushes.
    pub proof fn lemma_lifo_drain(self, first: usize, second: usize, i: nat)
        requires
            self.wf(),
            self.end_index() + 2 <= self.capacity,
            first >= 1,
            second >= 1,
            i <= first + second,
        ensures
            ({
                let stack = self.add(first).add(second).after_nexts(i);
                let from_second = ((i as int) % (self.nb_of_queues as int)) as usize;
                let from_first = ((i - second) % (self.nb_of_queues as int)) as usize;
                &&& i < second ==> stack.next_result() == Ok::<usize, Error>(from_second)
                &&& second <= i < first + second ==> stack.next_result() == Ok::<usize, Error>(
                    from_first,
                )
                &&& i == first + second ==> stack == self
            }),
    {
        let s1 = self.add(first);
        let t = s1.add(second);
        let fresh = IndexGenerator { nb_of_queues: self.nb_of_queues, current_index: 0 };
        self.lemma_wf_kept(first);
        s1.lemma_wf_kept(second);
        if i < second {
            t.lemma_drain_top(i);
            fresh.lemma_advanced_by(i);
        } else {
            let j = (i - second) as nat;
            t.lemma_drain_top(second as nat);
            assert(t.entries.drop_last() =~= s1.entries);
            assert(t.after_nexts(second as nat) == s1);
            t.lemma_after_nexts_sum(second as nat, j);
            s1.lemma_drain_top(j);
            fresh.lemma_advanced_by(j);
            if j == first {
                assert(s1.entries.drop_last() =~= self.entries);
            }
        }
    }
}

} // verus!
