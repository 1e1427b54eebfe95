//! The cyclic generator of queue indices that every binding and entry owns.

use vstd::prelude::*;
use vstd::arithmetic::div_mod::{lemma_add_mod_noop, lemma_mod_twice, lemma_small_mod};

verus! {

/// A cyclic counter over `0 .. nb_of_queues`.
///
/// Each draw yields `current_index` and moves it one step forward, wrapping to
/// zero at `nb_of_queues`.
#[derive(Copy, Clone)]
pub struct IndexGenerator {
    pub nb_of_queues: usize,
    pub current_index: usize,
}

impl IndexGenerator {
    /// The generator's invariant: the position lies below the modulus, which
    /// is therefore positive.
    pub open spec fn wf(self) -> bool {
        self.current_index < self.nb_of_queues
    }

    /// The generator as it stands after one draw.
    pub open spec fn advanced(self) -> Self {
        IndexGenerator {
            nb_of_queues: self.nb_of_queues,
            current_index: ((self.current_index + 1) % (self.nb_of_queues as int)) as usize,
        }
    }

    /// The generator as it stands after `n` draws.
    pub open spec fn advanced_by(self, n: nat) -> Self
        decreases n,
    {
        if n == 0 {
            self
        } else {
            self.advanced().advanced_by((n - 1) as nat)
        }
    }

    /// A generator at position zero. Nothing is asked of `nb_of_queues` here;
    /// drawing from the generator needs it to be positive.
    pub fn new(nb_of_queues: usize) -> (g: Self)
        ensures
            g.nb_of_queues == nb_of_queues,
            g.current_index == 0,
            nb_of_queues >= 1 ==> g.wf(),
    {
        Self { nb_of_queues, current_index: 0 }
    }

    /// Draws the next index: returns the current position and steps forward.
    /// The result is always `Some`.
    pub fn next(&mut self) -> (r: Option<usize>)
        requires
            old(self).nb_of_queues >= 1,
            old(self).current_index < usize::MAX,
        ensures
            r == Some(old(self).current_index),
            *final(self) == old(self).advanced(),
            final(self).wf(),
    {
        let result = self.current_index;
        self.current_index = (self.current_index + 1) % self.nb_of_queues;
        Some(result)
    }

    /// A draw keeps the invariant, and from a well-formed generator the new
    /// position is the old one plus one, modulo `nb_of_queues`.
    pub proof fn lemma_advanced_wf(self)
        requires
            self.nb_of_queues >= 1,
        ensures
            self.advanced().wf(),
            self.advanced().nb_of_queues == self.nb_of_queues,
            self.advanced().current_index == (self.current_index + 1) % (self.nb_of_queues as int),
    {
    }

    /// Closed form of the sequence of draws: after `n` draws from a
    /// well-formed generator its position is `(current_index + n) mod
    /// nb_of_queues`, which is also what the next draw returns.
    pub proof fn lemma_advanced_by(self, n: nat)
        requires
            self.wf(),
        ensures
            self.advanced_by(n).wf(),
            self.advanced_by(n).nb_of_queues == self.nb_of_queues,
            self.advanced_by(n).current_index == (self.current_index + n) % (self.nb_of_queues
                as int),
        decreases n,
    {
        let q = self.nb_of_queues as int;
        if n == 0 {
            lemma_small_mod(self.current_index as nat, q as nat);
        } else {
            let a = self.advanced();
            a.lemma_advanced_by((n - 1) as nat);
            lemma_add_mod_noop(self.current_index + 1, n - 1, q);
            lemma_mod_twice(self.current_index + 1, q);
            lemma_add_mod_noop(a.current_index as int, n - 1, q);
        }
    }
}

} // verus!
