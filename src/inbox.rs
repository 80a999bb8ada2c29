//! The mailbox between the transport and the simulation loop.
//!
//! The transport pushes items at any time; the loop drains everything once
//! per step. Whoever shares the mailbox between threads holds it behind one
//! lock for the length of a push or of a whole drain, so every interleaving
//! is some sequence of these calls, and each call keeps the account below.

use vstd::prelude::*;

verus! {

/// Items waiting for the simulation loop, with the account of everything
/// ever pushed and ever drained.
pub struct InboundQueue<T> {
    items: Vec<T>,
    pushed: Ghost<Seq<T>>,
    drained: Ghost<Seq<T>>,
}

impl<T> InboundQueue<T> {
    /// The items waiting, oldest first.
    pub closed spec fn pending(&self) -> Seq<T> {
        self.items@
    }

    /// Every item ever pushed, in order.
    pub closed spec fn pushed(&self) -> Seq<T> {
        self.pushed@
    }

    /// Every item ever drained, in order: the drains one after another.
    pub closed spec fn drained(&self) -> Seq<T> {
        self.drained@
    }

    /// What was drained, then what waits, is exactly what was pushed.
    pub closed spec fn wf(&self) -> bool {
        self.drained@ + self.items@ == self.pushed@
    }

    /// An empty mailbox.
    pub fn new() -> (r: Self)
        ensures
            r.wf(),
            r.pending() == Seq::<T>::empty(),
            r.pushed() == Seq::<T>::empty(),
            r.drained() == Seq::<T>::empty(),
    {
        let r = InboundQueue {
            items: Vec::new(),
            pushed: Ghost(Seq::empty()),
            drained: Ghost(Seq::empty()),
        };
        assert(r.drained@ + r.items@ =~= r.pushed@);
        r
    }

    /// Adds one item behind those waiting.
    pub fn push(&mut self, item: T)
        requires
            old(self).wf(),
        ensures
            final(self).wf(),
            final(self).pending() == old(self).pending().push(item),
            final(self).pushed() == old(self).pushed().push(item),
            final(self).drained() == old(self).drained(),
    {
        self.items.push(item);
        self.pushed = Ghost(self.pushed@.push(item));
        assert(self.drained@ + self.items@ =~= self.pushed@);
    }

    /// Removes and returns every waiting item, oldest first.
    pub fn drain(&mut self) -> (r: Vec<T>)
        requires
            old(self).wf(),
        ensures
            final(self).wf(),
            r@ == old(self).pending(),
            final(self).pending() == Seq::<T>::empty(),
            final(self).pushed() == old(self).pushed(),
            final(self).drained() == old(self).drained() + r@,
    {
        let mut taken: Vec<T> = Vec::new();
        std::mem::swap(&mut self.items, &mut taken);
        self.drained = Ghost(self.drained@ + taken@);
        assert(self.drained@ + self.items@ =~= self.pushed@);
        taken
    }

    /// The number of items waiting.
    pub fn len(&self) -> (r: usize)
        ensures
            r == self.pending().len(),
    {
        self.items.len()
    }
}

/// No item is lost or duplicated: whatever pushes and drains happened, the
/// drains one after another followed by what still waits are exactly the
/// pushed items in order, so as a multiset too.
pub proof fn lemma_no_loss_no_duplication<T>(q: InboundQueue<T>)
    requires
        q.wf(),
    ensures
        q.drained() + q.pending() == q.pushed(),
        (q.drained() + q.pending()).to_multiset() == q.pushed().to_multiset(),
{
}

} // verus!
