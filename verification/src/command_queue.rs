use vstd::prelude::*;

verus! {

/// Commands queued during a frame, handed out in the order they came.
pub struct CommandQueue<C> {
    queue: Vec<C>,
}

impl<C> CommandQueue<C> {
    /// The queued commands, oldest first.
    pub closed spec fn pending(self) -> Seq<C> {
        self.queue@
    }

    pub fn new() -> (r: Self)
        ensures
            r.pending() == Seq::<C>::empty(),
    {
        CommandQueue { queue: Vec::new() }
    }

    /// Queues `cmd` after the commands already queued.
    pub fn enqueue(&mut self, cmd: C)
        ensures
            final(self).pending() == old(self).pending().push(cmd),
    {
        self.queue.push(cmd);
    }

    /// Hands out all queued commands, oldest first, and leaves the queue empty.
    pub fn drain_all(&mut self) -> (r: Vec<C>)
        ensures
            r@ == old(self).pending(),
            final(self).pending() == Seq::<C>::empty(),
    {
        let mut taken: Vec<C> = Vec::new();
        std::mem::swap(&mut taken, &mut self.queue);
        taken
    }
}

} // verus!
