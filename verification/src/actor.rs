//! An actor-style execution unit: isolated private state addressed only
//! through message passing, with FIFO, exactly-once delivery and explicit
//! termination.
//!
//! This module is the verified model of the unit's delivery semantics. The
//! unit owns its actor state and an unbounded FIFO queue; `send` appends a
//! message (or returns it to the caller when the unit has terminated), and
//! `step`/`run` pull one message at a time into the actor's `handle`
//! operation, stopping for good once `handle` returns `false`. Two ghost
//! histories — every message accepted, and every message handed to
//! `handle`, both in order — let the delivery laws be stated and proved:
//! the delivered history is always a prefix of the accepted history, and
//! once the queue drains the two are equal, so every message is delivered
//! exactly once and in send order.
//!
//! The model folds the unit and its sending handle into one value, since
//! verified code holds no aliases. A runner outside the library may host a
//! unit with this behaviour on a thread of its own behind an exclusive
//! handle and a cloneable shared handle over one queue; the laws proved
//! here are about the queue those handles feed.

use vstd::prelude::*;

verus! {

/// The local actor interface: `handle` consumes one message and says
/// whether the unit should keep running. Implemented by the library's
/// users; the unit assumes nothing about it.
pub trait Actor<M> {
    fn handle(&mut self, msg: M) -> bool;
}

/// One isolated execution unit: private actor state, a FIFO mailbox, and a
/// liveness flag. Created by [`spawn`].
pub struct ActorUnit<A, M> {
    actor: A,
    queue: Vec<M>,
    alive: bool,
    accepted: Ghost<Seq<M>>,
    delivered: Ghost<Seq<M>>,
}

impl<A, M> ActorUnit<A, M> {
    /// The actor's private state.
    pub closed spec fn spec_actor(self) -> A {
        self.actor
    }

    /// The messages accepted and not yet handled, in arrival order.
    pub closed spec fn spec_queue(self) -> Seq<M> {
        self.queue@
    }

    /// Whether the unit still runs; a terminated unit accepts nothing.
    pub closed spec fn spec_alive(self) -> bool {
        self.alive
    }

    /// Every message ever accepted, in send order.
    pub closed spec fn spec_accepted(self) -> Seq<M> {
        self.accepted@
    }

    /// Every message ever handed to `handle`, in delivery order.
    pub closed spec fn spec_delivered(self) -> Seq<M> {
        self.delivered@
    }

    /// The delivery invariant: what was accepted is exactly what was
    /// delivered followed by what still waits in the queue.
    pub open spec fn inv(self) -> bool {
        self.spec_accepted() == self.spec_delivered() + self.spec_queue()
    }

    /// A read of the liveness flag, for callers that must test before
    /// sending.
    pub fn is_alive(&self) -> (r: bool)
        ensures
            r == self.spec_alive(),
    {
        self.alive
    }

    pub fn pending(&self) -> (r: usize)
        ensures
            r == self.spec_queue().len(),
    {
        self.queue.len()
    }

    /// Tears the unit down and hands its private state back to the owner,
    /// releasing the unit's resources.
    pub fn into_actor(self) -> (a: A)
        ensures
            a == self.spec_actor(),
    {
        self.actor
    }
}

impl<A: Actor<M>, M> ActorUnit<A, M> {
    /// Asynchronous hand-off of ownership of `msg` into the unit's queue.
    /// Sending to a terminated unit is an explicit failure outcome: the
    /// message comes back to the caller, never a silent drop.
    pub fn send(&mut self, msg: M) -> (r: Result<(), M>)
        requires
            old(self).inv(),
        ensures
            final(self).inv(),
            final(self).spec_alive() == old(self).spec_alive(),
            final(self).spec_actor() == old(self).spec_actor(),
            final(self).spec_delivered() == old(self).spec_delivered(),
            old(self).spec_alive() ==> r is Ok && final(self).spec_queue() == old(
                self,
            ).spec_queue().push(msg) && final(self).spec_accepted() == old(
                self,
            ).spec_accepted().push(msg),
            !old(self).spec_alive() ==> r == Err::<(), M>(msg) && final(self).spec_queue() == old(
                self,
            ).spec_queue() && final(self).spec_accepted() == old(self).spec_accepted(),
    {
        if !self.alive {
            return Err(msg);
        }
        self.queue.push(msg);
        proof {
            self.accepted@ = self.accepted@.push(msg);
            assert(self.accepted@ =~= self.delivered@ + self.queue@);
        }
        Ok(())
    }

    /// Delivers the frontmost pending message to `handle`, terminating the
    /// unit exactly when `handle` says stop: the returned `Some` carries
    /// `handle`'s answer, and the unit stays alive if and only if that
    /// answer was to continue. A terminated or idle unit does nothing and
    /// returns `None`.
    pub fn step(&mut self) -> (r: Option<bool>)
        requires
            old(self).inv(),
        ensures
            final(self).inv(),
            final(self).spec_accepted() == old(self).spec_accepted(),
            r is Some == (old(self).spec_alive() && old(self).spec_queue().len() > 0),
            r is None ==> *final(self) == *old(self),
            r matches Some(cont) ==> final(self).spec_delivered() == old(
                self,
            ).spec_delivered().push(old(self).spec_queue()[0]) && final(self).spec_queue() == old(
                self,
            ).spec_queue().drop_first() && final(self).spec_alive() == cont,
    {
        if !self.alive || self.queue.len() == 0 {
            return None;
        }
        let msg = self.queue.remove(0);
        proof {
            self.delivered@ = self.delivered@.push(msg);
            assert(self.accepted@ =~= self.delivered@ + self.queue@);
        }
        let keep_going = self.actor.handle(msg);
        if !keep_going {
            self.alive = false;
        }
        Some(keep_going)
    }

    /// Runs the unit until its queue is empty or `handle` has asked it to
    /// stop: the receive loop of one execution unit, which never begins a
    /// new message before the previous `handle` has returned.
    pub fn run(&mut self)
        requires
            old(self).inv(),
        ensures
            final(self).inv(),
            final(self).spec_accepted() == old(self).spec_accepted(),
            final(self).spec_queue().len() == 0 || !final(self).spec_alive(),
            final(self).spec_alive() ==> old(self).spec_alive(),
            // deliveries extend the history in order, taken from the front
            // of what was accepted
            final(self).spec_delivered() == final(self).spec_accepted().take(
                final(self).spec_delivered().len() as int,
            ),
            old(self).spec_delivered().is_prefix_of(final(self).spec_delivered()),
    {
        proof {
            lemma_delivered_is_prefix(*self);
        }
        loop
            invariant
                self.inv(),
                self.spec_accepted() == old(self).spec_accepted(),
                self.spec_alive() ==> old(self).spec_alive(),
                old(self).spec_delivered().is_prefix_of(self.spec_delivered()),
            ensures
                self.inv(),
                self.spec_accepted() == old(self).spec_accepted(),
                self.spec_alive() ==> old(self).spec_alive(),
                old(self).spec_delivered().is_prefix_of(self.spec_delivered()),
                self.spec_queue().len() == 0 || !self.spec_alive(),
            decreases self.spec_queue().len(),
        {
            let progressed = self.step();
            if progressed.is_none() {
                break ;
            }
        }
        proof {
            lemma_delivered_is_prefix(*self);
        }
    }
}

/// Creates one independent execution unit around its private actor state.
/// The state is built by the caller and moves into the unit, never shared.
pub fn spawn<A: Actor<M>, M>(actor: A) -> (u: ActorUnit<A, M>)
    ensures
        u.inv(),
        u.spec_actor() == actor,
        u.spec_alive(),
        u.spec_queue().len() == 0,
        u.spec_accepted().len() == 0,
        u.spec_delivered().len() == 0,
{
    ActorUnit {
        actor,
        queue: Vec::new(),
        alive: true,
        accepted: Ghost(Seq::empty()),
        delivered: Ghost(Seq::empty()),
    }
}

/// Delivery order law: at every moment, the messages handed to `handle`
/// are exactly the first `delivered.len()` messages accepted, in send
/// order — no reordering, no duplication, no skipping.
pub proof fn lemma_delivered_is_prefix<A, M>(u: ActorUnit<A, M>)
    requires
        u.inv(),
    ensures
        u.spec_delivered() == u.spec_accepted().take(u.spec_delivered().len() as int),
{
    assert(u.spec_delivered() =~= u.spec_accepted().take(u.spec_delivered().len() as int));
}

/// Exactly-once law: once the queue has drained, what `handle` observed is
/// exactly what was sent — each message delivered exactly once, in order,
/// and the totals agree across however many senders interleaved.
pub proof fn lemma_drained_delivery_exact<A, M>(u: ActorUnit<A, M>)
    requires
        u.inv(),
        u.spec_queue().len() == 0,
    ensures
        u.spec_delivered() == u.spec_accepted(),
        u.spec_delivered().to_multiset() == u.spec_accepted().to_multiset(),
        u.spec_delivered().len() == u.spec_accepted().len(),
{
    assert(u.spec_delivered() =~= u.spec_accepted());
}

} // verus!
