//! The decisions of a multi-producer, single-consumer channel.
//!
//! The state that the senders and the receiver share is an `Inner`; whoever
//! runs the channel keeps it behind a lock and hands it to these functions
//! while holding the lock. A receive that finds nothing to take and senders
//! still alive answers `Received::Wait`: the caller then waits for a sender
//! to signal and asks again.
use vstd::prelude::*;
use std::collections::VecDeque;
use core::marker::PhantomData;

verus! {

/// The state shared by the senders and the receiver: the messages sent and
/// not yet moved to the receiver, and the number of live senders.
pub struct Inner<T> {
    queue: VecDeque<T>,
    sender_size: usize,
}

impl<T> Inner<T> {
    /// The messages sent and not yet moved to the receiver, oldest first.
    pub closed spec fn queue(&self) -> Seq<T> {
        self.queue@
    }

    /// The number of live senders.
    pub closed spec fn senders(&self) -> nat {
        self.sender_size as nat
    }

    /// The number of live senders.
    pub fn sender_size(&self) -> (n: usize)
        ensures
            n == self.senders(),
    {
        self.sender_size
    }
}

impl<T> Default for Inner<T> {
    /// No message and no sender.
    fn default() -> (r: Self)
        ensures
            r.queue() == Seq::<T>::empty(),
            r.senders() == 0,
    {
        Inner { queue: VecDeque::new(), sender_size: 0 }
    }
}

/// A handle that sends messages.
pub struct Sender<T> {
    marker: PhantomData<T>,
}

/// The handle that receives messages; it keeps the messages it has taken
/// out of the shared queue and not yet handed out.
pub struct Receiver<T> {
    buffer: VecDeque<T>,
}

/// What one attempt to receive gives.
pub enum Received<T> {
    /// The oldest message not yet received.
    Message(T),
    /// No message is left and no sender is alive: none will come.
    Closed,
    /// No message is left but a sender is alive: wait for it and ask again.
    Wait,
}

/// The messages sent and not yet received, oldest first.
pub open spec fn pending<T>(receiver: &Receiver<T>, inner: &Inner<T>) -> Seq<T> {
    receiver.buffered() + inner.queue()
}

/// A new channel: one sender, the receiver, and their shared state.
pub fn channel<T>() -> (r: (Sender<T>, Receiver<T>, Inner<T>))
    ensures
        r.2.senders() == 1,
        r.2.queue() == Seq::<T>::empty(),
        r.1.buffered() == Seq::<T>::empty(),
{
    let inner_inner = Inner { queue: VecDeque::new(), sender_size: 1 };
    let r = (Sender { marker: PhantomData }, Receiver { buffer: VecDeque::new() }, inner_inner);
    r
}

impl<T> Sender<T> {
    /// Puts `t` at the end of the shared queue.
    pub fn send(&self, inner: &mut Inner<T>, t: T)
        ensures
            final(inner).queue() == old(inner).queue().push(t),
            final(inner).senders() == old(inner).senders(),
    {
        inner.queue.push_back(t);
    }

    /// A new sender, counted among the live ones.
    pub fn clone(&self, inner: &mut Inner<T>) -> (s: Sender<T>)
        requires
            old(inner).senders() < usize::MAX,
        ensures
            final(inner).senders() == old(inner).senders() + 1,
            final(inner).queue() == old(inner).queue(),
    {
        inner.sender_size = inner.sender_size + 1;
        Sender { marker: PhantomData }
    }

    /// Ends this sender; says whether it was the last, in which case a
    /// waiting receiver is to be woken.
    pub fn release(self, inner: &mut Inner<T>) -> (notify: bool)
        requires
            old(inner).senders() > 0,
        ensures
            final(inner).senders() == old(inner).senders() - 1,
            final(inner).queue() == old(inner).queue(),
            notify == (final(inner).senders() == 0),
    {
        inner.sender_size = inner.sender_size - 1;
        inner.sender_size == 0
    }
}

impl<T> Receiver<T> {
    /// The messages taken out of the shared queue and not yet handed out.
    pub closed spec fn buffered(&self) -> Seq<T> {
        self.buffer@
    }

    /// One attempt to receive: the oldest message not yet received if there
    /// is one; otherwise `Closed` when no sender is alive, `Wait` when one
    /// is. When the receiver's own buffer is empty and a message is found
    /// in the shared queue, the receiver takes the whole queue at once.
    pub fn recv(&mut self, inner: &mut Inner<T>) -> (r: Received<T>)
        ensures
            final(inner).senders() == old(inner).senders(),
            old(self).buffered().len() > 0 ==> *final(inner) == *old(inner),
            old(self).buffered().len() == 0 && old(inner).queue().len() > 0 ==> {
                &&& final(self).buffered() == old(inner).queue().drop_first()
                &&& final(inner).queue() == Seq::<T>::empty()
            },
            pending(old(self), old(inner)).len() > 0 ==> {
                &&& r == Received::Message(pending(old(self), old(inner))[0])
                &&& pending(final(self), final(inner)) == pending(
                    old(self),
                    old(inner),
                ).drop_first()
            },
            pending(old(self), old(inner)).len() == 0 ==> {
                &&& (r is Closed <==> old(inner).senders() == 0)
                &&& (r is Wait <==> old(inner).senders() > 0)
                &&& final(self).buffered() == old(self).buffered()
                &&& final(inner).queue() == old(inner).queue()
            },
    {
        if self.buffer.len() > 0 {
            let v = self.buffer.pop_front().unwrap();
            assert(pending(old(self), old(inner)) =~= seq![v] + pending(self, inner));
            return Received::Message(v);
        }
        match inner.queue.pop_front() {
            None => {
                if inner.sender_size == 0 {
                    Received::Closed
                } else {
                    Received::Wait
                }
            },
            Some(v) => {
                core::mem::swap(&mut self.buffer, &mut inner.queue);
                assert(pending(old(self), old(inner)) =~= seq![v] + pending(self, inner));
                Received::Message(v)
            },
        }
    }
}

} // verus!
