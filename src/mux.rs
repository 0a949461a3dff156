use std::collections::VecDeque;
use vstd::prelude::*;

use crate::model::{MuxModel, Outcome};

verus! {

/// A multiplexer over sources of type `S` whose waiters hold handles of type `W`.
///
/// One poll call of the multiplexer is: `take_next` until it returns `None`
/// or `record` returns an item, polling each source taken exactly once in
/// between and handing it back to `record`; then, if no item came, `finish`
/// with the caller's handle.
pub struct Mux<S, W> {
    streams: VecDeque<S>,
    pendings: VecDeque<S>,
    waker: Vec<W>,
}

impl<S, W> View for Mux<S, W> {
    type V = MuxModel<S, W>;

    closed spec fn view(&self) -> MuxModel<S, W> {
        MuxModel { queue: self.streams@, bucket: self.pendings@, wakers: self.waker@ }
    }
}

impl<S, W> Mux<S, W> {
    /// An empty multiplexer: no source, no registered handle.
    pub fn new() -> (r: Self)
        ensures
            r@.queue == Seq::<S>::empty(),
            r@.bucket == Seq::<S>::empty(),
            r@.wakers == Seq::<W>::empty(),
    {
        Mux { streams: VecDeque::new(), pendings: VecDeque::new(), waker: Vec::new() }
    }

    /// Appends `stream` to the back of the queue and drains the registry.
    ///
    /// Returns every handle that was registered, oldest first: each of them
    /// must be woken, since any waiter may now make progress.
    pub fn add(&mut self, stream: S) -> (woken: Vec<W>)
        ensures
            final(self)@ == old(self)@.added(stream),
            woken@ == old(self)@.wakers,
    {
        self.streams.push_back(stream);
        let mut woken: Vec<W> = Vec::new();
        std::mem::swap(&mut self.waker, &mut woken);
        woken
    }

    /// Takes out the source at the front of the queue, to be polled once.
    pub fn take_next(&mut self) -> (r: Option<S>)
        ensures
            old(self)@.queue.len() == 0 ==> r is None && final(self)@ == old(self)@,
            old(self)@.queue.len() > 0 ==> r == Some(old(self)@.queue[0]) && final(self)@
                == old(self)@.taken(),
    {
        let r = self.streams.pop_front();
        proof {
            if old(self)@.queue.len() > 0 {
                assert(self.streams@ =~= old(self)@.queue.drop_first());
            }
        }
        r
    }

    /// Hands back `stream`, just taken and polled, with what the poll reported.
    ///
    /// An item ends the call: the sources found pending go back to the queue
    /// behind those not yet polled, and `stream` goes to the very back.  An
    /// exhausted source is dropped.  A pending one waits in the bucket.
    pub fn record<T>(&mut self, stream: S, outcome: Outcome<T>) -> (r: Option<T>)
        ensures
            final(self)@ == old(self)@.recorded(stream, outcome),
            r == match outcome {
                Outcome::Item(t) => Some(t),
                _ => None::<T>,
            },
    {
        match outcome {
            Outcome::Item(item) => {
                self.streams.append(&mut self.pendings);
                self.streams.push_back(stream);
                assert(self.streams@ =~= old(self)@.queue + old(self)@.bucket + seq![stream]);
                Some(item)
            },
            Outcome::Exhausted => None,
            Outcome::Pending => {
                self.pendings.push_back(stream);
                None
            },
        }
    }

    /// Ends a call in which no source produced an item.
    ///
    /// The pending sources go back to the queue in their order.  Returns
    /// `true` (completion) when no source remains; otherwise `waker` is
    /// registered and the call reports pending.
    pub fn finish(&mut self, waker: W) -> (complete: bool)
        ensures
            final(self)@ == old(self)@.finished(waker),
            complete == old(self)@.completes(),
    {
        self.streams.append(&mut self.pendings);
        if self.streams.len() == 0 {
            true
        } else {
            self.waker.push(waker);
            false
        }
    }
}

} // verus!
