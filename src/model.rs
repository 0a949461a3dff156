use vstd::prelude::*;

verus! {

/// What one non-blocking poll of a source reports.
#[derive(Clone, Debug, PartialEq, Eq)]
pub enum Outcome<T> {
    /// The source produced an item.
    Item(T),
    /// The source has finished for good.
    Exhausted,
    /// The source has nothing yet; it will wake its waiter later.
    Pending,
}

/// What one poll call of the multiplexer reports.
#[derive(Clone, Debug, PartialEq, Eq)]
pub enum Verdict<T> {
    Item(T),
    /// Every source that was ever added has been exhausted.
    Complete,
    /// Some source is still pending; the caller's handle was registered.
    Pending,
}

/// The abstract state of a multiplexer.
pub ghost struct MuxModel<S, W> {
    /// Sources not yet polled in the current call, in poll order.
    pub queue: Seq<S>,
    /// Sources found pending in the current call, in the order they were polled.
    pub bucket: Seq<S>,
    /// Resume handles registered since the last `add`, oldest first.
    pub wakers: Seq<W>,
}

impl<S, W> MuxModel<S, W> {
    /// Every source still owned, in the order the next call polls them.
    pub open spec fn sources(self) -> Seq<S> {
        self.queue + self.bucket
    }

    /// `add`: the source goes to the back and the registry is drained.
    pub open spec fn added(self, s: S) -> MuxModel<S, W> {
        MuxModel { queue: self.queue.push(s), bucket: self.bucket, wakers: Seq::empty() }
    }

    /// The front source is taken out to be polled.
    pub open spec fn taken(self) -> MuxModel<S, W>
        recommends
            self.queue.len() > 0,
    {
        MuxModel { queue: self.queue.drop_first(), bucket: self.bucket, wakers: self.wakers }
    }

    /// The state after the source `s`, just polled, reported `o`.
    pub open spec fn recorded<T>(self, s: S, o: Outcome<T>) -> MuxModel<S, W> {
        match o {
            Outcome::Item(_) => MuxModel {
                queue: self.queue + self.bucket + seq![s],
                bucket: Seq::empty(),
                wakers: self.wakers,
            },
            Outcome::Exhausted => self,
            Outcome::Pending => MuxModel {
                queue: self.queue,
                bucket: self.bucket.push(s),
                wakers: self.wakers,
            },
        }
    }

    /// A call that found no item reports completion exactly when no source remains.
    pub open spec fn completes(self) -> bool {
        self.sources().len() == 0
    }

    /// The state after a call that produced no item, with the caller's handle `w`.
    pub open spec fn finished(self, w: W) -> MuxModel<S, W> {
        MuxModel {
            queue: self.sources(),
            bucket: Seq::empty(),
            wakers: if self.completes() {
                self.wakers
            } else {
                self.wakers.push(w)
            },
        }
    }
}

} // verus!
