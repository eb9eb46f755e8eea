//! The bookkeeping of the scanners' shared work queue: a stack of directories still to read and
//! the count of those handed out or waiting but not yet finished, and the rule that gives up
//! on a scan that stops making progress.
use vstd::prelude::*;

verus! {

/// Whom to wake after work was added.
pub enum Wake {
    Nobody,
    One,
    All,
}

/// What a worker asking for work gets.
pub enum TakeStep<T> {
    /// The next item, the one added last.
    Item(T),
    /// No work is left or will come: the worker may stop (and wake the others).
    Finished,
    /// Nothing to hand out yet, but work in progress may add more: wait.
    Wait,
}

/// The items waiting to be handed out, last added on top, and the number of items added and
/// not yet finished.
pub struct QueueState<T> {
    pub queue: Vec<T>,
    pub pending: usize,
}

/// Every waiting item is counted as pending: the count is the waiting items plus those handed
/// out and not yet finished.
pub open spec fn counts_waiting<T>(state: QueueState<T>) -> bool {
    state.queue@.len() <= state.pending
}

impl<T> QueueState<T> {
    pub fn new() -> (state: QueueState<T>)
        ensures
            state.queue@ == Seq::<T>::empty(),
            state.pending == 0,
            counts_waiting(state),
    {
        QueueState { queue: Vec::new(), pending: 0 }
    }

    /// Adds `items` on top (the last of them on the very top) and counts them as pending; says
    /// whom to wake: nobody for no items, one waiting worker for one, all for more.
    pub fn push(&mut self, items: Vec<T>) -> (wake: Wake)
        requires
            old(self).pending + items@.len() <= usize::MAX,
        ensures
            final(self).queue@ == old(self).queue@ + items@,
            final(self).pending == old(self).pending + items@.len(),
            wake == (if items@.len() == 0 {
                Wake::Nobody
            } else if items@.len() == 1 {
                Wake::One
            } else {
                Wake::All
            }),
            counts_waiting(*old(self)) ==> counts_waiting(*final(self)),
    {
        if items.len() == 0 {
            return Wake::Nobody;
        }
        let count = items.len();
        self.pending = self.pending + count;
        let mut items = items;
        self.queue.append(&mut items);
        if count == 1 {
            Wake::One
        } else {
            Wake::All
        }
    }

    /// Hands out the item on top; when there is none, says whether the work is finished (none
    /// pending) or more may come.
    pub fn try_take(&mut self) -> (step: TakeStep<T>)
        ensures
            final(self).pending == old(self).pending,
            old(self).queue@.len() > 0 ==> step == TakeStep::Item(old(self).queue@.last())
                && final(self).queue@ == old(self).queue@.drop_last(),
            old(self).queue@.len() == 0 ==> final(self).queue@ == old(self).queue@ && step == (
            if old(self).pending == 0 {
                TakeStep::<T>::Finished
            } else {
                TakeStep::<T>::Wait
            }),
            counts_waiting(*old(self)) ==> counts_waiting(*final(self)),
            counts_waiting(*old(self)) && step is Finished ==> old(self).queue@.len() == 0
                && old(self).pending == 0,
    {
        match self.queue.pop() {
            Some(item) => TakeStep::Item(item),
            None => {
                if self.pending == 0 {
                    TakeStep::Finished
                } else {
                    TakeStep::Wait
                }
            },
        }
    }

    /// Marks one handed-out item as done; says whether that was the last pending one, when
    /// every waiting worker must be woken.
    pub fn finish_one(&mut self) -> (wake_all: bool)
        requires
            old(self).pending > 0,
        ensures
            final(self).pending == old(self).pending - 1,
            final(self).queue@ == old(self).queue@,
            wake_all == (final(self).pending == 0),
            old(self).queue@.len() < old(self).pending ==> counts_waiting(*final(self)),
    {
        self.pending = self.pending - 1;
        self.pending == 0
    }

    /// The number of items added and not yet finished.
    pub fn pending(&self) -> (pending: usize)
        ensures
            pending == self.pending,
    {
        self.pending
    }

    /// Drops every waiting item and forgets the pending count, so that every worker finishes.
    pub fn cancel(&mut self)
        ensures
            final(self).queue@ == Seq::<T>::empty(),
            final(self).pending == 0,
            counts_waiting(*final(self)),
    {
        self.pending = 0;
        self.queue.clear();
    }

    /// The number of items waiting to be handed out.
    pub fn queue_len(&self) -> (len: usize)
        ensures
            len == self.queue@.len(),
    {
        self.queue.len()
    }
}

/// Polls without a change of the pending count after which a scan counts as stalled.
pub const STALL_POLLS: u32 = 15;

/// What to do after a poll of the pending count.
pub enum StallStep {
    /// No work is pending: the scan is complete.
    Done,
    /// Work is still moving (or has not been still for long): poll again.
    Continue,
    /// The count has not moved for `STALL_POLLS` polls in a row: give up on the rest.
    Stalled,
}

/// The memory of the stall detector: how many polls in a row saw the same pending count, and
/// the count of the last poll.
pub struct StallDetector {
    pub stall_count: u32,
    pub last_pending: usize,
}

impl StallDetector {
    pub fn new() -> (detector: StallDetector)
        ensures
            detector.stall_count == 0,
            detector.last_pending == usize::MAX,
    {
        StallDetector { stall_count: 0, last_pending: usize::MAX }
    }

    /// Takes the pending count of one poll and says what to do next.
    pub fn observe(&mut self, pending: usize) -> (step: StallStep)
        requires
            old(self).stall_count < STALL_POLLS,
        ensures
            pending == 0 ==> step == StallStep::Done && *final(self) == *old(self),
            pending != 0 && pending == old(self).last_pending ==> {
                &&& final(self).stall_count == old(self).stall_count + 1
                &&& step == (if final(self).stall_count >= STALL_POLLS {
                    StallStep::Stalled
                } else {
                    StallStep::Continue
                })
            },
            pending != 0 && pending != old(self).last_pending ==> final(self).stall_count == 0
                && step == StallStep::Continue,
            pending != 0 && step == StallStep::Continue ==> final(self).last_pending == pending,
            step == StallStep::Continue ==> final(self).stall_count < STALL_POLLS,
    {
        if pending == 0 {
            return StallStep::Done;
        }
        if pending == self.last_pending {
            self.stall_count = self.stall_count + 1;
            if self.stall_count >= STALL_POLLS {
                return StallStep::Stalled;
            }
        } else {
            self.stall_count = 0;
        }
        self.last_pending = pending;
        StallStep::Continue
    }
}

} // verus!
