//! Bounded replacements for `FuturesOrdered`: the results come out in the
//! order the futures were pushed (or taken from the iterator).
use core::task::{Context, Poll};
use std::collections::VecDeque;

use futures::stream::FuturesOrdered;
use vstd::future::FutureAdditionalSpecFns;
use vstd::prelude::*;
use vstd::std_specs::iter::IteratorSpec;

use crate::common::{
    pushed, yielded, Call, admitted, free_slots, free_slots_of, law_admitted, law_refill_bounds, law_split_front, refill_count, saturated,
    split_front, started_seq, Passthrough,
};
use crate::running::{extended, RunningOrdered};

verus! {

/// Bounded `FuturesOrdered` fed by an iterator.
///
/// This struct consumes an iterator where each item is a future. By using
/// an iterator, we need no additional queue to store the excess of futures:
/// they are taken from it, in its order, only when there is room for them
/// in the running set.
#[verifier::reject_recursive_types(F)]
pub struct FuturesOrderedIter<I, F> where F: core::future::Future, I: Iterator<Item = F> {
    max_concurrent: usize,
    tasks: I,
    running_tasks: RunningOrdered<F>,
}

/// Drop-in replacement for `FuturesOrdered`.
///
/// Unlike `FuturesOrderedIter`, this struct allows you to continuously
/// push futures into it, but only `max_concurrent` of them run at any
/// given time. The others wait in a `VecDeque` and are started, front
/// first, as running futures complete.
#[verifier::reject_recursive_types(F)]
pub struct FuturesOrderedBounded<F> where F: core::future::Future {
    max_concurrent: usize,
    queued_tasks: VecDeque<F>,
    running_tasks: RunningOrdered<F>,
}

/// The queue after a future is pushed to the back while `running_len`
/// futures run.
pub open spec fn waiting_after_push_back<F>(
    waiting: Seq<F>,
    max_concurrent: nat,
    running_len: nat,
    fut: F,
) -> Seq<F> {
    if admitted(fut, max_concurrent, running_len) is Some {
        waiting
    } else {
        waiting.push(fut)
    }
}

/// The queue after a future is pushed to the front while `running_len`
/// futures run.
pub open spec fn waiting_after_push_front<F>(
    waiting: Seq<F>,
    max_concurrent: nat,
    running_len: nat,
    fut: F,
) -> Seq<F> {
    if admitted(fut, max_concurrent, running_len) is Some {
        waiting
    } else {
        seq![fut] + waiting
    }
}

impl<I, F> FuturesOrderedIter<I, F> where F: core::future::Future, I: Iterator<Item = F> {
    /// The limit on running futures.
    pub closed spec fn limit(&self) -> nat {
        self.max_concurrent as nat
    }

    /// The iterator the futures are taken from.
    pub closed spec fn source(&self) -> I {
        self.tasks
    }

    /// The futures in the running set, next output first; `None` once the
    /// set was borrowed mutably.
    pub closed spec fn running(&self) -> Option<Seq<F>> {
        self.running_tasks.model()
    }

    /// The running `FuturesOrdered` itself.
    pub closed spec fn inner_set(&self) -> FuturesOrdered<F> {
        self.running_tasks.set()
    }

    /// Whether the running set is fresh: created or cleared, and never given
    /// a future since. Polling a fresh set gives `Ready(None)`.
    pub closed spec fn fresh(&self) -> bool {
        self.running_tasks.fresh()
    }

    /// Creates a new bounded `FuturesOrdered` from an iterator, with room
    /// for `max_concurrent` running futures. The first `max_concurrent`
    /// futures (or all, if there are fewer) are taken from the iterator and
    /// started at once; the others are created on the fly as needed.
    pub fn new(max_concurrent: usize, tasks: I) -> (runner: Self)
        requires
            max_concurrent > 0,
        ensures
            runner.limit() == max_concurrent,
            runner.running() is Some,
            runner.running()->0.len() <= max_concurrent,
            runner.fresh() == (runner.running()->0.len() == 0),
            tasks.obeys_prophetic_iter_laws() ==> {
                &&& runner.source().obeys_prophetic_iter_laws()
                &&& runner.running() == Some(
                    split_front(tasks.remaining(), max_concurrent as nat, 0).0,
                )
                &&& runner.source().remaining() == split_front(
                    tasks.remaining(),
                    max_concurrent as nat,
                    0,
                ).1
                &&& saturated(
                    runner.source().remaining().len(),
                    max_concurrent as nat,
                    runner.running()->0.len(),
                )
            },
    {
        let mut runner = FuturesOrderedIter {
            max_concurrent,
            tasks,
            running_tasks: RunningOrdered::new(),
        };
        let started = runner.take_started(0);
        runner.start_all(started);
        assert(Seq::<F>::empty() + started@ =~= started@);
        runner
    }

    /// Takes from the iterator the futures to start, given the number of
    /// futures running now, and hands them back without starting them.
    ///
    /// As many are taken as there are free slots below `max_concurrent`;
    /// fewer only when the iterator runs out. They come back in the
    /// iterator's order.
    pub fn take_started(&mut self, running_len: usize) -> (started: Vec<F>)
        ensures
            final(self).limit() == old(self).limit(),
            final(self).running() == old(self).running(),
            final(self).inner_set() == old(self).inner_set(),
            final(self).fresh() == old(self).fresh(),
            started.len() <= free_slots(old(self).limit(), running_len as nat),
            running_len >= old(self).limit() ==> started@.len() == 0,
            old(self).source().obeys_prophetic_iter_laws() ==> {
                &&& final(self).source().obeys_prophetic_iter_laws()
                &&& started@ == split_front(
                    old(self).source().remaining(),
                    old(self).limit(),
                    running_len as nat,
                ).0
                &&& final(self).source().remaining() == split_front(
                    old(self).source().remaining(),
                    old(self).limit(),
                    running_len as nat,
                ).1
            },
    {
        let slots = free_slots_of(self.max_concurrent, running_len);
        let ghost pending = self.tasks.remaining();
        let ghost lawful = self.tasks.obeys_prophetic_iter_laws();
        let mut started: Vec<F> = Vec::new();
        let mut exhausted = false;
        while !exhausted && started.len() < slots
            invariant
                self.max_concurrent == old(self).max_concurrent,
                self.running_tasks == old(self).running_tasks,
                slots == free_slots(old(self).limit(), running_len as nat),
                started.len() <= slots,
                lawful == old(self).tasks.obeys_prophetic_iter_laws(),
                pending == old(self).tasks.remaining(),
                lawful ==> {
                    &&& self.tasks.obeys_prophetic_iter_laws()
                    &&& started.len() <= pending.len()
                    &&& started@ == pending.take(started.len() as int)
                    &&& self.tasks.remaining() == pending.skip(started.len() as int)
                    &&& (exhausted ==> started.len() == pending.len())
                },
            decreases 2 * (slots - started.len()) + if exhausted {
                0int
            } else {
                1int
            },
        {
            match self.tasks.next() {
                Some(fut) => {
                    started.push(fut);
                    proof {
                        if lawful {
                            assert(started@ =~= pending.take(started.len() as int));
                            assert(self.tasks.remaining() =~= pending.skip(started.len() as int));
                        }
                    }
                },
                None => {
                    exhausted = true;
                },
            }
        }
        started
    }

    /// Appends `started` to the running set, in order.
    fn start_all(&mut self, started: Vec<F>)
        ensures
            final(self).limit() == old(self).limit(),
            final(self).source() == old(self).source(),
            final(self).running() == extended(old(self).running(), started@),
            final(self).fresh() == (old(self).fresh() && started@.len() == 0),
    {
        let ghost all = started@;
        for fut in it: started
            invariant
                self.max_concurrent == old(self).max_concurrent,
                self.tasks == old(self).tasks,
                it.seq() == all,
                self.running_tasks.fresh() == (old(self).running_tasks.fresh() && it.index() == 0),
                self.running_tasks.model() == extended(
                    old(self).running_tasks.model(),
                    all.take(it.index() as int),
                ),
        {
            proof {
                assert(all.take(it.index() + 1) =~= all.take(it.index() as int).push(fut));
                if self.running_tasks.model() is Some {
                    assert(self.running_tasks.model()->0 + seq![fut] =~= old(
                        self,
                    ).running_tasks.model()->0 + all.take(it.index() + 1));
                }
            }
            self.running_tasks.push_back(fut);
        }
        assert(all.take(all.len() as int) =~= all);
    }

    /// Tops the running set up from the iterator: while fewer than
    /// `max_concurrent` futures run, the next one is taken and started.
    fn refill(&mut self)
        ensures
            final(self).limit() == old(self).limit(),
            match old(self).running() {
                Some(held) => {
                    &&& final(self).running() is Some
                    &&& final(self).running()->0.take(held.len() as int) == held
                    &&& held.len() <= final(self).running()->0.len()
                    &&& final(self).running()->0.len() <= held.len() + free_slots(
                        old(self).limit(),
                        held.len(),
                    )
                    &&& old(self).source().obeys_prophetic_iter_laws() ==> {
                        &&& final(self).source().obeys_prophetic_iter_laws()
                        &&& final(self).running() == Some(
                            held + split_front(
                                old(self).source().remaining(),
                                old(self).limit(),
                                held.len(),
                            ).0,
                        )
                        &&& final(self).source().remaining() == split_front(
                            old(self).source().remaining(),
                            old(self).limit(),
                            held.len(),
                        ).1
                    }
                },
                None => {
                    &&& final(self).running() is None
                    &&& old(self).source().obeys_prophetic_iter_laws() ==> {
                        &&& final(self).source().obeys_prophetic_iter_laws()
                        &&& exists|running_len: nat|
                            final(self).source().remaining() == #[trigger] split_front(
                                old(self).source().remaining(),
                                old(self).limit(),
                                running_len,
                            ).1
                    }
                },
            },
    {
        let running_len = self.running_tasks.len();
        let started = self.take_started(running_len);
        self.start_all(started);
        proof {
            if old(self).running() is Some {
                let held = old(self).running()->0;
                assert(self.running()->0.take(held.len() as int) =~= held);
            }
            if old(self).source().obeys_prophetic_iter_laws() {
                assert(self.tasks.remaining() == split_front(
                    old(self).source().remaining(),
                    old(self).limit(),
                    running_len as nat,
                ).1);
            }
        }
    }

    /// Polls the running set. When a future has completed, its output is
    /// returned and the freed slots are refilled from the iterator.
    pub fn poll_next(&mut self, cx: &mut Context) -> (polled: Poll<Option<F::Output>>)
        ensures
            final(self).limit() == old(self).limit(),
            old(self).fresh() ==> polled matches Poll::Ready(None),
            match polled {
                Poll::Ready(Some(out)) => match old(self).running() {
                    Some(held) => {
                        let rest = held.drop_first();
                        &&& held.len() > 0
                        &&& out == held[0].view()
                        &&& final(self).running() is Some
                        &&& final(self).running()->0.take(rest.len() as int) == rest
                        &&& final(self).running()->0.len() <= rest.len() + free_slots(
                            old(self).limit(),
                            rest.len(),
                        )
                        &&& rest.len() <= old(self).limit() ==> final(self).running()->0.len()
                            <= old(self).limit()
                        &&& rest.len() >= old(self).limit() ==> final(self).running() == Some(
                            rest,
                        )
                        &&& old(self).source().obeys_prophetic_iter_laws() ==> {
                            &&& final(self).source().obeys_prophetic_iter_laws()
                            &&& final(self).running() == Some(
                                rest + split_front(
                                    old(self).source().remaining(),
                                    old(self).limit(),
                                    rest.len(),
                                ).0,
                            )
                            &&& final(self).source().remaining() == split_front(
                                old(self).source().remaining(),
                                old(self).limit(),
                                rest.len(),
                            ).1
                            &&& final(self).running()->0 + final(self).source().remaining() == (
                            held + old(self).source().remaining()).drop_first()
                            &&& saturated(
                                final(self).source().remaining().len(),
                                old(self).limit(),
                                final(self).running()->0.len(),
                            )
                        }
                    },
                    None => {
                        &&& final(self).running() is None
                        &&& old(self).source().obeys_prophetic_iter_laws() ==> {
                            &&& final(self).source().obeys_prophetic_iter_laws()
                            &&& exists|running_len: nat|
                                final(self).source().remaining() == #[trigger] split_front(
                                    old(self).source().remaining(),
                                    old(self).limit(),
                                    running_len,
                                ).1
                        }
                    },
                },
                Poll::Ready(None) => {
                    &&& old(self).running() is Some ==> old(self).running()->0.len() == 0
                    &&& final(self).running() == Some(Seq::<F>::empty())
                    &&& final(self).fresh() == old(self).fresh()
                    &&& final(self).source() == old(self).source()
                },
                Poll::Pending => {
                    &&& final(self).running() == old(self).running()
                    &&& final(self).fresh() == old(self).fresh()
                    &&& final(self).source() == old(self).source()
                },
            },
    {
        let polled = self.running_tasks.poll(cx);
        match &polled {
            Poll::Ready(Some(_)) => {
                self.refill();
                proof {
                    if old(self).running() is Some {
                        let rest = old(self).running()->0.drop_first();
                        law_refill_bounds(old(self).limit(), rest.len(), 0);
                        if rest.len() >= old(self).limit() {
                            assert(self.running()->0 =~= self.running()->0.take(rest.len() as int));
                        }
                    }
                    if old(self).running() is Some && old(self).source().obeys_prophetic_iter_laws() {
                        let held = old(self).running()->0;
                        let rest = held.drop_first();
                        let source = old(self).source().remaining();
                        law_split_front(source, old(self).limit(), rest.len());
                        let (started, left) = split_front(source, old(self).limit(), rest.len());
                        assert(rest + started + left =~= rest + (started + left));
                        assert(rest + source =~= (held + source).drop_first());
                    }
                }
            },
            _ => {},
        }
        polled
    }
}

impl<I, F> Passthrough<F> for FuturesOrderedIter<I, F> where
    F: core::future::Future,
    I: Iterator<Item = F>,
 {
    type FuturesHolder = FuturesOrdered<F>;

    fn set_max_concurrent(&mut self, max_concurrent: usize)
        ensures
            final(self).limit() == max_concurrent,
            final(self).source() == old(self).source(),
            final(self).running() == old(self).running(),
            final(self).inner_set() == old(self).inner_set(),
            final(self).fresh() == old(self).fresh(),
    {
        self.max_concurrent = max_concurrent;
    }

    fn borrow_inner(&self) -> (inner: &FuturesOrdered<F>)
        ensures
            *inner == self.inner_set(),
    {
        self.running_tasks.inner()
    }

    fn borrow_mut_inner(&mut self) -> (inner: &mut FuturesOrdered<F>)
        ensures
            *inner == old(self).inner_set(),
            final(self).inner_set() == *final(inner),
            final(self).running() is None,
            final(self).limit() == old(self).limit(),
            final(self).source() == old(self).source(),
    {
        self.running_tasks.inner_mut()
    }

    fn into_inner(self) -> (inner: FuturesOrdered<F>) where Self: Sized
        ensures
            inner == self.inner_set(),
    {
        self.running_tasks.into_set()
    }
}

impl<F> FuturesOrderedBounded<F> where F: core::future::Future {
    /// The limit on running futures.
    pub closed spec fn limit(&self) -> nat {
        self.max_concurrent as nat
    }

    /// The waiting futures, front first.
    pub closed spec fn waiting(&self) -> Seq<F> {
        self.queued_tasks@
    }

    /// The futures in the running set, next output first; `None` once the
    /// set was borrowed mutably.
    pub closed spec fn running(&self) -> Option<Seq<F>> {
        self.running_tasks.model()
    }

    /// The running `FuturesOrdered` itself.
    pub closed spec fn inner_set(&self) -> FuturesOrdered<F> {
        self.running_tasks.set()
    }

    /// Whether the running set is fresh: created or cleared, and never given
    /// a future since. Polling a fresh set gives `Ready(None)`.
    pub closed spec fn fresh(&self) -> bool {
        self.running_tasks.fresh()
    }

    /// Every future not yet yielded, in the order the outputs come out: the
    /// running ones, then the waiting ones.
    pub open spec fn pending(&self) -> Option<Seq<F>> {
        match self.running() {
            Some(held) => Some(held + self.waiting()),
            None => None,
        }
    }

    /// The running set is known, within the limit, and full whenever a
    /// future waits.
    pub open spec fn balanced(&self) -> bool {
        &&& self.running() is Some
        &&& self.running()->0.len() <= self.limit()
        &&& saturated(self.waiting().len(), self.limit(), self.running()->0.len())
    }

    /// Creates a new bounded `FuturesOrdered` with room for
    /// `max_concurrent` running futures and nothing running or waiting.
    pub fn new(max_concurrent: usize) -> (runner: Self)
        requires
            max_concurrent > 0,
        ensures
            runner.limit() == max_concurrent,
            runner.waiting() == Seq::<F>::empty(),
            runner.running() == Some(Seq::<F>::empty()),
            runner.fresh(),
    {
        FuturesOrderedBounded {
            max_concurrent,
            queued_tasks: VecDeque::new(),
            running_tasks: RunningOrdered::new(),
        }
    }

    /// Where a future pushed to the back goes, given the number of futures
    /// running now: while fewer than `max_concurrent` run, it is handed back
    /// to be started; otherwise it waits at the back of the queue.
    pub fn place_back(&mut self, running_len: usize, fut: F) -> (to_start: Option<F>)
        ensures
            final(self).limit() == old(self).limit(),
            final(self).running() == old(self).running(),
            final(self).inner_set() == old(self).inner_set(),
            final(self).fresh() == old(self).fresh(),
            to_start == admitted(fut, old(self).limit(), running_len as nat),
            final(self).waiting() == waiting_after_push_back(
                old(self).waiting(),
                old(self).limit(),
                running_len as nat,
                fut,
            ),
            running_len < old(self).limit() ==> to_start == Some(fut) && final(self).waiting()
                == old(self).waiting(),
            running_len >= old(self).limit() ==> to_start is None && final(self).waiting()
                == old(self).waiting().push(fut),
    {
        if running_len < self.max_concurrent {
            Some(fut)
        } else {
            self.queued_tasks.push_back(fut);
            None
        }
    }

    /// Where a future pushed to the front goes, given the number of futures
    /// running now: while fewer than `max_concurrent` run, it is handed back
    /// to be started; otherwise it waits at the front of the queue.
    pub fn place_front(&mut self, running_len: usize, fut: F) -> (to_start: Option<F>)
        ensures
            final(self).limit() == old(self).limit(),
            final(self).running() == old(self).running(),
            final(self).inner_set() == old(self).inner_set(),
            final(self).fresh() == old(self).fresh(),
            to_start == admitted(fut, old(self).limit(), running_len as nat),
            final(self).waiting() == waiting_after_push_front(
                old(self).waiting(),
                old(self).limit(),
                running_len as nat,
                fut,
            ),
            running_len < old(self).limit() ==> to_start == Some(fut) && final(self).waiting()
                == old(self).waiting(),
            running_len >= old(self).limit() ==> to_start is None && final(self).waiting()
                == seq![fut] + old(self).waiting(),
    {
        if running_len < self.max_concurrent {
            Some(fut)
        } else {
            self.queued_tasks.push_front(fut);
            assert(self.queued_tasks@ =~= seq![fut] + old(self).queued_tasks@);
            None
        }
    }

    /// Appends an element to the back of the deque.
    ///
    /// If `max_concurrent` futures are already running, the future waits at
    /// the back of another queue and will only get pulled as needed. In a
    /// balanced runner its output comes after all others.
    pub fn push_back(&mut self, fut: F)
        ensures
            final(self).limit() == old(self).limit(),
            match old(self).running() {
                Some(held) => {
                    let to_start = admitted(fut, old(self).limit(), held.len());
                    &&& final(self).running() == Some(held + started_seq(to_start))
                    &&& final(self).waiting() == waiting_after_push_back(
                        old(self).waiting(),
                        old(self).limit(),
                        held.len(),
                        fut,
                    )
                    &&& old(self).balanced() ==> final(self).pending() == Some(
                        old(self).pending()->0.push(fut),
                    )
                    &&& held.len() < old(self).limit() ==> {
                        &&& final(self).running() == Some(held.push(fut))
                        &&& final(self).waiting() == old(self).waiting()
                    }
                    &&& held.len() >= old(self).limit() ==> {
                        &&& final(self).running() == Some(held)
                        &&& final(self).waiting() == old(self).waiting().push(fut)
                    }
                },
                None => {
                    &&& final(self).running() is None
                    &&& exists|running_len: nat|
                        final(self).waiting() == #[trigger] waiting_after_push_back(
                            old(self).waiting(),
                            old(self).limit(),
                            running_len,
                            fut,
                        )
                },
            },
            old(self).balanced() ==> final(self).balanced(),
    {
        let running_len = self.running_tasks.len();
        let to_start = self.place_back(running_len, fut);
        if let Some(fut) = to_start {
            self.running_tasks.push_back(fut);
        }
        proof {
            let w = old(self).waiting();
            let lim = old(self).limit();
            law_admitted(fut, lim, running_len as nat, w.len());
            if old(self).running() is Some {
                let held = old(self).running()->0;
                if old(self).balanced() {
                    assert(held + started_seq(to_start) + self.waiting() =~= (held + w).push(fut));
                }
            } else {
                assert(self.waiting() == waiting_after_push_back(w, lim, running_len as nat, fut));
            }
        }
    }

    /// Appends an element to the front of the deque.
    ///
    /// While fewer than `max_concurrent` futures run, the future starts at
    /// the front of the running set, so its output comes next; otherwise it
    /// waits at the front of another queue and will only get pulled as
    /// needed.
    pub fn push_front(&mut self, fut: F)
        ensures
            final(self).limit() == old(self).limit(),
            match old(self).running() {
                Some(held) => {
                    let to_start = admitted(fut, old(self).limit(), held.len());
                    &&& final(self).running() == Some(started_seq(to_start) + held)
                    &&& final(self).waiting() == waiting_after_push_front(
                        old(self).waiting(),
                        old(self).limit(),
                        held.len(),
                        fut,
                    )
                    &&& final(self).pending() == Some(
                        if to_start is Some {
                            seq![fut] + old(self).pending()->0
                        } else {
                            held + seq![fut] + old(self).waiting()
                        },
                    )
                    &&& held.len() < old(self).limit() ==> {
                        &&& final(self).running() == Some(seq![fut] + held)
                        &&& final(self).waiting() == old(self).waiting()
                    }
                    &&& held.len() >= old(self).limit() ==> {
                        &&& final(self).running() == Some(held)
                        &&& final(self).waiting() == seq![fut] + old(self).waiting()
                    }
                },
                None => {
                    &&& final(self).running() is None
                    &&& exists|running_len: nat|
                        final(self).waiting() == #[trigger] waiting_after_push_front(
                            old(self).waiting(),
                            old(self).limit(),
                            running_len,
                            fut,
                        )
                },
            },
            old(self).balanced() ==> final(self).balanced(),
    {
        let running_len = self.running_tasks.len();
        let to_start = self.place_front(running_len, fut);
        if let Some(fut) = to_start {
            self.running_tasks.push_front(fut);
        }
        proof {
            let w = old(self).waiting();
            let lim = old(self).limit();
            law_admitted(fut, lim, running_len as nat, w.len());
            if old(self).running() is Some {
                let held = old(self).running()->0;
                if to_start is Some {
                    assert(self.running()->0 =~= started_seq(to_start) + held);
                    assert(self.running()->0 + self.waiting() =~= seq![fut] + (held + w));
                } else {
                    assert(self.running()->0 =~= started_seq(to_start) + held);
                    assert(self.running()->0 + self.waiting() =~= held + seq![fut] + w);
                }
            } else {
                assert(self.waiting() == waiting_after_push_front(w, lim, running_len as nat, fut));
            }
        }
    }

    /// Takes from the front of the queue the futures to start, given the
    /// number of futures running now, and hands them back without starting
    /// them.
    ///
    /// As many are taken as there are free slots below `max_concurrent`, or
    /// the whole queue if it is shorter; they come back front first.
    pub fn take_started(&mut self, running_len: usize) -> (started: Vec<F>)
        ensures
            final(self).limit() == old(self).limit(),
            final(self).running() == old(self).running(),
            final(self).inner_set() == old(self).inner_set(),
            final(self).fresh() == old(self).fresh(),
            started@ == split_front(old(self).waiting(), old(self).limit(), running_len as nat).0,
            final(self).waiting() == split_front(
                old(self).waiting(),
                old(self).limit(),
                running_len as nat,
            ).1,
            running_len >= old(self).limit() ==> started@.len() == 0 && final(self).waiting()
                == old(self).waiting(),
            running_len < old(self).limit() ==> started@.len() == if running_len + old(
                self,
            ).waiting().len() <= old(self).limit() {
                old(self).waiting().len() as int
            } else {
                old(self).limit() - running_len
            },
    {
        let slots = free_slots_of(self.max_concurrent, running_len);
        let count = if slots <= self.queued_tasks.len() {
            slots
        } else {
            self.queued_tasks.len()
        };
        let ghost queue = self.queued_tasks@;
        let mut started: Vec<F> = Vec::new();
        while started.len() < count
            invariant
                self.max_concurrent == old(self).max_concurrent,
                self.running_tasks == old(self).running_tasks,
                count == refill_count(old(self).limit(), running_len as nat, queue.len()),
                queue == old(self).queued_tasks@,
                count <= queue.len(),
                started.len() <= count,
                started@ == queue.take(started.len() as int),
                self.queued_tasks@ == queue.skip(started.len() as int),
            decreases count - started.len(),
        {
            if let Some(fut) = self.queued_tasks.pop_front() {
                started.push(fut);
            }
            assert(started@ =~= queue.take(started.len() as int));
            assert(self.queued_tasks@ =~= queue.skip(started.len() as int));
        }
        started
    }

    /// Appends `started` to the running set, in order.
    fn start_all(&mut self, started: Vec<F>)
        ensures
            final(self).limit() == old(self).limit(),
            final(self).waiting() == old(self).waiting(),
            final(self).running() == extended(old(self).running(), started@),
    {
        let ghost all = started@;
        for fut in it: started
            invariant
                self.max_concurrent == old(self).max_concurrent,
                self.queued_tasks@ == old(self).queued_tasks@,
                it.seq() == all,
                self.running_tasks.model() == extended(
                    old(self).running_tasks.model(),
                    all.take(it.index() as int),
                ),
        {
            proof {
                assert(all.take(it.index() + 1) =~= all.take(it.index() as int).push(fut));
                if self.running_tasks.model() is Some {
                    assert(self.running_tasks.model()->0 + seq![fut] =~= old(
                        self,
                    ).running_tasks.model()->0 + all.take(it.index() + 1));
                }
            }
            self.running_tasks.push_back(fut);
        }
        assert(all.take(all.len() as int) =~= all);
    }

    /// Tops the running set up from the front of the queue: while fewer than
    /// `max_concurrent` futures run and some wait, the front one is started.
    fn refill(&mut self)
        ensures
            final(self).limit() == old(self).limit(),
            match old(self).running() {
                Some(held) => {
                    &&& final(self).running() == Some(
                        held + split_front(old(self).waiting(), old(self).limit(), held.len()).0,
                    )
                    &&& final(self).waiting() == split_front(
                        old(self).waiting(),
                        old(self).limit(),
                        held.len(),
                    ).1
                },
                None => {
                    &&& final(self).running() is None
                    &&& exists|running_len: nat|
                        final(self).waiting() == #[trigger] split_front(
                            old(self).waiting(),
                            old(self).limit(),
                            running_len,
                        ).1
                },
            },
    {
        let running_len = self.running_tasks.len();
        let started = self.take_started(running_len);
        self.start_all(started);
        assert(self.queued_tasks@ == split_front(
            old(self).waiting(),
            old(self).limit(),
            running_len as nat,
        ).1);
    }

    /// Polls the running set. When a future has completed, its output is
    /// returned and the freed slots are refilled from the front of the
    /// queue.
    pub fn poll_next(&mut self, cx: &mut Context) -> (polled: Poll<Option<F::Output>>)
        ensures
            final(self).limit() == old(self).limit(),
            old(self).fresh() ==> polled matches Poll::Ready(None),
            match polled {
                Poll::Ready(Some(out)) => match old(self).running() {
                    Some(held) => {
                        let rest = held.drop_first();
                        let refilled = split_front(old(self).waiting(), old(self).limit(), rest.len());
                        &&& held.len() > 0
                        &&& out == held[0].view()
                        &&& final(self).running() == Some(rest + refilled.0)
                        &&& final(self).waiting() == refilled.1
                        &&& final(self).pending() == Some(old(self).pending()->0.drop_first())
                        &&& rest.len() <= old(self).limit() ==> final(self).balanced()
                        &&& rest.len() >= old(self).limit() ==> {
                            &&& final(self).running() == Some(rest)
                            &&& final(self).waiting() == old(self).waiting()
                        }
                    },
                    None => {
                        &&& final(self).running() is None
                        &&& exists|running_len: nat|
                            final(self).waiting() == #[trigger] split_front(
                                old(self).waiting(),
                                old(self).limit(),
                                running_len,
                            ).1
                    },
                },
                Poll::Ready(None) => {
                    &&& old(self).running() is Some ==> old(self).running()->0.len() == 0
                    &&& final(self).running() == Some(Seq::<F>::empty())
                    &&& final(self).fresh() == old(self).fresh()
                    &&& final(self).waiting() == old(self).waiting()
                },
                Poll::Pending => {
                    &&& final(self).running() == old(self).running()
                    &&& final(self).fresh() == old(self).fresh()
                    &&& final(self).waiting() == old(self).waiting()
                },
            },
            old(self).balanced() ==> final(self).balanced(),
    {
        let polled = self.running_tasks.poll(cx);
        match &polled {
            Poll::Ready(Some(_)) => {
                let ghost mid_waiting = self.waiting();
                self.refill();
                proof {
                    assert(mid_waiting == old(self).waiting());
                    if old(self).running() is Some {
                        let held = old(self).running()->0;
                        let rest = held.drop_first();
                        let w = old(self).waiting();
                        law_split_front(w, old(self).limit(), rest.len());
                        let (started, left) = split_front(w, old(self).limit(), rest.len());
                        assert(rest + started + left =~= rest + (started + left));
                        assert(rest + w =~= (held + w).drop_first());
                    }
                }
            },
            _ => {},
        }
        polled
    }

    /// Mutably borrow the internal queue task list.
    pub fn borrow_mut_queue(&mut self) -> (queue: &mut VecDeque<F>)
        ensures
            queue@ == old(self).waiting(),
            final(self).waiting() == final(queue)@,
            final(self).limit() == old(self).limit(),
            final(self).running() == old(self).running(),
            final(self).inner_set() == old(self).inner_set(),
            final(self).fresh() == old(self).fresh(),
    {
        &mut self.queued_tasks
    }

    /// Borrow the internal queue task list.
    pub fn borrow_queue(&self) -> (queue: &VecDeque<F>)
        ensures
            queue@ == self.waiting(),
    {
        &self.queued_tasks
    }
}

impl<F> Passthrough<F> for FuturesOrderedBounded<F> where F: core::future::Future {
    type FuturesHolder = FuturesOrdered<F>;

    fn set_max_concurrent(&mut self, max_concurrent: usize)
        ensures
            final(self).limit() == max_concurrent,
            final(self).waiting() == old(self).waiting(),
            final(self).running() == old(self).running(),
            final(self).inner_set() == old(self).inner_set(),
            final(self).fresh() == old(self).fresh(),
    {
        self.max_concurrent = max_concurrent;
    }

    fn borrow_inner(&self) -> (inner: &FuturesOrdered<F>)
        ensures
            *inner == self.inner_set(),
    {
        self.running_tasks.inner()
    }

    fn borrow_mut_inner(&mut self) -> (inner: &mut FuturesOrdered<F>)
        ensures
            *inner == old(self).inner_set(),
            final(self).inner_set() == *final(inner),
            final(self).running() is None,
            final(self).limit() == old(self).limit(),
            final(self).waiting() == old(self).waiting(),
    {
        self.running_tasks.inner_mut()
    }

    fn into_inner(self) -> (inner: FuturesOrdered<F>) where Self: Sized
        ensures
            inner == self.inner_set(),
    {
        self.running_tasks.into_set()
    }
}

/// Pushing to the back of a saturated runner keeps the order in which the
/// futures come out: the running futures, then the waiting ones, then the
/// new one. The running set stays within the limit and saturated.
pub proof fn law_push_back_appends<F>(
    running: Seq<F>,
    waiting: Seq<F>,
    max_concurrent: nat,
    fut: F,
)
    requires
        saturated(waiting.len(), max_concurrent, running.len()),
    ensures
        ({
            let started = started_seq(admitted(fut, max_concurrent, running.len()));
            let after = waiting_after_push_back(waiting, max_concurrent, running.len(), fut);
            &&& running + started + after == (running + waiting).push(fut)
            &&& running.len() <= max_concurrent ==> running.len() + started.len() <= max_concurrent
            &&& saturated(after.len(), max_concurrent, running.len() + started.len())
        }),
{
    let started = started_seq(admitted(fut, max_concurrent, running.len()));
    let after = waiting_after_push_back(waiting, max_concurrent, running.len(), fut);
    assert(running + started + after =~= (running + waiting).push(fut));
}

/// A future pushed to the front comes before every waiting future, whether
/// it starts at once or waits: what it starts followed by the queue is the
/// new future followed by the old queue.
pub proof fn law_push_front_precedes_waiting<F>(
    waiting: Seq<F>,
    max_concurrent: nat,
    running_len: nat,
    fut: F,
)
    ensures
        started_seq(admitted(fut, max_concurrent, running_len))
            + waiting_after_push_front(waiting, max_concurrent, running_len, fut) == seq![fut]
            + waiting,
{
    let started = started_seq(admitted(fut, max_concurrent, running_len));
    let after = waiting_after_push_front(waiting, max_concurrent, running_len, fut);
    assert(started + after =~= seq![fut] + waiting);
}

/// Pushing to the back never disturbs the futures already waiting, for
/// every queue, limit and running length: below the limit the future is
/// started and the queue is left exactly as it was; at or above the limit
/// nothing is started and the future joins the queue behind all of them.
pub proof fn law_push_back_keeps_queue<F>(
    waiting: Seq<F>,
    max_concurrent: nat,
    running_len: nat,
    fut: F,
)
    ensures
        running_len < max_concurrent ==> {
            &&& admitted(fut, max_concurrent, running_len) == Some(fut)
            &&& waiting_after_push_back(waiting, max_concurrent, running_len, fut) == waiting
        },
        running_len >= max_concurrent ==> {
            &&& admitted(fut, max_concurrent, running_len) is None
            &&& waiting_after_push_back(waiting, max_concurrent, running_len, fut)
                == waiting.push(fut)
        },
{
}

/// Pushing to the front never disturbs the futures already waiting, for
/// every queue, limit and running length: below the limit the future is
/// started and the queue is left exactly as it was; at or above the limit
/// nothing is started and the future waits ahead of all of them.
pub proof fn law_push_front_keeps_queue<F>(
    waiting: Seq<F>,
    max_concurrent: nat,
    running_len: nat,
    fut: F,
)
    ensures
        running_len < max_concurrent ==> {
            &&& admitted(fut, max_concurrent, running_len) == Some(fut)
            &&& waiting_after_push_front(waiting, max_concurrent, running_len, fut) == waiting
        },
        running_len >= max_concurrent ==> {
            &&& admitted(fut, max_concurrent, running_len) is None
            &&& waiting_after_push_front(waiting, max_concurrent, running_len, fut) == seq![fut]
                + waiting
        },
{
}

/// The front running future is the one that completes first in a
/// `FuturesOrdered`. Refilling after it completes keeps the order in which
/// the remaining futures come out: the rest of the running set, then the
/// started futures, then those still waiting, are exactly the futures that
/// were running or waiting before, less the completed one. The running set
/// stays within the limit and ends saturated.
pub proof fn law_refill_after_completion_keeps_order<F>(
    running: Seq<F>,
    waiting: Seq<F>,
    max_concurrent: nat,
)
    requires
        running.len() > 0,
    ensures
        ({
            let rest = running.drop_first();
            let (started, left) = split_front(waiting, max_concurrent, rest.len());
            &&& rest + started + left == (running + waiting).drop_first()
            &&& rest.len() <= max_concurrent ==> rest.len() + started.len() <= max_concurrent
            &&& saturated(left.len(), max_concurrent, rest.len() + started.len())
        }),
{
    let rest = running.drop_first();
    let (started, left) = split_front(waiting, max_concurrent, rest.len());
    law_split_front(waiting, max_concurrent, rest.len());
    assert(rest + started + left =~= rest + (started + left));
    assert(rest + waiting =~= (running + waiting).drop_first());
}

/// Whole runs of a `FuturesOrderedBounded`: start from a balanced runner with
/// a positive limit and make any calls of `push_back` and `poll_next`, each
/// as its contract describes (the clauses below are taken from those
/// contracts). Then the outputs are those of the futures that were pending
/// at the start or pushed since, in that order; the futures not yet yielded
/// are still pending, in that order; the runner is still balanced; and a
/// poll answers `Ready(None)` only when nothing is pending.
pub proof fn law_run_yields_in_push_order<F: core::future::Future>(
    runs: Seq<FuturesOrderedBounded<F>>,
    calls: Seq<Call<F, F::Output>>,
)
    requires
        runs.len() == calls.len() + 1,
        runs[0].balanced(),
        runs[0].limit() > 0,
        forall|i: int|
            #![trigger calls[i]]
            0 <= i < calls.len() ==> {
                &&& runs[i + 1].limit() == runs[i].limit()
                &&& match calls[i] {
                    Call::Pushed(fut) => runs[i].balanced() ==> {
                        &&& runs[i + 1].balanced()
                        &&& runs[i + 1].pending() == Some(runs[i].pending()->0.push(fut))
                    },
                    Call::Polled(polled) => {
                        &&& runs[i].balanced() ==> runs[i + 1].balanced()
                        &&& match polled {
                            Poll::Ready(Some(out)) => runs[i].running() is Some ==> {
                                &&& runs[i].running()->0.len() > 0
                                &&& out == runs[i].running()->0[0].view()
                                &&& runs[i + 1].pending() == Some(
                                    runs[i].pending()->0.drop_first(),
                                )
                            },
                            Poll::Ready(None) => {
                                &&& runs[i].running() is Some ==> runs[i].running()->0.len() == 0
                                &&& runs[i + 1].running() == Some(Seq::<F>::empty())
                                &&& runs[i + 1].waiting() == runs[i].waiting()
                            },
                            Poll::Pending => {
                                &&& runs[i + 1].running() == runs[i].running()
                                &&& runs[i + 1].waiting() == runs[i].waiting()
                            },
                        }
                    },
                }
            },
    ensures
        ({
            let all = runs[0].pending()->0 + pushed(calls);
            let out = yielded(calls);
            &&& out.len() <= all.len()
            &&& forall|j: int| 0 <= j < out.len() ==> #[trigger] out[j] == all[j].view()
            &&& runs[calls.len() as int].balanced()
            &&& runs[calls.len() as int].limit() == runs[0].limit()
            &&& runs[calls.len() as int].pending() == Some(all.skip(out.len() as int))
        }),
        forall|i: int|
            0 <= i < calls.len() && (#[trigger] calls[i] matches Call::Polled(Poll::Ready(None)))
                ==> runs[i].pending()->0.len() == 0,
    decreases calls.len(),
{
    if calls.len() > 0 {
        let n = calls.len() - 1;
        let prev_runs = runs.drop_last();
        let prev_calls = calls.drop_last();
        assert forall|i: int| 0 <= i < prev_calls.len() implies #[trigger] prev_calls[i] == calls[i]
            && prev_runs[i] == runs[i] && prev_runs[i + 1] == runs[i + 1] by {}
        law_run_yields_in_push_order(prev_runs, prev_calls);
        let all = runs[0].pending()->0 + pushed(prev_calls);
        let k = yielded(prev_calls).len();
        let before = runs[n];
        let after = runs[n + 1];
        assert(before == prev_runs[n]);
        assert(before.pending() == Some(all.skip(k as int)));
        assert(before.balanced());
        match calls[n] {
            Call::Pushed(fut) => {
                assert(pushed(calls) == pushed(prev_calls).push(fut));
                assert(yielded(calls) == yielded(prev_calls));
                let all2 = runs[0].pending()->0 + pushed(calls);
                assert(all2 =~= all.push(fut));
                assert(after.pending()->0 =~= all2.skip(k as int));
                assert forall|j: int| 0 <= j < k implies #[trigger] yielded(calls)[j] == all2[j].view() by {
                    assert(yielded(calls)[j] == yielded(prev_calls)[j]);
                    assert(all2[j] == all[j]);
                }
            },
            Call::Polled(polled) => {
                assert(pushed(calls) == pushed(prev_calls));
                match polled {
                    Poll::Ready(Some(out)) => {
                        assert(yielded(calls) == yielded(prev_calls).push(out));
                        let held = before.running()->0;
                        assert(before.pending()->0[0] == held[0]);
                        assert(all.skip(k as int)[0] == all[k as int]);
                        assert(after.pending()->0 =~= all.skip((k + 1) as int));
                        assert forall|j: int| 0 <= j < k + 1 implies #[trigger] yielded(calls)[j] == all[j].view() by {
                            if j < k {
                                assert(yielded(calls)[j] == yielded(prev_calls)[j]);
                            }
                        }
                    },
                    Poll::Ready(None) => {
                        assert(yielded(calls) == yielded(prev_calls));
                        assert(before.waiting().len() == 0);
                        assert(before.pending()->0.len() == 0);
                        assert(after.pending()->0 =~= all.skip(k as int));
                        assert forall|j: int| 0 <= j < k implies #[trigger] yielded(calls)[j] == all[j].view() by {
                            assert(yielded(calls)[j] == yielded(prev_calls)[j]);
                        }
                    },
                    Poll::Pending => {
                        assert(yielded(calls) == yielded(prev_calls));
                        assert forall|j: int| 0 <= j < k implies #[trigger] yielded(calls)[j] == all[j].view() by {
                            assert(yielded(calls)[j] == yielded(prev_calls)[j]);
                        }
                    },
                }
            },
        }
        assert forall|i: int|
            0 <= i < calls.len() && (#[trigger] calls[i] matches Call::Polled(Poll::Ready(None)))
            implies runs[i].pending()->0.len() == 0 by {
            if i < n {
                assert(prev_calls[i] == calls[i]);
            }
        }
    }
}

/// Whole runs of a `FuturesOrderedIter` over an iterator that obeys vstd's
/// iterator laws: start from a runner whose running set is known, within a
/// positive limit, and full unless the iterator is exhausted, and poll it
/// any number of times, each poll as `poll_next`'s contract describes (the
/// clauses below are taken from it). Then the outputs are those of the
/// futures running at the start followed by those the iterator still had,
/// in that order; the running futures followed by what the iterator still
/// holds are the rest of them, in that order; no more than the limit are
/// ever running; and a poll answers `Ready(None)` only when nothing is left.
pub proof fn law_iter_run_yields_in_order<I, F>(
    runs: Seq<FuturesOrderedIter<I, F>>,
    calls: Seq<Call<F, F::Output>>,
)
    where
        F: core::future::Future,
        I: Iterator<Item = F>,
    requires
        runs.len() == calls.len() + 1,
        runs[0].limit() > 0,
        runs[0].source().obeys_prophetic_iter_laws(),
        runs[0].running() is Some,
        runs[0].running()->0.len() <= runs[0].limit(),
        saturated(
            runs[0].source().remaining().len(),
            runs[0].limit(),
            runs[0].running()->0.len(),
        ),
        forall|i: int|
            #![trigger calls[i]]
            0 <= i < calls.len() ==> match calls[i] {
                Call::Pushed(_) => false,
                Call::Polled(polled) => {
                    &&& runs[i + 1].limit() == runs[i].limit()
                    &&& runs[i].source().obeys_prophetic_iter_laws()
                        ==> runs[i + 1].source().obeys_prophetic_iter_laws()
                    &&& match polled {
                        Poll::Ready(Some(out)) => runs[i].running() is Some ==> {
                            let held = runs[i].running()->0;
                            &&& held.len() > 0
                            &&& out == held[0].view()
                            &&& runs[i + 1].running() is Some
                            &&& held.len() - 1 <= runs[i].limit() ==> runs[i + 1].running()->0.len()
                                <= runs[i].limit()
                            &&& runs[i].source().obeys_prophetic_iter_laws() ==> {
                                &&& runs[i + 1].running()->0 + runs[i + 1].source().remaining()
                                    == (held + runs[i].source().remaining()).drop_first()
                                &&& saturated(
                                    runs[i + 1].source().remaining().len(),
                                    runs[i].limit(),
                                    runs[i + 1].running()->0.len(),
                                )
                            }
                        },
                        Poll::Ready(None) => {
                            &&& runs[i].running() is Some ==> runs[i].running()->0.len() == 0
                            &&& runs[i + 1].running() == Some(Seq::<F>::empty())
                            &&& runs[i + 1].source() == runs[i].source()
                        },
                        Poll::Pending => {
                            &&& runs[i + 1].running() == runs[i].running()
                            &&& runs[i + 1].source() == runs[i].source()
                        },
                    }
                },
            },
    ensures
        ({
            let all = runs[0].running()->0 + runs[0].source().remaining();
            let out = yielded(calls);
            let last = runs[calls.len() as int];
            &&& out.len() <= all.len()
            &&& forall|j: int| 0 <= j < out.len() ==> #[trigger] out[j] == all[j].view()
            &&& last.source().obeys_prophetic_iter_laws()
            &&& last.running() is Some
            &&& last.running()->0.len() <= runs[0].limit()
            &&& last.limit() == runs[0].limit()
            &&& saturated(last.source().remaining().len(), last.limit(), last.running()->0.len())
            &&& last.running()->0 + last.source().remaining() == all.skip(out.len() as int)
        }),
        forall|i: int|
            0 <= i < calls.len() && (#[trigger] calls[i] matches Call::Polled(Poll::Ready(None)))
                ==> runs[i].running()->0.len() == 0 && runs[i].source().remaining().len() == 0,
    decreases calls.len(),
{
    if calls.len() > 0 {
        let n = calls.len() - 1;
        let prev_runs = runs.drop_last();
        let prev_calls = calls.drop_last();
        assert forall|i: int| 0 <= i < prev_calls.len() implies #[trigger] prev_calls[i] == calls[i]
            && prev_runs[i] == runs[i] && prev_runs[i + 1] == runs[i + 1] by {}
        law_iter_run_yields_in_order(prev_runs, prev_calls);
        let all = runs[0].running()->0 + runs[0].source().remaining();
        let k = yielded(prev_calls).len();
        let before = runs[n];
        let after = runs[n + 1];
        assert(before == prev_runs[n]);
        let held = before.running()->0;
        let pending = held + before.source().remaining();
        assert(pending == all.skip(k as int));
        match calls[n] {
            Call::Pushed(_) => {},
            Call::Polled(polled) => match polled {
                Poll::Ready(Some(out)) => {
                    assert(yielded(calls) == yielded(prev_calls).push(out));
                    assert(pending[0] == held[0]);
                    assert(all.skip(k as int)[0] == all[k as int]);
                    assert(after.running()->0 + after.source().remaining() =~= all.skip(
                        (k + 1) as int,
                    ));
                    assert forall|j: int| 0 <= j < k + 1 implies #[trigger] yielded(calls)[j] == all[j].view() by {
                        if j < k {
                            assert(yielded(calls)[j] == yielded(prev_calls)[j]);
                        }
                    }
                },
                Poll::Ready(None) => {
                    assert(yielded(calls) == yielded(prev_calls));
                    assert(before.source().remaining().len() == 0);
                    assert(after.running()->0 + after.source().remaining() =~= pending);
                    assert forall|j: int| 0 <= j < k implies #[trigger] yielded(calls)[j] == all[j].view() by {
                        assert(yielded(calls)[j] == yielded(prev_calls)[j]);
                    }
                },
                Poll::Pending => {
                    assert(yielded(calls) == yielded(prev_calls));
                    assert forall|j: int| 0 <= j < k implies #[trigger] yielded(calls)[j] == all[j].view() by {
                        assert(yielded(calls)[j] == yielded(prev_calls)[j]);
                    }
                },
            },
        }
        assert forall|i: int|
            0 <= i < calls.len() && (#[trigger] calls[i] matches Call::Polled(Poll::Ready(None)))
            implies runs[i].running()->0.len() == 0 && runs[i].source().remaining().len() == 0 by {
            if i < n {
                assert(prev_calls[i] == calls[i]);
            }
        }
    }
}

} // verus!
