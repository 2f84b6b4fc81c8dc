//! Bounded replacements for `FuturesUnordered`: the results come out in
//! the order the futures complete.
use core::task::{Context, Poll};

use futures::stream::FuturesUnordered;
use vstd::future::FutureAdditionalSpecFns;
use vstd::prelude::*;
use vstd::std_specs::iter::IteratorSpec;

use crate::common::{
    pushed, yielded, Call, admitted, free_slots, free_slots_of, law_admitted, law_refill_bounds, law_split_back, law_split_front,
    refill_count, saturated, split_back, split_front, started_seq, UnorderedPassthrough,
};
use crate::running::{extended, RunningUnordered};

verus! {

/// Bounded `FuturesUnordered` fed by an iterator.
///
/// This struct consumes an iterator where each item is a future. By using
/// an iterator, we need no additional queue to store the excess of futures:
/// they are taken from it, in its order, only when there is room for them
/// in the running set.
#[verifier::reject_recursive_types(F)]
pub struct FuturesUnorderedIter<I, F> where F: core::future::Future, I: Iterator<Item = F> {
    max_concurrent: usize,
    tasks: I,
    pub running_tasks: RunningUnordered<F>,
}

/// Drop-in replacement for `FuturesUnordered`.
///
/// Unlike `FuturesUnorderedIter`, this struct allows you to continuously
/// push futures into it, but only `max_concurrent` of them run at any
/// given time. The others wait in a `Vec` and are started, last pushed
/// first, as running futures complete.
#[verifier::reject_recursive_types(F)]
pub struct FuturesUnorderedBounded<F> where F: core::future::Future {
    max_concurrent: usize,
    queued_tasks: Vec<F>,
    running_tasks: RunningUnordered<F>,
}

/// The queue after a future is pushed while `running_len` futures run.
pub open spec fn waiting_after_push<F>(
    waiting: Seq<F>,
    max_concurrent: nat,
    running_len: nat,
    fut: F,
) -> Seq<F> {
    if admitted(fut, max_concurrent, running_len) is Some {
        waiting
    } else {
        waiting.push(fut)
    }
}

impl<I, F> FuturesUnorderedIter<I, F> where F: core::future::Future, I: Iterator<Item = F> {
    /// The limit on running futures.
    pub closed spec fn limit(&self) -> nat {
        self.max_concurrent as nat
    }

    /// The iterator the futures are taken from.
    pub closed spec fn source(&self) -> I {
        self.tasks
    }

    /// The futures in the running set, in the order they were started;
    /// `None` once the set was borrowed mutably.
    pub closed spec fn running(&self) -> Option<Seq<F>> {
        self.running_tasks.model()
    }

    /// The running `FuturesUnordered` itself.
    pub closed spec fn inner_set(&self) -> FuturesUnordered<F> {
        self.running_tasks.set()
    }

    /// Whether the running set is fresh: created or cleared, and never given
    /// a future since. Polling a fresh set gives `Ready(None)`.
    pub closed spec fn fresh(&self) -> bool {
        self.running_tasks.fresh()
    }

    /// Creates a new bounded `FuturesUnordered` from an iterator, with room
    /// for `max_concurrent` running futures. The first `max_concurrent`
    /// futures (or all, if there are fewer) are taken from the iterator and
    /// started at once; the others are created on the fly as needed.
    pub fn new(max_concurrent: usize, tasks: I) -> (runner: Self)
        requires
            max_concurrent > 0,
        ensures
            runner.limit() == max_concurrent,
            runner.running() is Some,
            runner.running()->0.len() <= max_concurrent,
            runner.fresh() == (runner.running()->0.len() == 0),
            tasks.obeys_prophetic_iter_laws() ==> {
                &&& runner.source().obeys_prophetic_iter_laws()
                &&& runner.running() == Some(
                    split_front(tasks.remaining(), max_concurrent as nat, 0).0,
                )
                &&& runner.source().remaining() == split_front(
                    tasks.remaining(),
                    max_concurrent as nat,
                    0,
                ).1
                &&& saturated(
                    runner.source().remaining().len(),
                    max_concurrent as nat,
                    runner.running()->0.len(),
                )
            },
    {
        let mut runner = FuturesUnorderedIter {
            max_concurrent,
            tasks,
            running_tasks: RunningUnordered::new(),
        };
        let started = runner.take_started(0);
        runner.start_all(started);
        assert(Seq::<F>::empty() + started@ =~= started@);
        runner
    }

    /// Takes from the iterator the futures to start, given the number of
    /// futures running now, and hands them back without starting them.
    ///
    /// As many are taken as there are free slots below `max_concurrent`;
    /// fewer only when the iterator runs out. They come back in the
    /// iterator's order.
    pub fn take_started(&mut self, running_len: usize) -> (started: Vec<F>)
        ensures
            final(self).limit() == old(self).limit(),
            final(self).running() == old(self).running(),
            final(self).inner_set() == old(self).inner_set(),
            final(self).fresh() == old(self).fresh(),
            started.len() <= free_slots(old(self).limit(), running_len as nat),
            running_len >= old(self).limit() ==> started@.len() == 0,
            old(self).source().obeys_prophetic_iter_laws() ==> {
                &&& final(self).source().obeys_prophetic_iter_laws()
                &&& started@ == split_front(
                    old(self).source().remaining(),
                    old(self).limit(),
                    running_len as nat,
                ).0
                &&& final(self).source().remaining() == split_front(
                    old(self).source().remaining(),
                    old(self).limit(),
                    running_len as nat,
                ).1
            },
    {
        let slots = free_slots_of(self.max_concurrent, running_len);
        let ghost pending = self.tasks.remaining();
        let ghost lawful = self.tasks.obeys_prophetic_iter_laws();
        let mut started: Vec<F> = Vec::new();
        let mut exhausted = false;
        while !exhausted && started.len() < slots
            invariant
                self.max_concurrent == old(self).max_concurrent,
                self.running_tasks == old(self).running_tasks,
                slots == free_slots(old(self).limit(), running_len as nat),
                started.len() <= slots,
                lawful == old(self).tasks.obeys_prophetic_iter_laws(),
                pending == old(self).tasks.remaining(),
                lawful ==> {
                    &&& self.tasks.obeys_prophetic_iter_laws()
                    &&& started.len() <= pending.len()
                    &&& started@ == pending.take(started.len() as int)
                    &&& self.tasks.remaining() == pending.skip(started.len() as int)
                    &&& (exhausted ==> started.len() == pending.len())
                },
            decreases 2 * (slots - started.len()) + if exhausted {
                0int
            } else {
                1int
            },
        {
            match self.tasks.next() {
                Some(fut) => {
                    started.push(fut);
                    proof {
                        if lawful {
                            assert(started@ =~= pending.take(started.len() as int));
                            assert(self.tasks.remaining() =~= pending.skip(started.len() as int));
                        }
                    }
                },
                None => {
                    exhausted = true;
                },
            }
        }
        started
    }

    /// Pushes `started` into the running set.
    fn start_all(&mut self, started: Vec<F>)
        ensures
            final(self).limit() == old(self).limit(),
            final(self).source() == old(self).source(),
            final(self).running() == extended(old(self).running(), started@),
            final(self).fresh() == (old(self).fresh() && started@.len() == 0),
    {
        let ghost all = started@;
        for fut in it: started
            invariant
                self.max_concurrent == old(self).max_concurrent,
                self.tasks == old(self).tasks,
                it.seq() == all,
                self.running_tasks.fresh() == (old(self).running_tasks.fresh() && it.index() == 0),
                self.running_tasks.model() == extended(
                    old(self).running_tasks.model(),
                    all.take(it.index() as int),
                ),
        {
            proof {
                assert(all.take(it.index() + 1) =~= all.take(it.index() as int).push(fut));
                if self.running_tasks.model() is Some {
                    assert(self.running_tasks.model()->0 + seq![fut] =~= old(
                        self,
                    ).running_tasks.model()->0 + all.take(it.index() + 1));
                }
            }
            self.running_tasks.push(fut);
        }
        assert(all.take(all.len() as int) =~= all);
    }

    /// Tops the running set up from the iterator: while fewer than
    /// `max_concurrent` futures run, the next one is taken and started.
    fn refill(&mut self)
        ensures
            final(self).limit() == old(self).limit(),
            match old(self).running() {
                Some(held) => {
                    &&& final(self).running() is Some
                    &&& final(self).running()->0.take(held.len() as int) == held
                    &&& held.len() <= final(self).running()->0.len()
                    &&& final(self).running()->0.len() <= held.len() + free_slots(
                        old(self).limit(),
                        held.len(),
                    )
                    &&& old(self).source().obeys_prophetic_iter_laws() ==> {
                        &&& final(self).source().obeys_prophetic_iter_laws()
                        &&& final(self).running() == Some(
                            held + split_front(
                                old(self).source().remaining(),
                                old(self).limit(),
                                held.len(),
                            ).0,
                        )
                        &&& final(self).source().remaining() == split_front(
                            old(self).source().remaining(),
                            old(self).limit(),
                            held.len(),
                        ).1
                    }
                },
                None => {
                    &&& final(self).running() is None
                    &&& old(self).source().obeys_prophetic_iter_laws() ==> {
                        &&& final(self).source().obeys_prophetic_iter_laws()
                        &&& exists|running_len: nat|
                            final(self).source().remaining() == #[trigger] split_front(
                                old(self).source().remaining(),
                                old(self).limit(),
                                running_len,
                            ).1
                    }
                },
            },
    {
        let running_len = self.running_tasks.len();
        let started = self.take_started(running_len);
        self.start_all(started);
        proof {
            if old(self).running() is Some {
                let held = old(self).running()->0;
                assert(self.running()->0.take(held.len() as int) =~= held);
            }
            if old(self).source().obeys_prophetic_iter_laws() {
                assert(self.tasks.remaining() == split_front(
                    old(self).source().remaining(),
                    old(self).limit(),
                    running_len as nat,
                ).1);
            }
        }
    }

    /// Polls the running set. When one of its futures has completed, its
    /// output is returned and the freed slots are refilled from the iterator.
    pub fn poll_next(&mut self, cx: &mut Context) -> (polled: Poll<Option<F::Output>>)
        ensures
            final(self).limit() == old(self).limit(),
            old(self).fresh() ==> polled matches Poll::Ready(None),
            match polled {
                Poll::Ready(Some(out)) => match old(self).running() {
                    Some(held) => exists|done: int|
                        {
                            let rest = held.remove(done);
                            &&& 0 <= done < held.len()
                            &&& out == (#[trigger] held[done]).view()
                            &&& final(self).running() is Some
                            &&& final(self).running()->0.take(rest.len() as int) == rest
                            &&& final(self).running()->0.len() <= rest.len() + free_slots(
                                old(self).limit(),
                                rest.len(),
                            )
                            &&& rest.len() <= old(self).limit() ==> final(self).running()->0.len()
                                <= old(self).limit()
                            &&& rest.len() >= old(self).limit() ==> final(self).running() == Some(
                                rest,
                            )
                            &&& old(self).source().obeys_prophetic_iter_laws() ==> {
                                &&& final(self).source().obeys_prophetic_iter_laws()
                                &&& final(self).running() == Some(
                                    rest + split_front(
                                        old(self).source().remaining(),
                                        old(self).limit(),
                                        rest.len(),
                                    ).0,
                                )
                                &&& final(self).source().remaining() == split_front(
                                    old(self).source().remaining(),
                                    old(self).limit(),
                                    rest.len(),
                                ).1
                                &&& (final(self).running()->0
                                    + final(self).source().remaining()).to_multiset() == (held
                                    + old(self).source().remaining()).to_multiset().remove(
                                    held[done],
                                )
                                &&& saturated(
                                    final(self).source().remaining().len(),
                                    old(self).limit(),
                                    final(self).running()->0.len(),
                                )
                            }
                        },
                    None => {
                        &&& final(self).running() is None
                        &&& old(self).source().obeys_prophetic_iter_laws() ==> {
                            &&& final(self).source().obeys_prophetic_iter_laws()
                            &&& exists|running_len: nat|
                                final(self).source().remaining() == #[trigger] split_front(
                                    old(self).source().remaining(),
                                    old(self).limit(),
                                    running_len,
                                ).1
                        }
                    },
                },
                Poll::Ready(None) => {
                    &&& old(self).running() is Some ==> old(self).running()->0.len() == 0
                    &&& final(self).running() == Some(Seq::<F>::empty())
                    &&& final(self).fresh() == old(self).fresh()
                    &&& final(self).source() == old(self).source()
                },
                Poll::Pending => {
                    &&& final(self).running() == old(self).running()
                    &&& final(self).fresh() == old(self).fresh()
                    &&& final(self).source() == old(self).source()
                },
            },
    {
        let polled = self.running_tasks.poll(cx);
        match &polled {
            Poll::Ready(Some(out)) => {
                let ghost mid = self.running();
                self.refill();
                proof {
                    if old(self).running() is Some {
                        let held = old(self).running()->0;
                        let done = choose|done: int|
                            {
                                &&& 0 <= done < held.len()
                                &&& *out == (#[trigger] held[done]).view()
                                &&& mid == Some(held.remove(done))
                            };
                        let rest = held.remove(done);
                        let lim = old(self).limit();
                        assert(mid == Some(rest));
                        if old(self).source().obeys_prophetic_iter_laws() {
                            let source = old(self).source().remaining();
                            let (started, left) = split_front(source, lim, rest.len());
                            law_split_front(source, lim, rest.len());
                            assert(started + left == source);
                            lemma_completion_conserves(held, done, started, left, source);
                            assert(self.running()->0 == rest + started);
                            assert(self.tasks.remaining() == left);
                            assert(rest + started + left =~= self.running()->0 + self.tasks.remaining());
                        }
                    }
                }
            },
            _ => {},
        }
        polled
    }
}

impl<I, F> UnorderedPassthrough<F> for FuturesUnorderedIter<I, F> where
    F: core::future::Future,
    I: Iterator<Item = F>,
 {
    open spec fn running_set(&self) -> Option<Seq<F>> {
        self.running()
    }

    fn set_capacity(&mut self, max_concurrent: usize)
        ensures
            final(self).limit() == max_concurrent,
            final(self).source() == old(self).source(),
            final(self).running() == old(self).running(),
            final(self).inner_set() == old(self).inner_set(),
            final(self).fresh() == old(self).fresh(),
    {
        self.max_concurrent = max_concurrent;
    }

    fn borrow_inner(&mut self) -> (inner: &FuturesUnordered<F>)
        ensures
            *inner == old(self).inner_set(),
            final(self).limit() == old(self).limit(),
            final(self).source() == old(self).source(),
    {
        self.running_tasks.inner()
    }

    fn borrow_mut_inner(&mut self) -> (inner: &mut FuturesUnordered<F>)
        ensures
            *inner == old(self).inner_set(),
            final(self).inner_set() == *final(inner),
            final(self).limit() == old(self).limit(),
            final(self).source() == old(self).source(),
    {
        self.running_tasks.inner_mut()
    }

    fn into_inner(self) -> (inner: FuturesUnordered<F>) where Self: Sized
        ensures
            inner == self.inner_set(),
    {
        self.running_tasks.into_set()
    }

    fn len_inner(&self) -> (len: usize) {
        self.running_tasks.len()
    }

    fn is_empty_inner(&self) -> (empty: bool) {
        self.running_tasks.is_empty()
    }

    fn push_inner(&mut self, fut: F)
        ensures
            final(self).limit() == old(self).limit(),
            final(self).source() == old(self).source(),
    {
        self.running_tasks.push(fut);
    }

    fn clear_inner(&mut self)
        ensures
            final(self).fresh(),
            final(self).limit() == old(self).limit(),
            final(self).source() == old(self).source(),
    {
        self.running_tasks.clear();
    }
}

impl<F> FuturesUnorderedBounded<F> where F: core::future::Future {
    /// The limit on running futures.
    pub closed spec fn limit(&self) -> nat {
        self.max_concurrent as nat
    }

    /// The waiting futures, in the order they were pushed.
    pub closed spec fn waiting(&self) -> Seq<F> {
        self.queued_tasks@
    }

    /// The futures in the running set, in the order they were started;
    /// `None` once the set was borrowed mutably.
    pub closed spec fn running(&self) -> Option<Seq<F>> {
        self.running_tasks.model()
    }

    /// The running `FuturesUnordered` itself.
    pub closed spec fn inner_set(&self) -> FuturesUnordered<F> {
        self.running_tasks.set()
    }

    /// Whether the running set is fresh: created or cleared, and never given
    /// a future since. Polling a fresh set gives `Ready(None)`.
    pub closed spec fn fresh(&self) -> bool {
        self.running_tasks.fresh()
    }

    /// Every future not yet yielded: the running ones, then the waiting
    /// ones.
    pub open spec fn pending(&self) -> Option<Seq<F>> {
        match self.running() {
            Some(held) => Some(held + self.waiting()),
            None => None,
        }
    }

    /// The running set is known, within the limit, and full whenever a
    /// future waits.
    pub open spec fn balanced(&self) -> bool {
        &&& self.running() is Some
        &&& self.running()->0.len() <= self.limit()
        &&& saturated(self.waiting().len(), self.limit(), self.running()->0.len())
    }

    /// Creates a new rate-limited `FuturesUnordered` with room for
    /// `max_concurrent` running futures and nothing running or waiting.
    pub fn new(max_concurrent: usize) -> (runner: Self)
        requires
            max_concurrent > 0,
        ensures
            runner.limit() == max_concurrent,
            runner.waiting() == Seq::<F>::empty(),
            runner.running() == Some(Seq::<F>::empty()),
            runner.fresh(),
    {
        FuturesUnorderedBounded {
            max_concurrent,
            queued_tasks: Vec::new(),
            running_tasks: RunningUnordered::new(),
        }
    }

    /// Where a pushed future goes, given the number of futures running now:
    /// while fewer than `max_concurrent` run, it is handed back to be
    /// started; otherwise it is stored in the queue.
    pub fn place(&mut self, running_len: usize, fut: F) -> (to_start: Option<F>)
        ensures
            final(self).limit() == old(self).limit(),
            final(self).running() == old(self).running(),
            final(self).inner_set() == old(self).inner_set(),
            final(self).fresh() == old(self).fresh(),
            to_start == admitted(fut, old(self).limit(), running_len as nat),
            final(self).waiting() == waiting_after_push(
                old(self).waiting(),
                old(self).limit(),
                running_len as nat,
                fut,
            ),
            running_len < old(self).limit() ==> to_start == Some(fut) && final(self).waiting()
                == old(self).waiting(),
            running_len >= old(self).limit() ==> to_start is None && final(self).waiting()
                == old(self).waiting().push(fut),
    {
        if running_len < self.max_concurrent {
            Some(fut)
        } else {
            self.queued_tasks.push(fut);
            None
        }
    }

    /// Enqueues a new future into the `FuturesUnorderedBounded`.
    ///
    /// If `max_concurrent` futures are already running, the future is stored
    /// in another queue and will only get pulled as needed.
    pub fn push(&mut self, fut: F)
        ensures
            final(self).limit() == old(self).limit(),
            match old(self).running() {
                Some(held) => {
                    let to_start = admitted(fut, old(self).limit(), held.len());
                    &&& final(self).running() == Some(held + started_seq(to_start))
                    &&& final(self).waiting() == waiting_after_push(
                        old(self).waiting(),
                        old(self).limit(),
                        held.len(),
                        fut,
                    )
                    &&& final(self).pending()->0.to_multiset() == old(
                        self,
                    ).pending()->0.to_multiset().insert(fut)
                    &&& held.len() < old(self).limit() ==> {
                        &&& final(self).running() == Some(held.push(fut))
                        &&& final(self).waiting() == old(self).waiting()
                    }
                    &&& held.len() >= old(self).limit() ==> {
                        &&& final(self).running() == Some(held)
                        &&& final(self).waiting() == old(self).waiting().push(fut)
                    }
                },
                None => {
                    &&& final(self).running() is None
                    &&& exists|running_len: nat|
                        final(self).waiting() == #[trigger] waiting_after_push(
                            old(self).waiting(),
                            old(self).limit(),
                            running_len,
                            fut,
                        )
                },
            },
            old(self).balanced() ==> final(self).balanced(),
    {
        let running_len = self.running_tasks.len();
        let to_start = self.place(running_len, fut);
        if let Some(fut) = to_start {
            self.running_tasks.push(fut);
        }
        proof {
            broadcast use vstd::seq_lib::group_to_multiset_ensures;
            broadcast use vstd::seq_lib::lemma_multiset_commutative;

            let w = old(self).waiting();
            let lim = old(self).limit();
            law_admitted(fut, lim, running_len as nat, w.len());
            if old(self).running() is Some {
                let held = old(self).running()->0;
                law_push_conserves(w, lim, running_len as nat, fut);
                let started = started_seq(to_start);
                assert(held + started + self.waiting() =~= held + (started + self.waiting()));
                assert((held + w).to_multiset().insert(fut) =~= held.to_multiset().add(
                    w.to_multiset().insert(fut),
                ));
            } else {
                assert(self.waiting() == waiting_after_push(w, lim, running_len as nat, fut));
            }
        }
    }

    /// Takes from the queue the futures to start, given the number of
    /// futures running now, and hands them back without starting them.
    ///
    /// As many are taken as there are free slots below `max_concurrent`, or
    /// the whole queue if it is shorter. They are popped from the end of the
    /// queue, so they come back last pushed first.
    pub fn take_started(&mut self, running_len: usize) -> (started: Vec<F>)
        ensures
            final(self).limit() == old(self).limit(),
            final(self).running() == old(self).running(),
            final(self).inner_set() == old(self).inner_set(),
            final(self).fresh() == old(self).fresh(),
            started@ == split_back(old(self).waiting(), old(self).limit(), running_len as nat).0,
            final(self).waiting() == split_back(
                old(self).waiting(),
                old(self).limit(),
                running_len as nat,
            ).1,
            running_len >= old(self).limit() ==> started@.len() == 0 && final(self).waiting()
                == old(self).waiting(),
            running_len < old(self).limit() ==> started@.len() == if running_len + old(
                self,
            ).waiting().len() <= old(self).limit() {
                old(self).waiting().len() as int
            } else {
                old(self).limit() - running_len
            },
    {
        let slots = free_slots_of(self.max_concurrent, running_len);
        let count = if slots <= self.queued_tasks.len() {
            slots
        } else {
            self.queued_tasks.len()
        };
        let ghost queue = self.queued_tasks@;
        let mut started: Vec<F> = Vec::new();
        while started.len() < count
            invariant
                self.max_concurrent == old(self).max_concurrent,
                self.running_tasks == old(self).running_tasks,
                count == refill_count(old(self).limit(), running_len as nat, queue.len()),
                queue == old(self).queued_tasks@,
                count <= queue.len(),
                started.len() <= count,
                self.queued_tasks@ == queue.take(queue.len() - started.len()),
                started@ == queue.skip(queue.len() - started.len()).reverse(),
            decreases count - started.len(),
        {
            if let Some(fut) = self.queued_tasks.pop() {
                started.push(fut);
            }
            assert(self.queued_tasks@ =~= queue.take(queue.len() - started.len()));
            assert(started@ =~= queue.skip(queue.len() - started.len()).reverse());
        }
        started
    }

    /// Pushes `started` into the running set.
    fn start_all(&mut self, started: Vec<F>)
        ensures
            final(self).limit() == old(self).limit(),
            final(self).waiting() == old(self).waiting(),
            final(self).running() == extended(old(self).running(), started@),
    {
        let ghost all = started@;
        for fut in it: started
            invariant
                self.max_concurrent == old(self).max_concurrent,
                self.queued_tasks@ == old(self).queued_tasks@,
                it.seq() == all,
                self.running_tasks.model() == extended(
                    old(self).running_tasks.model(),
                    all.take(it.index() as int),
                ),
        {
            proof {
                assert(all.take(it.index() + 1) =~= all.take(it.index() as int).push(fut));
                if self.running_tasks.model() is Some {
                    assert(self.running_tasks.model()->0 + seq![fut] =~= old(
                        self,
                    ).running_tasks.model()->0 + all.take(it.index() + 1));
                }
            }
            self.running_tasks.push(fut);
        }
        assert(all.take(all.len() as int) =~= all);
    }

    /// Tops the running set up from the queue: while fewer than
    /// `max_concurrent` futures run and some wait, the last pushed one is
    /// started.
    fn refill(&mut self)
        ensures
            final(self).limit() == old(self).limit(),
            match old(self).running() {
                Some(held) => {
                    &&& final(self).running() == Some(
                        held + split_back(old(self).waiting(), old(self).limit(), held.len()).0,
                    )
                    &&& final(self).waiting() == split_back(
                        old(self).waiting(),
                        old(self).limit(),
                        held.len(),
                    ).1
                },
                None => {
                    &&& final(self).running() is None
                    &&& exists|running_len: nat|
                        final(self).waiting() == #[trigger] split_back(
                            old(self).waiting(),
                            old(self).limit(),
                            running_len,
                        ).1
                },
            },
    {
        let running_len = self.running_tasks.len();
        let started = self.take_started(running_len);
        self.start_all(started);
        assert(self.queued_tasks@ == split_back(
            old(self).waiting(),
            old(self).limit(),
            running_len as nat,
        ).1);
    }

    /// Polls the running set. When one of its futures has completed, its
    /// output is returned and the freed slots are refilled from the queue.
    pub fn poll_next(&mut self, cx: &mut Context) -> (polled: Poll<Option<F::Output>>)
        ensures
            final(self).limit() == old(self).limit(),
            old(self).fresh() ==> polled matches Poll::Ready(None),
            match polled {
                Poll::Ready(Some(out)) => match old(self).running() {
                    Some(held) => exists|done: int|
                        {
                            let rest = held.remove(done);
                            let refilled = split_back(
                                old(self).waiting(),
                                old(self).limit(),
                                rest.len(),
                            );
                            &&& 0 <= done < held.len()
                            &&& out == (#[trigger] held[done]).view()
                            &&& final(self).running() == Some(rest + refilled.0)
                            &&& final(self).waiting() == refilled.1
                            &&& final(self).pending()->0.to_multiset() == old(
                                self,
                            ).pending()->0.to_multiset().remove(held[done])
                            &&& rest.len() <= old(self).limit() ==> final(self).balanced()
                            &&& rest.len() >= old(self).limit() ==> {
                                &&& final(self).running() == Some(rest)
                                &&& final(self).waiting() == old(self).waiting()
                            }
                        },
                    None => {
                        &&& final(self).running() is None
                        &&& exists|running_len: nat|
                            final(self).waiting() == #[trigger] split_back(
                                old(self).waiting(),
                                old(self).limit(),
                                running_len,
                            ).1
                    },
                },
                Poll::Ready(None) => {
                    &&& old(self).running() is Some ==> old(self).running()->0.len() == 0
                    &&& final(self).running() == Some(Seq::<F>::empty())
                    &&& final(self).fresh() == old(self).fresh()
                    &&& final(self).waiting() == old(self).waiting()
                },
                Poll::Pending => {
                    &&& final(self).running() == old(self).running()
                    &&& final(self).fresh() == old(self).fresh()
                    &&& final(self).waiting() == old(self).waiting()
                },
            },
            old(self).balanced() ==> final(self).balanced(),
    {
        let polled = self.running_tasks.poll(cx);
        match &polled {
            Poll::Ready(Some(out)) => {
                let ghost mid = self.running();
                let ghost mid_waiting = self.waiting();
                self.refill();
                proof {
                    assert(mid_waiting == old(self).waiting());
                    if old(self).running() is Some {
                        let held = old(self).running()->0;
                        let done = choose|done: int|
                            {
                                &&& 0 <= done < held.len()
                                &&& *out == (#[trigger] held[done]).view()
                                &&& mid == Some(held.remove(done))
                            };
                        let rest = held.remove(done);
                        let w = old(self).waiting();
                        let (started, left) = split_back(w, old(self).limit(), rest.len());
                        law_split_back(w, old(self).limit(), rest.len());
                        lemma_reverse_to_multiset(started);
                        lemma_split_conserves(started, left, w);
                        lemma_completion_conserves(held, done, started, left, w);
                        assert(*out == held[done].view());
                    }
                }
            },
            _ => {},
        }
        polled
    }

    /// Mutably borrow the internal queue task list.
    pub fn borrow_mut_queue(&mut self) -> (queue: &mut Vec<F>)
        ensures
            queue@ == old(self).waiting(),
            final(self).waiting() == final(queue)@,
            final(self).limit() == old(self).limit(),
            final(self).running() == old(self).running(),
            final(self).inner_set() == old(self).inner_set(),
            final(self).fresh() == old(self).fresh(),
    {
        &mut self.queued_tasks
    }

    /// Borrow the internal queue task list.
    pub fn borrow_queue(&self) -> (queue: &Vec<F>)
        ensures
            queue@ == self.waiting(),
    {
        &self.queued_tasks
    }

    /// Clear the internal queue.
    /// This will clear both the queue used to store the
    /// excess of futures and the running set as well.
    pub fn clear_queue(&mut self)
        ensures
            final(self).limit() == old(self).limit(),
            final(self).waiting() == Seq::<F>::empty(),
            final(self).running() == Some(Seq::<F>::empty()),
            final(self).fresh(),
    {
        self.queued_tasks.clear();
        self.running_tasks.clear();
    }

    /// Return the length of the queue of waiting futures.
    pub fn len_queue(&self) -> (len: usize)
        ensures
            len == self.waiting().len(),
    {
        self.queued_tasks.len()
    }
}

impl<F> UnorderedPassthrough<F> for FuturesUnorderedBounded<F> where F: core::future::Future {
    open spec fn running_set(&self) -> Option<Seq<F>> {
        self.running()
    }

    fn set_capacity(&mut self, max_concurrent: usize)
        ensures
            final(self).limit() == max_concurrent,
            final(self).waiting() == old(self).waiting(),
            final(self).running() == old(self).running(),
            final(self).inner_set() == old(self).inner_set(),
            final(self).fresh() == old(self).fresh(),
    {
        self.max_concurrent = max_concurrent;
    }

    fn borrow_inner(&mut self) -> (inner: &FuturesUnordered<F>)
        ensures
            *inner == old(self).inner_set(),
            final(self).limit() == old(self).limit(),
            final(self).waiting() == old(self).waiting(),
    {
        self.running_tasks.inner()
    }

    fn borrow_mut_inner(&mut self) -> (inner: &mut FuturesUnordered<F>)
        ensures
            *inner == old(self).inner_set(),
            final(self).inner_set() == *final(inner),
            final(self).limit() == old(self).limit(),
            final(self).waiting() == old(self).waiting(),
    {
        self.running_tasks.inner_mut()
    }

    fn into_inner(self) -> (inner: FuturesUnordered<F>) where Self: Sized
        ensures
            inner == self.inner_set(),
    {
        self.running_tasks.into_set()
    }

    fn len_inner(&self) -> (len: usize) {
        self.running_tasks.len()
    }

    fn is_empty_inner(&self) -> (empty: bool) {
        self.running_tasks.is_empty()
    }

    fn push_inner(&mut self, fut: F)
        ensures
            final(self).limit() == old(self).limit(),
            final(self).waiting() == old(self).waiting(),
    {
        self.running_tasks.push(fut);
    }

    fn clear_inner(&mut self)
        ensures
            final(self).fresh(),
            final(self).limit() == old(self).limit(),
            final(self).waiting() == old(self).waiting(),
    {
        self.running_tasks.clear();
    }
}

/// One future completing out of a running set, and a refill that splits
/// the remaining source into started and left futures, keep every other
/// future: the rest of the running set, the started and the left futures
/// hold the running and source futures less the completed one.
proof fn lemma_completion_conserves<F>(
    held: Seq<F>,
    done: int,
    started: Seq<F>,
    left: Seq<F>,
    source: Seq<F>,
)
    requires
        0 <= done < held.len(),
        (started + left).to_multiset() == source.to_multiset(),
    ensures
        (held.remove(done) + started + left).to_multiset() == (held + source).to_multiset().remove(
            held[done],
        ),
{
    broadcast use vstd::seq_lib::group_to_multiset_ensures;
    broadcast use vstd::seq_lib::lemma_multiset_commutative;

    let rest = held.remove(done);
    assert(rest + started + left =~= rest + (started + left));
    assert(held.to_multiset().remove(held[done]) == rest.to_multiset());
    assert(held[done] == (held + source)[done]);
    assert((held + source).remove(done) =~= rest + source);
    assert((rest + started + left).to_multiset() =~= (held + source).to_multiset().remove(
        held[done],
    ));
}

/// Futures popped from the back, with the ones left, hold the queue.
proof fn lemma_split_conserves<F>(started: Seq<F>, left: Seq<F>, queue: Seq<F>)
    requires
        left + started.reverse() == queue,
        started.reverse().to_multiset() == started.to_multiset(),
    ensures
        (started + left).to_multiset() == queue.to_multiset(),
{
    broadcast use vstd::seq_lib::group_to_multiset_ensures;
    broadcast use vstd::seq_lib::lemma_multiset_commutative;

    assert((started + left).to_multiset() =~= (left + started.reverse()).to_multiset());
}

/// Reversing a sequence keeps its multiset of items.
proof fn lemma_reverse_to_multiset<T>(s: Seq<T>)
    ensures
        s.reverse().to_multiset() == s.to_multiset(),
    decreases s.len(),
{
    broadcast use vstd::seq_lib::group_to_multiset_ensures;
    broadcast use vstd::seq_lib::lemma_multiset_commutative;

    if s.len() > 0 {
        let init = s.drop_last();
        lemma_reverse_to_multiset(init);
        assert(s.reverse() =~= seq![s.last()] + init.reverse());
        assert(init.push(s.last()) =~= s);
        assert(seq![s.last()] =~= Seq::<T>::empty().push(s.last()));
        assert(s.reverse().to_multiset() =~= s.to_multiset());
    }
}

/// Pushing a future loses nothing and adds only it: what it starts and what
/// waits afterwards hold the waiting futures and the new one. The running
/// set stays within the limit and stays saturated.
pub proof fn law_push_conserves<F>(
    waiting: Seq<F>,
    max_concurrent: nat,
    running_len: nat,
    fut: F,
)
    ensures
        ({
            let started = started_seq(admitted(fut, max_concurrent, running_len));
            let after = waiting_after_push(waiting, max_concurrent, running_len, fut);
            &&& (started + after).to_multiset() == waiting.to_multiset().insert(fut)
            &&& running_len <= max_concurrent ==> running_len + started.len() <= max_concurrent
            &&& saturated(waiting.len(), max_concurrent, running_len) ==> saturated(
                after.len(),
                max_concurrent,
                running_len + started.len(),
            )
        }),
{
    broadcast use vstd::seq_lib::group_to_multiset_ensures;
    broadcast use vstd::seq_lib::lemma_multiset_commutative;

    let started = started_seq(admitted(fut, max_concurrent, running_len));
    let after = waiting_after_push(waiting, max_concurrent, running_len, fut);
    assert(seq![fut] =~= Seq::<F>::empty().push(fut));
    assert((started + after).to_multiset() =~= waiting.to_multiset().insert(fut));
}

/// Pushing never disturbs the futures already waiting, for every queue,
/// limit and running length: below the limit the future is started and the
/// queue is left exactly as it was, in order; at or above the limit nothing
/// is started and the future is stored at the end of the queue, so that it
/// is the first to be started by the next refill.
pub proof fn law_push_keeps_queue<F>(
    waiting: Seq<F>,
    max_concurrent: nat,
    running_len: nat,
    fut: F,
)
    ensures
        running_len < max_concurrent ==> {
            &&& admitted(fut, max_concurrent, running_len) == Some(fut)
            &&& waiting_after_push(waiting, max_concurrent, running_len, fut) == waiting
        },
        running_len >= max_concurrent ==> {
            &&& admitted(fut, max_concurrent, running_len) is None
            &&& waiting_after_push(waiting, max_concurrent, running_len, fut) == waiting.push(fut)
        },
{
}

/// Any running future of a `FuturesUnordered` may complete first. Refilling
/// after it completes loses nothing and starts nothing twice: the rest of the
/// running set, the started futures and those still waiting hold exactly the
/// futures that were running or waiting before, less the completed one. The
/// running set stays within the limit and ends saturated.
pub proof fn law_refill_after_completion_conserves<F>(
    running: Seq<F>,
    completed: int,
    waiting: Seq<F>,
    max_concurrent: nat,
)
    requires
        0 <= completed < running.len(),
    ensures
        ({
            let rest = running.remove(completed);
            let (started, left) = split_back(waiting, max_concurrent, rest.len());
            &&& (rest + started + left).to_multiset() == (running + waiting).to_multiset().remove(
                running[completed],
            )
            &&& rest.len() <= max_concurrent ==> rest.len() + started.len() <= max_concurrent
            &&& saturated(left.len(), max_concurrent, rest.len() + started.len())
        }),
{
    broadcast use vstd::seq_lib::group_to_multiset_ensures;
    broadcast use vstd::seq_lib::lemma_multiset_commutative;

    let rest = running.remove(completed);
    let (started, left) = split_back(waiting, max_concurrent, rest.len());
    law_split_back(waiting, max_concurrent, rest.len());
    lemma_reverse_to_multiset(started);
    assert((left + started.reverse()).to_multiset() == waiting.to_multiset());
    assert((started + left).to_multiset() =~= waiting.to_multiset());
    assert(rest + started + left =~= rest + (started + left));
    assert(running.to_multiset().remove(running[completed]) == rest.to_multiset());
    assert(running[completed] == (running + waiting)[completed]);
    assert((running + waiting).remove(completed) =~= rest + waiting);
    assert((rest + started + left).to_multiset() =~= (running + waiting).to_multiset().remove(
        running[completed],
    ));
}

/// Whole runs of a `FuturesUnorderedBounded`: start from a balanced runner
/// with a positive limit and make any calls of `push` and `poll_next`, each
/// as its contract describes (the clauses below are taken from those
/// contracts). Then every output is that of a distinct future that was
/// pending at the start or pushed since, and those futures together with the
/// ones still pending are exactly the futures pending at the start or pushed
/// since; the runner is still balanced; and a poll answers `Ready(None)`
/// only when nothing is pending.
pub proof fn law_run_yields_each_future_once<F: core::future::Future>(
    runs: Seq<FuturesUnorderedBounded<F>>,
    calls: Seq<Call<F, F::Output>>,
)
    requires
        runs.len() == calls.len() + 1,
        runs[0].balanced(),
        runs[0].limit() > 0,
        forall|i: int|
            #![trigger calls[i]]
            0 <= i < calls.len() ==> {
                &&& runs[i + 1].limit() == runs[i].limit()
                &&& match calls[i] {
                    Call::Pushed(fut) => runs[i].balanced() ==> {
                        &&& runs[i + 1].balanced()
                        &&& runs[i + 1].pending()->0.to_multiset() == runs[i].pending()->0.to_multiset().insert(fut)
                    },
                    Call::Polled(polled) => {
                        &&& runs[i].balanced() ==> runs[i + 1].balanced()
                        &&& match polled {
                            Poll::Ready(Some(out)) => runs[i].running() is Some ==> exists|done: int|
                                {
                                    &&& 0 <= done < runs[i].running()->0.len()
                                    &&& out == (#[trigger] runs[i].running()->0[done]).view()
                                    &&& runs[i + 1].pending()->0.to_multiset() == runs[i].pending()->0.to_multiset().remove(
                                        runs[i].running()->0[done],
                                    )
                                },
                            Poll::Ready(None) => {
                                &&& runs[i].running() is Some ==> runs[i].running()->0.len() == 0
                                &&& runs[i + 1].running() == Some(Seq::<F>::empty())
                                &&& runs[i + 1].waiting() == runs[i].waiting()
                            },
                            Poll::Pending => {
                                &&& runs[i + 1].running() == runs[i].running()
                                &&& runs[i + 1].waiting() == runs[i].waiting()
                            },
                        }
                    },
                }
            },
    ensures
        ({
            let all = runs[0].pending()->0 + pushed(calls);
            let out = yielded(calls);
            &&& exists|done: Seq<F>|
                {
                    &&& done.len() == out.len()
                    &&& forall|j: int| 0 <= j < out.len() ==> #[trigger] out[j] == done[j].view()
                    &&& done.to_multiset().add(
                        runs[calls.len() as int].pending()->0.to_multiset(),
                    ) == all.to_multiset()
                }
            &&& runs[calls.len() as int].balanced()
            &&& runs[calls.len() as int].limit() == runs[0].limit()
        }),
        forall|i: int|
            0 <= i < calls.len() && (#[trigger] calls[i] matches Call::Polled(Poll::Ready(None)))
                ==> runs[i].pending()->0.len() == 0,
    decreases calls.len(),
{
    broadcast use vstd::seq_lib::group_to_multiset_ensures;
    broadcast use vstd::seq_lib::lemma_multiset_commutative;
    broadcast use vstd::multiset::group_multiset_axioms;

    let all0 = runs[0].pending()->0;
    if calls.len() == 0 {
        let done = Seq::<F>::empty();
        assert(done.to_multiset().add(all0.to_multiset()) =~= (all0 + pushed(calls)).to_multiset());
    } else {
        let n = calls.len() - 1;
        let prev_runs = runs.drop_last();
        let prev_calls = calls.drop_last();
        assert forall|i: int| 0 <= i < prev_calls.len() implies #[trigger] prev_calls[i] == calls[i]
            && prev_runs[i] == runs[i] && prev_runs[i + 1] == runs[i + 1] by {}
        law_run_yields_each_future_once(prev_runs, prev_calls);
        let all = all0 + pushed(prev_calls);
        let out = yielded(prev_calls);
        let done = choose|done: Seq<F>|
            {
                &&& done.len() == out.len()
                &&& forall|j: int| 0 <= j < out.len() ==> #[trigger] out[j] == done[j].view()
                &&& done.to_multiset().add(prev_runs[n].pending()->0.to_multiset()) == all.to_multiset()
            };
        let before = runs[n];
        let after = runs[n + 1];
        assert(before == prev_runs[n]);
        let pend = before.pending()->0;
        match calls[n] {
            Call::Pushed(fut) => {
                assert(pushed(calls) == pushed(prev_calls).push(fut));
                assert(yielded(calls) == out);
                assert(all0 + pushed(calls) =~= all.push(fut));
                assert(done.to_multiset().add(after.pending()->0.to_multiset()) =~= (all0 + pushed(
                    calls,
                )).to_multiset());
            },
            Call::Polled(polled) => {
                assert(pushed(calls) == pushed(prev_calls));
                match polled {
                    Poll::Ready(Some(value)) => {
                        assert(yielded(calls) == out.push(value));
                        let held = before.running()->0;
                        let d = choose|d: int|
                            {
                                &&& 0 <= d < held.len()
                                &&& value == (#[trigger] held[d]).view()
                                &&& after.pending()->0.to_multiset() == pend.to_multiset().remove(
                                    held[d],
                                )
                            };
                        let fut = held[d];
                        assert(pend[d] == fut);
                        assert(pend.to_multiset().count(fut) > 0);
                        let done2 = done.push(fut);
                        assert(done2.to_multiset().add(after.pending()->0.to_multiset())
                            =~= done.to_multiset().add(pend.to_multiset()));
                        assert forall|j: int| 0 <= j < out.len() + 1 implies #[trigger] yielded(calls)[j] == done2[j].view() by {
                            if j < out.len() {
                                assert(yielded(calls)[j] == out[j]);
                            }
                        }
                        assert(done2.len() == yielded(calls).len());
                    },
                    Poll::Ready(None) => {
                        assert(yielded(calls) == out);
                        assert(before.waiting().len() == 0);
                        assert(after.pending()->0 =~= pend);
                    },
                    Poll::Pending => {
                        assert(yielded(calls) == out);
                        assert(after.pending()->0 =~= pend);
                    },
                }
            },
        }
        assert forall|i: int|
            0 <= i < calls.len() && (#[trigger] calls[i] matches Call::Polled(Poll::Ready(None)))
            implies runs[i].pending()->0.len() == 0 by {
            if i < n {
                assert(prev_calls[i] == calls[i]);
            }
        }
    }
}

/// Whole runs of a `FuturesUnorderedIter` over an iterator that obeys vstd's
/// iterator laws: start from a runner whose running set is known, within a
/// positive limit, and full unless the iterator is exhausted, and poll it
/// any number of times, each poll as `poll_next`'s contract describes (the
/// clauses below are taken from it). Then every output is that of a
/// distinct future that was running at the start or still in the iterator,
/// and those futures together with the ones running or left in the iterator
/// are exactly the futures running or left at the start; no more than the
/// limit are ever running; and a poll answers `Ready(None)` only when
/// nothing is left.
pub proof fn law_iter_run_yields_each_future_once<I, F>(
    runs: Seq<FuturesUnorderedIter<I, F>>,
    calls: Seq<Call<F, F::Output>>,
)
    where
        F: core::future::Future,
        I: Iterator<Item = F>,
    requires
        runs.len() == calls.len() + 1,
        runs[0].limit() > 0,
        runs[0].source().obeys_prophetic_iter_laws(),
        runs[0].running() is Some,
        runs[0].running()->0.len() <= runs[0].limit(),
        saturated(
            runs[0].source().remaining().len(),
            runs[0].limit(),
            runs[0].running()->0.len(),
        ),
        forall|i: int|
            #![trigger calls[i]]
            0 <= i < calls.len() ==> match calls[i] {
                Call::Pushed(_) => false,
                Call::Polled(polled) => {
                    &&& runs[i + 1].limit() == runs[i].limit()
                    &&& runs[i].source().obeys_prophetic_iter_laws()
                        ==> runs[i + 1].source().obeys_prophetic_iter_laws()
                    &&& match polled {
                        Poll::Ready(Some(out)) => runs[i].running() is Some ==> exists|done: int|
                            #![trigger runs[i].running()->0[done]]
                            {
                                let held = runs[i].running()->0;
                                &&& 0 <= done < held.len()
                                &&& out == held[done].view()
                                &&& runs[i + 1].running() is Some
                                &&& held.len() - 1 <= runs[i].limit() ==> runs[i + 1].running()->0.len()
                                    <= runs[i].limit()
                                &&& runs[i].source().obeys_prophetic_iter_laws() ==> {
                                    &&& (runs[i + 1].running()->0
                                        + runs[i + 1].source().remaining()).to_multiset() == (held
                                        + runs[i].source().remaining()).to_multiset().remove(
                                        held[done],
                                    )
                                    &&& saturated(
                                        runs[i + 1].source().remaining().len(),
                                        runs[i].limit(),
                                        runs[i + 1].running()->0.len(),
                                    )
                                }
                            },
                        Poll::Ready(None) => {
                            &&& runs[i].running() is Some ==> runs[i].running()->0.len() == 0
                            &&& runs[i + 1].running() == Some(Seq::<F>::empty())
                            &&& runs[i + 1].source() == runs[i].source()
                        },
                        Poll::Pending => {
                            &&& runs[i + 1].running() == runs[i].running()
                            &&& runs[i + 1].source() == runs[i].source()
                        },
                    }
                },
            },
    ensures
        ({
            let all = runs[0].running()->0 + runs[0].source().remaining();
            let out = yielded(calls);
            let last = runs[calls.len() as int];
            &&& exists|done: Seq<F>|
                #![trigger done.to_multiset()]
                {
                    &&& done.len() == out.len()
                    &&& forall|j: int| 0 <= j < out.len() ==> #[trigger] out[j] == done[j].view()
                    &&& done.to_multiset().add(
                        (last.running()->0 + last.source().remaining()).to_multiset(),
                    ) == all.to_multiset()
                }
            &&& last.source().obeys_prophetic_iter_laws()
            &&& last.running() is Some
            &&& last.running()->0.len() <= runs[0].limit()
            &&& last.limit() == runs[0].limit()
            &&& saturated(last.source().remaining().len(), last.limit(), last.running()->0.len())
        }),
        forall|i: int|
            0 <= i < calls.len() && (#[trigger] calls[i] matches Call::Polled(Poll::Ready(None)))
                ==> runs[i].running()->0.len() == 0 && runs[i].source().remaining().len() == 0,
    decreases calls.len(),
{
    broadcast use vstd::seq_lib::group_to_multiset_ensures;
    broadcast use vstd::seq_lib::lemma_multiset_commutative;
    broadcast use vstd::multiset::group_multiset_axioms;

    let all = runs[0].running()->0 + runs[0].source().remaining();
    if calls.len() == 0 {
        let done = Seq::<F>::empty();
        assert(done.to_multiset().add(all.to_multiset()) =~= all.to_multiset());
    } else {
        let n = calls.len() - 1;
        let prev_runs = runs.drop_last();
        let prev_calls = calls.drop_last();
        assert forall|i: int| 0 <= i < prev_calls.len() implies #[trigger] prev_calls[i] == calls[i]
            && prev_runs[i] == runs[i] && prev_runs[i + 1] == runs[i + 1] by {}
        law_iter_run_yields_each_future_once(prev_runs, prev_calls);
        let out = yielded(prev_calls);
        let before = runs[n];
        let after = runs[n + 1];
        assert(before == prev_runs[n]);
        let held = before.running()->0;
        let pending = held + before.source().remaining();
        let done = choose|done: Seq<F>|
            {
                &&& done.len() == out.len()
                &&& forall|j: int| 0 <= j < out.len() ==> #[trigger] out[j] == done[j].view()
                &&& done.to_multiset().add(pending.to_multiset()) == all.to_multiset()
            };
        match calls[n] {
            Call::Pushed(_) => {},
            Call::Polled(polled) => match polled {
                Poll::Ready(Some(value)) => {
                    assert(yielded(calls) == out.push(value));
                    let d = choose|d: int|
                        {
                            &&& 0 <= d < held.len()
                            &&& value == (#[trigger] held[d]).view()
                            &&& runs[n + 1].running() is Some
                            &&& held.len() - 1 <= runs[n].limit() ==> runs[n + 1].running()->0.len()
                                <= runs[n].limit()
                            &&& runs[n].source().obeys_prophetic_iter_laws() ==> {
                                &&& (runs[n + 1].running()->0
                                    + runs[n + 1].source().remaining()).to_multiset() == (held
                                    + runs[n].source().remaining()).to_multiset().remove(held[d])
                                &&& saturated(
                                    runs[n + 1].source().remaining().len(),
                                    runs[n].limit(),
                                    runs[n + 1].running()->0.len(),
                                )
                            }
                        };
                    let fut = held[d];
                    assert(pending[d] == fut);
                    assert(pending.to_multiset().count(fut) > 0);
                    let done2 = done.push(fut);
                    let pending2 = after.running()->0 + after.source().remaining();
                    assert(done2.to_multiset().add(pending2.to_multiset())
                        =~= done.to_multiset().add(pending.to_multiset()));
                    assert forall|j: int| 0 <= j < out.len() + 1 implies #[trigger] yielded(calls)[j] == done2[j].view() by {
                        if j < out.len() {
                            assert(yielded(calls)[j] == out[j]);
                        }
                    }
                },
                Poll::Ready(None) => {
                    assert(yielded(calls) == out);
                    assert(before.source().remaining().len() == 0);
                    assert(after.running()->0 + after.source().remaining() =~= pending);
                    assert(done.to_multiset().add(
                        (after.running()->0 + after.source().remaining()).to_multiset(),
                    ) == all.to_multiset());
                },
                Poll::Pending => {
                    assert(yielded(calls) == out);
                    assert(after.running()->0 + after.source().remaining() == pending);
                    assert(done.to_multiset().add(
                        (after.running()->0 + after.source().remaining()).to_multiset(),
                    ) == all.to_multiset());
                },
            },
        }
        assert forall|i: int|
            0 <= i < calls.len() && (#[trigger] calls[i] matches Call::Polled(Poll::Ready(None)))
            implies runs[i].running()->0.len() == 0 && runs[i].source().remaining().len() == 0 by {
            if i < n {
                assert(prev_calls[i] == calls[i]);
            }
        }
    }
}

} // verus!
