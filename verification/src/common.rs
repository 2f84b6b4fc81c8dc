//! Items shared by the ordered and unordered runners.
use core::task::Poll;

use futures::stream::FuturesUnordered;
use vstd::prelude::*;

use crate::running::extended;


verus! {

/// Provides common methods across unordered and ordered
/// implementations.
pub trait Passthrough<F> where F: core::future::Future {
    /// The type of the inner `Stream`. This can be either
    /// `FuturesUnordered` or `FuturesOrdered`.
    type FuturesHolder;

    /// Change the internal `max_concurrent` capacity at runtime.
    ///
    /// **IMPORTANT**: The new limit won't be applied until `poll_next()`
    /// method returns `Poll::Ready(T)`.
    fn set_max_concurrent(&mut self, max_concurrent: usize);

    /// Borrow the inner `Stream`.
    fn borrow_inner(&self) -> &Self::FuturesHolder;

    /// Mutably borrow the inner `Stream`.
    /// Note that this library might not work reliably if you
    /// modify the underlying `Stream`.
    fn borrow_mut_inner(&mut self) -> &mut Self::FuturesHolder;

    /// Consume the runner and return the inner `Stream`.
    fn into_inner(self) -> Self::FuturesHolder where Self: Sized;
}

/// Provides common methods for the unordered runners, whose running set is
/// a `FuturesUnordered`.
pub trait UnorderedPassthrough<F> where F: core::future::Future {
    /// The futures in the running set, as far as the runner knows them:
    /// `None` once the set was borrowed mutably.
    spec fn running_set(&self) -> Option<Seq<F>>;

    /// Change the internal `max_concurrent` capacity at runtime.
    ///
    /// **IMPORTANT**: The new limit won't be applied until `poll_next()`
    /// method returns `Poll::Ready(T)`.
    fn set_capacity(&mut self, max_concurrent: usize)
        ensures
            final(self).running_set() == old(self).running_set(),
    ;

    /// Borrow the inner `FuturesUnordered`. Futures can be pushed through a
    /// shared reference to it, so the runner stops relying on what it knows
    /// of the running set.
    fn borrow_inner(&mut self) -> (inner: &FuturesUnordered<F>)
        ensures
            final(self).running_set() is None,
    ;

    /// Mutably borrow the inner `FuturesUnordered`.
    /// Note that this library might not work reliably if you
    /// modify the underlying `Stream`.
    fn borrow_mut_inner(&mut self) -> (inner: &mut FuturesUnordered<F>)
        ensures
            final(self).running_set() is None,
    ;

    /// Consume the runner and return the inner `FuturesUnordered`.
    fn into_inner(self) -> FuturesUnordered<F> where Self: Sized;

    /// Number of futures in the inner `FuturesUnordered`.
    fn len_inner(&self) -> (len: usize)
        ensures
            self.running_set() is Some ==> len == self.running_set()->0.len(),
    ;

    /// Whether the inner `FuturesUnordered` is empty.
    fn is_empty_inner(&self) -> (empty: bool)
        ensures
            self.running_set() is Some ==> empty == (self.running_set()->0.len() == 0),
    ;

    /// Push a future straight into the inner `FuturesUnordered`, bypassing
    /// the limit.
    fn push_inner(&mut self, fut: F)
        ensures
            final(self).running_set() == extended(old(self).running_set(), seq![fut]),
    ;

    /// Clear the inner `FuturesUnordered`.
    fn clear_inner(&mut self)
        ensures
            final(self).running_set() == Some(Seq::<F>::empty()),
    ;
}

/// One call made on a runner during a run: a future pushed, or a poll and
/// what it answered.
#[verifier::reject_recursive_types(T)]
pub enum Call<F, T> {
    /// A future was pushed.
    Pushed(F),
    /// The runner was polled and answered this.
    Polled(Poll<Option<T>>),
}

/// The futures pushed during a run, in order.
pub open spec fn pushed<F, T>(calls: Seq<Call<F, T>>) -> Seq<F>
    decreases calls.len(),
{
    if calls.len() == 0 {
        Seq::empty()
    } else {
        let before = pushed(calls.drop_last());
        match calls.last() {
            Call::Pushed(fut) => before.push(fut),
            Call::Polled(_) => before,
        }
    }
}

/// The outputs yielded during a run, in order.
pub open spec fn yielded<F, T>(calls: Seq<Call<F, T>>) -> Seq<T>
    decreases calls.len(),
{
    if calls.len() == 0 {
        Seq::empty()
    } else {
        let before = yielded(calls.drop_last());
        match calls.last() {
            Call::Polled(Poll::Ready(Some(out))) => before.push(out),
            _ => before,
        }
    }
}

/// How many more futures a running set of `running_len` futures can take
/// before it holds `max_concurrent` of them (zero once it is full or over).
pub open spec fn free_slots(max_concurrent: nat, running_len: nat) -> nat {
    if running_len < max_concurrent {
        (max_concurrent - running_len) as nat
    } else {
        0
    }
}

/// How many futures a refill starts: as many as there are free slots, but
/// no more than `available` are waiting.
pub open spec fn refill_count(max_concurrent: nat, running_len: nat, available: nat) -> nat {
    if free_slots(max_concurrent, running_len) <= available {
        free_slots(max_concurrent, running_len)
    } else {
        available
    }
}

/// The state every operation aims for: futures wait only while the running
/// set is full.
pub open spec fn saturated(waiting: nat, max_concurrent: nat, running_len: nat) -> bool {
    waiting > 0 ==> running_len >= max_concurrent
}

/// The futures started and the futures left when up to
/// `refill_count(..)` futures are taken from the front of `source`.
pub open spec fn split_front<T>(source: Seq<T>, max_concurrent: nat, running_len: nat) -> (
    Seq<T>,
    Seq<T>,
) {
    let count = refill_count(max_concurrent, running_len, source.len());
    (source.take(count as int), source.skip(count as int))
}

/// The futures started and the futures left when up to
/// `refill_count(..)` futures are popped one by one from the back of
/// `queue`: the started ones come last-pushed first.
pub open spec fn split_back<T>(queue: Seq<T>, max_concurrent: nat, running_len: nat) -> (
    Seq<T>,
    Seq<T>,
) {
    let kept = queue.len() - refill_count(max_concurrent, running_len, queue.len());
    (queue.skip(kept).reverse(), queue.take(kept))
}

/// Where a newly added future goes: handed back to be started when the
/// running set has a free slot, else kept waiting.
pub open spec fn admitted<T>(fut: T, max_concurrent: nat, running_len: nat) -> Option<T> {
    if running_len < max_concurrent {
        Some(fut)
    } else {
        None
    }
}

/// The futures that an admission decision starts: none, or the one.
pub open spec fn started_seq<T>(to_start: Option<T>) -> Seq<T> {
    match to_start {
        Some(fut) => seq![fut],
        None => Seq::empty(),
    }
}

/// Number of free slots in a running set of `running_len` futures under a
/// limit of `max_concurrent`.
pub fn free_slots_of(max_concurrent: usize, running_len: usize) -> (n: usize)
    ensures
        n == free_slots(max_concurrent as nat, running_len as nat),
        running_len >= max_concurrent ==> n == 0,
        running_len < max_concurrent ==> running_len + n == max_concurrent,
{
    if running_len < max_concurrent {
        max_concurrent - running_len
    } else {
        0
    }
}

/// A refill never takes the running set past the limit, and leaves it full
/// unless every available future was started.
pub proof fn law_refill_count(max_concurrent: nat, running_len: nat, available: nat)
    requires
        running_len <= max_concurrent,
    ensures
        running_len + refill_count(max_concurrent, running_len, available) <= max_concurrent,
        refill_count(max_concurrent, running_len, available) <= available,
        running_len + refill_count(max_concurrent, running_len, available) == max_concurrent
            || refill_count(max_concurrent, running_len, available) == available,
{
}

/// For every running length and every number of available futures: a
/// running set at or above the limit has no free slot and a refill starts
/// nothing; below the limit the free slots are exactly what fills it to the
/// limit, and a refill starts that many futures, or every available one if
/// there are fewer.
pub proof fn law_refill_bounds(max_concurrent: nat, running_len: nat, available: nat)
    ensures
        running_len >= max_concurrent ==> free_slots(max_concurrent, running_len) == 0,
        running_len >= max_concurrent ==> refill_count(max_concurrent, running_len, available)
            == 0,
        running_len < max_concurrent ==> running_len + free_slots(max_concurrent, running_len)
            == max_concurrent,
        running_len < max_concurrent && running_len + available >= max_concurrent
            ==> running_len + refill_count(max_concurrent, running_len, available)
            == max_concurrent,
        running_len < max_concurrent && running_len + available < max_concurrent
            ==> refill_count(max_concurrent, running_len, available) == available,
{
}

/// Taking futures from the front of a source loses none and reorders none:
/// the started ones followed by the ones left are the source. Afterwards
/// the running set is saturated, and it stays within the limit when it
/// was within it before.
pub proof fn law_split_front<T>(source: Seq<T>, max_concurrent: nat, running_len: nat)
    ensures
        ({
            let (started, left) = split_front(source, max_concurrent, running_len);
            &&& started + left == source
            &&& started.len() == refill_count(max_concurrent, running_len, source.len())
            &&& saturated(left.len(), max_concurrent, running_len + started.len())
            &&& running_len <= max_concurrent ==> running_len + started.len() <= max_concurrent
        }),
{
    let (started, left) = split_front(source, max_concurrent, running_len);
    assert(started + left =~= source);
}

/// Popping futures from the back of a queue loses none: the ones left,
/// followed by the started ones in reverse, are the queue. Afterwards the
/// running set is saturated, and it stays within the limit when it was
/// within it before.
pub proof fn law_split_back<T>(queue: Seq<T>, max_concurrent: nat, running_len: nat)
    ensures
        ({
            let (started, left) = split_back(queue, max_concurrent, running_len);
            &&& left + started.reverse() == queue
            &&& started.len() == refill_count(max_concurrent, running_len, queue.len())
            &&& saturated(left.len(), max_concurrent, running_len + started.len())
            &&& running_len <= max_concurrent ==> running_len + started.len() <= max_concurrent
        }),
{
    let (started, left) = split_back(queue, max_concurrent, running_len);
    let kept = queue.len() - refill_count(max_concurrent, running_len, queue.len());
    assert(started.reverse() =~= queue.skip(kept));
    assert(left + started.reverse() =~= queue);
}

/// A refill starts futures only below the limit, for every queue and every
/// running length: at or above the limit it starts none and leaves the
/// queue as it was; below it, it starts the front of the queue, as many as
/// fill the running set to the limit or the whole queue if that is shorter.
pub proof fn law_refill_from_front_respects_limit<T>(
    waiting: Seq<T>,
    max_concurrent: nat,
    running_len: nat,
)
    ensures
        ({
            let (started, left) = split_front(waiting, max_concurrent, running_len);
            &&& started + left == waiting
            &&& running_len >= max_concurrent ==> started.len() == 0 && left == waiting
            &&& running_len < max_concurrent && running_len + waiting.len() >= max_concurrent
                ==> running_len + started.len() == max_concurrent
            &&& running_len < max_concurrent && running_len + waiting.len() < max_concurrent
                ==> started == waiting && left.len() == 0
        }),
{
    law_split_front(waiting, max_concurrent, running_len);
    law_refill_bounds(max_concurrent, running_len, waiting.len());
    let (started, left) = split_front(waiting, max_concurrent, running_len);
    if running_len >= max_concurrent {
        assert(left =~= waiting);
    }
    if running_len < max_concurrent && running_len + waiting.len() < max_concurrent {
        assert(started =~= waiting);
    }
}

/// A refill from the back starts futures only below the limit, for every
/// queue and every running length: at or above the limit it starts none
/// and leaves the queue as it was; below it, it pops from the back of the
/// queue, last pushed first, as many as fill the running set to the limit
/// or the whole queue if that is shorter.
pub proof fn law_refill_from_back_respects_limit<T>(
    waiting: Seq<T>,
    max_concurrent: nat,
    running_len: nat,
)
    ensures
        ({
            let (started, left) = split_back(waiting, max_concurrent, running_len);
            &&& left + started.reverse() == waiting
            &&& running_len >= max_concurrent ==> started.len() == 0 && left == waiting
            &&& running_len < max_concurrent && running_len + waiting.len() >= max_concurrent
                ==> running_len + started.len() == max_concurrent
            &&& running_len < max_concurrent && running_len + waiting.len() < max_concurrent
                ==> started == waiting.reverse() && left.len() == 0
        }),
{
    law_split_back(waiting, max_concurrent, running_len);
    law_refill_bounds(max_concurrent, running_len, waiting.len());
    let (started, left) = split_back(waiting, max_concurrent, running_len);
    if running_len >= max_concurrent {
        assert(left =~= waiting);
    }
    if running_len < max_concurrent && running_len + waiting.len() < max_concurrent {
        assert(started =~= waiting.reverse());
    }
}

/// Admitting a future never takes a running set past the limit, and a
/// future is kept waiting exactly when the running set is full. A saturated
/// runner stays saturated.
pub proof fn law_admitted<T>(fut: T, max_concurrent: nat, running_len: nat, waiting_len: nat)
    ensures
        running_len <= max_concurrent ==> running_len + started_seq(
            admitted(fut, max_concurrent, running_len),
        ).len() <= max_concurrent,
        admitted(fut, max_concurrent, running_len) is None <==> running_len >= max_concurrent,
        saturated(waiting_len, max_concurrent, running_len) ==> saturated(
            (waiting_len + 1 - started_seq(admitted(fut, max_concurrent, running_len)).len()) as nat,
            max_concurrent,
            running_len + started_seq(admitted(fut, max_concurrent, running_len)).len(),
        ),
{
}

} // verus!
